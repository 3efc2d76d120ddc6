use robyn::socket::SharedSocket;

#[test]
fn each_connection_accepted_by_exactly_one_worker() {
    let mut s = SharedSocket::bind();
    for c in [101u64, 102, 103, 104, 105] {
        s.arrive(c);
    }
    assert_eq!(s.accept(1), Some(101));
    assert_eq!(s.accept(2), Some(102));
    assert_eq!(s.accept(1), Some(103));
    assert_eq!(s.accept(3), Some(104));
    assert_eq!(s.accept(2), Some(105));
    assert_eq!(s.accept(1), None);
    let mut conns: Vec<u64> = s.accepted.iter().map(|p| p.0).collect();
    assert_eq!(conns.len(), 5);
    conns.sort();
    conns.dedup();
    assert_eq!(conns.len(), 5);
}

#[test]
fn accept_on_empty_queue_returns_none() {
    let mut s = SharedSocket::bind();
    assert_eq!(s.accept(1), None);
    s.arrive(7);
    assert_eq!(s.accept(2), Some(7));
    assert_eq!(s.accept(2), None);
}
