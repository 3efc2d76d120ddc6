use robyn::conn::ConnectionRegistry;
use robyn::types::SendError;

#[test]
fn send_after_close_fails_without_touching_others() {
    let mut reg = ConnectionRegistry::new();
    let a = reg.open_connection();
    let b = reg.open_connection();
    assert!(reg.send(a, b"one".to_vec()).is_ok());
    assert!(reg.send(b, b"two".to_vec()).is_ok());
    reg.close(a).unwrap();
    assert!(matches!(reg.send(a, b"three".to_vec()), Err(SendError::ConnectionClosed)));
    assert!(reg.is_live(b));
    assert!(reg.send(b, b"four".to_vec()).is_ok());
    let out = reg.take_outbound(b).unwrap();
    assert_eq!(out, vec![b"two".to_vec(), b"four".to_vec()]);
}

#[test]
fn close_is_not_idempotent_on_stale_identity() {
    let mut reg = ConnectionRegistry::new();
    let a = reg.open_connection();
    assert!(reg.close(a).is_ok());
    assert!(matches!(reg.close(a), Err(SendError::ConnectionClosed)));
}

#[test]
fn reused_slot_gets_fresh_generation() {
    let mut reg = ConnectionRegistry::new();
    let a = reg.open_connection();
    reg.close(a).unwrap();
    let b = reg.open_connection();
    assert_eq!(a.index, b.index);
    assert_ne!(a.generation, b.generation);
    assert!(!reg.is_live(a));
    assert!(reg.is_live(b));
    assert!(matches!(reg.send(a, b"stale".to_vec()), Err(SendError::ConnectionClosed)));
    assert!(reg.send(b, b"fresh".to_vec()).is_ok());
    assert_eq!(reg.take_outbound(b).unwrap(), vec![b"fresh".to_vec()]);
}

#[test]
fn outbound_messages_stay_in_send_order() {
    let mut reg = ConnectionRegistry::new();
    let a = reg.open_connection();
    reg.send(a, b"m1".to_vec()).unwrap();
    reg.send(a, b"m2".to_vec()).unwrap();
    reg.send(a, b"m3".to_vec()).unwrap();
    assert_eq!(
        reg.take_outbound(a).unwrap(),
        vec![b"m1".to_vec(), b"m2".to_vec(), b"m3".to_vec()]
    );
    assert_eq!(reg.take_outbound(a).unwrap(), Vec::<Vec<u8>>::new());
    assert!(matches!(reg.take_outbound(a), Ok(_)));
}
