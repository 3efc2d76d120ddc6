use vstd::prelude::*;

use crate::types::{HttpMethod, RespShape, ResponseContext};

verus! {

pub const CR: u8 = 13;
pub const LF: u8 = 10;
pub const SP: u8 = 32;

/// The decimal digits of `n`, most significant first.
pub open spec fn digits_spec(n: int) -> Seq<u8>
    decreases n,
{
    if n < 10 {
        seq![(48 + n) as u8]
    } else {
        digits_spec(n / 10) + seq![(48 + n % 10) as u8]
    }
}

/// Appends the decimal digits of `n`.
fn push_digits(out: &mut Vec<u8>, n: usize)
    ensures
        final(out)@ == old(out)@ + digits_spec(n as int),
    decreases n,
{
    if n < 10 {
        out.push(48 + (n as u8));
        proof {
            assert(old(out)@.push((48 + n) as u8) =~= old(out)@ + digits_spec(n as int));
        }
    } else {
        push_digits(out, n / 10);
        out.push(48 + ((n % 10) as u8));
        proof {
            assert((old(out)@ + digits_spec(n as int / 10)).push((48 + n as int % 10) as u8)
                =~= old(out)@ + digits_spec(n as int));
        }
    }
}

/// One serialized header line: `name: value` and the line end.
pub open spec fn header_bytes(h: (Seq<u8>, Seq<u8>)) -> Seq<u8> {
    h.0 + seq![58u8, SP] + h.1 + seq![CR, LF]
}

/// All header lines, in order.
pub open spec fn headers_bytes(hs: Seq<(Seq<u8>, Seq<u8>)>) -> Seq<u8>
    decreases hs.len(),
{
    if hs.len() == 0 {
        seq![]
    } else {
        headers_bytes(hs.drop_last()) + header_bytes(hs.last())
    }
}

/// The status line: `HTTP/1.1 `, the status code, a space, the line end.
pub open spec fn status_line_bytes(status: u16) -> Seq<u8> {
    seq![72u8, 84u8, 84u8, 80u8, 47u8, 49u8, 46u8, 49u8, SP] + digits_spec(status as int) + seq![
        SP,
        CR,
        LF,
    ]
}

/// The `Content-Length` line for a body of `n` bytes.
pub open spec fn content_length_bytes(n: int) -> Seq<u8> {
    seq![
        67u8, 111u8, 110u8, 116u8, 101u8, 110u8, 116u8, 45u8, 76u8, 101u8, 110u8, 103u8, 116u8,
        104u8, 58u8, SP,
    ] + digits_spec(n) + seq![CR, LF]
}

/// The whole response on the wire: status line, the response's own headers,
/// the computed `Content-Length`, a blank line, then the body.
pub open spec fn response_bytes(r: RespShape) -> Seq<u8> {
    status_line_bytes(r.status) + headers_bytes(r.headers) + content_length_bytes(r.body.len() as int)
        + seq![CR, LF] + r.body
}

/// Appends every byte of `src`.
fn push_all(out: &mut Vec<u8>, src: &[u8])
    ensures
        final(out)@ == old(out)@ + src@,
{
    let mut k: usize = 0;
    while k < src.len()
        invariant
            k <= src.len(),
            out@ == old(out)@ + src@.subrange(0, k as int),
        decreases src.len() - k,
    {
        proof {
            assert((old(out)@ + src@.subrange(0, k as int)).push(src@[k as int]) =~= old(out)@
                + src@.subrange(0, k as int + 1));
        }
        out.push(src[k]);
        k = k + 1;
    }
    proof {
        assert(old(out)@ + src@.subrange(0, src@.len() as int) =~= old(out)@ + src@);
    }
}

/// Serializes a response into HTTP/1.1 wire bytes, exactly as
/// `response_bytes` lays them out.
#[verifier::rlimit(60)]
pub fn serialize_response(r: &ResponseContext) -> (out: Vec<u8>)
    ensures
        out@ == response_bytes(r@),
{
    let mut out: Vec<u8> = Vec::new();
    out.push(72);
    out.push(84);
    out.push(84);
    out.push(80);
    out.push(47);
    out.push(49);
    out.push(46);
    out.push(49);
    out.push(SP);
    push_digits(&mut out, r.status as usize);
    out.push(SP);
    out.push(CR);
    out.push(LF);
    proof {
        assert(out@ =~= status_line_bytes(r@.status));
    }
    let ghost hs = r@.headers;
    let mut k: usize = 0;
    while k < r.headers.len()
        invariant
            k <= r.headers@.len(),
            hs == r@.headers,
            hs.len() == r.headers@.len(),
            forall|m: int| 0 <= m < hs.len() ==> hs[m] == (r.headers@[m].0@, r.headers@[m].1@),
            out@ == status_line_bytes(r@.status) + headers_bytes(hs.take(k as int)),
        decreases r.headers.len() - k,
    {
        let name = &r.headers[k].0;
        let value = &r.headers[k].1;
        push_all(&mut out, name.as_slice());
        out.push(58);
        out.push(SP);
        push_all(&mut out, value.as_slice());
        out.push(CR);
        out.push(LF);
        proof {
            assert(hs.take(k as int + 1).drop_last() =~= hs.take(k as int));
            assert(hs.take(k as int + 1).last() == hs[k as int]);
            assert(out@ =~= status_line_bytes(r@.status) + headers_bytes(hs.take(k as int + 1)));
        }
        k = k + 1;
    }
    proof {
        assert(hs.take(hs.len() as int) =~= hs);
    }
    out.push(67);
    out.push(111);
    out.push(110);
    out.push(116);
    out.push(101);
    out.push(110);
    out.push(116);
    out.push(45);
    out.push(76);
    out.push(101);
    out.push(110);
    out.push(103);
    out.push(116);
    out.push(104);
    out.push(58);
    out.push(SP);
    push_digits(&mut out, r.body.len());
    out.push(CR);
    out.push(LF);
    out.push(CR);
    out.push(LF);
    push_all(&mut out, r.body.as_slice());
    proof {
        assert(out@ =~= response_bytes(r@));
    }
    out
}

/// The request-line token naming each method.
pub open spec fn method_name_spec(m: HttpMethod) -> Seq<u8> {
    match m {
        HttpMethod::Get => seq![71u8, 69u8, 84u8],
        HttpMethod::Post => seq![80u8, 79u8, 83u8, 84u8],
        HttpMethod::Put => seq![80u8, 85u8, 84u8],
        HttpMethod::Delete => seq![68u8, 69u8, 76u8, 69u8, 84u8, 69u8],
        HttpMethod::Patch => seq![80u8, 65u8, 84u8, 67u8, 72u8],
        HttpMethod::Head => seq![72u8, 69u8, 65u8, 68u8],
        HttpMethod::Options => seq![79u8, 80u8, 84u8, 73u8, 79u8, 78u8, 83u8],
        HttpMethod::Trace => seq![84u8, 82u8, 65u8, 67u8, 69u8],
        HttpMethod::Connect => seq![67u8, 79u8, 78u8, 78u8, 69u8, 67u8, 84u8],
    }
}

/// Reads a request-line method token; unknown tokens are rejected.
pub fn parse_method(b: &[u8]) -> (r: Option<HttpMethod>)
    ensures
        r matches Some(m) ==> method_name_spec(m) == b@,
        r is None ==> forall|m: HttpMethod| method_name_spec(m) != b@,
{
    let n = b.len();
    if n == 3 && b[0] == 71 && b[1] == 69 && b[2] == 84 {
        proof {
            assert(b@ =~= method_name_spec(HttpMethod::Get));
        }
        Some(HttpMethod::Get)
    } else if n == 4 && b[0] == 80 && b[1] == 79 && b[2] == 83 && b[3] == 84 {
        proof {
            assert(b@ =~= method_name_spec(HttpMethod::Post));
        }
        Some(HttpMethod::Post)
    } else if n == 3 && b[0] == 80 && b[1] == 85 && b[2] == 84 {
        proof {
            assert(b@ =~= method_name_spec(HttpMethod::Put));
        }
        Some(HttpMethod::Put)
    } else if n == 6 && b[0] == 68 && b[1] == 69 && b[2] == 76 && b[3] == 69 && b[4] == 84 && b[5]
        == 69 {
        proof {
            assert(b@ =~= method_name_spec(HttpMethod::Delete));
        }
        Some(HttpMethod::Delete)
    } else if n == 5 && b[0] == 80 && b[1] == 65 && b[2] == 84 && b[3] == 67 && b[4] == 72 {
        proof {
            assert(b@ =~= method_name_spec(HttpMethod::Patch));
        }
        Some(HttpMethod::Patch)
    } else if n == 4 && b[0] == 72 && b[1] == 69 && b[2] == 65 && b[3] == 68 {
        proof {
            assert(b@ =~= method_name_spec(HttpMethod::Head));
        }
        Some(HttpMethod::Head)
    } else if n == 7 && b[0] == 79 && b[1] == 80 && b[2] == 84 && b[3] == 73 && b[4] == 79 && b[5]
        == 78 && b[6] == 83 {
        proof {
            assert(b@ =~= method_name_spec(HttpMethod::Options));
        }
        Some(HttpMethod::Options)
    } else if n == 5 && b[0] == 84 && b[1] == 82 && b[2] == 65 && b[3] == 67 && b[4] == 69 {
        proof {
            assert(b@ =~= method_name_spec(HttpMethod::Trace));
        }
        Some(HttpMethod::Trace)
    } else if n == 7 && b[0] == 67 && b[1] == 79 && b[2] == 78 && b[3] == 78 && b[4] == 69 && b[5]
        == 67 && b[6] == 84 {
        proof {
            assert(b@ =~= method_name_spec(HttpMethod::Connect));
        }
        Some(HttpMethod::Connect)
    } else {
        proof {
            assert forall|m: HttpMethod| method_name_spec(m) != b@ by {
                if method_name_spec(m) == b@ {
                    assert(b@.len() == method_name_spec(m).len());
                    assert(forall|q: int|
                        0 <= q < b@.len() ==> b@[q] == method_name_spec(m)[q]);
                }
            }
        }
        None
    }
}

/// Method tokens are non-empty and never contain a space.
proof fn lemma_method_names(m: HttpMethod)
    ensures
        method_name_spec(m).len() > 0,
        forall|i: int| 0 <= i < method_name_spec(m).len() ==> method_name_spec(m)[i] != SP,
{
}

/// A request line on the wire: the method token, the target path and the
/// protocol version, separated by single spaces.
pub open spec fn request_line_shape(m: HttpMethod, path: Seq<u8>, version: Seq<u8>) -> Seq<u8> {
    method_name_spec(m) + seq![SP] + path + seq![SP] + version
}

/// Parses a request line (without its line end) into method, target path
/// and version. Whatever it accepts reassembles to exactly the input, with
/// a space-free non-empty path and version; it rejects only lines no such
/// triple produces — an unknown method token, a missing part, or a stray
/// space.
#[verifier::rlimit(80)]
pub fn parse_request_line(line: &[u8]) -> (r: Option<(HttpMethod, Vec<u8>, Vec<u8>)>)
    ensures
        r matches Some(f) ==> line@ == request_line_shape(f.0, f.1@, f.2@) && f.1@.len() > 0
            && !f.1@.contains(SP) && f.2@.len() > 0 && !f.2@.contains(SP),
        r is None ==> forall|m: HttpMethod, path: Seq<u8>, version: Seq<u8>|
            !(path.len() > 0 && !path.contains(SP) && version.len() > 0 && !version.contains(SP)
                && line@ == request_line_shape(m, path, version)),
{
    let mut i: usize = 0;
    while i < line.len() && line[i] != SP
        invariant
            i <= line.len(),
            forall|t: int| 0 <= t < i ==> line@[t] != SP,
        decreases line.len() - i,
    {
        i = i + 1;
    }
    if i == line.len() {
        proof {
            assert forall|m: HttpMethod, path: Seq<u8>, version: Seq<u8>|
                !(path.len() > 0 && !path.contains(SP) && version.len() > 0 && !version.contains(
                    SP,
                ) && line@ == request_line_shape(m, path, version)) by {
                if path.len() > 0 && !path.contains(SP) && version.len() > 0 && !version.contains(
                    SP,
                ) && line@ == request_line_shape(m, path, version) {
                    let name = method_name_spec(m);
                    lemma_method_names(m);
                    assert(line@[name.len() as int] == request_line_shape(m, path, version)[
                        name.len() as int
                    ]);
                }
            }
        }
        return None;
    }
    let meth = crate::frame::slice_range(line, 0, i);
    let m = match parse_method(meth.as_slice()) {
        Some(m) => m,
        None => {
            proof {
                assert forall|m2: HttpMethod, path: Seq<u8>, version: Seq<u8>|
                    !(path.len() > 0 && !path.contains(SP) && version.len() > 0
                        && !version.contains(SP) && line@ == request_line_shape(
                        m2,
                        path,
                        version,
                    )) by {
                    if path.len() > 0 && !path.contains(SP) && version.len() > 0
                        && !version.contains(SP) && line@ == request_line_shape(m2, path, version) {
                        let name = method_name_spec(m2);
                        lemma_method_names(m2);
                        let rl = request_line_shape(m2, path, version);
                        assert forall|t: int| 0 <= t < name.len() implies line@[t] == name[t] by {
                            assert(line@[t] == rl[t]);
                        }
                        assert(line@[name.len() as int] == rl[name.len() as int]);
                        assert(i == name.len());
                        assert(meth@ =~= name);
                    }
                }
            }
            return None;
        },
    };
    let mut j = i + 1;
    while j < line.len() && line[j] != SP
        invariant
            i < j <= line.len(),
            forall|t: int| i < t < j ==> line@[t] != SP,
        decreases line.len() - j,
    {
        j = j + 1;
    }
    if j == line.len() || j == i + 1 || j + 1 == line.len() {
        proof {
            assert forall|m2: HttpMethod, path: Seq<u8>, version: Seq<u8>|
                !(path.len() > 0 && !path.contains(SP) && version.len() > 0 && !version.contains(
                    SP,
                ) && line@ == request_line_shape(m2, path, version)) by {
                if path.len() > 0 && !path.contains(SP) && version.len() > 0 && !version.contains(
                    SP,
                ) && line@ == request_line_shape(m2, path, version) {
                    let name = method_name_spec(m2);
                    lemma_method_names(m2);
                    let rl = request_line_shape(m2, path, version);
                    assert forall|t: int| 0 <= t < name.len() implies line@[t] == name[t] by {
                        assert(line@[t] == rl[t]);
                    }
                    assert(line@[name.len() as int] == rl[name.len() as int]);
                    assert(i == name.len());
                    assert(line@[name.len() as int + 1 + path.len() as int] == rl[name.len() as int
                        + 1 + path.len() as int]);
                    assert(forall|t: int| 0 <= t < path.len() ==> path[t] != SP);
                    if (j as int) < name.len() as int + 1 + path.len() as int {
                        assert(line@[j as int] == rl[j as int]);
                    }
                    assert(j as int == name.len() as int + 1 + path.len() as int);
                }
            }
        }
        return None;
    }
    let mut k = j + 1;
    while k < line.len() && line[k] != SP
        invariant
            j < k <= line.len(),
            forall|t: int| j < t < k ==> line@[t] != SP,
        decreases line.len() - k,
    {
        k = k + 1;
    }
    if k < line.len() {
        proof {
            assert forall|m2: HttpMethod, path: Seq<u8>, version: Seq<u8>|
                !(path.len() > 0 && !path.contains(SP) && version.len() > 0 && !version.contains(
                    SP,
                ) && line@ == request_line_shape(m2, path, version)) by {
                if path.len() > 0 && !path.contains(SP) && version.len() > 0 && !version.contains(
                    SP,
                ) && line@ == request_line_shape(m2, path, version) {
                    let name = method_name_spec(m2);
                    lemma_method_names(m2);
                    let rl = request_line_shape(m2, path, version);
                    assert forall|t: int| 0 <= t < name.len() implies line@[t] == name[t] by {
                        assert(line@[t] == rl[t]);
                    }
                    assert(line@[name.len() as int] == rl[name.len() as int]);
                    assert(i == name.len());
                    assert(line@[name.len() as int + 1 + path.len() as int] == rl[name.len() as int
                        + 1 + path.len() as int]);
                    assert(forall|t: int| 0 <= t < path.len() ==> path[t] != SP);
                    if (j as int) < name.len() as int + 1 + path.len() as int {
                        assert(line@[j as int] == rl[j as int]);
                    }
                    assert(j as int == name.len() as int + 1 + path.len() as int);
                    assert(forall|t: int| 0 <= t < version.len() ==> version[t] != SP);
                    assert(line@[k as int] == rl[k as int]);
                }
            }
        }
        return None;
    }
    let path = crate::frame::slice_range(line, i + 1, j);
    let version = crate::frame::slice_range(line, j + 1, line.len());
    proof {
        assert(line@ =~= request_line_shape(m, path@, version@));
        assert(!path@.contains(SP)) by {
            if path@.contains(SP) {
                let t = choose|t: int| 0 <= t < path@.len() && path@[t] == SP;
                assert(line@[i + 1 + t] == SP);
            }
        }
        assert(!version@.contains(SP)) by {
            if version@.contains(SP) {
                let t = choose|t: int| 0 <= t < version@.len() && version@[t] == SP;
                assert(line@[j + 1 + t] == SP);
            }
        }
    }
    Some((m, path, version))
}

/// One header line (without its line end): the field name, a colon and a
/// space, then the value.
pub open spec fn header_line_shape(name: Seq<u8>, value: Seq<u8>) -> Seq<u8> {
    name + seq![58u8, SP] + value
}

/// Parses one header line into name and value. Whatever it accepts
/// reassembles to exactly the input with a non-empty, colon-free name; it
/// rejects only lines no such pair produces. The value may hold colons; the
/// split is at the first one.
pub fn parse_header_line(line: &[u8]) -> (r: Option<(Vec<u8>, Vec<u8>)>)
    ensures
        r matches Some(h) ==> line@ == header_line_shape(h.0@, h.1@) && h.0@.len() > 0
            && !h.0@.contains(58),
        r is None ==> forall|name: Seq<u8>, value: Seq<u8>|
            !(name.len() > 0 && !name.contains(58) && line@ == header_line_shape(name, value)),
{
    let mut i: usize = 0;
    while i < line.len() && line[i] != 58
        invariant
            i <= line.len(),
            forall|t: int| 0 <= t < i ==> line@[t] != 58,
        decreases line.len() - i,
    {
        i = i + 1;
    }
    if i == line.len() || i == 0 || i + 1 == line.len() || line[i + 1] != SP {
        proof {
            assert forall|name: Seq<u8>, value: Seq<u8>|
                !(name.len() > 0 && !name.contains(58) && line@ == header_line_shape(
                    name,
                    value,
                )) by {
                if name.len() > 0 && !name.contains(58) && line@ == header_line_shape(
                    name,
                    value,
                ) {
                    let hl = header_line_shape(name, value);
                    assert forall|t: int| 0 <= t < name.len() implies line@[t] == name[t] by {
                        assert(line@[t] == hl[t]);
                    }
                    assert(forall|t: int| 0 <= t < name.len() ==> name[t] != 58);
                    assert(line@[name.len() as int] == hl[name.len() as int]);
                    assert(line@[name.len() as int + 1] == hl[name.len() as int + 1]);
                    assert(i == name.len());
                }
            }
        }
        return None;
    }
    let name = crate::frame::slice_range(line, 0, i);
    let value = crate::frame::slice_range(line, i + 2, line.len());
    proof {
        assert(line@ =~= header_line_shape(name@, value@));
        assert(!name@.contains(58)) by {
            if name@.contains(58) {
                let t = choose|t: int| 0 <= t < name@.len() && name@[t] == 58;
                assert(line@[t] == 58);
            }
        }
    }
    Some((name, value))
}

} // verus!
