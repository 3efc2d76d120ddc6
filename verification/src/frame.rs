use vstd::prelude::*;

use vstd::arithmetic::div_mod::{lemma_fundamental_div_mod, lemma_fundamental_div_mod_converse};

verus! {

/// 256 to the `k`: the count of values `k` bytes can spell.
pub open spec fn pow256(k: nat) -> int
    decreases k,
{
    if k == 0 {
        1
    } else {
        256 * pow256((k - 1) as nat)
    }
}

/// `n` in `count` big-endian bytes.
pub open spec fn be_bytes(n: int, count: nat) -> Seq<u8>
    decreases count,
{
    if count == 0 {
        seq![]
    } else {
        be_bytes(n / 256, (count - 1) as nat) + seq![(n % 256) as u8]
    }
}

/// The number a big-endian byte string spells.
pub open spec fn be_sum(b: Seq<u8>) -> int
    decreases b.len(),
{
    if b.len() == 0 {
        0
    } else {
        be_sum(b.drop_last()) * 256 + b.last()
    }
}

proof fn lemma_be_sum_bound(b: Seq<u8>)
    ensures
        0 <= be_sum(b) < pow256(b.len()),
    decreases b.len(),
{
    if b.len() > 0 {
        lemma_be_sum_bound(b.drop_last());
        assert(pow256(b.len()) == 256 * pow256((b.len() - 1) as nat));
    }
}

/// Spelling the number a byte string spells gives the byte string back.
proof fn lemma_be_bytes_of_sum(b: Seq<u8>)
    ensures
        be_bytes(be_sum(b), b.len()) == b,
    decreases b.len(),
{
    if b.len() > 0 {
        let s = be_sum(b.drop_last());
        lemma_be_sum_bound(b.drop_last());
        lemma_fundamental_div_mod_converse(be_sum(b), 256, s, b.last() as int);
        lemma_be_bytes_of_sum(b.drop_last());
        assert(be_bytes(be_sum(b), b.len()) =~= be_bytes(s, (b.len() - 1) as nat) + seq![
            (be_sum(b) % 256) as u8,
        ]);
        assert(be_bytes(s, (b.len() - 1) as nat) + seq![(be_sum(b) % 256) as u8] =~= b);
    }
}

/// A number fitting `count` bytes is spelled by them exactly.
proof fn lemma_be_sum_of_bytes(n: int, count: nat)
    requires
        0 <= n < pow256(count),
    ensures
        be_bytes(n, count).len() == count,
        be_sum(be_bytes(n, count)) == n,
    decreases count,
{
    if count > 0 {
        assert(pow256(count) == 256 * pow256((count - 1) as nat));
        lemma_fundamental_div_mod(n, 256);
        assert(0 <= n % 256 < 256) by {
            lemma_fundamental_div_mod_converse(n % 256, 256, 0, n % 256) ;
        }
        assert(n / 256 >= 0 && n / 256 < pow256((count - 1) as nat)) by {
            if n / 256 < 0 {
                assert(256 * (n / 256) <= -256);
            }
            if n / 256 >= pow256((count - 1) as nat) {
                assert(256 * (n / 256) >= 256 * pow256((count - 1) as nat));
            }
        }
        lemma_be_sum_of_bytes(n / 256, (count - 1) as nat);
        let b = be_bytes(n, count);
        assert(b.drop_last() =~= be_bytes(n / 256, (count - 1) as nat));
        assert(b.last() == (n % 256) as u8);
    }
}

proof fn lemma_pow256_values()
    ensures
        pow256(0) == 1,
        pow256(1) == 256,
        pow256(2) == 65536,
        pow256(3) == 16777216,
        pow256(4) == 4294967296,
        pow256(5) == 1099511627776,
        pow256(6) == 281474976710656,
        pow256(7) == 72057594037927936,
        pow256(8) == 18446744073709551616,
{
    assert(pow256(0) == 1);
    assert(pow256(1) == 256);
    assert(pow256(2) == 65536);
    assert(pow256(3) == 16777216);
    assert(pow256(4) == 4294967296);
    assert(pow256(5) == 1099511627776);
    assert(pow256(6) == 281474976710656);
    assert(pow256(7) == 72057594037927936);
    assert(pow256(8) == 18446744073709551616);
}

proof fn lemma_be_sum2(x: u8, y: u8)
    ensures
        be_sum(seq![x, y]) == (x as int) * 256 + y,
{
    assert(be_sum(Seq::<u8>::empty()) == 0);
    assert(seq![x].drop_last() =~= Seq::<u8>::empty());
    assert(be_sum(seq![x]) == x as int);
    assert(seq![x, y].drop_last() =~= seq![x]);
    assert(be_sum(seq![x, y]) == (x as int) * 256 + y);
}

/// The first frame byte: the fin flag over the opcode.
pub open spec fn first_byte(fin: bool, opcode: u8) -> u8 {
    ((if fin {
        128int
    } else {
        0int
    }) + opcode) as u8
}

/// The length field: the payload length directly when it is under 126, else
/// a marker and the length in two or eight big-endian bytes. `mbit` is 128
/// on masked frames and 0 otherwise, carried on the field's first byte.
pub open spec fn len_field(mbit: int, n: int) -> Seq<u8> {
    if n < 126 {
        seq![(mbit + n) as u8]
    } else if n < 65536 {
        seq![(mbit + 126) as u8] + be_bytes(n, 2)
    } else {
        seq![(mbit + 127) as u8] + be_bytes(n, 8)
    }
}

/// The bytes of an unmasked frame, as the server writes them: first byte,
/// length field, payload.
pub open spec fn frame_bytes(fin: bool, opcode: u8, payload: Seq<u8>) -> Seq<u8> {
    seq![first_byte(fin, opcode)] + len_field(0, payload.len() as int) + payload
}

/// A payload masked with a 4-byte key, as client frames carry it: byte `i`
/// is xored with key byte `i % 4`.
pub open spec fn masked_spec(p: Seq<u8>, key: Seq<u8>) -> Seq<u8> {
    Seq::new(p.len(), |i: int| p[i] ^ key[i % 4])
}

/// The bytes of a masked frame, as a client writes them: first byte, length
/// field with the mask bit, the 4-byte key, then the masked payload.
pub open spec fn masked_frame_bytes(fin: bool, opcode: u8, key: Seq<u8>, payload: Seq<u8>) -> Seq<
    u8,
> {
    seq![first_byte(fin, opcode)] + len_field(128, payload.len() as int) + key + masked_spec(
        payload,
        key,
    )
}

/// Copies `src[from..to]` into a fresh vector.
pub(crate) fn slice_range(src: &[u8], from: usize, to: usize) -> (out: Vec<u8>)
    requires
        from <= to <= src.len(),
    ensures
        out@ == src@.subrange(from as int, to as int),
{
    let mut out: Vec<u8> = Vec::new();
    let mut k = from;
    while k < to
        invariant
            from <= k <= to <= src.len(),
            out@ == src@.subrange(from as int, k as int),
        decreases to - k,
    {
        proof {
            assert(src@.subrange(from as int, k as int).push(src@[k as int]) =~= src@.subrange(
                from as int,
                k as int + 1,
            ));
        }
        out.push(src[k]);
        k = k + 1;
    }
    out
}

/// Appends `n` in `count` big-endian bytes.
fn push_be(out: &mut Vec<u8>, n: u64, count: usize)
    requires
        count <= 8,
        (n as int) < pow256(count as nat),
    ensures
        final(out)@ == old(out)@ + be_bytes(n as int, count as nat),
    decreases count,
{
    if count > 0 {
        proof {
            assert(pow256(count as nat) == 256 * pow256((count - 1) as nat));
            lemma_fundamental_div_mod(n as int, 256);
            if n as int / 256 >= pow256((count - 1) as nat) {
                assert(256 * (n as int / 256) >= 256 * pow256((count - 1) as nat));
            }
        }
        push_be(out, n / 256, count - 1);
        out.push((n % 256) as u8);
        proof {
            assert((old(out)@ + be_bytes(n as int / 256, (count - 1) as nat)).push(
                (n as int % 256) as u8,
            ) =~= old(out)@ + be_bytes(n as int, count as nat));
        }
    } else {
        proof {
            assert(old(out)@ + be_bytes(n as int, 0) =~= old(out)@);
        }
    }
}

/// Encodes one outbound (unmasked) frame, exactly as `frame_bytes` lays it
/// out, whatever the payload length.
pub fn encode_frame(fin: bool, opcode: u8, payload: &Vec<u8>) -> (out: Vec<u8>)
    requires
        opcode < 16,
    ensures
        out@ == frame_bytes(fin, opcode, payload@),
{
    let mut out: Vec<u8> = Vec::new();
    let b0: u8 = if fin {
        128 + opcode
    } else {
        opcode
    };
    out.push(b0);
    let n = payload.len();
    proof {
        lemma_pow256_values();
    }
    if n < 126 {
        out.push(n as u8);
        proof {
            assert(out@ =~= seq![first_byte(fin, opcode)] + len_field(0, payload@.len() as int));
        }
    } else if n < 65536 {
        out.push(126);
        push_be(&mut out, n as u64, 2);
        proof {
            assert(out@ =~= seq![first_byte(fin, opcode)] + len_field(0, payload@.len() as int));
        }
    } else {
        out.push(127);
        push_be(&mut out, n as u64, 8);
        proof {
            assert(out@ =~= seq![first_byte(fin, opcode)] + len_field(0, payload@.len() as int));
        }
    }
    let ghost header = out@;
    let mut k: usize = 0;
    while k < payload.len()
        invariant
            k <= payload.len(),
            out@ == header + payload@.subrange(0, k as int),
        decreases payload.len() - k,
    {
        proof {
            assert((header + payload@.subrange(0, k as int)).push(payload@[k as int]) =~= header
                + payload@.subrange(0, k as int + 1));
        }
        out.push(payload[k]);
        k = k + 1;
    }
    proof {
        assert(header + payload@.subrange(0, payload@.len() as int) =~= frame_bytes(
            fin,
            opcode,
            payload@,
        ));
    }
    out
}

/// Applies the mask; applying it twice gives the payload back.
pub fn apply_mask(p: &Vec<u8>, key: &Vec<u8>) -> (out: Vec<u8>)
    requires
        key@.len() == 4,
    ensures
        out@ == masked_spec(p@, key@),
{
    let mut out: Vec<u8> = Vec::new();
    let mut k: usize = 0;
    while k < p.len()
        invariant
            k <= p.len(),
            key@.len() == 4,
            out@.len() == k,
            forall|i: int| 0 <= i < k ==> out@[i] == (p@[i] ^ key@[i % 4]),
        decreases p.len() - k,
    {
        out.push(p[k] ^ key[k % 4]);
        k = k + 1;
    }
    proof {
        assert(out@ =~= masked_spec(p@, key@));
    }
    out
}

/// Masking is an involution: unmasking a masked payload with the same key is
/// the identity, whatever the key and payload.
pub proof fn theorem_mask_involution(p: Seq<u8>, key: Seq<u8>)
    requires
        key.len() == 4,
    ensures
        masked_spec(masked_spec(p, key), key) == p,
{
    assert forall|i: int| 0 <= i < p.len() implies masked_spec(masked_spec(p, key), key)[i]
        == p[i] by {
        let x = p[i];
        let y = key[i % 4];
        assert((x ^ y) ^ y == x) by (bit_vector);
    }
    assert(masked_spec(masked_spec(p, key), key) =~= p);
}

/// `len_field` with the mask bit differs from the bare field only in its
/// first byte.
proof fn lemma_len_field_mask(n: int)
    requires
        0 <= n < pow256(8),
    ensures
        len_field(128, n).len() == len_field(0, n).len(),
        len_field(128, n)[0] == (len_field(0, n)[0] + 128) as u8,
        forall|i: int|
            1 <= i < len_field(0, n).len() ==> len_field(128, n)[i] == len_field(0, n)[i],
        (len_field(0, n)[0] as int) < 128,
        (len_field(128, n)[0] as int) >= 128,
{
    lemma_pow256_values();
    if n >= 126 && n < 65536 {
        lemma_be_sum_of_bytes(n, 2);
    } else if n >= 65536 {
        lemma_be_sum_of_bytes(n, 8);
    }
    assert(len_field(128, n).skip(1) =~= len_field(0, n).skip(1));
    assert forall|i: int|
        1 <= i < len_field(0, n).len() implies len_field(128, n)[i] == len_field(0, n)[i] by {
        assert(len_field(128, n).skip(1)[i - 1] == len_field(0, n).skip(1)[i - 1]);
    }
}

/// Two different numbers never spell the same bytes.
proof fn lemma_be_bytes_inj(a: int, c: int, count: nat)
    requires
        0 <= a < pow256(count),
        0 <= c < pow256(count),
        be_bytes(a, count) == be_bytes(c, count),
    ensures
        a == c,
{
    lemma_be_sum_of_bytes(a, count);
    lemma_be_sum_of_bytes(c, count);
}

/// A bare length field standing at `b[1..]` (its first byte as `lb`)
/// determines its length class and the length itself from the observed
/// bytes.
proof fn lemma_len_field_at(b: Seq<u8>, lb: u8, n: int)
    requires
        lb < 128,
        b.len() >= 2,
        0 <= n < pow256(8),
        1 + len_field(0, n).len() as int <= b.len(),
        len_field(0, n) == seq![lb] + b.subrange(2, 1 + len_field(0, n).len() as int),
    ensures
        n < 126 ==> lb as int == n,
        126 <= n < 65536 ==> lb == 126 && b.len() >= 4 && n == (b[2] as int) * 256 + b[3],
        65536 <= n ==> lb == 127 && b.len() >= 10 && n == be_sum(b.subrange(2, 10)),
{
    lemma_pow256_values();
    let lf = len_field(0, n);
    assert(lf[0] == lb);
    if n < 126 {
    } else if n < 65536 {
        lemma_be_sum_of_bytes(n, 2);
        assert(lf.len() == 3);
        assert(be_bytes(n, 2) =~= seq![b[2], b[3]]) by {
            assert(be_bytes(n, 2)[0] == lf[1] && be_bytes(n, 2)[1] == lf[2]);
            assert(lf[1] == b.subrange(2, 4)[0] && lf[2] == b.subrange(2, 4)[1]);
        }
        lemma_be_sum2(b[2], b[3]);
    } else {
        lemma_be_sum_of_bytes(n, 8);
        assert(lf.len() == 9);
        assert(be_bytes(n, 8) =~= b.subrange(2, 10)) by {
            assert forall|i: int| 0 <= i < 8 implies be_bytes(n, 8)[i] == b.subrange(2, 10)[i] by {
                assert(be_bytes(n, 8)[i] == lf[i + 1]);
                assert(lf[i + 1] == b.subrange(2, 10)[i]);
            }
        }
    }
}

/// Reads the length field whose bare (mask-stripped) first byte is `lb` and
/// whose further bytes stand at `b[2..]`: returns the payload length and the
/// offset where the field ends. `None` exactly when no bare field of any
/// length starts that way — the field is truncated or not the canonical
/// form for its length — and the returned length is the only one whose
/// field starts that way.
fn parse_len(b: &[u8], lb: u8) -> (r: Option<(u64, usize)>)
    requires
        b.len() >= 2,
        lb < 128,
    ensures
        r matches Some(f) ==> 2 <= f.1 <= b@.len() && (f.0 as int) < pow256(8) && len_field(
            0,
            f.0 as int,
        ) == seq![lb] + b@.subrange(2, f.1 as int),
        r matches Some(f) ==> forall|n: int|
            (0 <= n < pow256(8) && 1 + len_field(0, n).len() as int <= b@.len() && len_field(0, n)
                == seq![lb] + b@.subrange(2, 1 + len_field(0, n).len() as int)) ==> n
                == f.0 as int,
        r is None ==> forall|n: int|
            !(0 <= n < pow256(8) && 1 + len_field(0, n).len() as int <= b@.len() && len_field(0, n)
                == seq![lb] + b@.subrange(2, 1 + len_field(0, n).len() as int)),
{
    proof {
        lemma_pow256_values();
    }
    if lb < 126 {
        proof {
            assert(len_field(0, lb as int) =~= seq![lb] + b@.subrange(2, 2));
            assert forall|n: int|
                (0 <= n < pow256(8) && 1 + len_field(0, n).len() as int <= b@.len() && len_field(
                    0,
                    n,
                ) == seq![lb] + b@.subrange(2, 1 + len_field(0, n).len() as int)) implies n
                == lb as int by {
                lemma_len_field_at(b@, lb, n);
            }
        }
        Some((lb as u64, 2))
    } else if lb == 126 {
        if b.len() < 4 {
            proof {
                assert forall|n: int|
                    !(0 <= n < pow256(8) && 1 + len_field(0, n).len() as int <= b@.len()
                        && len_field(0, n) == seq![lb] + b@.subrange(
                        2,
                        1 + len_field(0, n).len() as int,
                    )) by {
                    if 0 <= n < pow256(8) && 1 + len_field(0, n).len() as int <= b@.len()
                        && len_field(0, n) == seq![lb] + b@.subrange(
                        2,
                        1 + len_field(0, n).len() as int,
                    ) {
                        lemma_len_field_at(b@, lb, n);
                    }
                }
            }
            return None;
        }
        let v = (b[2] as u64) * 256 + (b[3] as u64);
        if v < 126 {
            proof {
                assert forall|n: int|
                    !(0 <= n < pow256(8) && 1 + len_field(0, n).len() as int <= b@.len()
                        && len_field(0, n) == seq![lb] + b@.subrange(
                        2,
                        1 + len_field(0, n).len() as int,
                    )) by {
                    if 0 <= n < pow256(8) && 1 + len_field(0, n).len() as int <= b@.len()
                        && len_field(0, n) == seq![lb] + b@.subrange(
                        2,
                        1 + len_field(0, n).len() as int,
                    ) {
                        lemma_len_field_at(b@, lb, n);
                    }
                }
            }
            return None;
        }
        proof {
            lemma_be_bytes_of_sum(b@.subrange(2, 4));
            assert(b@.subrange(2, 4) =~= seq![b@[2], b@[3]]);
            lemma_be_sum2(b@[2], b@[3]);
            assert(len_field(0, v as int) =~= seq![lb] + b@.subrange(2, 4));
            assert forall|n: int|
                (0 <= n < pow256(8) && 1 + len_field(0, n).len() as int <= b@.len() && len_field(
                    0,
                    n,
                ) == seq![lb] + b@.subrange(2, 1 + len_field(0, n).len() as int)) implies n
                == v as int by {
                lemma_len_field_at(b@, lb, n);
            }
        }
        Some((v, 4))
    } else {
        if b.len() < 10 {
            proof {
                assert forall|n: int|
                    !(0 <= n < pow256(8) && 1 + len_field(0, n).len() as int <= b@.len()
                        && len_field(0, n) == seq![lb] + b@.subrange(
                        2,
                        1 + len_field(0, n).len() as int,
                    )) by {
                    if 0 <= n < pow256(8) && 1 + len_field(0, n).len() as int <= b@.len()
                        && len_field(0, n) == seq![lb] + b@.subrange(
                        2,
                        1 + len_field(0, n).len() as int,
                    ) {
                        lemma_len_field_at(b@, lb, n);
                    }
                }
            }
            return None;
        }
        let mut v: u64 = 0;
        let mut k: usize = 2;
        while k < 10
            invariant
                2 <= k <= 10,
                b@.len() >= 10,
                v as int == be_sum(b@.subrange(2, k as int)),
                (v as int) < pow256((k - 2) as nat),
            decreases 10 - k,
        {
            proof {
                lemma_pow256_values();
                assert(b@.subrange(2, k as int + 1).drop_last() =~= b@.subrange(2, k as int));
                assert(b@.subrange(2, k as int + 1).last() == b@[k as int]);
                assert(pow256(((k + 1) - 2) as nat) == 256 * pow256((k - 2) as nat));
                lemma_be_sum_bound(b@.subrange(2, k as int));
            }
            v = v * 256 + (b[k] as u64);
            k = k + 1;
        }
        proof {
            lemma_be_bytes_of_sum(b@.subrange(2, 10));
        }
        if v < 65536 {
            proof {
                assert forall|n: int|
                    !(0 <= n < pow256(8) && 1 + len_field(0, n).len() as int <= b@.len()
                        && len_field(0, n) == seq![lb] + b@.subrange(
                        2,
                        1 + len_field(0, n).len() as int,
                    )) by {
                    if 0 <= n < pow256(8) && 1 + len_field(0, n).len() as int <= b@.len()
                        && len_field(0, n) == seq![lb] + b@.subrange(
                        2,
                        1 + len_field(0, n).len() as int,
                    ) {
                        lemma_len_field_at(b@, lb, n);
                    }
                }
            }
            return None;
        }
        proof {
            assert(len_field(0, v as int) =~= seq![lb] + b@.subrange(2, 10));
            assert forall|n: int|
                (0 <= n < pow256(8) && 1 + len_field(0, n).len() as int <= b@.len() && len_field(
                    0,
                    n,
                ) == seq![lb] + b@.subrange(2, 1 + len_field(0, n).len() as int)) implies n
                == v as int by {
                lemma_len_field_at(b@, lb, n);
            }
        }
        Some((v, 10))
    }
}

/// From `b == [first_byte] + lf + rest`: the bytes the decoder's checks
/// observe.
proof fn lemma_shape_observed(b: Seq<u8>, fin: bool, opcode: u8, lf: Seq<u8>, rest: Seq<u8>)
    requires
        opcode < 16,
        lf.len() >= 1,
        b == seq![first_byte(fin, opcode)] + lf + rest,
    ensures
        b.len() == 1 + lf.len() + rest.len(),
        b[0] == first_byte(fin, opcode),
        (b[0] as int) % 128 == opcode,
        b[0] >= 128 <==> fin,
        b[1] == lf[0],
        forall|i: int| 0 <= i < lf.len() ==> lf[i] == b[1 + i],
        rest == b.skip(1 + lf.len() as int),
{
    lemma_first_byte_forward(fin, opcode);
    assert(rest =~= b.skip(1 + lf.len() as int));
    assert forall|i: int| 0 <= i < lf.len() implies lf[i] == b[1 + i] by {
        assert(b[1 + i] == (seq![first_byte(fin, opcode)] + lf + rest)[1 + i]);
    }
}

/// The fin flag and opcode are read back from the first byte.
proof fn lemma_first_byte_forward(fin: bool, opcode: u8)
    requires
        opcode < 16,
    ensures
        (first_byte(fin, opcode) as int) % 128 == opcode,
        first_byte(fin, opcode) >= 128 <==> fin,
{
    if fin {
        lemma_fundamental_div_mod_converse(128 + opcode, 128, 1, opcode as int);
    } else {
        lemma_fundamental_div_mod_converse(opcode as int, 128, 0, opcode as int);
    }
}

/// A first byte with clear reserved bits is re-assembled from its parts.
proof fn lemma_first_byte(b0: u8, fin: bool, opcode: u8)
    requires
        fin == (b0 >= 128),
        opcode == b0 % 128,
        opcode < 16,
    ensures
        first_byte(fin, opcode) == b0,
{
    if fin {
        lemma_fundamental_div_mod_converse(b0 as int, 128, 1, b0 as int - 128);
    } else {
        lemma_fundamental_div_mod_converse(b0 as int, 128, 0, b0 as int);
    }
}

/// Decodes an unmasked frame: whatever it accepts re-encodes to exactly the
/// input bytes, and it rejects only what no canonical unmasked frame
/// produces — truncated input, reserved bits, a set mask bit, a
/// non-canonical length form, or a length that does not match the bytes
/// present.
pub fn decode_frame(b: &[u8]) -> (r: Option<(bool, u8, Vec<u8>)>)
    ensures
        r matches Some(f) ==> f.1 < 16 && b@ == frame_bytes(f.0, f.1, f.2@),
        r is None ==> forall|fin: bool, op: u8, p: Seq<u8>|
            !(op < 16 && p.len() < pow256(8) && b@ == frame_bytes(fin, op, p)),
{
    if b.len() >= 2 {
        let b0 = b[0];
        let fin = b0 >= 128;
        let opcode = b0 % 128;
        let b1 = b[1];
        if opcode < 16 && b1 < 128 {
            match parse_len(b, b1) {
                Some((plen, at)) => {
                    if (b.len() - at) as u64 == plen {
                        let payload = slice_range(b, at, b.len());
                        proof {
                            assert(len_field(0, plen as int).len() == at - 1);
                            assert(payload@.len() as int == plen as int);
                            assert(b@ =~= seq![first_byte(fin, opcode)] + len_field(
                                0,
                                payload@.len() as int,
                            ) + payload@) by {
                                lemma_first_byte(b@[0], fin, opcode);
                            }
                        }
                        return Some((fin, opcode, payload));
                    }
                },
                None => {},
            }
        }
    }
    proof {
        assert forall|fin: bool, op: u8, p: Seq<u8>|
            !(op < 16 && p.len() < pow256(8) && b@ == frame_bytes(fin, op, p)) by {
            if op < 16 && p.len() < pow256(8) && b@ == frame_bytes(fin, op, p) {
                let lf = len_field(0, p.len() as int);
                lemma_len_field_mask(p.len() as int);
                assert(b@ =~= seq![first_byte(fin, op)] + lf + p);
                lemma_shape_observed(b@, fin, op, lf, p);
                assert(lf == seq![b@[1]] + b@.subrange(2, 1 + lf.len() as int)) by {
                    assert(lf =~= seq![b@[1]] + b@.subrange(2, 1 + lf.len() as int));
                }
            }
        }
    }
    None
}

/// Decodes a masked (client) frame, returning its key and its unmasked
/// payload: whatever it accepts re-encodes, masked under that key, to
/// exactly the input bytes, and it rejects only what no canonical masked
/// frame produces.
pub fn decode_masked_frame(b: &[u8]) -> (r: Option<(bool, u8, Vec<u8>, Vec<u8>)>)
    ensures
        r matches Some(f) ==> f.1 < 16 && f.2@.len() == 4 && b@ == masked_frame_bytes(
            f.0,
            f.1,
            f.2@,
            f.3@,
        ),
        r is None ==> forall|fin: bool, op: u8, key: Seq<u8>, p: Seq<u8>|
            !(op < 16 && key.len() == 4 && p.len() < pow256(8) && b@ == masked_frame_bytes(
                fin,
                op,
                key,
                p,
            )),
{
    if b.len() >= 2 {
        let b0 = b[0];
        let fin = b0 >= 128;
        let opcode = b0 % 128;
        let b1 = b[1];
        if opcode < 16 && b1 >= 128 {
            match parse_len(b, b1 - 128) {
                Some((plen, at)) => {
                    if b.len() - at >= 4 && ((b.len() - at - 4) as u64) == plen {
                        let key = slice_range(b, at, at + 4);
                        let wire = slice_range(b, at + 4, b.len());
                        let payload = apply_mask(&wire, &key);
                        proof {
                            theorem_mask_involution(wire@, key@);
                            assert(masked_spec(payload@, key@) =~= wire@);
                            lemma_len_field_mask(plen as int);
                            assert(len_field(0, plen as int).len() == at - 1);
                            assert(payload@.len() as int == plen as int);
                            assert(len_field(128, plen as int) =~= seq![b@[1]] + b@.subrange(
                                2,
                                at as int,
                            ));
                            assert(b@ =~= seq![first_byte(fin, opcode)] + len_field(
                                128,
                                payload@.len() as int,
                            ) + key@ + masked_spec(payload@, key@)) by {
                                lemma_first_byte(b@[0], fin, opcode);
                            }
                        }
                        return Some((fin, opcode, key, payload));
                    }
                },
                None => {},
            }
        }
    }
    proof {
        assert forall|fin: bool, op: u8, key: Seq<u8>, p: Seq<u8>|
            !(op < 16 && key.len() == 4 && p.len() < pow256(8) && b@ == masked_frame_bytes(
                fin,
                op,
                key,
                p,
            )) by {
            if op < 16 && key.len() == 4 && p.len() < pow256(8) && b@ == masked_frame_bytes(
                fin,
                op,
                key,
                p,
            ) {
                let lf1 = len_field(128, p.len() as int);
                let lf0 = len_field(0, p.len() as int);
                lemma_len_field_mask(p.len() as int);
                assert(b@ =~= seq![first_byte(fin, op)] + lf1 + (key + masked_spec(p, key)));
                lemma_shape_observed(b@, fin, op, lf1, key + masked_spec(p, key));
                assert(b@[1] as int >= 128);
                assert(lf0 == seq![(b@[1] - 128) as u8] + b@.subrange(2, 1 + lf0.len() as int))
                    by {
                    assert(lf0 =~= seq![(b@[1] - 128) as u8] + b@.subrange(
                        2,
                        1 + lf0.len() as int,
                    ));
                }
                assert(b@.len() == 1 + lf1.len() + 4 + p.len());
            }
        }
    }
    None
}

} // verus!
