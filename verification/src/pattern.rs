use vstd::prelude::*;

use crate::types::RegisterError;

verus! {

/// Path separator byte (`/`).
pub const SLASH: u8 = 47;
/// First byte of a named-parameter segment (`:`).
pub const COLON: u8 = 58;
/// The single byte of a wildcard segment (`*`).
pub const STAR: u8 = 42;

/// One compiled segment of a route pattern.
pub enum Segment {
    /// Matches exactly this path component.
    Literal(Vec<u8>),
    /// Matches any non-empty component, binding it under this name.
    Param(Vec<u8>),
    /// Matches the whole remainder of the path; only valid as the last segment.
    Wildcard,
}

/// Mathematical model of a segment.
pub enum SegShape {
    Lit(Seq<u8>),
    Par(Seq<u8>),
    Wild,
}

impl View for Segment {
    type V = SegShape;

    open spec fn view(&self) -> SegShape {
        match self {
            Segment::Literal(l) => SegShape::Lit(l@),
            Segment::Param(n) => SegShape::Par(n@),
            Segment::Wildcard => SegShape::Wild,
        }
    }
}

pub open spec fn seg_models(segs: Seq<Segment>) -> Seq<SegShape> {
    segs.map_values(|g: Segment| g@)
}

pub open spec fn views_of(vs: Seq<Vec<u8>>) -> Seq<Seq<u8>> {
    vs.map_values(|v: Vec<u8>| v@)
}

/// The normalized components of a path: its maximal runs of non-separator
/// bytes, in order. Leading, trailing and doubled separators contribute
/// nothing.
pub open spec fn split_spec(s: Seq<u8>) -> Seq<Seq<u8>>
    decreases s.len(),
{
    if s.len() == 0 {
        seq![]
    } else {
        let rest = split_spec(s.drop_first());
        if s[0] == SLASH {
            rest
        } else if s.len() >= 2 && s[1] != SLASH {
            rest.update(0, seq![s[0]] + rest[0])
        } else {
            seq![seq![s[0]]] + rest
        }
    }
}

/// A separator byte at `i` contributes nothing to the components of the
/// suffix starting there.
proof fn lemma_split_skip_slash(s: Seq<u8>, i: int)
    requires
        0 <= i < s.len(),
        s[i] == SLASH,
    ensures
        split_spec(s.skip(i)) == split_spec(s.skip(i + 1)),
{
    assert(s.skip(i).drop_first() =~= s.skip(i + 1));
}

/// A maximal non-separator run `[i, j)` is the first component of the suffix
/// starting at `i`.
proof fn lemma_split_component(s: Seq<u8>, i: int, j: int)
    requires
        0 <= i < j <= s.len(),
        forall|k: int| i <= k < j ==> s[k] != SLASH,
        j < s.len() ==> s[j] == SLASH,
    ensures
        split_spec(s.skip(i)) == seq![s.subrange(i, j)] + split_spec(s.skip(j)),
    decreases j - i,
{
    let t = s.skip(i);
    assert(t[0] == s[i]);
    assert(t.drop_first() =~= s.skip(i + 1));
    if i + 1 == j {
        if j < s.len() {
            assert(t.len() >= 2 && t[1] == s[j]);
            assert(split_spec(t) == seq![seq![t[0]]] + split_spec(t.drop_first()));
        } else {
            assert(t.len() == 1);
            assert(split_spec(t) == seq![seq![t[0]]] + split_spec(t.drop_first()));
        }
        assert(seq![t[0]] =~= s.subrange(i, j));
        assert(s.skip(i + 1) =~= s.skip(j));
    } else {
        lemma_split_component(s, i + 1, j);
        let rest = split_spec(s.skip(i + 1));
        assert(rest == seq![s.subrange(i + 1, j)] + split_spec(s.skip(j)));
        assert(rest[0] == s.subrange(i + 1, j));
        assert(t.len() >= 2 && t[1] == s[i + 1]);
        assert(t[1] != SLASH);
        assert(split_spec(t) == rest.update(0, seq![t[0]] + rest[0]));
        assert(seq![t[0]] + s.subrange(i + 1, j) =~= s.subrange(i, j));
        assert(rest.update(0, seq![s.subrange(i, j)][0]) =~= seq![s.subrange(i, j)]
            + split_spec(s.skip(j)));
    }
}

/// Splits a path into its normalized components.
pub fn split_path(s: &[u8]) -> (out: Vec<Vec<u8>>)
    ensures
        views_of(out@) == split_spec(s@),
{
    let mut out: Vec<Vec<u8>> = Vec::new();
    let mut i: usize = 0;
    proof {
        assert(s@.skip(0) =~= s@);
    }
    while i < s.len()
        invariant
            i <= s.len(),
            views_of(out@) + split_spec(s@.skip(i as int)) == split_spec(s@),
        decreases s.len() - i,
    {
        if s[i] == SLASH {
            proof {
                lemma_split_skip_slash(s@, i as int);
            }
            i = i + 1;
        } else {
            let ghost start = i as int;
            let mut comp: Vec<u8> = Vec::new();
            while i < s.len() && s[i] != SLASH
                invariant
                    0 <= start <= i <= s.len(),
                    start < s@.len() && s@[start] != SLASH,
                    comp@ == s@.subrange(start, i as int),
                    forall|k: int| start <= k < i ==> s@[k] != SLASH,
                decreases s.len() - i,
            {
                proof {
                    assert(s@.subrange(start, i as int).push(s@[i as int]) =~= s@.subrange(
                        start,
                        i as int + 1,
                    ));
                }
                comp.push(s[i]);
                i = i + 1;
            }
            proof {
                lemma_split_component(s@, start, i as int);
                assert(views_of(out@.push(comp)) =~= views_of(out@).push(comp@));
                assert(views_of(out@).push(comp@) + split_spec(s@.skip(i as int)) =~= views_of(
                    out@,
                ) + split_spec(s@.skip(start)));
            }
            out.push(comp);
        }
    }
    proof {
        assert(s@.skip(i as int) =~= Seq::<u8>::empty());
        assert(views_of(out@) + split_spec(s@.skip(i as int)) =~= views_of(out@));
    }
    out
}

/// The shape a well-formed component compiles to.
pub open spec fn seg_of(c: Seq<u8>) -> SegShape {
    if c.len() == 1 && c[0] == STAR {
        SegShape::Wild
    } else if c.len() >= 1 && c[0] == COLON {
        SegShape::Par(c.drop_first())
    } else {
        SegShape::Lit(c)
    }
}

/// Component `i` of a pattern is acceptable: a parameter has a non-empty
/// name, and a wildcard stands last.
pub open spec fn comp_ok_at(comps: Seq<Seq<u8>>, i: int) -> bool {
    &&& !(comps[i].len() == 1 && comps[i][0] == COLON)
    &&& (comps[i].len() == 1 && comps[i][0] == STAR ==> i == comps.len() - 1)
}

/// Every component of the pattern is acceptable.
pub open spec fn pattern_ok(comps: Seq<Seq<u8>>) -> bool {
    forall|i: int| 0 <= i < comps.len() ==> comp_ok_at(comps, i)
}

/// Copies `src[from..]` into a fresh vector.
pub fn copy_bytes(src: &Vec<u8>, from: usize) -> (out: Vec<u8>)
    requires
        from <= src.len(),
    ensures
        out@ == src@.skip(from as int),
{
    let mut out: Vec<u8> = Vec::new();
    let mut k = from;
    while k < src.len()
        invariant
            from <= k <= src.len(),
            out@ == src@.subrange(from as int, k as int),
        decreases src.len() - k,
    {
        out.push(src[k]);
        proof {
            assert(out@ =~= src@.subrange(from as int, k + 1));
        }
        k = k + 1;
    }
    proof {
        assert(src@.subrange(from as int, src@.len() as int) =~= src@.skip(from as int));
    }
    out
}

/// Compiles a pattern's bytes into segments; rejects a wildcard that is not
/// the last segment and a parameter with an empty name.
pub fn compile_pattern(pat: &[u8]) -> (r: Result<Vec<Segment>, RegisterError>)
    ensures
        r.is_ok() <==> pattern_ok(split_spec(pat@)),
        r matches Ok(segs) ==> seg_models(segs@) == split_spec(pat@).map_values(
            |c: Seq<u8>| seg_of(c),
        ),
{
    let comps = split_path(pat);
    let ghost cs = split_spec(pat@);
    let mut segs: Vec<Segment> = Vec::new();
    let mut i: usize = 0;
    while i < comps.len()
        invariant
            i <= comps.len(),
            cs == split_spec(pat@),
            views_of(comps@) == cs,
            comps@.len() == cs.len(),
            seg_models(segs@) == cs.subrange(0, i as int).map_values(|c: Seq<u8>| seg_of(c)),
            forall|k: int| 0 <= k < i ==> comp_ok_at(cs, k),
        decreases comps.len() - i,
    {
        let c = &comps[i];
        proof {
            assert(views_of(comps@)[i as int] == comps@[i as int]@);
            assert(c@ == cs[i as int]);
        }
        let next: Segment;
        if c.len() == 1 && c[0] == STAR {
            if i + 1 != comps.len() {
                proof {
                    assert(!comp_ok_at(cs, i as int));
                    assert(!pattern_ok(cs));
                }
                return Err(RegisterError::MalformedPattern);
            }
            next = Segment::Wildcard;
        } else if c.len() >= 1 && c[0] == COLON {
            if c.len() == 1 {
                proof {
                    assert(!comp_ok_at(cs, i as int));
                    assert(!pattern_ok(cs));
                }
                return Err(RegisterError::MalformedPattern);
            }
            next = Segment::Param(copy_bytes(c, 1));
            proof {
                assert(c@.skip(1) =~= c@.drop_first());
            }
        } else {
            next = Segment::Literal(copy_bytes(c, 0));
            proof {
                assert(c@.skip(0) =~= c@);
            }
        }
        proof {
            assert(comp_ok_at(cs, i as int));
            assert(next@ == seg_of(cs[i as int]));
            assert(seg_models(segs@.push(next)) =~= seg_models(segs@).push(next@));
            assert(cs.subrange(0, i as int).map_values(|c: Seq<u8>| seg_of(c)).push(
                seg_of(cs[i as int]),
            ) =~= cs.subrange(0, i + 1).map_values(|c: Seq<u8>| seg_of(c)));
        }
        segs.push(next);
        i = i + 1;
    }
    proof {
        assert(cs.subrange(0, i as int) =~= cs);
    }
    Ok(segs)
}

/// Whether segments `sm[i..]` match path components `pm[j..]`: a literal
/// matches its own text, a parameter matches any non-empty component, and a
/// wildcard matches the whole remainder.
pub open spec fn segs_match_from(sm: Seq<SegShape>, pm: Seq<Seq<u8>>, i: int, j: int) -> bool
    decreases sm.len() - i,
{
    if i < 0 || i >= sm.len() {
        j >= pm.len()
    } else {
        match sm[i] {
            SegShape::Wild => true,
            SegShape::Lit(l) => 0 <= j < pm.len() && pm[j] == l && segs_match_from(
                sm,
                pm,
                i + 1,
                j + 1,
            ),
            SegShape::Par(_) => 0 <= j < pm.len() && pm[j].len() > 0 && segs_match_from(
                sm,
                pm,
                i + 1,
                j + 1,
            ),
        }
    }
}

pub open spec fn segs_match(sm: Seq<SegShape>, pm: Seq<Seq<u8>>) -> bool {
    segs_match_from(sm, pm, 0, 0)
}

/// The parameter bindings a successful match extracts, positionally: each
/// parameter name paired with the component it matched.
pub open spec fn bindings_from(sm: Seq<SegShape>, pm: Seq<Seq<u8>>, i: int, j: int) -> Seq<
    (Seq<u8>, Seq<u8>),
>
    decreases sm.len() - i,
{
    if i < 0 || i >= sm.len() {
        seq![]
    } else {
        match sm[i] {
            SegShape::Wild => seq![],
            SegShape::Lit(_) => bindings_from(sm, pm, i + 1, j + 1),
            SegShape::Par(n) => seq![(n, pm[j])] + bindings_from(sm, pm, i + 1, j + 1),
        }
    }
}

pub open spec fn bindings_of(sm: Seq<SegShape>, pm: Seq<Seq<u8>>) -> Seq<(Seq<u8>, Seq<u8>)> {
    bindings_from(sm, pm, 0, 0)
}

pub open spec fn param_models(b: Seq<(Vec<u8>, Vec<u8>)>) -> Seq<(Seq<u8>, Seq<u8>)> {
    b.map_values(|p: (Vec<u8>, Vec<u8>)| (p.0@, p.1@))
}

/// Byte-wise equality of two byte strings.
pub fn bytes_eq(a: &Vec<u8>, b: &Vec<u8>) -> (r: bool)
    ensures
        r <==> a@ == b@,
{
    if a.len() != b.len() {
        return false;
    }
    let mut k: usize = 0;
    while k < a.len()
        invariant
            k <= a.len(),
            a@.len() == b@.len(),
            forall|m: int| 0 <= m < k ==> a@[m] == b@[m],
        decreases a.len() - k,
    {
        if a[k] != b[k] {
            proof {
                assert(a@[k as int] != b@[k as int]);
            }
            return false;
        }
        k = k + 1;
    }
    proof {
        assert(a@ =~= b@);
    }
    true
}

fn match_from(segs: &Vec<Segment>, parts: &Vec<Vec<u8>>, i: usize, j: usize) -> (r: Option<
    Vec<(Vec<u8>, Vec<u8>)>,
>)
    requires
        i <= segs.len(),
        j <= parts.len(),
    ensures
        r.is_some() <==> segs_match_from(seg_models(segs@), views_of(parts@), i as int, j as int),
        r matches Some(b) ==> param_models(b@) == bindings_from(
            seg_models(segs@),
            views_of(parts@),
            i as int,
            j as int,
        ),
    decreases segs.len() - i,
{
    let ghost sm = seg_models(segs@);
    let ghost pm = views_of(parts@);
    if i == segs.len() {
        if j == parts.len() {
            Some(Vec::new())
        } else {
            None
        }
    } else {
        proof {
            assert(seg_models(segs@)[i as int] == segs@[i as int]@);
        }
        match &segs[i] {
            Segment::Wildcard => Some(Vec::new()),
            Segment::Literal(l) => {
                if j < parts.len() && bytes_eq(l, &parts[j]) {
                    proof {
                        assert(views_of(parts@)[j as int] == parts@[j as int]@);
                    }
                    match_from(segs, parts, i + 1, j + 1)
                } else {
                    proof {
                        if j < parts.len() {
                            assert(views_of(parts@)[j as int] == parts@[j as int]@);
                        }
                    }
                    None
                }
            },
            Segment::Param(n) => {
                if j < parts.len() && parts[j].len() > 0 {
                    proof {
                        assert(views_of(parts@)[j as int] == parts@[j as int]@);
                    }
                    match match_from(segs, parts, i + 1, j + 1) {
                        Some(rest) => {
                            let mut out = rest;
                            let bound = (copy_bytes(n, 0), copy_bytes(&parts[j], 0));
                            proof {
                                assert(n@.skip(0) =~= n@);
                                assert(parts@[j as int]@.skip(0) =~= parts@[j as int]@);
                            }
                            out.insert(0, bound);
                            proof {
                                assert(param_models(out@) =~= seq![(n@, pm[j as int])]
                                    + bindings_from(sm, pm, i + 1, j + 1));
                            }
                            Some(out)
                        },
                        None => None,
                    }
                } else {
                    proof {
                        if j < parts.len() {
                            assert(views_of(parts@)[j as int] == parts@[j as int]@);
                        }
                    }
                    None
                }
            },
        }
    }
}

/// Matches compiled segments against path components, extracting parameter
/// bindings on success.
pub fn match_segments(segs: &Vec<Segment>, parts: &Vec<Vec<u8>>) -> (r: Option<
    Vec<(Vec<u8>, Vec<u8>)>,
>)
    ensures
        r.is_some() <==> segs_match(seg_models(segs@), views_of(parts@)),
        r matches Some(b) ==> param_models(b@) == bindings_of(
            seg_models(segs@),
            views_of(parts@),
        ),
{
    match_from(segs, parts, 0, 0)
}

/// How many literal segments stand before the first parameter or wildcard:
/// the measure by which a more specific route beats a less specific one.
pub open spec fn lit_prefix_from(sm: Seq<SegShape>, i: int) -> int
    decreases sm.len() - i,
{
    if 0 <= i < sm.len() && sm[i] is Lit {
        1 + lit_prefix_from(sm, i + 1)
    } else {
        0
    }
}

pub open spec fn lit_prefix(sm: Seq<SegShape>) -> int {
    lit_prefix_from(sm, 0)
}

/// Counts the literal segments before the first parameter or wildcard.
pub fn literal_prefix_len(segs: &Vec<Segment>) -> (n: usize)
    ensures
        n == lit_prefix(seg_models(segs@)),
{
    let ghost sm = seg_models(segs@);
    let mut i: usize = 0;
    while i < segs.len() && matches!(&segs[i], Segment::Literal(_))
        invariant
            i <= segs.len(),
            sm == seg_models(segs@),
            sm.len() == segs@.len(),
            lit_prefix(sm) == i + lit_prefix_from(sm, i as int),
            forall|k: int| 0 <= k < i ==> sm[k] is Lit,
        decreases segs.len() - i,
    {
        proof {
            assert(seg_models(segs@)[i as int] == segs@[i as int]@);
            assert(sm[i as int] is Lit);
        }
        i = i + 1;
    }
    proof {
        if i < segs.len() {
            assert(seg_models(segs@)[i as int] == segs@[i as int]@);
            assert(!(sm[i as int] is Lit));
        }
        assert(lit_prefix_from(sm, i as int) == 0);
    }
    i
}

} // verus!
