use vstd::prelude::*;

use crate::pattern::{
    bindings_of, compile_pattern, lit_prefix, literal_prefix_len, match_segments, param_models,
    pattern_ok, seg_models, seg_of, split_path, split_spec, views_of, SegShape, Segment,
};
use crate::types::{HandlerKind, HttpMethod, MiddlewarePhase, RegisterError, ResolveError};

verus! {

/// One registered route: a method, a compiled pattern, a handle to the
/// foreign callable that serves it, how that callable is scheduled, and the
/// middleware scoped to this route, in registration order.
pub struct RouteEntry {
    pub method: HttpMethod,
    pub segments: Vec<Segment>,
    pub handler: u64,
    pub kind: HandlerKind,
    pub before: Vec<u64>,
    pub after: Vec<u64>,
}

/// Where a middleware registration applies: to every route, or to the route
/// registered under one (method, pattern) key.
pub enum MiddlewareScope {
    Global,
    Route(HttpMethod, Vec<u8>),
}

/// The route table and the global middleware lists. Registration happens
/// before workers start accepting; afterwards the table is read-only.
pub struct Router {
    pub routes: Vec<RouteEntry>,
    pub global_before: Vec<u64>,
    pub global_after: Vec<u64>,
}

/// What `resolve` hands the execution bridge: the matched handler, its
/// scheduling kind, the extracted path parameters, and the full before and
/// after chains in the order they must run.
pub struct Resolution {
    pub handler: u64,
    pub kind: HandlerKind,
    pub params: Vec<(Vec<u8>, Vec<u8>)>,
    pub before: Vec<u64>,
    pub after: Vec<u64>,
}

/// Route `i` is registered under the key (method, segment shapes).
pub open spec fn key_at(
    routes: Seq<RouteEntry>,
    method: HttpMethod,
    sm: Seq<SegShape>,
    i: int,
) -> bool {
    routes[i].method == method && seg_models(routes[i].segments@) == sm
}

pub open spec fn has_key(routes: Seq<RouteEntry>, method: HttpMethod, sm: Seq<SegShape>) -> bool {
    exists|i: int| 0 <= i < routes.len() && key_at(routes, method, sm, i)
}

/// The entry a registration of these arguments produces: fresh route-scoped
/// middleware lists, segments compiled from the pattern.
pub open spec fn entry_for(
    e: RouteEntry,
    method: HttpMethod,
    pattern: Seq<u8>,
    handler: u64,
    kind: HandlerKind,
) -> bool {
    &&& e.method == method
    &&& seg_models(e.segments@) == split_spec(pattern).map_values(|c: Seq<u8>| seg_of(c))
    &&& e.handler == handler
    &&& e.kind == kind
    &&& e.before@ == Seq::<u64>::empty()
    &&& e.after@ == Seq::<u64>::empty()
}

/// Route `i` accepts this request: same method, segments match the path
/// components.
pub open spec fn route_matches(
    routes: Seq<RouteEntry>,
    i: int,
    method: HttpMethod,
    pm: Seq<Seq<u8>>,
) -> bool {
    routes[i].method == method && crate::pattern::segs_match(seg_models(routes[i].segments@), pm)
}

/// Route `i` wins the resolution: it matches, and every other matching route
/// is either less specific (fewer leading literal segments) or equally
/// specific but registered later.
pub open spec fn best_at(
    routes: Seq<RouteEntry>,
    i: int,
    method: HttpMethod,
    pm: Seq<Seq<u8>>,
) -> bool {
    &&& 0 <= i < routes.len()
    &&& route_matches(routes, i, method, pm)
    &&& forall|j: int|
        0 <= j < routes.len() && j != i && route_matches(routes, j, method, pm) ==> lit_prefix(
            seg_models(routes[j].segments@),
        ) < lit_prefix(seg_models(routes[i].segments@)) || (lit_prefix(
            seg_models(routes[j].segments@),
        ) == lit_prefix(seg_models(routes[i].segments@)) && i < j)
}

/// The resolution handed back for entry `e` of router `r` on components `pm`.
pub open spec fn resolution_for(res: Resolution, e: RouteEntry, r: Router, pm: Seq<Seq<u8>>) -> bool {
    &&& res.handler == e.handler
    &&& res.kind == e.kind
    &&& param_models(res.params@) == bindings_of(seg_models(e.segments@), pm)
    &&& res.before@ == r.global_before@ + e.before@
    &&& res.after@ == e.after@ + r.global_after@
}

impl Router {
    /// No two routes share a (method, pattern) key.
    pub open spec fn wf(self) -> bool {
        forall|i: int, j: int|
            0 <= i < j < self.routes@.len() ==> !(self.routes@[i].method
                == self.routes@[j].method && seg_models(self.routes@[i].segments@) == seg_models(
                self.routes@[j].segments@,
            ))
    }

    pub fn new() -> (r: Router)
        ensures
            r.wf(),
            r.routes@.len() == 0,
            r.global_before@.len() == 0,
            r.global_after@.len() == 0,
    {
        Router { routes: Vec::new(), global_before: Vec::new(), global_after: Vec::new() }
    }
}

fn seg_eq(a: &Segment, b: &Segment) -> (r: bool)
    ensures
        r <==> a@ == b@,
{
    match (a, b) {
        (Segment::Wildcard, Segment::Wildcard) => true,
        (Segment::Literal(x), Segment::Literal(y)) => crate::pattern::bytes_eq(x, y),
        (Segment::Param(x), Segment::Param(y)) => crate::pattern::bytes_eq(x, y),
        _ => false,
    }
}

fn segs_eq(a: &Vec<Segment>, b: &Vec<Segment>) -> (r: bool)
    ensures
        r <==> seg_models(a@) == seg_models(b@),
{
    if a.len() != b.len() {
        proof {
            assert(seg_models(a@).len() != seg_models(b@).len());
        }
        return false;
    }
    let mut k: usize = 0;
    while k < a.len()
        invariant
            k <= a.len(),
            a@.len() == b@.len(),
            forall|m: int| 0 <= m < k ==> seg_models(a@)[m] == seg_models(b@)[m],
        decreases a.len() - k,
    {
        if !seg_eq(&a[k], &b[k]) {
            proof {
                assert(seg_models(a@)[k as int] == a@[k as int]@);
                assert(seg_models(b@)[k as int] == b@[k as int]@);
            }
            return false;
        }
        proof {
            assert(seg_models(a@)[k as int] == a@[k as int]@);
            assert(seg_models(b@)[k as int] == b@[k as int]@);
        }
        k = k + 1;
    }
    proof {
        assert(seg_models(a@) =~= seg_models(b@));
    }
    true
}

/// Appends `b` after `a`.
fn concat_ids(a: &Vec<u64>, b: &Vec<u64>) -> (out: Vec<u64>)
    ensures
        out@ == a@ + b@,
{
    let mut out: Vec<u64> = Vec::new();
    let mut k: usize = 0;
    while k < a.len()
        invariant
            k <= a.len(),
            out@ == a@.subrange(0, k as int),
        decreases a.len() - k,
    {
        out.push(a[k]);
        proof {
            assert(a@.subrange(0, k as int).push(a@[k as int]) =~= a@.subrange(0, k as int + 1));
        }
        k = k + 1;
    }
    let mut m: usize = 0;
    while m < b.len()
        invariant
            m <= b.len(),
            out@ == a@ + b@.subrange(0, m as int),
        decreases b.len() - m,
    {
        proof {
            assert((a@ + b@.subrange(0, m as int)).push(b@[m as int]) =~= a@ + b@.subrange(
                0,
                m as int + 1,
            ));
        }
        out.push(b[m]);
        m = m + 1;
    }
    proof {
        assert(a@.subrange(0, a@.len() as int) =~= a@);
        assert(b@.subrange(0, b@.len() as int) =~= b@);
        assert(a@ + b@.subrange(0, b@.len() as int) =~= a@ + b@);
    }
    out
}

impl Router {
    /// Finds the index of the route registered under (method, sm), if any.
    fn find_key(&self, method: HttpMethod, segs: &Vec<Segment>) -> (r: Option<usize>)
        ensures
            r matches Some(i) ==> 0 <= i < self.routes@.len() && key_at(
                self.routes@,
                method,
                seg_models(segs@),
                i as int,
            ),
            r is None ==> !has_key(self.routes@, method, seg_models(segs@)),
    {
        let mut k: usize = 0;
        while k < self.routes.len()
            invariant
                k <= self.routes@.len(),
                forall|j: int|
                    0 <= j < k ==> !key_at(self.routes@, method, seg_models(segs@), j),
            decreases self.routes.len() - k,
        {
            let e = &self.routes[k];
            if e.method == method && segs_eq(&e.segments, segs) {
                return Some(k);
            }
            k = k + 1;
        }
        None
    }

    /// Registers a route, overwriting any prior registration of the same
    /// (method, pattern) key; rejects a malformed pattern and changes nothing
    /// then. Route-scoped middleware of an overwritten route is discarded
    /// with it.
    pub fn add_route(
        &mut self,
        method: HttpMethod,
        pattern: &[u8],
        handler: u64,
        kind: HandlerKind,
    ) -> (r: Result<(), RegisterError>)
        requires
            old(self).wf(),
        ensures
            final(self).wf(),
            final(self).global_before@ == old(self).global_before@,
            final(self).global_after@ == old(self).global_after@,
            r is Err ==> *final(self) == *old(self) && !pattern_ok(split_spec(pattern@)),
            r is Ok ==> pattern_ok(split_spec(pattern@)),
            r is Ok ==> ({
                let sm = split_spec(pattern@).map_values(|c: Seq<u8>| seg_of(c));
                if has_key(old(self).routes@, method, sm) {
                    &&& final(self).routes@.len() == old(self).routes@.len()
                    &&& exists|i: int|
                        0 <= i < old(self).routes@.len() && key_at(old(self).routes@, method, sm, i)
                            && entry_for(final(self).routes@[i], method, pattern@, handler, kind)
                            && (forall|j: int|
                            0 <= j < old(self).routes@.len() && j != i ==> final(self).routes@[j]
                                == old(self).routes@[j])
                } else {
                    &&& final(self).routes@.len() == old(self).routes@.len() + 1
                    &&& (forall|j: int|
                        0 <= j < old(self).routes@.len() ==> final(self).routes@[j] == old(
                            self,
                        ).routes@[j])
                    &&& entry_for(
                        final(self).routes@[old(self).routes@.len() as int],
                        method,
                        pattern@,
                        handler,
                        kind,
                    )
                }
            }),
    {
        let segs = match compile_pattern(pattern) {
            Ok(s) => s,
            Err(e) => {
                return Err(e);
            },
        };
        let ghost sm = seg_models(segs@);
        let entry = RouteEntry {
            method,
            segments: segs,
            handler,
            kind,
            before: Vec::new(),
            after: Vec::new(),
        };
        match self.find_key(method, &entry.segments) {
            Some(i) => {
                let _ = self.routes.remove(i);
                self.routes.insert(i, entry);
                proof {
                    assert(self.routes@ =~= old(self).routes@.update(
                        i as int,
                        self.routes@[i as int],
                    ));
                    assert forall|a: int, b: int|
                        0 <= a < b < self.routes@.len() implies !(self.routes@[a].method
                        == self.routes@[b].method && seg_models(self.routes@[a].segments@)
                        == seg_models(self.routes@[b].segments@)) by {
                        assert(seg_models(self.routes@[i as int].segments@) == seg_models(
                            old(self).routes@[i as int].segments@,
                        ));
                        assert(self.routes@[i as int].method == old(
                            self,
                        ).routes@[i as int].method);
                        if a != i {
                            assert(self.routes@[a] == old(self).routes@[a]);
                        }
                        if b != i {
                            assert(self.routes@[b] == old(self).routes@[b]);
                        }
                    }
                }
            },
            None => {
                self.routes.push(entry);
                proof {
                    let n = old(self).routes@.len() as int;
                    assert forall|a: int, b: int|
                        0 <= a < b < self.routes@.len() implies !(self.routes@[a].method
                        == self.routes@[b].method && seg_models(self.routes@[a].segments@)
                        == seg_models(self.routes@[b].segments@)) by {
                        if b < n {
                            assert(self.routes@[a] == old(self).routes@[a]);
                            assert(self.routes@[b] == old(self).routes@[b]);
                        } else {
                            assert(self.routes@[a] == old(self).routes@[a]);
                            assert(!key_at(old(self).routes@, method, sm, a));
                        }
                    }
                }
            },
        }
        Ok(())
    }

    /// Appends a middleware registration: globally, or to the route under
    /// the given key. Rejects a malformed pattern, and a key no route is
    /// registered under; nothing changes then.
    pub fn add_middleware(
        &mut self,
        phase: MiddlewarePhase,
        scope: MiddlewareScope,
        handler: u64,
    ) -> (r: Result<(), RegisterError>)
        requires
            old(self).wf(),
        ensures
            final(self).wf(),
            r is Err ==> *final(self) == *old(self),
            scope is Global && r is Ok ==> final(self).routes@ == old(self).routes@ && ({
                match phase {
                    MiddlewarePhase::Before => final(self).global_before@ == old(
                        self,
                    ).global_before@.push(handler) && final(self).global_after@ == old(
                        self,
                    ).global_after@,
                    MiddlewarePhase::After => final(self).global_after@ == old(
                        self,
                    ).global_after@.push(handler) && final(self).global_before@ == old(
                        self,
                    ).global_before@,
                }
            }),
            scope is Global ==> r is Ok,
            scope matches MiddlewareScope::Route(m, p) ==> ((r is Ok) <==> (pattern_ok(
                split_spec(p@),
            ) && has_key(
                old(self).routes@,
                m,
                split_spec(p@).map_values(|c: Seq<u8>| seg_of(c)),
            ))),
            scope matches MiddlewareScope::Route(m, p) ==> (r is Ok ==> {
                let sm = split_spec(p@).map_values(|c: Seq<u8>| seg_of(c));
                &&& final(self).global_before@ == old(self).global_before@
                &&& final(self).global_after@ == old(self).global_after@
                &&& final(self).routes@.len() == old(self).routes@.len()
                &&& exists|i: int|
                    0 <= i < old(self).routes@.len() && key_at(old(self).routes@, m, sm, i) && (
                    forall|j: int|
                        0 <= j < old(self).routes@.len() && j != i ==> final(self).routes@[j]
                            == old(self).routes@[j]) && ({
                        let oe = old(self).routes@[i];
                        let ne = final(self).routes@[i];
                        &&& ne.method == oe.method
                        &&& ne.segments == oe.segments
                        &&& ne.handler == oe.handler
                        &&& ne.kind == oe.kind
                        &&& match phase {
                            MiddlewarePhase::Before => ne.before@ == oe.before@.push(handler)
                                && ne.after@ == oe.after@,
                            MiddlewarePhase::After => ne.after@ == oe.after@.push(handler)
                                && ne.before@ == oe.before@,
                        }
                    })
            }),
    {
        match scope {
            MiddlewareScope::Global => {
                match phase {
                    MiddlewarePhase::Before => self.global_before.push(handler),
                    MiddlewarePhase::After => self.global_after.push(handler),
                }
                Ok(())
            },
            MiddlewareScope::Route(m, p) => {
                let segs = match compile_pattern(p.as_slice()) {
                    Ok(s) => s,
                    Err(e) => {
                        return Err(e);
                    },
                };
                match self.find_key(m, &segs) {
                    Some(i) => {
                        let mut e = self.routes.remove(i);
                        match phase {
                            MiddlewarePhase::Before => e.before.push(handler),
                            MiddlewarePhase::After => e.after.push(handler),
                        }
                        self.routes.insert(i, e);
                        proof {
                            assert(final(self).routes@ =~= old(self).routes@.update(
                                i as int,
                                final(self).routes@[i as int],
                            ));
                        }
                        Ok(())
                    },
                    None => Err(RegisterError::UnknownRoute),
                }
            },
        }
    }

    /// Resolves an incoming (method, path) to the winning route with its
    /// parameter bindings and full middleware chains, or `NotFound` when no
    /// route matches.
    pub fn resolve(&self, method: HttpMethod, path: &[u8]) -> (r: Result<Resolution, ResolveError>)
        ensures
            r is Err <==> !(exists|i: int|
                0 <= i < self.routes@.len() && route_matches(
                    self.routes@,
                    i,
                    method,
                    split_spec(path@),
                )),
            r matches Ok(res) ==> exists|i: int|
                best_at(self.routes@, i, method, split_spec(path@)) && resolution_for(
                    res,
                    self.routes@[i],
                    *self,
                    split_spec(path@),
                ),
    {
        let parts = split_path(path);
        let ghost pm = split_spec(path@);
        let mut found = false;
        let mut bi: usize = 0;
        let mut bscore: usize = 0;
        let mut bparams: Vec<(Vec<u8>, Vec<u8>)> = Vec::new();
        let mut k: usize = 0;
        while k < self.routes.len()
            invariant
                k <= self.routes@.len(),
                pm == split_spec(path@),
                views_of(parts@) == pm,
                !found ==> forall|j: int| 0 <= j < k ==> !route_matches(self.routes@, j, method, pm),
                found ==> 0 <= bi < k && route_matches(self.routes@, bi as int, method, pm),
                found ==> bscore == lit_prefix(seg_models(self.routes@[bi as int].segments@)),
                found ==> param_models(bparams@) == bindings_of(
                    seg_models(self.routes@[bi as int].segments@),
                    pm,
                ),
                found ==> forall|j: int|
                    0 <= j < k && j != bi && route_matches(self.routes@, j, method, pm)
                        ==> lit_prefix(seg_models(self.routes@[j].segments@)) < bscore
                        || (lit_prefix(seg_models(self.routes@[j].segments@)) == bscore && bi < j),
            decreases self.routes.len() - k,
        {
            let e = &self.routes[k];
            if e.method == method {
                match match_segments(&e.segments, &parts) {
                    Some(ps) => {
                        let sc = literal_prefix_len(&e.segments);
                        if !found || sc > bscore {
                            found = true;
                            bi = k;
                            bscore = sc;
                            bparams = ps;
                        }
                    },
                    None => {},
                }
            }
            k = k + 1;
        }
        if found {
            let e = &self.routes[bi];
            let res = Resolution {
                handler: e.handler,
                kind: e.kind,
                params: bparams,
                before: concat_ids(&self.global_before, &e.before),
                after: concat_ids(&e.after, &self.global_after),
            };
            proof {
                assert(best_at(self.routes@, bi as int, method, split_spec(path@)));
                assert(resolution_for(res, self.routes@[bi as int], *self, split_spec(path@)));
            }
            Ok(res)
        } else {
            Err(ResolveError::NotFound)
        }
    }
}

/// Idempotent re-registration: a well-formed table holds at most one route
/// under any (method, pattern) key, so registering a key again leaves
/// exactly one active entry — the overwriting one.
pub proof fn lemma_key_unique(
    r: Router,
    method: HttpMethod,
    sm: Seq<SegShape>,
    i: int,
    j: int,
)
    requires
        r.wf(),
        0 <= i < r.routes@.len(),
        0 <= j < r.routes@.len(),
        key_at(r.routes@, method, sm, i),
        key_at(r.routes@, method, sm, j),
    ensures
        i == j,
{
}

/// Two routes cannot both win one resolution: the winning index is unique.
pub proof fn lemma_best_unique(
    routes: Seq<RouteEntry>,
    i: int,
    j: int,
    method: HttpMethod,
    pm: Seq<Seq<u8>>,
)
    requires
        best_at(routes, i, method, pm),
        best_at(routes, j, method, pm),
    ensures
        i == j,
{
}

/// When exactly one registered route matches a request, that route wins the
/// resolution.
pub proof fn lemma_unique_match_wins(
    routes: Seq<RouteEntry>,
    i: int,
    method: HttpMethod,
    pm: Seq<Seq<u8>>,
)
    requires
        0 <= i < routes.len(),
        route_matches(routes, i, method, pm),
        forall|j: int|
            0 <= j < routes.len() && j != i ==> !route_matches(routes, j, method, pm),
    ensures
        best_at(routes, i, method, pm),
{
}

/// Specificity: among two matching routes, the one with more literal
/// segments before its first parameter or wildcard wins, wherever the two
/// stand in registration order.
pub proof fn lemma_more_literal_wins(
    routes: Seq<RouteEntry>,
    i: int,
    j: int,
    method: HttpMethod,
    pm: Seq<Seq<u8>>,
)
    requires
        0 <= i < routes.len(),
        0 <= j < routes.len(),
        i != j,
        route_matches(routes, i, method, pm),
        route_matches(routes, j, method, pm),
        lit_prefix(seg_models(routes[i].segments@)) > lit_prefix(seg_models(routes[j].segments@)),
        forall|k: int|
            0 <= k < routes.len() && k != i && k != j ==> !route_matches(routes, k, method, pm),
    ensures
        best_at(routes, i, method, pm),
{
}

} // verus!
