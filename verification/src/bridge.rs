use vstd::prelude::*;

use crate::types::{ErrShape, HandlerError, RespShape, ResponseContext};

verus! {

/// Status sent when a stage fails without choosing its own status, and when
/// a handler yields nothing.
pub const SERVER_ERROR_STATUS: u16 = 500;

/// What one invoked stage reported back to the bridge: passed through,
/// produced a response, or raised an error that was caught at the boundary.
pub enum Outcome {
    Pass,
    Respond(ResponseContext),
    Fail(HandlerError),
}

/// Mathematical model of an outcome.
pub enum OutcomeShape {
    Pass,
    Respond(RespShape),
    Fail(ErrShape),
}

impl View for Outcome {
    type V = OutcomeShape;

    open spec fn view(&self) -> OutcomeShape {
        match self {
            Outcome::Pass => OutcomeShape::Pass,
            Outcome::Respond(r) => OutcomeShape::Respond(r@),
            Outcome::Fail(e) => OutcomeShape::Fail(e@),
        }
    }
}

/// Mathematical state of one chain run: how far it has advanced, which
/// stages have been invoked so far, and the response produced so far.
pub struct RunShape {
    pub pos: int,
    pub executed: Seq<u64>,
    pub response: Option<RespShape>,
}

pub open spec fn resp_view(o: Option<ResponseContext>) -> Option<RespShape> {
    match o {
        Some(r) => Some(r@),
        None => None,
    }
}

/// Number of stages in a full run: the before chain, the handler, the after
/// chain.
pub open spec fn total_stages(before: Seq<u64>, after: Seq<u64>) -> int {
    before.len() as int + 1 + after.len() as int
}

/// The stage invoked at position `pos` of the planned order.
pub open spec fn stage_at(before: Seq<u64>, handler: u64, after: Seq<u64>, pos: int) -> u64 {
    if pos < before.len() {
        before[pos]
    } else if pos == before.len() {
        handler
    } else {
        after[pos - before.len() - 1]
    }
}

/// The stages at positions `[lo, hi)` of the planned order.
pub open spec fn stages_between(
    before: Seq<u64>,
    handler: u64,
    after: Seq<u64>,
    lo: int,
    hi: int,
) -> Seq<u64> {
    Seq::new((hi - lo) as nat, |i: int| stage_at(before, handler, after, lo + i))
}

/// The response a caught failure turns into: the chosen status if one was
/// given, else the server-error status; never terminal on its own.
pub open spec fn error_response_spec(e: ErrShape) -> RespShape {
    RespShape {
        status: match e.status_override {
            Some(s) => s,
            None => SERVER_ERROR_STATUS,
        },
        headers: seq![],
        body: e.message,
        terminal: false,
    }
}

/// The failure recorded when a handler passes through without responding.
pub open spec fn no_response_spec() -> ErrShape {
    ErrShape { message: seq![], status_override: None }
}

/// One step of the bridge: position `pos` is invoked and reports `o`.
/// A before stage that responds skips straight to the after chain — to the
/// end of the run when its response is marked terminal. A before stage that
/// fails also skips to the after chain, carrying the error response. At the
/// handler and in the after chain the run always advances by one; an after
/// stage may replace the response, and a failure anywhere becomes an error
/// response.
pub open spec fn step_spec(
    before: Seq<u64>,
    handler: u64,
    after: Seq<u64>,
    st: RunShape,
    o: OutcomeShape,
) -> RunShape {
    let nb = before.len() as int;
    let n = total_stages(before, after);
    if st.pos >= n {
        st
    } else {
        let executed = st.executed.push(stage_at(before, handler, after, st.pos));
        match o {
            OutcomeShape::Pass => RunShape {
                pos: st.pos + 1,
                executed,
                response: if st.pos == nb {
                    Some(error_response_spec(no_response_spec()))
                } else {
                    st.response
                },
            },
            OutcomeShape::Respond(r) => RunShape {
                pos: if st.pos < nb {
                    if r.terminal {
                        n
                    } else {
                        nb + 1
                    }
                } else {
                    st.pos + 1
                },
                executed,
                response: Some(r),
            },
            OutcomeShape::Fail(e) => RunShape {
                pos: if st.pos < nb {
                    nb + 1
                } else {
                    st.pos + 1
                },
                executed,
                response: Some(error_response_spec(e)),
            },
        }
    }
}

/// The state after a whole sequence of outcomes, from the start of the run.
pub open spec fn run_spec(
    before: Seq<u64>,
    handler: u64,
    after: Seq<u64>,
    outs: Seq<OutcomeShape>,
) -> RunShape
    decreases outs.len(),
{
    if outs.len() == 0 {
        RunShape { pos: 0, executed: seq![], response: None }
    } else {
        step_spec(
            before,
            handler,
            after,
            run_spec(before, handler, after, outs.drop_last()),
            outs.last(),
        )
    }
}

/// A run never leaves `[0, total]`, and once past the handler it always
/// carries a response.
pub proof fn lemma_run_bounds(
    before: Seq<u64>,
    handler: u64,
    after: Seq<u64>,
    outs: Seq<OutcomeShape>,
)
    ensures
        0 <= run_spec(before, handler, after, outs).pos <= total_stages(before, after),
        run_spec(before, handler, after, outs).pos > before.len() ==> run_spec(
            before,
            handler,
            after,
            outs,
        ).response is Some,
    decreases outs.len(),
{
    if outs.len() > 0 {
        lemma_run_bounds(before, handler, after, outs.drop_last());
    }
}

/// The execution bridge's record of one chain run. The embedding invokes the
/// stage `next_stage` names, reports what it did through `apply`, and reads
/// the response when the run is done.
pub struct ChainRun {
    pub before: Vec<u64>,
    pub handler: u64,
    pub after: Vec<u64>,
    pub pos: usize,
    pub executed: Vec<u64>,
    pub response: Option<ResponseContext>,
    pub history: Ghost<Seq<OutcomeShape>>,
}

impl ChainRun {
    pub open spec fn total(self) -> int {
        total_stages(self.before@, self.after@)
    }

    /// The planned order fits the machine.
    pub open spec fn bounded(self) -> bool {
        self.before@.len() + 1 + self.after@.len() <= usize::MAX
    }

    pub open spec fn shape(self) -> RunShape {
        RunShape {
            pos: self.pos as int,
            executed: self.executed@,
            response: resp_view(self.response),
        }
    }

    /// The run's state is exactly what its recorded outcomes produce.
    pub open spec fn wf(self) -> bool {
        self.shape() == run_spec(self.before@, self.handler, self.after@, self.history@)
    }

    pub open spec fn is_done_spec(self) -> bool {
        self.pos as int == self.total()
    }

    /// Starts a run over the resolved chains, in their resolved order.
    pub fn new(before: Vec<u64>, handler: u64, after: Vec<u64>) -> (r: ChainRun)
        requires
            before@.len() + 1 + after@.len() <= usize::MAX,
        ensures
            r.wf(),
            r.bounded(),
            r.before@ == before@,
            r.handler == handler,
            r.after@ == after@,
            r.history@ == Seq::<OutcomeShape>::empty(),
            r.pos == 0,
            r.executed@ == Seq::<u64>::empty(),
            r.response is None,
    {
        ChainRun {
            before,
            handler,
            after,
            pos: 0,
            executed: Vec::new(),
            response: None,
            history: Ghost(Seq::empty()),
        }
    }

    /// Whether every stage of the run has been accounted for.
    pub fn is_done(&self) -> (r: bool)
        requires
            self.bounded(),
            (self.pos as int) <= self.total(),
        ensures
            r <==> self.is_done_spec(),
    {
        if self.pos <= self.before.len() {
            false
        } else {
            self.pos - self.before.len() - 1 >= self.after.len()
        }
    }

    /// The stage the embedding must invoke next, or nothing when the run is
    /// done.
    pub fn next_stage(&self) -> (r: Option<u64>)
        requires
            (self.pos as int) <= self.total(),
        ensures
            r is None <==> self.is_done_spec(),
            r matches Some(id) ==> id == stage_at(
                self.before@,
                self.handler,
                self.after@,
                self.pos as int,
            ),
    {
        if self.pos < self.before.len() {
            Some(self.before[self.pos])
        } else if self.pos == self.before.len() {
            Some(self.handler)
        } else {
            let idx = self.pos - self.before.len() - 1;
            if idx < self.after.len() {
                Some(self.after[idx])
            } else {
                None
            }
        }
    }

    /// Builds the response a caught failure yields.
    pub fn error_response(e: HandlerError) -> (r: ResponseContext)
        ensures
            r@ == error_response_spec(e@),
    {
        let status = match e.status_override {
            Some(s) => s,
            None => SERVER_ERROR_STATUS,
        };
        let r = ResponseContext { status, headers: Vec::new(), body: e.message, terminal: false };
        proof {
            assert(r@.headers =~= Seq::<(Seq<u8>, Seq<u8>)>::empty());
        }
        r
    }

    /// Records what the stage at the current position reported, and advances
    /// the run as `step_spec` says.
    pub fn apply(&mut self, o: Outcome)
        requires
            old(self).bounded(),
            (old(self).pos as int) < old(self).total(),
        ensures
            final(self).before@ == old(self).before@,
            final(self).handler == old(self).handler,
            final(self).after@ == old(self).after@,
            final(self).bounded(),
            final(self).history@ == old(self).history@.push(o@),
            final(self).shape() == step_spec(
                old(self).before@,
                old(self).handler,
                old(self).after@,
                old(self).shape(),
                o@,
            ),
            old(self).wf() ==> final(self).wf(),
    {
        let ghost osh = o@;
        let id = match self.next_stage() {
            Some(id) => id,
            None => {
                proof {
                    assert(false);
                }
                0
            },
        };
        let nb = self.before.len();
        match o {
            Outcome::Pass => {
                if self.pos == nb {
                    let e = HandlerError { message: Vec::new(), status_override: None };
                    proof {
                        assert(e@ == no_response_spec());
                    }
                    self.response = Some(Self::error_response(e));
                }
                self.pos = self.pos + 1;
            },
            Outcome::Respond(r) => {
                let terminal = r.terminal;
                self.response = Some(r);
                if self.pos < nb {
                    if terminal {
                        self.pos = nb + 1 + self.after.len();
                    } else {
                        self.pos = nb + 1;
                    }
                } else {
                    self.pos = self.pos + 1;
                }
            },
            Outcome::Fail(e) => {
                self.response = Some(Self::error_response(e));
                if self.pos < nb {
                    self.pos = nb + 1;
                } else {
                    self.pos = self.pos + 1;
                }
            },
        }
        self.executed.push(id);
        proof {
            self.history@ = old(self).history@.push(osh);
        }
        proof {
            if old(self).wf() {
                let h2 = old(self).history@.push(osh);
                assert(h2.drop_last() =~= old(self).history@);
                assert(h2.last() == osh);
            }
        }
    }
}

/// Running a block of pass-through outcomes that stays on one side of the
/// handler advances the run over exactly those stages and leaves the
/// response as it was.
pub proof fn lemma_pass_segment(
    before: Seq<u64>,
    handler: u64,
    after: Seq<u64>,
    outs: Seq<OutcomeShape>,
    extra: Seq<OutcomeShape>,
)
    requires
        forall|i: int| 0 <= i < extra.len() ==> extra[i] is Pass,
        run_spec(before, handler, after, outs).pos + extra.len() <= before.len() || run_spec(
            before,
            handler,
            after,
            outs,
        ).pos > before.len(),
        run_spec(before, handler, after, outs).pos + extra.len() <= total_stages(before, after),
        run_spec(before, handler, after, outs).pos >= 0,
    ensures
        ({
            let st = run_spec(before, handler, after, outs);
            let st2 = run_spec(before, handler, after, outs + extra);
            &&& st2.pos == st.pos + extra.len()
            &&& st2.executed == st.executed + stages_between(
                before,
                handler,
                after,
                st.pos,
                st.pos + extra.len(),
            )
            &&& st2.response == st.response
        }),
    decreases extra.len(),
{
    let st = run_spec(before, handler, after, outs);
    if extra.len() == 0 {
        assert(outs + extra =~= outs);
        assert(stages_between(before, handler, after, st.pos, st.pos) =~= Seq::<u64>::empty());
        assert(st.executed + stages_between(before, handler, after, st.pos, st.pos) =~= st.executed);
    } else {
        lemma_pass_segment(before, handler, after, outs, extra.drop_last());
        let mid = run_spec(before, handler, after, outs + extra.drop_last());
        let p2 = st.pos + extra.len() - 1;
        assert(extra.last() is Pass);
        assert((outs + extra).drop_last() =~= outs + extra.drop_last());
        assert((outs + extra).last() == extra.last());
        assert(run_spec(before, handler, after, outs + extra) == step_spec(
            before,
            handler,
            after,
            mid,
            extra.last(),
        ));
        assert(mid.pos == p2);
        assert(p2 < total_stages(before, after));
        assert(p2 != before.len() as int);
        assert(st.executed + stages_between(before, handler, after, st.pos, p2).push(
            stage_at(before, handler, after, p2),
        ) =~= st.executed + stages_between(before, handler, after, st.pos, p2 + 1));
    }
}

/// Middleware ordering: when every stage passes through and the handler
/// responds, the observed execution order is exactly the before chain in
/// order, then the handler, then the after chain in order, and the handler's
/// response is the run's response.
pub proof fn theorem_chain_order(
    before: Seq<u64>,
    handler: u64,
    after: Seq<u64>,
    outs: Seq<OutcomeShape>,
    r: RespShape,
)
    requires
        outs.len() == total_stages(before, after),
        forall|i: int| 0 <= i < outs.len() && i != before.len() ==> outs[i] is Pass,
        outs[before.len() as int] == OutcomeShape::Respond(r),
    ensures
        ({
            let st = run_spec(before, handler, after, outs);
            &&& st.executed == before + seq![handler] + after
            &&& st.response == Some(r)
            &&& st.pos == total_stages(before, after)
        }),
{
    let nb = before.len() as int;
    let n = total_stages(before, after);
    let o1 = outs.take(nb);
    assert(Seq::<OutcomeShape>::empty() + o1 =~= o1);
    assert(run_spec(before, handler, after, Seq::<OutcomeShape>::empty()).pos == 0);
    lemma_pass_segment(before, handler, after, Seq::empty(), o1);
    let st1 = run_spec(before, handler, after, o1);
    assert(st1.pos == nb);
    assert(st1.executed =~= stages_between(before, handler, after, 0, nb));
    assert(stages_between(before, handler, after, 0, nb) =~= before);
    let o2 = outs.take(nb + 1);
    assert(o2.drop_last() =~= o1);
    assert(o2.last() == outs[nb]);
    let st2 = run_spec(before, handler, after, o2);
    assert(st2 == step_spec(before, handler, after, st1, outs[nb]));
    assert(st2.pos == nb + 1);
    assert(st2.executed == st1.executed.push(handler));
    assert(st2.response == Some(r));
    let o3 = outs.skip(nb + 1);
    assert(forall|i: int| 0 <= i < o3.len() ==> o3[i] == outs[nb + 1 + i]);
    assert(forall|i: int| 0 <= i < o3.len() ==> o3[i] is Pass);
    assert(o2 + o3 =~= outs);
    lemma_pass_segment(before, handler, after, o2, o3);
    let st = run_spec(before, handler, after, outs);
    assert(st.pos == n);
    assert(st.response == Some(r));
    assert(st.executed == st2.executed + stages_between(before, handler, after, nb + 1, n));
    assert(stages_between(before, handler, after, nb + 1, n) =~= after);
    assert(st1.executed.push(handler) + after =~= before + seq![handler] + after);
}

/// Short-circuit: a before middleware that responds directly, without the
/// terminal mark, keeps the remaining before stages and the handler from
/// running, while the whole after chain still runs on its response.
pub proof fn theorem_short_circuit(
    before: Seq<u64>,
    handler: u64,
    after: Seq<u64>,
    outs: Seq<OutcomeShape>,
    k: int,
    r: RespShape,
)
    requires
        0 <= k < before.len(),
        outs.len() == k + 1 + after.len(),
        forall|i: int| 0 <= i < outs.len() && i != k ==> outs[i] is Pass,
        outs[k] == OutcomeShape::Respond(r),
        !r.terminal,
    ensures
        ({
            let st = run_spec(before, handler, after, outs);
            &&& st.executed == before.take(k + 1) + after
            &&& st.response == Some(r)
            &&& st.pos == total_stages(before, after)
        }),
{
    let nb = before.len() as int;
    let n = total_stages(before, after);
    let o1 = outs.take(k);
    assert(Seq::<OutcomeShape>::empty() + o1 =~= o1);
    lemma_pass_segment(before, handler, after, Seq::empty(), o1);
    let st1 = run_spec(before, handler, after, o1);
    assert(st1.pos == k);
    assert(st1.executed =~= stages_between(before, handler, after, 0, k));
    assert(stages_between(before, handler, after, 0, k) =~= before.take(k));
    let o2 = outs.take(k + 1);
    assert(o2.drop_last() =~= o1);
    assert(o2.last() == outs[k]);
    let st2 = run_spec(before, handler, after, o2);
    assert(st2 == step_spec(before, handler, after, st1, outs[k]));
    assert(st2.pos == nb + 1);
    assert(st2.executed == st1.executed.push(before[k]));
    assert(st2.response == Some(r));
    let o3 = outs.skip(k + 1);
    assert(forall|i: int| 0 <= i < o3.len() ==> o3[i] == outs[k + 1 + i]);
    assert(forall|i: int| 0 <= i < o3.len() ==> o3[i] is Pass);
    assert(o2 + o3 =~= outs);
    lemma_pass_segment(before, handler, after, o2, o3);
    let st = run_spec(before, handler, after, outs);
    assert(st.pos == n);
    assert(st.response == Some(r));
    assert(st.executed == st2.executed + stages_between(before, handler, after, nb + 1, n));
    assert(stages_between(before, handler, after, nb + 1, n) =~= after);
    assert(before.take(k).push(before[k]) =~= before.take(k + 1));
    assert(before.take(k).push(before[k]) + after =~= before.take(k + 1) + after);
}

} // verus!
