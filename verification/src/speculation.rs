//! Bounded speculative execution and result-release gating.
//!
//! The leader may compute a *tentative* result for a proposal over a
//! disposable overlay of the durable state plus the tentative effects of
//! every earlier proposal in its order; this module only tracks the
//! outcomes. A tentative result is exactly the final one whenever the
//! leader's order of the whole prefix is learned unchanged, which is the
//! only case the [`ReleaseGate`] releases it. Overlays are bounded and
//! discarded whenever the role changes; nothing tentative survives a
//! deposition.

use vstd::prelude::*;

use crate::bytes::copy_bytes;
use crate::effects::{EstablishmentEvidence, EstablishmentView, ReleasedResult, ReleasedView};
use crate::ids::{Ballot, CommandId, ConfigurationEpoch, Digest32, ExecutionPosition, KvRevision};
use crate::lists::copy_list;
use crate::ordered::{OrdMap, OrdSet, views};
use crate::seal::{EstablishError, Sealing, is_seal, is_sealed, sealing_of};

verus! {

/// Default number of unexecuted proposals the leader speculates ahead.
pub const DEFAULT_SPECULATION_BOUND: usize = 64;

/// What the leader asks the speculation companion to compute: the command
/// at the position it would occupy if every earlier unexecuted proposal
/// (the prefix, in the leader's order) executes first.
#[derive(Debug)]
pub struct SpeculationRequest {
    /// Command to plan.
    pub command: CommandId,
    /// Earlier unexecuted proposals, in order; each already has a tentative
    /// outcome in the overlay.
    pub prefix: Vec<CommandId>,
    /// Execution position the command takes after the prefix.
    pub position: ExecutionPosition,
}

/// What a request asks.
#[verifier::ext_equal]
pub struct RequestView {
    /// Command to plan.
    pub command: CommandId,
    /// Earlier unexecuted proposals, in order.
    pub prefix: Seq<CommandId>,
    /// Execution position the command takes after the prefix.
    pub position: ExecutionPosition,
}

impl View for SpeculationRequest {
    type V = RequestView;

    open spec fn view(&self) -> RequestView {
        RequestView { command: self.command, prefix: self.prefix@, position: self.position }
    }
}

/// What an optional request asks.
pub open spec fn request_view(r: Option<SpeculationRequest>) -> Option<RequestView> {
    match r {
        Some(r) => Some(r@),
        None => None,
    }
}

/// A tentative outcome computed over the overlay.
#[derive(Debug)]
pub struct TentativeOutcome {
    /// Command.
    pub command: CommandId,
    /// Position it was planned at.
    pub position: ExecutionPosition,
    /// KV revision it would produce, if any.
    pub revision: Option<KvRevision>,
    /// Digest of the exact response.
    pub result_digest: Digest32,
    /// The exact encoded response.
    pub response: Vec<u8>,
    /// The prefix it was planned after.
    pub prefix: Vec<CommandId>,
}

/// What a tentative outcome says.
#[verifier::ext_equal]
pub struct TentativeView {
    /// Command.
    pub command: CommandId,
    /// Position it was planned at.
    pub position: ExecutionPosition,
    /// KV revision it would produce, if any.
    pub revision: Option<KvRevision>,
    /// Digest of the exact response.
    pub result_digest: Digest32,
    /// The exact encoded response.
    pub response: Seq<u8>,
    /// The prefix it was planned after.
    pub prefix: Seq<CommandId>,
}

impl View for TentativeOutcome {
    type V = TentativeView;

    open spec fn view(&self) -> TentativeView {
        TentativeView {
            command: self.command,
            position: self.position,
            revision: self.revision,
            result_digest: self.result_digest,
            response: self.response@,
            prefix: self.prefix@,
        }
    }
}

/// A released speculative result and the materialized outcome disagree: the
/// replica halts rather than serving two answers for one command.
#[derive(Clone, Copy, Debug, PartialEq, Eq)]
pub struct SpeculationMismatch {
    /// Command.
    pub command: CommandId,
    /// Tentative position and digest.
    pub tentative: (ExecutionPosition, Digest32),
    /// Materialized position and digest.
    pub materialized: (ExecutionPosition, Digest32),
}

/// Tentative outcomes of one leader ballot.
#[derive(Debug)]
pub struct Speculation {
    outcomes: OrdMap<CommandId, TentativeOutcome>,
    /// Commands the companion refused (not speculable, or over budget): the
    /// chain stops there until they execute.
    declined: OrdSet<CommandId>,
    released: OrdSet<CommandId>,
    bound: usize,
}

/// What is tentative.
#[verifier::ext_equal]
pub struct SpeculationView {
    /// Outcomes computed.
    pub outcomes: Map<CommandId, TentativeView>,
    /// Commands the companion refused.
    pub declined: Set<CommandId>,
    /// Commands whose result was released.
    pub released: Set<CommandId>,
    /// Proposals speculated ahead at most.
    pub bound: usize,
}

impl View for Speculation {
    type V = SpeculationView;

    closed spec fn view(&self) -> SpeculationView {
        SpeculationView {
            outcomes: self.outcomes@,
            declined: self.declined@,
            released: self.released@,
            bound: self.bound,
        }
    }
}

/// What must hold before a tentative result leaves the replica.
pub struct GateView {
    /// Epoch.
    pub epoch: ConfigurationEpoch,
    /// Ballot the evidence belongs to.
    pub ballot: Ballot,
    /// Commands committed by the learning predicate.
    pub committed: spec_fn(CommandId) -> bool,
    /// Commands learned by the fast predicate.
    pub fast: spec_fn(CommandId) -> bool,
    /// Evidence that is sealed.
    pub seal: Sealing,
}

impl GateView {
    /// What is released of a tentative outcome.
    pub open spec fn release_of(self, t: TentativeView, c: CommandId) -> ReleasedView {
        ReleasedView {
            evidence: EstablishmentView {
                command: c,
                epoch: self.epoch,
                ballot: self.ballot,
                position: t.position,
                closed_predecessors: t.prefix,
                result_digest: t.result_digest,
                revision: t.revision,
                fast_path: (self.fast)(c),
            },
            response: t.response,
            speculative: true,
        }
    }
}

impl SpeculationView {
    /// Nothing tentative.
    pub open spec fn empty(bound: usize) -> Self {
        SpeculationView {
            outcomes: Map::empty(),
            declined: Set::empty(),
            released: Set::empty(),
            bound,
        }
    }

    /// How many proposals at the front have an outcome.
    pub open spec fn planned(self, proposals: Seq<CommandId>) -> nat
        decreases proposals.len(),
    {
        if proposals.len() == 0 || !self.outcomes.contains_key(proposals[0]) {
            0
        } else {
            1 + self.planned(proposals.drop_first())
        }
    }

    /// The next request along the leader's order.
    pub open spec fn next_request(
        self,
        proposals: Seq<CommandId>,
        executed_through: ExecutionPosition,
    ) -> Option<RequestView> {
        let k = self.planned(proposals);
        if k >= proposals.len() || self.declined.contains(proposals[k as int]) || k >= self.bound
            || executed_through.0 + k + 1 > u64::MAX {
            None
        } else {
            Some(
                RequestView {
                    command: proposals[k as int],
                    prefix: proposals.take(k as int),
                    position: ExecutionPosition((executed_through.0 + k + 1) as u64),
                },
            )
        }
    }

    /// With a computed outcome.
    pub open spec fn recorded(self, t: TentativeView) -> Self {
        SpeculationView {
            declined: self.declined.remove(t.command),
            outcomes: self.outcomes.insert(t.command, t),
            ..self
        }
    }

    /// Without a command.
    pub open spec fn forgotten(self, c: CommandId) -> Self {
        SpeculationView {
            declined: self.declined.remove(c),
            released: self.released.remove(c),
            outcomes: self.outcomes.remove(c),
            ..self
        }
    }

    /// How a materialized outcome disagrees with a released one.
    pub open spec fn mismatch(
        self,
        c: CommandId,
        position: ExecutionPosition,
        digest: Digest32,
    ) -> Option<SpeculationMismatch> {
        if self.outcomes.contains_key(c) && self.released.contains(c) && (
        self.outcomes[c].position != position || self.outcomes[c].result_digest != digest) {
            Some(
                SpeculationMismatch {
                    command: c,
                    tentative: (self.outcomes[c].position, self.outcomes[c].result_digest),
                    materialized: (position, digest),
                },
            )
        } else {
            None
        }
    }

    /// The release of `c` is refused: its evidence is not sealed.
    pub open spec fn refuses(self, gate: GateView, c: CommandId) -> bool {
        !self.released.contains(c) && !(gate.seal)(gate.release_of(self.outcomes[c], c).evidence)
    }

    /// A walk along the leader's order stops before the first of these
    /// proposals: it is not committed, has no outcome, or its evidence is not
    /// sealed.
    pub open spec fn stops(self, gate: GateView, proposals: Seq<CommandId>) -> bool {
        ||| proposals.len() == 0
        ||| !(gate.committed)(proposals[0])
        ||| !self.outcomes.contains_key(proposals[0])
        ||| self.refuses(gate, proposals[0])
    }

    /// What is sealed for release along the leader's order, up to where the
    /// walk stops.
    pub open spec fn releasable(self, gate: GateView, proposals: Seq<CommandId>) -> Seq<
        ReleasedView,
    >
        decreases proposals.len(),
    {
        if self.stops(gate, proposals) {
            Seq::empty()
        } else {
            let c = proposals[0];
            let rest = self.marked(c).releasable(gate, proposals.drop_first());
            if self.released.contains(c) {
                rest
            } else {
                seq![gate.release_of(self.outcomes[c], c)] + rest
            }
        }
    }

    /// With `c` marked as released.
    pub open spec fn marked(self, c: CommandId) -> Self {
        SpeculationView { released: self.released.insert(c), ..self }
    }

    /// The walk stops at evidence that is not sealed.
    pub open spec fn refused_along(self, gate: GateView, proposals: Seq<CommandId>) -> bool
        decreases proposals.len(),
    {
        if self.stops(gate, proposals) {
            proposals.len() > 0 && (gate.committed)(proposals[0]) && self.outcomes.contains_key(
                proposals[0],
            )
        } else {
            self.marked(proposals[0]).refused_along(gate, proposals.drop_first())
        }
    }

    /// The state once the walk stopped: everything before is marked.
    pub open spec fn released_along(self, gate: GateView, proposals: Seq<CommandId>) -> Self
        decreases proposals.len(),
    {
        if self.stops(gate, proposals) {
            self
        } else {
            self.marked(proposals[0]).released_along(gate, proposals.drop_first())
        }
    }
}

/// A tentative result leaves the replica only when its command and every
/// earlier proposal are committed and have an outcome, only sealed, and only
/// once.
pub proof fn lemma_release_needs_the_prefix(
    state: SpeculationView,
    gate: GateView,
    proposals: Seq<CommandId>,
    i: int,
)
    requires
        0 <= i < state.releasable(gate, proposals).len(),
    ensures
        ({
            let c = state.releasable(gate, proposals)[i].evidence.command;
            &&& (gate.seal)(state.releasable(gate, proposals)[i].evidence)
            &&& !state.released.contains(c)
            &&& state.released_along(gate, proposals).released.contains(c)
            &&& exists|k: int|
                0 <= k < proposals.len() && proposals[k] == c && forall|j: int|
                    0 <= j <= k ==> (gate.committed)(#[trigger] proposals[j])
                        && state.outcomes.contains_key(proposals[j])
        }),
    decreases proposals.len(),
{
    let c0 = proposals[0];
    let rest = proposals.drop_first();
    let next = state.marked(c0);
    let out = state.releasable(gate, proposals);
    lemma_marks_stay(next, gate, rest, c0);
    if !state.released.contains(c0) && i == 0 {
        assert(out[0] == gate.release_of(state.outcomes[c0], c0));
        assert(proposals[0] == c0);
    } else {
        let at = if state.released.contains(c0) {
            i
        } else {
            i - 1
        };
        lemma_release_needs_the_prefix(next, gate, rest, at);
        assert(out[i] == next.releasable(gate, rest)[at]);
        let c = out[i].evidence.command;
        let k = choose|k: int|
            0 <= k < rest.len() && rest[k] == c && forall|j: int|
                0 <= j <= k ==> (gate.committed)(#[trigger] rest[j])
                    && next.outcomes.contains_key(rest[j]);
        assert(proposals[k + 1] == c);
        assert forall|j: int| 0 <= j <= k + 1 implies (gate.committed)(#[trigger] proposals[j])
            && state.outcomes.contains_key(proposals[j]) by {
            if j > 0 {
                assert(rest[j - 1] == proposals[j]);
            }
        }
    }
}

proof fn lemma_marks_stay(
    state: SpeculationView,
    gate: GateView,
    proposals: Seq<CommandId>,
    c: CommandId,
)
    requires
        state.released.contains(c),
    ensures
        state.released_along(gate, proposals).released.contains(c),
    decreases proposals.len(),
{
    if !state.stops(gate, proposals) {
        lemma_marks_stay(state.marked(proposals[0]), gate, proposals.drop_first(), c);
    }
}

impl Speculation {
    /// Empty state with the default bound.
    pub fn new() -> (r: Self)
        ensures
            r@ == SpeculationView::empty(DEFAULT_SPECULATION_BOUND),
    {
        Speculation {
            outcomes: OrdMap::new(),
            declined: OrdSet::new(),
            released: OrdSet::new(),
            bound: DEFAULT_SPECULATION_BOUND,
        }
    }

    /// Set the bound (zero disables speculation).
    pub fn set_bound(&mut self, bound: usize)
        ensures
            final(self)@ == (SpeculationView { bound, ..old(self)@ }),
    {
        self.bound = bound;
    }

    /// The bound.
    pub fn bound(&self) -> (r: usize)
        ensures
            r == self@.bound,
    {
        self.bound
    }

    /// Outcomes held (bound accounting).
    pub fn outstanding(&self) -> (r: usize)
        ensures
            r == self@.outcomes.dom().len(),
    {
        self.outcomes.len()
    }

    /// The tentative outcome of a command, if computed.
    pub fn outcome(&self, command: &CommandId) -> (r: Option<&TentativeOutcome>)
        ensures
            r is Some <==> self@.outcomes.contains_key(*command),
            r is Some ==> r->0@ == self@.outcomes[*command],
    {
        self.outcomes.get(command)
    }

    /// Whether the companion declined the command.
    pub fn declined(&self, command: &CommandId) -> (r: bool)
        ensures
            r == self@.declined.contains(*command),
    {
        self.declined.contains(command)
    }

    /// Whether the command's result was released speculatively.
    pub fn released(&self, command: &CommandId) -> (r: bool)
        ensures
            r == self@.released.contains(*command),
    {
        self.released.contains(command)
    }

    /// The next request along the leader's order (`proposals`: unexecuted
    /// proposals in sequence order): the first proposal without an outcome,
    /// provided every earlier one has one and the bound allows.
    pub fn next_request(&self, proposals: &Vec<CommandId>, executed_through: ExecutionPosition) -> (r:
        Option<SpeculationRequest>)
        ensures
            request_view(r) == self@.next_request(proposals@, executed_through),
    {
        let ghost all = proposals@;
        let mut prefix: Vec<CommandId> = Vec::new();
        let mut i: usize = 0;
        proof {
            assert(all.skip(0) =~= all);
            assert(all.take(0) =~= Seq::<CommandId>::empty());
        }
        while i < proposals.len() && self.outcomes.contains_key(&proposals[i])
            invariant
                i <= proposals@.len(),
                all == proposals@,
                prefix@ == all.take(i as int),
                self@.planned(all) == i + self@.planned(all.skip(i as int)),
            decreases proposals@.len() - i,
        {
            proof {
                let rest = all.skip(i as int);
                assert(rest[0] == all[i as int]);
                assert(rest.drop_first() =~= all.skip(i + 1));
                assert(all.take(i + 1) =~= all.take(i as int).push(all[i as int]));
            }
            prefix.push(proposals[i]);
            i = i + 1;
        }
        if i >= proposals.len() {
            return None;
        }
        proof {
            assert(all.skip(i as int)[0] == all[i as int]);
        }
        let c = proposals[i];
        if self.declined.contains(&c) || i >= self.bound {
            return None;
        }
        if executed_through.0 == u64::MAX || i as u64 > u64::MAX - 1 - executed_through.0 {
            return None;
        }
        Some(
            SpeculationRequest {
                command: c,
                prefix,
                position: ExecutionPosition(executed_through.0 + i as u64 + 1),
            },
        )
    }

    /// Record a computed outcome.
    pub fn record(&mut self, outcome: TentativeOutcome)
        ensures
            final(self)@ == old(self)@.recorded(outcome@),
    {
        self.declined.remove(&outcome.command);
        self.outcomes.insert(outcome.command, outcome);
    }

    /// Record a refusal.
    pub fn decline(&mut self, command: CommandId)
        ensures
            final(self)@ == (SpeculationView {
                declined: old(self)@.declined.insert(command),
                ..old(self)@
            }),
    {
        self.declined.insert(command);
    }

    /// Forget a command (executed, or its proposal gone).
    pub fn forget(&mut self, command: &CommandId) -> (r: Option<TentativeOutcome>)
        ensures
            final(self)@ == old(self)@.forgotten(*command),
            r is Some <==> old(self)@.outcomes.contains_key(*command),
            r is Some ==> r->0@ == old(self)@.outcomes[*command],
    {
        self.declined.remove(command);
        self.released.remove(command);
        self.outcomes.remove(command)
    }

    /// Discard everything (role change: nothing tentative survives).
    pub fn clear(&mut self)
        ensures
            final(self)@ == SpeculationView::empty(old(self)@.bound),
    {
        self.outcomes = OrdMap::new();
        self.declined = OrdSet::new();
        self.released = OrdSet::new();
    }

    /// Check a materialized outcome against the tentative one, forgetting it
    /// either way.
    pub fn reconcile(
        &mut self,
        command: CommandId,
        position: ExecutionPosition,
        result_digest: Digest32,
    ) -> (r: Result<(), SpeculationMismatch>)
        ensures
            final(self)@ == old(self)@.forgotten(command),
            match old(self)@.mismatch(command, position, result_digest) {
                Some(m) => r == Err::<(), SpeculationMismatch>(m),
                None => r is Ok,
            },
    {
        let released = self.released.contains(&command);
        match self.forget(&command) {
            Some(t) => {
                if released && (t.position != position || t.result_digest != result_digest) {
                    return Err(
                        SpeculationMismatch {
                            command,
                            tentative: (t.position, t.result_digest),
                            materialized: (position, result_digest),
                        },
                    );
                }
                Ok(())
            },
            None => Ok(()),
        }
    }
}

/// `f` answers for every command.
pub open spec fn decides_all<F: Fn(CommandId) -> bool>(f: F) -> bool {
    forall|c: CommandId| #[trigger] call_requires(f, (c,))
}

/// `f` answers as `model` does.
pub open spec fn decides<F: Fn(CommandId) -> bool>(f: F, model: spec_fn(CommandId) -> bool) -> bool {
    forall|c: CommandId, b: bool| #[trigger] call_ensures(f, (c,), b) ==> b == model(c)
}

/// The release gate: what the learner must show before a tentative result
/// leaves the replica.
pub struct ReleaseGate<'a, C: Fn(CommandId) -> bool, F: Fn(CommandId) -> bool> {
    /// Epoch.
    pub epoch: ConfigurationEpoch,
    /// Ballot the evidence belongs to.
    pub ballot: Ballot,
    /// Whether a command is committed by the learning predicate.
    pub committed: &'a C,
    /// Whether a command was learned by the fast predicate (measurement).
    pub fast: &'a F,
}

impl<'a, C: Fn(CommandId) -> bool, F: Fn(CommandId) -> bool> ReleaseGate<'a, C, F> {
    /// It answers as `gate` does, but for what is sealed.
    pub open spec fn answers(&self, gate: GateView) -> bool {
        &&& self.epoch == gate.epoch
        &&& self.ballot == gate.ballot
        &&& decides(*self.committed, gate.committed)
        &&& decides(*self.fast, gate.fast)
    }

    /// Release every tentative result whose command and whole prefix are
    /// committed, along the leader's order (`proposals`: unexecuted
    /// proposals in sequence order). Stops at the first proposal that is not
    /// committed or has no outcome: a later command's tentative result
    /// depends on the whole prefix. Where evidence is not sealed, nothing is
    /// handed out; what was sealed before it stays marked as released.
    #[verifier::rlimit(40)]
    pub fn release<S: Fn(EstablishmentEvidence) -> bool>(
        &self,
        seal: &S,
        speculation: &mut Speculation,
        proposals: &Vec<CommandId>,
    ) -> (r: Result<Vec<ReleasedResult>, EstablishError>)
        requires
            is_seal(*seal),
            decides_all(*self.committed),
            decides_all(*self.fast),
        ensures
            forall|gate: GateView|
                #[trigger] self.answers(gate) && gate.seal == sealing_of(*seal) ==> {
                    &&& final(speculation)@ == old(speculation)@.released_along(gate, proposals@)
                    &&& if old(speculation)@.refused_along(gate, proposals@) {
                        r == Err::<Vec<ReleasedResult>, EstablishError>(EstablishError)
                    } else {
                        r is Ok && views(r->Ok_0@) == old(speculation)@.releasable(
                            gate,
                            proposals@,
                        )
                    }
                },
    {
        let ghost all = proposals@;
        let ghost start = speculation@;
        let ghost sealing = sealing_of(*seal);
        let mut out: Vec<ReleasedResult> = Vec::new();
        let mut i: usize = 0;
        proof {
            assert(all.skip(0) =~= all);
            assert forall|gate: GateView| self.answers(gate) && gate.seal == sealing implies views(
                out@,
            ) + #[trigger] speculation@.releasable(gate, all.skip(0)) == start.releasable(
                gate,
                all,
            ) by {
                assert(views(out@) + speculation@.releasable(gate, all.skip(0))
                    =~= start.releasable(gate, all));
            }
        }
        while i < proposals.len()
            invariant
                i <= proposals@.len(),
                all == proposals@,
                start == old(speculation)@,
                is_seal(*seal),
                sealing == sealing_of(*seal),
                decides_all(*self.committed),
                decides_all(*self.fast),
                forall|gate: GateView|
                    self.answers(gate) && gate.seal == sealing ==> views(out@)
                        + #[trigger] speculation@.releasable(gate, all.skip(i as int))
                        == start.releasable(gate, all),
                forall|gate: GateView|
                    self.answers(gate) && gate.seal == sealing
                        ==> #[trigger] speculation@.released_along(gate, all.skip(i as int))
                        == start.released_along(gate, all),
                forall|gate: GateView|
                    self.answers(gate) && gate.seal == sealing
                        ==> #[trigger] speculation@.refused_along(gate, all.skip(i as int))
                        == start.refused_along(gate, all),
            decreases proposals@.len() - i,
        {
            let c = proposals[i];
            let ghost rest = all.skip(i as int);
            let ghost before = speculation@;
            let ghost said = out@;
            proof {
                assert(rest[0] == c);
                assert(rest.drop_first() =~= all.skip(i + 1));
            }
            if !(self.committed)(c) {
                proof {
                    assert forall|gate: GateView|
                        #[trigger] self.answers(gate) && gate.seal == sealing implies views(out@)
                        == start.releasable(gate, all) && speculation@ == start.released_along(
                        gate,
                        all,
                    ) && !start.refused_along(gate, all) by {
                        assert(before.stops(gate, rest));
                        assert(views(out@) + speculation@.releasable(gate, rest) =~= views(out@));
                        assert(speculation@.released_along(gate, rest) == speculation@);
                        assert(!speculation@.refused_along(gate, rest));
                    }
                }
                return Ok(out);
            }
            let found = speculation.outcomes.get(&c);
            match found {
                None => {
                    proof {
                        assert forall|gate: GateView|
                            #[trigger] self.answers(gate) && gate.seal == sealing implies views(out@)
                            == start.releasable(gate, all) && speculation@ == start.released_along(
                            gate,
                            all,
                        ) && !start.refused_along(gate, all) by {
                            assert(before.stops(gate, rest));
                            assert(views(out@) + speculation@.releasable(gate, rest) =~= views(
                                out@,
                            ));
                            assert(speculation@.released_along(gate, rest) == speculation@);
                            assert(!speculation@.refused_along(gate, rest));
                        }
                    }
                    return Ok(out);
                },
                Some(t) => {
                    if !speculation.released.contains(&c) {
                        let fast_path = (self.fast)(c);
                        let evidence = EstablishmentEvidence {
                            command: c,
                            epoch: self.epoch,
                            ballot: self.ballot,
                            position: t.position,
                            closed_predecessors: copy_list(&t.prefix),
                            result_digest: t.result_digest,
                            revision: t.revision,
                            fast_path,
                        };
                        let ghost told = evidence@;
                        proof {
                            assert forall|gate: GateView| #[trigger] self.answers(gate) implies told
                                == gate.release_of(before.outcomes[c], c).evidence by {
                                assert(told =~= gate.release_of(before.outcomes[c], c).evidence);
                            }
                        }
                        if !is_sealed(seal, &evidence) {
                            proof {
                                assert forall|gate: GateView|
                                    #[trigger] self.answers(gate) && gate.seal
                                        == sealing implies speculation@ == start.released_along(
                                    gate,
                                    all,
                                ) && start.refused_along(gate, all) by {
                                    assert(before.refuses(gate, c));
                                    assert(before.stops(gate, rest));
                                    assert(speculation@.released_along(gate, rest)
                                        == speculation@);
                                    assert(speculation@.refused_along(gate, rest));
                                }
                            }
                            return Err(EstablishError);
                        }
                        let result = ReleasedResult {
                            evidence,
                            response: copy_bytes(&t.response),
                            speculative: true,
                        };
                        let ghost shown = result@;
                        out.push(result);
                        speculation.released.insert(c);
                        proof {
                            assert(views(out@) =~= views(said).push(shown));
                            assert(speculation@ =~= before.marked(c));
                            assert forall|gate: GateView|
                                self.answers(gate) && gate.seal == sealing implies views(out@)
                                + #[trigger] speculation@.releasable(gate, all.skip(i + 1))
                                == start.releasable(gate, all) by {
                                assert(!before.stops(gate, rest));
                                assert(shown =~= gate.release_of(before.outcomes[c], c));
                                assert(views(said) + before.releasable(gate, rest)
                                    =~= views(out@) + speculation@.releasable(
                                    gate,
                                    all.skip(i + 1),
                                ));
                            }
                            assert forall|gate: GateView|
                                self.answers(gate) && gate.seal
                                    == sealing implies #[trigger] speculation@.released_along(
                                gate,
                                all.skip(i + 1),
                            ) == start.released_along(gate, all) by {
                                assert(!before.stops(gate, rest));
                                assert(before.released_along(gate, rest) == start.released_along(
                                    gate,
                                    all,
                                ));
                            }
                            assert forall|gate: GateView|
                                self.answers(gate) && gate.seal
                                    == sealing implies #[trigger] speculation@.refused_along(
                                gate,
                                all.skip(i + 1),
                            ) == start.refused_along(gate, all) by {
                                assert(!before.stops(gate, rest));
                                assert(before.refused_along(gate, rest) == start.refused_along(
                                    gate,
                                    all,
                                ));
                            }
                        }
                    } else {
                        proof {
                            assert(before.marked(c) =~= before);
                            assert forall|gate: GateView|
                                self.answers(gate) && gate.seal == sealing implies views(out@)
                                + #[trigger] speculation@.releasable(gate, all.skip(i + 1))
                                == start.releasable(gate, all) by {
                                assert(!before.stops(gate, rest));
                                assert(views(out@) + before.releasable(gate, rest)
                                    == start.releasable(gate, all));
                            }
                            assert forall|gate: GateView|
                                self.answers(gate) && gate.seal
                                    == sealing implies #[trigger] speculation@.released_along(
                                gate,
                                all.skip(i + 1),
                            ) == start.released_along(gate, all) by {
                                assert(!before.stops(gate, rest));
                                assert(before.released_along(gate, rest) == start.released_along(
                                    gate,
                                    all,
                                ));
                            }
                            assert forall|gate: GateView|
                                self.answers(gate) && gate.seal
                                    == sealing implies #[trigger] speculation@.refused_along(
                                gate,
                                all.skip(i + 1),
                            ) == start.refused_along(gate, all) by {
                                assert(!before.stops(gate, rest));
                                assert(before.refused_along(gate, rest) == start.refused_along(
                                    gate,
                                    all,
                                ));
                            }
                        }
                    }
                },
            }
            i = i + 1;
        }
        proof {
            assert(all.skip(all.len() as int) =~= Seq::<CommandId>::empty());
            assert forall|gate: GateView|
                #[trigger] self.answers(gate) && gate.seal == sealing implies views(out@)
                == start.releasable(gate, all) && speculation@ == start.released_along(gate, all)
                && !start.refused_along(gate, all) by {
                assert(views(out@) + speculation@.releasable(gate, all.skip(i as int)) =~= views(
                    out@,
                ));
                assert(speculation@.released_along(gate, all.skip(i as int)) == speculation@);
                assert(!speculation@.refused_along(gate, all.skip(i as int)));
            }
        }
        Ok(out)
    }
}

} // verus!
