//! The learner: commitment by evidence and execution in order.
//!
//! A command is learned when its slow predicate holds (the leader's order
//! adopted by a majority including the leader) or, with full learning, when
//! the fast predicate holds, and every dependency is committed; it executes
//! when every dependency has executed, in the leader's sequence order, at
//! the next execution position. Application itself happens through the
//! common materializer outside this library; the learner turns the
//! materializer's outcome into the evidence that establishes the result. A
//! leader reply, or any single response, can never establish anything here.

use vstd::prelude::*;

use crate::commands::{CommandTable, TableView};
use crate::effects::{EstablishmentEvidence, EstablishmentView};
use crate::graph::{ClosureProgress, CursorView, Walk};
use crate::ids::{Ballot, CommandId, ConfigurationEpoch, Digest32, ExecutionPosition, KvRevision};
use crate::ordered::{Key, OrdMap, OrdSet, Order, in_order, lemma_in_order, lemma_take_set};
use crate::phase::{GuardViolation, Phase, first_violation};
use crate::seal::{EstablishError, is_seal, is_sealed, sealing_of};
use crate::speculation::SpeculationMismatch;
use crate::vote::{Learned, LearnedView, VoteSet, VoteSetView, learned_view};

verus! {

/// Which learning predicates a replica applies: the slow path is the
/// reference, fast learning the measured optimization with the same evidence
/// structures.
#[derive(Clone, Copy, Debug, PartialEq, Eq, Structural)]
pub enum LearningMode {
    /// Fast and slow predicates.
    Full,
    /// The slow predicate only (forced slow path).
    SlowOnly,
}

/// What the common materializer reports after applying a command.
#[derive(Debug)]
pub struct AppliedOutcome {
    /// Execution position the application took.
    pub position: ExecutionPosition,
    /// KV revision produced, if any.
    pub revision: Option<KvRevision>,
    /// Digest of the exact result.
    pub result_digest: Digest32,
    /// The exact encoded result: what the leader needs to release a result
    /// that was never speculated.
    pub response: Vec<u8>,
}

/// What an outcome says.
#[verifier::ext_equal]
pub struct OutcomeView {
    /// Execution position the application took.
    pub position: ExecutionPosition,
    /// KV revision produced, if any.
    pub revision: Option<KvRevision>,
    /// Digest of the exact result.
    pub result_digest: Digest32,
    /// The exact encoded result.
    pub response: Seq<u8>,
}

impl View for AppliedOutcome {
    type V = OutcomeView;

    open spec fn view(&self) -> OutcomeView {
        OutcomeView {
            position: self.position,
            revision: self.revision,
            result_digest: self.result_digest,
            response: self.response@,
        }
    }
}

/// Why an application outcome could not be established.
#[derive(Clone, Copy, Debug, PartialEq, Eq)]
pub enum LearnError {
    /// The command is not committed.
    NotExecutable(CommandId),
    /// The materializer's position disagrees with the learner's order.
    PositionMismatch {
        /// Expected.
        expected: ExecutionPosition,
        /// Reported.
        got: ExecutionPosition,
    },
    /// A guard failed.
    Guard(GuardViolation),
    /// The execution position cannot advance.
    Overflow,
    /// The evidence of the result was not sealed.
    Establish(EstablishError),
    /// A speculatively released result disagrees with the materialized
    /// outcome: the replica must stop rather than serve two answers.
    Speculation(SpeculationMismatch),
}

/// The learner of one replica: the execution frontier, the learning mode and
/// which committed commands the fast predicate learned.
#[derive(Debug)]
pub struct Learner {
    executed_through: ExecutionPosition,
    mode: LearningMode,
    fast: OrdSet<CommandId>,
}

/// What a learner holds.
#[verifier::ext_equal]
pub struct LearnerView {
    /// Highest executed position.
    pub executed_through: ExecutionPosition,
    /// Learning mode.
    pub mode: LearningMode,
    /// Commands the fast predicate learned.
    pub fast: Set<CommandId>,
}

impl View for Learner {
    type V = LearnerView;

    closed spec fn view(&self) -> LearnerView {
        LearnerView {
            executed_through: self.executed_through,
            mode: self.mode,
            fast: self.fast@,
        }
    }
}

/// What a vote set teaches under a mode.
pub open spec fn learned_under(mode: LearningMode, votes: VoteSetView) -> Option<LearnedView> {
    match mode {
        LearningMode::Full => votes.learned(),
        LearningMode::SlowOnly => votes.learned_slow(),
    }
}

/// Commitment in progress.
#[verifier::ext_equal]
pub struct Learning {
    /// The table.
    pub table: TableView,
    /// Commands the fast predicate learned.
    pub fast: Set<CommandId>,
    /// Commands committed so far, in order.
    pub committed: Seq<CommandId>,
}

impl Learning {
    /// Accepted commands that have votes.
    pub open spec fn waiting(self, votes: Map<CommandId, VoteSetView>) -> Set<CommandId> {
        votes.dom().filter(|c: CommandId| self.table.phase_of(c) == Some(Phase::Accept))
    }

    /// Accepted commands the evidence teaches, in identity order.
    pub open spec fn candidates(
        self,
        mode: LearningMode,
        votes: Map<CommandId, VoteSetView>,
    ) -> Seq<CommandId> {
        in_order::<CommandId>(
            self.waiting(votes).filter(|c: CommandId| learned_under(mode, votes[c]) is Some),
        )
    }

    /// After `c` is committed, where its dependencies allow it.
    pub open spec fn one(
        self,
        mode: LearningMode,
        votes: Map<CommandId, VoteSetView>,
        c: CommandId,
    ) -> Self {
        if self.table.advance_violation(c, Phase::Commit) is Some {
            self
        } else {
            Learning {
                table: self.table.advanced(c, Phase::Commit),
                fast: if learned_under(mode, votes[c])->0 is Fast {
                    self.fast.insert(c)
                } else {
                    self.fast
                },
                committed: self.committed.push(c),
            }
        }
    }

    /// After each of `cs` in turn.
    pub open spec fn each(
        self,
        mode: LearningMode,
        votes: Map<CommandId, VoteSetView>,
        cs: Seq<CommandId>,
    ) -> Self
        decreases cs.len(),
    {
        if cs.len() == 0 {
            self
        } else {
            self.each(mode, votes, cs.drop_last()).one(mode, votes, cs.last())
        }
    }

    /// After one pass over the candidates.
    pub open spec fn round(self, mode: LearningMode, votes: Map<CommandId, VoteSetView>) -> Self {
        self.each(mode, votes, self.candidates(mode, votes))
    }

    /// After passes until one commits nothing.
    pub open spec fn settled(self, mode: LearningMode, votes: Map<CommandId, VoteSetView>) -> Self
        decreases self.waiting(votes).len(),
        when votes.dom().finite()
    {
        let next = self.round(mode, votes);
        if next.committed.len() == self.committed.len() {
            next
        } else {
            proof {
                lemma_round(self, mode, votes);
            }
            next.settled(mode, votes)
        }
    }
}

proof fn lemma_one(
    state: Learning,
    mode: LearningMode,
    votes: Map<CommandId, VoteSetView>,
    c: CommandId,
)
    requires
        state.table.phase_of(c) == Some(Phase::Accept),
    ensures
        forall|x: CommandId|
            x != c ==> #[trigger] state.one(mode, votes, c).table.phase_of(x)
                == state.table.phase_of(x),
        state.one(mode, votes, c).committed.len() > state.committed.len() ==> state.one(
            mode,
            votes,
            c,
        ).table.phase_of(c) == Some(Phase::Commit),
        state.one(mode, votes, c).committed.len() == state.committed.len() ==> state.one(
            mode,
            votes,
            c,
        ) == state,
        state.one(mode, votes, c).committed.len() >= state.committed.len(),
{
}

proof fn lemma_each(
    state: Learning,
    mode: LearningMode,
    votes: Map<CommandId, VoteSetView>,
    cs: Seq<CommandId>,
)
    requires
        cs.no_duplicates(),
        forall|i: int| 0 <= i < cs.len() ==> state.waiting(votes).contains(#[trigger] cs[i]),
    ensures
        ({
            let next = state.each(mode, votes, cs);
            &&& next.committed.len() >= state.committed.len()
            &&& next.committed.len() == state.committed.len() ==> next == state
            &&& forall|x: CommandId|
                !cs.contains(x) ==> #[trigger] next.table.phase_of(x) == state.table.phase_of(x)
            &&& forall|x: CommandId|
                #![trigger next.table.phase_of(x)]
                next.table.phase_of(x) == state.table.phase_of(x) || next.table.phase_of(x) == Some(
                    Phase::Commit,
                )
            &&& next.committed.len() > state.committed.len() ==> exists|x: CommandId|
                cs.contains(x) && #[trigger] next.table.phase_of(x) == Some(Phase::Commit)
        }),
    decreases cs.len(),
{
    if cs.len() > 0 {
        let before = cs.drop_last();
        let c = cs.last();
        assert forall|i: int, j: int| 0 <= i < before.len() && 0 <= j < before.len() && i
            != j implies before[i] != before[j] by {
            assert(before[i] == cs[i] && before[j] == cs[j]);
        }
        assert forall|i: int| 0 <= i < before.len() implies state.waiting(votes).contains(
            #[trigger] before[i],
        ) by {
            assert(before[i] == cs[i]);
        }
        lemma_each(state, mode, votes, before);
        let mid = state.each(mode, votes, before);
        assert(cs[cs.len() - 1] == c);
        assert(!before.contains(c)) by {
            if before.contains(c) {
                let i = choose|i: int| 0 <= i < before.len() && before[i] == c;
                assert(cs[i] == c);
            }
        }
        assert(mid.table.phase_of(c) == state.table.phase_of(c));
        assert(state.waiting(votes).contains(c));
        lemma_one(mid, mode, votes, c);
        let next = state.each(mode, votes, cs);
        assert forall|x: CommandId| !cs.contains(x) implies #[trigger] next.table.phase_of(x)
            == state.table.phase_of(x) by {
            assert(x != c);
            assert(!before.contains(x)) by {
                if before.contains(x) {
                    let i = choose|i: int| 0 <= i < before.len() && before[i] == x;
                    assert(cs[i] == x);
                }
            }
            assert(mid.table.phase_of(x) == state.table.phase_of(x));
        }
        assert forall|x: CommandId|
            #![trigger next.table.phase_of(x)]
            next.table.phase_of(x) == state.table.phase_of(x) || next.table.phase_of(x) == Some(
                Phase::Commit,
            ) by {
            assert(mid.table.phase_of(x) == state.table.phase_of(x) || mid.table.phase_of(x)
                == Some(Phase::Commit));
            if x != c {
                assert(next.table.phase_of(x) == mid.table.phase_of(x));
            }
        }
        if next.committed.len() > state.committed.len() {
            if next.committed.len() > mid.committed.len() {
                assert(cs.contains(c));
                assert(next.table.phase_of(c) == Some(Phase::Commit));
            } else {
                let x = choose|x: CommandId|
                    before.contains(x) && #[trigger] mid.table.phase_of(x) == Some(Phase::Commit);
                let i = choose|i: int| 0 <= i < before.len() && before[i] == x;
                assert(cs[i] == x);
                assert(cs.contains(x));
                assert(next.table.phase_of(x) == Some(Phase::Commit));
            }
        }
    }
}

/// A pass that commits anything leaves fewer commands waiting.
pub proof fn lemma_round(state: Learning, mode: LearningMode, votes: Map<CommandId, VoteSetView>)
    requires
        votes.dom().finite(),
    ensures
        ({
            let next = state.round(mode, votes);
            &&& state.waiting(votes).finite()
            &&& next.committed.len() >= state.committed.len()
            &&& next.committed.len() == state.committed.len() ==> next == state
            &&& next.committed.len() > state.committed.len() ==> next.waiting(votes).len()
                < state.waiting(votes).len()
        }),
{
    let open = state.waiting(votes);
    let ready = open.filter(|c: CommandId| learned_under(mode, votes[c]) is Some);
    let cs = state.candidates(mode, votes);
    lemma_in_order::<CommandId>(ready);
    assert forall|i: int| 0 <= i < cs.len() implies open.contains(#[trigger] cs[i]) by {
        assert(cs.contains(cs[i]));
        assert(ready.contains(cs[i]));
    }
    lemma_each(state, mode, votes, cs);
    let next = state.round(mode, votes);
    if next.committed.len() > state.committed.len() {
        let x = choose|x: CommandId|
            cs.contains(x) && #[trigger] next.table.phase_of(x) == Some(Phase::Commit);
        assert(ready.contains(x));
        assert forall|y: CommandId| next.waiting(votes).contains(y) implies open.contains(y)
            && y != x by {
            assert(next.table.phase_of(y) == state.table.phase_of(y));
        }
        assert(next.waiting(votes).subset_of(open.remove(x)));
        vstd::set_lib::lemma_len_subset(next.waiting(votes), open.remove(x));
    }
}

/// Commitment takes only an accepted command with evidence, and a command
/// keeps its phase otherwise.
pub proof fn lemma_commit_needs_evidence(
    state: Learning,
    mode: LearningMode,
    votes: Map<CommandId, VoteSetView>,
    c: CommandId,
)
    requires
        votes.dom().finite(),
        state.settled(mode, votes).table.phase_of(c) != state.table.phase_of(c),
    ensures
        state.table.phase_of(c) == Some(Phase::Accept),
        state.settled(mode, votes).table.phase_of(c) == Some(Phase::Commit),
        votes.contains_key(c),
        learned_under(mode, votes[c]) is Some,
    decreases state.waiting(votes).len(),
{
    lemma_round(state, mode, votes);
    let next = state.round(mode, votes);
    let open = state.waiting(votes);
    let ready = open.filter(|c: CommandId| learned_under(mode, votes[c]) is Some);
    let cs = state.candidates(mode, votes);
    lemma_in_order::<CommandId>(ready);
    assert forall|i: int| 0 <= i < cs.len() implies open.contains(#[trigger] cs[i]) by {
        assert(cs.contains(cs[i]));
        assert(ready.contains(cs[i]));
    }
    lemma_each(state, mode, votes, cs);
    if next.committed.len() != state.committed.len() {
        if next.settled(mode, votes).table.phase_of(c) != next.table.phase_of(c) {
            lemma_commit_needs_evidence(next, mode, votes, c);
            if next.table.phase_of(c) != state.table.phase_of(c) {
                assert(next.table.phase_of(c) == Some(Phase::Commit));
            }
        } else {
            assert(cs.contains(c));
            assert(ready.contains(c));
        }
    }
}

/// What a learning under way has committed since `start`: nothing twice, every
/// dependency first, and nothing else moved.
pub open spec fn in_turn(start: TableView, state: Learning) -> bool {
    &&& state.committed.no_duplicates()
    &&& state.table.records.dom() == start.records.dom()
    &&& forall|x: CommandId| #[trigger]
        start.records.contains_key(x) ==> state.table.records[x].deps == start.records[x].deps
    &&& forall|i: int|
        0 <= i < state.committed.len() ==> state.table.phase_of(#[trigger] state.committed[i])
            == Some(Phase::Commit)
    &&& forall|x: CommandId| #[trigger]
        state.table.phase_of(x) != start.phase_of(x) ==> state.committed.contains(x)
    &&& forall|i: int, k: int|
        #![trigger start.records[state.committed[i]].deps[k]]
        0 <= i < state.committed.len() && 0 <= k < start.records[state.committed[i]].deps.len()
            ==> first_committed(start, state, i, start.records[state.committed[i]].deps[k])
}

/// `dep` was committed at `start`, or before the `i`-th commitment.
pub open spec fn first_committed(start: TableView, state: Learning, i: int, dep: CommandId) -> bool {
    ||| start.phase_of(dep) is Some && start.phase_of(dep)->0.rank() >= Phase::Commit.rank()
    ||| exists|j: int| 0 <= j < i && #[trigger] state.committed[j] == dep
}

proof fn lemma_one_in_turn(
    start: TableView,
    state: Learning,
    mode: LearningMode,
    votes: Map<CommandId, VoteSetView>,
    c: CommandId,
)
    requires
        in_turn(start, state),
        state.table.phase_of(c) == Some(Phase::Accept),
    ensures
        in_turn(start, state.one(mode, votes, c)),
{
    let next = state.one(mode, votes, c);
    if state.table.advance_violation(c, Phase::Commit) is None {
        let n = state.committed.len() as int;
        crate::phase::lemma_guard_holds(
            state.table.records[c].deps,
            state.table.phases(),
            Phase::Commit,
        );
        assert(!state.committed.contains(c)) by {
            if state.committed.contains(c) {
                let i = choose|i: int| 0 <= i < n && state.committed[i] == c;
                assert(state.table.phase_of(state.committed[i]) == Some(Phase::Commit));
            }
        }
        assert(state.table.records.contains_key(c)) by {
            assert(!state.table.executed.contains(c) || state.table.records.contains_key(c));
        }
        assert(next.table.records.dom() =~= start.records.dom());
        assert forall|i: int| 0 <= i < next.committed.len() implies next.table.phase_of(
            #[trigger] next.committed[i],
        ) == Some(Phase::Commit) by {
            if i < n {
                assert(next.committed[i] == state.committed[i]);
                assert(state.table.phase_of(state.committed[i]) == Some(Phase::Commit));
            }
        }
        assert forall|x: CommandId| #[trigger]
            next.table.phase_of(x) != start.phase_of(x) implies next.committed.contains(x) by {
            if x == c {
                assert(next.committed[n] == c);
            } else {
                assert(next.table.phase_of(x) == state.table.phase_of(x));
                assert(state.committed.contains(x));
                let i = choose|i: int| 0 <= i < n && state.committed[i] == x;
                assert(next.committed[i] == x);
            }
        }
        assert forall|i: int, k: int|
            #![trigger start.records[next.committed[i]].deps[k]]
            0 <= i < next.committed.len() && 0 <= k
                < start.records[next.committed[i]].deps.len() implies first_committed(
            start,
            next,
            i,
            start.records[next.committed[i]].deps[k],
        ) by {
            let dep = start.records[next.committed[i]].deps[k];
            if i < n {
                assert(next.committed[i] == state.committed[i]);
                assert(first_committed(
                    start,
                    state,
                    i,
                    start.records[state.committed[i]].deps[k],
                ));
                if !(start.phase_of(dep) is Some && start.phase_of(dep)->0.rank()
                    >= Phase::Commit.rank()) {
                    let j = choose|j: int| 0 <= j < i && #[trigger] state.committed[j] == dep;
                    assert(next.committed[j] == dep);
                }
            } else {
                assert(start.records.contains_key(c));
                assert(state.table.records[c].deps[k] == dep);
                assert(state.table.phases()(dep) == state.table.phase_of(dep));
                if state.table.phase_of(dep) != start.phase_of(dep) {
                    assert(state.committed.contains(dep));
                    let j = choose|j: int| 0 <= j < n && state.committed[j] == dep;
                    assert(next.committed[j] == dep);
                }
            }
        }
    }
}

proof fn lemma_each_in_turn(
    start: TableView,
    state: Learning,
    mode: LearningMode,
    votes: Map<CommandId, VoteSetView>,
    cs: Seq<CommandId>,
)
    requires
        in_turn(start, state),
        cs.no_duplicates(),
        forall|i: int| 0 <= i < cs.len() ==> state.waiting(votes).contains(#[trigger] cs[i]),
    ensures
        in_turn(start, state.each(mode, votes, cs)),
    decreases cs.len(),
{
    if cs.len() > 0 {
        let before = cs.drop_last();
        let c = cs.last();
        assert forall|i: int| 0 <= i < before.len() implies state.waiting(votes).contains(
            #[trigger] before[i],
        ) by {
            assert(before[i] == cs[i]);
        }
        lemma_each_in_turn(start, state, mode, votes, before);
        lemma_each(state, mode, votes, before);
        let mid = state.each(mode, votes, before);
        assert(cs[cs.len() - 1] == c);
        assert(!before.contains(c)) by {
            if before.contains(c) {
                let i = choose|i: int| 0 <= i < before.len() && before[i] == c;
                assert(cs[i] == c);
            }
        }
        assert(mid.table.phase_of(c) == state.table.phase_of(c));
        assert(state.waiting(votes).contains(c));
        lemma_one_in_turn(start, mid, mode, votes, c);
    }
}

proof fn lemma_candidates(state: Learning, mode: LearningMode, votes: Map<CommandId, VoteSetView>)
    requires
        votes.dom().finite(),
    ensures
        state.candidates(mode, votes).no_duplicates(),
        forall|i: int|
            0 <= i < state.candidates(mode, votes).len() ==> state.waiting(votes).contains(
                #[trigger] state.candidates(mode, votes)[i],
            ),
{
    let open = state.waiting(votes);
    let ready = open.filter(|c: CommandId| learned_under(mode, votes[c]) is Some);
    let cs = state.candidates(mode, votes);
    lemma_in_order::<CommandId>(ready);
    assert forall|i: int| 0 <= i < cs.len() implies open.contains(#[trigger] cs[i]) by {
        assert(cs.contains(cs[i]));
        assert(ready.contains(cs[i]));
    }
}

proof fn lemma_settled_in_turn(
    start: TableView,
    state: Learning,
    mode: LearningMode,
    votes: Map<CommandId, VoteSetView>,
)
    requires
        votes.dom().finite(),
        in_turn(start, state),
    ensures
        in_turn(start, state.settled(mode, votes)),
        state.settled(mode, votes).round(mode, votes) == state.settled(mode, votes),
    decreases state.waiting(votes).len(),
{
    lemma_candidates(state, mode, votes);
    lemma_each_in_turn(start, state, mode, votes, state.candidates(mode, votes));
    lemma_round(state, mode, votes);
    let next = state.round(mode, votes);
    if next.committed.len() != state.committed.len() {
        lemma_settled_in_turn(start, next, mode, votes);
    }
}

proof fn lemma_each_alike(
    a: Learning,
    b: Learning,
    mode: LearningMode,
    votes: Map<CommandId, VoteSetView>,
    cs: Seq<CommandId>,
)
    requires
        a.table == b.table,
        a.fast == b.fast,
    ensures
        a.each(mode, votes, cs).table == b.each(mode, votes, cs).table,
        a.each(mode, votes, cs).fast == b.each(mode, votes, cs).fast,
        a.each(mode, votes, cs).committed.len() - a.committed.len() == b.each(
            mode,
            votes,
            cs,
        ).committed.len() - b.committed.len(),
    decreases cs.len(),
{
    if cs.len() > 0 {
        lemma_each_alike(a, b, mode, votes, cs.drop_last());
    }
}

/// Commitment goes in order and once: what one call commits it commits once,
/// each command after its dependencies, and a second call over the same votes
/// commits nothing.
pub proof fn lemma_commits_in_order(
    learner: LearnerView,
    table: TableView,
    votes: Map<CommandId, VoteSetView>,
)
    requires
        votes.dom().finite(),
    ensures
        ({
            let done = learner.learning(table).settled(learner.mode, votes);
            let after = LearnerView { fast: done.fast, ..learner };
            let again = after.learning(done.table).settled(learner.mode, votes);
            &&& in_turn(table, done)
            &&& again.committed.len() == 0
            &&& again.table == done.table
            &&& again.fast == done.fast
        }),
{
    let first = learner.learning(table);
    let mode = learner.mode;
    lemma_settled_in_turn(table, first, mode, votes);
    let done = first.settled(mode, votes);
    let after = LearnerView { fast: done.fast, ..learner };
    let fresh = after.learning(done.table);
    let cs = done.candidates(mode, votes);
    assert(fresh.waiting(votes) =~= done.waiting(votes));
    lemma_each_alike(done, fresh, mode, votes, cs);
    lemma_round(fresh, mode, votes);
}

/// Commands that may execute now.
pub open spec fn executable(table: TableView) -> Set<CommandId> {
    table.records.dom().filter(
        |c: CommandId|
            table.initialized(c) && table.records[c].phase == Phase::Commit && first_violation(
                table.records[c].deps,
                table.phases(),
                Phase::Executed,
            ) is None,
    )
}

/// The leader's sequence number of a command; one it did not number is last.
pub open spec fn turn(seqs: spec_fn(CommandId) -> Option<u64>, c: CommandId) -> u64 {
    match seqs(c) {
        Some(n) => n,
        None => u64::MAX,
    }
}

/// `a` executes before `b`.
pub open spec fn earlier(
    seqs: spec_fn(CommandId) -> Option<u64>,
    a: CommandId,
    b: CommandId,
) -> bool {
    turn(seqs, a) < turn(seqs, b) || turn(seqs, a) == turn(seqs, b) && CommandId::before(a, b)
}

/// `r` is the command to execute next.
pub open spec fn is_next(
    table: TableView,
    seqs: spec_fn(CommandId) -> Option<u64>,
    r: Option<CommandId>,
) -> bool {
    match r {
        None => executable(table) == Set::<CommandId>::empty(),
        Some(c) => executable(table).contains(c) && forall|x: CommandId| #[trigger]
            executable(table).contains(x) && x != c ==> earlier(seqs, c, x),
    }
}

/// `f` answers for every command.
pub open spec fn numbers_all<F: Fn(CommandId) -> Option<u64>>(f: F) -> bool {
    forall|c: CommandId| #[trigger] call_requires(f, (c,))
}

/// `f` answers as `seqs` does.
pub open spec fn numbers<F: Fn(CommandId) -> Option<u64>>(
    f: F,
    seqs: spec_fn(CommandId) -> Option<u64>,
) -> bool {
    forall|c: CommandId, n: Option<u64>| #[trigger] call_ensures(f, (c,), n) ==> n == seqs(c)
}

/// Every transitive predecessor of a command, in identity order.
pub open spec fn predecessors(table: TableView, c: CommandId) -> Seq<CommandId> {
    match CursorView::starting(c, table.records[c].deps).walk(
        usize::MAX as nat,
        table.dependencies(),
    ) {
        Walk::Complete(closure) => in_order::<CommandId>(closure.members),
        _ => Seq::empty(),
    }
}

impl LearnerView {
    /// The next position.
    pub open spec fn next_position(self) -> ExecutionPosition {
        ExecutionPosition((self.executed_through.0 + 1) as u64)
    }

    /// Why an outcome cannot be established.
    pub open spec fn refusal(
        self,
        table: TableView,
        c: CommandId,
        position: ExecutionPosition,
    ) -> Option<LearnError> {
        if !table.records.contains_key(c) || table.records[c].phase != Phase::Commit {
            Some(LearnError::NotExecutable(c))
        } else {
            match first_violation(table.records[c].deps, table.phases(), Phase::Executed) {
                Some(v) => Some(LearnError::Guard(v)),
                None => if self.executed_through.0 == u64::MAX {
                    Some(LearnError::Overflow)
                } else if position != self.next_position() {
                    Some(
                        LearnError::PositionMismatch {
                            expected: self.next_position(),
                            got: position,
                        },
                    )
                } else if !table.initialized(c) {
                    Some(LearnError::Guard(GuardViolation::DependencyUnknown { dep: c }))
                } else {
                    match CursorView::starting(c, table.records[c].deps).walk(
                        usize::MAX as nat,
                        table.dependencies(),
                    ) {
                        Walk::Missing(dep) => Some(
                            LearnError::Guard(GuardViolation::DependencyUnknown { dep }),
                        ),
                        _ => None,
                    }
                },
            }
        }
    }

    /// The learner once `c` executed at the next position.
    pub open spec fn executed(self, c: CommandId) -> Self {
        LearnerView {
            executed_through: self.next_position(),
            fast: self.fast.remove(c),
            ..self
        }
    }

    /// What establishes the result of `c`.
    pub open spec fn evidence(
        self,
        table: TableView,
        c: CommandId,
        epoch: ConfigurationEpoch,
        ballot: Ballot,
        outcome: OutcomeView,
    ) -> EstablishmentView {
        EstablishmentView {
            command: c,
            epoch,
            ballot,
            position: self.next_position(),
            closed_predecessors: predecessors(table, c),
            result_digest: outcome.result_digest,
            revision: outcome.revision,
            fast_path: self.fast.contains(c),
        }
    }

    /// Commitment from this learner's state.
    pub open spec fn learning(self, table: TableView) -> Learning {
        Learning { table, fast: self.fast, committed: Seq::empty() }
    }
}

/// A command is established only when it is committed, every dependency has
/// executed, and its position is the next one; it is executed from there on.
pub proof fn lemma_execution_in_order(
    learner: LearnerView,
    table: TableView,
    c: CommandId,
    position: ExecutionPosition,
)
    requires
        learner.refusal(table, c, position) is None,
    ensures
        table.phase_of(c) == Some(Phase::Commit),
        forall|i: int|
            0 <= i < table.records[c].deps.len() ==> table.phase_of(
                #[trigger] table.records[c].deps[i],
            ) == Some(Phase::Executed),
        position.0 == learner.executed_through.0 + 1,
        learner.executed(c).executed_through == position,
        table.advanced(c, Phase::Executed).phase_of(c) == Some(Phase::Executed),
{
    crate::phase::lemma_guard_holds(table.records[c].deps, table.phases(), Phase::Executed);
    assert forall|i: int| 0 <= i < table.records[c].deps.len() implies table.phase_of(
        #[trigger] table.records[c].deps[i],
    ) == Some(Phase::Executed) by {
        assert((table.phases())(table.records[c].deps[i]) is Some);
    }
}

fn learned_by(mode: LearningMode, votes: &VoteSet) -> (r: Option<Learned>)
    ensures
        learned_view(r) == learned_under(mode, votes@),
{
    match mode {
        LearningMode::Full => votes.learned(),
        LearningMode::SlowOnly => votes.learned_slow(),
    }
}

fn find_candidates(
    mode: LearningMode,
    table: &CommandTable,
    votes: &OrdMap<CommandId, VoteSet>,
    Ghost(state): Ghost<Learning>,
) -> (r: Vec<CommandId>)
    requires
        state.table == table@,
    ensures
        r@ == state.candidates(mode, votes@),
        forall|i: int|
            0 <= i < r@.len() ==> votes@.contains_key(#[trigger] r@[i]) && learned_under(
                mode,
                votes@[r@[i]],
            ) is Some,
{
    let n: usize = votes.len();
    let ghost order = in_order::<CommandId>(votes@.dom());
    let ghost goal = state.waiting(votes@).filter(
        |c: CommandId| learned_under(mode, votes@[c]) is Some,
    );
    proof {
        lemma_in_order::<CommandId>(votes@.dom());
    }
    let mut out: OrdSet<CommandId> = OrdSet::new();
    let mut i: usize = 0;
    proof {
        assert(out@ =~= goal.intersect(order.take(0).to_set()));
    }
    while i < n
        invariant
            i <= n == votes@.dom().len(),
            state.table == table@,
            order == in_order::<CommandId>(votes@.dom()),
            order.len() == n,
            goal == state.waiting(votes@).filter(
                |c: CommandId| learned_under(mode, votes@[c]) is Some,
            ),
            out@ == goal.intersect(order.take(i as int).to_set()),
        decreases n - i,
    {
        let c = *votes.key_at(i);
        let accepted = match table.phase_of(&c) {
            Some(p) => p == Phase::Accept,
            None => false,
        };
        if accepted && learned_by(mode, votes.value_at(i)).is_some() {
            out.insert(c);
        }
        proof {
            lemma_take_set(order, i as int);
            assert(out@ =~= goal.intersect(order.take(i + 1).to_set()));
        }
        i = i + 1;
    }
    proof {
        assert(order.take(n as int) =~= order);
        assert(out@ =~= goal) by {
            assert forall|c: CommandId| goal.contains(c) implies order.to_set().contains(c) by {
                assert(order.contains(c));
            }
        }
    }
    let r = out.to_vec();
    proof {
        crate::lists::lemma_id_views(r@);
        assert forall|i: int| 0 <= i < r@.len() implies votes@.contains_key(#[trigger] r@[i])
            && learned_under(mode, votes@[r@[i]]) is Some by {
            assert(out@.contains(r@[i]@));
        }
    }
    r
}

impl Learner {
    /// A learner whose durable execution frontier is `executed_through`,
    /// with full learning.
    pub fn new(executed_through: ExecutionPosition) -> (r: Self)
        ensures
            r@ == (LearnerView {
                executed_through,
                mode: LearningMode::Full,
                fast: Set::empty(),
            }),
    {
        Self::with_mode(executed_through, LearningMode::Full)
    }

    /// A learner with an explicit learning mode.
    pub fn with_mode(executed_through: ExecutionPosition, mode: LearningMode) -> (r: Self)
        ensures
            r@ == (LearnerView { executed_through, mode, fast: Set::empty() }),
    {
        Learner { executed_through, mode, fast: OrdSet::new() }
    }

    /// The learning mode.
    pub fn mode(&self) -> (r: LearningMode)
        ensures
            r == self@.mode,
    {
        self.mode
    }

    /// Change the learning mode (a forced slow path for comparison runs).
    pub fn set_mode(&mut self, mode: LearningMode)
        ensures
            final(self)@ == (LearnerView { mode, ..old(self)@ }),
    {
        self.mode = mode;
    }

    /// Highest executed position.
    pub fn executed_through(&self) -> (r: ExecutionPosition)
        ensures
            r == self@.executed_through,
    {
        self.executed_through
    }

    /// Commit every accepted command whose learning predicate holds and
    /// whose dependencies are committed; repeat while progress is made.
    /// Returns the commands committed. Fast and slow learning yield the same
    /// dependencies (the leader's); only the evidence differs.
    #[verifier::rlimit(40)]
    pub fn commit_learned(
        &mut self,
        table: &mut CommandTable,
        votes: &OrdMap<CommandId, VoteSet>,
    ) -> (r: Vec<CommandId>)
        ensures
            votes@.dom().finite(),
            ({
                let done = old(self)@.learning(old(table)@).settled(old(self)@.mode, votes@);
                &&& final(table)@ == done.table
                &&& final(self)@ == (LearnerView { fast: done.fast, ..old(self)@ })
                &&& r@ == done.committed
            }),
    {
        let mut committed: Vec<CommandId> = Vec::new();
        let voted: usize = votes.len();
        let mode = self.mode;
        let ghost start = self@.learning(table@);
        let ghost mut state = start;
        loop
            invariant
                votes@.dom().finite(),
                mode == self@.mode,
                self@ == (LearnerView { fast: state.fast, ..old(self)@ }),
                mode == old(self)@.mode,
                table@ == state.table,
                committed@ == state.committed,
                start == old(self)@.learning(old(table)@),
                state.settled(mode, votes@) == start.settled(mode, votes@),
            decreases state.waiting(votes@).len(),
        {
            let candidates = find_candidates(mode, table, votes, Ghost(state));
            let ghost cs = candidates@;
            let ghost before = state;
            let mut progressed = false;
            let mut i: usize = 0;
            while i < candidates.len()
                invariant
                    i <= candidates@.len(),
                    cs == candidates@,
                    mode == self@.mode,
                    forall|j: int|
                        0 <= j < cs.len() ==> votes@.contains_key(#[trigger] cs[j])
                            && learned_under(mode, votes@[cs[j]]) is Some,
                    state == before.each(mode, votes@, cs.take(i as int)),
                    self@ == (LearnerView { fast: state.fast, ..old(self)@ }),
                    table@ == state.table,
                    committed@ == state.committed,
                    state.committed.len() >= before.committed.len(),
                    progressed == (state.committed.len() > before.committed.len()),
                decreases candidates@.len() - i,
            {
                let c = candidates[i];
                proof {
                    assert(cs.take(i + 1).drop_last() =~= cs.take(i as int));
                    assert(votes@.contains_key(cs[i as int]));
                }
                let fast = match votes.get(&c) {
                    Some(set) => match learned_by(mode, set) {
                        Some(l) => l.is_fast(),
                        None => false,
                    },
                    None => false,
                };
                if table.commit(c).is_ok() {
                    if fast {
                        self.fast.insert(c);
                    }
                    committed.push(c);
                    progressed = true;
                }
                proof {
                    state = before.each(mode, votes@, cs.take(i + 1));
                }
                i = i + 1;
            }
            proof {
                assert(cs.take(cs.len() as int) =~= cs);
                assert(state == before.round(mode, votes@));
                lemma_round(before, mode, votes@);
            }
            if !progressed {
                return committed;
            }
        }
    }

    /// Whether `command` was committed by the fast predicate here.
    pub fn learned_fast(&self, command: &CommandId) -> (r: bool)
        ensures
            r == self@.fast.contains(*command),
    {
        self.fast.contains(command)
    }

    /// The next command to execute: committed, every dependency executed,
    /// lowest leader sequence number (then identity).
    #[verifier::rlimit(40)]
    pub fn next_executable<F: Fn(CommandId) -> Option<u64>>(
        &self,
        table: &CommandTable,
        seqnum_of: &F,
    ) -> (r: Option<CommandId>)
        requires
            numbers_all(*seqnum_of),
        ensures
            forall|seqs: spec_fn(CommandId) -> Option<u64>| #[trigger]
                numbers(*seqnum_of, seqs) ==> is_next(table@, seqs, r),
    {
        let known = table.records();
        let ghost all = known@;
        let ghost goal = executable(table@);
        proof {
            assert(all == in_order::<CommandId>(
                table@.records.dom().filter(|c: CommandId| table@.initialized(c)),
            ));
        }
        let ghost held = table@.records.dom().filter(|c: CommandId| table@.initialized(c));
        let table_len: usize = table.len();
        proof {
            lemma_in_order::<CommandId>(held);
            assert forall|j: int| 0 <= j < all.len() implies table@.initialized(
                #[trigger] all[j],
            ) by {
                assert(all.contains(all[j]));
                assert(held.contains(all[j]));
            }
        }
        let mut best: Option<(u64, CommandId)> = None;
        let mut i: usize = 0;
        proof {
            assert(goal.intersect(all.take(0).to_set()) =~= Set::<CommandId>::empty());
        }
        while i < known.len()
            invariant
                i <= known@.len(),
                all == known@,
                goal == executable(table@),
                numbers_all(*seqnum_of),
                forall|j: int| 0 <= j < all.len() ==> table@.initialized(#[trigger] all[j]),
                forall|seqs: spec_fn(CommandId) -> Option<u64>| #[trigger]
                    numbers(*seqnum_of, seqs) ==> match best {
                        None => goal.intersect(all.take(i as int).to_set()) == Set::<
                            CommandId,
                        >::empty(),
                        Some((n, c)) => n == turn(seqs, c) && goal.contains(c) && all.take(
                            i as int,
                        ).to_set().contains(c) && forall|x: CommandId| #[trigger]
                            goal.contains(x) && all.take(i as int).to_set().contains(x) && x != c
                                ==> earlier(seqs, c, x),
                    },
            decreases known@.len() - i,
        {
            let c = known[i];
            let ghost was = best;
            proof {
                lemma_take_set(all, i as int);
                assert(table@.initialized(all[i as int]));
            }
            let ready = match table.record(&c) {
                Some(r) => r.phase == Phase::Commit && table.check_execute(&r.deps).is_ok(),
                None => false,
            };
            proof {
                assert(ready == goal.contains(c));
            }
            if ready {
                let n: u64 = match seqnum_of(c) {
                    Some(n) => n,
                    None => u64::MAX,
                };
                let better = match best {
                    None => true,
                    Some((m, b)) => n < m || n == m && is_lower(&c, &b),
                };
                if better {
                    best = Some((n, c));
                }
                proof {
                    assert forall|seqs: spec_fn(CommandId) -> Option<u64>| #[trigger]
                        numbers(*seqnum_of, seqs) implies match best {
                        None => goal.intersect(all.take(i + 1).to_set()) == Set::<
                            CommandId,
                        >::empty(),
                        Some((n, c)) => n == turn(seqs, c) && goal.contains(c) && all.take(
                            i + 1,
                        ).to_set().contains(c) && forall|x: CommandId| #[trigger]
                            goal.contains(x) && all.take(i + 1).to_set().contains(x) && x != c
                                ==> earlier(seqs, c, x),
                    } by {
                        match was {
                            None => {
                                assert forall|x: CommandId| #[trigger] goal.contains(x) && all.take(
                                    i + 1,
                                ).to_set().contains(x) && x != c implies earlier(seqs, c, x) by {
                                    assert(goal.intersect(all.take(i as int).to_set()).contains(x));
                                }
                            },
                            Some((m, b)) => {
                                CommandId::total(c, b);
                                if better {
                                    assert forall|x: CommandId| #[trigger] goal.contains(x)
                                        && all.take(i + 1).to_set().contains(x) && x
                                        != c implies earlier(seqs, c, x) by {
                                        if x != b && CommandId::before(c, b) && CommandId::before(
                                            b,
                                            x,
                                        ) {
                                            CommandId::transitive(c, b, x);
                                        }
                                    }
                                }
                            },
                        }
                    }
                }
            } else {
                proof {
                    assert(goal.intersect(all.take(i + 1).to_set()) =~= goal.intersect(
                        all.take(i as int).to_set(),
                    ));
                }
            }
            i = i + 1;
        }
        proof {
            assert(all.take(all.len() as int) =~= all);
            assert forall|x: CommandId| #[trigger] goal.contains(x) implies all.to_set().contains(
                x,
            ) by {
                assert(held.contains(x));
                assert(all.contains(x));
            }
            assert(goal.intersect(all.to_set()) =~= goal);
        }
        match best {
            Some((_, c)) => Some(c),
            None => None,
        }
    }

    /// Seal the materializer's outcome for `command` into the evidence that
    /// establishes its result, marking the command executed at the next
    /// position. Evidence that is not sealed establishes nothing; the command
    /// has executed all the same.
    pub fn established<S: Fn(EstablishmentEvidence) -> bool>(
        &mut self,
        seal: &S,
        table: &mut CommandTable,
        command: CommandId,
        epoch: ConfigurationEpoch,
        ballot: Ballot,
        outcome: &AppliedOutcome,
    ) -> (r: Result<EstablishmentEvidence, LearnError>)
        requires
            is_seal(*seal),
        ensures
            match old(self)@.refusal(old(table)@, command, outcome.position) {
                Some(e) => r == Err::<EstablishmentEvidence, LearnError>(e) && final(self)@ == old(
                    self,
                )@ && final(table)@ == old(table)@,
                None => {
                    let evidence = old(self)@.evidence(
                        old(table)@,
                        command,
                        epoch,
                        ballot,
                        outcome@,
                    );
                    &&& if sealing_of(*seal)(evidence) {
                        r is Ok && r->Ok_0@ == evidence
                    } else {
                        r == Err::<EstablishmentEvidence, LearnError>(
                            LearnError::Establish(EstablishError),
                        )
                    }
                    &&& final(self)@ == old(self)@.executed(command)
                    &&& final(table)@ == old(table)@.advanced(command, Phase::Executed)
                },
            },
    {
        match table.record(&command) {
            None => {
                return Err(LearnError::NotExecutable(command));
            },
            Some(record) => {
                if record.phase != Phase::Commit {
                    return Err(LearnError::NotExecutable(command));
                }
                match table.check_execute(&record.deps) {
                    Err(v) => {
                        return Err(LearnError::Guard(v));
                    },
                    Ok(()) => {},
                }
            },
        }
        if self.executed_through.0 == u64::MAX {
            return Err(LearnError::Overflow);
        }
        let expected = ExecutionPosition(self.executed_through.0 + 1);
        if outcome.position != expected {
            return Err(LearnError::PositionMismatch { expected, got: outcome.position });
        }
        let cursor = match table.closure_start(command) {
            Ok(c) => c,
            Err(v) => {
                return Err(LearnError::Guard(v));
            },
        };
        let closed_predecessors = match table.closure_step(cursor, usize::MAX) {
            Err(v) => {
                return Err(LearnError::Guard(v));
            },
            Ok(ClosureProgress::Complete(closure)) => {
                let list = closure.members.to_vec();
                proof {
                    crate::lists::lemma_id_views(list@);
                }
                list
            },
            Ok(ClosureProgress::Continue(_)) => Vec::new(),
        };
        match table.execute(command) {
            Err(v) => {
                return Err(LearnError::Guard(v));
            },
            Ok(()) => {},
        }
        self.executed_through = expected;
        let fast_path = self.fast.remove(&command);
        let evidence = EstablishmentEvidence {
            command,
            epoch,
            ballot,
            position: expected,
            closed_predecessors,
            result_digest: outcome.result_digest,
            revision: outcome.revision,
            fast_path,
        };
        proof {
            assert(evidence@ =~= old(self)@.evidence(old(table)@, command, epoch, ballot, outcome@));
        }
        if !is_sealed(seal, &evidence) {
            return Err(LearnError::Establish(EstablishError));
        }
        Ok(evidence)
    }
}

/// Whether `a` has the lower identity.
fn is_lower(a: &CommandId, b: &CommandId) -> (r: bool)
    ensures
        r == CommandId::before(*a, *b),
{
    match a.order(b) {
        Order::Before => true,
        _ => false,
    }
}

} // verus!
