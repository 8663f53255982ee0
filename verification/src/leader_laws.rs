//! What a leader's turns come to: what a proposal says and to whom, the one
//! order a recovered ballot is proposed again in, and whom a payload is served.

use vstd::prelude::*;

use crate::commands::{RecordView, TableView};
use crate::effects::{BatchView, EffectView, StorageError, StorageEvent};
use crate::handoff::Transition;
use crate::hash::HashDomain;
use crate::ids::{Ballot, BarrierId, CommandId, Digest32, LocalJournalSeq, PeerId, ReplicaId};
use crate::leader::{
    FenceReason, LeaderView, MAX_PROPOSAL_ATTEMPTS, ProposalView, dependency_order, follows,
    lemma_placing, payloads_served, placing, proposal_under,
};
use crate::learner::OutcomeView;
use crate::machine::{
    OperationKind, RequestView, conservative_keys, lemma_broadcasts_reach_every_other_voter, reached,
};
use crate::messages::{MessageView, frame_of, message_in};
use crate::ordered::{Key, in_order, lemma_in_order};
use crate::phase::Phase;
use crate::quorum::ConfigView;
use crate::recovery::{SyncEntryView, SyncView};
use crate::role::{BootView, RecoveredView};
use crate::rows::{ProposalRecordView, dependency_row, proposal_row};
use crate::seal::Sealing;
use crate::table_laws::{
    all_reached, last_of_some, lemma_adoption_takes_the_given_order,
    lemma_new_commands_follow_the_last_ones, lemma_orders_are_not_adopted_early, untouched_but,
};
use crate::vote::VoteView;

verus! {

/// Commands of a list that this table knows.
pub open spec fn known_among(table: TableView, commands: Seq<CommandId>) -> Seq<CommandId> {
    commands.filter(|c: CommandId| table.phase_of(c) is Some)
}

proof fn lemma_known_step(table: TableView, commands: Seq<CommandId>)
    requires
        commands.len() > 0,
        commands.no_duplicates(),
    ensures
        known_among(table, commands) == (if table.phase_of(commands.last()) is Some {
            known_among(table, commands.drop_last()).push(commands.last())
        } else {
            known_among(table, commands.drop_last())
        }),
        !known_among(table, commands.drop_last()).contains(commands.last()),
        commands.drop_last().no_duplicates(),
{
    reveal(Seq::filter);
    let rest = commands.drop_last();
    lemma_known(table, rest);
    if known_among(table, rest).contains(commands.last()) {
        assert(rest.contains(commands.last()));
        let i = choose|i: int| 0 <= i < rest.len() && rest[i] == commands.last();
        assert(commands[i] == commands[commands.len() - 1]);
    }
}

proof fn lemma_known(table: TableView, commands: Seq<CommandId>)
    ensures
        forall|c: CommandId| #[trigger]
            known_among(table, commands).contains(c) <==> commands.contains(c) && table.phase_of(c)
                is Some,
    decreases commands.len(),
{
    reveal(Seq::filter);
    let all = known_among(table, commands);
    if commands.len() > 0 {
        let rest = commands.drop_last();
        lemma_known(table, rest);
        let before = known_among(table, rest);
        assert forall|c: CommandId| #[trigger] all.contains(c) <==> commands.contains(c)
            && table.phase_of(c) is Some by {
            assert(before.contains(c) <==> rest.contains(c) && table.phase_of(c) is Some);
            if all.contains(c) {
                let i = choose|i: int| 0 <= i < all.len() && all[i] == c;
                if i < before.len() {
                    assert(before[i] == c);
                    assert(before.contains(c));
                    let k = choose|k: int| 0 <= k < rest.len() && rest[k] == c;
                    assert(commands[k] == c);
                } else {
                    assert(commands[commands.len() - 1] == c);
                }
            }
            if commands.contains(c) && table.phase_of(c) is Some {
                let i = choose|i: int| 0 <= i < commands.len() && commands[i] == c;
                if i < rest.len() {
                    assert(rest[i] == c);
                    assert(before.contains(c));
                    let k = choose|k: int| 0 <= k < before.len() && before[k] == c;
                    assert(all[k] == c);
                } else {
                    assert(all[all.len() - 1] == c);
                }
            }
        }
    }
}

/// What proposing one known command again does to a leader.
proof fn lemma_reproposed<H: Fn(HashDomain, Vec<Vec<u8>>) -> Digest32>(
    state: LeaderView,
    hash: H,
    c: CommandId,
    deps: Seq<CommandId>,
)
    requires
        state.boot is Some,
        state.seqnum < u64::MAX,
    ensures
        ({
            let next = state.reproposed(hash, c, deps).0;
            let made = state.table.phase_of(c) is Some && (reached(
                state.table.phase_of(c),
                Phase::Commit,
            ) || all_reached(state.table, deps, Phase::Accept));
            &&& !made ==> next == state
            &&& made ==> {
                &&& next.proposals.contains_key(c)
                &&& next.proposals[c].deps == deps
                &&& next.proposals[c].seqnum == state.seqnum
                &&& next.seqnum == state.seqnum + 1
                &&& reached(next.table.phase_of(c), Phase::Accept)
            }
            &&& next.boot is Some
            &&& next.seqnum <= state.seqnum + 1
            &&& forall|x: CommandId|
                #![trigger next.proposals.contains_key(x)]
                #![trigger next.proposals[x]]
                x != c ==> (next.proposals.contains_key(x) <==> state.proposals.contains_key(x))
                    && next.proposals[x] == state.proposals[x]
            &&& forall|x: CommandId|
                #![trigger next.table.phase_of(x)]
                (x != c ==> next.table.phase_of(x) == state.table.phase_of(x)) && (
                next.table.phase_of(x) is Some <==> state.table.phase_of(x) is Some) && (reached(
                    state.table.phase_of(x),
                    Phase::Accept,
                ) ==> reached(next.table.phase_of(x), Phase::Accept))
        }),
{
    let next = state.reproposed(hash, c, deps).0;
    lemma_orders_are_not_adopted_early(state.table, c, deps);
    if state.table.phase_of(c) is Some && !reached(state.table.phase_of(c), Phase::Commit) {
        if all_reached(state.table, deps, Phase::Accept) {
            lemma_adoption_takes_the_given_order(state.table, c, deps, Seq::empty(), arbitrary());
            assert forall|x: CommandId| #[trigger] next.table.phase_of(x)
                == state.table.accepted(c, deps).phase_of(x) by {}
        }
    }
}

/// How a list of commands was proposed again behind `tail`: once one of them is
/// proposed all later ones are, each right after the one before it, and the
/// first after the tail.
pub open spec fn chained(
    proposals: Map<CommandId, ProposalView>,
    commands: Seq<CommandId>,
    tail: Option<CommandId>,
) -> bool {
    &&& forall|i: int, j: int|
        #![trigger commands[i], commands[j]]
        0 <= i < j < commands.len() && proposals.contains_key(commands[i])
            ==> proposals.contains_key(commands[j]) && proposals[commands[j]].seqnum
            - proposals[commands[i]].seqnum == j - i
    &&& forall|i: int|
        1 <= i < commands.len() && proposals.contains_key(#[trigger] commands[i])
            ==> proposals[commands[i]].deps == seq![commands[i - 1]]
    &&& commands.len() > 0 && proposals.contains_key(commands[0]) ==> (match tail {
        Some(t) => proposals[commands[0]].deps == seq![t],
        None => proposals[commands[0]].deps.len() == 0,
    })
}

#[verifier::rlimit(40)]
proof fn lemma_chain<H: Fn(HashDomain, Vec<Vec<u8>>) -> Digest32>(
    start: LeaderView,
    hash: H,
    commands: Seq<CommandId>,
    last: Option<CommandId>,
)
    requires
        start.boot is Some,
        commands.no_duplicates(),
        start.seqnum + commands.len() <= u64::MAX,
        forall|i: int|
            0 <= i < commands.len() ==> !start.proposals.contains_key(#[trigger] commands[i]),
    ensures
        ({
            let ((state, _), tail) = start.reproposed_chain(hash, commands, last);
            let known = known_among(start.table, commands);
            &&& tail == (if known.len() == 0 {
                last
            } else {
                Some(known.last())
            })
            &&& state.boot is Some
            &&& state.seqnum <= start.seqnum + commands.len()
            &&& forall|x: CommandId| #[trigger]
                state.table.phase_of(x) is Some <==> start.table.phase_of(x) is Some
            &&& forall|x: CommandId|
                reached(start.table.phase_of(x), Phase::Accept) ==> reached(
                    #[trigger] state.table.phase_of(x),
                    Phase::Accept,
                )
            &&& forall|x: CommandId|
                #![trigger state.proposals.contains_key(x)]
                #![trigger state.proposals[x]]
                !commands.contains(x) ==> (state.proposals.contains_key(x)
                    <==> start.proposals.contains_key(x)) && state.proposals[x]
                    == start.proposals[x]
            &&& forall|x: CommandId|
                commands.contains(x) && #[trigger] state.proposals.contains_key(x)
                    ==> known.contains(x)
            &&& known.len() > 0 && state.proposals.contains_key(known.last()) ==> reached(
                state.table.phase_of(known.last()),
                Phase::Accept,
            ) && state.seqnum == state.proposals[known.last()].seqnum + 1
            &&& chained(state.proposals, known, last)
            &&& known.len() > 0 && (last matches Some(t) ==> reached(
                start.table.phase_of(t),
                Phase::Accept,
            )) ==> state.proposals.contains_key(known[0])
        }),
    decreases commands.len(),
{
    let known = known_among(start.table, commands);
    if commands.len() == 0 {
        reveal(Seq::filter);
        assert(known =~= Seq::<CommandId>::empty());
    } else {
        let rest = commands.drop_last();
        let c = commands.last();
        lemma_known_step(start.table, commands);
        assert forall|i: int| 0 <= i < rest.len() implies !start.proposals.contains_key(
            #[trigger] rest[i],
        ) by {
            assert(rest[i] == commands[i]);
        }
        lemma_chain(start, hash, rest, last);
        let ((before, said), tail) = start.reproposed_chain(hash, rest, last);
        let earlier = known_among(start.table, rest);
        let ((state, _), _) = start.reproposed_chain(hash, commands, last);
        assert forall|x: CommandId| #[trigger] commands.contains(x) <==> rest.contains(x) || x
            == c by {
            if commands.contains(x) {
                let i = choose|i: int| 0 <= i < commands.len() && commands[i] == x;
                if i < rest.len() {
                    assert(rest[i] == x);
                }
            }
            if rest.contains(x) {
                let i = choose|i: int| 0 <= i < rest.len() && rest[i] == x;
                assert(commands[i] == x);
            }
            assert(commands[commands.len() - 1] == c);
        }
        assert(!rest.contains(c)) by {
            if rest.contains(c) {
                let i = choose|i: int| 0 <= i < rest.len() && rest[i] == c;
                assert(commands[i] == commands[commands.len() - 1]);
            }
        }
        assert(!start.proposals.contains_key(commands[commands.len() - 1]));
        assert(!before.proposals.contains_key(c));
        lemma_known(start.table, commands);
        lemma_known(start.table, rest);
        if before.table.phase_of(c) is Some {
            let deps = LeaderView::after_tail(tail);
            lemma_reproposed(before, hash, c, deps);
            assert(known == earlier.push(c));
            assert(known.last() == c);
            assert forall|i: int| 0 <= i < earlier.len() implies #[trigger] known[i] == earlier[i]
                && known[i] != c by {
                assert(earlier.contains(earlier[i]));
            }
            if earlier.len() > 0 {
                assert(deps == seq![earlier.last()]);
                assert(earlier[earlier.len() - 1] == earlier.last());
                assert(known[known.len() - 2] == earlier.last());
                if before.proposals.contains_key(earlier.last()) {
                    assert forall|i: int| 0 <= i < deps.len() implies before.table.phase_of(
                        #[trigger] deps[i],
                    ) is Some && before.table.phase_of(deps[i])->0.rank()
                        >= Phase::Accept.rank() by {}
                    assert(all_reached(before.table, deps, Phase::Accept));
                }
            } else if last is None {
                assert(all_reached(before.table, deps, Phase::Accept));
            } else if reached(start.table.phase_of(last->0), Phase::Accept) {
                assert(reached(before.table.phase_of(last->0), Phase::Accept));
                assert(all_reached(before.table, deps, Phase::Accept));
            }
            assert forall|i: int, j: int|
                #![trigger known[i], known[j]]
                0 <= i < j < known.len() && state.proposals.contains_key(
                    known[i],
                ) implies state.proposals.contains_key(known[j])
                && state.proposals[known[j]].seqnum - state.proposals[known[i]].seqnum == j - i by {
                assert(known[i] == earlier[i]);
                assert(before.proposals.contains_key(earlier[i]));
                if j < earlier.len() {
                    assert(known[j] == earlier[j]);
                } else if i < earlier.len() - 1 {
                    assert(earlier[earlier.len() - 1] == earlier.last());
                    assert(before.proposals.contains_key(earlier[earlier.len() - 1]));
                }
            }
            assert forall|i: int|
                1 <= i < known.len() && state.proposals.contains_key(
                    #[trigger] known[i],
                ) implies state.proposals[known[i]].deps == seq![known[i - 1]] by {
                if i < earlier.len() {
                    assert(known[i] == earlier[i]);
                    assert(known[i - 1] == earlier[i - 1]);
                    assert(before.proposals.contains_key(earlier[i]));
                } else {
                    assert(known[i - 1] == earlier.last());
                }
            }
        } else {
            assert(known == earlier);
        }
    }
}

/// The entries a recovered ballot adopts, in the order they are proposed again.
pub open spec fn entry_order(decision: SyncView) -> Seq<CommandId> {
    dependency_order(
        decision.entries,
        Seq::empty(),
        in_order::<CommandId>(decision.entries.dom()),
    )
}

/// A recovered ballot has one order. The commands selected for re-proposal that
/// this replica knows are proposed in turn as a chain: once one of them is
/// proposed so are all after it, each depends on the one before it, and the
/// first on the last of the recovered entries, or on nothing where there are
/// none. With no entries, or with the last of them accepted here or proposed,
/// all of them are proposed.
pub proof fn lemma_recovered_commands_form_a_chain<
    H: Fn(HashDomain, Vec<Vec<u8>>) -> Digest32,
>(hash: H, state: RecoveredView, quorum: ConfigView, decision: SyncView)
    requires
        state.boot is Some,
        decision.entries.dom().finite(),
        decision.reproposed.finite(),
        decision.entries.dom().disjoint(decision.reproposed),
        decision.entries.dom().len() + decision.reproposed.len() <= u64::MAX,
    ensures
        ({
            let done = LeaderView::recovered(hash, state, quorum, decision).0;
            let chain = known_among(state.table, in_order::<CommandId>(decision.reproposed));
            let entries = entry_order(decision);
            let tail = if entries.len() == 0 {
                None
            } else {
                Some(entries.last())
            };
            &&& forall|c: CommandId| #[trigger]
                chain.contains(c) <==> decision.reproposed.contains(c) && state.table.phase_of(c)
                    is Some
            &&& chained(done.proposals, chain, tail)
            &&& chain.len() > 0 && (tail matches Some(t) ==> reached(
                state.table.phase_of(t),
                Phase::Accept,
            ) || done.proposals.contains_key(t)) ==> done.proposals.contains_key(chain[0])
            &&& forall|c: CommandId| #[trigger]
                done.proposals.contains_key(c) ==> chain.contains(c) || entries.contains(c)
            &&& forall|c: CommandId|
                entries.contains(c) && #[trigger] done.proposals.contains_key(c)
                    ==> done.proposals[c].deps == decision.entries[c].deps
        }),
{
    let start = LeaderView::taking_over(state, quorum);
    let entries = entry_order(decision);
    let order = in_order::<CommandId>(decision.entries.dom());
    lemma_in_order::<CommandId>(decision.entries.dom());
    lemma_dependency_order(decision.entries, Seq::empty(), order);
    let tail = if entries.len() == 0 {
        None
    } else {
        Some(entries.last())
    };
    lemma_entries(start, hash, decision.entries, entries);
    let installed = start.reproposed_entries(hash, decision.entries, entries).0;
    let commands = in_order::<CommandId>(decision.reproposed);
    lemma_in_order::<CommandId>(decision.reproposed);
    assert forall|i: int| 0 <= i < commands.len() implies !installed.proposals.contains_key(
        #[trigger] commands[i],
    ) by {
        assert(commands.contains(commands[i]));
        if entries.contains(commands[i]) {
            assert(order.contains(commands[i]));
        }
    }
    lemma_chain(installed, hash, commands, tail);
    assert(known_among(installed.table, commands) =~= known_among(state.table, commands)) by {
        let p = |c: CommandId| installed.table.phase_of(c) is Some;
        let q = |c: CommandId| state.table.phase_of(c) is Some;
        lemma_same_filter(commands, p, q);
    }
    lemma_known(state.table, commands);
    let done = LeaderView::recovered(hash, state, quorum, decision).0;
    if tail is Some && done.proposals.contains_key(tail->0) {
        assert(entries[entries.len() - 1] == tail->0);
        assert(entries.contains(tail->0));
        assert(order.contains(tail->0));
        assert(!commands.contains(tail->0));
        assert(installed.proposals.contains_key(tail->0));
    }
    assert forall|c: CommandId|
        entries.contains(c) && #[trigger] done.proposals.contains_key(
            c,
        ) implies done.proposals[c].deps == decision.entries[c].deps by {
        assert(order.contains(c));
        assert(decision.entries.dom().contains(c));
        assert(!commands.contains(c));
        assert(installed.proposals.contains_key(c));
    }
}

proof fn lemma_same_filter(
    s: Seq<CommandId>,
    p: spec_fn(CommandId) -> bool,
    q: spec_fn(CommandId) -> bool,
)
    requires
        forall|c: CommandId| #[trigger] p(c) == q(c),
    ensures
        s.filter(p) == s.filter(q),
    decreases s.len(),
{
    reveal(Seq::filter);
    if s.len() > 0 {
        lemma_same_filter(s.drop_last(), p, q);
        assert(p(s.last()) == q(s.last()));
    }
}

proof fn lemma_entries<H: Fn(HashDomain, Vec<Vec<u8>>) -> Digest32>(
    start: LeaderView,
    hash: H,
    entries: Map<CommandId, SyncEntryView>,
    order: Seq<CommandId>,
)
    requires
        start.boot is Some,
        start.seqnum + order.len() <= u64::MAX,
        order.no_duplicates(),
        forall|x: CommandId| !#[trigger] start.proposals.contains_key(x),
    ensures
        ({
            let state = start.reproposed_entries(hash, entries, order).0;
            &&& state.boot is Some
            &&& state.seqnum <= start.seqnum + order.len()
            &&& forall|x: CommandId| #[trigger]
                state.proposals.contains_key(x) ==> order.contains(x) && state.proposals[x].deps
                    == entries[x].deps
            &&& forall|x: CommandId| #[trigger]
                state.table.phase_of(x) is Some <==> start.table.phase_of(x) is Some
            &&& forall|x: CommandId|
                reached(start.table.phase_of(x), Phase::Accept) ==> reached(
                    #[trigger] state.table.phase_of(x),
                    Phase::Accept,
                )
            &&& forall|x: CommandId| #[trigger]
                state.proposals.contains_key(x) ==> reached(state.table.phase_of(x), Phase::Accept)
            &&& forall|i: int|
                0 <= i < order.len() && start.table.phase_of(#[trigger] order[i]) is Some && (
                forall|k: int|
                    0 <= k < entries[order[i]].deps.len() ==> settled_before(
                        start,
                        state,
                        order,
                        i,
                        #[trigger] entries[order[i]].deps[k],
                    )) ==> state.proposals.contains_key(order[i])
        }),
    decreases order.len(),
{
    let state = start.reproposed_entries(hash, entries, order).0;
    if order.len() > 0 {
        let rest = order.drop_last();
        let c = order.last();
        let n = order.len() - 1;
        lemma_entries(start, hash, entries, rest);
        let before = start.reproposed_entries(hash, entries, rest).0;
        lemma_reproposed(before, hash, c, entries[c].deps);
        assert(order[n] == c);
        assert forall|x: CommandId| #[trigger] state.proposals.contains_key(x) implies
            order.contains(x) && state.proposals[x].deps == entries[x].deps by {
            if x != c {
                assert(before.proposals.contains_key(x));
                let i = choose|i: int| 0 <= i < rest.len() && rest[i] == x;
                assert(order[i] == x);
            } else if state == before {
                assert(before.proposals.contains_key(c));
            }
        }
        assert forall|x: CommandId| #[trigger] state.proposals.contains_key(x) implies reached(
            state.table.phase_of(x),
            Phase::Accept,
        ) by {
            if x != c {
                assert(before.proposals.contains_key(x));
            } else if state == before {
                assert(before.proposals.contains_key(c));
            }
        }
        assert forall|i: int|
            0 <= i < order.len() && start.table.phase_of(#[trigger] order[i]) is Some && (forall|
                k: int,
            |
                0 <= k < entries[order[i]].deps.len() ==> settled_before(
                    start,
                    state,
                    order,
                    i,
                    #[trigger] entries[order[i]].deps[k],
                )) implies state.proposals.contains_key(order[i]) by {
            let deps = entries[order[i]].deps;
            assert forall|k: int| 0 <= k < deps.len() implies settled_before(
                start,
                before,
                rest,
                i,
                #[trigger] deps[k],
            ) by {
                assert(settled_before(start, state, order, i, entries[order[i]].deps[k]));
                if !reached(start.table.phase_of(deps[k]), Phase::Accept) {
                    let h = choose|h: int|
                        0 <= h < i && #[trigger] order[h] == deps[k]
                            && state.proposals.contains_key(deps[k]);
                    assert(rest[h] == deps[k]);
                    assert(deps[k] != c);
                    assert(before.proposals.contains_key(deps[k]));
                }
            }
            if i < n {
                assert(rest[i] == order[i]);
                assert(before.proposals.contains_key(rest[i]));
            } else {
                assert(all_reached(before.table, deps, Phase::Accept)) by {
                    assert forall|k: int| 0 <= k < deps.len() implies before.table.phase_of(
                        #[trigger] deps[k],
                    ) is Some && before.table.phase_of(deps[k])->0.rank()
                        >= Phase::Accept.rank() by {
                        assert(settled_before(start, before, rest, i, deps[k]));
                        assert(reached(before.table.phase_of(deps[k]), Phase::Accept));
                    }
                }
            }
        }
    }
}

/// `dep` was accepted here before, or was proposed before the `i`-th entry.
pub open spec fn settled_before(
    start: LeaderView,
    state: LeaderView,
    order: Seq<CommandId>,
    i: int,
    dep: CommandId,
) -> bool {
    ||| reached(start.table.phase_of(dep), Phase::Accept)
    ||| exists|h: int|
        0 <= h < i && #[trigger] order[h] == dep && state.proposals.contains_key(dep)
}

proof fn lemma_placing_order(
    entries: Map<CommandId, SyncEntryView>,
    placed: Seq<CommandId>,
    remaining: Seq<CommandId>,
)
    requires
        in_dependency_order(entries, placed),
        placed.no_duplicates(),
        remaining.no_duplicates(),
        forall|i: int| 0 <= i < remaining.len() ==> !placed.contains(#[trigger] remaining[i]),
    ensures
        ({
            let (done, left) = placing(entries, placed, remaining);
            &&& in_dependency_order(entries, done)
            &&& done.no_duplicates()
            &&& left.no_duplicates()
            &&& forall|x: CommandId|
                #![trigger done.contains(x)]
                #![trigger left.contains(x)]
                (done.contains(x) || left.contains(x)) <==> (placed.contains(x)
                    || remaining.contains(x))
            &&& forall|x: CommandId| #[trigger] left.contains(x) ==> !done.contains(x)
            &&& left.len() == remaining.len() ==> forall|i: int|
                0 <= i < remaining.len() ==> !follows(entries, placed, #[trigger] remaining[i])
            &&& left.len() == remaining.len() ==> done == placed && left == remaining
        }),
    decreases remaining.len(),
{
    lemma_placing(entries, placed, remaining);
    let (done, left) = placing(entries, placed, remaining);
    if remaining.len() > 0 {
        let rest = remaining.drop_last();
        let c = remaining.last();
        assert forall|i: int| 0 <= i < rest.len() implies !placed.contains(#[trigger] rest[i]) by {
            assert(rest[i] == remaining[i]);
        }
        lemma_placing_order(entries, placed, rest);
        lemma_placing(entries, placed, rest);
        let (before, over) = placing(entries, placed, rest);
        assert(!placed.contains(remaining[remaining.len() - 1]));
        assert(!rest.contains(c)) by {
            if rest.contains(c) {
                let i = choose|i: int| 0 <= i < rest.len() && rest[i] == c;
                assert(remaining[i] == remaining[remaining.len() - 1]);
            }
        }
        assert(!before.contains(c) && !over.contains(c)) by {
            assert((before.contains(c) || over.contains(c)) <==> (placed.contains(c)
                || rest.contains(c)));
        }
        assert forall|x: CommandId| #[trigger] remaining.contains(x) <==> rest.contains(x) || x
            == c by {
            if remaining.contains(x) {
                let i = choose|i: int| 0 <= i < remaining.len() && remaining[i] == x;
                if i < rest.len() {
                    assert(rest[i] == x);
                }
            }
            if rest.contains(x) {
                let i = choose|i: int| 0 <= i < rest.len() && rest[i] == x;
                assert(remaining[i] == x);
            }
            assert(remaining[remaining.len() - 1] == c);
        }
        if follows(entries, before, c) {
            lemma_contains_push(before, c);
            assert forall|i: int, k: int|
                #![trigger entries[done[i]].deps[k]]
                0 <= i < done.len() && 0 <= k < entries[done[i]].deps.len()
                    && entries.contains_key(entries[done[i]].deps[k]) implies exists|h: int|
                0 <= h < i && #[trigger] done[h] == entries[done[i]].deps[k] by {
                if i < before.len() {
                    assert(done[i] == before[i]);
                    let h = choose|h: int|
                        0 <= h < i && #[trigger] before[h] == entries[before[i]].deps[k];
                    assert(done[h] == before[h]);
                } else {
                    let d = entries[c].deps[k];
                    assert(before.contains(d));
                    let h = choose|h: int| 0 <= h < before.len() && before[h] == d;
                    assert(done[h] == d);
                }
            }
        } else {
            lemma_contains_push(over, c);
            if left.len() == remaining.len() {
                assert(over.len() == rest.len());
                assert forall|i: int| 0 <= i < remaining.len() implies !follows(
                    entries,
                    placed,
                    #[trigger] remaining[i],
                ) by {
                    if i < rest.len() {
                        assert(!follows(entries, placed, rest[i]));
                    }
                }
                assert(left =~= remaining);
            }
        }
    } else {
        assert(left =~= remaining);
    }
}

proof fn lemma_contains_push(s: Seq<CommandId>, c: CommandId)
    ensures
        forall|x: CommandId| #[trigger] s.push(c).contains(x) <==> s.contains(x) || x == c,
{
    assert forall|x: CommandId| #[trigger] s.push(c).contains(x) <==> s.contains(x) || x == c by {
        if s.push(c).contains(x) {
            let i = choose|i: int| 0 <= i < s.push(c).len() && s.push(c)[i] == x;
            if i < s.len() {
                assert(s[i] == x);
            }
        }
        if s.contains(x) {
            let i = choose|i: int| 0 <= i < s.len() && s[i] == x;
            assert(s.push(c)[i] == x);
        }
        assert(s.push(c)[s.len() as int] == c);
    }
}

/// Every dependency that is itself an entry stands before what depends on it.
pub open spec fn in_dependency_order(
    entries: Map<CommandId, SyncEntryView>,
    order: Seq<CommandId>,
) -> bool {
    forall|i: int, k: int|
        #![trigger entries[order[i]].deps[k]]
        0 <= i < order.len() && 0 <= k < entries[order[i]].deps.len() && entries.contains_key(
            entries[order[i]].deps[k],
        ) ==> exists|h: int| 0 <= h < i && #[trigger] order[h] == entries[order[i]].deps[k]
}

proof fn lemma_dependency_order(
    entries: Map<CommandId, SyncEntryView>,
    placed: Seq<CommandId>,
    remaining: Seq<CommandId>,
)
    requires
        in_dependency_order(entries, placed),
        placed.no_duplicates(),
        remaining.no_duplicates(),
        forall|i: int| 0 <= i < remaining.len() ==> !placed.contains(#[trigger] remaining[i]),
    ensures
        ({
            let order = dependency_order(entries, placed, remaining);
            &&& in_dependency_order(entries, order)
            &&& order.no_duplicates()
            &&& order.len() <= placed.len() + remaining.len()
            &&& forall|x: CommandId| #[trigger]
                order.contains(x) ==> placed.contains(x) || remaining.contains(x)
            &&& forall|x: CommandId| #[trigger] placed.contains(x) ==> order.contains(x)
            &&& forall|x: CommandId| #[trigger]
                remaining.contains(x) && !order.contains(x) ==> !follows(entries, order, x)
        }),
    decreases remaining.len(),
{
    lemma_placing(entries, placed, remaining);
    lemma_placing_order(entries, placed, remaining);
    let (done, left) = placing(entries, placed, remaining);
    assert forall|x: CommandId| #[trigger] placed.contains(x) implies done.contains(x) by {
        assert(done.contains(x) || left.contains(x));
        lemma_placed_stay(entries, placed, remaining, x);
    }
    if left.len() != remaining.len() && left.len() != 0 {
        assert forall|i: int| 0 <= i < left.len() implies !done.contains(#[trigger] left[i]) by {
            assert(left.contains(left[i]));
        }
        lemma_dependency_order(entries, done, left);
        let order = dependency_order(entries, placed, remaining);
        assert forall|x: CommandId| #[trigger] order.contains(x) implies placed.contains(x)
            || remaining.contains(x) by {
            assert(done.contains(x) || left.contains(x));
        }
        assert forall|x: CommandId| #[trigger]
            remaining.contains(x) && !order.contains(x) implies !follows(entries, order, x) by {
            assert(done.contains(x) || left.contains(x));
            assert(left.contains(x));
        }
    } else {
        assert forall|x: CommandId| #[trigger]
            remaining.contains(x) && !done.contains(x) implies !follows(entries, done, x) by {
            assert(done.contains(x) || left.contains(x));
            if left.len() == 0 {
                assert(!left.contains(x));
            } else {
                let i = choose|i: int| 0 <= i < remaining.len() && remaining[i] == x;
                assert(!follows(entries, placed, remaining[i]));
            }
        }
        assert forall|x: CommandId| #[trigger] done.contains(x) implies placed.contains(x)
            || remaining.contains(x) by {}
    }
}

proof fn lemma_placed_stay(
    entries: Map<CommandId, SyncEntryView>,
    placed: Seq<CommandId>,
    remaining: Seq<CommandId>,
    x: CommandId,
)
    requires
        placed.contains(x),
    ensures
        placing(entries, placed, remaining).0.contains(x),
    decreases remaining.len(),
{
    if remaining.len() > 0 {
        lemma_placed_stay(entries, placed, remaining.drop_last(), x);
        let before = placing(entries, placed, remaining.drop_last()).0;
        lemma_contains_push(before, remaining.last());
    }
}

/// Recovered entries keep the order they were accepted in: they are proposed
/// again after every entry they depend on, with their own dependencies; an
/// entry is left out only where another it depends on is left out too. An entry
/// this replica knows is proposed where each of its dependencies was accepted
/// here or is proposed before it.
pub proof fn lemma_recovered_entries_keep_their_order<
    H: Fn(HashDomain, Vec<Vec<u8>>) -> Digest32,
>(hash: H, state: RecoveredView, quorum: ConfigView, decision: SyncView, i: int)
    requires
        state.boot is Some,
        decision.entries.dom().finite(),
        decision.reproposed.finite(),
        decision.entries.dom().disjoint(decision.reproposed),
        decision.entries.dom().len() + decision.reproposed.len() <= u64::MAX,
    ensures
        ({
            let start = LeaderView::taking_over(state, quorum);
            let done = LeaderView::recovered(hash, state, quorum, decision).0;
            let order = entry_order(decision);
            &&& order.no_duplicates()
            &&& in_dependency_order(decision.entries, order)
            &&& forall|c: CommandId| #[trigger]
                order.contains(c) ==> decision.entries.contains_key(c)
            &&& forall|c: CommandId| #[trigger]
                decision.entries.contains_key(c) && !order.contains(c) ==> exists|k: int|
                    0 <= k < decision.entries[c].deps.len() && decision.entries.contains_key(
                        #[trigger] decision.entries[c].deps[k],
                    ) && !order.contains(decision.entries[c].deps[k])
            &&& 0 <= i < order.len() && state.table.phase_of(order[i]) is Some && (forall|k: int|
                0 <= k < decision.entries[order[i]].deps.len() ==> settled_before(
                    start,
                    done,
                    order,
                    i,
                    #[trigger] decision.entries[order[i]].deps[k],
                )) ==> done.proposals.contains_key(order[i]) && done.proposals[order[i]].deps
                == decision.entries[order[i]].deps
        }),
{
    let start = LeaderView::taking_over(state, quorum);
    let order = entry_order(decision);
    let all = in_order::<CommandId>(decision.entries.dom());
    lemma_in_order::<CommandId>(decision.entries.dom());
    lemma_dependency_order(decision.entries, Seq::empty(), all);
    lemma_recovered_commands_form_a_chain(hash, state, quorum, decision);
    lemma_entries(start, hash, decision.entries, order);
    let installed = start.reproposed_entries(hash, decision.entries, order).0;
    let done = LeaderView::recovered(hash, state, quorum, decision).0;
    let commands = in_order::<CommandId>(decision.reproposed);
    lemma_in_order::<CommandId>(decision.reproposed);
    let tail = if order.len() == 0 {
        None
    } else {
        Some(order.last())
    };
    assert forall|j: int| 0 <= j < commands.len() implies !installed.proposals.contains_key(
        #[trigger] commands[j],
    ) by {
        assert(commands.contains(commands[j]));
        if order.contains(commands[j]) {
            assert(all.contains(commands[j]));
        }
    }
    lemma_chain(installed, hash, commands, tail);
    assert forall|c: CommandId| #[trigger] order.contains(c) implies decision.entries.contains_key(
        c,
    ) by {
        assert(all.contains(c));
    }
    assert forall|c: CommandId| #[trigger]
        decision.entries.contains_key(c) && !order.contains(c) implies exists|k: int|
        0 <= k < decision.entries[c].deps.len() && decision.entries.contains_key(
            #[trigger] decision.entries[c].deps[k],
        ) && !order.contains(decision.entries[c].deps[k]) by {
        assert(all.contains(c));
        assert(!follows(decision.entries, order, c));
    }
    if 0 <= i < order.len() && state.table.phase_of(order[i]) is Some && (forall|k: int|
        0 <= k < decision.entries[order[i]].deps.len() ==> settled_before(
            start,
            done,
            order,
            i,
            #[trigger] decision.entries[order[i]].deps[k],
        )) {
        let deps = decision.entries[order[i]].deps;
        assert(order.contains(order[i]));
        assert forall|k: int| 0 <= k < deps.len() implies settled_before(
            start,
            installed,
            order,
            i,
            #[trigger] decision.entries[order[i]].deps[k],
        ) by {
            let d = decision.entries[order[i]].deps[k];
            assert(settled_before(start, done, order, i, d));
            if !reached(start.table.phase_of(d), Phase::Accept) {
                let h = choose|h: int|
                    0 <= h < i && #[trigger] order[h] == d && done.proposals.contains_key(d);
                assert(order.contains(d));
                assert(decision.entries.contains_key(d));
                assert(!commands.contains(d));
                assert(installed.proposals.contains_key(d));
            }
        }
        assert(installed.proposals.contains_key(order[i]));
        assert(!commands.contains(order[i]));
    }
}

/// Commands of a list whose payload may be served: it is held, and the batch
/// of the command's proposal is durable.
pub open spec fn servable(state: LeaderView, commands: Seq<CommandId>) -> Seq<CommandId> {
    commands.filter(
        |c: CommandId|
            state.payloads.contains_key(c) && state.proposals.contains_key(c)
                && state.proposals[c].durable,
    )
}

proof fn lemma_served(
    state: LeaderView,
    boot: BootView,
    to: ReplicaId,
    commands: Seq<CommandId>,
)
    ensures
        ({
            let said = payloads_served(state, boot, to, commands);
            let list = servable(state, commands);
            &&& said.len() == list.len()
            &&& forall|i: int|
                0 <= i < said.len() ==> {
                    let send = #[trigger] said[i];
                    &&& send is Publish
                    &&& send->Publish_0.to.replica == to
                    &&& send->Publish_0.requires_durable.len() == 0
                    &&& send->Publish_0.frame == frame_of(
                        MessageView::PayloadResponse {
                            command: list[i],
                            payload: state.payloads[list[i]],
                        },
                    )
                }
        }),
    decreases commands.len(),
{
    reveal(Seq::filter);
    if commands.len() > 0 {
        lemma_served(state, boot, to, commands.drop_last());
    }
}

/// A payload request is answered: to whoever asked, in the order asked, with
/// one response for each listed command whose payload this leader holds and
/// whose proposal is durable, and with nothing for any other. The leader itself
/// stays as it is.
pub proof fn lemma_durable_payloads_are_served<H: Fn(HashDomain, Vec<Vec<u8>>) -> Digest32>(
    state: LeaderView,
    hash: H,
    seal: Sealing,
    from: PeerId,
    frame: Seq<u8>,
    commands: Seq<CommandId>,
)
    requires
        state.boot is Some,
        message_in(frame) == Ok::<MessageView, crate::codec::DecodeError>(
            MessageView::PayloadRequest { commands },
        ),
    ensures
        ({
            let (next, said) = state.received(hash, seal, from, frame);
            let list = servable(state, commands);
            &&& next == state
            &&& said.len() == list.len()
            &&& forall|i: int|
                0 <= i < said.len() ==> {
                    let send = #[trigger] said[i];
                    &&& send is Publish
                    &&& send->Publish_0.to.replica == from.replica
                    &&& send->Publish_0.requires_durable.len() == 0
                    &&& send->Publish_0.frame == frame_of(
                        MessageView::PayloadResponse {
                            command: list[i],
                            payload: state.payloads[list[i]],
                        },
                    )
                }
        }),
{
    lemma_served(state, state.boot->0, from.replica, commands);
}

/// A request is taken on for proposal: it is bound to its command, its payload
/// is held, and the proposal depends on exactly what was last on the service's
/// key. The proposal has the next place in the leader's order, is written
/// before anything leaves, goes to every other voter once, and is answered to
/// the frontend; each message says what the proposal says.
pub proof fn lemma_proposals_say_what_was_ordered<H: Fn(HashDomain, Vec<Vec<u8>>) -> Digest32>(
    state: LeaderView,
    hash: H,
    q: RequestView,
    admission: Option<Seq<u8>>,
)
    requires
        state.boot is Some,
        state.leading(),
        state.ballots.seal_held() is None,
        !state.bindings.contains_key(q.retry_key),
        state.seqnum < u64::MAX,
        state.table.init_refusal(
            q.command,
            LeaderView::payload_of(q, admission).admitted(hash),
        ) is None,
    ensures
        ({
            let c = q.command;
            let (next, said) = state.proposed(hash, Some(q), admission);
            let p = next.proposals[c];
            let others = in_order::<ReplicaId>(state.config.identity.voters).filter(
                |v: ReplicaId| v != state.config.identity.replica,
            );
            &&& next.bindings == state.bindings.insert(q.retry_key, c)
            &&& next.payloads == state.payloads.insert(c, next.payloads[c])
            &&& next.payloads[c].retry_key == q.retry_key && next.payloads[c].logical == q.logical
            &&& next.payloads[c].admission == admission && next.payloads[c].ack_through
                == q.ack_through
            &&& next.proposals == state.proposals.insert(c, p)
            &&& p.command == c && !p.durable && !p.executed
            &&& p.seqnum == state.seqnum && next.seqnum == state.seqnum + 1
            &&& p.deps.no_duplicates()
            &&& forall|x: CommandId| #[trigger]
                p.deps.contains(x) <==> x != c && last_of_some(
                    state.table.opened(c),
                    conservative_keys(),
                    x,
                )
            &&& next.table.phase_of(c) == Some(Phase::PreAccept)
            &&& next.table.records[c].deps == p.deps
            &&& next.ledger.staged.contains_key(p.barrier)
            &&& next.ledger.staged[p.barrier] == (c, next.table.records[c])
            &&& next.ledger.records == state.ledger.records
            &&& next.votes.contains_key(c) && next.votes[c].fast.len() == 0
                && next.votes[c].slow.len() == 0
            &&& next.votes[c].leader matches Some(own) && says_proposal(state, c, p, own)
            &&& said.len() == others.len() + 2
            &&& said[0] == EffectView::Persist(
                BatchView { barrier: p.barrier, updates: p.updates },
            )
            &&& forall|i: int|
                1 <= i <= others.len() ==> {
                    let send = #[trigger] said[i];
                    &&& send is Publish
                    &&& send->Publish_0.to.replica == others[i - 1]
                    &&& send->Publish_0.requires_durable == seq![p.barrier]
                    &&& exists|ack: crate::vote::FastAckView|
                        send->Publish_0.frame == #[trigger] frame_of(MessageView::Proposal(ack))
                            && says_proposal(state, c, p, ack)
                }
            &&& ({
                let reply = said[said.len() - 1];
                &&& reply is Publish
                &&& reply->Publish_0.to == state.config.frontend
                &&& reply->Publish_0.requires_durable == seq![p.barrier]
                &&& reply->Publish_0.frame == frame_of(
                    MessageView::LeaderReply {
                        ballot: state.config.quorum.ballot,
                        command: c,
                        seqnum: p.seqnum,
                        deps: p.deps,
                        path: p.path,
                    },
                )
            })
        }),
{
    let c = q.command;
    let (next, said) = state.proposed(hash, Some(q), admission);
    let payload = LeaderView::payload_of(q, admission);
    let digest = payload.admitted(hash);
    let room = state.table.opened(c);
    lemma_new_commands_follow_the_last_ones(room, hash, c, digest, conservative_keys());
    let table = room.with_initialized(hash, c, digest, conservative_keys());
    let record = table.records[c];
    let ack = state.ack_of(c, record.deps, record.paths, record.path, digest, state.seqnum);
    let sends = state.proposal_sends(state.barrier(), ack);
    let voters = in_order::<ReplicaId>(state.config.identity.voters);
    lemma_broadcasts_reach_every_other_voter(
        state.ballots.context(state.boot->0.id, state.config.quorum.ballot),
        seq![state.barrier()],
        voters,
        state.config.identity.replica,
        frame_of(MessageView::Proposal(ack)),
    );
    let p = next.proposals[c];
    assert(says_proposal(state, c, p, ack));
    assert forall|i: int| 1 <= i <= sends.len() implies #[trigger] said[i] == sends[i - 1] by {}
}

/// An acknowledgement that is the proposal `p` of `c` by this leader.
pub open spec fn says_proposal(
    state: LeaderView,
    c: CommandId,
    p: ProposalView,
    ack: crate::vote::FastAckView,
) -> bool {
    &&& ack.replica == state.config.identity.replica
    &&& ack.ballot == state.config.quorum.ballot
    &&& ack.command == c
    &&& ack.deps == p.deps
    &&& ack.path == p.path
    &&& ack.paths == p.paths
    &&& ack.seqnum == Some(p.seqnum)
}

/// Everything a leader proposes is in one order: of two requests proposed in
/// turn the second depends on the first, and has the next place.
pub proof fn lemma_proposals_are_in_one_order<H: Fn(HashDomain, Vec<Vec<u8>>) -> Digest32>(
    state: LeaderView,
    hash: H,
    a: RequestView,
    b: RequestView,
    admission: Option<Seq<u8>>,
    other: Option<Seq<u8>>,
)
    requires
        state.boot is Some,
        state.leading(),
        state.ballots.seal_held() is None,
        state.seqnum < u64::MAX - 1,
        a.command != b.command,
        a.retry_key != b.retry_key,
        !state.bindings.contains_key(a.retry_key),
        !state.bindings.contains_key(b.retry_key),
        state.table.init_refusal(a.command, LeaderView::payload_of(a, admission).admitted(hash))
            is None,
        state.proposed(hash, Some(a), admission).0.table.init_refusal(
            b.command,
            LeaderView::payload_of(b, other).admitted(hash),
        ) is None,
        !state.proposed(hash, Some(a), admission).0.table.full(),
    ensures
        ({
            let first = state.proposed(hash, Some(a), admission).0;
            let second = first.proposed(hash, Some(b), other).0;
            &&& second.proposals[b.command].deps.contains(a.command)
            &&& second.proposals[b.command].seqnum == second.proposals[a.command].seqnum + 1
        }),
{
    let first = state.proposed(hash, Some(a), admission).0;
    lemma_proposals_say_what_was_ordered(state, hash, a, admission);
    let room = state.table.opened(a.command);
    lemma_new_commands_follow_the_last_ones(
        room,
        hash,
        a.command,
        LeaderView::payload_of(a, admission).admitted(hash),
        conservative_keys(),
    );
    let key = conservative_keys()[0];
    assert(conservative_keys().contains(key));
    assert(first.table.keys[key].last == Some(a.command));
    assert(first.table.opened(b.command) == first.table);
    assert(first.table.keys.contains_key(conservative_keys()[0]));
    assert(last_of_some(first.table.opened(b.command), conservative_keys(), a.command));
    assert(first.ballots == state.ballots);
    assert(first.leading());
    lemma_proposals_say_what_was_ordered(first, hash, b, other);
}

/// A definitely rejected batch is presented again unchanged: the same rows under
/// a new barrier, the same place and dependencies, one attempt more. After the
/// last attempt the leader stops leading instead.
pub proof fn lemma_retries_present_the_same_rows<H: Fn(HashDomain, Vec<Vec<u8>>) -> Digest32>(
    state: LeaderView,
    hash: H,
    c: CommandId,
    written: Option<RecordView>,
)
    requires
        state.boot is Some,
        state.proposals.contains_key(c),
    ensures
        ({
            let (next, said) = state.retried(hash, c, written);
            let was = state.proposals[c];
            let p = next.proposals[c];
            &&& was.attempts < MAX_PROPOSAL_ATTEMPTS ==> {
                &&& p.barrier == state.barrier()
                &&& p.attempts == was.attempts + 1
                &&& p.deps == was.deps && p.seqnum == was.seqnum && p.path == was.path && p.updates
                    == was.updates && p.durable == was.durable
                &&& said.len() > 0 && said[0] == EffectView::Persist(
                    BatchView { barrier: p.barrier, updates: was.updates },
                )
                &&& next.fenced == state.fenced
                &&& written matches Some(record) ==> next.ledger.staged
                    == state.ledger.staged.insert(p.barrier, (c, record))
                &&& written is None ==> next.ledger == state.ledger
                &&& next.ledger.records == state.ledger.records
            }
            &&& was.attempts >= MAX_PROPOSAL_ATTEMPTS ==> said.len() == 0 && next.fenced is Some
                && !next.leading()
        }),
{
}

/// Storage decides what a proposal is: once its batch is durable it is a durable
/// proposal, with nothing else about it changed; where the outcome of the batch
/// is not known the leader stops leading; no other proposal is touched by
/// either.
pub proof fn lemma_storage_settles_one_proposal(
    state: LeaderView,
    c: CommandId,
    journal_seq: LocalJournalSeq,
    error: StorageError,
)
    requires
        state.proposals.dom().finite(),
        state.proposals.contains_key(c),
        forall|x: CommandId| #[trigger]
            state.proposals.contains_key(x) && x != c ==> state.proposals[x].barrier
                != state.proposals[c].barrier,
    ensures
        ({
            let barrier = state.proposals[c].barrier;
            let event = StorageEvent::JournalDurable { barrier, journal_seq };
            let next = state.noted(event).proposal_durable(c);
            &&& state.noted(event).proposal_about(event) == Some(c)
            &&& next.proposals[c].durable
            &&& next.proposals[c].deps == state.proposals[c].deps && next.proposals[c].seqnum
                == state.proposals[c].seqnum && next.proposals[c].barrier == barrier
            &&& forall|x: CommandId|
                #![trigger next.proposals[x]]
                x != c ==> next.proposals[x] == state.proposals[x]
            &&& next.proposals.dom() == state.proposals.dom()
        }),
        ({
            let barrier = state.proposals[c].barrier;
            let event = StorageEvent::Failed { barrier, error };
            let reason = FenceReason::ProposalUnresolved { command: c, error };
            &&& state.noted(event).proposal_about(event) == Some(c)
            &&& state.noted(event).fenced_for(reason).fenced is Some
            &&& !state.noted(event).fenced_for(reason).leading()
        }),
{
    let order = in_order::<CommandId>(state.proposals.dom());
    lemma_in_order::<CommandId>(state.proposals.dom());
    assert(order.contains(c));
    let barrier = state.proposals[c].barrier;
    assert forall|i: int| 0 <= i < order.len() implies (
    state.proposals[#[trigger] order[i]].barrier == barrier <==> order[i] == c) by {
        assert(order.contains(order[i]));
        assert(state.proposals.contains_key(order[i]));
    }
    lemma_under(state.proposals, order, barrier, c);
    assert(state.proposals.insert(
        c,
        ProposalView { durable: true, ..state.proposals[c] },
    ).dom() =~= state.proposals.dom());
}

proof fn lemma_under(
    proposals: Map<CommandId, ProposalView>,
    order: Seq<CommandId>,
    barrier: BarrierId,
    c: CommandId,
)
    requires
        forall|i: int|
            0 <= i < order.len() ==> (proposals[#[trigger] order[i]].barrier == barrier <==> order[i]
                == c),
    ensures
        proposal_under(proposals, order, barrier) == (if order.contains(c) {
            Some(c)
        } else {
            None
        }),
    decreases order.len(),
{
    if order.len() > 0 {
        let rest = order.drop_last();
        assert forall|i: int| 0 <= i < rest.len() implies (proposals[#[trigger] rest[i]].barrier
            == barrier <==> rest[i] == c) by {
            assert(rest[i] == order[i]);
        }
        lemma_under(proposals, rest, barrier, c);
        assert(order[order.len() - 1] == order.last());
        if rest.contains(c) {
            let i = choose|i: int| 0 <= i < rest.len() && rest[i] == c;
            assert(order[i] == c);
        }
        if order.contains(c) && !rest.contains(c) {
            let i = choose|i: int| 0 <= i < order.len() && order[i] == c;
            if i < rest.len() {
                assert(rest[i] == c);
            }
        }
    }
}

/// A promise to another candidate ends leading here: from when it is under way
/// the leader proposes nothing.
pub proof fn lemma_promising_ends_leading(state: LeaderView, from: PeerId, ballot: Ballot)
    requires
        state.boot is Some,
        state.ballots.promise_refusal(from, ballot) is None,
    ensures
        ({
            let (next, said) = state.asked_to_promise(from, ballot);
            &&& !next.leading()
            &&& next.report_due is Some && next.report_due->0.ballot == ballot
                && next.report_due->0.to == from
            &&& said.len() == 2 && said[0] is Persist && said[1] is Publish
            &&& said[1]->Publish_0.to == from
        }),
{
}

/// A vote counts for what it says: a vote from its own sender for a command this
/// leader proposed is among that command's votes from there on, and what was
/// counted before still is.
pub proof fn lemma_votes_are_counted(
    state: LeaderView,
    seal: Sealing,
    from: ReplicaId,
    vote: VoteView,
)
    requires
        vote.replica() == from,
        state.votes.contains_key(vote.command()),
        state.votes[vote.command()].refusal(vote) is None,
    ensures
        ({
            let next = state.collected(seal, from, vote).0;
            let set = next.votes[vote.command()];
            let was = state.votes[vote.command()];
            &&& next.votes.dom() == state.votes.dom()
            &&& vote matches VoteView::Slow(ack) ==> set.slow == was.slow.insert(
                from,
                ack.admission,
            ) && set.fast == was.fast && set.leader == was.leader
            &&& vote matches VoteView::Fast(ack) ==> set.slow == was.slow && (if from
                == was.config.ballot.leader {
                set.leader == Some(ack) && set.fast == was.fast
            } else {
                set.fast == was.fast.insert(from, ack) && set.leader == was.leader
            })
            &&& forall|x: CommandId|
                #![trigger next.votes[x]]
                x != vote.command() ==> next.votes[x] == state.votes[x]
        }),
{
    assert(state.votes.insert(
        vote.command(),
        state.votes[vote.command()].presented(vote),
    ).dom() =~= state.votes.dom());
}

/// What is handed over when leading ends is what this leader held, and another
/// that takes over from it starts with the same.
pub proof fn lemma_handing_over_keeps_everything(state: LeaderView, quorum: ConfigView, c: CommandId)
    ensures
        ({
            let given = state.given_up();
            let next = LeaderView::taking_over(given, quorum);
            &&& next.table == state.table && next.ballots == state.ballots
            &&& next.payloads == state.payloads && next.bindings == state.bindings
            &&& next.ledger == state.ledger && next.learner == state.learner
            &&& next.boot == state.boot && next.report_due == state.report_due
            &&& next.config.identity == state.config.identity && next.config.quorum == quorum
            &&& next.config.frontend == state.config.frontend && next.config.capacity
                == state.config.capacity
            &&& next.proposals.len() == 0 && next.votes.len() == 0
            &&& given.served_payloads.contains(c) <==> state.proposals.contains_key(c)
                && state.proposals[c].durable
        }),
{
}

/// A command proposed again is written and sent as it is proposed: one batch
/// with the record in the order proposed and the proposal, and the proposal to
/// every other voter, once each, resting on that batch. Where nothing was
/// decided yet the record takes that order at ACCEPT.
pub proof fn lemma_reproposals_are_written_and_sent<
    H: Fn(HashDomain, Vec<Vec<u8>>) -> Digest32,
>(state: LeaderView, hash: H, c: CommandId, deps: Seq<CommandId>)
    requires
        state.boot is Some,
        state.seqnum < u64::MAX,
        state.table.records.contains_key(c),
        state.table.records[c].payload is Some,
        state.table.records[c].phase.rank() <= Phase::Accept.rank(),
        all_reached(state.table, deps, Phase::Accept),
    ensures
        ({
            let (next, said) = state.reproposed(hash, c, deps);
            let record = next.table.records[c];
            let p = next.proposals[c];
            let others = in_order::<ReplicaId>(state.config.identity.voters).filter(
                |v: ReplicaId| v != state.config.identity.replica,
            );
            &&& record.deps == deps && record.phase == Phase::Accept && record.payload
                == state.table.records[c].payload
            &&& untouched_but(state.table, next.table, c)
            &&& p.deps == deps && p.seqnum == state.seqnum && !p.durable
            &&& said.len() == 1 + others.len()
            &&& said[0] == EffectView::Persist(
                BatchView {
                    barrier: p.barrier,
                    updates: seq![
                        dependency_row(state.config.identity.epoch, c, record),
                        proposal_row(
                            state.config.identity.epoch,
                            c,
                            ProposalRecordView {
                                ballot: state.config.quorum.ballot,
                                seqnum: state.seqnum,
                                deps,
                                path: record.path,
                            },
                        ),
                    ],
                },
            )
            &&& forall|i: int|
                1 <= i < said.len() ==> {
                    let send = #[trigger] said[i];
                    &&& send is Publish
                    &&& send->Publish_0.to.replica == others[i - 1]
                    &&& send->Publish_0.requires_durable == seq![p.barrier]
                    &&& exists|ack: crate::vote::FastAckView|
                        send->Publish_0.frame == #[trigger] frame_of(MessageView::Proposal(ack))
                            && says_proposal(state, c, p, ack) && ack.admission
                            == record.payload->0
                }
        }),
{
    lemma_adoption_takes_the_given_order(state.table, c, deps, Seq::empty(), arbitrary());
    let (next, said) = state.reproposed(hash, c, deps);
    let record = next.table.records[c];
    let ack = state.ack_of(
        c,
        deps,
        record.paths,
        record.path,
        record.payload->0,
        state.seqnum,
    );
    lemma_broadcasts_reach_every_other_voter(
        state.ballots.context(state.boot->0.id, state.config.quorum.ballot),
        seq![state.barrier()],
        in_order::<ReplicaId>(state.config.identity.voters),
        state.config.identity.replica,
        frame_of(MessageView::Proposal(ack)),
    );
    let sends = state.proposal_sends(state.barrier(), ack);
    assert(says_proposal(state, c, next.proposals[c], ack));
    assert forall|i: int| 1 <= i < said.len() implies #[trigger] said[i] == sends[i - 1] by {}
}

/// A leader adopts its own order once it is durable: where every dependency of
/// the proposal is at ACCEPT, the record takes the proposal's dependencies at
/// ACCEPT, and a batch writes exactly that record.
pub proof fn lemma_own_orders_are_adopted_as_proposed(state: LeaderView, c: CommandId)
    requires
        state.boot is Some,
        state.proposals.contains_key(c),
        state.table.records.contains_key(c),
        state.table.phase_of(c) == Some(Phase::PreAccept),
        all_reached(state.table, state.proposals[c].deps, Phase::Accept),
    ensures
        ({
            let (next, said) = state.accept_one(c);
            let record = next.table.records[c];
            &&& record.deps == state.proposals[c].deps && record.phase == Phase::Accept
            &&& record.payload == state.table.records[c].payload
            &&& untouched_but(state.table, next.table, c)
            &&& next.ledger.staged == state.ledger.staged.insert(state.barrier(), (c, record))
            &&& next.ledger.records == state.ledger.records
            &&& said == seq![
                EffectView::Persist(
                    BatchView {
                        barrier: state.barrier(),
                        updates: seq![dependency_row(state.config.identity.epoch, c, record)],
                    },
                ),
            ]
        }),
{
    lemma_adoption_takes_the_given_order(
        state.table,
        c,
        state.proposals[c].deps,
        Seq::empty(),
        arbitrary(),
    );
}

proof fn lemma_accept_each(state: LeaderView, cs: Seq<CommandId>)
    requires
        forall|i: int|
            0 <= i < cs.len() ==> state.table.phase_of(#[trigger] cs[i]) == Some(Phase::PreAccept),
        cs.no_duplicates(),
    ensures
        ({
            let next = state.accept_each(cs).0;
            &&& next.proposals == state.proposals
            &&& next == state || exists|i: int|
                0 <= i < cs.len() && next.table.phase_of(#[trigger] cs[i]) == Some(Phase::Accept)
            &&& next == state ==> forall|i: int|
                0 <= i < cs.len() ==> state.table.accept_violation(
                    #[trigger] cs[i],
                    state.proposals[cs[i]].deps,
                ) is Some
            &&& forall|x: CommandId|
                !cs.contains(x) ==> #[trigger] next.table.phase_of(x) == state.table.phase_of(x)
            &&& next.config == state.config && next.ballots == state.ballots && next.fenced
                == state.fenced
        }),
    decreases cs.len(),
{
    if cs.len() > 0 {
        let rest = cs.drop_last();
        let c = cs.last();
        assert forall|i: int| 0 <= i < rest.len() implies state.table.phase_of(#[trigger] rest[i])
            == Some(Phase::PreAccept) by {
            assert(rest[i] == cs[i]);
        }
        lemma_accept_each(state, rest);
        assert(cs[cs.len() - 1] == c);
        assert(!rest.contains(c)) by {
            if rest.contains(c) {
                let k = choose|k: int| 0 <= k < rest.len() && rest[k] == c;
                assert(cs[k] == cs[cs.len() - 1]);
            }
        }
        let before = state.accept_each(rest).0;
        let next = state.accept_each(cs).0;
        assert(before.table.phase_of(c) == Some(Phase::PreAccept));
        assert forall|x: CommandId| x != c implies #[trigger] next.table.phase_of(x)
            == before.table.phase_of(x) by {}
        assert forall|x: CommandId| !cs.contains(x) implies #[trigger] next.table.phase_of(x)
            == state.table.phase_of(x) by {
            assert(x != c);
            if rest.contains(x) {
                let k = choose|k: int| 0 <= k < rest.len() && rest[k] == x;
                assert(cs[k] == x);
            }
        }
        let deps = before.proposals[c].deps;
        if before.table.accept_violation(c, deps) is None {
            assert(next.table.phase_of(cs[cs.len() - 1]) == Some(Phase::Accept));
            assert(next.table.phase_of(c) != state.table.phase_of(c));
        } else {
            assert(next == before);
            if before != state {
                let i = choose|i: int|
                    0 <= i < rest.len() && before.table.phase_of(#[trigger] rest[i]) == Some(
                        Phase::Accept,
                    );
                assert(cs[i] == rest[i]);
                assert(next.table.phase_of(cs[i]) == Some(Phase::Accept));
            } else {
                assert forall|i: int| 0 <= i < cs.len() implies state.table.accept_violation(
                    #[trigger] cs[i],
                    state.proposals[cs[i]].deps,
                ) is Some by {
                    if i < rest.len() {
                        assert(rest[i] == cs[i]);
                    }
                }
            }
        }
        if next == state && before != state {
            let i = choose|i: int|
                0 <= i < rest.len() && before.table.phase_of(#[trigger] rest[i]) == Some(
                    Phase::Accept,
                );
            assert(cs[i] == rest[i]);
            assert(rest[i] != c) by {
                assert(rest.contains(rest[i]));
            }
            assert(next.table.phase_of(rest[i]) == Some(Phase::Accept));
            assert(state.table.phase_of(cs[i]) == Some(Phase::PreAccept));
        }
    }
}

/// Nothing a leader could adopt is left behind: when it has gone through its
/// proposals, every durable one still at PRE-ACCEPT has a dependency that is not
/// at ACCEPT.
pub proof fn lemma_own_orders_are_all_adopted(state: LeaderView)
    requires
        state.leading(),
        state.proposals.dom().finite(),
    ensures
        ({
            let next = state.pending_advanced().0;
            forall|c: CommandId| #[trigger]
                next.proposals.contains_key(c) && next.proposals[c].durable
                    && next.table.phase_of(c) == Some(Phase::PreAccept) ==> !all_reached(
                    next.table,
                    next.proposals[c].deps,
                    Phase::Accept,
                )
        }),
    decreases state.acceptable().len(),
{
    crate::leader::lemma_accept_round(state);
    let cs = in_order::<CommandId>(state.acceptable());
    lemma_in_order::<CommandId>(state.acceptable());
    assert forall|i: int| 0 <= i < cs.len() implies state.table.phase_of(#[trigger] cs[i]) == Some(
        Phase::PreAccept,
    ) by {
        assert(cs.contains(cs[i]));
    }
    lemma_accept_each(state, cs);
    let next = state.accept_round().0;
    if next.acceptable() == state.acceptable() {
        if next != state {
            let i = choose|i: int|
                0 <= i < cs.len() && next.table.phase_of(#[trigger] cs[i]) == Some(Phase::Accept);
            assert(cs.contains(cs[i]));
            assert(next.acceptable().contains(cs[i]));
        }
        assert forall|c: CommandId| #[trigger]
            next.proposals.contains_key(c) && next.proposals[c].durable && next.table.phase_of(c)
                == Some(Phase::PreAccept) implies !all_reached(
            next.table,
            next.proposals[c].deps,
            Phase::Accept,
        ) by {
            assert(state.acceptable().contains(c));
            assert(cs.contains(c));
            let i = choose|i: int| 0 <= i < cs.len() && cs[i] == c;
            assert(state.table.accept_violation(cs[i], state.proposals[cs[i]].deps) is Some);
            if all_reached(next.table, next.proposals[c].deps, Phase::Accept) {
                lemma_adoption_takes_the_given_order(
                    state.table,
                    c,
                    state.proposals[c].deps,
                    Seq::empty(),
                    arbitrary(),
                );
            }
        }
    } else {
        lemma_own_orders_are_all_adopted(next);
    }
}

/// A proposal republished says what it said: a request presented again before it
/// is decided sends the same proposal to the same voters under the same batch.
pub proof fn lemma_republished_proposals_are_the_same<
    H: Fn(HashDomain, Vec<Vec<u8>>) -> Digest32,
>(state: LeaderView, hash: H, q: RequestView, i: int)
    requires
        state.boot is Some,
        state.leading(),
        state.ballots.seal_held() is None,
        !state.bindings.contains_key(q.retry_key),
        state.seqnum < u64::MAX,
        q.operation != OperationKind::Other,
        state.table.init_refusal(
            q.command,
            LeaderView::payload_of(q, None).admitted(hash),
        ) is None,
    ensures
        ({
            let (made, said) = state.proposed(hash, Some(q), None);
            let (again, repeated) = made.service_proposed(hash, Some(q));
            let n = repeated.len();
            &&& said.len() == n + 2
            &&& 0 <= i < n ==> repeated[i] == said[i + 1]
            &&& again == (LeaderView { rejections: again.rejections, ..made })
        }),
{
    let c = q.command;
    let (made, said) = state.proposed(hash, Some(q), None);
    let digest = LeaderView::payload_of(q, None).admitted(hash);
    let room = state.table.opened(c);
    lemma_new_commands_follow_the_last_ones(room, hash, c, digest, conservative_keys());
    assert(made.ballots == state.ballots);
    assert(made.leading());
    assert(made.republishable(q));
    let record = made.table.records[c];
    let ack = state.ack_of(c, record.deps, record.paths, record.path, digest, state.seqnum);
    assert(made.ack_again(hash, c) == ack);
}

/// An application moves the leader's frontier by one and is established as it
/// was: command, position, digest and revision of the outcome, the ballot it was
/// decided under. While the replica still leads, the response is released with
/// it unless it was released before.
pub proof fn lemma_leader_applications_are_established(
    state: LeaderView,
    seal: Sealing,
    c: CommandId,
    outcome: OutcomeView,
)
    requires
        state.apply_refusal(seal, c, outcome) is None,
        state.votes.dom().finite(),
    ensures
        ({
            let (next, said) = state.applied(seal, c, outcome);
            let e = said[0]->Established_0;
            &&& said.len() > 0 && said[0] is Established
            &&& e.command == c && e.position == outcome.position && e.result_digest
                == outcome.result_digest && e.revision == outcome.revision
            &&& e.epoch == state.config.identity.epoch && e.ballot == state.config.quorum.ballot
            &&& e.fast_path <==> state.learner.fast.contains(c)
            &&& next.learner.executed_through == outcome.position
            &&& outcome.position.0 == state.learner.executed_through.0 + 1
            &&& state.leading() && !state.speculation.released.contains(c) ==> {
                &&& said.len() > 1 && said[1] is Released
                &&& said[1]->Released_0.evidence == e
                &&& said[1]->Released_0.response == outcome.response
                &&& !said[1]->Released_0.speculative
            }
            &&& !state.leading() ==> said.len() == 1
            &&& state.proposals.contains_key(c) ==> next.proposals[c].executed
        }),
{
    crate::learner::lemma_execution_in_order(state.learner, state.table, c, outcome.position);
}

/// The proposals still to be executed, in the leader's own order: exactly those
/// proposed here and not executed, by their places.
pub proof fn lemma_unexecuted_proposals_are_in_order(state: LeaderView, c: CommandId, i: int, j: int)
    requires
        state.proposals.dom().finite(),
    ensures
        ({
            let list = state.unexecuted();
            &&& list.contains(c) <==> state.proposals.contains_key(c)
                && !state.proposals[c].executed && !reached(
                state.table.phase_of(c),
                Phase::Executed,
            )
            &&& 0 <= i < j < list.len() ==> state.proposals[list[i]].seqnum
                <= state.proposals[list[j]].seqnum
        }),
{
    let pairs = state.unexecuted_among(state.proposals.dom());
    lemma_unexecuted_finite(state, state.proposals.dom());
    let order = in_order::<(u64, CommandId)>(pairs);
    lemma_in_order::<(u64, CommandId)>(pairs);
    let list = state.unexecuted();
    if list.contains(c) {
        let k = choose|k: int| 0 <= k < list.len() && list[k] == c;
        assert(order.contains(order[k]));
    }
    if state.proposals.contains_key(c) && !state.proposals[c].executed && !reached(
        state.table.phase_of(c),
        Phase::Executed,
    ) {
        let p = (state.proposals[c].seqnum, c);
        assert(pairs.contains(p));
        assert(order.contains(p));
        let k = choose|k: int| 0 <= k < order.len() && order[k] == p;
        assert(list[k] == c);
    }
    if 0 <= i < j < list.len() {
        assert(order.contains(order[i]));
        assert(order.contains(order[j]));
        assert(<(u64, CommandId)>::before(order[i], order[j]));
    }
}

proof fn lemma_unexecuted_finite(state: LeaderView, keys: Set<CommandId>)
    requires
        keys.finite(),
    ensures
        state.unexecuted_among(keys).finite(),
    decreases keys.len(),
{
    let all = keys.map(|c: CommandId| (state.proposals[c].seqnum, c));
    keys.lemma_map_finite(|c: CommandId| (state.proposals[c].seqnum, c));
    assert(state.unexecuted_among(keys).subset_of(all)) by {
        assert forall|p: (u64, CommandId)| #[trigger]
            state.unexecuted_among(keys).contains(p) implies all.contains(p) by {
            assert(keys.contains(p.1));
        }
    }
    vstd::set_lib::lemma_len_subset(state.unexecuted_among(keys), all);
}

/// A Sync to a leader that was deposed is kept for the follower it becomes, and
/// one to a leader in its own ballot is not.
pub proof fn lemma_deposed_leaders_keep_the_sync<H: Fn(HashDomain, Vec<Vec<u8>>) -> Digest32>(
    state: LeaderView,
    hash: H,
    seal: Sealing,
    from: PeerId,
    frame: Seq<u8>,
    d: SyncView,
)
    requires
        message_in(frame) == Ok::<MessageView, crate::codec::DecodeError>(MessageView::Sync(d)),
    ensures
        ({
            let (next, said) = state.received(hash, seal, from, frame);
            &&& said.len() == 0
            &&& state.ballots.promised != state.config.quorum.ballot ==> next.pending_sync == Some(
                (from.replica, d),
            )
            &&& state.ballots.promised == state.config.quorum.ballot ==> next == state
        }),
{
}

/// A leader asked to seal writes the seal and reports it to whoever asked, with
/// everything it still has in flight, and proposes nothing from there on.
pub proof fn lemma_sealed_leaders_stop<H: Fn(HashDomain, Vec<Vec<u8>>) -> Digest32>(
    state: LeaderView,
    hash: H,
    from: PeerId,
    transition: Transition,
    request: Option<RequestView>,
    admission: Option<Seq<u8>>,
)
    requires
        state.boot is Some,
        state.ballots.seal_refusal(transition) is None,
    ensures
        ({
            let (next, said) = state.asked_to_seal(from, transition);
            &&& said.len() == 2 && said[0] is Persist && said[1] is Publish
            &&& said[0]->Persist_0.barrier == state.barrier()
            &&& said[1]->Publish_0.to == from
            &&& said[1]->Publish_0.requires_durable == state.cut().push(state.barrier())
            &&& said[1]->Publish_0.frame == frame_of(
                MessageView::Sealed {
                    transition,
                    at: state.ballots.promised,
                    replica: state.ballots.identity.replica,
                },
            )
            &&& !next.leading()
            &&& next.proposed(hash, request, admission).1.len() == 0
        }),
{
}

/// The batches a leader's report waits for: those of its proposals that are not
/// durable, and those of records not settled yet.
pub proof fn lemma_leader_cuts_are_everything_in_flight(
    state: LeaderView,
    c: CommandId,
    b: BarrierId,
)
    requires
        state.proposals.dom().finite(),
        state.ledger.staged.dom().finite(),
    ensures
        state.proposals.contains_key(c) && !state.proposals[c].durable ==> state.cut().contains(
            state.proposals[c].barrier,
        ),
        state.ledger.staged.contains_key(b) ==> state.cut().contains(b),
{
    let all = state.proposals.dom().map(|x: CommandId| state.proposals[x].barrier);
    state.proposals.dom().lemma_map_finite(|x: CommandId| state.proposals[x].barrier);
    assert(state.undurable().subset_of(all)) by {
        assert forall|x: BarrierId| #[trigger] state.undurable().contains(x) implies all.contains(
            x,
        ) by {
            let y = choose|y: CommandId| #[trigger]
                state.proposals.contains_key(y) && !state.proposals[y].durable
                    && state.proposals[y].barrier == x;
            assert(state.proposals.dom().contains(y));
        }
    }
    vstd::set_lib::lemma_len_subset(state.undurable(), all);
    lemma_in_order::<BarrierId>(state.undurable().union(state.ledger.staged.dom()));
}

/// A storage event that makes a proposal's batch durable is what makes the
/// proposal durable: nothing else does.
pub proof fn lemma_proposals_are_durable_by_their_batch<
    H: Fn(HashDomain, Vec<Vec<u8>>) -> Digest32,
>(state: LeaderView, hash: H, event: StorageEvent, c: CommandId)
    requires
        state.proposals.dom().finite(),
        state.proposals.contains_key(c),
        !state.proposals[c].durable,
    ensures
        ({
            let next = state.stored(hash, event).0;
            next.proposals.contains_key(c) && (next.proposals[c].durable ==> (event matches
                StorageEvent::JournalDurable { barrier, .. } && barrier
                == state.proposals[c].barrier))
        }),
{
    let first = state.noted(event);
    let about = first.proposal_about(event);
    let order = in_order::<CommandId>(state.proposals.dom());
    lemma_in_order::<CommandId>(state.proposals.dom());
    if event.about() is Some {
        lemma_found_under(state.proposals, order, event.about()->0);
    }
    match (about, event) {
        (Some(x), StorageEvent::Failed { error: StorageError::DefinitelyNotCommitted, .. }) => {
            let again = first.retried(hash, x, state.written_under(event)).0;
            crate::leader::lemma_own_order_is_adopted_in_turn(again);
        },
        _ => {
            let marked = match (about, event) {
                (Some(x), StorageEvent::JournalDurable { .. }) => first.proposal_durable(x),
                (Some(x), StorageEvent::Failed { error, .. }) => first.fenced_for(
                    FenceReason::ProposalUnresolved { command: x, error },
                ),
                _ => first,
            };
            crate::leader::lemma_own_order_is_adopted_in_turn(marked);
        },
    }
}

proof fn lemma_found_under(
    proposals: Map<CommandId, ProposalView>,
    order: Seq<CommandId>,
    barrier: BarrierId,
)
    ensures
        proposal_under(proposals, order, barrier) matches Some(x) ==> proposals[x].barrier
            == barrier && order.contains(x),
    decreases order.len(),
{
    if order.len() > 0 {
        lemma_found_under(proposals, order.drop_last(), barrier);
        assert(order[order.len() - 1] == order.last());
        let found = proposal_under(proposals, order.drop_last(), barrier);
        if found is Some {
            let i = choose|i: int|
                0 <= i < order.drop_last().len() && order.drop_last()[i] == found->0;
            assert(order[i] == found->0);
        }
    }
}

/// What storage says of a proposal's batch decides the proposal: once durable
/// the proposal is; a batch that was definitely not written is presented again;
/// one whose outcome is not known ends leading.
pub proof fn lemma_storage_decides_a_proposal<H: Fn(HashDomain, Vec<Vec<u8>>) -> Digest32>(
    state: LeaderView,
    hash: H,
    c: CommandId,
    journal_seq: LocalJournalSeq,
    error: StorageError,
)
    requires
        state.boot is Some,
        state.proposals.dom().finite(),
        state.votes.dom().finite(),
        state.proposals.contains_key(c),
        forall|x: CommandId| #[trigger]
            state.proposals.contains_key(x) && x != c ==> state.proposals[x].barrier
                != state.proposals[c].barrier,
    ensures
        ({
            let barrier = state.proposals[c].barrier;
            let next = state.stored(
                hash,
                StorageEvent::JournalDurable { barrier, journal_seq },
            ).0;
            &&& next.proposals.contains_key(c) && next.proposals[c].durable
            &&& next.proposals[c].deps == state.proposals[c].deps && next.proposals[c].seqnum
                == state.proposals[c].seqnum
            &&& next.fenced == state.fenced
        }),
        ({
            let barrier = state.proposals[c].barrier;
            let (next, said) = state.stored(hash, StorageEvent::Failed { barrier, error });
            &&& error == StorageError::DefinitelyNotCommitted && state.proposals[c].attempts
                < MAX_PROPOSAL_ATTEMPTS ==> {
                &&& said.len() > 0 && said[0] == EffectView::Persist(
                    BatchView { barrier: state.barrier(), updates: state.proposals[c].updates },
                )
                &&& next.proposals[c].barrier == state.barrier()
                &&& next.fenced == state.fenced
            }
            &&& error != StorageError::DefinitelyNotCommitted ==> next.fenced is Some
                && !next.leading()
        }),
{
    let barrier = state.proposals[c].barrier;
    let durable = StorageEvent::JournalDurable { barrier, journal_seq };
    let failed = StorageEvent::Failed { barrier, error };
    lemma_storage_settles_one_proposal(state, c, journal_seq, error);
    let marked = state.noted(durable).proposal_durable(c);
    lemma_only_the_table_moves(marked);
    let first = state.noted(failed);
    lemma_only_the_table_moves(first.retried(hash, c, state.written_under(failed)).0);
    lemma_only_the_table_moves(
        first.fenced_for(FenceReason::ProposalUnresolved { command: c, error }),
    );
}

proof fn lemma_only_the_table_moves(state: LeaderView)
    requires
        state.proposals.dom().finite(),
    ensures
        state.pending_advanced().0.proposals == state.proposals,
        state.pending_advanced().0.fenced == state.fenced,
    decreases state.acceptable().len(),
{
    crate::leader::lemma_accept_round(state);
    if state.leading() {
        let cs = in_order::<CommandId>(state.acceptable());
        lemma_in_order::<CommandId>(state.acceptable());
        assert forall|i: int| 0 <= i < cs.len() implies state.table.phase_of(
            #[trigger] cs[i],
        ) == Some(Phase::PreAccept) by {
            assert(cs.contains(cs[i]));
        }
        lemma_accept_each(state, cs);
        let next = state.accept_round().0;
        if next.acceptable() != state.acceptable() {
            lemma_only_the_table_moves(next);
        }
    }
}

/// A leader's frames do what they say: a vote is collected as the vote of the
/// replica it came from, a candidate and a coordinator are heard.
pub proof fn lemma_leader_frames_do_what_they_say<
    H: Fn(HashDomain, Vec<Vec<u8>>) -> Digest32,
>(
    state: LeaderView,
    hash: H,
    seal: Sealing,
    from: PeerId,
    frame: Seq<u8>,
    m: MessageView,
)
    requires
        message_in(frame) == Ok::<MessageView, crate::codec::DecodeError>(m),
    ensures
        ({
            let turn = state.received(hash, seal, from, frame);
            &&& m matches MessageView::FastAck(a) ==> turn == state.collected(
                seal,
                from.replica,
                VoteView::Fast(a),
            )
            &&& m matches MessageView::SlowAck(a) ==> turn == state.collected(
                seal,
                from.replica,
                VoteView::Slow(a),
            )
            &&& m matches MessageView::NewLeader { ballot } ==> turn == state.asked_to_promise(
                from,
                ballot,
            )
            &&& m matches MessageView::SealRequest { transition } ==> turn == state.asked_to_seal(
                from,
                transition,
            )
            &&& m is Proposal || m is LeaderReply || m is PayloadResponse || m is Promise
                || m is ReportPage || m is Sealed ==> turn.0 == state && turn.1.len() == 0
        }),
{
}

/// A replica leads exactly while it is an unfenced, unsealed voter of the
/// ballot's configuration that leads the ballot, promised it, and is promising
/// no other.
pub proof fn lemma_who_leads(state: LeaderView)
    ensures
        state.leading() <==> {
            &&& state.fenced is None && state.ballots.sealed is None && state.ballots.sealing.len()
                == 0
            &&& state.config.identity.role == crate::ballot::ReplicaRole::Voter
            &&& state.config.identity.epoch == state.config.quorum.epoch
            &&& state.config.identity.voters == state.config.quorum.voters
            &&& state.config.quorum.voters.contains(state.config.identity.replica)
            &&& state.ballots.promised == state.config.quorum.ballot
            &&& state.config.quorum.ballot.leader == state.config.identity.replica
            &&& state.ballots.in_flight.len() == 0
        },
{
}

/// A leader that begins holds nothing but what is durable of its promises, and
/// its first proposal has the first place.
pub proof fn lemma_leaders_begin_empty(
    config: crate::leader::LeaderConfigView,
    promise: Option<crate::rows::PromiseRecordV1>,
    seal: Option<crate::rows::SealRecordV1>,
    through: crate::ids::ExecutionPosition,
)
    ensures
        ({
            let state = LeaderView::begun(config, promise, seal, through);
            &&& state.config == config && state.boot is None
            &&& promise matches Some(r) ==> state.ballots.promised == r.promised
                && state.ballots.synced == r.synced
            &&& promise is None ==> state.ballots.promised == config.genesis
            &&& state.ballots.sealed == seal
            &&& state.table.records.len() == 0 && state.table.capacity == Some(config.capacity)
            &&& state.bindings.len() == 0 && state.proposals.len() == 0 && state.votes.len() == 0
            &&& state.payloads.len() == 0 && state.ledger.records.len() == 0
            &&& state.learner.executed_through == through && state.seqnum == 0
        }),
{
}

/// A leader's report waits for everything before its cut, and goes out once, to
/// whom it is owed.
pub proof fn lemma_leader_reports_wait_for_their_cut<
    H: Fn(HashDomain, Vec<Vec<u8>>) -> Digest32,
>(state: LeaderView, hash: H, k: int, i: int)
    requires
        state.report_due is Some,
        state.boot is Some,
    ensures
        ({
            let due = state.report_due->0;
            let (next, said) = state.report_delivered(hash);
            let durable = state.boot->0.settled.durable;
            &&& 0 <= k < due.requires_durable.len() && !durable.contains(due.requires_durable[k])
                ==> next == state && said.len() == 0
            &&& (forall|j: int|
                0 <= j < due.requires_durable.len() ==> durable.contains(
                    #[trigger] due.requires_durable[j],
                )) ==> next == (LeaderView { report_due: None, ..state }) && said.len() > 0 && (0
                <= i < said.len() ==> said[i] is Publish && said[i]->Publish_0.to == due.to)
        }),
{
    let due = state.report_due->0;
    let context = state.ballots.context(state.boot->0.id, due.ballot);
    crate::follower_laws::lemma_reports_are_sent_whole(
        hash,
        context,
        due.to,
        state.report(due.ballot),
        0,
    );
    if 0 <= k < due.requires_durable.len() {
        assert(due.requires_durable.contains(due.requires_durable[k]));
    }
}

/// What a leader releases ahead of execution is committed here, was computed
/// here, and was not released before; a replica that does not lead releases
/// nothing.
pub proof fn lemma_released_ahead(state: LeaderView, seal: Sealing, i: int)
    ensures
        ({
            let said = state.released_ready(seal).1;
            &&& !state.leading() ==> said.len() == 0
            &&& 0 <= i < said.len() ==> {
                let r = said[i]->Released_0;
                let c = r.evidence.command;
                &&& said[i] is Released && r.speculative
                &&& reached(state.table.phase_of(c), Phase::Commit)
                &&& state.speculation.outcomes.contains_key(c)
                &&& r.response == state.speculation.outcomes[c].response
                &&& r.evidence.result_digest == state.speculation.outcomes[c].result_digest
                &&& r.evidence.ballot == state.config.quorum.ballot && r.evidence.epoch
                    == state.config.identity.epoch
                &&& r.evidence.fast_path <==> state.learner.fast.contains(c)
                &&& !state.speculation.released.contains(c)
            }
        }),
{
    let gate = state.gate(seal);
    let list = state.unexecuted();
    if state.leading() && 0 <= i < state.released_ready(seal).1.len() {
        crate::speculation::lemma_release_needs_the_prefix(state.speculation, gate, list, i);
        crate::protocol_laws::lemma_releases_say_what_was_computed(
            state.speculation,
            gate,
            list,
            i,
        );
        let c = state.speculation.releasable(gate, list)[i].evidence.command;
        let k = choose|k: int|
            0 <= k < list.len() && list[k] == c && forall|j: int|
                0 <= j <= k ==> (gate.committed)(#[trigger] list[j])
                    && state.speculation.outcomes.contains_key(list[j]);
        assert((gate.committed)(list[k]));
    }
}

/// An outcome that cannot be sealed is executed here all the same, and told
/// nobody.
pub proof fn lemma_unsealed_outcomes_are_not_told(
    state: LeaderView,
    seal: Sealing,
    c: CommandId,
    outcome: OutcomeView,
)
    requires
        state.learner.refusal(state.table, c, outcome.position) is None,
        !seal(state.evidence(c, outcome)),
    ensures
        ({
            let (next, said) = state.applied(seal, c, outcome);
            &&& said.len() == 0
            &&& next.learner == state.learner.executed(c)
            &&& next.table == state.table.advanced(c, Phase::Executed)
            &&& next.speculation == state.speculation && next.fenced == state.fenced
        }),
{
}

/// A proposal that executes is marked so, and no other is.
pub proof fn lemma_executed_proposals_are_marked(state: LeaderView, c: CommandId, other: CommandId)
    requires
        state.proposals.contains_key(c),
        other != c,
    ensures
        ({
            let next = state.marked_executed(c);
            &&& next.proposals[c].executed
            &&& next.proposals[c] == (ProposalView { executed: true, ..state.proposals[c] })
            &&& next.proposals.contains_key(other) <==> state.proposals.contains_key(other)
            &&& next.proposals.contains_key(other) ==> next.proposals[other]
                == state.proposals[other]
        }),
{
}

/// An outcome other than the one released ahead of it is refused, with both.
pub proof fn lemma_other_outcomes_than_released_are_refused(
    state: LeaderView,
    seal: Sealing,
    c: CommandId,
    outcome: OutcomeView,
)
    requires
        state.learner.refusal(state.table, c, outcome.position) is None,
        seal(state.evidence(c, outcome)),
    ensures
        ({
            let was = state.speculation.outcomes[c];
            let differs = state.speculation.released.contains(c)
                && state.speculation.outcomes.contains_key(c) && (was.position != outcome.position
                || was.result_digest != outcome.result_digest);
            &&& state.apply_refusal(seal, c, outcome) is Some <==> differs
            &&& differs ==> (state.apply_refusal(seal, c, outcome)->0 is Speculation)
            &&& differs ==> state.applied(seal, c, outcome).1.len() == 0
        }),
{
}

/// A retry key bound to another command is refused with the command it is bound
/// to, and one bound to this command is a duplicate.
pub proof fn lemma_bound_keys_name_their_command(state: LeaderView, q: RequestView)
    requires
        state.ballots.seal_held() is None,
        state.leading(),
        state.bindings.contains_key(q.retry_key),
    ensures
        ({
            let bound = state.bindings[q.retry_key];
            &&& bound != q.command ==> state.propose_refusal(Some(q)) == Some(
                crate::leader::Rejection::RequestIdentityConflict { retry_key: q.retry_key, bound },
            )
            &&& bound == q.command ==> state.propose_refusal(Some(q)) == Some(
                crate::leader::Rejection::Duplicate(q.command),
            )
        }),
{
}

/// A record whose batch failed is no longer on its way, and what is durable
/// stays as it was.
pub proof fn lemma_failed_records_are_not_on_their_way(
    state: LeaderView,
    barrier: BarrierId,
    error: StorageError,
    other: BarrierId,
)
    requires
        other != barrier,
    ensures
        ({
            let next = state.noted(StorageEvent::Failed { barrier, error });
            &&& !next.ledger.staged.contains_key(barrier)
            &&& next.ledger.staged.contains_key(other) <==> state.ledger.staged.contains_key(other)
            &&& next.ledger.records == state.ledger.records
            &&& next.ledger.sequences == state.ledger.sequences
        }),
{
}

/// A proposal is published again only for its own request, by a replica that
/// leads, and while it is neither executed nor decided.
pub proof fn lemma_only_open_proposals_are_published_again(state: LeaderView, q: RequestView)
    ensures
        state.republishable(q) <==> state.boot is Some && state.leading()
            && state.bindings.contains_key(q.retry_key) && state.bindings[q.retry_key] == q.command
            && state.proposals.contains_key(q.command) && !state.proposals[q.command].executed
            && !reached(state.table.phase_of(q.command), Phase::Commit),
{
}

} // verus!
