//! What the pieces of the protocol promise one another: which votes count and
//! when they teach, what a quorum is, what a promise and a seal take, what is
//! durable, reported, selected, speculated and repeated.

use vstd::prelude::*;

use crate::ballot::{BallotView, PromiseOutcome, ReplicaRole, flight_of, seal_row_of};
use crate::campaign::{CampaignView, promised_reports};
use crate::commands::TableView;
use crate::effects::{SettledView, StorageError, StorageEvent};
use crate::graph::{CursorView, Dependencies, PathLogView, Walk, chain_all, chained, reaches};
use crate::handoff::Transition;
use crate::hash::HashDomain;
use crate::ids::{
    Ballot, BarrierId, BootId, CommandId, Digest32, ExecutionPosition, LocalJournalSeq, PeerId,
    ReplicaId, ballot_below, supersedes,
};
use crate::learner::{
    Learning, LearnerView, LearningMode, OutcomeView, executable, is_next, learned_under,
    predecessors,
};
use crate::lists::without;
use crate::messages::{MessageView, frame_of};
use crate::ordered::{in_order, lemma_in_order};
use crate::phase::Phase;
use crate::quorum::{ConfigView, FastQuorumClass, default_fast_set, majority_of};
use crate::recovery::{
    ReportEntryView, ReportView, Selecting, SyncEntryView, SyncView, by_reporter, first_defect,
    half_initialized, highest_synced, merge_entries, merge_reports, selection,
};
use crate::replay::{EvidenceView, StoreView, acknowledgements, repeats};
use crate::rows::{PromiseRecordV1, SealRecordV1, seal_row};
use crate::speculation::{GateView, SpeculationView, TentativeView};
use crate::summary::{AssemblerView, LedgerView, PageView, seal_of};
use crate::table_laws::{all_reached, lemma_advancing_moves_one_command};
use crate::vote::{LearnedView, VoteSetView, VoteView};

verus! {

// Votes.

/// Exactly these votes count: of the command and the ballot, by one of its
/// voters; from the leader one fast vote and no slow one; from any other one
/// slow vote, and one fast vote without a place in the order where its fast
/// votes can count.
pub proof fn lemma_which_votes_count(set: VoteSetView, vote: VoteView)
    ensures
        ({
            let r = vote.replica();
            let leads = r == set.config.ballot.leader;
            set.refusal(vote) is None <==> {
                &&& vote.command() == set.command
                &&& vote.ballot() == set.config.ballot
                &&& set.config.voters.contains(r)
                &&& vote matches VoteView::Fast(a) ==> if leads {
                    set.leader is None
                } else {
                    a.seqnum is None && !set.fast.contains_key(r) && match set.config.class {
                        FastQuorumClass::C2 => set.config.fast_set.contains(r),
                        FastQuorumClass::C1 => set.config.voters.contains(r),
                    }
                }
                &&& vote is Slow ==> !leads && !set.slow.contains_key(r)
            }
        }),
        set.refusal(vote) is Some ==> set.presented(vote) == set,
{
}

/// A vote that counts is kept as it was cast, and no other changes.
pub proof fn lemma_counted_votes_are_kept(set: VoteSetView, vote: VoteView)
    requires
        set.refusal(vote) is None,
    ensures
        ({
            let next = set.presented(vote);
            &&& next.config == set.config && next.command == set.command
            &&& vote matches VoteView::Slow(a) ==> next.slow == set.slow.insert(
                a.replica,
                a.admission,
            ) && next.fast == set.fast && next.leader == set.leader
            &&& vote matches VoteView::Fast(a) ==> next.slow == set.slow && if a.replica
                == set.config.ballot.leader {
                next.leader == Some(a) && next.fast == set.fast
            } else {
                next.fast == set.fast.insert(a.replica, a) && next.leader == set.leader
            }
        }),
{
}

/// Votes agree with the leader only under the same admission: fast ones on the
/// same path, those that back a slow quorum on the same dependencies or by
/// adopting what the leader proposed.
pub proof fn lemma_who_agrees_with_the_leader(set: VoteSetView, r: ReplicaId)
    requires
        set.leader is Some,
    ensures
        ({
            let l = set.leader->0;
            &&& set.agreeing(l).contains(r) <==> set.fast.contains_key(r) && set.fast[r].path
                == l.path && set.fast[r].admission == l.admission
            &&& set.matching(l).contains(r) <==> set.fast.contains_key(r) && set.fast[r].admission
                == l.admission && (forall|c: CommandId| #[trigger]
                set.fast[r].deps.contains(c) <==> l.deps.contains(c))
            &&& set.adopted(l).contains(r) <==> set.slow.contains_key(r) && set.slow[r]
                == l.admission
        }),
{
    let l = set.leader->0;
    let d = set.fast[r].deps;
    if forall|c: CommandId| #[trigger] d.contains(c) <==> l.deps.contains(c) {
        assert(d.to_set() =~= l.deps.to_set()) by {
            assert forall|c: CommandId| #[trigger] d.to_set().contains(c) <==> l.deps.to_set().contains(c) by {
                assert(d.contains(c) <==> l.deps.contains(c));
            }
        }
    }
    if d.to_set() == l.deps.to_set() {
        assert forall|c: CommandId| #[trigger] d.contains(c) <==> l.deps.contains(c) by {
            assert(d.to_set().contains(c) <==> l.deps.to_set().contains(c));
        }
    }
}

/// What is learned is the leader's order: nothing without the leader, fast where
/// enough agree with it, slow where a majority backs it.
pub proof fn lemma_what_votes_teach(set: VoteSetView)
    ensures
        set.leader is None ==> set.learned() is None && set.learned_slow() is None,
        set.leader matches Some(l) ==> {
            let fast = set.agreeing(l).len() + 1 >= set.config.fast_size();
            let slow = set.adopted(l).union(set.matching(l)).len() + 1 >= majority_of(
                set.config.voters.len(),
            );
            &&& fast ==> set.learned() == Some(LearnedView::Fast(l.deps))
            &&& !fast && slow ==> set.learned() == Some(LearnedView::Slow(l.deps))
            &&& !fast && !slow ==> set.learned() is None
            &&& slow ==> set.learned_slow() == Some(LearnedView::Slow(l.deps))
            &&& !slow ==> set.learned_slow() is None
        },
{
}

// Quorums.

/// A slow quorum is the smallest that meets every other, and a fast one of any
/// voters the smallest more than three quarters.
pub proof fn lemma_quorum_sizes(config: ConfigView)
    ensures
        2 * config.slow_size() > config.voters.len(),
        2 * (config.slow_size() - 1) <= config.voters.len(),
        config.class == FastQuorumClass::C1 ==> 4 * config.fast_size() > 3 * config.voters.len()
            && 4 * (config.fast_size() - 1) <= 3 * config.voters.len(),
        config.class == FastQuorumClass::C2 ==> config.fast_size() == config.fast_set.len(),
{
}

/// The default fast set is the leader and the voters that follow it in order,
/// around the ring, as many as make a majority.
pub proof fn lemma_default_fast_set(voters: Set<ReplicaId>, leader: ReplicaId, r: ReplicaId)
    requires
        voters.finite(),
        voters.contains(leader),
    ensures
        ({
            let order = in_order::<ReplicaId>(voters);
            let n = order.len() as int;
            let fast = default_fast_set(voters, leader);
            &&& fast.contains(leader)
            &&& fast.contains(r) ==> voters.contains(r)
            &&& fast.contains(r) <==> exists|k: int, i: int|
                0 <= k < n && order[k] == leader && 0 <= i < majority_of(n as nat)
                    && #[trigger] order[(k + i) % n] == r
        }),
{
    let order = in_order::<ReplicaId>(voters);
    lemma_in_order::<ReplicaId>(voters);
    assert(order.contains(leader));
    let n = order.len() as int;
    let start = order.index_of(leader);
    assert(0 <= start < n && order[start] == leader) by {
        let k = choose|k: int| 0 <= k < order.len() && order[k] == leader;
        assert(order[k] == leader);
    }
    let list = Seq::new(majority_of(order.len()), |i: int| order[(start + i) % n]);
    let fast = default_fast_set(voters, leader);
    assert(list[0] == order[start]) by {
        assert((start + 0) % n == start) by (nonlinear_arith)
            requires
                0 <= start < n,
        ;
    }
    assert(list.contains(leader));
    if fast.contains(r) {
        assert(list.contains(r));
        let i = choose|i: int| 0 <= i < list.len() && list[i] == r;
        assert(order[(start + i) % n] == r);
        assert(0 <= (start + i) % n < n) by (nonlinear_arith)
            requires
                n > 0,
        ;
        assert(order.contains(order[(start + i) % n]));
    }
    if exists|k: int, i: int|
        0 <= k < n && order[k] == leader && 0 <= i < majority_of(n as nat) && #[trigger] order[(k
            + i) % n] == r {
        let (k, i) = choose|k: int, i: int|
            0 <= k < n && order[k] == leader && 0 <= i < majority_of(n as nat) && #[trigger] order[
            (k + i) % n] == r;
        assert(order[k] == order[start]);
        assert(k == start);
        assert(list[i] == r);
        assert(list.contains(r));
    }
}

// Promises and seals.

/// A promise is given exactly where the configuration is not sealed and the
/// candidate is a voter that leads a ballot of this epoch above every ballot
/// promised or being promised here, and this replica votes.
pub proof fn lemma_when_promises_are_given(state: BallotView, from: PeerId, ballot: Ballot)
    ensures
        state.promise_refusal(from, ballot) is None <==> {
            &&& state.sealed is None
            &&& ballot.epoch == state.identity.epoch
            &&& state.identity.voters.contains(from.replica)
            &&& ballot.leader == from.replica
            &&& state.identity.role == ReplicaRole::Voter
            &&& supersedes(ballot, state.bound())
        },
{
}

/// A configuration is sealed exactly where the request is for its epoch, this
/// replica votes, and no other seal is held or under way.
pub proof fn lemma_when_seals_are_taken(state: BallotView, transition: Transition)
    ensures
        state.seal_refusal(transition) is None <==> {
            &&& transition.from == state.identity.epoch
            &&& state.identity.role == ReplicaRole::Voter
            &&& state.sealed is Some ==> state.sealed->0.transition == transition
            &&& state.sealing.len() > 0 ==> state.sealing[0].record.transition == transition
        },
{
}

/// A seal is written under the epoch with the ballot promised, reported once it
/// is durable with everything outstanding, and holds from the moment it is under
/// way.
pub proof fn lemma_seals_are_written_and_reported(
    state: BallotView,
    transition: Transition,
    to: PeerId,
    boot: BootId,
    barrier: BarrierId,
    outstanding: Seq<BarrierId>,
)
    requires
        state.seal_refusal(transition) is None,
    ensures
        ({
            let row = SealRecordV1 { transition, at: state.promised };
            let report = state.seal_report(transition, to, boot, barrier, outstanding);
            &&& state.seal_batch(transition, barrier).barrier == barrier
            &&& state.seal_batch(transition, barrier).updates == seq![
                seal_row(state.identity.epoch, row),
            ]
            &&& report.to == to
            &&& report.requires_durable == outstanding.push(barrier)
            &&& report.frame == frame_of(
                MessageView::Sealed {
                    transition,
                    at: state.promised,
                    replica: state.identity.replica,
                },
            )
            &&& state.sealing_under(transition, barrier).fenced()
            &&& state.sealing_under(transition, barrier).promised == state.promised
        }),
{
    let next = state.sealing_under(transition, barrier);
    assert(next.sealing.len() > 0);
}

/// A promise counts when its batch is durable: the replica is then bound to the
/// ballot promised or to a higher one it was bound to already, and that batch is
/// no longer in flight; where the batch failed nothing was promised.
pub proof fn lemma_promises_settle(
    state: BallotView,
    i: int,
    journal_seq: LocalJournalSeq,
    error: StorageError,
)
    requires
        0 <= i < state.in_flight.len(),
        forall|j: int|
            0 <= j < i ==> (#[trigger] state.in_flight[j]).barrier != state.in_flight[i].barrier,
        forall|j: int|
            0 <= j < state.sealing.len() ==> (#[trigger] state.sealing[j]).barrier
                != state.in_flight[i].barrier,
    ensures
        ({
            let flight = state.in_flight[i];
            let durable = StorageEvent::JournalDurable { barrier: flight.barrier, journal_seq };
            let failed = StorageEvent::Failed { barrier: flight.barrier, error };
            &&& state.stored(durable).promised == (if supersedes(flight.ballot, state.promised) {
                flight.ballot
            } else {
                state.promised
            })
            &&& state.stored(durable).in_flight == state.in_flight.remove(i)
            &&& state.outcome(durable) == Some(PromiseOutcome::Promised(flight.ballot))
            &&& state.stored(failed).promised == state.promised
            &&& state.stored(failed).in_flight == state.in_flight.remove(i)
            &&& state.outcome(failed) == Some(PromiseOutcome::Failed(flight.ballot))
            &&& state.stored(durable).synced == state.synced && state.stored(failed).synced
                == state.synced
            &&& state.stored(durable).sealed == state.sealed
            &&& state.elections < u64::MAX ==> state.stored(durable).elections == state.elections
                + 1
            &&& state.stored(failed).elections == state.elections
        }),
{
    lemma_flight_found(state.in_flight, i);
    lemma_no_seal_row(state.sealing, state.in_flight[i].barrier);
}

proof fn lemma_flight_found(s: Seq<crate::ballot::PromiseInFlight>, i: int)
    requires
        0 <= i < s.len(),
        forall|j: int| 0 <= j < i ==> (#[trigger] s[j]).barrier != s[i].barrier,
    ensures
        flight_of(s, s[i].barrier) == i,
    decreases s.len(),
{
    if i > 0 {
        let rest = s.drop_first();
        assert(s[0].barrier != s[i].barrier);
        assert forall|j: int| 0 <= j < i - 1 implies (#[trigger] rest[j]).barrier != rest[i
            - 1].barrier by {
            assert(rest[j] == s[j + 1]);
        }
        lemma_flight_found(rest, i - 1);
    }
}

proof fn lemma_no_seal_row(s: Seq<crate::ballot::SealInFlight>, barrier: BarrierId)
    requires
        forall|j: int| 0 <= j < s.len() ==> (#[trigger] s[j]).barrier != barrier,
    ensures
        seal_row_of(s, barrier) == s.len(),
    decreases s.len(),
{
    if s.len() > 0 {
        let rest = s.drop_first();
        assert(s[0].barrier != barrier);
        assert forall|j: int| 0 <= j < rest.len() implies (#[trigger] rest[j]).barrier
            != barrier by {
            assert(rest[j] == s[j + 1]);
        }
        lemma_no_seal_row(rest, barrier);
    }
}

/// What was durably promised, synchronized and sealed is what a restart starts
/// from; without a row it starts at the genesis ballot, unsealed.
pub proof fn lemma_promises_survive_restarts(
    state: BallotView,
    genesis: Ballot,
    row: PromiseRecordV1,
    seal: Option<SealRecordV1>,
)
    ensures
        ({
            let back = BallotView::recovered(state.identity, genesis, Some(row), seal);
            let fresh = BallotView::recovered(state.identity, genesis, None, seal);
            &&& back.promised == row.promised && back.synced == row.synced
            &&& fresh.promised == genesis && fresh.synced == genesis
            &&& back.sealed == seal && fresh.sealed == seal
            &&& back.identity == state.identity
            &&& back.in_flight.len() == 0 && back.sealing.len() == 0
            &&& seal is Some ==> back.fenced()
        }),
{
}

/// A Sync moves the synchronized ballot forward within the epoch or is refused.
pub proof fn lemma_syncs_do_not_regress(state: BallotView, ballot: Ballot)
    ensures
        state.sync_refusal(ballot) is None <==> ballot.epoch == state.identity.epoch
            && !supersedes(state.synced, ballot),
        state.synced_to(ballot).synced == ballot,
        state.synced_to(ballot).promised == state.promised,
{
}

// What is durable.

/// A staged record becomes the durable one when its batch is, unless a later
/// batch of the command was durable before it; either way it is staged no more,
/// and no other command's record changes.
pub proof fn lemma_staged_records_become_durable(
    ledger: LedgerView,
    barrier: BarrierId,
    seq: LocalJournalSeq,
    x: CommandId,
)
    requires
        ledger.staged.contains_key(barrier),
    ensures
        ({
            let (c, record) = ledger.staged[barrier];
            let next = ledger.settled(barrier, seq);
            let late = ledger.sequences.contains_key(c) && ledger.sequences[c].0 > seq.0;
            &&& next.staged == ledger.staged.remove(barrier)
            &&& !late ==> next.records.contains_key(c) && next.records[c] == record
                && next.sequences[c] == seq
            &&& late ==> next.records == ledger.records && next.sequences == ledger.sequences
            &&& x != c ==> next.records.contains_key(x) == ledger.records.contains_key(x)
                && next.records[x] == ledger.records[x]
        }),
{
}

/// A ledger's report names each command with a durable record and payload once,
/// in order, with what the record says.
pub proof fn lemma_ledger_reports_what_it_holds(
    ledger: LedgerView,
    replica: ReplicaId,
    ballot: Ballot,
    committed: Ballot,
    c: CommandId,
)
    requires
        ledger.records.dom().finite(),
    ensures
        ({
            let report = ledger.report(replica, ballot, committed);
            &&& report.replica == replica && report.ballot == ballot && report.committed_ballot
                == committed
            &&& ledger.records.contains_key(c) && ledger.records[c].payload is Some <==> exists|
                i: int,
            |
                0 <= i < report.entries.len() && (#[trigger] report.entries[i]).command == c
            &&& forall|i: int|
                0 <= i < report.entries.len() ==> {
                    let e = #[trigger] report.entries[i];
                    let r = ledger.records[e.command];
                    &&& e.deps == r.deps && e.phase == r.phase && e.path == r.path && e.paths
                        == r.paths && e.keys == r.keys
                    &&& e.payload_present
                    &&& r.synced_seq matches Some(n) ==> e.seqnum == n
                }
        }),
{
    let order = in_order::<CommandId>(ledger.reported());
    lemma_in_order::<CommandId>(ledger.reported());
    let report = ledger.report(replica, ballot, committed);
    if ledger.records.contains_key(c) && ledger.records[c].payload is Some {
        assert(order.contains(c));
        let i = choose|i: int| 0 <= i < order.len() && order[i] == c;
        assert(report.entries[i].command == c);
    }
    if exists|i: int|
        0 <= i < report.entries.len() && (#[trigger] report.entries[i]).command == c {
        let i = choose|i: int|
            0 <= i < report.entries.len() && (#[trigger] report.entries[i]).command == c;
        assert(order.contains(order[i]));
    }
}

/// A page is taken exactly where it is of the candidate's ballot, within the
/// bounds, sealed by its own digest, and agrees with what that replica sent
/// before.
pub proof fn lemma_which_pages_are_taken<H: Fn(HashDomain, Vec<Vec<u8>>) -> Digest32>(
    assembler: AssemblerView,
    hash: H,
    page: PageView,
)
    ensures
        assembler.refusal(hash, page) is None <==> {
            &&& page.ballot == assembler.ballot
            &&& 0 < page.total <= 4096 && page.page < page.total && page.entries.len() <= 256
            &&& seal_of(hash, page) == page.digest
            &&& assembler.totals.contains_key(page.replica) ==> {
                let t = assembler.totals[page.replica];
                t.total == page.total && t.committed == page.committed_ballot && t.snapshot
                    == page.snapshot
            }
            &&& assembler.pages.contains_key(page.replica) && assembler.pages[page.replica].contains_key(
                page.page,
            ) ==> assembler.pages[page.replica][page.page] == page
        },
{
}

// Campaigns.

/// A candidate selects from its own report and the complete reports of those
/// that promised it, and waits while they are fewer than a majority.
pub proof fn lemma_campaigns_select_from_promisers<
    H: Fn(HashDomain, Vec<Vec<u8>>) -> Digest32,
>(campaign: CampaignView, hash: H, i: int)
    requires
        campaign.assembler.pages.dom().finite(),
    ensures
        ({
            let reports = campaign.reports(hash);
            &&& 0 <= i < reports.len() && !(campaign.own matches Some(own) && i == reports.len()
                - 1) ==> campaign.promised.contains(reports[i].replica)
                && campaign.assembler.whole(hash, reports[i].replica) && reports[i]
                == campaign.assembler.assembled(reports[i].replica)
            &&& campaign.own matches Some(own) ==> reports.len() > 0 && reports.last() == own
            &&& campaign.decision is None && reports.len() < majority_of(
                campaign.config.voters.len(),
            ) ==> campaign.selected(hash) == Ok::<
                Option<SyncView>,
                crate::recovery::RecoveryErrorView,
            >(None)
        }),
{
    let done = campaign.assembler.finished(hash);
    let order = in_order::<ReplicaId>(done);
    lemma_in_order::<ReplicaId>(done);
    assert forall|k: int| 0 <= k < order.len() implies campaign.assembler.whole(
        hash,
        #[trigger] order[k],
    ) by {
        assert(order.contains(order[k]));
    }
    lemma_promised_reports(campaign.assembler, order, campaign.promised, hash);
}

proof fn lemma_promised_reports<H: Fn(HashDomain, Vec<Vec<u8>>) -> Digest32>(
    assembler: AssemblerView,
    order: Seq<ReplicaId>,
    promised: Set<ReplicaId>,
    hash: H,
)
    requires
        forall|k: int| 0 <= k < order.len() ==> assembler.whole(hash, #[trigger] order[k]),
    ensures
        forall|i: int|
            0 <= i < promised_reports(assembler, order, promised).len() ==> {
                let r = #[trigger] promised_reports(assembler, order, promised)[i];
                promised.contains(r.replica) && assembler.whole(hash, r.replica) && r
                    == assembler.assembled(r.replica)
            },
    decreases order.len(),
{
    if order.len() > 0 {
        let rest = order.drop_last();
        assert forall|k: int| 0 <= k < rest.len() implies assembler.whole(
            hash,
            #[trigger] rest[k],
        ) by {
            assert(rest[k] == order[k]);
        }
        lemma_promised_reports(assembler, rest, promised, hash);
        assert(order[order.len() - 1] == order.last());
        let before = promised_reports(assembler, rest, promised);
        let all = promised_reports(assembler, order, promised);
        assert forall|i: int| 0 <= i < all.len() implies {
            let r = #[trigger] all[i];
            promised.contains(r.replica) && assembler.whole(hash, r.replica) && r
                == assembler.assembled(r.replica)
        } by {
            if i < before.len() {
                assert(all[i] == before[i]);
            } else {
                assert(all[i] == assembler.assembled(order.last()));
            }
        }
    }
}

/// Promises are of voters, and a candidate's own report counts as its promise.
pub proof fn lemma_campaign_promises(
    campaign: CampaignView,
    replica: ReplicaId,
    report: ReportView,
    me: ReplicaId,
    r: ReplicaId,
)
    ensures
        campaign.with_promise(replica).promised == (if campaign.config.voters.contains(replica) {
            campaign.promised.insert(replica)
        } else {
            campaign.promised
        }),
        campaign.with_own(report).promised == campaign.promised.insert(report.replica),
        campaign.with_own(report).own == Some(report),
        campaign.due(me).contains(r) <==> campaign.promised.contains(r) && r != me
            && !campaign.asked.contains(r),
{
    assert(campaign.due(me).contains(r) <==> campaign.promised.remove(me).contains(r)
        && !campaign.asked.contains(r));
}

// Selection.

/// The source of a selection is the highest ballot any report was synchronized
/// in.
pub proof fn lemma_the_source_is_the_highest(reports: Seq<ReportView>, i: int)
    requires
        0 <= i < reports.len(),
    ensures
        !ballot_below(highest_synced(reports), reports[i].committed_ballot),
        exists|k: int|
            0 <= k < reports.len() && (#[trigger] reports[k]).committed_ballot == highest_synced(
                reports,
            ),
    decreases reports.len(),
{
    if reports.len() > 1 {
        let rest = reports.drop_last();
        let j = if i < rest.len() {
            i
        } else {
            0
        };
        lemma_the_source_is_the_highest(rest, j);
        let k = choose|k: int|
            0 <= k < rest.len() && (#[trigger] rest[k]).committed_ballot == highest_synced(rest);
        assert(reports[k] == rest[k]);
        assert(reports[reports.len() - 1] == reports.last());
        if i < rest.len() {
            assert(rest[i] == reports[i]);
        }
    } else {
        assert(reports[0].committed_ballot == highest_synced(reports));
    }
}

/// A selected entry is what a report said of the command: dependencies, path,
/// anchors and place together, from a report of the source ballot that has it
/// accepted.
pub open spec fn said_by(
    reports: Seq<ReportView>,
    source: Ballot,
    c: CommandId,
    e: SyncEntryView,
    i: int,
    k: int,
) -> bool {
    &&& 0 <= i < reports.len()
    &&& 0 <= k < reports[i].entries.len()
    &&& reports[i].committed_ballot == source
    &&& reports[i].entries[k].command == c
    &&& reports[i].entries[k].phase.rank() >= Phase::Accept.rank()
    &&& e.command == c
    &&& e.deps == reports[i].entries[k].deps
    &&& e.path == reports[i].entries[k].path
    &&& e.paths == reports[i].entries[k].paths
    &&& e.seqnum == reports[i].entries[k].seqnum
}

proof fn lemma_merged_entries(
    state: Selecting,
    at_source: bool,
    entries: Seq<ReportEntryView>,
    c: CommandId,
)
    requires
        merge_entries(state, at_source, entries) is Ok,
    ensures
        ({
            let next = merge_entries(state, at_source, entries)->Ok_0;
            next.entries.contains_key(c) ==> {
                ||| state.entries.contains_key(c) && next.entries[c] == (SyncEntryView {
                    phase: next.entries[c].phase,
                    ..state.entries[c]
                })
                ||| at_source && exists|k: int|
                    0 <= k < entries.len() && {
                        let e = #[trigger] entries[k];
                        &&& e.command == c && e.phase.rank() >= Phase::Accept.rank()
                        &&& next.entries[c].command == c && next.entries[c].deps == e.deps
                            && next.entries[c].path == e.path && next.entries[c].paths == e.paths
                            && next.entries[c].seqnum == e.seqnum
                    }
            }
        }),
    decreases entries.len(),
{
    if entries.len() > 0 {
        let rest = entries.drop_last();
        lemma_merged_entries(state, at_source, rest, c);
        let before = merge_entries(state, at_source, rest)->Ok_0;
        let next = merge_entries(state, at_source, entries)->Ok_0;
        assert(entries[entries.len() - 1] == entries.last());
        if next.entries.contains_key(c) {
            if before.entries.contains_key(c) {
                assert(next.entries[c] == (SyncEntryView {
                    phase: next.entries[c].phase,
                    ..before.entries[c]
                }));
                if at_source && exists|k: int|
                    0 <= k < rest.len() && {
                        let e = #[trigger] rest[k];
                        &&& e.command == c && e.phase.rank() >= Phase::Accept.rank()
                        &&& before.entries[c].command == c && before.entries[c].deps == e.deps
                            && before.entries[c].path == e.path && before.entries[c].paths
                            == e.paths && before.entries[c].seqnum == e.seqnum
                    } {
                    let k = choose|k: int|
                        0 <= k < rest.len() && {
                            let e = #[trigger] rest[k];
                            &&& e.command == c && e.phase.rank() >= Phase::Accept.rank()
                            &&& before.entries[c].command == c && before.entries[c].deps == e.deps
                                && before.entries[c].path == e.path && before.entries[c].paths
                                == e.paths && before.entries[c].seqnum == e.seqnum
                        };
                    assert(entries[k] == rest[k]);
                }
            } else {
                assert(entries.last().command == c);
                assert(entries[entries.len() - 1].command == c);
            }
        }
    }
}

proof fn lemma_merged_reports(source: Ballot, reports: Seq<ReportView>, c: CommandId)
    requires
        merge_reports(source, reports) is Ok,
    ensures
        ({
            let next = merge_reports(source, reports)->Ok_0;
            next.entries.contains_key(c) ==> exists|i: int, k: int| #[trigger]
                said_by(reports, source, c, next.entries[c], i, k)
        }),
    decreases reports.len(),
{
    if reports.len() > 0 {
        let rest = reports.drop_last();
        lemma_merged_reports(source, rest, c);
        let before = merge_reports(source, rest)->Ok_0;
        let next = merge_reports(source, reports)->Ok_0;
        let last = reports.last();
        let n = reports.len() - 1;
        lemma_merged_entries(before, last.committed_ballot == source, last.entries, c);
        if next.entries.contains_key(c) {
            if before.entries.contains_key(c) && next.entries[c] == (SyncEntryView {
                phase: next.entries[c].phase,
                ..before.entries[c]
            }) {
                let (i, k) = choose|i: int, k: int| #[trigger]
                    said_by(rest, source, c, before.entries[c], i, k);
                assert(reports[i] == rest[i]);
                assert(said_by(reports, source, c, next.entries[c], i, k));
            } else {
                let k = choose|k: int|
                    0 <= k < last.entries.len() && {
                        let e = #[trigger] last.entries[k];
                        &&& e.command == c && e.phase.rank() >= Phase::Accept.rank()
                        &&& next.entries[c].command == c && next.entries[c].deps == e.deps
                            && next.entries[c].path == e.path && next.entries[c].paths == e.paths
                            && next.entries[c].seqnum == e.seqnum
                    };
                assert(reports[n] == last);
                assert(said_by(reports, source, c, next.entries[c], n, k));
            }
        }
    }
}

/// Nothing is selected that no report said: each entry stands whole in a report
/// of the source ballot.
pub proof fn lemma_selected_entries_are_reported_whole(
    config: ConfigView,
    reports: Seq<ReportView>,
    c: CommandId,
)
    requires
        selection(config, reports) is Ok,
        selection(config, reports)->Ok_0.entries.contains_key(c),
    ensures
        exists|i: int, k: int| #[trigger]
            said_by(
                by_reporter(reports),
                highest_synced(reports),
                c,
                selection(config, reports)->Ok_0.entries[c],
                i,
                k,
            ),
{
    lemma_merged_reports(highest_synced(reports), by_reporter(reports), c);
}

/// Selection is refused exactly for a report that does not fit: one by no voter,
/// a second one of a replica, one of another ballot or epoch, or one with an
/// accepted command that lacks its payload.
pub proof fn lemma_fitting_reports(config: ConfigView, reports: Seq<ReportView>)
    ensures
        first_defect(config, reports) is None ==> {
            &&& forall|i: int|
                0 <= i < reports.len() ==> {
                    let r = #[trigger] reports[i];
                    &&& config.voters.contains(r.replica)
                    &&& r.ballot == config.ballot
                    &&& r.committed_ballot.epoch == config.epoch
                    &&& forall|k: int|
                        0 <= k < r.entries.len() ==> (#[trigger] r.entries[k]).payload_present
                            || r.entries[k].phase.rank() < Phase::Accept.rank()
                }
            &&& forall|i: int, j: int|
                0 <= i < j < reports.len() ==> (#[trigger] reports[i]).replica != (
                #[trigger] reports[j]).replica
        },
    decreases reports.len(),
{
    if reports.len() > 0 {
        let rest = reports.drop_last();
        let last = reports.last();
        lemma_fitting_reports(config, rest);
        if first_defect(config, reports) is None {
            lemma_initialized(last.entries);
            assert(reports[reports.len() - 1] == last);
            assert forall|i: int| 0 <= i < reports.len() implies {
                let r = #[trigger] reports[i];
                &&& config.voters.contains(r.replica)
                &&& r.ballot == config.ballot
                &&& r.committed_ballot.epoch == config.epoch
                &&& forall|k: int|
                    0 <= k < r.entries.len() ==> (#[trigger] r.entries[k]).payload_present
                        || r.entries[k].phase.rank() < Phase::Accept.rank()
            } by {
                if i < rest.len() {
                    assert(rest[i] == reports[i]);
                }
            }
            assert forall|i: int, j: int| 0 <= i < j < reports.len() implies (
            #[trigger] reports[i]).replica != (#[trigger] reports[j]).replica by {
                if j < rest.len() {
                    assert(rest[i] == reports[i]);
                    assert(rest[j] == reports[j]);
                } else {
                    let names = rest.map_values(|r: ReportView| r.replica);
                    assert(names[i] == reports[i].replica);
                    assert(names.to_set().contains(names[i]));
                }
            }
        }
    }
}

proof fn lemma_initialized(entries: Seq<ReportEntryView>)
    ensures
        half_initialized(entries) is None <==> forall|k: int|
            0 <= k < entries.len() ==> (#[trigger] entries[k]).payload_present
                || entries[k].phase.rank() < Phase::Accept.rank(),
    decreases entries.len(),
{
    if entries.len() > 0 {
        let rest = entries.drop_last();
        lemma_initialized(rest);
        assert(entries[entries.len() - 1] == entries.last());
        assert(forall|k: int| 0 <= k < rest.len() ==> #[trigger] rest[k] == entries[k]);
        if half_initialized(entries) is None {
            assert forall|k: int| 0 <= k < entries.len() implies (
            #[trigger] entries[k]).payload_present || entries[k].phase.rank()
                < Phase::Accept.rank() by {
                if k < rest.len() {
                    assert(rest[k] == entries[k]);
                }
            }
        } else if forall|k: int|
            0 <= k < entries.len() ==> (#[trigger] entries[k]).payload_present
                || entries[k].phase.rank() < Phase::Accept.rank() {
            assert forall|k: int| 0 <= k < rest.len() implies (#[trigger] rest[k]).payload_present
                || rest[k].phase.rank() < Phase::Accept.rank() by {
                assert(rest[k] == entries[k]);
            }
        }
    }
}

// Learning and execution.

proof fn lemma_each_commits(
    state: Learning,
    mode: LearningMode,
    votes: Map<CommandId, VoteSetView>,
    cs: Seq<CommandId>,
)
    ensures
        ({
            let next = state.each(mode, votes, cs);
            &&& next.committed.len() >= state.committed.len()
            &&& next.committed.len() == state.committed.len() ==> next == state && forall|i: int|
                0 <= i < cs.len() ==> state.table.advance_violation(
                    #[trigger] cs[i],
                    Phase::Commit,
                ) is Some
        }),
    decreases cs.len(),
{
    if cs.len() > 0 {
        let rest = cs.drop_last();
        lemma_each_commits(state, mode, votes, rest);
        assert(cs[cs.len() - 1] == cs.last());
        let next = state.each(mode, votes, cs);
        if next.committed.len() == state.committed.len() {
            assert forall|i: int| 0 <= i < cs.len() implies state.table.advance_violation(
                #[trigger] cs[i],
                Phase::Commit,
            ) is Some by {
                if i < rest.len() {
                    assert(rest[i] == cs[i]);
                }
            }
        }
    }
}

/// Everything that can be learned is: after learning, an accepted command whose
/// votes teach it has a dependency that is not committed.
pub proof fn lemma_learning_is_complete(
    state: Learning,
    mode: LearningMode,
    votes: Map<CommandId, VoteSetView>,
    c: CommandId,
)
    requires
        votes.dom().finite(),
    ensures
        ({
            let done = state.settled(mode, votes);
            votes.contains_key(c) && learned_under(mode, votes[c]) is Some && done.table.phase_of(c)
                == Some(Phase::Accept) && done.table.records.contains_key(c) ==> !all_reached(
                done.table,
                done.table.records[c].deps,
                Phase::Commit,
            )
        }),
    decreases state.waiting(votes).len(),
{
    let next = state.round(mode, votes);
    crate::learner::lemma_round(state, mode, votes);
    if next.committed.len() == state.committed.len() {
        let cs = state.candidates(mode, votes);
        lemma_each_commits(state, mode, votes, cs);
        if votes.contains_key(c) && learned_under(mode, votes[c]) is Some && next.table.phase_of(c)
            == Some(Phase::Accept) && next.table.records.contains_key(c) && all_reached(
            next.table,
            next.table.records[c].deps,
            Phase::Commit,
        ) {
            let set = state.waiting(votes).filter(
                |x: CommandId| learned_under(mode, votes[x]) is Some,
            );
            lemma_in_order::<CommandId>(set);
            assert(set.contains(c));
            assert(cs.contains(c));
            let i = choose|i: int| 0 <= i < cs.len() && cs[i] == c;
            assert(state.table.advance_violation(cs[i], Phase::Commit) is Some);
            lemma_advancing_moves_one_command(state.table, c, Phase::Commit);
        }
    } else {
        lemma_learning_is_complete(next, mode, votes, c);
    }
}

/// What is next to execute is committed with every dependency executed, and no
/// other such command has an earlier place; nothing is next only where there is
/// none.
pub proof fn lemma_execution_follows_the_order(
    table: TableView,
    seqs: spec_fn(CommandId) -> Option<u64>,
    r: Option<CommandId>,
    x: CommandId,
)
    requires
        is_next(table, seqs, r),
    ensures
        r matches Some(c) ==> table.phase_of(c) == Some(Phase::Commit) && all_reached(
            table,
            table.records[c].deps,
            Phase::Executed,
        ),
        table.records.contains_key(x) && table.phase_of(x) == Some(Phase::Commit) && all_reached(
            table,
            table.records[x].deps,
            Phase::Executed,
        ) ==> (r matches Some(c) && ((seqs(x) matches Some(n) ==> (seqs(c) matches Some(m) && m
            <= n)) || seqs(x) == Some(u64::MAX))),
{
    if table.records.contains_key(x) && table.phase_of(x) == Some(Phase::Commit) {
        lemma_advancing_moves_one_command(table, x, Phase::Executed);
        if all_reached(table, table.records[x].deps, Phase::Executed) {
            assert(executable(table).contains(x));
        }
    }
    if let Some(c) = r {
        assert(executable(table).contains(c));
        lemma_advancing_moves_one_command(table, c, Phase::Executed);
    }
}

proof fn lemma_members_finite(cursor: CursorView, budget: nat, deps_of: Dependencies)
    requires
        cursor.visited.finite(),
    ensures
        cursor.walk(budget, deps_of) matches Walk::Complete(closure) ==> closure.members.finite(),
    decreases budget,
{
    let here = cursor.settled();
    match here.expanding {
        Some((deps, index)) => if budget > 0 {
            lemma_members_finite(here.examined(deps, index), (budget - 1) as nat, deps_of);
        },
        None => if here.frontier.len() > 0 && budget > 0 {
            if here.visited.contains(here.frontier.last()) {
                lemma_members_finite(here.skipped(), (budget - 1) as nat, deps_of);
            } else if deps_of(here.frontier.last()) is Some {
                lemma_members_finite(
                    here.taken(deps_of(here.frontier.last())->0),
                    (budget - 1) as nat,
                    deps_of,
                );
            }
        },
    }
}

/// What establishes a result names every command it rests on: exactly those its
/// dependencies lead to, each once.
pub proof fn lemma_evidence_names_every_predecessor(table: TableView, c: CommandId, x: CommandId)
    requires
        table.initialized(c),
        CursorView::starting(c, table.records[c].deps).walk(
            usize::MAX as nat,
            table.dependencies(),
        ) is Complete,
    ensures
        predecessors(table, c).contains(x) <==> x != c && reaches(table.dependencies(), c, x),
        predecessors(table, c).no_duplicates(),
{
    let deps_of = table.dependencies();
    let start = CursorView::starting(c, table.records[c].deps);
    crate::graph::lemma_start_sound(deps_of, c);
    crate::graph::lemma_walk_exact(start, usize::MAX as nat, deps_of);
    lemma_members_finite(start, usize::MAX as nat, deps_of);
    if let Walk::Complete(closure) = start.walk(usize::MAX as nat, deps_of) {
        lemma_in_order::<CommandId>(closure.members);
        assert(closure.members.contains(x) <==> x != closure.root && reaches(
            deps_of,
            closure.root,
            x,
        ));
    }
}

/// What establishes a result says the outcome as it was, at the next place.
pub proof fn lemma_evidence_says_the_outcome(
    learner: LearnerView,
    table: TableView,
    c: CommandId,
    epoch: crate::ids::ConfigurationEpoch,
    ballot: Ballot,
    outcome: OutcomeView,
)
    requires
        learner.executed_through.0 < u64::MAX,
    ensures
        ({
            let e = learner.evidence(table, c, epoch, ballot, outcome);
            &&& e.command == c && e.epoch == epoch && e.ballot == ballot
            &&& e.position.0 == learner.executed_through.0 + 1
            &&& e.result_digest == outcome.result_digest && e.revision == outcome.revision
            &&& e.fast_path <==> learner.fast.contains(c)
            &&& !learner.executed(c).fast.contains(c)
            &&& learner.executed(c).executed_through == e.position
            &&& learner.executed(c).mode == learner.mode
        }),
{
}

// Speculation.

/// What is asked to be computed ahead is the first proposal without an outcome:
/// all before it have one and are its prefix, and it would execute right after
/// them.
pub proof fn lemma_speculation_continues_the_prefix(
    state: SpeculationView,
    proposals: Seq<CommandId>,
    through: ExecutionPosition,
    i: int,
)
    ensures
        state.next_request(proposals, through) matches Some(q) ==> {
            let k = q.prefix.len() as int;
            &&& k < proposals.len() && k < state.bound
            &&& q.command == proposals[k]
            &&& q.prefix == proposals.take(k)
            &&& q.position.0 == through.0 + k + 1
            &&& !state.outcomes.contains_key(q.command) && !state.declined.contains(q.command)
            &&& 0 <= i < k ==> state.outcomes.contains_key(proposals[i])
        },
        0 <= i < proposals.len() && i < state.bound && !state.outcomes.contains_key(proposals[i])
            && !state.declined.contains(proposals[i]) && (forall|j: int|
            0 <= j < i ==> state.outcomes.contains_key(#[trigger] proposals[j])) && through.0 + i
            + 1 <= u64::MAX ==> state.next_request(proposals, through) is Some,
{
    lemma_planned(state, proposals);
    if 0 <= i < proposals.len() && !state.outcomes.contains_key(proposals[i]) && (forall|j: int|
        0 <= j < i ==> state.outcomes.contains_key(#[trigger] proposals[j])) {
        let k = state.planned(proposals) as int;
        assert(k <= i);
        if k < i {
            assert(state.outcomes.contains_key(proposals[k]));
        }
    }
}

proof fn lemma_planned(state: SpeculationView, proposals: Seq<CommandId>)
    ensures
        ({
            let k = state.planned(proposals) as int;
            &&& 0 <= k <= proposals.len()
            &&& k < proposals.len() ==> !state.outcomes.contains_key(proposals[k])
            &&& forall|j: int| 0 <= j < k ==> state.outcomes.contains_key(#[trigger] proposals[j])
        }),
    decreases proposals.len(),
{
    if proposals.len() > 0 && state.outcomes.contains_key(proposals[0]) {
        let rest = proposals.drop_first();
        lemma_planned(state, rest);
        let k = state.planned(proposals) as int;
        assert forall|j: int| 0 <= j < k implies state.outcomes.contains_key(
            #[trigger] proposals[j],
        ) by {
            if j > 0 {
                assert(rest[j - 1] == proposals[j]);
            }
        }
        if k < proposals.len() {
            assert(rest[k - 1] == proposals[k]);
        }
    }
}

/// What is released ahead of execution is what was computed, told as such: the
/// outcome's position, prefix, digest, revision and response.
pub proof fn lemma_releases_say_what_was_computed(
    state: SpeculationView,
    gate: GateView,
    proposals: Seq<CommandId>,
    i: int,
)
    requires
        0 <= i < state.releasable(gate, proposals).len(),
    ensures
        ({
            let r = state.releasable(gate, proposals)[i];
            let t = state.outcomes[r.evidence.command];
            &&& state.outcomes.contains_key(r.evidence.command)
            &&& r.speculative
            &&& r.response == t.response
            &&& r.evidence.position == t.position && r.evidence.closed_predecessors == t.prefix
            &&& r.evidence.result_digest == t.result_digest && r.evidence.revision == t.revision
            &&& r.evidence.epoch == gate.epoch && r.evidence.ballot == gate.ballot
            &&& r.evidence.fast_path == (gate.fast)(r.evidence.command)
        }),
    decreases proposals.len(),
{
    if !state.stops(gate, proposals) {
        let c = proposals[0];
        let rest = state.marked(c).releasable(gate, proposals.drop_first());
        if state.released.contains(c) {
            lemma_releases_say_what_was_computed(
                state.marked(c),
                gate,
                proposals.drop_first(),
                i,
            );
        } else if i > 0 {
            assert(state.releasable(gate, proposals)[i] == rest[i - 1]);
            lemma_releases_say_what_was_computed(
                state.marked(c),
                gate,
                proposals.drop_first(),
                i - 1,
            );
        }
    }
}

/// Everything computed along a committed prefix is released: where the first `k`
/// proposals are committed, have outcomes and none is refused, each is marked
/// released.
pub proof fn lemma_committed_prefixes_are_released(
    state: SpeculationView,
    gate: GateView,
    proposals: Seq<CommandId>,
    k: int,
)
    requires
        0 <= k <= proposals.len(),
        forall|j: int|
            0 <= j < k ==> (gate.committed)(#[trigger] proposals[j])
                && state.outcomes.contains_key(proposals[j]) && (gate.seal)(
                gate.release_of(state.outcomes[proposals[j]], proposals[j]).evidence,
            ),
    ensures
        forall|j: int|
            0 <= j < k ==> state.released_along(gate, proposals).released.contains(
                #[trigger] proposals[j],
            ),
        forall|c: CommandId| #[trigger]
            state.released.contains(c) ==> state.released_along(gate, proposals).released.contains(
                c,
            ),
        state.released_along(gate, proposals).outcomes == state.outcomes,
    decreases proposals.len(),
{
    if !state.stops(gate, proposals) {
        let c = proposals[0];
        let rest = proposals.drop_first();
        let next = state.marked(c);
        let m = if k > 0 {
            k - 1
        } else {
            0
        };
        assert forall|j: int| 0 <= j < m implies (gate.committed)(#[trigger] rest[j])
            && next.outcomes.contains_key(rest[j]) && (gate.seal)(
            gate.release_of(next.outcomes[rest[j]], rest[j]).evidence,
        ) by {
            assert(rest[j] == proposals[j + 1]);
        }
        lemma_committed_prefixes_are_released(next, gate, rest, m);
        assert(next.released.contains(c));
        assert forall|x: CommandId| #[trigger]
            state.released.contains(x) implies state.released_along(
            gate,
            proposals,
        ).released.contains(x) by {
            assert(next.released.contains(x));
        }
        assert forall|j: int| 0 <= j < k implies state.released_along(
            gate,
            proposals,
        ).released.contains(#[trigger] proposals[j]) by {
            if j > 0 {
                assert(rest[j - 1] == proposals[j]);
            }
        }
    } else if k > 0 {
        assert((gate.committed)(proposals[0]));
        assert(state.outcomes.contains_key(proposals[0]));
    }
}

/// An outcome computed ahead is held against what execution gave: they differ
/// where a released outcome had another place or digest, and nowhere else.
pub proof fn lemma_released_outcomes_are_held_to(
    state: SpeculationView,
    c: CommandId,
    position: ExecutionPosition,
    digest: Digest32,
)
    ensures
        state.mismatch(c, position, digest) is Some <==> state.released.contains(c)
            && state.outcomes.contains_key(c) && !(state.outcomes[c].position == position
            && state.outcomes[c].result_digest == digest),
{
}

/// Outcomes are kept by command: one recorded is held as it is and no longer
/// declined, one forgotten leaves nothing, and no other changes.
pub proof fn lemma_outcomes_are_kept(state: SpeculationView, t: TentativeView, x: CommandId)
    ensures
        state.recorded(t).outcomes[t.command] == t,
        state.recorded(t).outcomes.contains_key(t.command),
        !state.recorded(t).declined.contains(t.command),
        !state.forgotten(x).outcomes.contains_key(x) && !state.forgotten(x).released.contains(x)
            && !state.forgotten(x).declined.contains(x),
        x != t.command ==> state.recorded(t).outcomes.contains_key(x)
            == state.outcomes.contains_key(x) && state.forgotten(x).outcomes.contains_key(t.command)
            == state.outcomes.contains_key(t.command) && state.forgotten(x).released.contains(
            t.command,
        ) == state.released.contains(t.command),
{
}

// Evidence repeated.

/// What is repeated to a submitter: each acknowledgement kept for the ballot
/// whose batch is durable, as it was sent, in order, and no other.
pub proof fn lemma_durable_evidence_is_repeated(
    kept: Seq<EvidenceView>,
    settled: SettledView,
    ballot: Ballot,
    to: PeerId,
)
    ensures
        ({
            let list = kept.filter(
                |e: EvidenceView|
                    e.ballot == ballot && settled.durable.contains(e.barrier)
                        && !settled.failed.contains(e.barrier),
            );
            let sent = repeats(kept, settled, ballot, to);
            &&& sent.len() == list.len()
            &&& forall|i: int|
                0 <= i < sent.len() ==> (#[trigger] sent[i]).frame == list[i].frame && sent[i].to
                    == to && sent[i].requires_durable == list[i].requires_durable
                    && sent[i].context == list[i].context
        }),
    decreases kept.len(),
{
    reveal(Seq::filter);
    if kept.len() > 0 {
        lemma_durable_evidence_is_repeated(kept.drop_last(), settled, ballot, to);
    }
}

/// What is offered to a leader again: each acknowledgement kept for the ballot,
/// as it was sent, in order.
pub proof fn lemma_acknowledgements_are_offered_again(
    kept: Seq<EvidenceView>,
    ballot: Ballot,
    to: PeerId,
)
    ensures
        ({
            let list = kept.filter(|e: EvidenceView| e.ballot == ballot);
            let sent = acknowledgements(kept, ballot, to);
            &&& sent.len() == list.len()
            &&& forall|i: int|
                0 <= i < sent.len() ==> (#[trigger] sent[i]).frame == list[i].frame && sent[i].to
                    == to && sent[i].requires_durable == list[i].requires_durable
                    && sent[i].context == list[i].context
        }),
    decreases kept.len(),
{
    reveal(Seq::filter);
    if kept.len() > 0 {
        lemma_acknowledgements_are_offered_again(kept.drop_last(), ballot, to);
    }
}

/// The last two different frames of a command are kept: a frame kept already
/// changes nothing, and a third pushes the oldest out.
pub proof fn lemma_the_last_frames_are_kept(
    store: StoreView,
    c: CommandId,
    e: EvidenceView,
    table: TableView,
)
    requires
        table.records.contains_key(c),
    ensures
        ({
            let next = store.retaining(c, e, table);
            let was = store.kept(c);
            &&& next.own.contains_key(c)
            &&& (exists|i: int| 0 <= i < was.len() && (#[trigger] was[i]).frame == e.frame)
                ==> next.own[c] == was
            &&& (forall|i: int| 0 <= i < was.len() ==> (#[trigger] was[i]).frame != e.frame) ==> {
                &&& next.own[c].last() == e
                &&& was.len() < 2 ==> next.own[c] == was.push(e)
                &&& was.len() == 2 ==> next.own[c] == seq![was[1], e]
            }
        }),
{
    let was = store.kept(c);
    if was.len() == 2 {
        assert(was.push(e).drop_first() =~= seq![was[1], e]);
    }
}

/// Why an exact repeat sends nothing: there is nothing kept of the command, it
/// was repeated as often as it may be, or none of it is of this ballot and
/// durable.
pub proof fn lemma_when_nothing_is_repeated(
    store: StoreView,
    c: CommandId,
    settled: SettledView,
    ballot: Ballot,
    table: TableView,
)
    ensures
        store.plan_refusal(c, settled, ballot, table) is None <==> {
            &&& store.own.contains_key(c)
            &&& store.repairs_of(c) < 8
            &&& exists|i: int|
                0 <= i < store.own[c].len() && {
                    let e = #[trigger] store.own[c][i];
                    e.ballot == ballot && settled.durable.contains(e.barrier)
                        && !settled.failed.contains(e.barrier)
                }
        },
        store.repairs_of(c) < 8 ==> store.repaired(c).repairs_of(c) == store.repairs_of(c) + 1,
{
    if store.own.contains_key(c) {
        let kept = store.own[c];
        if crate::replay::none_passes(kept, settled, ballot) {
            assert forall|i: int| 0 <= i < kept.len() implies !({
                let e = #[trigger] kept[i];
                e.ballot == ballot && settled.durable.contains(e.barrier)
                    && !settled.failed.contains(e.barrier)
            }) by {
                assert(kept[i].refusal(settled, ballot) is Some);
            }
        } else {
            let i = choose|i: int|
                0 <= i < kept.len() && (#[trigger] kept[i]).refusal(settled, ballot) is None;
            assert(kept[i].ballot == ballot);
        }
    }
}

// Path logs.

/// A command of its own order joins the end of a log: its digest is chained to
/// the head, and that is the new head. One whose place the leader told before is
/// taken at that place.
pub proof fn lemma_logs_grow_at_the_end<H: Fn(HashDomain, Vec<Vec<u8>>) -> Digest32>(
    hash: H,
    log: PathLogView,
    c: CommandId,
)
    ensures
        !log.early.contains_key(c) ==> {
            let next = log.appended(hash, c);
            &&& next.pending == log.pending.push(c)
            &&& next.head == chained(hash, log.head, c)
            &&& next.head == log.digest_through(hash, c)
            &&& next.synced_seq == log.synced_seq && next.synced_hash == log.synced_hash
            &&& next.early == log.early && next.applied == log.applied
        },
        log.early.contains_key(c) ==> log.digest_through(hash, c) == log.early[c].1 && {
            let next = log.appended(hash, c);
            &&& next.applied == log.applied.insert(c)
            &&& next.early == log.early.remove(c)
            &&& !next.pending.contains(c)
        },
{
    crate::lists::lemma_without(log.pending, c);
}

/// The leader's order moves the anchor: a later place than any before becomes
/// the anchor with the leader's digest; a command in the log leaves what is
/// pending, which keeps its order, and the head is the rest chained to the
/// anchor. A place already taken changes nothing, and an earlier one moves no
/// anchor.
pub proof fn lemma_leader_orders_move_the_anchor<
    H: Fn(HashDomain, Vec<Vec<u8>>) -> Digest32,
>(hash: H, log: PathLogView, c: CommandId, seq: u64, digest: Digest32)
    ensures
        ({
            let next = log.synced(hash, c, seq, digest);
            let later = match log.synced_seq {
                None => true,
                Some(n) => seq > n,
            };
            &&& log.applied.contains(c) ==> next == log
            &&& !log.applied.contains(c) && !log.pending.contains(c) ==> next.early
                == log.early.insert(c, (seq, digest)) && next.head == log.head && next.pending
                == log.pending && next.synced_hash == log.synced_hash
            &&& !log.applied.contains(c) && log.pending.contains(c) ==> {
                &&& next.applied == log.applied.insert(c)
                &&& later ==> next.synced_seq == Some(seq) && next.synced_hash == digest
                &&& !later ==> next.synced_seq == log.synced_seq && next.synced_hash
                    == log.synced_hash
                &&& next.pending == log.pending.filter(|x: CommandId| x != c)
                &&& next.head == chain_all(hash, next.synced_hash, next.pending)
            }
            &&& !log.forgotten(c).early.contains_key(c) && !log.forgotten(c).applied.contains(c)
            &&& log.forgotten(c).head == log.head && log.forgotten(c).pending == log.pending
        }),
{
    lemma_without_keeps_the_order(log.pending, c);
}

proof fn lemma_without_keeps_the_order(s: Seq<CommandId>, c: CommandId)
    ensures
        without(s, c) == s.filter(|x: CommandId| x != c),
    decreases s.len(),
{
    reveal(Seq::filter);
    if s.len() > 0 {
        lemma_without_keeps_the_order(s.drop_last(), c);
    }
}

// Bounds and configurations.

/// A ballot's configuration stands exactly where there are voters, the ballot is
/// of the epoch and led by one of them, and the fast set is of voters with the
/// leader among them, a majority where it is the only one.
pub proof fn lemma_which_configurations_stand(config: ConfigView)
    ensures
        config.defect() is None <==> {
            &&& config.voters != Set::<ReplicaId>::empty()
            &&& config.ballot.epoch == config.epoch
            &&& config.voters.contains(config.ballot.leader)
            &&& config.fast_set.subset_of(config.voters)
            &&& config.fast_set.contains(config.ballot.leader)
            &&& config.class == FastQuorumClass::C2 ==> config.fast_set.len() == majority_of(
                config.voters.len(),
            )
        },
{
}

/// What a store forgets is what the table has forgotten, and nothing else.
pub proof fn lemma_stores_forget_with_the_table(store: StoreView, table: TableView, c: CommandId)
    ensures
        ({
            let next = store.swept(table);
            let known = table.records.contains_key(c) || table.executed.contains(c);
            &&& next.own.contains_key(c) <==> store.own.contains_key(c) && known
            &&& next.own.contains_key(c) ==> next.own[c] == store.own[c]
            &&& next.repairs.contains_key(c) <==> store.repairs.contains_key(c)
                && store.own.contains_key(c) && known
            &&& next.capacity == store.capacity
        }),
{
}

/// A batch is settled as it was reported: durable where it became durable,
/// failed where it failed, and no other batch changes.
pub proof fn lemma_reports_of_storage_are_kept(
    settled: SettledView,
    barrier: BarrierId,
    journal_seq: LocalJournalSeq,
    error: StorageError,
    other: BarrierId,
)
    ensures
        ({
            let durable = settled.observed(StorageEvent::JournalDurable { barrier, journal_seq });
            let failed = settled.observed(StorageEvent::Failed { barrier, error });
            &&& durable.durable.contains(other) <==> settled.durable.contains(other) || other
                == barrier
            &&& durable.failed == settled.failed
            &&& failed.failed.contains(other) <==> settled.failed.contains(other) || other
                == barrier
            &&& failed.durable == settled.durable
            &&& settled.observed(StorageEvent::Materialized { barrier }) == settled
        }),
{
}

/// A report is incomplete exactly while a page of it is missing, and complete
/// only when all are there and make up the snapshot they name.
pub proof fn lemma_which_reports_are_complete<H: Fn(HashDomain, Vec<Vec<u8>>) -> Digest32>(
    assembler: AssemblerView,
    hash: H,
    r: ReplicaId,
    i: u32,
)
    ensures
        assembler.finished(hash).contains(r) ==> assembler.pages.contains_key(r)
            && assembler.totals.contains_key(r) && (i < assembler.totals[r].total
            ==> assembler.pages[r].contains_key(i)) && crate::summary::snapshot_of(
            hash,
            assembler.assembled(r),
        ) == assembler.totals[r].snapshot,
        assembler.pages.contains_key(r) && assembler.totals.contains_key(r) && i
            < assembler.totals[r].total && !assembler.pages[r].contains_key(i)
            ==> assembler.partial().contains(r) && !assembler.finished(hash).contains(r),
        assembler.partial().contains(r) ==> !assembler.finished(hash).contains(r),
{
}

/// What a new page changes: it is held for its replica, and nothing held of any
/// replica is lost.
pub proof fn lemma_pages_are_held(assembler: AssemblerView, page: PageView, r: ReplicaId, i: u32)
    ensures
        ({
            let next = assembler.with_page(page);
            &&& next.pages.contains_key(page.replica) && next.pages[page.replica].contains_key(
                page.page,
            ) && next.pages[page.replica][page.page] == page
            &&& next.totals[page.replica].total == page.total
                && next.totals[page.replica].committed == page.committed_ballot
                && next.totals[page.replica].snapshot == page.snapshot
            &&& assembler.pages_of(r).contains_key(i) && !(r == page.replica && i == page.page)
                ==> next.pages_of(r).contains_key(i) && next.pages_of(r)[i]
                == assembler.pages_of(r)[i]
            &&& next.ballot == assembler.ballot
        }),
{
}

proof fn lemma_each_marks(
    state: Learning,
    mode: LearningMode,
    votes: Map<CommandId, VoteSetView>,
    cs: Seq<CommandId>,
    c: CommandId,
)
    ensures
        ({
            let next = state.each(mode, votes, cs);
            &&& next.committed.len() >= state.committed.len()
            &&& next.committed.take(state.committed.len() as int) == state.committed
            &&& next.fast.contains(c) <==> state.fast.contains(c) || (exists|i: int|
                state.committed.len() <= i < next.committed.len() && #[trigger] next.committed[i]
                    == c && learned_under(mode, votes[c])->0 is Fast)
        }),
    decreases cs.len(),
{
    let next = state.each(mode, votes, cs);
    if cs.len() > 0 {
        lemma_each_marks(state, mode, votes, cs.drop_last(), c);
        let before = state.each(mode, votes, cs.drop_last());
        let n = state.committed.len() as int;
        if next.committed.len() > before.committed.len() {
            assert(next.committed.take(n) =~= before.committed.take(n));
            assert(forall|i: int|
                0 <= i < before.committed.len() ==> #[trigger] next.committed[i]
                    == before.committed[i]);
            if before.fast.contains(c) && !state.fast.contains(c) {
                let i = choose|i: int|
                    n <= i < before.committed.len() && #[trigger] before.committed[i] == c
                        && learned_under(mode, votes[c])->0 is Fast;
                assert(next.committed[i] == c);
            }
            if cs.last() == c {
                assert(next.committed[next.committed.len() - 1] == c);
            }
            if exists|i: int|
                n <= i < next.committed.len() && #[trigger] next.committed[i] == c && learned_under(
                    mode,
                    votes[c],
                )->0 is Fast {
                let i = choose|i: int|
                    n <= i < next.committed.len() && #[trigger] next.committed[i] == c
                        && learned_under(mode, votes[c])->0 is Fast;
                if i < before.committed.len() {
                    assert(before.committed[i] == c);
                }
            }
        }
    } else {
        assert(next.committed.take(state.committed.len() as int) =~= state.committed);
    }
}

/// A command is marked fast exactly where it was already or is committed now
/// from a fast quorum.
pub proof fn lemma_fast_commits_are_marked(
    state: Learning,
    mode: LearningMode,
    votes: Map<CommandId, VoteSetView>,
    c: CommandId,
)
    requires
        votes.dom().finite(),
    ensures
        ({
            let done = state.settled(mode, votes);
            &&& done.committed.len() >= state.committed.len()
            &&& done.fast.contains(c) <==> state.fast.contains(c) || (exists|i: int|
                state.committed.len() <= i < done.committed.len() && #[trigger] done.committed[i]
                    == c && learned_under(mode, votes[c])->0 is Fast)
            &&& done.committed.take(state.committed.len() as int) == state.committed
        }),
    decreases state.waiting(votes).len(),
{
    let next = state.round(mode, votes);
    crate::learner::lemma_round(state, mode, votes);
    lemma_each_marks(state, mode, votes, state.candidates(mode, votes), c);
    if next.committed.len() != state.committed.len() {
        lemma_fast_commits_are_marked(next, mode, votes, c);
        let done = next.settled(mode, votes);
        let n = state.committed.len() as int;
        let m = next.committed.len() as int;
        assert forall|i: int| 0 <= i < m implies #[trigger] done.committed[i]
            == next.committed[i] by {
            assert(done.committed.take(m)[i] == next.committed[i]);
        }
        assert(done.committed.take(n) =~= next.committed.take(n));
        if exists|i: int|
            n <= i < m && #[trigger] next.committed[i] == c && learned_under(mode, votes[c])->0
                is Fast {
            let i = choose|i: int|
                n <= i < m && #[trigger] next.committed[i] == c && learned_under(
                    mode,
                    votes[c],
                )->0 is Fast;
            assert(done.committed[i] == c);
        }
        if exists|i: int|
            n <= i < done.committed.len() && #[trigger] done.committed[i] == c && learned_under(
                mode,
                votes[c],
            )->0 is Fast {
            let i = choose|i: int|
                n <= i < done.committed.len() && #[trigger] done.committed[i] == c
                    && learned_under(mode, votes[c])->0 is Fast;
            if i < m {
                assert(next.committed[i] == c);
            }
        }
    }
}

/// Keeping evidence forgets none while there are at most two commands for each
/// one the table has room for, and past that forgets what the table has.
pub proof fn lemma_evidence_is_forgotten_past_its_bound(
    store: StoreView,
    c: CommandId,
    e: EvidenceView,
    table: TableView,
    other: CommandId,
)
    requires
        2 * store.capacity <= usize::MAX,
        store.own.contains_key(other),
        other != c,
    ensures
        ({
            let next = store.retaining(c, e, table);
            let many = store.own.dom().insert(c).len() > 2 * store.capacity;
            let known = table.records.contains_key(other) || table.executed.contains(other);
            &&& next.own.contains_key(other) <==> !many || known
            &&& next.own.contains_key(other) ==> next.own[other] == store.own[other]
        }),
{
    let grown = store.own.insert(c, crate::replay::kept_with(store.kept(c), e));
    assert(grown.dom() =~= store.own.dom().insert(c));
    lemma_stores_forget_with_the_table(StoreView { own: grown, ..store }, table, other);
}

/// What becomes of a seal is told: that it is durable, or that it failed where
/// this replica is not sealed by another; a replica already sealed says nothing
/// of a row that failed.
pub proof fn lemma_seals_tell_what_became_of_them(
    state: BallotView,
    row: crate::ballot::SealInFlight,
    journal_seq: LocalJournalSeq,
    error: StorageError,
)
    requires
        state.sealing == seq![row],
    ensures
        ({
            let barrier = row.barrier;
            let durable = StorageEvent::JournalDurable { barrier, journal_seq };
            let failed = StorageEvent::Failed { barrier, error };
            &&& state.outcome(durable) == Some(PromiseOutcome::Sealed(row.record.transition))
            &&& state.sealed is None ==> state.outcome(failed) == Some(
                PromiseOutcome::SealFailed(row.record.transition),
            )
            &&& state.sealed is Some ==> state.outcome(failed) is None
            &&& state.stored(durable).sealed == Some(row.record)
            &&& state.stored(failed).sealed == state.sealed
        }),
{
}

/// A selection keeps what was executed here: such a command is selected as
/// decided, with the dependencies on record where there is a record, and every
/// other entry stays as it was selected.
pub proof fn lemma_selections_keep_what_was_executed(
    campaign: CampaignView,
    table: TableView,
    c: CommandId,
)
    requires
        campaign.decision is Some,
        campaign.decision->0.entries.contains_key(c),
    ensures
        ({
            let was = campaign.decision->0.entries[c];
            let next = campaign.with_executed(table).decision;
            &&& next is Some && next->0.entries.contains_key(c)
            &&& next->0.entries.dom() == campaign.decision->0.entries.dom()
            &&& next->0.reproposed == campaign.decision->0.reproposed
            &&& table.phase_of(c) != Some(Phase::Executed) ==> next->0.entries[c] == was
            &&& table.phase_of(c) == Some(Phase::Executed) ==> next->0.entries[c].phase
                == Phase::Commit
            &&& table.phase_of(c) == Some(Phase::Executed) && table.records.contains_key(c)
                ==> next->0.entries[c].deps == table.records[c].deps
            &&& next->0.entries[c].command == was.command && next->0.entries[c].path == was.path
        }),
{
    assert(campaign.with_executed(table).decision->0.entries.dom()
        =~= campaign.decision->0.entries.dom());
}

} // verus!
