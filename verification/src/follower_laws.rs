//! What a follower's turns come to: what it votes for a request, whose order it
//! adopts and installs, what it asks for and serves, and what a restart or a
//! change of ballot leaves of it.

use vstd::prelude::*;

use crate::commands::{RecordView, TableView};
use crate::campaign::CampaignView;
use crate::effects::{
    BatchView, EffectContext, EffectView, SendView, StorageError, StorageEvent,
};
use crate::follower::{
    DeferredView, FollowerView, Pending, RefusalView, asked_of, bindings_of, gap_in, gap_over,
    is_history, payload_batch, payloads_in, payloads_served, selection_gap, selection_missing,
    selection_of, uncarried, unknown_among,
};
use crate::hash::HashDomain;
use crate::ids::{
    Ballot, BarrierId, CommandId, Digest32, ExecutionPosition, LocalJournalSeq, PeerId, ReplicaId,
    RetryKey, supersedes,
};
use crate::learner::OutcomeView;
use crate::machine::{
    broadcast_of, conservative_keys, lemma_broadcasts_reach_every_other_voter, reached,
    publications, report_published,
};
use crate::messages::{MAX_PAYLOAD_TRANSFER, MessageView, frame_of, message_in};
use crate::ordered::{in_order, lemma_in_order};
use crate::phase::Phase;
use crate::quorum::{ConfigView, FastQuorumClass, default_fast_set};
use crate::recovery::{ReportView, SyncEntryView, SyncView};
use crate::replay::{EvidenceView, acknowledgements, repeats};
use crate::role::{BootView, RecoveredView};
use crate::rows::{
    PayloadView, PromiseRecordV1, dependency_row, payload_row, promise_row, sync_row,
};
use crate::seal::Sealing;
use crate::summary::{PageView, page_of};
use crate::table_laws::{
    all_reached, last_of_some, lemma_adoption_takes_the_given_order,
    lemma_advancing_moves_one_command, lemma_new_commands_follow_the_last_ones, untouched_but,
};
use crate::vote::{FastAckView, SlowAck, VoteSetView, VoteView};

verus! {

/// `said`, from `first` on, is one message told to every other voter in order
/// and to the frontend last, each resting on `barrier` and on every batch still
/// outstanding.
pub open spec fn told_to_all(
    state: FollowerView,
    said: Seq<EffectView>,
    first: int,
    frame: Seq<u8>,
    barrier: BarrierId,
) -> bool {
    let others = in_order::<ReplicaId>(state.config.identity.voters).filter(
        |v: ReplicaId| v != state.config.identity.replica,
    );
    &&& said.len() >= first + others.len() + 1
    &&& forall|i: int|
        first <= i < first + others.len() ==> {
            let send = #[trigger] said[i];
            &&& send is Publish
            &&& send->Publish_0.to.replica == others[i - first]
            &&& send->Publish_0.frame == frame
            &&& rests_on(state, send->Publish_0.requires_durable, barrier)
        }
    &&& ({
        let last = said[first + others.len()];
        &&& last is Publish
        &&& last->Publish_0.to == state.config.frontend
        &&& last->Publish_0.frame == frame
        &&& rests_on(state, last->Publish_0.requires_durable, barrier)
    })
}

/// A list of batches is `barrier` and everything outstanding.
pub open spec fn rests_on(
    state: FollowerView,
    requires_durable: Seq<BarrierId>,
    barrier: BarrierId,
) -> bool {
    forall|b: BarrierId| #[trigger]
        requires_durable.contains(b) <==> b == barrier || state.pending.contains_key(b)
}

proof fn lemma_acknowledged(
    state: FollowerView,
    staged: FollowerView,
    c: CommandId,
    barrier: BarrierId,
    message: MessageView,
    kind: Pending,
)
    requires
        staged.boot is Some,
        state.pending.dom().finite(),
        staged.pending == state.pending.insert(barrier, kind),
        staged.config == state.config,
    ensures
        ({
            let (done, said) = staged.acknowledged(c, barrier, message);
            let others = in_order::<ReplicaId>(state.config.identity.voters).filter(
                |v: ReplicaId| v != state.config.identity.replica,
            );
            &&& told_to_all(state, said, 0, frame_of(message), barrier)
            &&& said.len() == others.len() + 1
            &&& done == (FollowerView { replay: done.replay, ..staged })
        }),
{
    let (done, said) = staged.acknowledged(c, barrier, message);
    let frame = frame_of(message);
    let context = staged.ballots.context(staged.boot->0.id, staged.config.quorum.ballot);
    let waits = staged.waits_for(barrier);
    assert(staged.pending.dom() =~= state.pending.dom().insert(barrier));
    lemma_in_order::<BarrierId>(staged.pending.dom());
    let open = in_order::<BarrierId>(staged.pending.dom());
    assert(open.contains(barrier));
    assert(waits == open);
    assert forall|b: BarrierId| #[trigger] waits.contains(b) <==> b == barrier
        || state.pending.contains_key(b) by {
        assert(open.contains(b) <==> staged.pending.dom().contains(b));
    }
    lemma_broadcasts_reach_every_other_voter(
        context,
        waits,
        in_order::<ReplicaId>(staged.config.identity.voters),
        staged.config.identity.replica,
        frame,
    );
    let sends = broadcast_of(context, waits, staged.config.identity, frame);
    assert forall|i: int| 0 <= i < sends.len() implies #[trigger] said[i] == sends[i] by {}
}

/// The replica's fast acknowledgement counts: it is of the ballot's one fast set,
/// or, where any large quorum is fast, a voter.
pub open spec fn votes_fast(state: FollowerView) -> bool {
    match state.config.quorum.class {
        FastQuorumClass::C2 => state.config.quorum.fast_set.contains(
            state.config.identity.replica,
        ),
        FastQuorumClass::C1 => state.config.quorum.voters.contains(state.config.identity.replica),
    }
}

/// A new request becomes a vote: it is bound to its command, its payload kept,
/// and one batch writes the payload and a record at PRE-ACCEPT that depends on
/// exactly what was last on the service's key. A replica of the fast set tells
/// every other voter and the frontend, each once, that record's dependencies,
/// anchors and digest under its own name, without a place in the order, resting
/// on that batch and everything outstanding; any other replica stays silent.
pub proof fn lemma_requests_become_votes<H: Fn(HashDomain, Vec<Vec<u8>>) -> Digest32>(
    state: FollowerView,
    hash: H,
    c: CommandId,
    payload: PayloadView,
)
    requires
        state.boot is Some,
        state.pending.dom().finite(),
        !state.bindings.contains_key(payload.retry_key),
        state.table.init_refusal(c, payload.admitted(hash)) is None,
    ensures
        ({
            let said = state.requested(hash, c, payload).1;
            let table = state.table.opened(c).with_initialized(
                hash,
                c,
                payload.admitted(hash),
                conservative_keys(),
            );
            let staged = state.voting(c, payload, table);
            let record = table.records[c];
            let barrier = state.barrier();
            &&& record.payload == Some(payload.admitted(hash))
            &&& record.phase == Phase::PreAccept
            &&& record.deps.no_duplicates()
            &&& forall|x: CommandId| #[trigger]
                record.deps.contains(x) <==> x != c && last_of_some(
                    state.table.opened(c),
                    conservative_keys(),
                    x,
                )
            &&& staged.table == table
            &&& staged.bindings == state.bindings.insert(payload.retry_key, c)
            &&& staged.payloads == state.payloads.insert(c, payload)
            &&& staged.pending == state.pending.insert(barrier, Pending::Vote(c))
            &&& staged.ledger.records == state.ledger.records
            &&& staged.ledger.staged == state.ledger.staged.insert(barrier, (c, record))
            &&& staged.durable_payloads == state.durable_payloads.insert(barrier, c)
            &&& said.len() > 0
            &&& said[0] == EffectView::Persist(
                BatchView {
                    barrier,
                    updates: seq![
                        payload_row(c, payload),
                        dependency_row(state.config.identity.epoch, c, record),
                    ],
                },
            )
            &&& votes_fast(state) ==> told_to_all(
                state,
                said,
                1,
                frame_of(
                    MessageView::FastAck(
                        FastAckView {
                            replica: state.config.identity.replica,
                            ballot: state.config.quorum.ballot,
                            command: c,
                            deps: record.deps,
                            paths: record.paths,
                            path: record.path,
                            admission: payload.admitted(hash),
                            seqnum: None,
                        },
                    ),
                ),
                barrier,
            )
            &&& !votes_fast(state) && state.sync_pending.dom() == Set::<CommandId>::empty()
                && state.held.dom() == Set::<CommandId>::empty() ==> said.len() == 1
        }),
{
    let digest = payload.admitted(hash);
    let room = state.table.opened(c);
    lemma_new_commands_follow_the_last_ones(room, hash, c, digest, conservative_keys());
    let table = room.with_initialized(hash, c, digest, conservative_keys());
    let record = table.records[c];
    let barrier = state.barrier();
    let ack = state.fast_ack(c, table, digest);
    let staged = state.voting(c, payload, table);
    let (next, said) = state.requested(hash, c, payload);
    if state.config.quorum.fast_eligible(state.config.identity.replica) {
        let first = FollowerView {
            deferred: state.deferred.insert(
                barrier,
                DeferredView { command: c, vote: VoteView::Fast(ack) },
            ),
            ..staged
        };
        lemma_acknowledged(
            state,
            first,
            c,
            barrier,
            MessageView::FastAck(ack),
            Pending::Vote(c),
        );
        let (voted, told) = first.acknowledged(c, barrier, MessageView::FastAck(ack));
        assert forall|i: int| 0 <= i < told.len() implies #[trigger] said[i + 1] == told[i] by {}
        let others = in_order::<ReplicaId>(state.config.identity.voters).filter(
            |v: ReplicaId| v != state.config.identity.replica,
        );
        assert forall|i: int| 1 <= i < 1 + others.len() implies {
            let send = #[trigger] said[i];
            &&& send is Publish
            &&& send->Publish_0.to.replica == others[i - 1]
            &&& send->Publish_0.frame == frame_of(MessageView::FastAck(ack))
            &&& rests_on(state, send->Publish_0.requires_durable, barrier)
        } by {
            assert(said[i - 1 + 1] == told[i - 1]);
        }
        assert(said[others.len() as int + 1] == told[others.len() as int]);
    } else {
        if state.sync_pending.dom() == Set::<CommandId>::empty() && state.held.dom() == Set::<
            CommandId,
        >::empty() {
            lemma_nothing_to_install(staged, hash);
            let installed = staged.sync_advanced(hash).0;
            lemma_nothing_to_adopt(installed, hash);
        }
    }
}

proof fn lemma_nothing_to_install<H: Fn(HashDomain, Vec<Vec<u8>>) -> Digest32>(
    state: FollowerView,
    hash: H,
)
    requires
        state.boot is Some,
        state.sync_pending.dom() == Set::<CommandId>::empty(),
    ensures
        state.sync_advanced(hash) == (state.learned(), Seq::<EffectView>::empty()),
{
    assert(state.installable() =~= Set::<CommandId>::empty());
    lemma_in_order::<CommandId>(state.installable());
    if in_order::<CommandId>(state.installable()).len() > 0 {
        let cs = in_order::<CommandId>(state.installable());
        assert(cs.contains(cs[0]));
    }
}

proof fn lemma_nothing_to_adopt<H: Fn(HashDomain, Vec<Vec<u8>>) -> Digest32>(
    state: FollowerView,
    hash: H,
)
    requires
        state.held.dom() == Set::<CommandId>::empty(),
    ensures
        state.pending_advanced(hash) == (state.learned(), Seq::<EffectView>::empty()),
{
    assert(state.adoptable() =~= Set::<CommandId>::empty());
    lemma_in_order::<CommandId>(state.adoptable());
    if in_order::<CommandId>(state.adoptable()).len() > 0 {
        let cs = in_order::<CommandId>(state.adoptable());
        assert(cs.contains(cs[0]));
    }
}

/// A held proposal is adopted as the leader ordered it: where the payload is
/// known, nothing is decided yet and every dependency of the proposal is at
/// ACCEPT, the record holds the leader's dependencies, anchors and path at
/// ACCEPT, a batch writes exactly that record, and a slow acknowledgement of it
/// is told to every other voter and the frontend, resting on the batch. No other
/// command changes.
pub proof fn lemma_adoption_takes_the_leaders_order<
    H: Fn(HashDomain, Vec<Vec<u8>>) -> Digest32,
>(state: FollowerView, hash: H, c: CommandId)
    requires
        state.boot is Some,
        state.pending.dom().finite(),
        state.held.contains_key(c),
        state.held[c].seqnum is Some,
        state.table.records.contains_key(c),
        state.table.records[c].payload is Some,
        state.table.records[c].phase.rank() <= Phase::Accept.rank(),
        all_reached(state.table, state.held[c].deps, Phase::Accept),
    ensures
        ({
            let (next, said) = state.adopt_one(hash, c);
            let p = state.held[c];
            let record = next.table.records[c];
            let barrier = state.barrier();
            &&& record.deps == p.deps && record.path == p.path && record.paths == p.paths
            &&& record.phase == Phase::Accept
            &&& record.payload == state.table.records[c].payload && record.keys
                == state.table.records[c].keys
            &&& untouched_but(state.table, next.table, c)
            &&& next.held == state.held.remove(c)
            &&& next.adopted == state.adopted.insert(c, (p.seqnum->0, false))
            &&& next.pending == state.pending.insert(barrier, Pending::Adoption(c))
            &&& next.ledger.staged == state.ledger.staged.insert(barrier, (c, record))
            &&& next.ledger.records == state.ledger.records
            &&& next.deferred == state.deferred.insert(
                barrier,
                DeferredView {
                    command: c,
                    vote: VoteView::Slow(
                        SlowAck {
                            replica: state.config.identity.replica,
                            ballot: state.config.quorum.ballot,
                            command: c,
                            admission: record.payload->0,
                        },
                    ),
                },
            )
            &&& said[0] == EffectView::Persist(
                BatchView {
                    barrier,
                    updates: seq![dependency_row(state.config.identity.epoch, c, record)],
                },
            )
            &&& told_to_all(
                state,
                said,
                1,
                frame_of(
                    MessageView::SlowAck(
                        SlowAck {
                            replica: state.config.identity.replica,
                            ballot: state.config.quorum.ballot,
                            command: c,
                            admission: record.payload->0,
                        },
                    ),
                ),
                barrier,
            )
        }),
{
    let p = state.held[c];
    lemma_adoption_takes_the_given_order(state.table, c, p.deps, p.paths, p.path);
    let table = state.ordered(c);
    let record = table.records[c];
    let barrier = state.barrier();
    let ack = SlowAck {
        replica: state.config.identity.replica,
        ballot: state.config.quorum.ballot,
        command: c,
        admission: record.payload->0,
    };
    let base = FollowerView { held: state.held.remove(c), table, ..state };
    let staged = FollowerView {
        adopted: state.adopted.insert(c, (p.seqnum->0, false)),
        pending: state.pending.insert(barrier, Pending::Adoption(c)),
        ledger: crate::summary::LedgerView {
            staged: state.ledger.staged.insert(barrier, (c, record)),
            ..state.ledger
        },
        deferred: state.deferred.insert(
            barrier,
            DeferredView { command: c, vote: VoteView::Slow(ack) },
        ),
        ..base
    }.allocated();
    lemma_acknowledged(
        state,
        staged,
        c,
        barrier,
        MessageView::SlowAck(ack),
        Pending::Adoption(c),
    );
    let (next, said) = state.adopt_one(hash, c);
    let told = staged.acknowledged(c, barrier, MessageView::SlowAck(ack)).1;
    let others = in_order::<ReplicaId>(state.config.identity.voters).filter(
        |v: ReplicaId| v != state.config.identity.replica,
    );
    assert forall|i: int| 0 <= i < told.len() implies #[trigger] said[i + 1] == told[i] by {}
    assert forall|i: int| 1 <= i < 1 + others.len() implies {
        let send = #[trigger] said[i];
        &&& send is Publish
        &&& send->Publish_0.to.replica == others[i - 1]
        &&& send->Publish_0.frame == frame_of(MessageView::SlowAck(ack))
        &&& rests_on(state, send->Publish_0.requires_durable, barrier)
    } by {
        assert(said[i - 1 + 1] == told[i - 1]);
    }
    assert(said[others.len() as int + 1] == told[others.len() as int]);
}

/// A selected entry is installed as it was selected: where the payload is known,
/// nothing is decided yet and every dependency of the entry is at ACCEPT, the
/// record holds the entry's dependencies, anchors and path, committed where the
/// entry is and its dependencies are committed here, and a batch writes exactly
/// that record.
pub proof fn lemma_entries_are_installed_as_selected<
    H: Fn(HashDomain, Vec<Vec<u8>>) -> Digest32,
>(state: FollowerView, hash: H, c: CommandId)
    requires
        state.boot is Some,
        state.sync_pending.contains_key(c),
        state.table.records.contains_key(c),
        state.table.records[c].payload is Some,
        state.table.records[c].phase.rank() <= Phase::Accept.rank(),
        all_reached(state.table, state.sync_pending[c].deps, Phase::Accept),
    ensures
        ({
            let (next, said) = state.install_one(hash, c);
            let e = state.sync_pending[c];
            let record = next.table.records[c];
            let barrier = state.barrier();
            &&& record.deps == e.deps && record.path == e.path && record.paths == e.paths
            &&& record.payload == state.table.records[c].payload
            &&& record.phase == (if e.phase == Phase::Commit && all_reached(
                state.table,
                e.deps,
                Phase::Commit,
            ) && !e.deps.contains(c) {
                Phase::Commit
            } else {
                Phase::Accept
            })
            &&& next.sync_pending == state.sync_pending.remove(c)
            &&& next.table.records.dom() == state.table.records.dom()
            &&& forall|x: CommandId|
                state.table.records.contains_key(x) && x != c ==> #[trigger] next.table.records[x]
                    == state.table.records[x]
            &&& next.pending == state.pending.insert(barrier, Pending::Adoption(c))
            &&& next.ledger.staged == state.ledger.staged.insert(barrier, (c, record))
            &&& next.ledger.records == state.ledger.records
            &&& said == seq![
                EffectView::Persist(
                    BatchView {
                        barrier,
                        updates: seq![dependency_row(state.config.identity.epoch, c, record)],
                    },
                ),
            ]
        }),
{
    let e = state.sync_pending[c];
    let aligned = state.table.with_leader_path(hash, c, e.seqnum, e.paths);
    assert forall|x: CommandId| #[trigger] aligned.phase_of(x) == state.table.phase_of(x) by {}
    assert(all_reached(aligned, e.deps, Phase::Accept));
    lemma_adoption_takes_the_given_order(aligned, c, e.deps, e.paths, e.path);
    let taken = aligned.adopted(c, e.deps, Some(e.paths), e.path);
    assert(aligned.records.dom() =~= state.table.records.dom());
    lemma_advancing_moves_one_command(taken, c, Phase::Commit);
    assert forall|x: CommandId| x != c implies #[trigger] taken.phase_of(x)
        == state.table.phase_of(x) by {
        assert(taken.records.dom().contains(x) <==> aligned.records.dom().contains(x));
        if aligned.records.contains_key(x) {
            assert(taken.records[x] == aligned.records[x]);
        }
    }
    if all_reached(taken, e.deps, Phase::Commit) {
        assert forall|i: int| 0 <= i < e.deps.len() implies state.table.phase_of(
            #[trigger] e.deps[i],
        ) is Some && state.table.phase_of(e.deps[i])->0.rank() >= Phase::Commit.rank() by {
            assert(taken.phase_of(e.deps[i]) is Some);
            assert(e.deps[i] != c);
        }
        assert(!e.deps.contains(c)) by {
            if e.deps.contains(c) {
                let i = choose|i: int| 0 <= i < e.deps.len() && e.deps[i] == c;
                assert(taken.phase_of(e.deps[i]) is Some);
            }
        }
    }
    if all_reached(state.table, e.deps, Phase::Commit) && !e.deps.contains(c) {
        assert forall|i: int| 0 <= i < e.deps.len() implies taken.phase_of(
            #[trigger] e.deps[i],
        ) is Some && taken.phase_of(e.deps[i])->0.rank() >= Phase::Commit.rank() by {
            assert(e.deps.contains(e.deps[i]));
            assert(state.table.phase_of(e.deps[i]) is Some);
        }
    }
}

/// A command decided here keeps the order it was decided in, whatever a
/// selection or a late proposal says.
pub proof fn lemma_decided_orders_stay<H: Fn(HashDomain, Vec<Vec<u8>>) -> Digest32>(
    state: FollowerView,
    hash: H,
    c: CommandId,
)
    requires
        state.table.records.contains_key(c),
        reached(state.table.phase_of(c), Phase::Commit),
    ensures
        state.sync_pending.contains_key(c) ==> {
            let next = state.install_one(hash, c).0;
            next.table.records[c].deps == state.table.records[c].deps && next.table.phase_of(c)
                == state.table.phase_of(c)
        },
        state.held.contains_key(c) ==> state.adopt_one(hash, c).0.table == state.table,
{
}

/// Nothing that could be adopted is left held: passes end where every held
/// proposal lacks its payload or a dependency at ACCEPT.
pub proof fn lemma_adoption_leaves_nothing_ready<H: Fn(HashDomain, Vec<Vec<u8>>) -> Digest32>(
    state: FollowerView,
    hash: H,
) -> (last: FollowerView)
    requires
        state.boot is Some,
        !state.ballots.fenced(),
        state.held.dom().finite(),
    ensures
        state.pending_advanced(hash).0 == last.learned(),
        forall|c: CommandId| #[trigger]
            last.held.contains_key(c) ==> !(last.table.initialized(c) && all_reached(
                last.table,
                last.held[c].deps,
                Phase::Accept,
            )),
    decreases state.held.dom().len(),
{
    let cs = in_order::<CommandId>(state.adoptable());
    assert(state.adoptable().subset_of(state.held.dom()));
    vstd::set_lib::lemma_len_subset(state.adoptable(), state.held.dom());
    lemma_in_order::<CommandId>(state.adoptable());
    if cs.len() == 0 {
        assert forall|c: CommandId| #[trigger] state.held.contains_key(c) implies !(
        state.table.initialized(c) && all_reached(state.table, state.held[c].deps, Phase::Accept)) by {
            if state.table.initialized(c) && all_reached(
                state.table,
                state.held[c].deps,
                Phase::Accept,
            ) {
                lemma_ready(state, c);
                assert(cs.contains(c));
            }
        }
        state
    } else {
        let next = state.adopt_each(hash, cs).0;
        crate::follower::lemma_adopt_round(state, hash);
        lemma_adopt_each_boot(state, hash, cs);
        lemma_adoption_leaves_nothing_ready(next, hash)
    }
}

proof fn lemma_adopt_each_boot<H: Fn(HashDomain, Vec<Vec<u8>>) -> Digest32>(
    state: FollowerView,
    hash: H,
    cs: Seq<CommandId>,
)
    requires
        state.boot is Some,
    ensures
        state.adopt_each(hash, cs).0.boot is Some,
        state.adopt_each(hash, cs).0.ballots == state.ballots,
    decreases cs.len(),
{
    if cs.len() > 0 {
        lemma_adopt_each_boot(state, hash, cs.drop_last());
    }
}

proof fn lemma_ready(state: FollowerView, c: CommandId)
    requires
        state.held.contains_key(c),
        state.table.initialized(c),
        all_reached(state.table, state.held[c].deps, Phase::Accept),
    ensures
        state.adoptable().contains(c),
{
    let deps = state.held[c].deps;
    crate::phase::lemma_guard_holds(deps, state.table.phases(), Phase::Accept);
    assert forall|i: int| 0 <= i < deps.len() implies (state.table.phases())(
        #[trigger] deps[i],
    ) is Some && (state.table.phases())(deps[i])->0.rank() >= Phase::Accept.rank() by {
        assert(state.table.phase_of(deps[i]) is Some);
    }
}

/// A Sync of the promised ballot from its leader is written before it counts:
/// the batch holds the selection and a promise row that raises the synchronized
/// ballot to it, and the selection waits for that batch.
pub proof fn lemma_syncs_are_written_first<H: Fn(HashDomain, Vec<Vec<u8>>) -> Digest32>(
    state: FollowerView,
    hash: H,
    d: SyncView,
)
    requires
        state.boot is Some,
        d.ballot == state.ballots.promised,
        d.ballot.epoch == state.config.identity.epoch,
        state.ballots.identity == state.config.identity,
        supersedes(d.ballot, state.ballots.synced),
        d.ballot != state.ballots.synced,
    ensures
        ({
            let (next, said) = state.sync_received(hash, d.ballot.leader, d);
            let barrier = state.barrier();
            &&& next.sync_barrier == Some((barrier, d))
            &&& next.ballots.synced == d.ballot
            &&& next.ballots.promised == state.ballots.promised
            &&& said == seq![
                EffectView::Persist(
                    BatchView {
                        barrier,
                        updates: seq![
                            sync_row(state.config.identity.epoch, d),
                            promise_row(
                                state.config.identity.epoch,
                                PromiseRecordV1 {
                                    promised: state.ballots.bound(),
                                    synced: d.ballot,
                                },
                            ),
                        ],
                    },
                ),
            ]
        }),
{
}

/// Once its row is durable a Sync changes the ballot: the replica votes in the
/// Sync's ballot with that ballot's fast set from there on, with no vote, held
/// proposal or adoption of the one before, and every selected entry is queued to
/// be installed.
pub proof fn lemma_syncs_change_the_ballot<H: Fn(HashDomain, Vec<Vec<u8>>) -> Digest32>(
    state: FollowerView,
    hash: H,
    d: SyncView,
)
    requires
        d.entries.dom().finite(),
        state.config.identity.voters.contains(d.ballot.leader),
        d.ballot.epoch == state.config.identity.epoch,
    ensures
        ({
            let next = state.switched(d);
            let queued = next.queued(hash, d.entries, in_order::<CommandId>(d.entries.dom()));
            &&& next.config.quorum.ballot == d.ballot
            &&& next.config.quorum.voters == state.config.identity.voters
            &&& next.config.quorum.epoch == state.config.identity.epoch
            &&& next.config.quorum.fast_set == default_fast_set(
                state.config.identity.voters,
                d.ballot.leader,
            )
            &&& next.config.identity == state.config.identity
            &&& next.votes.len() == 0 && next.held.len() == 0 && next.adopted.len() == 0
            &&& next.table == state.table && next.payloads == state.payloads && next.bindings
                == state.bindings && next.ledger == state.ledger
            &&& d.ballot.leader == state.config.identity.replica && state.campaign is Some
                ==> next.won == Some(d)
            &&& forall|c: CommandId|
                #![trigger queued.sync_pending.contains_key(c)]
                #![trigger queued.sync_pending[c]]
                (queued.sync_pending.contains_key(c) <==> d.entries.contains_key(c)
                    || state.sync_pending.contains_key(c)) && (d.entries.contains_key(c)
                    ==> queued.sync_pending[c] == d.entries[c])
        }),
{
    let order = in_order::<CommandId>(d.entries.dom());
    lemma_in_order::<CommandId>(d.entries.dom());
    lemma_queued(state.switched(d), hash, d.entries, order);
    let queued = state.switched(d).queued(hash, d.entries, order);
    assert forall|c: CommandId|
        #![trigger queued.sync_pending.contains_key(c)]
        #![trigger queued.sync_pending[c]]
        (queued.sync_pending.contains_key(c) <==> d.entries.contains_key(c)
            || state.sync_pending.contains_key(c)) && (d.entries.contains_key(c)
            ==> queued.sync_pending[c] == d.entries[c]) by {
        assert(order.contains(c) <==> d.entries.dom().contains(c));
    }
}

proof fn lemma_queued<H: Fn(HashDomain, Vec<Vec<u8>>) -> Digest32>(
    state: FollowerView,
    hash: H,
    entries: Map<CommandId, SyncEntryView>,
    order: Seq<CommandId>,
)
    ensures
        ({
            let queued = state.queued(hash, entries, order);
            forall|c: CommandId|
                #![trigger queued.sync_pending.contains_key(c)]
                #![trigger queued.sync_pending[c]]
                (queued.sync_pending.contains_key(c) <==> order.contains(c)
                    || state.sync_pending.contains_key(c)) && (order.contains(c)
                    ==> queued.sync_pending[c] == entries[c])
        }),
    decreases order.len(),
{
    if order.len() > 0 {
        let rest = order.drop_last();
        lemma_queued(state, hash, entries, rest);
        lemma_contains_last(order);
    }
}

proof fn lemma_contains_last(order: Seq<CommandId>)
    requires
        order.len() > 0,
    ensures
        forall|x: CommandId| #[trigger]
            order.contains(x) <==> order.drop_last().contains(x) || x == order.last(),
{
    let rest = order.drop_last();
    assert forall|x: CommandId| #[trigger] order.contains(x) <==> rest.contains(x) || x
        == order.last() by {
        if order.contains(x) {
            let i = choose|i: int| 0 <= i < order.len() && order[i] == x;
            if i < rest.len() {
                assert(rest[i] == x);
            }
        }
        if rest.contains(x) {
            let i = choose|i: int| 0 <= i < rest.len() && rest[i] == x;
            assert(order[i] == x);
        }
        assert(order[order.len() - 1] == order.last());
    }
}

/// What storage says of the row of a Sync decides it: once durable, the ballot
/// is switched to where the replica still promises it, and dropped where a later
/// promise took over; where the row failed nothing changes but the refusals.
pub proof fn lemma_sync_rows_settle<H: Fn(HashDomain, Vec<Vec<u8>>) -> Digest32>(
    state: FollowerView,
    hash: H,
    journal_seq: LocalJournalSeq,
    error: StorageError,
)
    requires
        state.sync_barrier is Some,
    ensures
        ({
            let (barrier, d) = state.sync_barrier->0;
            let durable = StorageEvent::JournalDurable { barrier, journal_seq };
            let failed = StorageEvent::Failed { barrier, error };
            let cleared = FollowerView { sync_barrier: None, ..state };
            &&& state.about_sync(durable) && state.about_sync(failed)
            &&& state.ballots.promised == d.ballot ==> state.sync_settled(hash, durable)
                == cleared.activated(hash, d)
            &&& state.ballots.promised != d.ballot ==> {
                let (next, said) = state.sync_settled(hash, durable);
                said.len() == 0 && next == (FollowerView { rejections: next.rejections, ..cleared })
            }
            &&& ({
                let (next, said) = state.sync_settled(hash, failed);
                said.len() == 0 && next == (FollowerView { rejections: next.rejections, ..cleared })
            })
        }),
{
}

/// The commands this replica lacks payloads of: exactly those it holds a
/// proposal, a selected entry or an adoption of without the payload, and those
/// its own campaign selected and it holds nothing for.
pub proof fn lemma_missing_payloads_are_all_named(state: FollowerView, c: CommandId)
    requires
        state.held.dom().finite(),
        state.sync_pending.dom().finite(),
        state.adopted.dom().finite(),
    ensures
        state.missing().contains(c) <==> (state.held.contains_key(c)
            || state.sync_pending.contains_key(c) || state.adopted.contains_key(c))
            && !state.payloads.contains_key(c) || state.campaign_missing().contains(c),
        state.missing().no_duplicates(),
{
    let all = state.held.dom().union(state.sync_pending.dom()).union(
        state.adopted.dom(),
    ).difference(state.payloads.dom()).union(state.campaign_missing().to_set());
    lemma_in_order::<CommandId>(all);
    assert(state.campaign_missing().to_set().contains(c) <==> state.campaign_missing().contains(c));
}

/// What a selection names that this replica holds nothing for, and whether it
/// can lead from the selection at all: it cannot where an entry depends on a
/// command the selection does not carry and this replica has not committed.
pub proof fn lemma_selections_are_checked(table: TableView, d: SyncView, c: CommandId)
    requires
        d.entries.dom().finite(),
        d.reproposed.finite(),
    ensures
        selection_missing(table, d).contains(c) <==> (d.entries.contains_key(c)
            || d.reproposed.contains(c)) && table.phase_of(c) is None,
        selection_gap(table, d) matches Some(g) ==> !d.entries.contains_key(g)
            && !d.reproposed.contains(g) && !reached(table.phase_of(g), Phase::Commit),
        selection_gap(table, d) is None && d.entries.contains_key(c) ==> forall|k: int|
            0 <= k < d.entries[c].deps.len() ==> {
                let x = #[trigger] d.entries[c].deps[k];
                d.entries.contains_key(x) || d.reproposed.contains(x) || reached(
                    table.phase_of(x),
                    Phase::Commit,
                )
            },
{
    let order = in_order::<CommandId>(d.entries.dom());
    lemma_in_order::<CommandId>(d.entries.dom());
    lemma_gap_over(table, d, order);
    let named = unknown_among(table, d.entries.dom());
    let again = unknown_among(table, d.reproposed);
    lemma_in_order::<CommandId>(named);
    lemma_in_order::<CommandId>(again);
    let a = in_order::<CommandId>(named);
    let b = in_order::<CommandId>(again);
    let all = a + b;
    if all.contains(c) {
        let i = choose|i: int| 0 <= i < all.len() && all[i] == c;
        if i < a.len() {
            assert(a.contains(a[i]));
        } else {
            assert(b.contains(b[i - a.len()]));
        }
    }
    if a.contains(c) {
        let i = choose|i: int| 0 <= i < a.len() && a[i] == c;
        assert(all[i] == c);
    }
    if b.contains(c) {
        let i = choose|i: int| 0 <= i < b.len() && b[i] == c;
        assert(all[a.len() + i] == c);
    }
    if d.entries.contains_key(c) {
        assert(order.contains(c));
    }
}

proof fn lemma_gap_in(table: TableView, d: SyncView, deps: Seq<CommandId>)
    ensures
        gap_in(table, d, deps) matches Some(g) ==> uncarried(table, d, g),
        gap_in(table, d, deps) is None <==> forall|k: int|
            0 <= k < deps.len() ==> !uncarried(table, d, #[trigger] deps[k]),
    decreases deps.len(),
{
    if deps.len() > 0 {
        let rest = deps.drop_last();
        lemma_gap_in(table, d, rest);
        if gap_in(table, d, deps) is None {
            assert forall|k: int| 0 <= k < deps.len() implies !uncarried(
                table,
                d,
                #[trigger] deps[k],
            ) by {
                if k < rest.len() {
                    assert(rest[k] == deps[k]);
                }
            }
        } else if forall|k: int| 0 <= k < deps.len() ==> !uncarried(table, d, #[trigger] deps[k]) {
            assert forall|k: int| 0 <= k < rest.len() implies !uncarried(
                table,
                d,
                #[trigger] rest[k],
            ) by {
                assert(rest[k] == deps[k]);
            }
            assert(deps[deps.len() - 1] == deps.last());
        }
    }
}

proof fn lemma_gap_over(table: TableView, d: SyncView, order: Seq<CommandId>)
    ensures
        gap_over(table, d, order) matches Some(g) ==> uncarried(table, d, g),
        gap_over(table, d, order) is None ==> forall|c: CommandId, k: int|
            #![trigger order.contains(c), d.entries[c].deps[k]]
            order.contains(c) && 0 <= k < d.entries[c].deps.len() ==> !uncarried(
                table,
                d,
                d.entries[c].deps[k],
            ),
    decreases order.len(),
{
    if order.len() > 0 {
        lemma_gap_over(table, d, order.drop_last());
        lemma_gap_in(table, d, d.entries[order.last()].deps);
        lemma_contains_last(order);
    }
}

/// Payloads are asked for by name: the ask names a bounded run of what is
/// missing from where the last ask stopped, goes to the replica named, or, while
/// a campaign of this replica waits for its own selection, to every other
/// replica that promised it, and is what is outstanding from there on.
pub proof fn lemma_payload_asks_name_what_is_missing(state: FollowerView, from: ReplicaId)
    requires
        state.boot is Some,
        state.campaign is Some ==> state.campaign->0.promised.finite(),
    ensures
        ({
            let (next, said) = state.payloads_requested(from);
            let waiting = state.campaign_missing();
            let wanted = if waiting.len() > 0 {
                waiting
            } else {
                state.missing()
            };
            let commands = payload_batch(wanted, state.payload_cursor).0;
            let own = waiting.len() > 0 && state.campaign is Some;
            let n = wanted.len() as int;
            &&& forall|k: int|
                0 <= k < commands.len() ==> #[trigger] commands[k] == wanted[if n
                    <= MAX_PAYLOAD_TRANSFER {
                    k
                } else {
                    (state.payload_cursor as int % n + k) % n
                }]
            &&& commands.len() == (if n <= MAX_PAYLOAD_TRANSFER {
                n
            } else {
                MAX_PAYLOAD_TRANSFER as int
            })
            &&& next.payload_cursor == payload_batch(wanted, state.payload_cursor).1
            &&& n > 0 && !own ==> said.len() == 1 && said[0] is Publish
                && said[0]->Publish_0.to.replica == from
            &&& said.len() > 0 ==> next.payloads_asked == commands.to_set()
            &&& said.len() == 0 ==> next.payloads_asked == state.payloads_asked
            &&& forall|i: int|
                0 <= i < said.len() ==> (#[trigger] said[i]) is Publish
                    && said[i]->Publish_0.frame == frame_of(
                    MessageView::PayloadRequest { commands },
                )
            &&& n == 0 ==> said.len() == 0
            &&& own ==> forall|r: ReplicaId| #[trigger]
                state.campaign->0.promised.contains(r) && r != state.config.identity.replica
                    ==> exists|i: int|
                    0 <= i < said.len() && (#[trigger] said[i])->Publish_0.to.replica == r
        }),
{
    let boot = state.boot->0;
    let waiting = state.campaign_missing();
    let wanted = if waiting.len() > 0 {
        waiting
    } else {
        state.missing()
    };
    let me = state.config.identity.replica;
    let own = waiting.len() > 0 && state.campaign is Some;
    let sources = if own {
        in_order::<ReplicaId>(state.campaign->0.promised.remove(me))
    } else {
        seq![from]
    };
    let commands = payload_batch(wanted, state.payload_cursor).0;
    let frame = frame_of(MessageView::PayloadRequest { commands });
    lemma_asks(state, boot, sources, frame);
    let n = wanted.len() as int;
    if n > MAX_PAYLOAD_TRANSFER {
        let start = state.payload_cursor as int % n;
        assert(0 <= start < n) by (nonlinear_arith)
            requires
                n > 0,
                start == state.payload_cursor as int % n,
        ;
        let turned = wanted.skip(start) + wanted.take(start);
        assert forall|k: int| 0 <= k < commands.len() implies #[trigger] commands[k] == wanted[(
        start + k) % n] by {
            if k < n - start {
                assert(turned[k] == wanted[start + k]);
                assert((start + k) % n == start + k) by (nonlinear_arith)
                    requires
                        0 <= start + k < n,
                ;
            } else {
                assert(turned[k] == wanted[k - (n - start)]);
                assert((start + k) % n == start + k - n) by (nonlinear_arith)
                    requires
                        n <= start + k < 2 * n,
                ;
            }
        }
    }
    if own {
        lemma_in_order::<ReplicaId>(state.campaign->0.promised.remove(me));
        let said = state.payloads_requested(from).1;
        assert forall|r: ReplicaId| #[trigger]
            state.campaign->0.promised.contains(r) && r != me implies exists|i: int|
            0 <= i < said.len() && (#[trigger] said[i])->Publish_0.to.replica == r by {
            assert(sources.contains(r));
            let i = choose|i: int| 0 <= i < sources.len() && sources[i] == r;
            assert(said[i]->Publish_0.to.replica == r);
        }
    }
}

proof fn lemma_asks(state: FollowerView, boot: BootView, to: Seq<ReplicaId>, frame: Seq<u8>)
    ensures
        asked_of(state, boot, to, frame).len() == to.len(),
        forall|i: int|
            0 <= i < to.len() ==> {
                let send = #[trigger] asked_of(state, boot, to, frame)[i];
                send is Publish && send->Publish_0.to.replica == to[i] && send->Publish_0.frame
                    == frame && send->Publish_0.requires_durable.len() == 0
            },
    decreases to.len(),
{
    if to.len() > 0 {
        lemma_asks(state, boot, to.drop_last(), frame);
    }
}

/// Commands of a list whose payload this replica may serve.
pub open spec fn servable(state: FollowerView, commands: Seq<CommandId>) -> Seq<CommandId> {
    commands.filter(
        |c: CommandId| state.payloads.contains_key(c) && state.served_payloads.contains(c),
    )
}

proof fn lemma_served(
    state: FollowerView,
    boot: BootView,
    to: ReplicaId,
    commands: Seq<CommandId>,
)
    ensures
        ({
            let said = payloads_served(state, boot, to, commands);
            let list = servable(state, commands);
            &&& said.len() == (if list.len() < MAX_PAYLOAD_TRANSFER {
                list.len() as int
            } else {
                MAX_PAYLOAD_TRANSFER as int
            })
            &&& forall|i: int|
                0 <= i < said.len() ==> {
                    let send = #[trigger] said[i];
                    &&& send is Publish
                    &&& send->Publish_0.to.replica == to
                    &&& send->Publish_0.requires_durable.len() == 0
                    &&& send->Publish_0.frame == frame_of(
                        MessageView::PayloadResponse {
                            command: list[i],
                            payload: state.payloads[list[i]],
                        },
                    )
                }
        }),
    decreases commands.len(),
{
    reveal(Seq::filter);
    if commands.len() > 0 {
        lemma_served(state, boot, to, commands.drop_last());
    }
}

/// A payload request is answered to whoever asked, in the order asked, with one
/// response for each listed command whose payload is held and durable here, up
/// to the bound, and with nothing for any other.
pub proof fn lemma_requested_payloads_are_served<
    H: Fn(HashDomain, Vec<Vec<u8>>) -> Digest32,
    D: Fn(RetryKey, Vec<u8>) -> Option<crate::machine::Derived>,
>(
    state: FollowerView,
    hash: H,
    derive: D,
    from: PeerId,
    frame: Seq<u8>,
    commands: Seq<CommandId>,
)
    requires
        state.boot is Some,
        message_in(frame) == Ok::<MessageView, crate::codec::DecodeError>(
            MessageView::PayloadRequest { commands },
        ),
    ensures
        ({
            let (next, said) = state.received(hash, derive, from, frame);
            let list = servable(state, commands);
            &&& next == state
            &&& said.len() == (if list.len() < MAX_PAYLOAD_TRANSFER {
                list.len() as int
            } else {
                MAX_PAYLOAD_TRANSFER as int
            })
            &&& forall|i: int|
                0 <= i < said.len() ==> {
                    let send = #[trigger] said[i];
                    &&& send is Publish
                    &&& send->Publish_0.to.replica == from.replica
                    &&& send->Publish_0.requires_durable.len() == 0
                    &&& send->Publish_0.frame == frame_of(
                        MessageView::PayloadResponse {
                            command: list[i],
                            payload: state.payloads[list[i]],
                        },
                    )
                }
        }),
{
    lemma_served(state, state.boot->0, from.replica, commands);
}

/// Once a batch of this replica is durable its record is a durable fact, its
/// adoption is durable, and its vote is presented to the command's votes; where
/// the batch failed none of this happens. Nothing else that is in flight changes.
pub proof fn lemma_batches_settle(
    state: FollowerView,
    barrier: BarrierId,
    journal_seq: LocalJournalSeq,
    error: StorageError,
)
    requires
        state.pending.contains_key(barrier),
    ensures
        ({
            let next = state.batch_settled(StorageEvent::JournalDurable { barrier, journal_seq });
            &&& next.pending == state.pending.remove(barrier)
            &&& next.deferred == state.deferred.remove(barrier)
            &&& next.table == state.table && next.held == state.held && next.payloads
                == state.payloads
            &&& state.pending[barrier] matches Pending::Adoption(c) ==> state.adopted.contains_key(
                c,
            ) ==> next.adopted == state.adopted.insert(c, (state.adopted[c].0, true))
            &&& state.pending[barrier] is Vote ==> next.adopted == state.adopted
            &&& state.ledger.staged.contains_key(barrier) && !(state.ledger.sequences.contains_key(
                state.ledger.staged[barrier].0,
            ) && state.ledger.sequences[state.ledger.staged[barrier].0].0 > journal_seq.0)
                ==> next.ledger.records == state.ledger.records.insert(
                state.ledger.staged[barrier].0,
                state.ledger.staged[barrier].1,
            )
            &&& state.deferred.contains_key(barrier) && state.votes.contains_key(
                state.deferred[barrier].command,
            ) ==> next.votes == state.votes.insert(
                state.deferred[barrier].command,
                state.votes[state.deferred[barrier].command].presented(
                    state.deferred[barrier].vote,
                ),
            )
        }),
        ({
            let next = state.batch_settled(StorageEvent::Failed { barrier, error });
            &&& next.pending == state.pending.remove(barrier)
            &&& next.deferred == state.deferred.remove(barrier)
            &&& next.ledger.records == state.ledger.records
            &&& !next.ledger.staged.contains_key(barrier)
            &&& next.votes == state.votes && next.adopted == state.adopted && next.table
                == state.table
            &&& next.rejections == state.rejections.push(
                RefusalView::BatchFailed(state.pending[barrier].of()),
            )
        }),
{
}

/// What this replica reports of a command: what its durable record says, or the
/// selected entry where none is; committed where it was executed here.
pub proof fn lemma_reports_say_what_is_durable(state: FollowerView, c: CommandId)
    ensures
        ({
            let e = state.report_entry(c);
            let r = state.ledger.records[c];
            let recorded = state.ledger.records.contains_key(c) && r.payload is Some;
            let executed = state.table.phase_of(c) == Some(Phase::Executed);
            &&& e.command == c
            &&& recorded ==> {
                &&& e.deps == r.deps && e.path == r.path && e.paths == r.paths && e.keys == r.keys
                &&& e.payload_present
                &&& e.phase == (if executed && r.phase.rank() < Phase::Commit.rank() {
                    Phase::Commit
                } else {
                    r.phase
                })
            }
            &&& !recorded && state.sync_pending.contains_key(c) ==> {
                let p = state.sync_pending[c];
                &&& e.deps == p.deps && e.path == p.path && e.paths == p.paths && e.seqnum
                    == p.seqnum
                &&& !e.payload_present
                &&& e.phase == (if executed && p.phase.rank() < Phase::Commit.rank() {
                    Phase::Commit
                } else {
                    p.phase
                })
            }
        }),
{
}

/// A report goes out only when everything before its cut is durable, and once:
/// to the candidate it was owed to, page by page and complete, or to this
/// replica's own campaign, which counts this replica as having promised.
pub proof fn lemma_reports_wait_for_their_cut<H: Fn(HashDomain, Vec<Vec<u8>>) -> Digest32>(
    state: FollowerView,
    hash: H,
    k: int,
    j: int,
)
    requires
        state.report_due is Some,
        state.boot is Some,
    ensures
        ({
            let due = state.report_due->0;
            let (next, said) = state.report_delivered(hash);
            let durable = state.boot->0.settled.durable;
            let report = state.report(due.ballot);
            let all = forall|j: int|
                0 <= j < due.requires_durable.len() ==> durable.contains(
                    #[trigger] due.requires_durable[j],
                );
            let own = due.to.replica == state.config.identity.replica;
            &&& 0 <= k < due.requires_durable.len() && !durable.contains(due.requires_durable[k])
                ==> next == state && said.len() == 0
            &&& all && !own ==> {
                &&& next == (FollowerView { report_due: None, ..state })
                &&& said.len() > 0
                &&& forall|i: int|
                    0 <= i < said.len() ==> (#[trigger] said[i]) is Publish
                        && said[i]->Publish_0.to == due.to
                &&& 0 <= j < report.entries.len() < u32::MAX ==> j / 256 < said.len() && exists|page:
                    PageView|
                    said[j / 256]->Publish_0.frame == #[trigger] frame_of(
                        MessageView::ReportPage(page),
                    ) && page.page == j / 256 as int && page.entries.len() > j % 256
                        && page.entries[j % 256] == report.entries[j] && page.replica
                        == report.replica && page.ballot == due.ballot
                        && page.committed_ballot == report.committed_ballot
            }
            &&& all && own && state.campaign is Some && state.campaign->0.config.ballot
                == due.ballot ==> (next, said) == (FollowerView {
                report_due: None,
                campaign: Some(
                    CampaignView {
                        promised: state.campaign->0.promised.insert(report.replica),
                        own: Some(report),
                        ..state.campaign->0
                    },
                ),
                ..state
            }).campaign_advanced(hash)
        }),
{
    let due = state.report_due->0;
    if 0 <= k < due.requires_durable.len() {
        assert(due.requires_durable.contains(due.requires_durable[k]));
    }
    let report = state.report(due.ballot);
    let context = state.ballots.context(state.boot->0.id, due.ballot);
    lemma_reports_are_sent_whole(hash, context, due.to, report, j);
}

/// A report is sent whole: page after page, each entry on the page its place
/// falls on, every page under the report's replica and ballots and numbered in
/// order.
pub proof fn lemma_reports_are_sent_whole<H: Fn(HashDomain, Vec<Vec<u8>>) -> Digest32>(
    hash: H,
    context: EffectContext,
    to: PeerId,
    report: ReportView,
    j: int,
)
    ensures
        ({
            let said = report_published(hash, context, to, report);
            &&& said.len() > 0
            &&& forall|i: int|
                0 <= i < said.len() ==> (#[trigger] said[i]) is Publish && said[i]->Publish_0.to
                    == to
            &&& 0 <= j < report.entries.len() && report.entries.len() < u32::MAX ==> j / 256
                < said.len() && exists|page: PageView|
                said[j / 256]->Publish_0.frame == #[trigger] frame_of(
                    MessageView::ReportPage(page),
                ) && page.page == j / 256 as int && page.entries.len() > j % 256
                    && page.entries[j % 256] == report.entries[j] && page.replica
                    == report.replica && page.ballot == report.ballot && page.committed_ballot
                    == report.committed_ballot
        }),
{
    reveal(report_published);
    let said = report_published(hash, context, to, report);
    let n = report.entries.len() as int;
    if 0 <= j < n && n < u32::MAX {
        let i = j / 256;
        let page = page_of(hash, report, 256, i);
        assert(said[i]->Publish_0.frame == frame_of(MessageView::ReportPage(page)));
    }
}

/// A campaign begins with this replica's own promise: it is written first, every
/// other voter is asked to follow once it is durable, and this replica's report
/// is owed to itself; nothing is promised, reported or selected yet.
pub proof fn lemma_campaigns_begin_with_a_promise(state: FollowerView, ballot: Ballot)
    requires
        state.boot is Some,
        state.behind is None,
        ballot.leader == state.config.identity.replica,
        ballot.epoch == state.config.identity.epoch,
        state.config.identity.voters.contains(ballot.leader),
        state.ballots.promise_refusal(
            PeerId {
                replica: state.config.identity.replica,
                incarnation: state.config.identity.incarnation,
            },
            ballot,
        ) is None,
    ensures
        ({
            let (next, said) = state.campaigning(ballot);
            let barrier = state.barrier();
            let others = in_order::<ReplicaId>(state.config.identity.voters).filter(
                |v: ReplicaId| v != state.config.identity.replica,
            );
            &&& next.campaign is Some
            &&& next.campaign->0.config.ballot == ballot
            &&& next.campaign->0.config.voters == state.config.identity.voters
            &&& next.campaign->0.promised == Set::<ReplicaId>::empty()
            &&& next.campaign->0.own is None && next.campaign->0.decision is None
            &&& !next.campaign->0.durable && !next.campaign->0.published
            &&& next.report_due is Some && next.report_due->0.ballot == ballot
                && next.report_due->0.to.replica == state.config.identity.replica
            &&& !next.may_vote()
            &&& said.len() == 1 + others.len()
            &&& said[0] is Persist && said[0]->Persist_0.barrier == barrier
            &&& said[0]->Persist_0.updates == seq![
                promise_row(
                    state.ballots.identity.epoch,
                    PromiseRecordV1 { promised: ballot, synced: state.ballots.synced },
                ),
            ]
            &&& forall|i: int|
                1 <= i < said.len() ==> {
                    let send = #[trigger] said[i];
                    &&& send is Publish
                    &&& send->Publish_0.to.replica == others[i - 1]
                    &&& send->Publish_0.frame == frame_of(MessageView::NewLeader { ballot })
                    &&& send->Publish_0.requires_durable == seq![barrier]
                }
        }),
{
    let context = state.ballots.context(state.boot->0.id, ballot);
    let frame = frame_of(MessageView::NewLeader { ballot });
    lemma_broadcasts_reach_every_other_voter(
        context,
        seq![state.barrier()],
        in_order::<ReplicaId>(state.config.identity.voters),
        state.config.identity.replica,
        frame,
    );
    let sends = broadcast_of(context, seq![state.barrier()], state.config.identity, frame);
    let said = state.campaigning(ballot).1;
    assert forall|i: int| 1 <= i < said.len() implies #[trigger] said[i] == sends[i - 1] by {}
}

/// A promise counts for the campaign of its own ballot only, and only as the
/// voter that sent it.
pub proof fn lemma_promises_count_for_their_campaign<
    H: Fn(HashDomain, Vec<Vec<u8>>) -> Digest32,
>(state: FollowerView, hash: H, from: PeerId, ballot: Ballot, replica: ReplicaId)
    requires
        state.campaign is Some,
        state.campaign->0.decision is None,
    ensures
        ({
            let counted = state.campaign->0.config.ballot == ballot && replica == from.replica;
            let told = CampaignView {
                promised: if counted && state.campaign->0.config.voters.contains(replica) {
                    state.campaign->0.promised.insert(replica)
                } else {
                    state.campaign->0.promised
                },
                ..state.campaign->0
            };
            state.promise_received(hash, from, ballot, replica) == (FollowerView {
                campaign: Some(told),
                ..state
            }).campaign_advanced(hash)
        }),
{
    let counted = state.campaign->0.config.ballot == ballot && replica == from.replica;
    let told = CampaignView {
        promised: if counted && state.campaign->0.config.voters.contains(replica) {
            state.campaign->0.promised.insert(replica)
        } else {
            state.campaign->0.promised
        },
        ..state.campaign->0
    };
    if !counted {
        assert(told == state.campaign->0);
        assert((FollowerView { campaign: Some(told), ..state }) == state);
    } else if !state.campaign->0.config.voters.contains(replica) {
        assert(told == state.campaign->0);
        assert((FollowerView { campaign: Some(told), ..state }) == state);
    }
}

/// A selection is written before it is published: while it is not durable the
/// candidate tells nobody of it, and what is written is what was selected, with
/// what was executed here as committed.
pub proof fn lemma_selections_are_bound_first(state: FollowerView, i: int)
    requires
        state.boot is Some,
        state.campaign is Some,
        state.campaign->0.decision is Some,
        selection_gap(state.table, state.campaign->0.decision->0) is None,
        selection_missing(state.table, state.campaign->0.decision->0).len() == 0,
    ensures
        ({
            let (next, said) = state.bound_selection();
            let d = state.campaign->0.decision->0;
            let written = next.campaign->0.decision->0;
            &&& said == seq![
                EffectView::Persist(
                    BatchView {
                        barrier: state.barrier(),
                        updates: seq![sync_row(state.config.identity.epoch, written)],
                    },
                ),
            ]
            &&& next.campaign->0.bound == Some(state.barrier())
            &&& written.ballot == d.ballot && written.reproposed == d.reproposed
            &&& written.entries.dom() == d.entries.dom()
            &&& forall|c: CommandId| #[trigger]
                d.entries.contains_key(c) ==> written.entries[c] == (if state.table.phase_of(c)
                    == Some(Phase::Executed) {
                    SyncEntryView {
                        phase: Phase::Commit,
                        deps: if state.table.records.contains_key(c) {
                            state.table.records[c].deps
                        } else {
                            d.entries[c].deps
                        },
                        ..d.entries[c]
                    }
                } else {
                    d.entries[c]
                })
        }),
{
    let d = state.campaign->0.decision->0;
    let written = state.bound_selection().0.campaign->0.decision->0;
    assert(written.entries.dom() =~= d.entries.dom());
}

/// A campaign is given up where this replica is behind its own selection, and it
/// does not campaign again this boot.
pub proof fn lemma_replicas_behind_do_not_lead(state: FollowerView, ballot: Ballot)
    requires
        state.campaign is Some,
        state.campaign->0.decision is Some,
        selection_gap(state.table, state.campaign->0.decision->0) is Some,
    ensures
        ({
            let (next, said) = state.bound_selection();
            &&& said.len() == 0
            &&& next.campaign is None
            &&& next.behind == selection_gap(state.table, state.campaign->0.decision->0)
            &&& next.campaigning(ballot).1.len() == 0
            &&& next.campaigning(ballot).0.campaign is None
        }),
{
}

/// A follower asked to promise writes the promise and answers the candidate once
/// that is durable, with everything before it; it owes that candidate a report,
/// votes no more in the ballot it had, and drops what it kept for another.
pub proof fn lemma_promises_are_written_and_answered(
    state: FollowerView,
    from: PeerId,
    ballot: Ballot,
)
    requires
        state.boot is Some,
        state.ballots.promise_refusal(from, ballot) is None,
    ensures
        ({
            let (next, said) = state.asked_to_promise(from, ballot);
            let reply = said[1]->Publish_0;
            &&& said.len() == 2 && said[0] is Persist && said[1] is Publish
            &&& said[0]->Persist_0.barrier == state.barrier()
            &&& said[0]->Persist_0.updates == seq![
                promise_row(
                    state.ballots.identity.epoch,
                    PromiseRecordV1 { promised: ballot, synced: state.ballots.synced },
                ),
            ]
            &&& reply.to == from
            &&& reply.frame == frame_of(
                MessageView::Promise {
                    ballot,
                    synced: state.ballots.synced,
                    replica: state.ballots.identity.replica,
                },
            )
            &&& reply.requires_durable == state.cut().push(state.barrier())
            &&& next.report_due is Some
            &&& next.report_due->0.ballot == ballot && next.report_due->0.to == from
            &&& next.report_due->0.requires_durable == reply.requires_durable
            &&& next.awaiting_sync.len() == 0
            &&& !next.may_vote()
            &&& next.ballots.promised == state.ballots.promised
        }),
{
}

/// The batches a report waits for are all those in flight, and the row of a Sync
/// in flight.
pub proof fn lemma_cuts_are_everything_in_flight(state: FollowerView, b: BarrierId)
    requires
        state.pending.dom().finite(),
    ensures
        state.cut().contains(b) <==> state.pending.contains_key(b) || (state.sync_barrier matches
            Some((s, _)) && s == b),
{
    lemma_in_order::<BarrierId>(state.pending.dom());
    let open = in_order::<BarrierId>(state.pending.dom());
    let cut = state.cut();
    if cut.contains(b) {
        let i = choose|i: int| 0 <= i < cut.len() && cut[i] == b;
        if i < open.len() {
            assert(open.contains(open[i]));
        }
    }
    if open.contains(b) {
        let i = choose|i: int| 0 <= i < open.len() && open[i] == b;
        assert(cut[i] == b);
    }
    if let Some((s, _)) = state.sync_barrier {
        assert(cut[cut.len() - 1] == s);
    }
}

/// Messages of the promised ballot that come before its Sync are kept in the
/// order they came, as many as there is room for, and nothing else happens.
pub proof fn lemma_early_votes_are_kept<
    H: Fn(HashDomain, Vec<Vec<u8>>) -> Digest32,
    D: Fn(RetryKey, Vec<u8>) -> Option<crate::machine::Derived>,
>(state: FollowerView, hash: H, derive: D, from: PeerId, frame: Seq<u8>, a: SlowAck)
    requires
        message_in(frame) == Ok::<MessageView, crate::codec::DecodeError>(MessageView::SlowAck(a)),
        a.ballot == state.ballots.promised,
        a.ballot != state.config.quorum.ballot,
        state.ballots.in_flight.len() == 0,
        state.awaiting_sync.len() < state.config.capacity,
    ensures
        ({
            let (next, said) = state.received(hash, derive, from, frame);
            &&& said.len() == 0
            &&& next == (FollowerView { awaiting_sync: next.awaiting_sync, ..state })
            &&& next.awaiting_sync == state.awaiting_sync.push(
                (from.replica, MessageView::SlowAck(a)),
            )
        }),
{
}

/// A peer's vote counts for what it says, from the first one on: it is presented
/// to the command's votes, opened where there were none, under its own sender
/// only; no other command's votes change.
pub proof fn lemma_peer_votes_are_counted(state: FollowerView, from: ReplicaId, vote: VoteView)
    requires
        state.votes.dom().finite(),
    ensures
        ({
            let next = state.collected(from, vote);
            let c = vote.command();
            &&& vote.replica() != from ==> next.votes == state.votes && next.table == state.table
            &&& vote.replica() == from && state.votes.contains_key(c) ==> next.votes
                == state.votes.insert(c, state.votes[c].presented(vote))
            &&& vote.replica() == from && !state.votes.contains_key(c) ==> next.votes
                == state.votes.insert(
                c,
                VoteSetView::empty(state.config.quorum, c).presented(vote),
            )
        }),
{
}

/// A proposal is taken only from the leader of the ballot this replica votes in,
/// under the leader's own name, for that ballot and with a place in its order;
/// any other is refused, and nothing but the refusals changes.
pub proof fn lemma_only_the_leader_proposes<H: Fn(HashDomain, Vec<Vec<u8>>) -> Digest32>(
    state: FollowerView,
    hash: H,
    from: ReplicaId,
    p: FastAckView,
)
    requires
        from != state.config.quorum.ballot.leader || p.replica != from || p.ballot
            != state.config.quorum.ballot || p.seqnum is None,
    ensures
        ({
            let (next, said) = state.proposal_received(hash, from, p);
            &&& said.len() == 0
            &&& next == (FollowerView { rejections: next.rejections, ..state })
            &&& next.rejections.len() == state.rejections.len() + 1
        }),
{
}

/// A proposal is held as it came: the leader's word is presented to the
/// command's votes and kept until the payload and the dependencies are here.
pub proof fn lemma_proposals_are_held(state: FollowerView, p: FastAckView)
    ensures
        ({
            let next = state.holding(p);
            &&& next.held == state.held.insert(p.command, p)
            &&& next.votes.contains_key(p.command)
            &&& next.votes[p.command] == (if state.votes.contains_key(p.command) {
                state.votes[p.command]
            } else {
                VoteSetView::empty(state.config.quorum, p.command)
            }).presented(VoteView::Fast(p))
            &&& next.table == state.table && next.adopted == state.adopted
        }),
{
}

/// A proposal for a command decided here is acknowledged again to the leader
/// where the durable record holds exactly the proposed dependencies and digest,
/// and not answered where it holds anything else.
pub proof fn lemma_decided_commands_are_acknowledged(
    state: FollowerView,
    p: FastAckView,
    leader: ReplicaId,
)
    requires
        state.boot is Some,
    ensures
        ({
            let said = state.decided_answer(p, leader);
            let same = state.ledger.records.contains_key(p.command) && (forall|x: CommandId|
                #[trigger]
                state.ledger.records[p.command].deps.contains(x) <==> p.deps.contains(x))
                && state.ledger.records[p.command].payload == Some(p.admission);
            &&& !same ==> said.len() == 0
            &&& same ==> {
                &&& said.len() == 1 && said[0] is Publish
                &&& said[0]->Publish_0.to.replica == leader
                &&& said[0]->Publish_0.requires_durable.len() == 0
                &&& said[0]->Publish_0.frame == frame_of(
                    MessageView::SlowAck(
                        SlowAck {
                            replica: state.config.identity.replica,
                            ballot: state.config.quorum.ballot,
                            command: p.command,
                            admission: p.admission,
                        },
                    ),
                )
            }
        }),
{
    let a = state.ledger.records[p.command].deps;
    if forall|x: CommandId| #[trigger] a.contains(x) <==> p.deps.contains(x) {
        assert(a.to_set() =~= p.deps.to_set()) by {
            assert forall|x: CommandId| #[trigger] a.to_set().contains(x) <==> p.deps.to_set().contains(x) by {
                assert(a.contains(x) <==> p.deps.contains(x));
            }
        }
    }
    if a.to_set() == p.deps.to_set() {
        assert forall|x: CommandId| #[trigger] a.contains(x) <==> p.deps.contains(x) by {
            assert(a.to_set().contains(x) <==> p.deps.to_set().contains(x));
        }
    }
}

/// An application moves the frontier by one: the command is executed here, the
/// frontier is its position, and what is established says the command, the
/// position, the outcome's digest and revision, the ballot it was decided under,
/// and whether it was fast.
pub proof fn lemma_applications_are_established_as_they_were(
    state: FollowerView,
    seal: Sealing,
    c: CommandId,
    outcome: OutcomeView,
)
    requires
        state.apply_refusal(seal, c, outcome) is None,
        state.votes.dom().finite(),
    ensures
        ({
            let (next, said) = state.applied(seal, c, outcome);
            let e = said[0]->Established_0;
            &&& said.len() == 1 && said[0] is Established
            &&& e.command == c && e.position == outcome.position && e.result_digest
                == outcome.result_digest && e.revision == outcome.revision
            &&& e.epoch == state.config.identity.epoch && e.ballot == state.config.quorum.ballot
            &&& e.fast_path <==> state.learner.fast.contains(c)
            &&& next.learner.executed_through.0 == state.learner.executed_through.0 + 1
            &&& next.learner.executed_through == outcome.position
        }),
{
    crate::learner::lemma_execution_in_order(
        state.learner,
        state.table,
        c,
        outcome.position,
    );
}

/// The history is forgotten and nothing else: what is neither recorded nor
/// executed, and what is recorded, keeps its payload, votes and durable record.
pub proof fn lemma_only_history_is_forgotten(state: FollowerView, c: CommandId)
    ensures
        ({
            let next = state.swept();
            &&& is_history(state.table, c) ==> !next.payloads.contains_key(c)
                && !next.votes.contains_key(c) && !next.adopted.contains_key(c)
                && !next.served_payloads.contains(c) && !next.ledger.records.contains_key(c)
            &&& !is_history(state.table, c) ==> {
                &&& next.payloads.contains_key(c) <==> state.payloads.contains_key(c)
                &&& state.payloads.contains_key(c) ==> next.payloads[c] == state.payloads[c]
                &&& next.votes.contains_key(c) <==> state.votes.contains_key(c)
                &&& state.votes.contains_key(c) ==> next.votes[c] == state.votes[c]
                &&& next.adopted.contains_key(c) <==> state.adopted.contains_key(c)
                &&& state.adopted.contains_key(c) ==> next.adopted[c] == state.adopted[c]
                &&& next.served_payloads.contains(c) <==> state.served_payloads.contains(c)
                &&& next.ledger.records.contains_key(c) <==> state.ledger.records.contains_key(c)
                &&& state.ledger.records.contains_key(c) ==> next.ledger.records[c]
                    == state.ledger.records[c]
            }
            &&& next.table == state.table && next.bindings == state.bindings
        }),
{
}

/// What a restart brings back of the payloads: the last row of each command, the
/// retry key of each bound to a command whose payload has it, and the first
/// selection of a ballot.
pub proof fn lemma_payload_rows_come_back(rows: Seq<(CommandId, PayloadView)>, i: int)
    requires
        0 <= i < rows.len(),
        forall|j: int| i < j < rows.len() ==> (#[trigger] rows[j]).0 != rows[i].0,
    ensures
        payloads_in(rows).contains_key(rows[i].0),
        payloads_in(rows)[rows[i].0] == rows[i].1,
        payloads_in(rows).dom().finite(),
    decreases rows.len(),
{
    lemma_rows_finite(rows);
    if i < rows.len() - 1 {
        let rest = rows.drop_last();
        assert(rest[i] == rows[i]);
        assert(rows[rows.len() - 1] == rows.last());
        assert forall|j: int| i < j < rest.len() implies (#[trigger] rest[j]).0 != rest[i].0 by {
            assert(rest[j] == rows[j]);
        }
        lemma_payload_rows_come_back(rest, i);
    }
}

proof fn lemma_rows_finite(rows: Seq<(CommandId, PayloadView)>)
    ensures
        payloads_in(rows).dom().finite(),
    decreases rows.len(),
{
    if rows.len() > 0 {
        lemma_rows_finite(rows.drop_last());
    }
}

/// Bindings come back from the payloads: every payload's retry key is bound, and
/// every binding is to a command whose payload has the key.
pub proof fn lemma_bindings_come_back(
    payloads: Map<CommandId, PayloadView>,
    order: Seq<CommandId>,
    c: CommandId,
    key: RetryKey,
)
    ensures
        order.contains(c) ==> bindings_of(payloads, order).contains_key(payloads[c].retry_key),
        bindings_of(payloads, order).contains_key(key) ==> order.contains(
            bindings_of(payloads, order)[key],
        ) && payloads[bindings_of(payloads, order)[key]].retry_key == key,
    decreases order.len(),
{
    if order.len() > 0 {
        lemma_bindings_come_back(payloads, order.drop_last(), c, key);
        lemma_contains_last(order);
    }
}

/// The selection of a ballot is the first one written for it.
pub proof fn lemma_first_selection_of_a_ballot(
    syncs: Seq<(Ballot, SyncView)>,
    ballot: Ballot,
    i: int,
)
    requires
        0 <= i < syncs.len(),
        syncs[i].0 == ballot,
        forall|j: int| 0 <= j < i ==> (#[trigger] syncs[j]).0 != ballot,
    ensures
        selection_of(syncs, ballot) == Some(syncs[i].1),
    decreases syncs.len(),
{
    let rest = syncs.drop_last();
    if i < rest.len() {
        assert(rest[i] == syncs[i]);
        lemma_first_selection_of_a_ballot(rest, ballot, i);
    } else {
        lemma_no_selection(rest, ballot);
    }
}

proof fn lemma_no_selection(syncs: Seq<(Ballot, SyncView)>, ballot: Ballot)
    requires
        forall|j: int| 0 <= j < syncs.len() ==> (#[trigger] syncs[j]).0 != ballot,
    ensures
        selection_of(syncs, ballot) is None,
    decreases syncs.len(),
{
    if syncs.len() > 0 {
        let rest = syncs.drop_last();
        assert forall|j: int| 0 <= j < rest.len() implies (#[trigger] rest[j]).0 != ballot by {
            assert(rest[j] == syncs[j]);
        }
        assert(syncs[syncs.len() - 1] == syncs.last());
        lemma_no_selection(rest, ballot);
    }
}

/// A follower that takes over starts in the given ballot with everything handed
/// over and nothing in flight.
pub proof fn lemma_taking_over_starts_clean(state: RecoveredView, quorum: ConfigView)
    ensures
        ({
            let next = FollowerView::taking_over(state, quorum);
            &&& next.config.quorum == quorum && next.config.identity == state.identity
            &&& next.table == state.table && next.payloads == state.payloads
            &&& next.ballots == state.ballots && next.ledger == state.ledger
            &&& next.learner == state.learner && next.boot == state.boot
            &&& next.bindings == state.bindings && next.served_payloads == state.served_payloads
            &&& next.report_due == state.report_due
            &&& next.held.len() == 0 && next.adopted.len() == 0 && next.pending.len() == 0
            &&& next.votes.len() == 0 && next.deferred.len() == 0 && next.sync_pending.len() == 0
            &&& next.campaign is None && next.won is None && next.sync_barrier is None
        }),
{
}

/// A restart takes up the selection it was installing: each entry is queued again
/// as it was selected, but for one that is committed here at its turn.
pub proof fn lemma_selected_entries_resume<H: Fn(HashDomain, Vec<Vec<u8>>) -> Digest32>(
    state: FollowerView,
    hash: H,
    entries: Map<CommandId, SyncEntryView>,
    order: Seq<CommandId>,
    i: int,
)
    requires
        order.no_duplicates(),
        0 <= i < order.len(),
        !state.sync_pending.contains_key(order[i]),
    ensures
        ({
            let done = state.requeued(hash, entries, order);
            let turn = state.requeued(hash, entries, order.take(i + 1)).table;
            &&& done.sync_pending.contains_key(order[i]) <==> !reached(
                turn.phase_of(order[i]),
                Phase::Commit,
            )
            &&& done.sync_pending.contains_key(order[i]) ==> done.sync_pending[order[i]]
                == entries[order[i]]
        }),
    decreases order.len(),
{
    let rest = order.drop_last();
    if i < rest.len() {
        assert(rest[i] == order[i]);
        assert(rest.take(i + 1) =~= order.take(i + 1));
        lemma_selected_entries_resume(state, hash, entries, rest, i);
        assert(order[order.len() - 1] == order.last());
    } else {
        assert(order.take(i + 1) =~= order);
        assert(!rest.contains(order[i])) by {
            if rest.contains(order[i]) {
                let k = choose|k: int| 0 <= k < rest.len() && rest[k] == order[i];
                assert(order[k] == order[i]);
            }
        }
        lemma_requeued_only(state, hash, entries, rest, order[i]);
    }
}

proof fn lemma_requeued_only<H: Fn(HashDomain, Vec<Vec<u8>>) -> Digest32>(
    state: FollowerView,
    hash: H,
    entries: Map<CommandId, SyncEntryView>,
    order: Seq<CommandId>,
    c: CommandId,
)
    requires
        !order.contains(c),
        !state.sync_pending.contains_key(c),
    ensures
        !state.requeued(hash, entries, order).sync_pending.contains_key(c),
    decreases order.len(),
{
    if order.len() > 0 {
        lemma_contains_last(order);
        lemma_requeued_only(state, hash, entries, order.drop_last(), c);
    }
}

/// Restoring the frontier: what was executed is executed here with a place in
/// the order, with the record otherwise as it was, and nothing else of the
/// records changes.
pub proof fn lemma_executed_commands_are_marked(
    state: FollowerView,
    executed: Seq<CommandId>,
    c: CommandId,
)
    ensures
        ({
            let next = state.with_executed(executed);
            &&& executed.contains(c) ==> next.adopted.contains_key(c)
            &&& executed.contains(c) && state.table.initialized(c) ==> next.table.phase_of(c)
                == Some(Phase::Executed) && next.table.records[c].deps
                == state.table.records[c].deps
            &&& next.table.records.contains_key(c) <==> state.table.records.contains_key(c)
            &&& state.table.initialized(c) <==> next.table.initialized(c)
            &&& !executed.contains(c) ==> next.table.records[c] == state.table.records[c]
                && next.adopted.contains_key(c) == state.adopted.contains_key(c)
            &&& next.payloads == state.payloads && next.bindings == state.bindings
            &&& next.learner == state.learner
        }),
    decreases executed.len(),
{
    if executed.len() > 0 {
        lemma_contains_last(executed);
        lemma_executed_commands_are_marked(state, executed.drop_last(), c);
        lemma_executed_commands_are_marked(state, executed.drop_last(), executed.last());
    }
}

/// The frontier comes back where it was, and the way of learning stays.
pub proof fn lemma_the_frontier_comes_back(
    state: FollowerView,
    through: ExecutionPosition,
    executed: Seq<CommandId>,
)
    ensures
        state.execution_restored(through, executed).learner.executed_through == through,
        state.execution_restored(through, executed).learner.mode == state.learner.mode,
{
}

/// Payload rows restored: the last row of a command known here is its payload,
/// may be served, and binds its retry key; a row of an unknown command is not
/// taken.
pub proof fn lemma_payloads_of_known_commands_return(
    state: FollowerView,
    rows: Seq<(CommandId, PayloadView)>,
)
    requires
        rows.len() > 0,
    ensures
        ({
            let before = state.payloads_restored(rows.drop_last());
            let next = state.payloads_restored(rows);
            let (c, p) = rows.last();
            &&& next.table == state.table
            &&& state.table.phase_of(c) is None ==> next == before
            &&& state.table.phase_of(c) is Some ==> next.bindings == before.bindings.insert(
                p.retry_key,
                c,
            )
            &&& state.table.records.contains_key(c) && state.table.phase_of(c) is Some
                ==> next.payloads == before.payloads.insert(c, p) && next.served_payloads
                == before.served_payloads.insert(c)
            &&& !state.table.records.contains_key(c) ==> next.payloads == before.payloads
                && next.served_payloads == before.served_payloads
        }),
    decreases rows.len(),
{
    lemma_restoring_keeps_the_table(state, rows.drop_last());
}

proof fn lemma_restoring_keeps_the_table(
    state: FollowerView,
    rows: Seq<(CommandId, PayloadView)>,
)
    ensures
        state.payloads_restored(rows).table == state.table,
    decreases rows.len(),
{
    if rows.len() > 0 {
        lemma_restoring_keeps_the_table(state, rows.drop_last());
    }
}

/// A durably bound selection is published before it is installed here: to every
/// other voter, once each, as it was bound.
pub proof fn lemma_bound_selections_are_published<
    H: Fn(HashDomain, Vec<Vec<u8>>) -> Digest32,
>(state: FollowerView, hash: H, d: SyncView)
    requires
        state.boot is Some,
        d.ballot.leader == state.config.identity.replica,
        state.ballots.promised == d.ballot,
        d.ballot.epoch == state.config.identity.epoch,
        state.config.identity.voters.contains(d.ballot.leader),
    ensures
        ({
            let said = state.resumed(hash, d).1;
            let others = in_order::<ReplicaId>(state.config.identity.voters).filter(
                |v: ReplicaId| v != state.config.identity.replica,
            );
            &&& said.len() >= others.len()
            &&& forall|i: int|
                0 <= i < others.len() ==> {
                    let send = #[trigger] said[i];
                    &&& send is Publish
                    &&& send->Publish_0.to.replica == others[i]
                    &&& send->Publish_0.frame == frame_of(MessageView::Sync(d))
                    &&& send->Publish_0.requires_durable.len() == 0
                }
        }),
{
    let context = state.ballots.context(state.boot->0.id, d.ballot);
    let frame = frame_of(MessageView::Sync(d));
    lemma_broadcasts_reach_every_other_voter(
        context,
        Seq::empty(),
        in_order::<ReplicaId>(state.config.identity.voters),
        state.config.identity.replica,
        frame,
    );
    let sends = broadcast_of(context, Seq::empty(), state.config.identity, frame);
    let said = state.resumed(hash, d).1;
    assert forall|i: int| 0 <= i < sends.len() implies #[trigger] said[i] == sends[i] by {}
}

/// A Sync that came before the promise is taken up when the promise is durable:
/// its row is then in flight.
pub proof fn lemma_early_syncs_are_taken_up<H: Fn(HashDomain, Vec<Vec<u8>>) -> Digest32>(
    state: FollowerView,
    hash: H,
    leader: ReplicaId,
    d: SyncView,
    barrier: BarrierId,
    to: PeerId,
    journal_seq: LocalJournalSeq,
)
    requires
        state.boot is Some,
        state.early_sync == Some((leader, d)),
        leader == d.ballot.leader,
        d.ballot.epoch == state.ballots.identity.epoch,
        supersedes(d.ballot, state.ballots.promised),
        supersedes(d.ballot, state.ballots.synced),
        state.ballots.in_flight == seq![
            crate::ballot::PromiseInFlight { ballot: d.ballot, barrier, to },
        ],
        state.ballots.sealing.len() == 0,
        state.sync_barrier is None,
        state.campaign is None,
        state.report_due is None,
        !state.pending.contains_key(barrier),
    ensures
        ({
            let next = state.stored(
                hash,
                StorageEvent::JournalDurable { barrier, journal_seq },
            ).0;
            &&& next.early_sync is None
            &&& next.ballots.promised == d.ballot
            &&& next.sync_barrier is Some
            &&& (next.sync_barrier->0).1 == d
        }),
{
    let event = StorageEvent::JournalDurable { barrier, journal_seq };
    let first = state.noted(event);
    assert(state.ballots.in_flight[0].barrier == barrier);
    assert(crate::ballot::flight_of(state.ballots.in_flight, barrier) == 0);
    assert(first.ballots.promised == d.ballot);
}

/// A payload that comes after its record is kept, written and bound.
pub proof fn lemma_late_payloads_are_kept<
    H: Fn(HashDomain, Vec<Vec<u8>>) -> Digest32,
    D: Fn(RetryKey, Vec<u8>) -> Option<crate::machine::Derived>,
>(state: FollowerView, hash: H, derive: D, c: CommandId, payload: PayloadView)
    requires
        state.boot is Some,
        state.table.initialized(c),
        !state.payloads.contains_key(c),
        crate::machine::front_identity_of(derive, payload.retry_key, payload.logical) == Some(c),
    ensures
        ({
            let (next, said) = state.payload_received(hash, derive, c, payload);
            &&& next.payloads == state.payloads.insert(c, payload)
            &&& next.bindings == state.bindings.insert(payload.retry_key, c)
            &&& next.durable_payloads == state.durable_payloads.insert(state.barrier(), c)
            &&& next.table == state.table
            &&& said == seq![
                EffectView::Persist(
                    BatchView {
                        barrier: state.barrier(),
                        updates: seq![payload_row(c, payload)],
                    },
                ),
            ]
        }),
{
}

/// Messages kept until the Sync are handled in the order they came.
pub proof fn lemma_kept_messages_are_handled_in_order<
    H: Fn(HashDomain, Vec<Vec<u8>>) -> Digest32,
>(
    state: FollowerView,
    hash: H,
    messages: Seq<(ReplicaId, MessageView)>,
    from: ReplicaId,
    p: FastAckView,
    a: FastAckView,
    b: SlowAck,
)
    ensures
        ({
            let (before, said) = state.replayed(hash, messages);
            let (after, more) = before.proposal_received(hash, from, p);
            &&& state.replayed(hash, messages.push((from, MessageView::Proposal(p)))) == (
                after,
                said + more,
            )
            &&& state.replayed(hash, messages.push((from, MessageView::FastAck(a)))) == (
                before.collected(from, VoteView::Fast(a)),
                said,
            )
            &&& state.replayed(hash, messages.push((from, MessageView::SlowAck(b)))) == (
                before.collected(from, VoteView::Slow(b)),
                said,
            )
        }),
{
    assert(messages.push((from, MessageView::Proposal(p))).drop_last() =~= messages);
    assert(messages.push((from, MessageView::FastAck(a))).drop_last() =~= messages);
    assert(messages.push((from, MessageView::SlowAck(b))).drop_last() =~= messages);
}

/// A durable batch teaches: its record is durable, its vote counts and it is in
/// flight no more, whatever else the event leads to; a failed one teaches
/// nothing.
pub proof fn lemma_storage_settles_a_batch<H: Fn(HashDomain, Vec<Vec<u8>>) -> Digest32>(
    state: FollowerView,
    hash: H,
    barrier: BarrierId,
    journal_seq: LocalJournalSeq,
    error: StorageError,
)
    requires
        state.pending.contains_key(barrier),
        state.sync_barrier is None,
        state.campaign is None,
        state.report_due is None,
        state.early_sync is None,
        state.votes.dom().finite(),
    ensures
        ({
            let (next, said) = state.stored(
                hash,
                StorageEvent::JournalDurable { barrier, journal_seq },
            );
            &&& said.len() == 0
            &&& next.pending == state.pending.remove(barrier)
            &&& state.ledger.staged.contains_key(barrier) && !state.ledger.sequences.contains_key(
                state.ledger.staged[barrier].0,
            ) ==> next.ledger.records == state.ledger.records.insert(
                state.ledger.staged[barrier].0,
                state.ledger.staged[barrier].1,
            )
            &&& state.deferred.contains_key(barrier) && state.votes.contains_key(
                state.deferred[barrier].command,
            ) ==> next.votes == state.votes.insert(
                state.deferred[barrier].command,
                state.votes[state.deferred[barrier].command].presented(
                    state.deferred[barrier].vote,
                ),
            )
        }),
        ({
            let (next, said) = state.stored(hash, StorageEvent::Failed { barrier, error });
            &&& said.len() == 0
            &&& next.pending == state.pending.remove(barrier)
            &&& next.ledger.records == state.ledger.records && next.votes == state.votes
        }),
{
}

/// A follower's frames do what they say, unless they are kept for a Sync.
pub proof fn lemma_follower_frames_do_what_they_say<
    H: Fn(HashDomain, Vec<Vec<u8>>) -> Digest32,
    D: Fn(RetryKey, Vec<u8>) -> Option<crate::machine::Derived>,
>(
    state: FollowerView,
    hash: H,
    derive: D,
    from: PeerId,
    frame: Seq<u8>,
    m: MessageView,
)
    requires
        message_in(frame) == Ok::<MessageView, crate::codec::DecodeError>(m),
        state.ballots.promised == state.config.quorum.ballot,
    ensures
        ({
            let turn = state.received(hash, derive, from, frame);
            &&& m matches MessageView::Proposal(p) ==> turn == state.proposal_received(
                hash,
                from.replica,
                p,
            )
            &&& m matches MessageView::FastAck(a) ==> turn.0 == state.collected(
                from.replica,
                VoteView::Fast(a),
            ) && turn.1.len() == 0
            &&& m matches MessageView::SlowAck(a) ==> turn.0 == state.collected(
                from.replica,
                VoteView::Slow(a),
            ) && turn.1.len() == 0
            &&& m matches MessageView::NewLeader { ballot } ==> turn == state.asked_to_promise(
                from,
                ballot,
            )
            &&& m matches MessageView::SealRequest { transition } ==> turn == state.asked_to_seal(
                from,
                transition,
            )
            &&& m matches MessageView::Promise { ballot, replica, .. } ==> turn
                == state.promise_received(hash, from, ballot, replica)
            &&& m matches MessageView::ReportPage(page) ==> turn == state.page_received(hash, page)
            &&& m matches MessageView::Sync(d) ==> turn == state.sync_received(
                hash,
                from.replica,
                d,
            )
            &&& m matches MessageView::PayloadResponse { command, payload } ==> turn
                == state.payload_answered(hash, derive, command, payload)
            &&& m is LeaderReply || m is Sealed ==> turn.0 == state && turn.1.len() == 0
        }),
{
}

/// A follower votes exactly while it is an unsealed voter that promised the
/// ballot it is configured for and is promising no other.
pub proof fn lemma_who_votes(state: FollowerView)
    ensures
        state.may_vote() <==> {
            &&& state.ballots.sealed is None && state.ballots.sealing.len() == 0
            &&& state.config.identity.role == crate::ballot::ReplicaRole::Voter
            &&& state.ballots.promised == state.config.quorum.ballot
            &&& state.ballots.in_flight.len() == 0
        },
{
}

/// An admitted request is handled as it came: under its own key and command,
/// with the facts it was admitted under.
pub proof fn lemma_admitted_requests_are_handled<H: Fn(HashDomain, Vec<Vec<u8>>) -> Digest32>(
    state: FollowerView,
    hash: H,
    q: crate::machine::RequestView,
    admission: Seq<u8>,
)
    requires
        state.boot is Some,
        state.may_vote(),
    ensures
        state.admitted(hash, Some(q), admission) == state.requested(
            hash,
            q.command,
            PayloadView {
                retry_key: q.retry_key,
                logical: q.logical,
                admission: Some(admission),
                ack_through: q.ack_through,
            },
        ),
        state.admitted(hash, None, admission).1.len() == 0,
{
}

/// A page counts where the assembler takes it, and is refused with its reason
/// otherwise.
pub proof fn lemma_pages_count_for_the_campaign<H: Fn(HashDomain, Vec<Vec<u8>>) -> Digest32>(
    state: FollowerView,
    hash: H,
    page: PageView,
)
    requires
        state.campaign is Some,
    ensures
        ({
            let c = state.campaign->0;
            &&& c.assembler.refusal(hash, page) is None ==> state.page_received(hash, page) == (
            FollowerView {
                campaign: Some(CampaignView { assembler: c.assembler.with_page(page), ..c }),
                ..state
            }).campaign_advanced(hash)
            &&& c.assembler.refusal(hash, page) matches Some(e) ==> {
                let (next, said) = state.page_received(hash, page);
                said.len() == 0 && next == (FollowerView {
                    rejections: state.rejections.push(RefusalView::Page(e)),
                    ..state
                })
            }
            &&& c.assembler.with_page(page).pages[page.replica][page.page] == page
        }),
{
}

/// What a restart starts from: the payloads and records of the rows, every
/// accepted command adopted and durable, no vote and nothing in flight, and the
/// frontier where it was.
pub proof fn lemma_restarts_start_from_the_rows<H: Fn(HashDomain, Vec<Vec<u8>>) -> Digest32>(
    hash: H,
    config: crate::follower::FollowerConfigView,
    promise: Option<PromiseRecordV1>,
    seal: Option<crate::rows::SealRecordV1>,
    rows: Seq<(CommandId, RecordView)>,
    payloads: Seq<(CommandId, PayloadView)>,
    syncs: Seq<(Ballot, SyncView)>,
    through: ExecutionPosition,
    c: CommandId,
)
    ensures
        ({
            let state = FollowerView::recovered(
                hash,
                config,
                promise,
                seal,
                rows,
                payloads,
                syncs,
                through,
            );
            let records = crate::commands::bound_in_order(rows);
            &&& state.config == config && state.boot is None
            &&& state.payloads == payloads_in(payloads)
            &&& state.served_payloads.contains(c) <==> payloads_in(payloads).contains_key(c)
            &&& state.ledger.records == records && state.ledger.staged.len() == 0
            &&& state.adopted.contains_key(c) <==> records.contains_key(c) && records[c].payload
                is Some && records[c].phase.rank() >= Phase::Accept.rank()
            &&& state.adopted.contains_key(c) ==> state.adopted[c].1
            &&& state.learner.executed_through == through
            &&& promise matches Some(r) ==> state.ballots.promised == r.promised
                && state.ballots.synced == r.synced
            &&& promise is None ==> state.ballots.promised == config.genesis
            &&& state.ballots.sealed == seal
            &&& state.votes.len() == 0 && state.held.len() == 0 && state.pending.len() == 0
                && state.deferred.len() == 0
            &&& selection_of(syncs, state.ballots.synced) is None ==> state.table
                == TableView::restored(hash, Some(config.capacity), rows)
                && state.sync_pending.len() == 0
        }),
{
    let state = FollowerView::recovered(
        hash,
        config,
        promise,
        seal,
        rows,
        payloads,
        syncs,
        through,
    );
    let base = FollowerView::recovered(
        hash,
        config,
        promise,
        seal,
        rows,
        payloads,
        Seq::empty(),
        through,
    );
    if let Some(d) = selection_of(syncs, base.ballots.synced) {
        lemma_requeueing_keeps_the_rest(
            base,
            hash,
            d.entries,
            in_order::<CommandId>(d.entries.dom()),
        );
    }
}

proof fn lemma_requeueing_keeps_the_rest<H: Fn(HashDomain, Vec<Vec<u8>>) -> Digest32>(
    state: FollowerView,
    hash: H,
    entries: Map<CommandId, SyncEntryView>,
    order: Seq<CommandId>,
)
    ensures
        ({
            let next = state.requeued(hash, entries, order);
            next == (FollowerView {
                table: next.table,
                sync_pending: next.sync_pending,
                ..state
            })
        }),
    decreases order.len(),
{
    if order.len() > 0 {
        lemma_requeueing_keeps_the_rest(state, hash, entries, order.drop_last());
    }
}

/// Batches are numbered from where the boot starts, one after the other.
pub proof fn lemma_batches_are_numbered(
    state: FollowerView,
    boot_id: crate::ids::BootId,
    first: u64,
)
    requires
        first < u64::MAX,
    ensures
        state.booted(boot_id, first).barrier() == BarrierId(first),
        state.booted(boot_id, first).allocated().barrier() == BarrierId((first + 1) as u64),
        state.booted(boot_id, first).boot is Some,
        state.booted(boot_id, first).boot->0.id == boot_id,
{
}

/// A leader's proposal reaches the path logs as it was ordered; a command this
/// replica knows nothing of gets a placeholder, and where there is no room for
/// one the refusal says so.
pub proof fn lemma_proposed_commands_are_expected<
    H: Fn(HashDomain, Vec<Vec<u8>>) -> Digest32,
>(state: FollowerView, hash: H, p: FastAckView)
    requires
        p.seqnum is Some,
    ensures
        ({
            let next = state.with_order(hash, p);
            let logged = state.table.with_leader_path(hash, p.command, p.seqnum->0, p.paths);
            &&& logged.phase_of(p.command) is Some ==> next.table == logged && next.rejections
                == state.rejections
            &&& logged.phase_of(p.command) is None && !logged.records.contains_key(p.command)
                && !logged.full() ==> {
                &&& next.table.records.contains_key(p.command)
                &&& next.table.records[p.command].payload is None
                &&& next.table.records.dom() == logged.records.dom().insert(p.command)
                &&& next.rejections == state.rejections
            }
            &&& logged.phase_of(p.command) is None && !logged.records.contains_key(p.command)
                && logged.with_room().full() ==> next.rejections == state.rejections.push(
                RefusalView::Backpressure,
            ) && !next.table.records.contains_key(p.command)
            &&& next.held == state.held && next.votes == state.votes
        }),
{
    let logged = state.table.with_leader_path(hash, p.command, p.seqnum->0, p.paths);
    let next = state.with_order(hash, p);
    if logged.phase_of(p.command) is None && !logged.records.contains_key(p.command)
        && !logged.full() {
        assert(next.table.records.dom() =~= logged.records.dom().insert(p.command));
    }
    if logged.phase_of(p.command) is None && !logged.records.contains_key(p.command)
        && logged.with_room().full() {
        lemma_room_adds_nothing(logged, p.command);
    }
}

proof fn lemma_room_adds_nothing(table: TableView, c: CommandId)
    requires
        !table.records.contains_key(c),
    ensures
        !table.with_room().records.contains_key(c),
{
    lemma_retiring_adds_nothing(table, in_order::<CommandId>(table.retirable()), c);
}

proof fn lemma_retiring_adds_nothing(table: TableView, commands: Seq<CommandId>, c: CommandId)
    requires
        !table.records.contains_key(c),
    ensures
        !table.retired_all(commands).records.contains_key(c),
    decreases commands.len(),
{
    if commands.len() > 0 {
        lemma_retiring_adds_nothing(table, commands.drop_last(), c);
    }
}

/// What is acknowledged is kept as it was sent, to be offered again: the frame,
/// the ballot, and the batches it rests on.
pub proof fn lemma_acknowledgements_are_kept(
    state: FollowerView,
    c: CommandId,
    barrier: BarrierId,
    message: MessageView,
)
    requires
        state.boot is Some,
        state.table.records.contains_key(c),
        forall|i: int|
            0 <= i < state.replay.kept(c).len() ==> (#[trigger] state.replay.kept(c)[i]).frame
                != frame_of(message),
    ensures
        ({
            let (next, said) = state.acknowledged(c, barrier, message);
            let e = next.replay.kept(c).last();
            let told = said.last()->Publish_0;
            &&& next.replay.own.contains_key(c)
            &&& e.frame == frame_of(message) && e.frame == told.frame
            &&& e.ballot == state.config.quorum.ballot && e.barrier == barrier
            &&& e.requires_durable == told.requires_durable && e.context == told.context
            &&& told.to == state.config.frontend
        }),
{
    let (next, said) = state.acknowledged(c, barrier, message);
    let e = EvidenceView {
        barrier,
        ballot: state.config.quorum.ballot,
        context: state.ballots.context(state.boot->0.id, state.config.quorum.ballot),
        requires_durable: state.waits_for(barrier),
        frame: frame_of(message),
    };
    crate::protocol_laws::lemma_the_last_frames_are_kept(state.replay, c, e, state.table);
}

/// A new request's own vote waits for its batch: where nothing else is waiting,
/// the fast acknowledgement is deferred under that batch and counts for nothing
/// yet.
pub proof fn lemma_own_votes_are_deferred<H: Fn(HashDomain, Vec<Vec<u8>>) -> Digest32>(
    state: FollowerView,
    hash: H,
    c: CommandId,
    payload: PayloadView,
)
    requires
        state.boot is Some,
        votes_fast(state),
        !state.bindings.contains_key(payload.retry_key),
        state.table.init_refusal(c, payload.admitted(hash)) is None,
        state.sync_pending.dom() == Set::<CommandId>::empty(),
        state.held.dom() == Set::<CommandId>::empty(),
    ensures
        ({
            let next = state.requested(hash, c, payload).0;
            let barrier = state.barrier();
            let record = state.table.opened(c).with_initialized(
                hash,
                c,
                payload.admitted(hash),
                conservative_keys(),
            ).records[c];
            &&& next.deferred == state.deferred.insert(
                barrier,
                DeferredView {
                    command: c,
                    vote: VoteView::Fast(
                        FastAckView {
                            replica: state.config.identity.replica,
                            ballot: state.config.quorum.ballot,
                            command: c,
                            deps: record.deps,
                            paths: record.paths,
                            path: record.path,
                            admission: payload.admitted(hash),
                            seqnum: None,
                        },
                    ),
                },
            )
            &&& next.pending == state.pending.insert(barrier, Pending::Vote(c))
            &&& next.votes.contains_key(c)
            &&& !state.votes.contains_key(c) ==> next.votes[c] == VoteSetView::empty(
                state.config.quorum,
                c,
            )
            &&& next.payloads == state.payloads.insert(c, payload)
            &&& next.bindings == state.bindings.insert(payload.retry_key, c)
        }),
{
    let digest = payload.admitted(hash);
    let table = state.table.opened(c).with_initialized(hash, c, digest, conservative_keys());
    let barrier = state.barrier();
    let ack = state.fast_ack(c, table, digest);
    let staged = state.voting(c, payload, table);
    let voted = FollowerView {
        deferred: state.deferred.insert(
            barrier,
            DeferredView { command: c, vote: VoteView::Fast(ack) },
        ),
        ..staged
    }.acknowledged(c, barrier, MessageView::FastAck(ack)).0;
    lemma_nothing_to_install(voted, hash);
    lemma_nothing_to_adopt(voted.sync_advanced(hash).0, hash);
}

/// A proposal that comes again: one still held changes nothing, and one adopted
/// is acknowledged to the leader again with what was acknowledged before.
pub proof fn lemma_repeated_proposals<H: Fn(HashDomain, Vec<Vec<u8>>) -> Digest32>(
    state: FollowerView,
    hash: H,
    from: ReplicaId,
    p: FastAckView,
    i: int,
)
    requires
        state.boot is Some,
        state.proposal_refusal(from, p) is None,
    ensures
        state.held.contains_key(p.command) ==> state.proposal_received(hash, from, p) == (
            state,
            Seq::<EffectView>::empty(),
        ),
        !state.held.contains_key(p.command) && state.adopted.contains_key(p.command) ==> {
            let list = state.replay.kept(p.command).filter(
                |e: EvidenceView| e.ballot == state.config.quorum.ballot,
            );
            let (next, said) = state.proposal_received(hash, from, p);
            list.len() > 0 ==> next == state && said.len() == list.len() && (0 <= i < list.len()
                ==> said[i] is Publish && said[i]->Publish_0.frame == list[i].frame
                && said[i]->Publish_0.to.replica == from && said[i]->Publish_0.requires_durable
                == list[i].requires_durable)
        },
{
    let to = crate::effects::any_incarnation(from);
    let kept = state.replay.kept(p.command);
    crate::protocol_laws::lemma_acknowledgements_are_offered_again(
        kept,
        state.config.quorum.ballot,
        to,
    );
    lemma_sends_are_published(acknowledgements(kept, state.config.quorum.ballot, to));
}

/// Sends are published in order, as they are.
pub proof fn lemma_sends_are_published(sends: Seq<SendView>)
    ensures
        publications(sends).len() == sends.len(),
        forall|i: int|
            0 <= i < sends.len() ==> #[trigger] publications(sends)[i] == EffectView::Publish(
                sends[i],
            ),
    decreases sends.len(),
{
    if sends.len() > 0 {
        lemma_sends_are_published(sends.drop_last());
    }
}

/// An exact repeat repairs delivery: what is kept for this ballot and durable
/// goes to the frontend again, as it was, and the repeat is counted; a replica
/// that may not vote repeats nothing.
pub proof fn lemma_repeats_repair_delivery(state: FollowerView, c: CommandId, i: int)
    requires
        state.boot is Some,
    ensures
        !state.may_vote() ==> state.evidence_repaired(c).1.len() == 0,
        state.may_vote() && state.replay.plan_refusal(
            c,
            state.boot->0.settled,
            state.config.quorum.ballot,
            state.table,
        ) is None ==> {
            let list = state.replay.own[c].filter(
                |e: EvidenceView|
                    e.ballot == state.config.quorum.ballot
                        && state.boot->0.settled.durable.contains(e.barrier)
                        && !state.boot->0.settled.failed.contains(e.barrier),
            );
            let (next, said) = state.evidence_repaired(c);
            &&& said.len() == list.len()
            &&& 0 <= i < said.len() ==> said[i] is Publish && said[i]->Publish_0.frame
                == list[i].frame && said[i]->Publish_0.to == state.config.frontend
            &&& next == (FollowerView { replay: state.replay.repaired(c), ..state })
        },
{
    if state.replay.own.contains_key(c) {
        crate::protocol_laws::lemma_durable_evidence_is_repeated(
            state.replay.own[c],
            state.boot->0.settled,
            state.config.quorum.ballot,
            state.config.frontend,
        );
        lemma_sends_are_published(
            repeats(
                state.replay.own[c],
                state.boot->0.settled,
                state.config.quorum.ballot,
                state.config.frontend,
            ),
        );
    }
}

/// A Sync ahead of the promise is kept, and of two the higher one.
pub proof fn lemma_the_highest_early_sync_is_kept<H: Fn(HashDomain, Vec<Vec<u8>>) -> Digest32>(
    state: FollowerView,
    hash: H,
    d: SyncView,
)
    requires
        supersedes(d.ballot, state.ballots.promised),
    ensures
        ({
            let next = state.sync_received(hash, d.ballot.leader, d).0;
            &&& state.early_sync is None ==> next.early_sync == Some((d.ballot.leader, d))
            &&& state.early_sync matches Some((_, held)) ==> if supersedes(d.ballot, held.ballot) {
                next.early_sync == Some((d.ballot.leader, d))
            } else {
                next.early_sync == state.early_sync
            }
        }),
{
}

/// A Sync of a ballot already written but not active yet is activated, and one
/// of the active ballot changes nothing.
pub proof fn lemma_written_syncs_are_activated<H: Fn(HashDomain, Vec<Vec<u8>>) -> Digest32>(
    state: FollowerView,
    hash: H,
    d: SyncView,
)
    requires
        d.ballot == state.ballots.promised,
        d.ballot == state.ballots.synced,
    ensures
        state.config.quorum.ballot == d.ballot ==> state.sync_received(
            hash,
            d.ballot.leader,
            d,
        ) == (state, Seq::<EffectView>::empty()),
        state.config.quorum.ballot != d.ballot ==> state.sync_received(hash, d.ballot.leader, d)
            == state.activated(hash, d),
{
}

/// A selection is not bound while this replica lacks a command it names: it asks
/// for what is missing instead.
pub proof fn lemma_selections_wait_for_their_commands(state: FollowerView, i: int)
    requires
        state.boot is Some,
        state.campaign is Some,
        state.campaign->0.decision is Some,
        state.campaign->0.bound is None,
        selection_gap(state.table, state.campaign->0.decision->0) is None,
        selection_missing(state.table, state.campaign->0.decision->0).len() > 0,
    ensures
        ({
            let (next, said) = state.bound_selection();
            &&& next.campaign is Some && next.campaign->0.bound is None
            &&& next.campaign->0.decision == state.campaign->0.decision
            &&& 0 <= i < said.len() ==> said[i] is Publish
        }),
{
    let boot = state.boot->0;
    let me = state.config.identity.replica;
    let wanted = state.campaign_missing();
    let batch = payload_batch(
        if wanted.len() == 0 {
            state.missing()
        } else {
            wanted
        },
        state.payload_cursor,
    ).0;
    let frame = frame_of(MessageView::PayloadRequest { commands: batch });
    lemma_asks(
        state,
        boot,
        in_order::<ReplicaId>(state.campaign->0.promised.remove(me)),
        frame,
    );
    lemma_asks(state, boot, seq![me], frame);
}

/// A bound selection is published when its batch is durable: every other voter
/// is sent it, once each.
pub proof fn lemma_selections_go_out_when_durable<H: Fn(HashDomain, Vec<Vec<u8>>) -> Digest32>(
    state: FollowerView,
    hash: H,
    barrier: BarrierId,
    journal_seq: LocalJournalSeq,
    i: int,
)
    requires
        state.boot is Some,
        state.campaign is Some,
        state.campaign->0.decision is Some,
        state.campaign->0.bound == Some(barrier),
        !state.campaign->0.published,
        state.sync_barrier is None,
        !state.pending.contains_key(barrier),
        !state.durable_payloads.contains_key(barrier),
    ensures
        ({
            let said = state.stored(
                hash,
                StorageEvent::JournalDurable { barrier, journal_seq },
            ).1;
            let others = in_order::<ReplicaId>(state.config.identity.voters).filter(
                |v: ReplicaId| v != state.config.identity.replica,
            );
            &&& said.len() >= others.len()
            &&& 0 <= i < others.len() ==> said[i] is Publish && said[i]->Publish_0.to.replica
                == others[i] && said[i]->Publish_0.frame == frame_of(
                MessageView::Sync(state.campaign->0.decision->0),
            )
        }),
{
    let event = StorageEvent::JournalDurable { barrier, journal_seq };
    let first = state.noted(event);
    let d = state.campaign->0.decision->0;
    let context = first.ballots.context(first.boot->0.id, d.ballot);
    let frame = frame_of(MessageView::Sync(d));
    lemma_broadcasts_reach_every_other_voter(
        context,
        Seq::empty(),
        in_order::<ReplicaId>(state.config.identity.voters),
        state.config.identity.replica,
        frame,
    );
    let sends = broadcast_of(context, Seq::empty(), state.config.identity, frame);
    let settled = first.batch_settled(event);
    assert(settled == first);
    let marked = FollowerView {
        campaign: Some(CampaignView { durable: true, ..settled.campaign->0 }),
        ..settled
    };
    let told = marked.campaign_advanced(hash).1;
    assert forall|k: int| 0 <= k < sends.len() implies #[trigger] told[k] == sends[k] by {}
    let more = state.event_stored(hash, event).1;
    assert forall|k: int| 0 <= k < sends.len() implies #[trigger] more[k] == sends[k] by {
        assert(told[k] == sends[k]);
    }
    let said = state.stored(hash, event).1;
    assert forall|k: int| 0 <= k < sends.len() implies #[trigger] said[k] == sends[k] by {
        assert(more[k] == sends[k]);
    }
}

/// What was executed and forgotten by the table is forgotten here too, but only
/// once more than four records are kept for each one the table has room for.
pub proof fn lemma_history_is_forgotten_when_it_grows(state: FollowerView)
    requires
        state.config.capacity * 4 <= usize::MAX,
    ensures
        state.ledger.records.dom().len() <= state.config.capacity * 4
            ==> state.history_forgotten() == state,
        state.ledger.records.dom().len() > state.config.capacity * 4
            ==> state.history_forgotten() == state.swept(),
{
}

/// A request presented again under other facts is told what was accepted, and
/// one presented again under the same facts is a repeat: what is kept for it is
/// offered again.
pub proof fn lemma_other_facts_are_told_what_was_accepted<
    H: Fn(HashDomain, Vec<Vec<u8>>) -> Digest32,
>(state: FollowerView, hash: H, c: CommandId, payload: PayloadView)
    requires
        state.payloads.contains_key(c),
    ensures
        ({
            let (next, said) = state.presented_again(hash, c, payload);
            let accepted = state.payloads[c].admitted(hash);
            &&& payload.admitted(hash) != accepted ==> said.len() == 0 && next == (FollowerView {
                rejections: state.rejections.push(
                    RefusalView::RequestFactsConflict { command: c, accepted },
                ),
                ..state
            })
            &&& payload.admitted(hash) == accepted ==> (next, said) == (FollowerView {
                rejections: state.rejections.push(RefusalView::Duplicate(c)),
                ..state
            }).evidence_repaired(c)
        }),
{
}

/// Messages are kept for a Sync only where the promise is durable, the ballot is
/// not active yet, and there is room: none is while a promise is in flight.
pub proof fn lemma_nothing_waits_for_a_promise_in_flight<
    H: Fn(HashDomain, Vec<Vec<u8>>) -> Digest32,
    D: Fn(RetryKey, Vec<u8>) -> Option<crate::machine::Derived>,
>(state: FollowerView, hash: H, derive: D, from: PeerId, frame: Seq<u8>, a: SlowAck)
    requires
        message_in(frame) == Ok::<MessageView, crate::codec::DecodeError>(MessageView::SlowAck(a)),
        state.ballots.in_flight.len() > 0 || state.awaiting_sync.len() >= state.config.capacity
            || a.ballot != state.ballots.promised || a.ballot == state.config.quorum.ballot,
    ensures
        state.received(hash, derive, from, frame) == (
            state.collected(from.replica, VoteView::Slow(a)),
            Seq::<EffectView>::empty(),
        ),
        state.collected(from.replica, VoteView::Slow(a)).awaiting_sync == state.awaiting_sync,
{
}

/// A campaign whose own Sync is not taken up here is over.
pub proof fn lemma_campaigns_end_where_their_sync_fails<
    H: Fn(HashDomain, Vec<Vec<u8>>) -> Digest32,
>(state: FollowerView, hash: H)
    requires
        state.boot is Some,
        state.campaign is Some,
        state.campaign->0.decision is Some,
    ensures
        ({
            let next = state.published_selection(hash).0;
            let d = state.campaign->0.decision->0;
            &&& next.ballots.synced != d.ballot ==> next.campaign is None
            &&& next.ballots.synced == d.ballot && next.config.quorum.ballot == d.ballot
                ==> next.won == Some(d)
        }),
{
}

/// Proposals ahead of their requests are refused for want of room only once
/// eight are held for each command the table has room for.
pub proof fn lemma_proposals_are_held_while_there_is_room<
    H: Fn(HashDomain, Vec<Vec<u8>>) -> Digest32,
>(state: FollowerView, hash: H, p: FastAckView)
    requires
        state.config.capacity * 8 <= usize::MAX,
    ensures
        state.held.dom().len() < state.config.capacity * 8 ==> !state.held_full(hash, p),
        state.held.dom().len() >= state.config.capacity * 8 && !state.held_full(hash, p) ==> {
            let logged = state.table.with_leader_path(
                hash,
                p.command,
                match p.seqnum {
                    Some(n) => n,
                    None => 0,
                },
                p.paths,
            );
            logged.phase_of(p.command) is Some || !logged.expect_refused(p.command)
        },
{
}

/// Only the selection of the ballot promised here, by its own leader, is taken
/// up again after a restart.
pub proof fn lemma_other_selections_are_not_resumed<H: Fn(HashDomain, Vec<Vec<u8>>) -> Digest32>(
    state: FollowerView,
    hash: H,
    d: SyncView,
)
    requires
        d.ballot.leader != state.config.identity.replica || d.ballot != state.ballots.promised
            || d.ballot.epoch != state.config.identity.epoch,
    ensures
        state.resumed(hash, d) == (
            FollowerView { rejections: state.rejections.push(RefusalView::CannotLead), ..state },
            Seq::<EffectView>::empty(),
        ),
{
}

/// A campaigner's own report waits like any other: for the promise's batch and
/// for every batch outstanding when it promised.
pub proof fn lemma_own_reports_wait_too(state: FollowerView, ballot: Ballot, i: int)
    requires
        state.boot is Some,
        state.campaigning(ballot).0.rejections == state.rejections,
    ensures
        ({
            let due = state.campaigning(ballot).0.report_due;
            &&& due is Some && due->0.ballot == ballot
            &&& due->0.to.replica == state.config.identity.replica && due->0.to.incarnation
                == state.config.identity.incarnation
            &&& due->0.requires_durable.contains(state.barrier())
            &&& 0 <= i < state.cut().len() ==> due->0.requires_durable.contains(state.cut()[i])
        }),
{
    let due = state.campaigning(ballot).0.report_due;
    let list = state.cut().push(state.barrier());
    assert(list.last() == state.barrier());
    assert(state.rejections.push(RefusalView::CannotLead).len() != state.rejections.len());
    if state.behind is Some {
        assert(state.rejections.push(RefusalView::Behind { missing: state.behind->0 }).len()
            != state.rejections.len());
    }
    let me = PeerId {
        replica: state.config.identity.replica,
        incarnation: state.config.identity.incarnation,
    };
    if state.ballots.promise_refusal(me, ballot) is Some {
        assert(state.rejections.push(
            RefusalView::Promise(state.ballots.promise_refusal(me, ballot)->0),
        ).len() != state.rejections.len());
    }
    assert(due->0.requires_durable == list);
    if 0 <= i < state.cut().len() {
        assert(list[i] == state.cut()[i]);
    }
}

/// A payload that was asked for is asked for no longer once it is held, and the
/// answer is counted; one that was not asked for is not.
pub proof fn lemma_answers_to_asks_are_counted<
    H: Fn(HashDomain, Vec<Vec<u8>>) -> Digest32,
    D: Fn(RetryKey, Vec<u8>) -> Option<crate::machine::Derived>,
>(state: FollowerView, hash: H, derive: D, c: CommandId, payload: PayloadView)
    requires
        state.payload_received(hash, derive, c, payload).0.campaign is None,
    ensures
        ({
            let taken = state.payload_received(hash, derive, c, payload).0;
            let next = state.payload_answered(hash, derive, c, payload).0;
            let asked = state.payloads_asked.contains(c) && taken.payloads.contains_key(c);
            &&& asked ==> next.payloads_asked == taken.payloads_asked.remove(c)
            &&& asked && taken.payloads_answered < u64::MAX ==> next.payloads_answered
                == taken.payloads_answered + 1
            &&& !asked ==> next == taken
            &&& next.payloads == taken.payloads && next.bindings == taken.bindings
        }),
{
}

/// A follower that becomes something else hands over all that it holds.
pub proof fn lemma_followers_hand_over_everything(state: FollowerView)
    ensures
        ({
            let given = state.given_up();
            &&& given.identity == state.config.identity && given.ballots == state.ballots
            &&& given.table == state.table && given.ledger == state.ledger
            &&& given.payloads == state.payloads && given.bindings == state.bindings
            &&& given.served_payloads == state.served_payloads && given.learner == state.learner
            &&& given.boot == state.boot && given.report_due == state.report_due
            &&& given.frontend == state.config.frontend && given.capacity == state.config.capacity
        }),
{
}

/// What a restored execution left behind is not kept: no payload, vote or
/// durable record of a command that was executed and forgotten.
pub proof fn lemma_restored_history_is_not_kept(
    state: FollowerView,
    through: ExecutionPosition,
    executed: Seq<CommandId>,
    c: CommandId,
)
    ensures
        ({
            let next = state.execution_restored(through, executed);
            &&& next.learner.executed_through == through
            &&& is_history(next.table, c) ==> !next.payloads.contains_key(c)
                && !next.votes.contains_key(c) && !next.adopted.contains_key(c)
                && !next.served_payloads.contains(c) && !next.ledger.records.contains_key(c)
        }),
{
}

} // verus!
