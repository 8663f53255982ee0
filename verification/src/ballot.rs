//! Durable promises under a configuration identity.
//!
//! A promise is a vote-producing transition: the replica persists the new
//! promise row first and publishes its reply through the logical outbox
//! requiring that row *and* every batch submitted before the cut, so the
//! reply summarizes complete durable state. While a promise is in flight no
//! lower or equal ballot is admitted, and once durable the promised ballot
//! only grows. After a restart the promise is recovered from the row and an
//! old `NewLeader` cannot lower it.
//!
//! Guards that never vote: an epoch other than the configuration's, a
//! sender that is not a voter of the epoch, a ballot whose leader is not the
//! sender, and a replica whose role is not `Voter`.

use vstd::prelude::*;

use crate::effects::{
    BarrierAllocator, BatchView, EffectContext, PendingSend, PersistBatch, SendView, StorageError,
    StorageEvent, copy_barriers, next_number,
};
use crate::handoff::Transition;
use crate::ids::{
    Ballot, BarrierId, BootId, ClusterId, ConfigurationEpoch, DomainId, LocalJournalSeq, PeerId,
    ReplicaId, supersedes,
};
use crate::messages::{MessageView, ProtocolMessage, frame_of};
use crate::ordered::{Dup, OrdSet};
use crate::rows::{
    PromiseRecordV1, SealRecordV1, promise_row, promise_update, seal_row, seal_update,
};

verus! {

/// The role a replica holds in a configuration epoch.
#[derive(Clone, Copy, Debug, PartialEq, Eq, Hash, Structural)]
pub enum ReplicaRole {
    /// Votes and may lead.
    Voter,
    /// Replicates established history; never votes.
    Observer,
    /// Catching up toward a role; never votes.
    Learner,
}

/// What this replica is in this epoch: the identity every vote binds.
#[derive(Debug)]
pub struct ConfigurationIdentity {
    /// Cluster.
    pub cluster: ClusterId,
    /// Domain.
    pub domain: DomainId,
    /// Configuration epoch (exact voters).
    pub epoch: ConfigurationEpoch,
    /// Voters of the epoch.
    pub voters: OrdSet<ReplicaId>,
    /// This replica.
    pub replica: ReplicaId,
    /// This replica's incarnation.
    pub incarnation: u64,
    /// This replica's role.
    pub role: ReplicaRole,
}

/// What an identity says.
#[verifier::ext_equal]
pub struct IdentityView {
    /// Cluster.
    pub cluster: ClusterId,
    /// Domain.
    pub domain: DomainId,
    /// Configuration epoch.
    pub epoch: ConfigurationEpoch,
    /// Voters of the epoch.
    pub voters: Set<ReplicaId>,
    /// This replica.
    pub replica: ReplicaId,
    /// This replica's incarnation.
    pub incarnation: u64,
    /// This replica's role.
    pub role: ReplicaRole,
}

impl View for ConfigurationIdentity {
    type V = IdentityView;

    open spec fn view(&self) -> IdentityView {
        IdentityView {
            cluster: self.cluster,
            domain: self.domain,
            epoch: self.epoch,
            voters: self.voters@,
            replica: self.replica,
            incarnation: self.incarnation,
            role: self.role,
        }
    }
}

impl Dup for ConfigurationIdentity {
    fn dup(&self) -> (r: Self) {
        ConfigurationIdentity {
            cluster: self.cluster,
            domain: self.domain,
            epoch: self.epoch,
            voters: self.voters.dup(),
            replica: self.replica,
            incarnation: self.incarnation,
            role: self.role,
        }
    }
}

/// Why a `NewLeader` produced no vote.
#[derive(Clone, Copy, Debug, PartialEq, Eq, Structural)]
pub enum PromiseRejection {
    /// The ballot's epoch is not this configuration.
    WrongEpoch {
        /// Configured epoch.
        expected: ConfigurationEpoch,
        /// Epoch received.
        got: ConfigurationEpoch,
    },
    /// The sender is not a voter of the epoch.
    NotAVoter {
        /// Sender.
        from: ReplicaId,
    },
    /// The ballot names a leader other than the sender.
    LeaderMismatch {
        /// Ballot leader.
        leader: ReplicaId,
        /// Sender.
        from: ReplicaId,
    },
    /// This replica does not vote in this epoch.
    NotVoting {
        /// Role.
        role: ReplicaRole,
    },
    /// The ballot is not higher than the promised (or in-flight) ballot.
    NotHigher {
        /// The ballot that bounds it.
        promised: Ballot,
    },
    /// This configuration is sealed. Ordinary voting is over for every
    /// ballot of it, including ones nobody has proposed yet, and the
    /// recorded transition is what has to be finished.
    Sealed {
        /// The transition this replica sealed for.
        transition: Transition,
    },
}

/// Why a seal was not written.
#[derive(Clone, Copy, Debug, PartialEq, Eq, Structural)]
pub enum SealRejection {
    /// The transition leaves another configuration than this one.
    WrongEpoch {
        /// Configured epoch.
        expected: ConfigurationEpoch,
        /// The transition's.
        got: ConfigurationEpoch,
    },
    /// This replica does not vote in this epoch, so it fences nothing.
    NotVoting {
        /// Role.
        role: ReplicaRole,
    },
    /// This replica is already sealed for another transition. A seal is
    /// irreversible and the recorded transition is the one that must be
    /// finished; a competing initiator does not get a second one.
    AlreadySealed {
        /// The transition it sealed for.
        held: Transition,
    },
}

/// A promise persisted but not yet durable.
#[derive(Clone, Copy, Debug, PartialEq, Eq, Structural)]
pub struct PromiseInFlight {
    /// Ballot being promised.
    pub ballot: Ballot,
    /// Barrier of the promise row.
    pub barrier: BarrierId,
    /// Candidate (at its authenticated incarnation) the reply goes to.
    pub to: PeerId,
}

/// Why a synchronization was not recorded.
#[allow(inconsistent_fields)]
#[derive(Clone, Copy, Debug, PartialEq, Eq, Structural)]
pub enum SyncRejection {
    /// The ballot's epoch is not this configuration.
    WrongEpoch {
        /// Configured epoch.
        expected: ConfigurationEpoch,
        /// Epoch received.
        got: ConfigurationEpoch,
    },
    /// The ballot precedes the highest synchronized ballot (a delayed Sync
    /// of an older ballot): the record never regresses.
    Regression {
        /// Highest synchronized ballot.
        synced: Ballot,
        /// Ballot received.
        got: Ballot,
    },
}

/// The effects of accepting a `NewLeader`.
#[derive(Debug)]
pub struct PromiseEffects {
    /// Persist the promise row.
    pub persist: PersistBatch,
    /// The reply, to publish on the logical outbox; it requires the promise
    /// row and every batch submitted before the cut.
    pub reply: PendingSend,
}

/// What a storage event did to the promise state.
#[derive(Clone, Copy, Debug, PartialEq, Eq, Structural)]
pub enum PromiseOutcome {
    /// The promise is durable: the promised ballot advanced.
    Promised(Ballot),
    /// The promise row failed; the earlier promise stands.
    Failed(Ballot),
    /// The seal row is durable: ordinary voting is over here.
    Sealed(Transition),
    /// The seal row failed. This replica is *not* sealed and says so; the
    /// initiator may ask again. It is not evidence that the transition was
    /// cancelled.
    SealFailed(Transition),
}

/// The effects of sealing.
#[derive(Debug)]
pub struct SealEffects {
    /// Persist the seal row.
    pub persist: PersistBatch,
    /// The seal report, to publish on the logical outbox. Like a promise
    /// reply it requires the row *and* every batch submitted before the
    /// cut, so what it reports is complete durable state.
    pub report: PendingSend,
}

/// One row of a seal, persisted and not yet durable.
#[derive(Clone, Copy, Debug, PartialEq, Eq, Structural)]
pub struct SealInFlight {
    /// Barrier of its batch.
    pub barrier: BarrierId,
    /// What the row says.
    pub record: SealRecordV1,
}

/// The promise state of one replica in one epoch.
#[derive(Debug)]
pub struct BallotState {
    identity: ConfigurationIdentity,
    promised: Ballot,
    synced: Ballot,
    /// Every promise persisted and not yet durable, in ascending ballot
    /// order. Each completes independently: a durable row advances the
    /// promise to its ballot (if higher), a failed row is forgotten while
    /// the others stay tracked, so no accepted promise is ever lost.
    in_flight: Vec<PromiseInFlight>,
    elections: u64,
    /// The durable seal, once it exists. Nothing in this type clears it.
    sealed: Option<SealRecordV1>,
    /// Every row of the seal persisted and not yet durable. A repeat is the
    /// same seal under another barrier: whichever row becomes durable first
    /// seals, and a failed one leaves the others.
    sealing: Vec<SealInFlight>,
}

/// What the promise state holds.
#[verifier::ext_equal]
pub struct BallotView {
    /// Identity.
    pub identity: IdentityView,
    /// Highest durably promised ballot.
    pub promised: Ballot,
    /// Highest synchronized ballot.
    pub synced: Ballot,
    /// Promises in flight.
    pub in_flight: Seq<PromiseInFlight>,
    /// Durable promise advances since recovery.
    pub elections: u64,
    /// The durable seal.
    pub sealed: Option<SealRecordV1>,
    /// The rows of the seal in flight.
    pub sealing: Seq<SealInFlight>,
}

impl View for BallotState {
    type V = BallotView;

    closed spec fn view(&self) -> BallotView {
        BallotView {
            identity: self.identity@,
            promised: self.promised,
            synced: self.synced,
            in_flight: self.in_flight@,
            elections: self.elections,
            sealed: self.sealed,
            sealing: self.sealing@,
        }
    }
}

/// Where the promise of a batch stands in the list; its length where there
/// is none.
pub open spec fn flight_of(s: Seq<PromiseInFlight>, barrier: BarrierId) -> int
    decreases s.len(),
{
    if s.len() == 0 {
        0
    } else if s[0].barrier == barrier {
        0
    } else {
        1 + flight_of(s.drop_first(), barrier)
    }
}

/// `barriers` and then `barrier`.
pub open spec fn resting_on(barriers: Seq<BarrierId>, barrier: BarrierId) -> Seq<BarrierId> {
    barriers.push(barrier)
}

/// Where the seal row of a batch stands in the list; its length where there
/// is none.
pub open spec fn seal_row_of(s: Seq<SealInFlight>, barrier: BarrierId) -> int
    decreases s.len(),
{
    if s.len() == 0 {
        0
    } else if s[0].barrier == barrier {
        0
    } else {
        1 + seal_row_of(s.drop_first(), barrier)
    }
}

/// The highest of a ballot and the ballots in flight.
pub open spec fn highest(promised: Ballot, in_flight: Seq<PromiseInFlight>) -> Ballot
    decreases in_flight.len(),
{
    if in_flight.len() == 0 {
        promised
    } else {
        let before = highest(promised, in_flight.drop_last());
        if supersedes(in_flight.last().ballot, before) {
            in_flight.last().ballot
        } else {
            before
        }
    }
}

impl BallotView {
    /// The state recovered from the durable rows.
    pub open spec fn recovered(
        identity: IdentityView,
        genesis: Ballot,
        durable: Option<PromiseRecordV1>,
        seal: Option<SealRecordV1>,
    ) -> Self {
        BallotView {
            identity,
            promised: match durable {
                Some(r) => r.promised,
                None => genesis,
            },
            synced: match durable {
                Some(r) => r.synced,
                None => genesis,
            },
            in_flight: Seq::empty(),
            elections: 0,
            sealed: seal,
            sealing: Seq::empty(),
        }
    }

    /// What effects bind.
    pub open spec fn context(self, boot: BootId, ballot: Ballot) -> EffectContext {
        EffectContext {
            domain: self.identity.domain,
            replica_incarnation: self.identity.incarnation,
            boot_id: boot,
            configuration: self.identity.epoch,
            ballot,
            required_journal_seq: LocalJournalSeq(0),
        }
    }

    /// The transition a seal, durable or in flight, is for.
    pub open spec fn seal_held(self) -> Option<Transition> {
        match self.sealed {
            Some(r) => Some(r.transition),
            None => if self.sealing.len() > 0 {
                Some(self.sealing[0].record.transition)
            } else {
                None
            },
        }
    }

    /// A seal is durable or in flight.
    pub open spec fn fenced(self) -> bool {
        self.seal_held() is Some
    }

    /// The ballot new ballots must exceed: the highest promised, durable or in
    /// flight.
    pub open spec fn bound(self) -> Ballot {
        highest(self.promised, self.in_flight)
    }

    /// Why a seal is not written.
    pub open spec fn seal_refusal(self, transition: Transition) -> Option<SealRejection> {
        if transition.from != self.identity.epoch {
            Some(
                SealRejection::WrongEpoch { expected: self.identity.epoch, got: transition.from },
            )
        } else if self.identity.role != ReplicaRole::Voter {
            Some(SealRejection::NotVoting { role: self.identity.role })
        } else if self.sealed is Some && self.sealed->0.transition != transition {
            Some(SealRejection::AlreadySealed { held: self.sealed->0.transition })
        } else if self.sealing.len() > 0 && self.sealing[0].record.transition != transition {
            Some(SealRejection::AlreadySealed { held: self.sealing[0].record.transition })
        } else {
            None
        }
    }

    /// The seal this replica would write.
    pub open spec fn seal_record(self, transition: Transition) -> SealRecordV1 {
        SealRecordV1 { transition, at: self.promised }
    }

    /// The batch of a seal.
    pub open spec fn seal_batch(self, transition: Transition, barrier: BarrierId) -> BatchView {
        BatchView {
            barrier,
            updates: seq![seal_row(self.identity.epoch, self.seal_record(transition))],
        }
    }

    /// The report of a seal.
    pub open spec fn seal_report(
        self,
        transition: Transition,
        to: PeerId,
        boot: BootId,
        barrier: BarrierId,
        outstanding: Seq<BarrierId>,
    ) -> SendView {
        SendView {
            context: self.context(boot, self.promised),
            requires_durable: resting_on(outstanding, barrier),
            to,
            frame: frame_of(
                MessageView::Sealed {
                    transition,
                    at: self.promised,
                    replica: self.identity.replica,
                },
            ),
        }
    }

    /// The state once the seal's batch is submitted.
    pub open spec fn sealing_under(self, transition: Transition, barrier: BarrierId) -> Self {
        BallotView {
            sealing: self.sealing.push(
                SealInFlight { barrier, record: self.seal_record(transition) },
            ),
            ..self
        }
    }

    /// Why a `NewLeader` produces no vote.
    pub open spec fn promise_refusal(self, from: PeerId, ballot: Ballot) -> Option<
        PromiseRejection,
    > {
        if self.sealed is Some {
            Some(PromiseRejection::Sealed { transition: self.sealed->0.transition })
        } else if ballot.epoch != self.identity.epoch {
            Some(
                PromiseRejection::WrongEpoch { expected: self.identity.epoch, got: ballot.epoch },
            )
        } else if !self.identity.voters.contains(from.replica) {
            Some(PromiseRejection::NotAVoter { from: from.replica })
        } else if ballot.leader != from.replica {
            Some(PromiseRejection::LeaderMismatch { leader: ballot.leader, from: from.replica })
        } else if self.identity.role != ReplicaRole::Voter {
            Some(PromiseRejection::NotVoting { role: self.identity.role })
        } else if !supersedes(ballot, self.bound()) {
            Some(PromiseRejection::NotHigher { promised: self.bound() })
        } else {
            None
        }
    }

    /// The batch of a promise.
    pub open spec fn promise_batch(self, ballot: Ballot, barrier: BarrierId) -> BatchView {
        BatchView {
            barrier,
            updates: seq![
                promise_row(
                    self.identity.epoch,
                    PromiseRecordV1 { promised: ballot, synced: self.synced },
                ),
            ],
        }
    }

    /// The reply of a promise.
    pub open spec fn promise_reply(
        self,
        from: PeerId,
        ballot: Ballot,
        boot: BootId,
        barrier: BarrierId,
        outstanding: Seq<BarrierId>,
    ) -> SendView {
        SendView {
            context: self.context(boot, ballot),
            requires_durable: resting_on(outstanding, barrier),
            to: from,
            frame: frame_of(
                MessageView::Promise {
                    ballot,
                    synced: self.synced,
                    replica: self.identity.replica,
                },
            ),
        }
    }

    /// The state once the promise's batch is submitted.
    pub open spec fn promising(self, from: PeerId, ballot: Ballot, barrier: BarrierId) -> Self {
        BallotView {
            in_flight: self.in_flight.push(PromiseInFlight { ballot, barrier, to: from }),
            ..self
        }
    }

    /// The event is about a row of the seal in flight.
    pub open spec fn about_seal(self, event: StorageEvent) -> bool {
        event.about() is Some && seal_row_of(self.sealing, event.about()->0) < self.sealing.len()
    }

    /// The seal row an event is about.
    pub open spec fn seal_in(self, event: StorageEvent) -> SealRecordV1 {
        self.sealing[seal_row_of(self.sealing, event.about()->0)].record
    }

    /// The event is about a promise in flight.
    pub open spec fn about_promise(self, event: StorageEvent) -> bool {
        event.about() is Some && flight_of(self.in_flight, event.about()->0) < self.in_flight.len()
    }

    /// The ballot of the promise an event is about.
    pub open spec fn flight_ballot(self, event: StorageEvent) -> Ballot {
        self.in_flight[flight_of(self.in_flight, event.about()->0)].ballot
    }

    /// The state after a storage event.
    pub open spec fn stored(self, event: StorageEvent) -> Self {
        if self.about_seal(event) {
            let rest = self.sealing.remove(seal_row_of(self.sealing, event.about()->0));
            match event {
                StorageEvent::JournalDurable { .. } => BallotView {
                    sealing: rest,
                    sealed: Some(self.seal_in(event)),
                    ..self
                },
                StorageEvent::Failed { .. } => BallotView { sealing: rest, ..self },
                _ => self,
            }
        } else if self.about_promise(event) {
            let rest = self.in_flight.remove(flight_of(self.in_flight, event.about()->0));
            let ballot = self.flight_ballot(event);
            match event {
                StorageEvent::JournalDurable { .. } => BallotView {
                    in_flight: rest,
                    promised: if supersedes(ballot, self.promised) {
                        ballot
                    } else {
                        self.promised
                    },
                    elections: (self.elections + 1) as u64,
                    ..self
                },
                StorageEvent::Failed { .. } => BallotView { in_flight: rest, ..self },
                _ => self,
            }
        } else {
            self
        }
    }

    /// What a storage event did.
    pub open spec fn outcome(self, event: StorageEvent) -> Option<PromiseOutcome> {
        if self.about_seal(event) {
            match event {
                StorageEvent::JournalDurable { .. } => Some(
                    PromiseOutcome::Sealed(self.seal_in(event).transition),
                ),
                StorageEvent::Failed { .. } => if self.sealed is Some {
                    None
                } else {
                    Some(PromiseOutcome::SealFailed(self.seal_in(event).transition))
                },
                _ => None,
            }
        } else if self.about_promise(event) {
            match event {
                StorageEvent::JournalDurable { .. } => Some(
                    PromiseOutcome::Promised(self.flight_ballot(event)),
                ),
                StorageEvent::Failed { .. } => Some(
                    PromiseOutcome::Failed(self.flight_ballot(event)),
                ),
                _ => None,
            }
        } else {
            None
        }
    }

    /// Why a synchronization is not recorded.
    pub open spec fn sync_refusal(self, ballot: Ballot) -> Option<SyncRejection> {
        if ballot.epoch != self.identity.epoch {
            Some(SyncRejection::WrongEpoch { expected: self.identity.epoch, got: ballot.epoch })
        } else if supersedes(self.synced, ballot) {
            Some(SyncRejection::Regression { synced: self.synced, got: ballot })
        } else {
            None
        }
    }

    /// The state synchronized to `ballot`.
    pub open spec fn synced_to(self, ballot: Ballot) -> Self {
        BallotView { synced: ballot, ..self }
    }

    /// The promises in flight ascend, all in this configuration, and every row
    /// of the seal is for one transition.
    pub open spec fn sound(self) -> bool {
        &&& forall|i: int|
            0 <= i < self.sealing.len() ==> Some((#[trigger] self.sealing[i]).record.transition)
                == self.seal_held()
        &&& self.promised.epoch == self.identity.epoch
        &&& forall|i: int|
            0 <= i < self.in_flight.len() ==> (#[trigger] self.in_flight[i]).ballot.epoch
                == self.identity.epoch
        &&& forall|i: int, j: int|
            0 <= i < j < self.in_flight.len() ==> supersedes(
                (#[trigger] self.in_flight[j]).ballot,
                (#[trigger] self.in_flight[i]).ballot,
            )
    }
}

/// A promise is not kept before it is durable: asking for it leaves the
/// promised ballot as it was, and its reply waits for its own row and for
/// every batch outstanding at the cut.
pub proof fn lemma_promise_replies_wait(
    state: BallotView,
    from: PeerId,
    ballot: Ballot,
    boot: BootId,
    barrier: BarrierId,
    outstanding: Seq<BarrierId>,
    k: int,
)
    requires
        0 <= k < outstanding.len(),
    ensures
        ({
            let reply = state.promise_reply(from, ballot, boot, barrier, outstanding);
            &&& state.promising(from, ballot, barrier).promised == state.promised
            &&& state.promise_batch(ballot, barrier).barrier == barrier
            &&& reply.requires_durable.contains(barrier)
            &&& reply.requires_durable.contains(outstanding[k])
        }),
{
    let all = resting_on(outstanding, barrier);
    assert(all[outstanding.len() as int] == barrier);
    assert(all[k] == outstanding[k]);
}

/// A promise is admitted only above everything promised and in flight, and
/// the promises in flight stay in ascending order.
pub proof fn lemma_promises_ascend(
    state: BallotView,
    from: PeerId,
    ballot: Ballot,
    barrier: BarrierId,
)
    requires
        state.sound(),
        state.promise_refusal(from, ballot) is None,
    ensures
        state.promising(from, ballot, barrier).sound(),
        supersedes(ballot, state.promised),
        forall|i: int|
            0 <= i < state.in_flight.len() ==> supersedes(ballot, (#[trigger] state.in_flight[i]).ballot),
{
    lemma_highest_is_highest(state.promised, state.in_flight);
}

proof fn lemma_flight_of(s: Seq<PromiseInFlight>, barrier: BarrierId)
    ensures
        0 <= flight_of(s, barrier) <= s.len(),
        flight_of(s, barrier) < s.len() ==> s[flight_of(s, barrier)].barrier == barrier,
        forall|i: int|
            0 <= i < flight_of(s, barrier) && i < s.len() ==> (#[trigger] s[i]).barrier != barrier,
    decreases s.len(),
{
    if s.len() > 0 && s[0].barrier != barrier {
        let rest = s.drop_first();
        lemma_flight_of(rest, barrier);
        assert forall|i: int| 0 <= i < flight_of(s, barrier) && i < s.len() implies (
        #[trigger] s[i]).barrier != barrier by {
            if i > 0 {
                assert(s[i] == rest[i - 1]);
            }
        }
    }
}

/// Whatever storage reports, the promised ballot never moves backward, a
/// durable seal stays, and the promises in flight stay ascending.
pub proof fn lemma_promise_never_lowered(state: BallotView, event: StorageEvent)
    requires
        state.sound(),
    ensures
        state.stored(event).sound(),
        state.stored(event).promised == state.promised || supersedes(state.stored(event).promised, state.promised),
        state.sealed is Some && state.sealing.len() == 0 ==> state.stored(event).sealed
            == state.sealed,
        state.sealed is Some ==> state.stored(event).sealed is Some,
        state.outcome(event) matches Some(PromiseOutcome::Promised(b)) ==> !supersedes(b, state.stored(event).promised),
{
    if event.about() is Some {
        lemma_flight_of(state.in_flight, event.about()->0);
        lemma_seal_row_of(state.sealing, event.about()->0);
        let i = seal_row_of(state.sealing, event.about()->0);
        if state.about_seal(event) {
            let next = state.stored(event);
            assert forall|k: int| 0 <= k < next.sealing.len() implies Some(
                (#[trigger] next.sealing[k]).record.transition,
            ) == next.seal_held() by {
                if next.sealing.len() < state.sealing.len() {
                    assert(next.sealing[k] == state.sealing[if k < i {
                        k
                    } else {
                        k + 1
                    }]);
                    assert(next.sealing[0] == state.sealing[if 0 < i {
                        0
                    } else {
                        1
                    }]);
                }
            }
        }
    }
}

proof fn lemma_seal_row_of(s: Seq<SealInFlight>, barrier: BarrierId)
    ensures
        0 <= seal_row_of(s, barrier) <= s.len(),
        seal_row_of(s, barrier) < s.len() ==> s[seal_row_of(s, barrier)].barrier == barrier,
        (exists|i: int| 0 <= i < s.len() && (#[trigger] s[i]).barrier == barrier)
            ==> seal_row_of(s, barrier) < s.len(),
    decreases s.len(),
{
    if s.len() > 0 && s[0].barrier != barrier {
        let rest = s.drop_first();
        lemma_seal_row_of(rest, barrier);
        if exists|i: int| 0 <= i < s.len() && (#[trigger] s[i]).barrier == barrier {
            let i = choose|i: int| 0 <= i < s.len() && (#[trigger] s[i]).barrier == barrier;
            assert(rest[i - 1].barrier == barrier);
        }
    }
}

/// Sealing again for one transition is the same seal: whichever of its rows
/// becomes durable seals the replica for that transition, and a row that fails
/// leaves the others in flight.
pub proof fn lemma_any_row_seals(
    state: BallotView,
    transition: Transition,
    again: BarrierId,
    row: SealInFlight,
    journal_seq: LocalJournalSeq,
    error: StorageError,
)
    requires
        state.sound(),
        state.seal_refusal(transition) is None,
        state.sealing.contains(row),
        row.barrier != again,
    ensures
        ({
            let repeated = state.sealing_under(transition, again);
            let durable = StorageEvent::JournalDurable { barrier: row.barrier, journal_seq };
            let failed = StorageEvent::Failed { barrier: again, error };
            &&& repeated.sound()
            &&& repeated.outcome(durable) == Some(PromiseOutcome::Sealed(transition))
            &&& repeated.stored(durable).sealed is Some
            &&& repeated.stored(durable).sealed->0.transition == transition
            &&& repeated.stored(failed).fenced()
        }),
{
    let repeated = state.sealing_under(transition, again);
    let k = choose|k: int| 0 <= k < state.sealing.len() && state.sealing[k] == row;
    assert(repeated.sealing[k].barrier == row.barrier);
    assert forall|i: int| 0 <= i < repeated.sealing.len() implies Some(
        (#[trigger] repeated.sealing[i]).record.transition,
    ) == repeated.seal_held() by {
        if i < state.sealing.len() {
            assert(repeated.sealing[i] == state.sealing[i]);
        }
        assert(repeated.sealing[0] == state.sealing[0]);
    }
    lemma_seal_row_of(repeated.sealing, row.barrier);
    lemma_seal_row_of(repeated.sealing, again);
    assert(repeated.sealing[seal_row_of(repeated.sealing, row.barrier)].record.transition
        == transition);
}

proof fn lemma_highest_is_highest(promised: Ballot, in_flight: Seq<PromiseInFlight>)
    ensures
        !supersedes(promised, highest(promised, in_flight)),
        highest(promised, in_flight) == promised || supersedes(
            highest(promised, in_flight),
            promised,
        ),
        forall|i: int|
            0 <= i < in_flight.len() ==> !supersedes(
                (#[trigger] in_flight[i]).ballot,
                highest(promised, in_flight),
            ),
        highest(promised, in_flight) == promised || exists|i: int|
            0 <= i < in_flight.len() && (#[trigger] in_flight[i]).ballot == highest(
                promised,
                in_flight,
            ),
    decreases in_flight.len(),
{
    if in_flight.len() > 0 {
        let before = in_flight.drop_last();
        lemma_highest_is_highest(promised, before);
        assert forall|i: int| 0 <= i < in_flight.len() implies !supersedes(
            (#[trigger] in_flight[i]).ballot,
            highest(promised, in_flight),
        ) by {
            if i < before.len() {
                assert(before[i] == in_flight[i]);
            }
        }
        let h = highest(promised, in_flight);
        if h != promised {
            if h == in_flight.last().ballot {
                assert(in_flight[in_flight.len() - 1].ballot == h);
            } else {
                let i = choose|i: int| 0 <= i < before.len() && (#[trigger] before[i]).ballot == h;
                assert(in_flight[i].ballot == h);
            }
        }
    }
}

/// The promise row is never lowered: recording a synchronization writes a
/// promise that is at or above the durable one and every one in flight.
pub proof fn lemma_sync_row_keeps_the_promise(state: BallotView, i: int)
    requires
        0 <= i < state.in_flight.len(),
    ensures
        !supersedes(state.promised, state.bound()),
        !supersedes(state.in_flight[i].ballot, state.bound()),
{
    lemma_highest_is_highest(state.promised, state.in_flight);
}

/// The state after storage events, in order.
pub open spec fn after_all(state: BallotView, events: Seq<StorageEvent>) -> BallotView
    decreases events.len(),
{
    if events.len() == 0 {
        state
    } else {
        after_all(state, events.drop_last()).stored(events.last())
    }
}

proof fn lemma_durable_keeps_the_highest(state: BallotView, event: StorageEvent)
    requires
        state.sound(),
        event is JournalDurable,
    ensures
        state.stored(event).bound() == state.bound(),
{
    let next = state.stored(event);
    if !state.about_seal(event) && state.about_promise(event) {
        let all = state.in_flight;
        lemma_flight_of(all, event.about()->0);
        let i = flight_of(all, event.about()->0);
        lemma_highest_is_highest(state.promised, all);
        lemma_highest_is_highest(next.promised, next.in_flight);
        let h = state.bound();
        let m = next.bound();
        assert forall|k: int| 0 <= k < next.in_flight.len() implies next.in_flight[k] == all[if k
            < i {
            k
        } else {
            k + 1
        }] by {}
        // Each is one of the ballots the other is not below.
        assert(!supersedes(m, h)) by {
            if m != next.promised {
                let k = choose|k: int|
                    0 <= k < next.in_flight.len() && (#[trigger] next.in_flight[k]).ballot == m;
                assert(all[if k < i {
                    k
                } else {
                    k + 1
                }].ballot == m);
            }
        }
        assert(!supersedes(h, m)) by {
            if h != state.promised {
                let k = choose|k: int| 0 <= k < all.len() && (#[trigger] all[k]).ballot == h;
                if k < i {
                    assert(next.in_flight[k].ballot == h);
                } else if k > i {
                    assert(next.in_flight[k - 1].ballot == h);
                }
            }
        }
        assert(h.epoch == state.identity.epoch) by {
            if h != state.promised {
                let k = choose|k: int| 0 <= k < all.len() && (#[trigger] all[k]).ballot == h;
                assert(all[k].ballot.epoch == state.identity.epoch);
            }
        }
        assert(m.epoch == state.identity.epoch) by {
            assert(all[i].ballot.epoch == state.identity.epoch);
            if m != next.promised {
                let k = choose|k: int|
                    0 <= k < next.in_flight.len() && (#[trigger] next.in_flight[k]).ballot == m;
                let at = if k < i {
                    k
                } else {
                    k + 1
                };
                assert(all[at].ballot.epoch == state.identity.epoch);
            }
        }
        assert(m == h);
    }
}

/// The rows of several promises may become durable in any order: what is
/// promised at the end is the highest of them all.
pub proof fn lemma_promises_settle_at_the_highest(state: BallotView, events: Seq<StorageEvent>)
    requires
        state.sound(),
        forall|i: int| 0 <= i < events.len() ==> #[trigger] events[i] is JournalDurable,
    ensures
        after_all(state, events).sound(),
        after_all(state, events).bound() == state.bound(),
        after_all(state, events).in_flight.len() == 0 ==> after_all(state, events).promised
            == state.bound(),
    decreases events.len(),
{
    if events.len() > 0 {
        let before = events.drop_last();
        assert forall|i: int| 0 <= i < before.len() implies #[trigger] before[i] is JournalDurable by {
            assert(events[i] is JournalDurable);
        }
        lemma_promises_settle_at_the_highest(state, before);
        assert(events[events.len() - 1] is JournalDurable);
        lemma_durable_keeps_the_highest(after_all(state, before), events.last());
        lemma_promise_never_lowered(after_all(state, before), events.last());
    }
}

/// A sealed replica votes for no ballot, however high, and stays sealed for
/// the transition it sealed for whatever it is asked.
pub proof fn lemma_seal_is_final(
    state: BallotView,
    from: PeerId,
    ballot: Ballot,
    transition: Transition,
    barrier: BarrierId,
    event: StorageEvent,
)
    requires
        state.sound(),
        state.sealed is Some,
    ensures
        state.promise_refusal(from, ballot) is Some,
        state.stored(event).sealed is Some,
        state.stored(event).sealed->0.transition == state.sealed->0.transition,
        state.seal_refusal(transition) is None ==> transition == state.sealed->0.transition,
{
    if event.about() is Some {
        lemma_seal_row_of(state.sealing, event.about()->0);
    }
}

impl BallotState {
    /// Recover from the durable promise row (`None` before any promise: the
    /// genesis ballot of the configuration is promised implicitly).
    pub fn recover(
        identity: ConfigurationIdentity,
        genesis: Ballot,
        durable: Option<PromiseRecordV1>,
    ) -> (r: Self)
        ensures
            r@ == BallotView::recovered(identity@, genesis, durable, None),
    {
        Self::recover_sealed(identity, genesis, durable, None)
    }

    /// Recover from the durable promise row and the durable seal row.
    ///
    /// A replica whose seal row is there comes back sealed: it is not a
    /// decision this type makes on recovery, it is a row it reads. The
    /// absence of the row means this replica has no seal -- never that the
    /// transition was cancelled, which is a quorum's fact and not one
    /// replica's.
    pub fn recover_sealed(
        identity: ConfigurationIdentity,
        genesis: Ballot,
        durable: Option<PromiseRecordV1>,
        seal: Option<SealRecordV1>,
    ) -> (r: Self)
        ensures
            r@ == BallotView::recovered(identity@, genesis, durable, seal),
    {
        let (promised, synced) = match durable {
            Some(r) => (r.promised, r.synced),
            None => (genesis, genesis),
        };
        let r = BallotState {
            identity,
            promised,
            synced,
            in_flight: Vec::new(),
            elections: 0,
            sealed: seal,
            sealing: Vec::new(),
        };
        proof {
            assert(r@ =~= BallotView::recovered(identity@, genesis, durable, seal));
        }
        r
    }

    /// The durable seal, if this replica has one.
    pub fn sealed(&self) -> (r: Option<SealRecordV1>)
        ensures
            r == self@.sealed,
    {
        self.sealed
    }

    /// Whether ordinary voting is over here.
    pub fn is_sealed(&self) -> (r: bool)
        ensures
            r == (self@.sealed is Some),
    {
        self.sealed.is_some()
    }

    /// The transition a seal is for, durable or still being written.
    pub fn seal_held(&self) -> (r: Option<Transition>)
        ensures
            r == self@.seal_held(),
    {
        match self.sealed {
            Some(r) => Some(r.transition),
            None => if self.sealing.len() > 0 {
                Some(self.sealing[0].record.transition)
            } else {
                None
            },
        }
    }

    /// Whether a seal, durable or still being written, ends voting here.
    pub fn is_fenced(&self) -> (r: bool)
        ensures
            r == self@.fenced(),
    {
        self.sealed.is_some() || self.sealing.len() > 0
    }

    /// Configuration identity.
    pub fn identity(&self) -> (r: &ConfigurationIdentity)
        ensures
            r@ == self@.identity,
    {
        &self.identity
    }

    /// Highest durably promised ballot: the ballot voting transitions are
    /// admitted under, and the bound the outbox fences against.
    pub fn promised(&self) -> (r: Ballot)
        ensures
            r == self@.promised,
    {
        self.promised
    }

    /// Highest synchronized ballot.
    pub fn synced(&self) -> (r: Ballot)
        ensures
            r == self@.synced,
    {
        self.synced
    }

    /// The highest promise in flight, if any.
    pub fn in_flight(&self) -> (r: Option<PromiseInFlight>)
        ensures
            r == (if self@.in_flight.len() == 0 {
                None
            } else {
                Some(self@.in_flight.last())
            }),
    {
        let n: usize = self.in_flight.len();
        if n == 0 {
            None
        } else {
            Some(self.in_flight[n - 1])
        }
    }

    /// Every promise in flight, in ascending ballot order.
    pub fn promises_in_flight(&self) -> (r: &Vec<PromiseInFlight>)
        ensures
            r@ == self@.in_flight,
    {
        &self.in_flight
    }

    /// Number of durable promise advances since recovery (same-boot
    /// elections).
    pub fn elections(&self) -> (r: u64)
        ensures
            r == self@.elections,
    {
        self.elections
    }

    /// The context every effect of this replica binds: domain, incarnation,
    /// boot, epoch and the ballot it was produced under.
    pub fn context(&self, boot: BootId, ballot: Ballot) -> (r: EffectContext)
        ensures
            r == self@.context(boot, ballot),
    {
        EffectContext {
            domain: self.identity.domain,
            replica_incarnation: self.identity.incarnation,
            boot_id: boot,
            configuration: self.identity.epoch,
            ballot,
            required_journal_seq: LocalJournalSeq(0),
        }
    }

    /// The highest ballot promised, durable or in flight: what a new ballot
    /// must exceed, and what the promise row says from here on.
    pub fn bound(&self) -> (r: Ballot)
        ensures
            r == self@.bound(),
    {
        let mut bound = self.promised;
        let mut i: usize = 0;
        proof {
            assert(self.in_flight@.take(0) =~= Seq::empty());
        }
        while i < self.in_flight.len()
            invariant
                i <= self.in_flight@.len(),
                bound == highest(self.promised, self.in_flight@.take(i as int)),
            decreases self.in_flight@.len() - i,
        {
            if self.in_flight[i].ballot.supersedes(&bound) {
                bound = self.in_flight[i].ballot;
            }
            proof {
                assert(self.in_flight@.take(i + 1).drop_last() =~= self.in_flight@.take(i as int));
            }
            i = i + 1;
        }
        proof {
            assert(self.in_flight@.take(self.in_flight@.len() as int) =~= self.in_flight@);
        }
        bound
    }

    /// Seal this configuration for `transition`.
    ///
    /// The row is persisted and the report published through the logical
    /// outbox requiring it and `outstanding`, exactly as a promise reply
    /// is: a seal that was reported before its own row was durable would
    /// let an initiator count a fence that a crash then removed, and a
    /// report built before the outstanding batches resolved would omit work
    /// this replica had already learned.
    ///
    /// Sealing again for the same transition is the same seal, which is
    /// what makes a retry after a lost report safe. Sealing for another one
    /// is refused. `to` is the coordinator that asked, at its authenticated
    /// incarnation.
    pub fn seal(
        &mut self,
        transition: Transition,
        to: PeerId,
        boot: BootId,
        alloc: &mut BarrierAllocator,
        outstanding: &Vec<BarrierId>,
    ) -> (r: Result<SealEffects, SealRejection>)
        ensures
            match old(self)@.seal_refusal(transition) {
                Some(e) => r == Err::<SealEffects, SealRejection>(e) && final(self)@ == old(self)@
                    && final(alloc)@ == old(alloc)@,
                None => {
                    let barrier = BarrierId(old(alloc)@);
                    &&& r is Ok
                    &&& r->Ok_0.persist@ == old(self)@.seal_batch(transition, barrier)
                    &&& r->Ok_0.report@ == old(self)@.seal_report(
                        transition,
                        to,
                        boot,
                        barrier,
                        outstanding@,
                    )
                    &&& final(self)@ == old(self)@.sealing_under(transition, barrier)
                    &&& final(alloc)@ == next_number(old(alloc)@)
                },
            },
    {
        if transition.from != self.identity.epoch {
            return Err(
                SealRejection::WrongEpoch { expected: self.identity.epoch, got: transition.from },
            );
        }
        if self.identity.role != ReplicaRole::Voter {
            return Err(SealRejection::NotVoting { role: self.identity.role });
        }
        if let Some(held) = self.sealed {
            if held.transition != transition {
                return Err(SealRejection::AlreadySealed { held: held.transition });
            }
        }
        if self.sealing.len() > 0 {
            let held = self.sealing[0].record;
            if held.transition != transition {
                return Err(SealRejection::AlreadySealed { held: held.transition });
            }
        }
        let record = SealRecordV1 { transition, at: self.promised };
        let barrier = alloc.allocate();
        let mut updates = Vec::new();
        updates.push(seal_update(self.identity.epoch, &record));
        let persist = PersistBatch { barrier, updates };
        let mut requires_durable = copy_barriers(outstanding);
        requires_durable.push(barrier);
        let report = PendingSend {
            context: self.context(boot, self.promised),
            requires_durable,
            to,
            frame: (ProtocolMessage::Sealed {
                transition,
                at: self.promised,
                replica: self.identity.replica,
            }).encode(),
        };
        self.sealing.push(SealInFlight { barrier, record });
        proof {
            assert(persist@ =~= old(self)@.seal_batch(transition, barrier));
            assert(self@ =~= old(self)@.sealing_under(transition, barrier));
        }
        Ok(SealEffects { persist, report })
    }

    /// Handle `NewLeader { ballot }` from the candidate `from` (its
    /// authenticated replica and incarnation, which the reply is addressed
    /// to so a stale incarnation of the candidate never receives it). On
    /// acceptance the promise row is persisted and the reply is published
    /// requiring it and `outstanding` (every barrier submitted before this
    /// cut and not yet complete).
    pub fn on_new_leader(
        &mut self,
        from: PeerId,
        ballot: Ballot,
        boot: BootId,
        alloc: &mut BarrierAllocator,
        outstanding: &Vec<BarrierId>,
    ) -> (r: Result<PromiseEffects, PromiseRejection>)
        ensures
            match old(self)@.promise_refusal(from, ballot) {
                Some(e) => r == Err::<PromiseEffects, PromiseRejection>(e) && final(self)@ == old(
                    self,
                )@ && final(alloc)@ == old(alloc)@,
                None => {
                    let barrier = BarrierId(old(alloc)@);
                    &&& r is Ok
                    &&& r->Ok_0.persist@ == old(self)@.promise_batch(ballot, barrier)
                    &&& r->Ok_0.reply@ == old(self)@.promise_reply(
                        from,
                        ballot,
                        boot,
                        barrier,
                        outstanding@,
                    )
                    &&& final(self)@ == old(self)@.promising(from, ballot, barrier)
                    &&& final(alloc)@ == next_number(old(alloc)@)
                },
            },
    {
        // The seal comes first. A higher ballot is not an exception to a
        // fence; it is the thing a fence exists to stop.
        if let Some(held) = self.sealed {
            return Err(PromiseRejection::Sealed { transition: held.transition });
        }
        if ballot.epoch != self.identity.epoch {
            return Err(
                PromiseRejection::WrongEpoch { expected: self.identity.epoch, got: ballot.epoch },
            );
        }
        if !self.identity.voters.contains(&from.replica) {
            return Err(PromiseRejection::NotAVoter { from: from.replica });
        }
        if ballot.leader != from.replica {
            return Err(
                PromiseRejection::LeaderMismatch { leader: ballot.leader, from: from.replica },
            );
        }
        if self.identity.role != ReplicaRole::Voter {
            return Err(PromiseRejection::NotVoting { role: self.identity.role });
        }
        let bound = self.bound();
        if !ballot.supersedes(&bound) {
            return Err(PromiseRejection::NotHigher { promised: bound });
        }
        let barrier = alloc.allocate();
        let record = PromiseRecordV1 { promised: ballot, synced: self.synced };
        let mut updates = Vec::new();
        updates.push(promise_update(self.identity.epoch, &record));
        let persist = PersistBatch { barrier, updates };
        let mut requires_durable = copy_barriers(outstanding);
        requires_durable.push(barrier);
        let reply = PendingSend {
            context: self.context(boot, ballot),
            requires_durable,
            to: from,
            frame: (ProtocolMessage::Promise {
                ballot,
                synced: self.synced,
                replica: self.identity.replica,
            }).encode(),
        };
        self.in_flight.push(PromiseInFlight { ballot, barrier, to: from });
        proof {
            assert(persist@ =~= old(self)@.promise_batch(ballot, barrier));
            assert(self@ =~= old(self)@.promising(from, ballot, barrier));
        }
        Ok(PromiseEffects { persist, reply })
    }

    fn find_flight(&self, barrier: BarrierId) -> (r: Option<usize>)
        ensures
            match r {
                Some(i) => i == flight_of(self@.in_flight, barrier) && i < self@.in_flight.len(),
                None => flight_of(self@.in_flight, barrier) == self@.in_flight.len(),
            },
    {
        let ghost all = self.in_flight@;
        let mut i: usize = 0;
        proof {
            assert(all.skip(0) =~= all);
        }
        while i < self.in_flight.len()
            invariant
                i <= self.in_flight@.len(),
                all == self.in_flight@,
                flight_of(all, barrier) == i + flight_of(all.skip(i as int), barrier),
            decreases self.in_flight@.len() - i,
        {
            proof {
                let rest = all.skip(i as int);
                assert(rest[0] == all[i as int]);
                assert(rest.drop_first() =~= all.skip(i + 1));
            }
            if self.in_flight[i].barrier == barrier {
                return Some(i);
            }
            i = i + 1;
        }
        None
    }

    fn find_seal(&self, barrier: BarrierId) -> (r: Option<usize>)
        ensures
            match r {
                Some(i) => i == seal_row_of(self@.sealing, barrier) && i < self@.sealing.len(),
                None => seal_row_of(self@.sealing, barrier) == self@.sealing.len(),
            },
    {
        let ghost all = self.sealing@;
        let mut i: usize = 0;
        proof {
            assert(all.skip(0) =~= all);
        }
        while i < self.sealing.len()
            invariant
                i <= self.sealing@.len(),
                all == self.sealing@,
                seal_row_of(all, barrier) == i + seal_row_of(all.skip(i as int), barrier),
            decreases self.sealing@.len() - i,
        {
            proof {
                let rest = all.skip(i as int);
                assert(rest[0] == all[i as int]);
                assert(rest.drop_first() =~= all.skip(i + 1));
            }
            if self.sealing[i].barrier == barrier {
                return Some(i);
            }
            i = i + 1;
        }
        None
    }

    /// Observe a storage fact about one in-flight promise: a durable row
    /// advances the promised ballot to its ballot (rows of several promises
    /// may complete in any order; the promise never moves backward), a
    /// failed one is dropped while the earlier promise, and every other
    /// promise in flight, stay in force. Of a seal, the first durable row ends
    /// ordinary voting; a failed one says so unless the seal is durable already.
    pub fn on_storage(&mut self, event: &StorageEvent) -> (r: Option<PromiseOutcome>)
        requires
            old(self)@.elections < u64::MAX,
        ensures
            final(self)@ == old(self)@.stored(*event),
            r == old(self)@.outcome(*event),
    {
        let barrier = match event.barrier() {
            Some(b) => b,
            None => {
                return None;
            },
        };
        if let Some(i) = self.find_seal(barrier) {
            return match event {
                StorageEvent::JournalDurable { .. } => {
                    let record = self.sealing.remove(i).record;
                    self.sealed = Some(record);
                    proof {
                        assert(self@ =~= old(self)@.stored(*event));
                    }
                    Some(PromiseOutcome::Sealed(record.transition))
                },
                StorageEvent::Failed { .. } => {
                    let record = self.sealing.remove(i).record;
                    proof {
                        assert(self@ =~= old(self)@.stored(*event));
                    }
                    if self.sealed.is_some() {
                        None
                    } else {
                        Some(PromiseOutcome::SealFailed(record.transition))
                    }
                },
                _ => None,
            };
        }
        let index: usize = match self.find_flight(barrier) {
            Some(i) => i,
            None => {
                return None;
            },
        };
        match event {
            StorageEvent::JournalDurable { .. } => {
                let ballot = self.in_flight.remove(index).ballot;
                if ballot.supersedes(&self.promised) {
                    self.promised = ballot;
                }
                self.elections = self.elections + 1;
                proof {
                    assert(self@ =~= old(self)@.stored(*event));
                }
                Some(PromiseOutcome::Promised(ballot))
            },
            StorageEvent::Failed { .. } => {
                let ballot = self.in_flight.remove(index).ballot;
                proof {
                    assert(self@ =~= old(self)@.stored(*event));
                }
                Some(PromiseOutcome::Failed(ballot))
            },
            _ => None,
        }
    }

    /// Why a Sync of `ballot` is refused: another epoch, or a ballot below
    /// the synchronized one.
    pub fn sync_rejection(&self, ballot: Ballot) -> (r: Option<SyncRejection>)
        ensures
            r == self@.sync_refusal(ballot),
    {
        if ballot.epoch != self.identity.epoch {
            return Some(
                SyncRejection::WrongEpoch { expected: self.identity.epoch, got: ballot.epoch },
            );
        }
        if self.synced.supersedes(&ballot) {
            return Some(SyncRejection::Regression { synced: self.synced, got: ballot });
        }
        None
    }

    /// Record that this replica synchronized to `ballot` (adopted a Sync);
    /// the caller persists the row. The ballot must belong to this
    /// configuration and not precede the highest synchronized ballot: a
    /// delayed Sync of an older ballot changes nothing. The row overwrites the
    /// epoch's one promise row, so it carries the highest promise, one still in
    /// flight included.
    pub fn mark_synced(&mut self, ballot: Ballot) -> (r: Result<PromiseRecordV1, SyncRejection>)
        ensures
            match old(self)@.sync_refusal(ballot) {
                Some(e) => r == Err::<PromiseRecordV1, SyncRejection>(e) && final(self)@ == old(
                    self,
                )@,
                None => r == Ok::<PromiseRecordV1, SyncRejection>(
                    PromiseRecordV1 { promised: old(self)@.bound(), synced: ballot },
                ) && final(self)@ == old(self)@.synced_to(ballot),
            },
    {
        if let Some(e) = self.sync_rejection(ballot) {
            return Err(e);
        }
        self.synced = ballot;
        Ok(PromiseRecordV1 { promised: self.bound(), synced: self.synced })
    }
}

} // verus!
