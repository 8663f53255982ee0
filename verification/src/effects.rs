//! What a machine asks of the runtime, and what storage tells it.
//!
//! A machine reads no clock and does no I/O. It returns effects: batches to
//! make durable, sends to publish on the logical outbox, and results to hand
//! to the frontend. A published send names the batches it rests on; the
//! outbox holds it until every one of them is durable, drops it when one
//! fails, and drops it when its ballot is below the promised one.

use vstd::prelude::*;

use crate::bytes::copy_bytes;
use crate::ids::{
    Ballot, BarrierId, BootId, CommandId, ConfigurationEpoch, Digest32, DomainId, ExecutionPosition,
    KvRevision, LocalJournalSeq, PeerId, ReplicaId,
};
use crate::lists::copy_list;
use crate::ordered::{Dup, OrdSet, dup_all, views};

verus! {

/// What every effect of a replica binds: its domain, its incarnation and
/// boot, the configuration and the ballot the effect was produced under.
#[derive(Clone, Copy, Debug, PartialEq, Eq, Hash, Structural)]
pub struct EffectContext {
    /// Domain.
    pub domain: DomainId,
    /// Incarnation of the replica.
    pub replica_incarnation: u64,
    /// Boot.
    pub boot_id: BootId,
    /// Configuration epoch.
    pub configuration: ConfigurationEpoch,
    /// Ballot.
    pub ballot: Ballot,
    /// Journal position the effect needs.
    pub required_journal_seq: LocalJournalSeq,
}

/// A collection rows live in.
#[derive(Clone, Copy, Debug, PartialEq, Eq, Hash, Structural)]
pub enum Collection {
    /// Protocol rows.
    ProtocolV1,
    /// Command payloads.
    PayloadV1,
}

/// A row's value before the store frames it.
#[derive(Debug)]
pub struct StoreEnvelope {
    /// Kind of record.
    pub record_kind: u16,
    /// Version of the payload's layout.
    pub schema_version: u16,
    /// The record.
    pub payload: Vec<u8>,
}

/// What an envelope holds.
#[verifier::ext_equal]
pub struct EnvelopeView {
    /// Kind of record.
    pub record_kind: u16,
    /// Version of the payload's layout.
    pub schema_version: u16,
    /// The record.
    pub payload: Seq<u8>,
}

impl View for StoreEnvelope {
    type V = EnvelopeView;

    open spec fn view(&self) -> EnvelopeView {
        EnvelopeView {
            record_kind: self.record_kind,
            schema_version: self.schema_version,
            payload: self.payload@,
        }
    }
}

impl Dup for StoreEnvelope {
    fn dup(&self) -> (r: Self) {
        StoreEnvelope {
            record_kind: self.record_kind,
            schema_version: self.schema_version,
            payload: copy_bytes(&self.payload),
        }
    }
}

/// One row to write.
#[derive(Debug)]
pub struct StoreUpdate {
    /// Collection.
    pub collection: Collection,
    /// Key.
    pub key: Vec<u8>,
    /// Value.
    pub value: StoreEnvelope,
}

/// What an update writes.
#[verifier::ext_equal]
pub struct UpdateView {
    /// Collection.
    pub collection: Collection,
    /// Key.
    pub key: Seq<u8>,
    /// Value.
    pub value: EnvelopeView,
}

impl View for StoreUpdate {
    type V = UpdateView;

    open spec fn view(&self) -> UpdateView {
        UpdateView { collection: self.collection, key: self.key@, value: self.value@ }
    }
}

impl Dup for StoreUpdate {
    fn dup(&self) -> (r: Self) {
        StoreUpdate {
            collection: self.collection,
            key: copy_bytes(&self.key),
            value: self.value.dup(),
        }
    }
}

/// Rows to make durable together.
#[derive(Debug)]
pub struct PersistBatch {
    /// Barrier that names the batch.
    pub barrier: BarrierId,
    /// The rows.
    pub updates: Vec<StoreUpdate>,
}

/// What a batch writes.
#[verifier::ext_equal]
pub struct BatchView {
    /// Barrier that names the batch.
    pub barrier: BarrierId,
    /// The rows.
    pub updates: Seq<UpdateView>,
}

impl View for PersistBatch {
    type V = BatchView;

    open spec fn view(&self) -> BatchView {
        BatchView { barrier: self.barrier, updates: views(self.updates@) }
    }
}

/// A send that waits for the batches it rests on.
#[derive(Debug)]
pub struct PendingSend {
    /// What it was produced under.
    pub context: EffectContext,
    /// Batches that must be durable first.
    pub requires_durable: Vec<BarrierId>,
    /// Receiver.
    pub to: PeerId,
    /// The frame.
    pub frame: Vec<u8>,
}

/// What a send says.
#[verifier::ext_equal]
pub struct SendView {
    /// What it was produced under.
    pub context: EffectContext,
    /// Batches that must be durable first.
    pub requires_durable: Seq<BarrierId>,
    /// Receiver.
    pub to: PeerId,
    /// The frame.
    pub frame: Seq<u8>,
}

impl View for PendingSend {
    type V = SendView;

    open spec fn view(&self) -> SendView {
        SendView {
            context: self.context,
            requires_durable: self.requires_durable@,
            to: self.to,
            frame: self.frame@,
        }
    }
}

/// A copy of a barrier list.
pub fn copy_barriers(list: &Vec<BarrierId>) -> (r: Vec<BarrierId>)
    ensures
        r@ == list@,
{
    let r = dup_all(list);
    proof {
        lemma_barrier_views(r@);
        lemma_barrier_views(list@);
    }
    r
}

/// A barrier is its own view.
pub proof fn lemma_barrier_views(s: Seq<BarrierId>)
    ensures
        views(s) == s,
{
    assert(views(s) =~= s);
}

impl Dup for PendingSend {
    fn dup(&self) -> (r: Self) {
        PendingSend {
            context: self.context,
            requires_durable: copy_barriers(&self.requires_durable),
            to: self.to,
            frame: copy_bytes(&self.frame),
        }
    }
}

/// What establishes one command's result: the command, where it executed
/// and after which commands, and the exact result.
#[derive(Debug)]
pub struct EstablishmentEvidence {
    /// Command.
    pub command: CommandId,
    /// Epoch.
    pub epoch: ConfigurationEpoch,
    /// Ballot.
    pub ballot: Ballot,
    /// Execution position.
    pub position: ExecutionPosition,
    /// Every transitive predecessor.
    pub closed_predecessors: Vec<CommandId>,
    /// Digest of the exact result.
    pub result_digest: Digest32,
    /// KV revision produced, if any.
    pub revision: Option<KvRevision>,
    /// Whether the fast predicate learned it.
    pub fast_path: bool,
}

/// What the evidence says.
#[verifier::ext_equal]
pub struct EstablishmentView {
    /// Command.
    pub command: CommandId,
    /// Epoch.
    pub epoch: ConfigurationEpoch,
    /// Ballot.
    pub ballot: Ballot,
    /// Execution position.
    pub position: ExecutionPosition,
    /// Every transitive predecessor.
    pub closed_predecessors: Seq<CommandId>,
    /// Digest of the exact result.
    pub result_digest: Digest32,
    /// KV revision produced, if any.
    pub revision: Option<KvRevision>,
    /// Whether the fast predicate learned it.
    pub fast_path: bool,
}

impl View for EstablishmentEvidence {
    type V = EstablishmentView;

    open spec fn view(&self) -> EstablishmentView {
        EstablishmentView {
            command: self.command,
            epoch: self.epoch,
            ballot: self.ballot,
            position: self.position,
            closed_predecessors: self.closed_predecessors@,
            result_digest: self.result_digest,
            revision: self.revision,
            fast_path: self.fast_path,
        }
    }
}

impl Dup for EstablishmentEvidence {
    fn dup(&self) -> (r: Self) {
        EstablishmentEvidence {
            command: self.command,
            epoch: self.epoch,
            ballot: self.ballot,
            position: self.position,
            closed_predecessors: copy_list(&self.closed_predecessors),
            result_digest: self.result_digest,
            revision: self.revision,
            fast_path: self.fast_path,
        }
    }
}

/// A result that may leave the replica.
#[derive(Debug)]
pub struct ReleasedResult {
    /// What establishes it.
    pub evidence: EstablishmentEvidence,
    /// The exact encoded response.
    pub response: Vec<u8>,
    /// Whether it is released ahead of materialization.
    pub speculative: bool,
}

/// What a released result says.
#[verifier::ext_equal]
pub struct ReleasedView {
    /// What establishes it.
    pub evidence: EstablishmentView,
    /// The exact encoded response.
    pub response: Seq<u8>,
    /// Whether it is released ahead of materialization.
    pub speculative: bool,
}

impl View for ReleasedResult {
    type V = ReleasedView;

    open spec fn view(&self) -> ReleasedView {
        ReleasedView {
            evidence: self.evidence@,
            response: self.response@,
            speculative: self.speculative,
        }
    }
}

/// Something a machine asks of the runtime.
#[derive(Debug)]
pub enum Effect {
    /// Make a batch durable.
    Persist(PersistBatch),
    /// Publish a send on the logical outbox.
    Publish(PendingSend),
    /// A command's result is established.
    Established(EstablishmentEvidence),
    /// A result may leave the replica.
    Released(ReleasedResult),
}

/// What an effect asks.
#[verifier::ext_equal]
pub enum EffectView {
    /// Make a batch durable.
    Persist(BatchView),
    /// Publish a send on the logical outbox.
    Publish(SendView),
    /// A command's result is established.
    Established(EstablishmentView),
    /// A result may leave the replica.
    Released(ReleasedView),
}

impl View for Effect {
    type V = EffectView;

    open spec fn view(&self) -> EffectView {
        match self {
            Effect::Persist(b) => EffectView::Persist(b@),
            Effect::Publish(s) => EffectView::Publish(s@),
            Effect::Established(e) => EffectView::Established(e@),
            Effect::Released(r) => EffectView::Released(r@),
        }
    }
}

/// What storage reported of a batch that did not become durable.
#[derive(Clone, Copy, Debug, PartialEq, Eq, Hash, Structural)]
pub enum StorageError {
    /// The batch was definitely not written.
    DefinitelyNotCommitted,
    /// Whether the batch was written is unknown.
    Unknown,
    /// Storage is no longer usable.
    Fatal,
}

/// A fact storage reports.
#[derive(Clone, Copy, Debug, PartialEq, Eq, Structural)]
pub enum StorageEvent {
    /// The batch is durable in the journal.
    JournalDurable {
        /// Barrier of the batch.
        barrier: BarrierId,
        /// Its position in the journal.
        journal_seq: LocalJournalSeq,
    },
    /// The batch is visible to readers.
    Materialized {
        /// Barrier of the batch.
        barrier: BarrierId,
    },
    /// The batch failed.
    Failed {
        /// Barrier of the batch.
        barrier: BarrierId,
        /// What storage reported.
        error: StorageError,
    },
    /// A local checkpoint was published.
    LocalCheckpointPublished,
}

impl StorageEvent {
    /// The batch an event is about.
    pub open spec fn about(self) -> Option<BarrierId> {
        match self {
            StorageEvent::JournalDurable { barrier, .. } => Some(barrier),
            StorageEvent::Materialized { barrier } => Some(barrier),
            StorageEvent::Failed { barrier, .. } => Some(barrier),
            StorageEvent::LocalCheckpointPublished => None,
        }
    }

    /// The batch this event is about, if it is about one.
    pub fn barrier(&self) -> (r: Option<BarrierId>)
        ensures
            r == self.about(),
    {
        match self {
            StorageEvent::JournalDurable { barrier, journal_seq: _ } => Some(*barrier),
            StorageEvent::Materialized { barrier } => Some(*barrier),
            StorageEvent::Failed { barrier, error: _ } => Some(*barrier),
            StorageEvent::LocalCheckpointPublished => None,
        }
    }
}

/// The barriers of one boot, in the order they are given out. The counter
/// starts over after the last one.
#[derive(Clone, Copy, Debug, PartialEq, Eq, Structural)]
pub struct BarrierAllocator {
    next: u64,
}

/// The number after `n`.
pub open spec fn next_number(n: u64) -> u64 {
    if n == u64::MAX {
        0
    } else {
        (n + 1) as u64
    }
}

impl View for BarrierAllocator {
    type V = u64;

    closed spec fn view(&self) -> u64 {
        self.next
    }
}

impl BarrierAllocator {
    /// The first barrier is `first`.
    pub fn new(first: u64) -> (r: Self)
        ensures
            r@ == first,
    {
        BarrierAllocator { next: first }
    }

    /// The next barrier.
    pub fn allocate(&mut self) -> (r: BarrierId)
        ensures
            r == BarrierId(old(self)@),
            final(self)@ == next_number(old(self)@),
    {
        let r = BarrierId(self.next);
        self.next = if self.next == u64::MAX {
            0
        } else {
            self.next + 1
        };
        r
    }
}

/// Which batches of this boot became durable, and which failed.
#[derive(Debug)]
pub struct Settlements {
    durable: OrdSet<BarrierId>,
    failed: OrdSet<BarrierId>,
}

/// What is settled.
#[verifier::ext_equal]
pub struct SettledView {
    /// Durable batches.
    pub durable: Set<BarrierId>,
    /// Failed batches.
    pub failed: Set<BarrierId>,
}

impl View for Settlements {
    type V = SettledView;

    closed spec fn view(&self) -> SettledView {
        SettledView { durable: self.durable@, failed: self.failed@ }
    }
}

impl SettledView {
    /// Nothing settled.
    pub open spec fn none() -> Self {
        SettledView { durable: Set::empty(), failed: Set::empty() }
    }

    /// What is settled after a storage event.
    pub open spec fn observed(self, event: StorageEvent) -> Self {
        match event {
            StorageEvent::JournalDurable { barrier, .. } => SettledView {
                durable: self.durable.insert(barrier),
                ..self
            },
            StorageEvent::Failed { barrier, .. } => SettledView {
                failed: self.failed.insert(barrier),
                ..self
            },
            _ => self,
        }
    }

    /// Every listed batch is durable.
    pub open spec fn all_durable(self, barriers: Seq<BarrierId>) -> bool {
        forall|i: int| 0 <= i < barriers.len() ==> self.durable.contains(#[trigger] barriers[i])
    }
}

impl Settlements {
    /// Nothing settled.
    pub fn new() -> (r: Self)
        ensures
            r@ == SettledView::none(),
    {
        Settlements { durable: OrdSet::new(), failed: OrdSet::new() }
    }

    /// Take note of a storage event.
    pub fn observe(&mut self, event: &StorageEvent)
        ensures
            final(self)@ == old(self)@.observed(*event),
    {
        match event {
            StorageEvent::JournalDurable { barrier, journal_seq: _ } => {
                self.durable.insert(*barrier);
            },
            StorageEvent::Failed { barrier, error: _ } => {
                self.failed.insert(*barrier);
            },
            _ => {},
        }
    }

    /// Whether the batch is durable.
    pub fn is_durable(&self, barrier: &BarrierId) -> (r: bool)
        ensures
            r == self@.durable.contains(*barrier),
    {
        self.durable.contains(barrier)
    }

    /// Whether the batch failed.
    pub fn is_failed(&self, barrier: &BarrierId) -> (r: bool)
        ensures
            r == self@.failed.contains(*barrier),
    {
        self.failed.contains(barrier)
    }

    /// Whether every listed batch is durable.
    pub fn all_durable(&self, barriers: &Vec<BarrierId>) -> (r: bool)
        ensures
            r == self@.all_durable(barriers@),
    {
        let mut i: usize = 0;
        while i < barriers.len()
            invariant
                i <= barriers@.len(),
                forall|j: int| 0 <= j < i ==> self@.durable.contains(#[trigger] barriers@[j]),
            decreases barriers@.len() - i,
        {
            if !self.durable.contains(&barriers[i]) {
                proof {
                    assert(!self@.durable.contains(barriers@[i as int]));
                }
                return false;
            }
            i = i + 1;
        }
        true
    }
}

/// What a send is addressed to when any incarnation of a voter may take it.
pub open spec fn any_incarnation(replica: ReplicaId) -> PeerId {
    PeerId { replica, incarnation: 0 }
}

/// The address of whatever incarnation of `replica` is running.
pub fn voter_address(replica: ReplicaId) -> (r: PeerId)
    ensures
        r == any_incarnation(replica),
{
    PeerId { replica, incarnation: 0 }
}

} // verus!
