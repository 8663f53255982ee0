//! Normal-operation follower, its recovery and its campaigns.
//!
//! For an admitted request a follower initializes the command atomically
//! (payload binding, local dependencies, path evidence, conflict index),
//! persists payload and dependency rows in one batch and, when it belongs to
//! the ballot's fast set, publishes its fast acknowledgement to every other
//! voter and the frontend requiring that batch. A leader proposal that
//! arrives before the payload is held against a placeholder that no lookup or
//! guard can see; once the payload arrives, the leader's order is adopted
//! only when every direct dependency is at least ACCEPT, the adopted order is
//! persisted, and the slow acknowledgement is published requiring that batch.
//! Duplicate and reordered messages converge. After a crash the table is
//! rebuilt from the durable rows, so a vote that was durable is a fact and
//! one that was not was never sent.
//!
//! Acknowledgements from peers are collected; equal direct dependencies
//! prove nothing by themselves. Nothing is adopted or installed before boot:
//! it would need a barrier.

use vstd::prelude::*;

use crate::ballot::{
    BallotState, BallotView, ConfigurationIdentity, IdentityView, PromiseRejection, ReplicaRole,
    SealRejection, SyncRejection,
};
use crate::bytes::copy_bytes;
use crate::campaign::{Campaign, CampaignView};
use crate::commands::{CommandRecord, CommandTable, InitError, TableView, bound_in_order};
use crate::effects::{
    BarrierAllocator, BatchView, Effect, EffectView, EstablishmentEvidence, EstablishmentView,
    PersistBatch, SettledView, Settlements, StorageEvent, any_incarnation, copy_barriers, lemma_barrier_views, next_number, voter_address,
};
use crate::handoff::Transition;
use crate::hash::{HashDomain, is_hash};
use crate::ids::{
    Ballot, BarrierId, BootId, CommandId, ConfigurationEpoch, Digest32, ExecutionPosition, PeerId,
    ReplicaId, RetryKey, supersedes,
};
use crate::learner::{
    AppliedOutcome, LearnError, Learner, LearnerView, LearningMode, OutcomeView, is_next,
};
use crate::lists::{copy_list, lemma_id_views};
use crate::machine::{
    Derived, Event, Request, broadcast, broadcast_of, conservative, conservative_keys, derive_front,
    emit, front_identity_of,
    emit_all, has_reached, identity_of, is_identity, lemma_views_push, no_effects, one_row, only,
    publications, publish, publish_report, publish_sends, published, reached, report_published,
    two_rows,
};
use crate::messages::{MAX_PAYLOAD_TRANSFER, MessageView, ProtocolMessage, frame_of, message_in};
use crate::ordered::{
    Dup, Key, OrdMap, OrdSet, dup_all, in_order, lemma_in_order, lemma_take_set, set_of, views,
};
use crate::phase::{Phase, first_violation};
use crate::quorum::{BallotConfiguration, ConfigView, FastQuorumClass, default_fast_set};
use crate::recovery::{
    RecoveryError, RecoveryErrorView, RecoveryReport, ReportEntry, ReportEntryView, ReportView,
    SyncDecision, SyncEntry, SyncEntryView, SyncView,
};
use crate::replay::{
    EvidenceStore, EvidenceView, ReplayRefusal, RetainedEvidence, StoreView, acknowledgements,
    repeats,
};
use crate::role::{
    Boot, BootView, PendingReport, PendingView, RecoveredState, RecoveredView, boot_view,
    pending_view,
};
use crate::rows::{
    AdmissionFacts, PayloadRecordV1, PayloadView, PromiseRecordV1, SealRecordV1, SyncRecordV1,
    admission_digest, admission_of, dependency_row, dependency_update, payload_row, payload_update,
    promise_row, promise_update, sync_row, sync_update,
};
use crate::seal::{EstablishError, Sealing, is_seal, sealing_of};
use crate::summary::{DurableLedger, LedgerView, PageError, PageView, ReportPage};
use crate::vote::{
    FastAck, FastAckView, SlowAck, Vote, VoteError, VoteSet, VoteSetView, VoteView, same_set,
};

verus! {

/// How many times the command table's capacity the durable ledger may hold
/// before the records of forgotten commands are swept.
pub const HISTORY_SWEEP: usize = 4;

/// How many times the command table's own capacity of leader proposals this
/// replica will hold while it has no room to record them.
///
/// Holding is what keeps a full table from becoming a permanent one: the
/// order in a proposal is the only copy this replica is ever offered. The
/// slack is generous for that reason, and bounded because a peer's proposals
/// are still a peer's input.
pub const HELD_PROPOSAL_SLACK: usize = 8;

/// Static configuration of a follower.
#[derive(Debug)]
pub struct FollowerConfig {
    /// Configuration identity of this replica.
    pub identity: ConfigurationIdentity,
    /// The current ballot and its fixed fast set.
    pub quorum: BallotConfiguration,
    /// Genesis ballot of the epoch.
    pub genesis: Ballot,
    /// The trusted frontend acknowledgements also go to.
    pub frontend: PeerId,
    /// Command table capacity.
    pub capacity: usize,
}

/// What a configuration says.
#[verifier::ext_equal]
pub struct FollowerConfigView {
    /// Configuration identity of this replica.
    pub identity: IdentityView,
    /// The current ballot and its fixed fast set.
    pub quorum: ConfigView,
    /// Genesis ballot of the epoch.
    pub genesis: Ballot,
    /// The trusted frontend.
    pub frontend: PeerId,
    /// Command table capacity.
    pub capacity: usize,
}

impl View for FollowerConfig {
    type V = FollowerConfigView;

    open spec fn view(&self) -> FollowerConfigView {
        FollowerConfigView {
            identity: self.identity@,
            quorum: self.quorum@,
            genesis: self.genesis,
            frontend: self.frontend,
            capacity: self.capacity,
        }
    }
}

/// A refused or dropped input, recorded for the caller.
#[allow(inconsistent_fields)]
#[derive(Debug)]
pub enum FollowerRejection {
    /// The request frame did not decode to exactly one request.
    MalformedRequest,
    /// The retry key is already bound to another payload.
    RequestIdentityConflict {
        /// Retry key.
        retry_key: RetryKey,
        /// Command bound first.
        bound: CommandId,
    },
    /// The same command was presented again under the same facts. Not a
    /// fault: what this replica already produced for it is offered to the
    /// submitter again.
    Duplicate(CommandId),
    /// The retry key is bound to this command, but the presentation carries
    /// other admission facts or another acknowledged floor. The identity is
    /// shared; the request is not, and nothing is replayed for it.
    RequestFactsConflict {
        /// Command.
        command: CommandId,
        /// Digest of the facts this replica accepted the command under.
        accepted: Digest32,
    },
    /// The command table holds this command under another payload digest.
    /// Nothing is replayed for it.
    PayloadConflict(CommandId),
    /// An exact duplicate could not repair delivery of this replica's
    /// evidence, and why. The command itself is unaffected.
    ReplayRefused {
        /// Command.
        command: CommandId,
        /// Why.
        why: ReplayRefusal,
    },
    /// The command table is full.
    Backpressure,
    /// A vote or adoption batch failed; the command stays where it was.
    BatchFailed(CommandId),
    /// A proposal for another ballot or from a non-leader.
    ForeignProposal,
    /// A Sync named a ballot at or below the synchronized one, or from
    /// another epoch: the record never regresses.
    SyncRegression(SyncRejection),
    /// The synchronized-ballot row of a Sync failed; nothing was activated.
    SyncNotDurable(Ballot),
    /// A higher ballot was promised before the synchronized row became
    /// durable; that cut supersedes this Sync.
    SyncSuperseded(Ballot),
    /// A higher promise is in flight or durable, so the configured ballot no
    /// longer votes; the work belongs to the new leader.
    FencedByPromise {
        /// The ballot promised now.
        promised: Ballot,
    },
    /// A peer vote was rejected.
    Vote(VoteError),
    /// A leader proposal named this command under an admission this replica
    /// did not accept it under. The identity is shared; the command is not.
    AdmissionConflict {
        /// Command.
        command: CommandId,
        /// What this replica accepted the command under.
        accepted: Digest32,
    },
    /// A `NewLeader` was rejected.
    Promise(PromiseRejection),
    /// A `SealRequest` was rejected.
    Seal(SealRejection),
    /// The configuration is sealed (or a seal row is in flight): nothing is
    /// adopted or acknowledged, because ordinary voting of this
    /// configuration is over.
    Sealed {
        /// The transition the seal is for.
        transition: Transition,
    },
    /// A peer frame did not decode.
    MalformedPeerMessage,
    /// A payload response that does not rehash to its identity.
    PayloadIdentityMismatch(CommandId),
    /// A report page was refused.
    Page(PageError),
    /// The campaign stopped: the selection failed with this evidence.
    Campaign(RecoveryError),
    /// A Sync for a ballot other than the promised one, or not from its
    /// leader.
    SyncRejected {
        /// Sync ballot.
        ballot: Ballot,
        /// Promised ballot.
        promised: Ballot,
    },
    /// A campaign was requested for a ballot this replica cannot lead.
    CannotLead,
    /// This replica is further behind than recovery carries anyone: a
    /// selection it was about to bind depends on `missing`, which the
    /// selection does not carry and this replica has not committed. The
    /// campaign was abandoned, and this replica does not campaign again this
    /// boot.
    Behind {
        /// The dependency the selection leaves this replica without.
        missing: CommandId,
    },
}

/// What a refusal says.
#[allow(inconsistent_fields)]
#[verifier::ext_equal]
pub enum RefusalView {
    /// The request frame did not decode to exactly one request.
    MalformedRequest,
    /// The retry key is already bound to another payload.
    RequestIdentityConflict {
        /// Retry key.
        retry_key: RetryKey,
        /// Command bound first.
        bound: CommandId,
    },
    /// The same command was presented again under the same facts. Not a
    /// fault: what this replica already produced for it is offered to the
    /// submitter again.
    Duplicate(CommandId),
    /// The retry key is bound to this command, but the presentation carries
    /// other admission facts or another acknowledged floor. The identity is
    /// shared; the request is not, and nothing is replayed for it.
    RequestFactsConflict {
        /// Command.
        command: CommandId,
        /// Digest of the facts this replica accepted the command under.
        accepted: Digest32,
    },
    /// The command table holds this command under another payload digest.
    /// Nothing is replayed for it.
    PayloadConflict(CommandId),
    /// An exact duplicate could not repair delivery of this replica's
    /// evidence, and why. The command itself is unaffected.
    ReplayRefused {
        /// Command.
        command: CommandId,
        /// Why.
        why: ReplayRefusal,
    },
    /// The command table is full.
    Backpressure,
    /// A vote or adoption batch failed; the command stays where it was.
    BatchFailed(CommandId),
    /// A proposal for another ballot or from a non-leader.
    ForeignProposal,
    /// A Sync named a ballot at or below the synchronized one, or from
    /// another epoch: the record never regresses.
    SyncRegression(SyncRejection),
    /// The synchronized-ballot row of a Sync failed; nothing was activated.
    SyncNotDurable(Ballot),
    /// A higher ballot was promised before the synchronized row became
    /// durable; that cut supersedes this Sync.
    SyncSuperseded(Ballot),
    /// A higher promise is in flight or durable, so the configured ballot no
    /// longer votes; the work belongs to the new leader.
    FencedByPromise {
        /// The ballot promised now.
        promised: Ballot,
    },
    /// A peer vote was rejected.
    Vote(VoteError),
    /// A leader proposal named this command under an admission this replica
    /// did not accept it under. The identity is shared; the command is not.
    AdmissionConflict {
        /// Command.
        command: CommandId,
        /// What this replica accepted the command under.
        accepted: Digest32,
    },
    /// A `NewLeader` was rejected.
    Promise(PromiseRejection),
    /// A `SealRequest` was rejected.
    Seal(SealRejection),
    /// The configuration is sealed (or a seal row is in flight): nothing is
    /// adopted or acknowledged, because ordinary voting of this
    /// configuration is over.
    Sealed {
        /// The transition the seal is for.
        transition: Transition,
    },
    /// A peer frame did not decode.
    MalformedPeerMessage,
    /// A payload response that does not rehash to its identity.
    PayloadIdentityMismatch(CommandId),
    /// A report page was refused.
    Page(PageError),
    /// The campaign stopped: the selection failed with this evidence.
    Campaign(RecoveryErrorView),
    /// A Sync for a ballot other than the promised one, or not from its
    /// leader.
    SyncRejected {
        /// Sync ballot.
        ballot: Ballot,
        /// Promised ballot.
        promised: Ballot,
    },
    /// A campaign was requested for a ballot this replica cannot lead.
    CannotLead,
    /// This replica is further behind than recovery carries anyone: a
    /// selection it was about to bind depends on `missing`, which the
    /// selection does not carry and this replica has not committed. The
    /// campaign was abandoned, and this replica does not campaign again this
    /// boot.
    Behind {
        /// The dependency the selection leaves this replica without.
        missing: CommandId,
    },
}

impl View for FollowerRejection {
    type V = RefusalView;

    open spec fn view(&self) -> RefusalView {
        match self {
            FollowerRejection::MalformedRequest => RefusalView::MalformedRequest,
            FollowerRejection::RequestIdentityConflict { retry_key, bound } => RefusalView::RequestIdentityConflict {
                retry_key: *retry_key,
                bound: *bound,
            },
            FollowerRejection::Duplicate(e) => RefusalView::Duplicate(*e),
            FollowerRejection::RequestFactsConflict { command, accepted } => RefusalView::RequestFactsConflict {
                command: *command,
                accepted: *accepted,
            },
            FollowerRejection::PayloadConflict(e) => RefusalView::PayloadConflict(*e),
            FollowerRejection::ReplayRefused { command, why } => RefusalView::ReplayRefused {
                command: *command,
                why: *why,
            },
            FollowerRejection::Backpressure => RefusalView::Backpressure,
            FollowerRejection::BatchFailed(e) => RefusalView::BatchFailed(*e),
            FollowerRejection::ForeignProposal => RefusalView::ForeignProposal,
            FollowerRejection::SyncRegression(e) => RefusalView::SyncRegression(*e),
            FollowerRejection::SyncNotDurable(e) => RefusalView::SyncNotDurable(*e),
            FollowerRejection::SyncSuperseded(e) => RefusalView::SyncSuperseded(*e),
            FollowerRejection::FencedByPromise { promised } => RefusalView::FencedByPromise {
                promised: *promised,
            },
            FollowerRejection::Vote(e) => RefusalView::Vote(*e),
            FollowerRejection::AdmissionConflict { command, accepted } => RefusalView::AdmissionConflict {
                command: *command,
                accepted: *accepted,
            },
            FollowerRejection::Promise(e) => RefusalView::Promise(*e),
            FollowerRejection::Seal(e) => RefusalView::Seal(*e),
            FollowerRejection::Sealed { transition } => RefusalView::Sealed {
                transition: *transition,
            },
            FollowerRejection::MalformedPeerMessage => RefusalView::MalformedPeerMessage,
            FollowerRejection::PayloadIdentityMismatch(e) => RefusalView::PayloadIdentityMismatch(*e),
            FollowerRejection::Page(e) => RefusalView::Page(*e),
            FollowerRejection::Campaign(e) => RefusalView::Campaign(e@),
            FollowerRejection::SyncRejected { ballot, promised } => RefusalView::SyncRejected {
                ballot: *ballot,
                promised: *promised,
            },
            FollowerRejection::CannotLead => RefusalView::CannotLead,
            FollowerRejection::Behind { missing } => RefusalView::Behind {
                missing: *missing,
            },
        }
    }
}

/// A leader proposal not yet adopted: held until the payload arrives and
/// every dependency is at least ACCEPT.
#[derive(Debug)]
pub struct HeldProposal {
    /// The leader's proposal.
    pub proposal: FastAck,
}

impl View for HeldProposal {
    type V = FastAckView;

    open spec fn view(&self) -> FastAckView {
        self.proposal@
    }
}

/// What a batch in flight is for.
#[derive(Clone, Copy, Debug, PartialEq, Eq, Structural)]
pub enum Pending {
    /// Payload/dependency batch of a vote.
    Vote(CommandId),
    /// Adoption batch.
    Adoption(CommandId),
}

impl View for Pending {
    type V = Pending;

    open spec fn view(&self) -> Pending {
        *self
    }
}

impl Pending {
    /// The command a batch is for.
    pub open spec fn of(self) -> CommandId {
        match self {
            Pending::Vote(c) => c,
            Pending::Adoption(c) => c,
        }
    }
}

/// A vote this replica produced whose supporting batch is not durable yet.
/// It counts toward learning only once that batch is durable: evidence this
/// replica has not made a fact must never make a command executable.
#[derive(Debug)]
pub struct DeferredVote {
    /// Command.
    pub command: CommandId,
    /// The vote.
    pub vote: Vote,
}

/// What a deferred vote says.
#[verifier::ext_equal]
pub struct DeferredView {
    /// Command.
    pub command: CommandId,
    /// The vote.
    pub vote: VoteView,
}

impl View for DeferredVote {
    type V = DeferredView;

    open spec fn view(&self) -> DeferredView {
        DeferredView { command: self.command, vote: self.vote@ }
    }
}

/// The follower machine of one domain.
#[derive(Debug)]
pub struct Follower {
    config: FollowerConfig,
    boot: Option<Boot>,
    ballots: BallotState,
    table: CommandTable,
    bindings: OrdMap<RetryKey, CommandId>,
    held: OrdMap<CommandId, HeldProposal>,
    /// Adopted commands: leader sequence number and whether durable.
    adopted: OrdMap<CommandId, (u64, bool)>,
    pending: OrdMap<BarrierId, Pending>,
    deferred: OrdMap<BarrierId, DeferredVote>,
    votes: OrdMap<CommandId, VoteSet>,
    payloads: OrdMap<CommandId, PayloadRecordV1>,
    durable_payloads: OrdMap<BarrierId, CommandId>,
    served_payloads: OrdSet<CommandId>,
    /// Where the next bounded payload ask starts in the missing set, so that
    /// a bound on how many are asked for at once does not mean the same few
    /// are asked for every time and the rest never.
    payload_cursor: usize,
    /// How many payload transfers a peer has answered this replica with:
    /// only a payload that answers the outstanding ask counts, once.
    payloads_answered: u64,
    /// The commands the outstanding payload ask named that have not been
    /// answered yet. Each ask replaces it.
    payloads_asked: OrdSet<CommandId>,
    ledger: DurableLedger,
    learner: Learner,
    campaign: Option<Campaign>,
    /// Set when a selection showed this replica further behind than recovery
    /// carries anyone; it does not campaign again this boot.
    behind: Option<CommandId>,
    report_due: Option<PendingReport>,
    sync_pending: OrdMap<CommandId, SyncEntry>,
    /// The Sync whose synchronized-ballot row is in flight: the new ballot is
    /// activated only when that row is durable.
    sync_barrier: Option<(BarrierId, SyncDecision)>,
    won: Option<SyncDecision>,
    /// Voting messages of the promised ballot that arrived before its Sync
    /// (delivery is not ordered across peers); replayed once synchronized.
    awaiting_sync: Vec<(ReplicaId, ProtocolMessage)>,
    /// A Sync from its ballot's leader that arrived before this replica
    /// promised that ballot, kept until it does. The Sync is published once
    /// and nothing publishes it again.
    early_sync: Option<(ReplicaId, SyncDecision)>,
    rejections: Vec<FollowerRejection>,
    /// What this replica published to the frontend for each command it still
    /// remembers. Never recovered: the barriers it rests on are this boot's.
    replay: EvidenceStore,
}

/// What a follower holds.
#[verifier::ext_equal]
pub struct FollowerView {
    /// Configuration.
    pub config: FollowerConfigView,
    /// Boot.
    pub boot: Option<BootView>,
    /// Promise state.
    pub ballots: BallotView,
    /// Command table.
    pub table: TableView,
    /// Retry-key bindings.
    pub bindings: Map<RetryKey, CommandId>,
    /// Proposals held.
    pub held: Map<CommandId, FastAckView>,
    /// Adopted commands.
    pub adopted: Map<CommandId, (u64, bool)>,
    /// Batches in flight.
    pub pending: Map<BarrierId, Pending>,
    /// Votes not counted yet.
    pub deferred: Map<BarrierId, DeferredView>,
    /// Acknowledgements.
    pub votes: Map<CommandId, VoteSetView>,
    /// Payloads.
    pub payloads: Map<CommandId, PayloadView>,
    /// Payload batches in flight.
    pub durable_payloads: Map<BarrierId, CommandId>,
    /// Payloads that may be served.
    pub served_payloads: Set<CommandId>,
    /// Where the next payload ask starts.
    pub payload_cursor: usize,
    /// Answers to payload asks.
    pub payloads_answered: u64,
    /// Commands of the outstanding ask.
    pub payloads_asked: Set<CommandId>,
    /// Durable ledger.
    pub ledger: LedgerView,
    /// Learner.
    pub learner: LearnerView,
    /// Campaign.
    pub campaign: Option<CampaignView>,
    /// What this replica is behind by.
    pub behind: Option<CommandId>,
    /// A report owed to a candidate.
    pub report_due: Option<PendingView>,
    /// Sync entries not installed yet.
    pub sync_pending: Map<CommandId, SyncEntryView>,
    /// The Sync whose row is in flight.
    pub sync_barrier: Option<(BarrierId, SyncView)>,
    /// The Sync this replica won with.
    pub won: Option<SyncView>,
    /// Messages held until synchronized.
    pub awaiting_sync: Seq<(ReplicaId, MessageView)>,
    /// A Sync ahead of the promise.
    pub early_sync: Option<(ReplicaId, SyncView)>,
    /// Refused inputs.
    pub rejections: Seq<RefusalView>,
    /// What was published to the frontend.
    pub replay: StoreView,
}

/// What an optional campaign holds.
pub open spec fn campaign_view(c: Option<Campaign>) -> Option<CampaignView> {
    match c {
        Some(c) => Some(c@),
        None => None,
    }
}

/// What an optional decision says.
pub open spec fn sync_view(d: Option<SyncDecision>) -> Option<SyncView> {
    match d {
        Some(d) => Some(d@),
        None => None,
    }
}

/// What a Sync in flight says.
pub open spec fn flight_view(p: Option<(BarrierId, SyncDecision)>) -> Option<(BarrierId, SyncView)> {
    match p {
        Some((b, d)) => Some((b, d@)),
        None => None,
    }
}

/// What an early Sync says.
pub open spec fn early_view(p: Option<(ReplicaId, SyncDecision)>) -> Option<(ReplicaId, SyncView)> {
    match p {
        Some((r, d)) => Some((r, d@)),
        None => None,
    }
}

impl View for Follower {
    type V = FollowerView;

    closed spec fn view(&self) -> FollowerView {
        FollowerView {
            config: self.config@,
            boot: boot_view(self.boot),
            ballots: self.ballots@,
            table: self.table@,
            bindings: self.bindings@,
            held: self.held@,
            adopted: self.adopted@,
            pending: self.pending@,
            deferred: self.deferred@,
            votes: self.votes@,
            payloads: self.payloads@,
            durable_payloads: self.durable_payloads@,
            served_payloads: self.served_payloads@,
            payload_cursor: self.payload_cursor,
            payloads_answered: self.payloads_answered,
            payloads_asked: self.payloads_asked@,
            ledger: self.ledger@,
            learner: self.learner@,
            campaign: campaign_view(self.campaign),
            behind: self.behind,
            report_due: pending_view(self.report_due),
            sync_pending: self.sync_pending@,
            sync_barrier: flight_view(self.sync_barrier),
            won: sync_view(self.won),
            awaiting_sync: views(self.awaiting_sync@),
            early_sync: early_view(self.early_sync),
            rejections: views(self.rejections@),
            replay: self.replay@,
        }
    }
}

/// A turn of the follower: the state it leaves and the effects it asks for.
pub type Turn = (FollowerView, Seq<EffectView>);

/// The state, and nothing asked.
pub open spec fn quiet(state: FollowerView) -> Turn {
    (state, Seq::empty())
}

/// The configuration of a ballot with its default fast set, where the ballot
/// belongs to the epoch and its leader votes.
pub open spec fn default_config(
    epoch: ConfigurationEpoch,
    ballot: Ballot,
    voters: Set<ReplicaId>,
) -> Option<ConfigView> {
    if voters.contains(ballot.leader) && ballot.epoch == epoch {
        Some(
            ConfigView {
                epoch,
                ballot,
                voters,
                fast_set: default_fast_set(voters, ballot.leader),
                class: FastQuorumClass::C2,
            },
        )
    } else {
        None
    }
}

/// The table keeps nothing of `c` but that it executed.
pub open spec fn is_history(table: TableView, c: CommandId) -> bool {
    !table.records.contains_key(c) && table.executed.contains(c)
}

/// Everything but the history.
pub open spec fn live(table: TableView) -> Set<CommandId> {
    Set::new(|c: CommandId| !is_history(table, c))
}

/// A product as far as numbers go.
pub open spec fn saturating(a: usize, b: usize) -> int {
    if a * b > usize::MAX {
        usize::MAX as int
    } else {
        a * b
    }
}

/// A product as far as numbers go.
fn multiple(a: usize, b: usize) -> (r: usize)
    ensures
        r == saturating(a, b),
{
    match a.checked_mul(b) {
        Some(n) => n,
        None => usize::MAX,
    }
}

/// Retry keys and the commands durable payloads bind them to.
pub open spec fn bindings_of(
    payloads: Map<CommandId, PayloadView>,
    order: Seq<CommandId>,
) -> Map<RetryKey, CommandId>
    decreases order.len(),
{
    if order.len() == 0 {
        Map::empty()
    } else {
        bindings_of(payloads, order.drop_last()).insert(
            payloads[order.last()].retry_key,
            order.last(),
        )
    }
}

/// Rows in order, the last of a command winning.
pub open spec fn payloads_in(rows: Seq<(CommandId, PayloadView)>) -> Map<CommandId, PayloadView>
    decreases rows.len(),
{
    if rows.len() == 0 {
        Map::empty()
    } else {
        payloads_in(rows.drop_last()).insert(rows.last().0, rows.last().1)
    }
}

/// The first selection of a ballot.
pub open spec fn selection_of(syncs: Seq<(Ballot, SyncView)>, ballot: Ballot) -> Option<SyncView>
    decreases syncs.len(),
{
    if syncs.len() == 0 {
        None
    } else {
        let earlier = selection_of(syncs.drop_last(), ballot);
        if earlier is Some {
            earlier
        } else if syncs.last().0 == ballot {
            Some(syncs.last().1)
        } else {
            None
        }
    }
}

/// The commands of a list the table holds nothing for.
pub open spec fn unknown_among(table: TableView, commands: Set<CommandId>) -> Set<CommandId> {
    commands.filter(|c: CommandId| table.phase_of(c) is None)
}

/// The commands a selection names that this replica holds nothing for.
pub open spec fn selection_missing(table: TableView, d: SyncView) -> Seq<CommandId> {
    in_order::<CommandId>(unknown_among(table, d.entries.dom())) + in_order::<CommandId>(
        unknown_among(table, d.reproposed),
    )
}

/// `c` is a dependency the selection does not carry and this replica has not
/// committed.
pub open spec fn uncarried(table: TableView, d: SyncView, c: CommandId) -> bool {
    !d.entries.contains_key(c) && !d.reproposed.contains(c) && !reached(
        table.phase_of(c),
        Phase::Commit,
    )
}

/// The first such dependency of a list.
pub open spec fn gap_in(table: TableView, d: SyncView, deps: Seq<CommandId>) -> Option<CommandId>
    decreases deps.len(),
{
    if deps.len() == 0 {
        None
    } else {
        let earlier = gap_in(table, d, deps.drop_last());
        if earlier is Some {
            earlier
        } else if uncarried(table, d, deps.last()) {
            Some(deps.last())
        } else {
            None
        }
    }
}

/// The first such dependency of the entries, in order.
pub open spec fn gap_over(table: TableView, d: SyncView, order: Seq<CommandId>) -> Option<CommandId>
    decreases order.len(),
{
    if order.len() == 0 {
        None
    } else {
        let earlier = gap_over(table, d, order.drop_last());
        if earlier is Some {
            earlier
        } else {
            gap_in(table, d, d.entries[order.last()].deps)
        }
    }
}

/// A dependency of a selected entry that the selection does not carry and
/// this replica has not committed.
pub open spec fn selection_gap(table: TableView, d: SyncView) -> Option<CommandId> {
    gap_over(table, d, in_order::<CommandId>(d.entries.dom()))
}

/// The durable payloads served to a peer, at most `room` of them.
pub open spec fn payloads_served(
    state: FollowerView,
    boot: BootView,
    to: ReplicaId,
    commands: Seq<CommandId>,
) -> Seq<EffectView>
    decreases commands.len(),
{
    if commands.len() == 0 {
        Seq::empty()
    } else {
        let before = payloads_served(state, boot, to, commands.drop_last());
        let c = commands.last();
        if before.len() < MAX_PAYLOAD_TRANSFER && state.served_payloads.contains(c)
            && state.payloads.contains_key(c) {
            before.push(
                published(
                    state.ballots.context(boot.id, state.ballots.promised),
                    Seq::empty(),
                    any_incarnation(to),
                    frame_of(
                        MessageView::PayloadResponse { command: c, payload: state.payloads[c] },
                    ),
                ),
            )
        } else {
            before
        }
    }
}

/// A frame published to each listed replica.
pub open spec fn asked_of(
    state: FollowerView,
    boot: BootView,
    to: Seq<ReplicaId>,
    frame: Seq<u8>,
) -> Seq<EffectView>
    decreases to.len(),
{
    if to.len() == 0 {
        Seq::empty()
    } else {
        asked_of(state, boot, to.drop_last(), frame).push(
            published(
                state.ballots.context(boot.id, state.ballots.promised),
                Seq::empty(),
                any_incarnation(to.last()),
                frame,
            ),
        )
    }
}

/// A bounded batch of `missing`, from the cursor on, and the next cursor.
pub open spec fn payload_batch(missing: Seq<CommandId>, cursor: usize) -> (Seq<CommandId>, usize) {
    if missing.len() <= MAX_PAYLOAD_TRANSFER {
        (missing, cursor)
    } else {
        let start = cursor as int % missing.len() as int;
        (
            (missing.skip(start) + missing.take(start)).take(MAX_PAYLOAD_TRANSFER as int),
            if start + MAX_PAYLOAD_TRANSFER > usize::MAX {
                (start + MAX_PAYLOAD_TRANSFER - usize::MAX - 1) as usize
            } else {
                (start + MAX_PAYLOAD_TRANSFER) as usize
            },
        )
    }
}

impl FollowerView {
    /// With one more refused input.
    pub open spec fn rejected(self, r: RefusalView) -> Self {
        FollowerView { rejections: self.rejections.push(r), ..self }
    }

    /// With whatever the evidence teaches committed.
    pub open spec fn learned(self) -> Self {
        let done = self.learner.learning(self.table).settled(self.learner.mode, self.votes);
        FollowerView {
            table: done.table,
            learner: LearnerView { fast: done.fast, ..self.learner },
            ..self
        }
    }

    /// The next barrier.
    pub open spec fn barrier(self) -> BarrierId {
        BarrierId(self.boot->0.next)
    }

    /// With one barrier given out.
    pub open spec fn allocated(self) -> Self {
        FollowerView {
            boot: Some(BootView { next: next_number(self.boot->0.next), ..self.boot->0 }),
            ..self
        }
    }

    /// This follower may still vote in the configured ballot.
    pub open spec fn may_vote(self) -> bool {
        &&& !self.ballots.fenced()
        &&& self.config.identity.role == ReplicaRole::Voter
        &&& self.ballots.promised == self.config.quorum.ballot
        &&& self.ballots.in_flight.len() == 0
    }

    /// The batches an acknowledgement waits for.
    pub open spec fn waits_for(self, barrier: BarrierId) -> Seq<BarrierId> {
        let open = in_order::<BarrierId>(self.pending.dom());
        if open.contains(barrier) {
            open
        } else {
            open.push(barrier)
        }
    }

    /// The barriers a report cut must wait for.
    pub open spec fn cut(self) -> Seq<BarrierId> {
        let open = in_order::<BarrierId>(self.pending.dom());
        match self.sync_barrier {
            Some((b, _)) => open.push(b),
            None => open,
        }
    }

    /// An acknowledgement published to every other voter and the frontend,
    /// and kept.
    pub open spec fn acknowledged(self, c: CommandId, barrier: BarrierId, message: MessageView) -> Turn {
        match self.boot {
            None => quiet(self),
            Some(boot) => {
                let ballot = self.config.quorum.ballot;
                let context = self.ballots.context(boot.id, ballot);
                let waits = self.waits_for(barrier);
                let frame = frame_of(message);
                (
                    FollowerView {
                        replay: self.replay.retaining(
                            c,
                            EvidenceView {
                                barrier,
                                ballot,
                                context,
                                requires_durable: waits,
                                frame,
                            },
                            self.table,
                        ),
                        ..self
                    },
                    broadcast_of(context, waits, self.config.identity, frame).push(
                        published(context, waits, self.config.frontend, frame),
                    ),
                )
            },
        }
    }

    /// Held proposals that may be adopted now.
    pub open spec fn adoptable(self) -> Set<CommandId> {
        self.held.dom().filter(
            |c: CommandId|
                self.table.initialized(c) && first_violation(
                    self.held[c].deps,
                    self.table.phases(),
                    Phase::Accept,
                ) is None,
        )
    }

    /// The admission a record was accepted under.
    pub open spec fn admission_in<H: Fn(HashDomain, Vec<Vec<u8>>) -> Digest32>(
        hash: H,
        payload: Option<Digest32>,
    ) -> Digest32 {
        match payload {
            Some(p) => p,
            None => admission_of(hash, None, 0),
        }
    }

    /// The leader's order of a held proposal taken into the table.
    pub open spec fn ordered(self, c: CommandId) -> TableView {
        let p = self.held[c];
        if reached(self.table.phase_of(c), Phase::Commit) {
            self.table
        } else {
            self.table.adopted(c, p.deps, Some(p.paths), p.path)
        }
    }

    /// The guard refuses the leader's order of a held proposal.
    pub open spec fn order_refused(self, c: CommandId) -> bool {
        !reached(self.table.phase_of(c), Phase::Commit) && self.table.adopt_violation(
            c,
            self.held[c].deps,
        ) is Some
    }

    /// A held proposal adopted, where the guard lets it.
    pub open spec fn adopt_one<H: Fn(HashDomain, Vec<Vec<u8>>) -> Digest32>(
        self,
        hash: H,
        c: CommandId,
    ) -> Turn {
        let table = self.ordered(c);
        let base = FollowerView { held: self.held.remove(c), table, ..self };
        if self.order_refused(c) || self.boot is None || !table.records.contains_key(c) {
            quiet(base)
        } else {
            let record = table.records[c];
            let barrier = self.barrier();
            let ack = SlowAck {
                replica: self.config.identity.replica,
                ballot: self.config.quorum.ballot,
                command: c,
                admission: Self::admission_in(hash, record.payload),
            };
            let staged = FollowerView {
                adopted: self.adopted.insert(
                    c,
                    (
                        match self.held[c].seqnum {
                            Some(n) => n,
                            None => u64::MAX,
                        },
                        false,
                    ),
                ),
                pending: self.pending.insert(barrier, Pending::Adoption(c)),
                ledger: LedgerView {
                    staged: self.ledger.staged.insert(barrier, (c, record)),
                    ..self.ledger
                },
                deferred: self.deferred.insert(
                    barrier,
                    DeferredView { command: c, vote: VoteView::Slow(ack) },
                ),
                ..base
            }.allocated();
            let (done, said) = staged.acknowledged(c, barrier, MessageView::SlowAck(ack));
            (
                done,
                seq![
                    EffectView::Persist(
                        BatchView {
                            barrier,
                            updates: seq![dependency_row(self.config.identity.epoch, c, record)],
                        },
                    ),
                ] + said,
            )
        }
    }

    /// Each of `cs` in turn.
    pub open spec fn adopt_each<H: Fn(HashDomain, Vec<Vec<u8>>) -> Digest32>(
        self,
        hash: H,
        cs: Seq<CommandId>,
    ) -> Turn
        decreases cs.len(),
    {
        if cs.len() == 0 {
            quiet(self)
        } else {
            let (before, said) = self.adopt_each(hash, cs.drop_last());
            let (after, more) = before.adopt_one(hash, cs.last());
            (after, said + more)
        }
    }

    /// Passes until nothing held may be adopted.
    pub open spec fn adopt_rounds<H: Fn(HashDomain, Vec<Vec<u8>>) -> Digest32>(self, hash: H) -> Turn
        decreases self.held.dom().len(),
        when self.held.dom().finite()
    {
        let cs = in_order::<CommandId>(self.adoptable());
        if cs.len() == 0 {
            quiet(self.learned())
        } else {
            let (next, said) = self.adopt_each(hash, cs);
            proof {
                lemma_adopt_round(self, hash);
            }
            let (done, more) = next.adopt_rounds(hash);
            (done, said + more)
        }
    }

    /// Every held proposal whose payload is initialized and whose
    /// dependencies are all at least ACCEPT adopted.
    pub open spec fn pending_advanced<H: Fn(HashDomain, Vec<Vec<u8>>) -> Digest32>(
        self,
        hash: H,
    ) -> Turn {
        if self.ballots.fenced() || self.boot is None {
            quiet(self.learned())
        } else {
            self.adopt_rounds(hash)
        }
    }

    /// Sync entries that may be installed now.
    pub open spec fn installable(self) -> Set<CommandId> {
        self.sync_pending.dom().filter(
            |c: CommandId|
                self.table.phase_of(c) is Some && first_violation(
                    self.sync_pending[c].deps,
                    self.table.phases(),
                    Phase::Accept,
                ) is None,
        )
    }

    /// A Sync entry installed: the per-key logs realigned to the selected
    /// order, the selected order taken over one that is merely accepted, and
    /// the row written.
    pub open spec fn install_one<H: Fn(HashDomain, Vec<Vec<u8>>) -> Digest32>(
        self,
        hash: H,
        c: CommandId,
    ) -> Turn {
        let e = self.sync_pending[c];
        let base = FollowerView { sync_pending: self.sync_pending.remove(c), ..self };
        if !self.table.records.contains_key(c) || self.boot is None {
            quiet(base)
        } else {
            let aligned = self.table.with_leader_path(hash, c, e.seqnum, e.paths);
            let early = !reached(aligned.phase_of(c), Phase::Commit);
            let taken = if early {
                aligned.adopted(c, e.deps, Some(e.paths), e.path)
            } else {
                aligned
            };
            if early && aligned.adopt_violation(c, e.deps) is Some {
                quiet(FollowerView { table: taken, ..base })
            } else {
                let table = if e.phase == Phase::Commit && !reached(
                    taken.phase_of(c),
                    Phase::Commit,
                ) {
                    taken.advanced(c, Phase::Commit)
                } else {
                    taken
                };
                let record = table.records[c];
                let barrier = self.barrier();
                (
                    FollowerView {
                        table,
                        pending: self.pending.insert(barrier, Pending::Adoption(c)),
                        ledger: LedgerView {
                            staged: self.ledger.staged.insert(barrier, (c, record)),
                            ..self.ledger
                        },
                        ..base
                    }.allocated(),
                    seq![
                        EffectView::Persist(
                            BatchView {
                                barrier,
                                updates: seq![
                                    dependency_row(self.config.identity.epoch, c, record),
                                ],
                            },
                        ),
                    ],
                )
            }
        }
    }

    /// Each of `cs` in turn.
    pub open spec fn install_each<H: Fn(HashDomain, Vec<Vec<u8>>) -> Digest32>(
        self,
        hash: H,
        cs: Seq<CommandId>,
    ) -> Turn
        decreases cs.len(),
    {
        if cs.len() == 0 {
            quiet(self)
        } else {
            let (before, said) = self.install_each(hash, cs.drop_last());
            let (after, more) = before.install_one(hash, cs.last());
            (after, said + more)
        }
    }

    /// Passes until nothing pending may be installed.
    pub open spec fn install_rounds<H: Fn(HashDomain, Vec<Vec<u8>>) -> Digest32>(
        self,
        hash: H,
    ) -> Turn
        decreases self.sync_pending.dom().len(),
        when self.sync_pending.dom().finite()
    {
        let cs = in_order::<CommandId>(self.installable());
        if cs.len() == 0 {
            quiet(self.learned())
        } else {
            let (next, said) = self.install_each(hash, cs);
            proof {
                lemma_install_round(self, hash);
            }
            let (done, more) = next.install_rounds(hash);
            (done, said + more)
        }
    }

    /// Every Sync entry whose payload is known and whose dependencies are at
    /// least ACCEPT installed.
    pub open spec fn sync_advanced<H: Fn(HashDomain, Vec<Vec<u8>>) -> Digest32>(self, hash: H) -> Turn {
        if self.boot is None {
            quiet(self.learned())
        } else {
            self.install_rounds(hash)
        }
    }

    /// The answer to a proposal for a command decided here.
    pub open spec fn decided_answer(self, p: FastAckView, leader: ReplicaId) -> Seq<EffectView> {
        match self.boot {
            None => Seq::empty(),
            Some(boot) => if self.ledger.records.contains_key(p.command)
                && self.ledger.records[p.command].deps.to_set() == p.deps.to_set()
                && self.ledger.records[p.command].payload == Some(p.admission) {
                seq![
                    published(
                        self.ballots.context(boot.id, self.config.quorum.ballot),
                        Seq::empty(),
                        any_incarnation(leader),
                        frame_of(
                            MessageView::SlowAck(
                                SlowAck {
                                    replica: self.config.identity.replica,
                                    ballot: self.config.quorum.ballot,
                                    command: p.command,
                                    admission: p.admission,
                                },
                            ),
                        ),
                    ),
                ]
            } else {
                Seq::empty()
            },
        }
    }

    /// Why a proposal is not taken.
    pub open spec fn proposal_refusal(self, from: ReplicaId, p: FastAckView) -> Option<RefusalView> {
        if self.ballots.seal_held() is Some {
            Some(RefusalView::Sealed { transition: self.ballots.seal_held()->0 })
        } else if !self.may_vote() {
            Some(RefusalView::FencedByPromise { promised: self.ballots.promised })
        } else if from != self.config.quorum.ballot.leader || p.replica != from || p.ballot
            != self.config.quorum.ballot || p.seqnum is None {
            Some(RefusalView::ForeignProposal)
        } else {
            None
        }
    }

    /// What this replica already published for a command in this ballot, to
    /// the leader again.
    pub open spec fn acks_kept(self, c: CommandId, leader: ReplicaId) -> Seq<EffectView> {
        publications(
            acknowledgements(
                self.replay.kept(c),
                self.config.quorum.ballot,
                any_incarnation(leader),
            ),
        )
    }

    /// Some acknowledgement of `c` in this ballot is kept.
    pub open spec fn ack_is_kept(self, c: CommandId, leader: ReplicaId) -> bool {
        acknowledgements(
            self.replay.kept(c),
            self.config.quorum.ballot,
            any_incarnation(leader),
        ).len() > 0
    }

    /// A leader's proposal taken into the evidence and held.
    pub open spec fn holding(self, p: FastAckView) -> Self {
        let c = p.command;
        let vote = VoteView::Fast(p);
        let counted = if self.votes.contains_key(c) {
            let next = FollowerView {
                votes: self.votes.insert(c, self.votes[c].presented(vote)),
                ..self
            };
            match self.votes[c].refusal(vote) {
                Some(e) => next.rejected(RefusalView::Vote(e)),
                None => next,
            }
        } else {
            FollowerView {
                votes: self.votes.insert(
                    c,
                    VoteSetView::empty(self.config.quorum, c).presented(vote),
                ),
                ..self
            }
        };
        FollowerView { held: counted.held.insert(c, p), ..counted }
    }

    /// A proposal recorded into the path logs, with a placeholder where the
    /// payload has not arrived.
    pub open spec fn with_order<H: Fn(HashDomain, Vec<Vec<u8>>) -> Digest32>(
        self,
        hash: H,
        p: FastAckView,
    ) -> Self {
        let c = p.command;
        let logged = self.table.with_leader_path(
            hash,
            c,
            match p.seqnum {
                Some(n) => n,
                None => 0,
            },
            p.paths,
        );
        if logged.phase_of(c) is Some {
            FollowerView { table: logged, ..self }
        } else {
            let next = FollowerView { table: logged.expected(hash, c), ..self };
            if logged.expect_refused(c) {
                next.rejected(RefusalView::Backpressure)
            } else {
                next
            }
        }
    }

    /// There was no room for a placeholder, and no more is held.
    pub open spec fn held_full<H: Fn(HashDomain, Vec<Vec<u8>>) -> Digest32>(
        self,
        hash: H,
        p: FastAckView,
    ) -> bool {
        let c = p.command;
        let logged = self.table.with_leader_path(
            hash,
            c,
            match p.seqnum {
                Some(n) => n,
                None => 0,
            },
            p.paths,
        );
        logged.phase_of(c) is None && logged.expect_refused(c) && self.held.dom().len()
            >= saturating(self.config.capacity, HELD_PROPOSAL_SLACK)
    }

    /// A leader's proposal handled.
    pub open spec fn proposal_received<H: Fn(HashDomain, Vec<Vec<u8>>) -> Digest32>(
        self,
        hash: H,
        from: ReplicaId,
        p: FastAckView,
    ) -> Turn {
        let c = p.command;
        if self.proposal_refusal(from, p) is Some {
            quiet(self.rejected(self.proposal_refusal(from, p)->0))
        } else if self.held.contains_key(c) {
            quiet(self)
        } else if self.adopted.contains_key(c) && self.ack_is_kept(c, from) {
            if self.boot is None {
                quiet(self)
            } else {
                (self, self.acks_kept(c, from))
            }
        } else if self.adopted.contains_key(c) && reached(self.table.phase_of(c), Phase::Commit) {
            (self, self.decided_answer(p, from))
        } else {
            let open = FollowerView { adopted: self.adopted.remove(c), ..self };
            if is_history(self.table, c) {
                (open, self.decided_answer(p, from))
            } else if self.table.initialized(c) && self.table.records[c].payload->0 != p.admission {
                quiet(
                    open.rejected(
                        RefusalView::AdmissionConflict {
                            command: c,
                            accepted: self.table.records[c].payload->0,
                        },
                    ),
                )
            } else {
                let ordered = open.with_order(hash, p);
                if open.held_full(hash, p) {
                    ordered.pending_advanced(hash)
                } else {
                    ordered.holding(p).pending_advanced(hash)
                }
            }
        }
    }

    /// A peer's vote handled.
    pub open spec fn collected(self, from: ReplicaId, vote: VoteView) -> Self {
        let c = vote.command();
        if vote.replica() != from {
            self.rejected(RefusalView::Vote(VoteError::NotAVoter))
        } else {
            let set = if self.votes.contains_key(c) {
                self.votes[c]
            } else {
                VoteSetView::empty(self.config.quorum, c)
            };
            let counted = FollowerView { votes: self.votes.insert(c, set.presented(vote)), ..self };
            let said = match set.refusal(vote) {
                Some(e) => counted.rejected(RefusalView::Vote(e)),
                None => counted,
            };
            said.learned()
        }
    }

    /// Messages held until synchronized handled in turn.
    pub open spec fn replayed<H: Fn(HashDomain, Vec<Vec<u8>>) -> Digest32>(
        self,
        hash: H,
        messages: Seq<(ReplicaId, MessageView)>,
    ) -> Turn
        decreases messages.len(),
    {
        if messages.len() == 0 {
            quiet(self)
        } else {
            let (before, said) = self.replayed(hash, messages.drop_last());
            let from = messages.last().0;
            match messages.last().1 {
                MessageView::Proposal(p) => {
                    let (after, more) = before.proposal_received(hash, from, p);
                    (after, said + more)
                },
                MessageView::FastAck(a) => (before.collected(from, VoteView::Fast(a)), said),
                MessageView::SlowAck(a) => (before.collected(from, VoteView::Slow(a)), said),
                _ => (before, said),
            }
        }
    }

    /// The entries of a selection queued for installation, each known at
    /// least by identity where there is room.
    pub open spec fn queued<H: Fn(HashDomain, Vec<Vec<u8>>) -> Digest32>(
        self,
        hash: H,
        entries: Map<CommandId, SyncEntryView>,
        order: Seq<CommandId>,
    ) -> Self
        decreases order.len(),
    {
        if order.len() == 0 {
            self
        } else {
            let before = self.queued(hash, entries, order.drop_last());
            let c = order.last();
            FollowerView {
                table: if before.table.phase_of(c) is None {
                    before.table.expected(hash, c)
                } else {
                    before.table
                },
                sync_pending: before.sync_pending.insert(c, entries[c]),
                ..before
            }
        }
    }

    /// The entries of a selection read back from durable state that are not
    /// installed yet queued.
    pub open spec fn requeued<H: Fn(HashDomain, Vec<Vec<u8>>) -> Digest32>(
        self,
        hash: H,
        entries: Map<CommandId, SyncEntryView>,
        order: Seq<CommandId>,
    ) -> Self
        decreases order.len(),
    {
        if order.len() == 0 {
            self
        } else {
            let before = self.requeued(hash, entries, order.drop_last());
            let c = order.last();
            let table = if before.table.phase_of(c) is None {
                before.table.expected(hash, c)
            } else {
                before.table
            };
            FollowerView {
                table,
                sync_pending: if reached(table.phase_of(c), Phase::Commit) {
                    before.sync_pending
                } else {
                    before.sync_pending.insert(c, entries[c])
                },
                ..before
            }
        }
    }

    /// The ballot of a Sync active, its votes not collected yet.
    pub open spec fn switched(self, d: SyncView) -> Self {
        FollowerView {
            won: if d.ballot.leader == self.config.identity.replica && self.campaign is Some {
                Some(d)
            } else {
                self.won
            },
            config: FollowerConfigView {
                quorum: match default_config(
                    self.config.identity.epoch,
                    d.ballot,
                    self.config.identity.voters,
                ) {
                    Some(q) => q,
                    None => self.config.quorum,
                },
                ..self.config
            },
            votes: Map::empty(),
            held: Map::empty(),
            adopted: Map::empty(),
            ..self
        }
    }

    /// A Sync's ballot activated: its fast set, its entries, and the messages
    /// held while the cut was open.
    pub open spec fn activated<H: Fn(HashDomain, Vec<Vec<u8>>) -> Digest32>(
        self,
        hash: H,
        d: SyncView,
    ) -> Turn {
        let queued = self.switched(d).queued(
            hash,
            d.entries,
            in_order::<CommandId>(d.entries.dom()),
        );
        let (installed, said) = queued.sync_advanced(hash);
        let (done, more) = FollowerView {
            awaiting_sync: Seq::empty(),
            ..installed
        }.replayed(hash, installed.awaiting_sync);
        (done, said + more)
    }

    /// A Sync handled.
    pub open spec fn sync_received<H: Fn(HashDomain, Vec<Vec<u8>>) -> Digest32>(
        self,
        hash: H,
        from: ReplicaId,
        d: SyncView,
    ) -> Turn {
        let promised = self.ballots.promised;
        if from == d.ballot.leader && supersedes(d.ballot, promised) {
            quiet(
                if self.early_sync is None || supersedes(
                    d.ballot,
                    (self.early_sync->0).1.ballot,
                ) {
                    FollowerView { early_sync: Some((from, d)), ..self }
                } else {
                    self
                },
            )
        } else if d.ballot != promised || from != d.ballot.leader {
            quiet(self.rejected(RefusalView::SyncRejected { ballot: d.ballot, promised }))
        } else if self.ballots.synced == d.ballot {
            if self.config.quorum.ballot == d.ballot {
                quiet(self)
            } else {
                self.activated(hash, d)
            }
        } else {
            match self.ballots.sync_refusal(d.ballot) {
                Some(e) => quiet(self.rejected(RefusalView::SyncRegression(e))),
                None => if self.boot is None {
                    quiet(self)
                } else {
                    let barrier = self.barrier();
                    (
                        FollowerView {
                            ballots: self.ballots.synced_to(d.ballot),
                            sync_barrier: Some((barrier, d)),
                            ..self
                        }.allocated(),
                        seq![
                            EffectView::Persist(
                                BatchView {
                                    barrier,
                                    updates: seq![
                                        sync_row(self.config.identity.epoch, d),
                                        promise_row(
                                            self.config.identity.epoch,
                                            PromiseRecordV1 {
                                                promised: self.ballots.bound(),
                                                synced: d.ballot,
                                            },
                                        ),
                                    ],
                                },
                            ),
                        ],
                    )
                },
            }
        }
    }

    /// What this replica's own campaign is waiting for before it can bind its
    /// selection.
    pub open spec fn campaign_missing(self) -> Seq<CommandId> {
        match self.campaign {
            Some(c) => if c.bound is None && !c.durable && c.decision is Some {
                selection_missing(self.table, c.decision->0)
            } else {
                Seq::empty()
            },
            None => Seq::empty(),
        }
    }

    /// Commands known by identity without a payload.
    pub open spec fn missing(self) -> Seq<CommandId> {
        in_order::<CommandId>(
            self.held.dom().union(self.sync_pending.dom()).union(self.adopted.dom()).difference(
                self.payloads.dom(),
            ).union(self.campaign_missing().to_set()),
        )
    }

    /// Payloads asked for.
    pub open spec fn payloads_requested(self, from: ReplicaId) -> Turn {
        match self.boot {
            None => quiet(self),
            Some(boot) => {
                let wanted = self.campaign_missing();
                let me = self.config.identity.replica;
                let campaigning = self.campaign is Some && wanted.len() > 0;
                let sources = if campaigning {
                    in_order::<ReplicaId>(self.campaign->0.promised.remove(me))
                } else {
                    seq![from]
                };
                let (commands, cursor) = payload_batch(
                    if wanted.len() == 0 {
                        self.missing()
                    } else {
                        wanted
                    },
                    self.payload_cursor,
                );
                let asked = FollowerView {
                    campaign: if campaigning {
                        Some(
                            CampaignView {
                                asked: self.campaign->0.asked.union(sources.to_set()),
                                ..self.campaign->0
                            },
                        )
                    } else {
                        self.campaign
                    },
                    payload_cursor: cursor,
                    ..self
                };
                if commands.len() == 0 || sources.len() == 0 {
                    quiet(asked)
                } else {
                    (
                        FollowerView { payloads_asked: commands.to_set(), ..asked },
                        asked_of(
                            self,
                            boot,
                            sources,
                            frame_of(MessageView::PayloadRequest { commands }),
                        ),
                    )
                }
            },
        }
    }

    /// A selection bound durably, where this replica can lead from it.
    pub open spec fn bound_selection(self) -> Turn {
        let campaign = self.campaign->0;
        let d = campaign.decision->0;
        let me = self.config.identity.replica;
        match selection_gap(self.table, d) {
            Some(missing) => quiet(
                FollowerView { behind: Some(missing), campaign: None, ..self }.rejected(
                    RefusalView::Behind { missing },
                ),
            ),
            None => if selection_missing(self.table, d).len() > 0 {
                if campaign.due(me) == Set::<ReplicaId>::empty() && self.payloads_asked != Set::<
                    CommandId,
                >::empty() {
                    quiet(self)
                } else {
                    self.payloads_requested(me)
                }
            } else {
                let settled = campaign.with_executed(self.table);
                let barrier = self.barrier();
                (
                    FollowerView {
                        campaign: Some(CampaignView { bound: Some(barrier), ..settled }),
                        ..self
                    }.allocated(),
                    seq![
                        EffectView::Persist(
                            BatchView {
                                barrier,
                                updates: seq![
                                    sync_row(self.config.identity.epoch, settled.decision->0),
                                ],
                            },
                        ),
                    ],
                )
            },
        }
    }

    /// A durably bound selection published and installed here.
    pub open spec fn published_selection<H: Fn(HashDomain, Vec<Vec<u8>>) -> Digest32>(
        self,
        hash: H,
    ) -> Turn {
        let d = self.campaign->0.decision->0;
        let said = broadcast_of(
            self.ballots.context(self.boot->0.id, d.ballot),
            Seq::empty(),
            self.config.identity,
            frame_of(MessageView::Sync(d)),
        );
        let (synced, more) = FollowerView {
            campaign: Some(CampaignView { published: true, ..self.campaign->0 }),
            ..self
        }.sync_received(hash, d.ballot.leader, d);
        let done = if synced.ballots.synced == d.ballot {
            if synced.config.quorum.ballot == d.ballot {
                FollowerView { won: Some(d), ..synced }
            } else {
                synced
            }
        } else {
            FollowerView { campaign: None, ..synced }
        };
        (done, said + more)
    }

    /// The campaign moved as far as it can: the selection made, bound
    /// durably, then published and activated.
    pub open spec fn campaign_advanced<H: Fn(HashDomain, Vec<Vec<u8>>) -> Digest32>(
        self,
        hash: H,
    ) -> Turn {
        if self.boot is None || self.campaign is None {
            quiet(self)
        } else {
            match self.campaign->0.selected(hash) {
                Err(e) => quiet(
                    FollowerView { campaign: None, ..self }.rejected(RefusalView::Campaign(e)),
                ),
                Ok(None) => quiet(self),
                Ok(Some(_)) => {
                    let chosen = FollowerView {
                        campaign: Some(self.campaign->0.after_selection(hash)),
                        ..self
                    };
                    let c = chosen.campaign->0;
                    if c.bound is None && !c.durable {
                        chosen.bound_selection()
                    } else if c.durable && !c.published {
                        chosen.published_selection(hash)
                    } else {
                        quiet(chosen)
                    }
                },
            }
        }
    }

    /// The entry of a command in this replica's report.
    pub open spec fn report_entry(self, c: CommandId) -> ReportEntryView {
        let e = if self.ledger.reported().contains(c) {
            self.ledger.entry(c)
        } else {
            let p = self.sync_pending[c];
            ReportEntryView {
                command: c,
                phase: p.phase,
                deps: p.deps,
                path: p.path,
                paths: p.paths,
                seqnum: p.seqnum,
                keys: p.paths.map_values(|a: (Seq<u8>, Digest32)| a.0),
                payload_present: false,
            }
        };
        if e.phase.rank() < Phase::Commit.rank() && self.table.phase_of(c) == Some(
            Phase::Executed,
        ) {
            ReportEntryView { phase: Phase::Commit, ..e }
        } else {
            e
        }
    }

    /// The commands this replica reports: its durable ledger and any Sync
    /// selection it accepted and has not finished installing, without the
    /// history.
    pub open spec fn reported(self) -> Set<CommandId> {
        self.ledger.reported().union(self.sync_pending.dom()).intersect(live(self.table))
    }

    /// This replica's recovery report for `ballot`.
    pub open spec fn report(self, ballot: Ballot) -> ReportView {
        let order = in_order::<CommandId>(self.reported());
        ReportView {
            replica: self.config.identity.replica,
            ballot,
            committed_ballot: self.ballots.synced,
            entries: order.map_values(|c: CommandId| self.report_entry(c)),
        }
    }

    /// The report owed delivered, once every batch before its cut is durable:
    /// pages to a candidate, or the own report to this replica's campaign.
    pub open spec fn report_delivered<H: Fn(HashDomain, Vec<Vec<u8>>) -> Digest32>(
        self,
        hash: H,
    ) -> Turn {
        match self.report_due {
            None => quiet(self),
            Some(due) => if self.boot is None || !self.boot->0.settled.all_durable(
                due.requires_durable,
            ) {
                quiet(self)
            } else {
                let cleared = FollowerView { report_due: None, ..self };
                let report = self.report(due.ballot);
                if due.to.replica == self.config.identity.replica {
                    let told = if self.campaign is Some && self.campaign->0.config.ballot
                        == due.ballot {
                        FollowerView {
                            campaign: Some(self.campaign->0.with_own(report)),
                            ..cleared
                        }
                    } else {
                        cleared
                    };
                    told.campaign_advanced(hash)
                } else {
                    (
                        cleared,
                        report_published(
                            hash,
                            self.ballots.context(self.boot->0.id, due.ballot),
                            due.to,
                            report,
                        ),
                    )
                }
            },
        }
    }

    /// A campaign begun for `ballot`.
    pub open spec fn campaigning(self, ballot: Ballot) -> Turn {
        let config = default_config(
            self.config.identity.epoch,
            ballot,
            self.config.identity.voters,
        );
        let me = PeerId {
            replica: self.config.identity.replica,
            incarnation: self.config.identity.incarnation,
        };
        match self.boot {
            None => quiet(self),
            Some(boot) => if ballot.leader != self.config.identity.replica {
                quiet(self.rejected(RefusalView::CannotLead))
            } else if self.behind is Some {
                quiet(self.rejected(RefusalView::Behind { missing: self.behind->0 }))
            } else if config is None {
                quiet(self.rejected(RefusalView::CannotLead))
            } else {
                match self.ballots.promise_refusal(me, ballot) {
                    Some(e) => quiet(self.rejected(RefusalView::Promise(e))),
                    None => {
                        let barrier = self.barrier();
                        let reply = self.ballots.promise_reply(
                            me,
                            ballot,
                            boot.id,
                            barrier,
                            self.cut(),
                        );
                        (
                            FollowerView {
                                ballots: self.ballots.promising(me, ballot, barrier),
                                report_due: Some(
                                    PendingView {
                                        ballot,
                                        to: me,
                                        requires_durable: reply.requires_durable,
                                    },
                                ),
                                campaign: Some(CampaignView::begun(config->0)),
                                ..self
                            }.allocated(),
                            seq![EffectView::Persist(self.ballots.promise_batch(ballot, barrier))]
                                + broadcast_of(
                                self.ballots.context(boot.id, ballot),
                                seq![barrier],
                                self.config.identity,
                                frame_of(MessageView::NewLeader { ballot }),
                            ),
                        )
                    },
                }
            },
        }
    }

    /// A campaign resumed whose selection was bound before a crash.
    pub open spec fn resumed<H: Fn(HashDomain, Vec<Vec<u8>>) -> Digest32>(
        self,
        hash: H,
        d: SyncView,
    ) -> Turn {
        let config = default_config(
            self.config.identity.epoch,
            d.ballot,
            self.config.identity.voters,
        );
        if d.ballot.leader != self.config.identity.replica || self.ballots.promised != d.ballot
            || config is None {
            quiet(self.rejected(RefusalView::CannotLead))
        } else {
            FollowerView {
                campaign: Some(CampaignView::resumed(config->0, d)),
                ..self
            }.campaign_advanced(hash)
        }
    }

    /// The submitter offered the evidence this replica already published.
    pub open spec fn evidence_repaired(self, c: CommandId) -> Turn {
        if !self.may_vote() || self.boot is None {
            quiet(
                self.rejected(
                    RefusalView::ReplayRefused { command: c, why: ReplayRefusal::Fenced },
                ),
            )
        } else {
            let settled = self.boot->0.settled;
            let ballot = self.config.quorum.ballot;
            match self.replay.plan_refusal(c, settled, ballot, self.table) {
                Some(why) => quiet(
                    self.rejected(RefusalView::ReplayRefused { command: c, why }),
                ),
                None => (
                    FollowerView { replay: self.replay.repaired(c), ..self },
                    publications(
                        repeats(self.replay.own[c], settled, ballot, self.config.frontend),
                    ),
                ),
            }
        }
    }

    /// The same identity presented again.
    pub open spec fn presented_again<H: Fn(HashDomain, Vec<Vec<u8>>) -> Digest32>(
        self,
        hash: H,
        c: CommandId,
        payload: PayloadView,
    ) -> Turn {
        let duplicate = self.rejected(RefusalView::Duplicate(c));
        if !self.payloads.contains_key(c) {
            quiet(duplicate)
        } else if self.payloads[c].admitted(hash) == payload.admitted(hash) {
            duplicate.evidence_repaired(c)
        } else {
            quiet(
                self.rejected(
                    RefusalView::RequestFactsConflict {
                        command: c,
                        accepted: self.payloads[c].admitted(hash),
                    },
                ),
            )
        }
    }

    /// With an initialized command's batch under way.
    pub open spec fn voting(self, c: CommandId, payload: PayloadView, table: TableView) -> Self {
        let barrier = self.barrier();
        FollowerView {
            table,
            bindings: self.bindings.insert(payload.retry_key, c),
            payloads: self.payloads.insert(c, payload),
            pending: self.pending.insert(barrier, Pending::Vote(c)),
            ledger: LedgerView {
                staged: self.ledger.staged.insert(barrier, (c, table.records[c])),
                ..self.ledger
            },
            durable_payloads: self.durable_payloads.insert(barrier, c),
            votes: if self.votes.contains_key(c) {
                self.votes
            } else {
                self.votes.insert(c, VoteSetView::empty(self.config.quorum, c))
            },
            ..self
        }.allocated()
    }

    /// This replica's fast acknowledgement of an initialized command.
    pub open spec fn fast_ack(self, c: CommandId, table: TableView, digest: Digest32) -> FastAckView {
        FastAckView {
            replica: self.config.identity.replica,
            ballot: self.config.quorum.ballot,
            command: c,
            deps: table.records[c].deps,
            paths: table.records[c].paths,
            path: table.records[c].path,
            admission: digest,
            seqnum: None,
        }
    }

    /// A canonical request handled: initialized, persisted, voted.
    pub open spec fn requested<H: Fn(HashDomain, Vec<Vec<u8>>) -> Digest32>(
        self,
        hash: H,
        c: CommandId,
        payload: PayloadView,
    ) -> Turn {
        let key = payload.retry_key;
        let digest = payload.admitted(hash);
        if self.bindings.contains_key(key) {
            if self.bindings[key] != c {
                quiet(
                    self.rejected(
                        RefusalView::RequestIdentityConflict {
                            retry_key: key,
                            bound: self.bindings[key],
                        },
                    ),
                )
            } else {
                self.presented_again(hash, c, payload)
            }
        } else {
            let room = FollowerView { table: self.table.opened(c), ..self };
            match self.table.init_refusal(c, digest) {
                Some(InitError::Backpressure) => room.rejected(
                    RefusalView::Backpressure,
                ).pending_advanced(hash),
                Some(InitError::AlreadyInitialized) => FollowerView {
                    bindings: self.bindings.insert(key, c),
                    ..room
                }.rejected(RefusalView::Duplicate(c)).evidence_repaired(c),
                Some(InitError::PayloadConflict) => quiet(
                    room.rejected(RefusalView::PayloadConflict(c)),
                ),
                None => if self.boot is None {
                    quiet(room)
                } else {
                    let table = room.table.with_initialized(hash, c, digest, conservative_keys());
                    let barrier = self.barrier();
                    let ack = self.fast_ack(c, table, digest);
                    let staged = self.voting(c, payload, table);
                    let (voted, said) = if self.config.quorum.fast_eligible(
                        self.config.identity.replica,
                    ) {
                        FollowerView {
                            deferred: self.deferred.insert(
                                barrier,
                                DeferredView { command: c, vote: VoteView::Fast(ack) },
                            ),
                            ..staged
                        }.acknowledged(c, barrier, MessageView::FastAck(ack))
                    } else {
                        quiet(staged)
                    };
                    let (installed, more) = voted.sync_advanced(hash);
                    let (done, last) = installed.pending_advanced(hash);
                    (
                        done,
                        seq![
                            EffectView::Persist(
                                BatchView {
                                    barrier,
                                    updates: seq![
                                        payload_row(c, payload),
                                        dependency_row(
                                            self.config.identity.epoch,
                                            c,
                                            table.records[c],
                                        ),
                                    ],
                                },
                            ),
                        ] + said + more + last,
                    )
                },
            }
        }
    }

    /// An admitted request handled.
    pub open spec fn admitted<H: Fn(HashDomain, Vec<Vec<u8>>) -> Digest32>(
        self,
        hash: H,
        request: Option<crate::machine::RequestView>,
        admission: Seq<u8>,
    ) -> Turn {
        if self.boot is None {
            quiet(self)
        } else if self.ballots.seal_held() is Some {
            quiet(
                self.rejected(RefusalView::Sealed { transition: self.ballots.seal_held()->0 }),
            )
        } else if !self.may_vote() {
            quiet(self.rejected(RefusalView::FencedByPromise { promised: self.ballots.promised }))
        } else {
            match request {
                None => quiet(self.rejected(RefusalView::MalformedRequest)),
                Some(q) => self.requested(
                    hash,
                    q.command,
                    PayloadView {
                        retry_key: q.retry_key,
                        logical: q.logical,
                        admission: Some(admission),
                        ack_through: q.ack_through,
                    },
                ),
            }
        }
    }

    /// A transferred payload handled.
    pub open spec fn payload_received<
        H: Fn(HashDomain, Vec<Vec<u8>>) -> Digest32,
        D: Fn(RetryKey, Vec<u8>) -> Option<Derived>,
    >(self, hash: H, derive: D, c: CommandId, payload: PayloadView) -> Turn {
        if front_identity_of(derive, payload.retry_key, payload.logical) != Some(c) {
            quiet(self.rejected(RefusalView::PayloadIdentityMismatch(c)))
        } else if self.payloads.contains_key(c) {
            quiet(self)
        } else if !self.table.initialized(c) {
            if identity_of(derive, payload.retry_key, payload.logical) is None {
                quiet(self.rejected(RefusalView::MalformedRequest))
            } else {
                self.requested(hash, c, payload)
            }
        } else if self.boot is None {
            quiet(self)
        } else {
            let barrier = self.barrier();
            (
                FollowerView {
                    bindings: self.bindings.insert(payload.retry_key, c),
                    payloads: self.payloads.insert(c, payload),
                    durable_payloads: self.durable_payloads.insert(barrier, c),
                    ..self
                }.allocated(),
                seq![
                    EffectView::Persist(
                        BatchView { barrier, updates: seq![payload_row(c, payload)] },
                    ),
                ],
            )
        }
    }

    /// An answer to a payload ask handled.
    pub open spec fn payload_answered<
        H: Fn(HashDomain, Vec<Vec<u8>>) -> Digest32,
        D: Fn(RetryKey, Vec<u8>) -> Option<Derived>,
    >(self, hash: H, derive: D, c: CommandId, payload: PayloadView) -> Turn {
        let (taken, said) = self.payload_received(hash, derive, c, payload);
        let counted = if self.payloads_asked.contains(c) && taken.payloads.contains_key(c) {
            FollowerView {
                payloads_asked: taken.payloads_asked.remove(c),
                payloads_answered: if taken.payloads_answered == u64::MAX {
                    u64::MAX
                } else {
                    (taken.payloads_answered + 1) as u64
                },
                ..taken
            }
        } else {
            taken
        };
        let (done, more) = counted.campaign_advanced(hash);
        (done, said + more)
    }

    /// What storage reported, noted.
    pub open spec fn noted(self, event: StorageEvent) -> Self {
        FollowerView {
            boot: match self.boot {
                Some(b) => Some(BootView { settled: b.settled.observed(event), ..b }),
                None => None,
            },
            ballots: self.ballots.stored(event),
            ..self
        }
    }

    /// A batch of this replica durable: its record, its payload and its vote
    /// are facts now.
    pub open spec fn batch_durable(self, barrier: BarrierId, seq: crate::ids::LocalJournalSeq) -> Self {
        let p = self.pending[barrier];
        let served = FollowerView {
            pending: self.pending.remove(barrier),
            ledger: self.ledger.settled(barrier, seq),
            served_payloads: if self.durable_payloads.contains_key(barrier) {
                self.served_payloads.insert(self.durable_payloads[barrier])
            } else {
                self.served_payloads
            },
            durable_payloads: self.durable_payloads.remove(barrier),
            adopted: match p {
                Pending::Adoption(c) => if self.adopted.contains_key(c) {
                    self.adopted.insert(c, (self.adopted[c].0, true))
                } else {
                    self.adopted
                },
                Pending::Vote(_) => self.adopted,
            },
            deferred: self.deferred.remove(barrier),
            ..self
        };
        if self.deferred.contains_key(barrier) && self.votes.contains_key(
            self.deferred[barrier].command,
        ) {
            let d = self.deferred[barrier];
            FollowerView {
                votes: self.votes.insert(d.command, self.votes[d.command].presented(d.vote)),
                ..served
            }
        } else {
            served
        }
    }

    /// A batch of this replica failed: its vote is not evidence.
    pub open spec fn batch_failed(self, barrier: BarrierId) -> Self {
        FollowerView {
            pending: self.pending.remove(barrier),
            deferred: self.deferred.remove(barrier),
            ledger: LedgerView {
                staged: self.ledger.staged.remove(barrier),
                ..self.ledger
            },
            durable_payloads: self.durable_payloads.remove(barrier),
            ..self
        }.rejected(RefusalView::BatchFailed(self.pending[barrier].of()))
    }

    /// The event is about the Sync whose row is in flight.
    pub open spec fn about_sync(self, event: StorageEvent) -> bool {
        self.sync_barrier is Some && event.about() == Some((self.sync_barrier->0).0)
    }

    /// The event settles the row of a Sync.
    pub open spec fn sync_settled<H: Fn(HashDomain, Vec<Vec<u8>>) -> Digest32>(
        self,
        hash: H,
        event: StorageEvent,
    ) -> Turn {
        let d = (self.sync_barrier->0).1;
        let cleared = FollowerView { sync_barrier: None, ..self };
        match event {
            StorageEvent::JournalDurable { .. } => if self.ballots.promised == d.ballot {
                cleared.activated(hash, d)
            } else {
                quiet(cleared.rejected(RefusalView::SyncSuperseded(d.ballot)))
            },
            StorageEvent::Failed { .. } => quiet(
                cleared.rejected(RefusalView::SyncNotDurable(d.ballot)),
            ),
            _ => quiet(self),
        }
    }

    /// The event settles a batch of this replica.
    pub open spec fn batch_settled(self, event: StorageEvent) -> Self {
        match event {
            StorageEvent::JournalDurable { barrier, journal_seq } => if self.pending.contains_key(
                barrier,
            ) {
                self.batch_durable(barrier, journal_seq)
            } else if self.durable_payloads.contains_key(barrier) {
                FollowerView {
                    served_payloads: self.served_payloads.insert(self.durable_payloads[barrier]),
                    durable_payloads: self.durable_payloads.remove(barrier),
                    ..self
                }
            } else {
                self
            },
            StorageEvent::Failed { barrier, .. } => if self.pending.contains_key(barrier) {
                self.batch_failed(barrier)
            } else {
                FollowerView {
                    durable_payloads: self.durable_payloads.remove(barrier),
                    ..self
                }
            },
            _ => self,
        }
    }

    /// The event makes this replica's selection durably bound.
    pub open spec fn binds(self, event: StorageEvent) -> bool {
        event is JournalDurable && self.campaign is Some && self.campaign->0.bound == event.about()
    }

    /// A storage event handled, short of a Sync that waited for the promise.
    pub open spec fn event_stored<H: Fn(HashDomain, Vec<Vec<u8>>) -> Digest32>(
        self,
        hash: H,
        event: StorageEvent,
    ) -> Turn {
        let noted = self.noted(event);
        if noted.about_sync(event) {
            noted.sync_settled(hash, event)
        } else {
            let settled = noted.batch_settled(event);
            let (advanced, said) = if settled.binds(event) {
                FollowerView {
                    campaign: Some(CampaignView { durable: true, ..settled.campaign->0 }),
                    ..settled
                }.campaign_advanced(hash)
            } else {
                quiet(settled)
            };
            let (delivered, more) = advanced.report_delivered(hash);
            (delivered.learned(), said + more)
        }
    }

    /// A storage event handled.
    pub open spec fn stored<H: Fn(HashDomain, Vec<Vec<u8>>) -> Digest32>(
        self,
        hash: H,
        event: StorageEvent,
    ) -> Turn {
        let (next, said) = self.event_stored(hash, event);
        if next.early_sync is Some && (next.early_sync->0).1.ballot == next.ballots.promised {
            let (leader, d) = next.early_sync->0;
            let (done, more) = FollowerView { early_sync: None, ..next }.sync_received(
                hash,
                leader,
                d,
            );
            (done, said + more)
        } else {
            (next, said)
        }
    }

    /// A voting message belongs to the promised ballot whose Sync has not
    /// arrived yet.
    pub open spec fn stashed(self, message: MessageView) -> bool {
        let ballot = match message {
            MessageView::Proposal(a) => Some(a.ballot),
            MessageView::FastAck(a) => Some(a.ballot),
            MessageView::SlowAck(a) => Some(a.ballot),
            _ => None,
        };
        &&& ballot == Some(self.ballots.promised)
        &&& ballot != Some(self.config.quorum.ballot)
        &&& self.ballots.in_flight.len() == 0
        &&& self.awaiting_sync.len() < self.config.capacity
    }

    /// A candidate's `NewLeader` handled.
    pub open spec fn asked_to_promise(self, from: PeerId, ballot: Ballot) -> Turn {
        match self.boot {
            None => quiet(self),
            Some(boot) => match self.ballots.promise_refusal(from, ballot) {
                Some(e) => quiet(self.rejected(RefusalView::Promise(e))),
                None => {
                    let reply = self.ballots.promise_reply(
                        from,
                        ballot,
                        boot.id,
                        self.barrier(),
                        self.cut(),
                    );
                    (
                        FollowerView {
                            ballots: self.ballots.promising(from, ballot, self.barrier()),
                            awaiting_sync: Seq::empty(),
                            report_due: Some(
                                PendingView {
                                    ballot,
                                    to: from,
                                    requires_durable: reply.requires_durable,
                                },
                            ),
                            ..self
                        }.allocated(),
                        seq![
                            EffectView::Persist(
                                self.ballots.promise_batch(ballot, self.barrier()),
                            ),
                            EffectView::Publish(reply),
                        ],
                    )
                },
            },
        }
    }

    /// A coordinator's `SealRequest` handled.
    pub open spec fn asked_to_seal(self, from: PeerId, transition: Transition) -> Turn {
        match self.boot {
            None => quiet(self),
            Some(boot) => match self.ballots.seal_refusal(transition) {
                Some(e) => quiet(self.rejected(RefusalView::Seal(e))),
                None => (
                    FollowerView {
                        ballots: self.ballots.sealing_under(transition, self.barrier()),
                        ..self
                    }.allocated(),
                    seq![
                        EffectView::Persist(self.ballots.seal_batch(transition, self.barrier())),
                        EffectView::Publish(
                            self.ballots.seal_report(
                                transition,
                                from,
                                boot.id,
                                self.barrier(),
                                self.cut(),
                            ),
                        ),
                    ],
                ),
            },
        }
    }

    /// A voter's promise to this replica's campaign handled.
    pub open spec fn promise_received<H: Fn(HashDomain, Vec<Vec<u8>>) -> Digest32>(
        self,
        hash: H,
        from: PeerId,
        ballot: Ballot,
        replica: ReplicaId,
    ) -> Turn {
        let told = if self.campaign is Some && self.campaign->0.config.ballot == ballot && replica
            == from.replica {
            FollowerView { campaign: Some(self.campaign->0.with_promise(replica)), ..self }
        } else {
            self
        };
        told.campaign_advanced(hash)
    }

    /// A report page for this replica's campaign handled.
    pub open spec fn page_received<H: Fn(HashDomain, Vec<Vec<u8>>) -> Digest32>(
        self,
        hash: H,
        page: PageView,
    ) -> Turn {
        match self.campaign {
            None => quiet(self),
            Some(c) => match c.assembler.refusal(hash, page) {
                Some(e) => quiet(self.rejected(RefusalView::Page(e))),
                None => FollowerView {
                    campaign: Some(
                        CampaignView { assembler: c.assembler.with_page(page), ..c },
                    ),
                    ..self
                }.campaign_advanced(hash),
            },
        }
    }

    /// A peer's frame handled.
    pub open spec fn received<
        H: Fn(HashDomain, Vec<Vec<u8>>) -> Digest32,
        D: Fn(RetryKey, Vec<u8>) -> Option<Derived>,
    >(self, hash: H, derive: D, from: PeerId, frame: Seq<u8>) -> Turn {
        match message_in(frame) {
            Err(_) => quiet(self.rejected(RefusalView::MalformedPeerMessage)),
            Ok(m) => if self.stashed(m) {
                quiet(
                    FollowerView {
                        awaiting_sync: self.awaiting_sync.push((from.replica, m)),
                        ..self
                    },
                )
            } else {
                match m {
                    MessageView::NewLeader { ballot } => self.asked_to_promise(from, ballot),
                    MessageView::SealRequest { transition } => self.asked_to_seal(
                        from,
                        transition,
                    ),
                    MessageView::Promise { ballot, replica, .. } => self.promise_received(
                        hash,
                        from,
                        ballot,
                        replica,
                    ),
                    MessageView::ReportPage(page) => self.page_received(hash, page),
                    MessageView::Sync(d) => self.sync_received(hash, from.replica, d),
                    MessageView::Proposal(p) => self.proposal_received(hash, from.replica, p),
                    MessageView::FastAck(a) => quiet(
                        self.collected(from.replica, VoteView::Fast(a)),
                    ),
                    MessageView::SlowAck(a) => quiet(
                        self.collected(from.replica, VoteView::Slow(a)),
                    ),
                    MessageView::PayloadRequest { commands } => match self.boot {
                        None => quiet(self),
                        Some(boot) => (
                            self,
                            payloads_served(self, boot, from.replica, commands),
                        ),
                    },
                    MessageView::PayloadResponse { command, payload } => self.payload_answered(
                        hash,
                        derive,
                        command,
                        payload,
                    ),
                    _ => quiet(self),
                }
            },
        }
    }

    /// The replica booted.
    pub open spec fn booted(self, boot_id: BootId, first: u64) -> Self {
        FollowerView {
            boot: Some(BootView { id: boot_id, next: first, settled: SettledView::none() }),
            ..self
        }
    }

    /// An event handled.
    pub open spec fn stepped<
        H: Fn(HashDomain, Vec<Vec<u8>>) -> Digest32,
        D: Fn(RetryKey, Vec<u8>) -> Option<Derived>,
    >(self, hash: H, derive: D, event: Event) -> Turn {
        match event {
            Event::Boot { boot_id, first_barrier } => quiet(self.booted(boot_id, first_barrier)),
            Event::Admitted { request, admission } => self.admitted(
                hash,
                crate::machine::request_view(request),
                admission@,
            ),
            Event::Storage(event) => self.stored(hash, event),
            Event::Peer { from, frame } => self.received(hash, derive, from, frame@),
            Event::Other => quiet(self),
        }
    }

    /// Without the history.
    pub open spec fn swept(self) -> Self {
        let keep = live(self.table);
        FollowerView {
            ledger: LedgerView {
                records: self.ledger.records.restrict(keep),
                sequences: self.ledger.sequences.restrict(
                    Set::new(
                        |c: CommandId| keep.contains(c) || !self.ledger.records.contains_key(c),
                    ),
                ),
                ..self.ledger
            },
            payloads: self.payloads.restrict(keep),
            served_payloads: self.served_payloads.intersect(keep),
            votes: self.votes.restrict(keep),
            adopted: self.adopted.restrict(keep),
            ..self
        }
    }

    /// Without the history, once there is enough of it.
    pub open spec fn history_forgotten(self) -> Self {
        if self.ledger.records.dom().len() <= saturating(self.config.capacity, HISTORY_SWEEP) {
            self
        } else {
            self.swept()
        }
    }

    /// The state after an application was offered.
    pub open spec fn applied(self, seal: Sealing, c: CommandId, outcome: OutcomeView) -> Turn {
        let executed = FollowerView {
            learner: self.learner.executed(c),
            table: self.table.advanced(c, Phase::Executed),
            ..self
        };
        if self.learner.refusal(self.table, c, outcome.position) is Some {
            quiet(self)
        } else if !seal(self.evidence(c, outcome)) {
            quiet(executed)
        } else {
            (
                executed.learned().history_forgotten(),
                seq![EffectView::Established(self.evidence(c, outcome))],
            )
        }
    }

    /// What would establish the result of `c` here.
    pub open spec fn evidence(self, c: CommandId, outcome: OutcomeView) -> EstablishmentView {
        self.learner.evidence(
            self.table,
            c,
            self.config.identity.epoch,
            self.config.quorum.ballot,
            outcome,
        )
    }

    /// Why an application is refused.
    pub open spec fn apply_refusal(
        self,
        seal: Sealing,
        c: CommandId,
        outcome: OutcomeView,
    ) -> Option<LearnError> {
        match self.learner.refusal(self.table, c, outcome.position) {
            Some(e) => Some(e),
            None => if !seal(self.evidence(c, outcome)) {
                Some(LearnError::Establish(EstablishError))
            } else {
                None
            },
        }
    }

    /// What is carried when the role is given up.
    pub open spec fn given_up(self) -> RecoveredView {
        RecoveredView {
            identity: self.config.identity,
            ballots: self.ballots,
            table: self.table,
            ledger: self.ledger,
            payloads: self.payloads,
            bindings: self.bindings,
            served_payloads: self.served_payloads,
            learner: self.learner,
            boot: self.boot,
            report_due: self.report_due,
            frontend: self.config.frontend,
            capacity: self.config.capacity,
        }
    }

    /// A follower from state carried across a role change.
    pub open spec fn taking_over(state: RecoveredView, quorum: ConfigView) -> Self {
        FollowerView {
            config: FollowerConfigView {
                identity: state.identity,
                genesis: quorum.ballot,
                quorum,
                frontend: state.frontend,
                capacity: state.capacity,
            },
            boot: state.boot,
            ballots: state.ballots,
            table: state.table,
            bindings: state.bindings,
            held: Map::empty(),
            adopted: Map::empty(),
            pending: Map::empty(),
            deferred: Map::empty(),
            votes: Map::empty(),
            payloads: state.payloads,
            durable_payloads: Map::empty(),
            served_payloads: state.served_payloads,
            payload_cursor: 0,
            payloads_answered: 0,
            payloads_asked: Set::empty(),
            ledger: state.ledger,
            learner: state.learner,
            campaign: None,
            behind: None,
            report_due: state.report_due,
            sync_pending: Map::empty(),
            sync_barrier: None,
            won: None,
            awaiting_sync: Seq::empty(),
            early_sync: None,
            rejections: Seq::empty(),
            replay: StoreView::empty(state.capacity),
        }
    }

    /// A follower rebuilt from durable rows.
    pub open spec fn recovered<H: Fn(HashDomain, Vec<Vec<u8>>) -> Digest32>(
        hash: H,
        config: FollowerConfigView,
        promise: Option<PromiseRecordV1>,
        seal: Option<SealRecordV1>,
        rows: Seq<(CommandId, crate::commands::RecordView)>,
        payloads: Seq<(CommandId, PayloadView)>,
        syncs: Seq<(Ballot, SyncView)>,
        executed_through: ExecutionPosition,
    ) -> Self {
        let ballots = BallotView::recovered(config.identity, config.genesis, promise, seal);
        let records = bound_in_order(rows);
        let kept = payloads_in(payloads);
        let base = FollowerView {
            config,
            boot: None,
            ballots,
            table: TableView::restored(hash, Some(config.capacity), rows),
            bindings: bindings_of(kept, in_order::<CommandId>(kept.dom())),
            held: Map::empty(),
            adopted: Map::new(
                |c: CommandId|
                    records.contains_key(c) && records[c].payload is Some && records[c].phase.rank()
                        >= Phase::Accept.rank(),
                |c: CommandId| (u64::MAX, true),
            ),
            pending: Map::empty(),
            deferred: Map::empty(),
            votes: Map::empty(),
            payloads: kept,
            durable_payloads: Map::empty(),
            served_payloads: kept.dom(),
            payload_cursor: 0,
            payloads_answered: 0,
            payloads_asked: Set::empty(),
            ledger: LedgerView::of(records),
            learner: LearnerView {
                executed_through,
                mode: LearningMode::Full,
                fast: Set::empty(),
            },
            campaign: None,
            behind: None,
            report_due: None,
            sync_pending: Map::empty(),
            sync_barrier: None,
            won: None,
            awaiting_sync: Seq::empty(),
            early_sync: None,
            rejections: Seq::empty(),
            replay: StoreView::empty(config.capacity),
        };
        match selection_of(syncs, ballots.synced) {
            None => base,
            Some(d) => base.requeued(hash, d.entries, in_order::<CommandId>(d.entries.dom())),
        }
    }

    /// Each of `executed` marked as executed, with a place in the order.
    pub open spec fn with_executed(self, executed: Seq<CommandId>) -> Self
        decreases executed.len(),
    {
        if executed.len() == 0 {
            self
        } else {
            let before = self.with_executed(executed.drop_last());
            let c = executed.last();
            FollowerView {
                table: before.table.marked_executed(c),
                adopted: if before.adopted.contains_key(c) {
                    before.adopted
                } else {
                    before.adopted.insert(c, (u64::MAX, true))
                },
                ..before
            }
        }
    }

    /// Each of `executed` retired, where it can be.
    pub open spec fn with_retired(self, executed: Seq<CommandId>) -> Self
        decreases executed.len(),
    {
        if executed.len() == 0 {
            self
        } else {
            let before = self.with_retired(executed.drop_last());
            let c = executed.last();
            FollowerView {
                table: if before.table.retire_refusal(c) is None {
                    before.table.retired_one(c)
                } else {
                    before.table
                },
                ..before
            }
        }
    }

    /// The durable execution frontier restored.
    pub open spec fn execution_restored(
        self,
        through: ExecutionPosition,
        executed: Seq<CommandId>,
    ) -> Self {
        FollowerView {
            learner: LearnerView {
                executed_through: through,
                mode: self.learner.mode,
                fast: Set::empty(),
            },
            ..self.with_executed(executed).with_retired(executed).swept()
        }
    }

    /// The durable payloads of recovered commands restored.
    pub open spec fn payloads_restored(self, rows: Seq<(CommandId, PayloadView)>) -> Self
        decreases rows.len(),
    {
        if rows.len() == 0 {
            self
        } else {
            let before = self.payloads_restored(rows.drop_last());
            let (c, p) = rows.last();
            if before.table.phase_of(c) is None {
                before
            } else {
                let bound = FollowerView {
                    bindings: before.bindings.insert(p.retry_key, c),
                    ..before
                };
                if is_history(before.table, c) {
                    bound
                } else {
                    FollowerView {
                        payloads: before.payloads.insert(c, p),
                        served_payloads: before.served_payloads.insert(c),
                        ..bound
                    }
                }
            }
        }
    }
}

proof fn lemma_adopt_each_held<H: Fn(HashDomain, Vec<Vec<u8>>) -> Digest32>(
    state: FollowerView,
    hash: H,
    cs: Seq<CommandId>,
)
    ensures
        state.adopt_each(hash, cs).0.held == state.held.remove_keys(cs.to_set()),
    decreases cs.len(),
{
    if cs.len() == 0 {
        assert(state.held.remove_keys(cs.to_set()) =~= state.held);
    } else {
        let before = cs.drop_last();
        lemma_adopt_each_held(state, hash, before);
        assert(cs.to_set() =~= before.to_set().insert(cs.last())) by {
            assert forall|c: CommandId| cs.to_set().contains(c) implies before.to_set().insert(
                cs.last(),
            ).contains(c) by {
                let i = choose|i: int| 0 <= i < cs.len() && cs[i] == c;
                if i < before.len() {
                    assert(before[i] == c);
                }
            }
            assert forall|c: CommandId| before.to_set().insert(cs.last()).contains(
                c,
            ) implies cs.to_set().contains(c) by {
                if c == cs.last() {
                    assert(cs[cs.len() - 1] == c);
                } else {
                    let i = choose|i: int| 0 <= i < before.len() && before[i] == c;
                    assert(cs[i] == c);
                }
            }
        }
        assert(state.held.remove_keys(before.to_set()).remove(cs.last())
            =~= state.held.remove_keys(cs.to_set()));
    }
}

/// A pass that adopts anything leaves fewer proposals held.
pub proof fn lemma_adopt_round<H: Fn(HashDomain, Vec<Vec<u8>>) -> Digest32>(
    state: FollowerView,
    hash: H,
)
    requires
        state.held.dom().finite(),
        in_order::<CommandId>(state.adoptable()).len() > 0,
    ensures
        ({
            let next = state.adopt_each(hash, in_order::<CommandId>(state.adoptable())).0;
            &&& next.held.dom().finite()
            &&& next.held.dom().len() < state.held.dom().len()
        }),
{
    let cs = in_order::<CommandId>(state.adoptable());
    lemma_in_order::<CommandId>(state.adoptable());
    lemma_adopt_each_held(state, hash, cs);
    let next = state.adopt_each(hash, cs).0;
    assert(cs.contains(cs[0]));
    assert(state.adoptable().contains(cs[0]));
    assert(next.held.dom().subset_of(state.held.dom().remove(cs[0])));
    vstd::set_lib::lemma_len_subset(next.held.dom(), state.held.dom().remove(cs[0]));
}

proof fn lemma_install_each_pending<H: Fn(HashDomain, Vec<Vec<u8>>) -> Digest32>(
    state: FollowerView,
    hash: H,
    cs: Seq<CommandId>,
)
    ensures
        state.install_each(hash, cs).0.sync_pending == state.sync_pending.remove_keys(cs.to_set()),
    decreases cs.len(),
{
    if cs.len() == 0 {
        assert(state.sync_pending.remove_keys(cs.to_set()) =~= state.sync_pending);
    } else {
        let before = cs.drop_last();
        lemma_install_each_pending(state, hash, before);
        assert(cs.to_set() =~= before.to_set().insert(cs.last())) by {
            assert forall|c: CommandId| cs.to_set().contains(c) implies before.to_set().insert(
                cs.last(),
            ).contains(c) by {
                let i = choose|i: int| 0 <= i < cs.len() && cs[i] == c;
                if i < before.len() {
                    assert(before[i] == c);
                }
            }
            assert forall|c: CommandId| before.to_set().insert(cs.last()).contains(
                c,
            ) implies cs.to_set().contains(c) by {
                if c == cs.last() {
                    assert(cs[cs.len() - 1] == c);
                } else {
                    let i = choose|i: int| 0 <= i < before.len() && before[i] == c;
                    assert(cs[i] == c);
                }
            }
        }
        assert(state.sync_pending.remove_keys(before.to_set()).remove(cs.last())
            =~= state.sync_pending.remove_keys(cs.to_set()));
    }
}

/// A pass that installs anything leaves fewer entries pending.
pub proof fn lemma_install_round<H: Fn(HashDomain, Vec<Vec<u8>>) -> Digest32>(
    state: FollowerView,
    hash: H,
)
    requires
        state.sync_pending.dom().finite(),
        in_order::<CommandId>(state.installable()).len() > 0,
    ensures
        ({
            let next = state.install_each(hash, in_order::<CommandId>(state.installable())).0;
            &&& next.sync_pending.dom().finite()
            &&& next.sync_pending.dom().len() < state.sync_pending.dom().len()
        }),
{
    let cs = in_order::<CommandId>(state.installable());
    lemma_in_order::<CommandId>(state.installable());
    lemma_install_each_pending(state, hash, cs);
    let next = state.install_each(hash, cs).0;
    assert(cs.contains(cs[0]));
    assert(state.installable().contains(cs[0]));
    assert(next.sync_pending.dom().subset_of(state.sync_pending.dom().remove(cs[0])));
    vstd::set_lib::lemma_len_subset(
        next.sync_pending.dom(),
        state.sync_pending.dom().remove(cs[0]),
    );
}

impl Follower {
    fn reject(&mut self, rejection: FollowerRejection)
        ensures
            final(self)@ == old(self)@.rejected(rejection@),
    {
        self.rejections.push(rejection);
        proof {
            lemma_views_push(old(self).rejections@, rejection);
            assert(self@ =~= old(self)@.rejected(rejection@));
        }
    }

    fn learn(&mut self)
        ensures
            final(self)@ == old(self)@.learned(),
    {
        let _ = self.learner.commit_learned(&mut self.table, &self.votes);
        proof {
            assert(self@ =~= old(self)@.learned());
        }
    }

    fn allocate(&mut self) -> (r: BarrierId)
        requires
            old(self)@.boot is Some,
        ensures
            r == old(self)@.barrier(),
            final(self)@ == old(self)@.allocated(),
    {
        let taken = self.boot.take();
        match taken {
            Some(mut boot) => {
                let r = boot.alloc.allocate();
                self.boot = Some(boot);
                proof {
                    assert(self@ =~= old(self)@.allocated());
                }
                r
            },
            None => BarrierId(0),
        }
    }

    /// Whether this follower may still vote in the configured ballot: it
    /// votes in this epoch at all, has promised exactly that ballot, and no
    /// higher promise is in flight. A promise for a higher ballot is the
    /// recovery cut: nothing of the old ballot may be adopted or
    /// acknowledged after it starts, whichever row becomes durable first. A
    /// seal is the same cut for every ballot of the configuration, so a
    /// durable seal, or a seal row in flight, ends voting too.
    fn may_vote(&self) -> (r: bool)
        ensures
            r == self@.may_vote(),
    {
        !self.ballots.is_fenced() && self.config.identity.role == ReplicaRole::Voter
            && self.ballots.promised() == self.config.quorum.ballot()
            && self.ballots.in_flight().is_none()
    }

    /// Whether this replica may send fast acknowledgements in this ballot.
    fn in_fast_set(&self) -> (r: bool)
        ensures
            r == self@.config.quorum.fast_eligible(self@.config.identity.replica),
    {
        self.config.quorum.fast_eligible(&self.config.identity.replica)
    }

    fn waits_for(&self, barrier: BarrierId) -> (r: Vec<BarrierId>)
        ensures
            r@ == self@.waits_for(barrier),
    {
        let mut open = self.pending.keys();
        proof {
            lemma_barrier_views(open@);
            lemma_in_order::<BarrierId>(self@.pending.dom());
        }
        if !self.pending.contains_key(&barrier) {
            open.push(barrier);
        }
        open
    }

    /// Publish an acknowledgement that waits for `barrier` and for every
    /// batch still outstanding: the payload batch of this command and the
    /// acceptance batches of its prerequisites are all part of what the
    /// acknowledgement claims, so none of them may still be volatile when it
    /// leaves. The frontend's copy is the one a submission can ask for
    /// again, so it is kept.
    fn publish_to_voters_and_frontend(
        &mut self,
        command: CommandId,
        barrier: BarrierId,
        message: &ProtocolMessage,
        out: &mut Vec<Effect>,
    )
        ensures
            ({
                let turn = old(self)@.acknowledged(command, barrier, message@);
                &&& final(self)@ == turn.0
                &&& views(final(out)@) == views(old(out)@) + turn.1
            }),
    {
        let ghost said = views(out@);
        let context = match &self.boot {
            None => {
                proof {
                    assert(said + Seq::<EffectView>::empty() =~= said);
                }
                return;
            },
            Some(boot) => self.ballots.context(boot.id, self.config.quorum.ballot()),
        };
        let ballot = self.config.quorum.ballot();
        let waits = self.waits_for(barrier);
        let frame = message.encode();
        broadcast(out, context, &waits, &self.config.identity, &frame);
        publish(out, context, &waits, self.config.frontend, &frame);
        let evidence = RetainedEvidence {
            barrier,
            ballot,
            context,
            requires_durable: waits,
            frame,
        };
        self.replay.retain(command, evidence, &self.table);
        proof {
            let turn = old(self)@.acknowledged(command, barrier, message@);
            assert(self@ =~= turn.0);
            assert(views(out@) =~= said + turn.1);
        }
    }

    fn is_ready(&self, deps: &Vec<CommandId>) -> (r: bool)
        ensures
            r == (first_violation(deps@, self@.table.phases(), Phase::Accept) is None),
    {
        let table = &self.table;
        let lookup = |d: CommandId| -> (p: Option<Phase>)
            ensures
                p == table@.phase_of(d),
            { table.phase_of(&d) };
        proof {
            assert(crate::phase::reports(lookup, table@.phases()));
        }
        crate::phase::guard_accept(deps, &lookup).is_ok()
    }

    fn find_adoptable(&self) -> (r: Vec<CommandId>)
        ensures
            r@ == in_order::<CommandId>(self@.adoptable()),
            self@.held.dom().finite(),
    {
        let n: usize = self.held.len();
        let ghost order = in_order::<CommandId>(self.held@.dom());
        let ghost goal = self@.adoptable();
        proof {
            lemma_in_order::<CommandId>(self.held@.dom());
        }
        let mut out: OrdSet<CommandId> = OrdSet::new();
        let mut i: usize = 0;
        proof {
            assert(out@ =~= goal.intersect(order.take(0).to_set()));
        }
        while i < n
            invariant
                i <= n == self.held@.dom().len(),
                order == in_order::<CommandId>(self.held@.dom()),
                order.len() == n,
                goal == self@.adoptable(),
                out@ == goal.intersect(order.take(i as int).to_set()),
            decreases n - i,
        {
            let c = *self.held.key_at(i);
            let h = self.held.value_at(i);
            if self.table.is_initialized(&c) && self.is_ready(&h.proposal.deps) {
                out.insert(c);
            }
            proof {
                lemma_take_set(order, i as int);
                assert(out@ =~= goal.intersect(order.take(i + 1).to_set()));
            }
            i = i + 1;
        }
        proof {
            assert(order.take(n as int) =~= order);
            assert(out@ =~= goal) by {
                assert forall|c: CommandId| goal.contains(c) implies order.to_set().contains(c) by {
                    assert(order.contains(c));
                }
            }
        }
        let r = out.to_vec();
        proof {
            lemma_id_views(r@);
        }
        r
    }

    #[verifier::rlimit(40)]
    fn adopt_one<H: Fn(HashDomain, Vec<Vec<u8>>) -> Digest32>(
        &mut self,
        hash: &H,
        command: CommandId,
        out: &mut Vec<Effect>,
    )
        requires
            is_hash(*hash),
            old(self)@.held.contains_key(command),
        ensures
            ({
                let turn = old(self)@.adopt_one(*hash, command);
                &&& final(self)@ == turn.0
                &&& views(final(out)@) == views(old(out)@) + turn.1
            }),
    {
        let ghost said = views(out@);
        let ghost before = self@;
        let ghost turn = before.adopt_one(*hash, command);
        let held = match self.held.remove(&command) {
            Some(h) => h.proposal,
            None => {
                return;
            },
        };
        // A command already learned or executed (installed from a Sync, or
        // durable across a restart) keeps its phase: the re-proposal only
        // supplies the new ballot's order.
        let mut refused = false;
        if !has_reached(self.table.phase_of(&command), Phase::Commit) {
            refused = self.table.adopt(
                command,
                copy_list(&held.deps),
                Some(&held.paths),
                held.path,
            ).is_err();
        }
        let ghost base = FollowerView {
            held: before.held.remove(command),
            table: before.ordered(command),
            ..before
        };
        proof {
            assert(self@ =~= base);
            assert(refused == before.order_refused(command));
            assert(said + Seq::<EffectView>::empty() =~= said);
        }
        if refused || self.boot.is_none() {
            return;
        }
        let record = match self.table.record(&command) {
            Some(r) => r.dup(),
            None => {
                return;
            },
        };
        let admission = match record.payload {
            Some(p) => p,
            None => admission_digest(hash, None, 0),
        };
        let seqnum: u64 = match held.seqnum {
            Some(n) => n,
            None => u64::MAX,
        };
        let epoch = self.config.identity.epoch;
        let barrier = self.allocate();
        emit(
            out,
            Effect::Persist(one_row(barrier, dependency_update(epoch, &command, &record))),
        );
        self.adopted.insert(command, (seqnum, false));
        self.pending.insert(barrier, Pending::Adoption(command));
        self.ledger.stage(barrier, command, record);
        let ack = SlowAck {
            replica: self.config.identity.replica,
            ballot: self.config.quorum.ballot(),
            command,
            admission,
        };
        // Counted once the adoption row is durable, like the acknowledgement
        // itself, which waits for the same batch.
        self.deferred.insert(barrier, DeferredVote { command, vote: Vote::Slow(ack) });
        let ghost staged = self@;
        let message = ProtocolMessage::SlowAck(ack);
        self.publish_to_voters_and_frontend(command, barrier, &message, out);
        proof {
            let rec = base.table.records[command];
            let goal = FollowerView {
                adopted: before.adopted.insert(command, (seqnum, false)),
                pending: before.pending.insert(barrier, Pending::Adoption(command)),
                ledger: LedgerView {
                    staged: before.ledger.staged.insert(barrier, (command, rec)),
                    ..before.ledger
                },
                deferred: before.deferred.insert(
                    barrier,
                    DeferredView { command, vote: VoteView::Slow(ack) },
                ),
                ..base
            }.allocated();
            assert(staged =~= goal);
            assert(views(out@) =~= said + turn.1);
        }
    }

    /// Adopt every held proposal whose payload is initialized and whose
    /// dependencies are all at least ACCEPT; repeat while progress is made.
    ///
    /// A proposal held before a seal stays held: adopting it would
    /// acknowledge after the cut the seal report was built over.
    #[verifier::rlimit(40)]
    fn advance_pending<H: Fn(HashDomain, Vec<Vec<u8>>) -> Digest32>(&mut self, hash: &H) -> (r: Vec<
        Effect,
    >)
        requires
            is_hash(*hash),
        ensures
            (final(self)@, views(r@)) == old(self)@.pending_advanced(*hash),
    {
        let mut effects = no_effects();
        if self.ballots.is_fenced() || self.boot.is_none() {
            self.learn();
            return effects;
        }
        let ghost start = self@;
        proof {
            let done = start.adopt_rounds(*hash);
            assert((done.0, Seq::<EffectView>::empty() + done.1) == done) by {
                assert(Seq::<EffectView>::empty() + done.1 =~= done.1);
            }
        }
        let held: usize = self.held.len();
        loop
            invariant
                is_hash(*hash),
                self@.held.dom().finite(),
                ({
                    let done = self@.adopt_rounds(*hash);
                    (done.0, views(effects@) + done.1)
                }) == start.adopt_rounds(*hash),
                start == old(self)@,
                !start.ballots.fenced(),
                start.boot is Some,
            decreases self@.held.dom().len(),
        {
            let ghost state = self@;
            let ghost said = views(effects@);
            let ready = self.find_adoptable();
            let ghost cs = ready@;
            proof {
                lemma_in_order::<CommandId>(state.adoptable());
            }
            if ready.len() == 0 {
                self.learn();
                proof {
                    assert(state.adopt_rounds(*hash) == quiet(state.learned()));
                    assert(said + Seq::<EffectView>::empty() =~= said);
                }
                return effects;
            }
            let mut i: usize = 0;
            proof {
                lemma_adopt_round(state, *hash);
                assert(cs.take(0) =~= Seq::<CommandId>::empty());
                assert(said + Seq::<EffectView>::empty() =~= said);
                assert forall|j: int| 0 <= j < cs.len() implies state.held.contains_key(
                    #[trigger] cs[j],
                ) by {
                    assert(cs.contains(cs[j]));
                }
            }
            while i < ready.len()
                invariant
                    is_hash(*hash),
                    i <= ready@.len(),
                    cs == ready@,
                    cs.no_duplicates(),
                    forall|j: int| 0 <= j < cs.len() ==> state.held.contains_key(#[trigger] cs[j]),
                    self@ == state.adopt_each(*hash, cs.take(i as int)).0,
                    views(effects@) == said + state.adopt_each(*hash, cs.take(i as int)).1,
                decreases ready@.len() - i,
            {
                let c = ready[i];
                let ghost before = cs.take(i as int);
                let ghost mid = self@;
                proof {
                    assert(cs.take(i + 1).drop_last() =~= before);
                    assert(cs.take(i + 1).last() == c);
                    lemma_adopt_each_held(state, *hash, before);
                    assert(!before.to_set().contains(c)) by {
                        if before.contains(c) {
                            let j = choose|j: int| 0 <= j < before.len() && before[j] == c;
                            assert(cs[j] == c && cs[i as int] == c);
                        }
                    }
                    assert(state.held.contains_key(cs[i as int]));
                }
                self.adopt_one(hash, c, &mut effects);
                proof {
                    let one = mid.adopt_one(*hash, c);
                    let all = state.adopt_each(*hash, cs.take(i + 1));
                    assert(said + state.adopt_each(*hash, before).1 + one.1 =~= said + all.1);
                }
                i = i + 1;
            }
            proof {
                assert(cs.take(cs.len() as int) =~= cs);
                let round = state.adopt_each(*hash, cs);
                let done = self@.adopt_rounds(*hash);
                assert(state.adopt_rounds(*hash) == (done.0, round.1 + done.1));
                assert(said + (round.1 + done.1) =~= (said + round.1) + done.1);
            }
        }
    }
}

impl Follower {
    fn find_installable(&self) -> (r: Vec<CommandId>)
        ensures
            r@ == in_order::<CommandId>(self@.installable()),
            self@.sync_pending.dom().finite(),
    {
        let n: usize = self.sync_pending.len();
        let ghost order = in_order::<CommandId>(self.sync_pending@.dom());
        let ghost goal = self@.installable();
        proof {
            lemma_in_order::<CommandId>(self.sync_pending@.dom());
        }
        let mut out: OrdSet<CommandId> = OrdSet::new();
        let mut i: usize = 0;
        proof {
            assert(out@ =~= goal.intersect(order.take(0).to_set()));
        }
        while i < n
            invariant
                i <= n == self.sync_pending@.dom().len(),
                order == in_order::<CommandId>(self.sync_pending@.dom()),
                order.len() == n,
                goal == self@.installable(),
                out@ == goal.intersect(order.take(i as int).to_set()),
            decreases n - i,
        {
            let c = *self.sync_pending.key_at(i);
            let e = self.sync_pending.value_at(i);
            if self.table.phase_of(&c).is_some() && self.is_ready(&e.deps) {
                out.insert(c);
            }
            proof {
                lemma_take_set(order, i as int);
                assert(out@ =~= goal.intersect(order.take(i + 1).to_set()));
            }
            i = i + 1;
        }
        proof {
            assert(order.take(n as int) =~= order);
            assert(out@ =~= goal) by {
                assert forall|c: CommandId| goal.contains(c) implies order.to_set().contains(c) by {
                    assert(order.contains(c));
                }
            }
        }
        let r = out.to_vec();
        proof {
            lemma_id_views(r@);
        }
        r
    }

    /// Install a Sync entry.
    ///
    /// Installing the selection means installing its whole evidence, not
    /// only the combined digest: the per-key logs are realigned to the
    /// selected order first, so a later command derives its dependencies
    /// from the chosen tail rather than this replica's pre-accept one. The
    /// selected order then replaces a local one that is merely accepted;
    /// committed and executed records keep their dependencies. A command
    /// executed here and already retired has no record left to install the
    /// selection over, and is passed by.
    fn install_one<H: Fn(HashDomain, Vec<Vec<u8>>) -> Digest32>(
        &mut self,
        hash: &H,
        command: CommandId,
        out: &mut Vec<Effect>,
    )
        requires
            is_hash(*hash),
            old(self)@.sync_pending.contains_key(command),
        ensures
            ({
                let turn = old(self)@.install_one(*hash, command);
                &&& final(self)@ == turn.0
                &&& views(final(out)@) == views(old(out)@) + turn.1
            }),
    {
        let ghost said = views(out@);
        let ghost before = self@;
        let ghost turn = before.install_one(*hash, command);
        let entry = match self.sync_pending.remove(&command) {
            Some(e) => e,
            None => {
                return;
            },
        };
        let ghost base = FollowerView {
            sync_pending: before.sync_pending.remove(command),
            ..before
        };
        proof {
            assert(self@ =~= base);
            assert(said + Seq::<EffectView>::empty() =~= said);
        }
        if self.table.record(&command).is_none() || self.boot.is_none() {
            return;
        }
        self.table.record_leader_path(hash, command, entry.seqnum, &entry.paths);
        if !has_reached(self.table.phase_of(&command), Phase::Commit) {
            if self.table.adopt(
                command,
                copy_list(&entry.deps),
                Some(&entry.paths),
                entry.path,
            ).is_err() {
                proof {
                    assert(self@ =~= turn.0);
                }
                return;
            }
        }
        if entry.phase == Phase::Commit && !has_reached(
            self.table.phase_of(&command),
            Phase::Commit,
        ) {
            let _ = self.table.commit(command);
        }
        let record = match self.table.record(&command) {
            Some(r) => r.dup(),
            None => {
                proof {
                    assert(false);
                }
                return;
            },
        };
        let epoch = self.config.identity.epoch;
        let barrier = self.allocate();
        emit(
            out,
            Effect::Persist(one_row(barrier, dependency_update(epoch, &command, &record))),
        );
        self.pending.insert(barrier, Pending::Adoption(command));
        self.ledger.stage(barrier, command, record);
        proof {
            assert(self@ =~= turn.0);
            assert(views(out@) =~= said + turn.1);
        }
    }

    /// Install every Sync entry whose payload is known and whose
    /// dependencies are at least ACCEPT; repeat while progress is made.
    #[verifier::rlimit(40)]
    fn advance_sync<H: Fn(HashDomain, Vec<Vec<u8>>) -> Digest32>(&mut self, hash: &H) -> (r: Vec<
        Effect,
    >)
        requires
            is_hash(*hash),
        ensures
            (final(self)@, views(r@)) == old(self)@.sync_advanced(*hash),
    {
        let mut effects = no_effects();
        if self.boot.is_none() {
            self.learn();
            return effects;
        }
        let ghost start = self@;
        proof {
            let done = start.install_rounds(*hash);
            assert((done.0, Seq::<EffectView>::empty() + done.1) == done) by {
                assert(Seq::<EffectView>::empty() + done.1 =~= done.1);
            }
        }
        let waiting: usize = self.sync_pending.len();
        loop
            invariant
                is_hash(*hash),
                self@.sync_pending.dom().finite(),
                ({
                    let done = self@.install_rounds(*hash);
                    (done.0, views(effects@) + done.1)
                }) == start.install_rounds(*hash),
                start == old(self)@,
                start.boot is Some,
            decreases self@.sync_pending.dom().len(),
        {
            let ghost state = self@;
            let ghost said = views(effects@);
            let ready = self.find_installable();
            let ghost cs = ready@;
            proof {
                lemma_in_order::<CommandId>(state.installable());
            }
            if ready.len() == 0 {
                self.learn();
                proof {
                    assert(state.install_rounds(*hash) == quiet(state.learned()));
                    assert(said + Seq::<EffectView>::empty() =~= said);
                }
                return effects;
            }
            let mut i: usize = 0;
            proof {
                lemma_install_round(state, *hash);
                assert(cs.take(0) =~= Seq::<CommandId>::empty());
                assert(said + Seq::<EffectView>::empty() =~= said);
                assert forall|j: int| 0 <= j < cs.len() implies state.sync_pending.contains_key(
                    #[trigger] cs[j],
                ) by {
                    assert(cs.contains(cs[j]));
                }
            }
            while i < ready.len()
                invariant
                    is_hash(*hash),
                    i <= ready@.len(),
                    cs == ready@,
                    cs.no_duplicates(),
                    forall|j: int|
                        0 <= j < cs.len() ==> state.sync_pending.contains_key(#[trigger] cs[j]),
                    self@ == state.install_each(*hash, cs.take(i as int)).0,
                    views(effects@) == said + state.install_each(*hash, cs.take(i as int)).1,
                decreases ready@.len() - i,
            {
                let c = ready[i];
                let ghost before = cs.take(i as int);
                let ghost mid = self@;
                proof {
                    assert(cs.take(i + 1).drop_last() =~= before);
                    assert(cs.take(i + 1).last() == c);
                    lemma_install_each_pending(state, *hash, before);
                    assert(!before.to_set().contains(c)) by {
                        if before.contains(c) {
                            let j = choose|j: int| 0 <= j < before.len() && before[j] == c;
                            assert(cs[j] == c && cs[i as int] == c);
                        }
                    }
                    assert(state.sync_pending.contains_key(cs[i as int]));
                }
                self.install_one(hash, c, &mut effects);
                proof {
                    let one = mid.install_one(*hash, c);
                    let all = state.install_each(*hash, cs.take(i + 1));
                    assert(said + state.install_each(*hash, before).1 + one.1 =~= said + all.1);
                }
                i = i + 1;
            }
            proof {
                assert(cs.take(cs.len() as int) =~= cs);
                let round = state.install_each(*hash, cs);
                let done = self@.install_rounds(*hash);
                assert(state.install_rounds(*hash) == (done.0, round.1 + done.1));
                assert(said + (round.1 + done.1) =~= (said + round.1) + done.1);
            }
        }
    }

    /// Answer a proposal for a command decided here with an adoption
    /// acknowledgement, to `leader` alone.
    ///
    /// The leader sends a proposal again only while it lacks this replica's
    /// adoption. The acknowledgement goes only when the proposal carries the
    /// dependencies and the admission the durable record holds, so it claims
    /// nothing this replica did not adopt; without a durable record nothing
    /// is sent. The record is durable, so the acknowledgement waits for
    /// nothing.
    fn acknowledge_decided(&self, proposal: &FastAck, leader: ReplicaId) -> (r: Vec<Effect>)
        ensures
            views(r@) == self@.decided_answer(proposal@, leader),
    {
        let mut out = no_effects();
        let boot = match &self.boot {
            Some(b) => b.id,
            None => {
                return out;
            },
        };
        let matches = match self.ledger.record(&proposal.command) {
            None => false,
            Some(record) => match record.payload {
                Some(p) => p == proposal.admission && same_set(&record.deps, &proposal.deps),
                None => false,
            },
        };
        if !matches {
            return out;
        }
        let ballot = self.config.quorum.ballot();
        let message = ProtocolMessage::SlowAck(
            SlowAck {
                replica: self.config.identity.replica,
                ballot,
                command: proposal.command,
                admission: proposal.admission,
            },
        );
        let frame = message.encode();
        let none: Vec<BarrierId> = Vec::new();
        publish(
            &mut out,
            self.ballots.context(boot, ballot),
            &none,
            voter_address(leader),
            &frame,
        );
        proof {
            assert(none@ =~= Seq::<BarrierId>::empty());
            assert(views(out@) =~= self@.decided_answer(proposal@, leader));
        }
        out
    }

    /// Record the leader's order of a command into the path logs, with a
    /// placeholder where the payload has not arrived. Whether there was no
    /// room for one, and no more may be held, is returned.
    fn record_order<H: Fn(HashDomain, Vec<Vec<u8>>) -> Digest32>(
        &mut self,
        hash: &H,
        proposal: &FastAck,
    ) -> (r: bool)
        requires
            is_hash(*hash),
        ensures
            final(self)@ == old(self)@.with_order(*hash, proposal@),
            r == old(self)@.held_full(*hash, proposal@),
    {
        let command = proposal.command;
        let seqnum: u64 = match proposal.seqnum {
            Some(n) => n,
            None => 0,
        };
        self.table.record_leader_path(hash, command, seqnum, &proposal.paths);
        let ghost logged = self.table@;
        let mut full = false;
        if self.table.phase_of(&command).is_none() {
            if self.table.expect(hash, command).is_err() {
                proof {
                    assert(self@ =~= (FollowerView {
                        table: logged.expected(*hash, command),
                        ..old(self)@
                    }));
                }
                self.reject(FollowerRejection::Backpressure);
                full = self.held.len() >= multiple(self.config.capacity, HELD_PROPOSAL_SLACK);
            }
        }
        proof {
            assert(self@ =~= old(self)@.with_order(*hash, proposal@));
        }
        full
    }

    /// Hold a proposal until it may be adopted, as the leader's evidence.
    fn hold(&mut self, proposal: FastAck)
        ensures
            final(self)@ == old(self)@.holding(proposal@),
    {
        let command = proposal.command;
        let ghost p = proposal@;
        let ghost start = self@;
        let vote = Vote::Fast(proposal.dup());
        let mut counted = true;
        let mut set = match self.votes.remove(&command) {
            Some(set) => set,
            None => {
                counted = false;
                VoteSet::new(self.config.quorum.dup(), command)
            },
        };
        let added = set.add(vote);
        self.votes.insert(command, set);
        proof {
            assert(self@.votes =~= start.votes.insert(
                command,
                (if start.votes.contains_key(command) {
                    start.votes[command]
                } else {
                    VoteSetView::empty(start.config.quorum, command)
                }).presented(VoteView::Fast(p)),
            ));
        }
        if counted {
            if let Err(e) = added {
                self.reject(FollowerRejection::Vote(e));
            }
        }
        self.held.insert(command, HeldProposal { proposal });
        proof {
            assert(self@ =~= start.holding(p));
        }
    }

    /// A leader's proposal: a duplicate of one acknowledged is answered
    /// again, one for a command decided here from its durable record, and
    /// anything else is recorded, held and adopted when its turn comes.
    #[verifier::rlimit(40)]
    fn on_proposal<H: Fn(HashDomain, Vec<Vec<u8>>) -> Digest32>(
        &mut self,
        hash: &H,
        from: ReplicaId,
        proposal: FastAck,
    ) -> (r: Vec<Effect>)
        requires
            is_hash(*hash),
        ensures
            (final(self)@, views(r@)) == old(self)@.proposal_received(*hash, from, proposal@),
    {
        let ghost start = self@;
        if let Some(transition) = self.ballots.seal_held() {
            self.reject(FollowerRejection::Sealed { transition });
            return no_effects();
        }
        if !self.may_vote() {
            let promised = self.ballots.promised();
            self.reject(FollowerRejection::FencedByPromise { promised });
            return no_effects();
        }
        if from != self.config.quorum.leader() || proposal.replica != from || proposal.ballot
            != self.config.quorum.ballot() || proposal.seqnum.is_none() {
            self.reject(FollowerRejection::ForeignProposal);
            return no_effects();
        }
        let command = proposal.command;
        if self.held.contains_key(&command) {
            // Duplicate proposal of one still held: nothing acknowledged yet.
            return no_effects();
        }
        if self.adopted.contains_key(&command) {
            // The leader sends a proposal again only when it has no vote
            // from this replica for it. An acknowledgement that was lost on
            // the way is published to the leader again, as it was published
            // the first time.
            let sends = self.replay.acknowledged(
                &command,
                self.config.quorum.ballot(),
                voter_address(from),
            );
            if sends.len() > 0 {
                let mut out = no_effects();
                if self.boot.is_some() {
                    publish_sends(&mut out, sends);
                    proof {
                        assert(views(out@) =~= start.acks_kept(command, from));
                    }
                }
                return out;
            }
            if has_reached(self.table.phase_of(&command), Phase::Commit) {
                return self.acknowledge_decided(&proposal, from);
            }
            let _ = self.adopted.remove(&command);
        }
        let ghost open = FollowerView { adopted: start.adopted.remove(command), ..start };
        proof {
            assert(self@ =~= open);
        }
        if self.table.forgotten(&command) {
            // Executed here and retired: there is no record to adopt the
            // order into and nothing left to decide.
            return self.acknowledge_decided(&proposal, from);
        }
        let conflict = match self.table.record(&command) {
            Some(record) => match record.payload {
                Some(accepted) => if accepted != proposal.admission {
                    Some(accepted)
                } else {
                    None
                },
                None => None,
            },
            None => None,
        };
        if let Some(accepted) = conflict {
            self.reject(FollowerRejection::AdmissionConflict { command, accepted });
            return no_effects();
        }
        let full = self.record_order(hash, &proposal);
        if !full {
            self.hold(proposal);
        }
        self.advance_pending(hash)
    }

    fn collect(&mut self, from: ReplicaId, vote: Vote)
        ensures
            final(self)@ == old(self)@.collected(from, vote@),
    {
        if vote.replica() != from {
            self.reject(FollowerRejection::Vote(VoteError::NotAVoter));
            return;
        }
        let ghost start = self@;
        let ghost v = vote@;
        let command = vote.command();
        let mut set = match self.votes.remove(&command) {
            Some(set) => set,
            None => VoteSet::new(self.config.quorum.dup(), command),
        };
        let added = set.add(vote);
        self.votes.insert(command, set);
        proof {
            assert(self@.votes =~= start.votes.insert(
                command,
                (if start.votes.contains_key(command) {
                    start.votes[command]
                } else {
                    VoteSetView::empty(start.config.quorum, command)
                }).presented(v),
            ));
            assert(self@ =~= (FollowerView { votes: self@.votes, ..start }));
        }
        if let Err(e) = added {
            self.reject(FollowerRejection::Vote(e));
        }
        self.learn();
    }

    /// Replay the messages held for the ballot just synchronized.
    #[verifier::rlimit(40)]
    fn replay_awaiting<H: Fn(HashDomain, Vec<Vec<u8>>) -> Digest32>(&mut self, hash: &H) -> (r: Vec<
        Effect,
    >)
        requires
            is_hash(*hash),
        ensures
            (final(self)@, views(r@)) == (FollowerView {
                awaiting_sync: Seq::empty(),
                ..old(self)@
            }).replayed(*hash, old(self)@.awaiting_sync),
    {
        let mut held: Vec<(ReplicaId, ProtocolMessage)> = Vec::new();
        std::mem::swap(&mut held, &mut self.awaiting_sync);
        let ghost given = held@;
        let ghost shown = views(given);
        let ghost start = self@;
        let ghost n = given.len();
        proof {
            assert(start =~= (FollowerView { awaiting_sync: Seq::empty(), ..old(self)@ }));
        }
        let mut back: Vec<(ReplicaId, ProtocolMessage)> = Vec::new();
        while held.len() > 0
            invariant
                back@.len() + held@.len() == n,
                given.len() == n,
                held@ == given.take(held@.len() as int),
                forall|j: int| 0 <= j < back@.len() ==> #[trigger] back@[j] == given[n - 1 - j],
            decreases held@.len(),
        {
            match held.pop() {
                Some(x) => {
                    back.push(x);
                },
                None => {},
            }
        }
        let mut effects = no_effects();
        let ghost mut i: int = 0;
        proof {
            assert(shown.take(0) =~= Seq::<(ReplicaId, MessageView)>::empty());
        }
        while back.len() > 0
            invariant
                is_hash(*hash),
                0 <= i <= n,
                back@.len() == n - i,
                given.len() == n,
                shown == views(given),
                forall|j: int| 0 <= j < back@.len() ==> #[trigger] back@[j] == given[n - 1 - j],
                (self@, views(effects@)) == start.replayed(*hash, shown.take(i)),
            decreases back@.len(),
        {
            let ghost last = back@.len() - 1;
            let ghost said = views(effects@);
            match back.pop() {
                Some(x) => {
                    proof {
                        assert(x == given[n - 1 - last]);
                        assert(shown.take(i + 1).drop_last() =~= shown.take(i));
                        assert(shown.take(i + 1).last() == x@);
                        assert(said + Seq::<EffectView>::empty() =~= said);
                    }
                    let (from, message) = x;
                    match message {
                        ProtocolMessage::Proposal(p) => {
                            let more = self.on_proposal(hash, from, p);
                            emit_all(&mut effects, more);
                        },
                        ProtocolMessage::FastAck(a) => {
                            self.collect(from, Vote::Fast(a));
                        },
                        ProtocolMessage::SlowAck(a) => {
                            self.collect(from, Vote::Slow(a));
                        },
                        _ => {},
                    }
                    proof {
                        i = i + 1;
                    }
                },
                None => {},
            }
        }
        proof {
            assert(shown.take(n as int) =~= shown);
        }
        effects
    }

    /// Activate `decision`'s ballot: its fast set, its entries, and the
    /// messages held while the cut was open. Called only once the
    /// synchronized-ballot row is durable. The replica that selected this
    /// Sync leads the new ballot from here.
    fn activate<H: Fn(HashDomain, Vec<Vec<u8>>) -> Digest32>(
        &mut self,
        hash: &H,
        decision: SyncDecision,
    ) -> (r: Vec<Effect>)
        requires
            is_hash(*hash),
        ensures
            (final(self)@, views(r@)) == old(self)@.activated(*hash, decision@),
    {
        let ghost before = self@;
        let ghost d = decision@;
        if decision.ballot.leader == self.config.identity.replica && self.campaign.is_some() {
            self.won = Some(decision.dup());
        }
        if let Ok(quorum) = BallotConfiguration::c2_default(
            self.config.identity.epoch,
            decision.ballot,
            self.config.identity.voters.dup(),
        ) {
            self.config.quorum = quorum;
        }
        self.votes = OrdMap::new();
        self.held = OrdMap::new();
        self.adopted = OrdMap::new();
        let ghost start = self@;
        proof {
            assert(start =~= before.switched(d));
        }
        let ghost order = in_order::<CommandId>(d.entries.dom());
        let n: usize = decision.entries.len();
        let mut i: usize = 0;
        proof {
            lemma_in_order::<CommandId>(d.entries.dom());
            assert(order.take(0) =~= Seq::<CommandId>::empty());
        }
        while i < n
            invariant
                is_hash(*hash),
                i <= n == d.entries.dom().len(),
                d == decision@,
                order == in_order::<CommandId>(d.entries.dom()),
                order.len() == n,
                self@ == start.queued(*hash, d.entries, order.take(i as int)),
            decreases n - i,
        {
            let c = *decision.entries.key_at(i);
            let e = decision.entries.value_at(i).dup();
            proof {
                assert(order.take(i + 1).drop_last() =~= order.take(i as int));
                assert(order.take(i + 1).last() == c);
            }
            if self.table.phase_of(&c).is_none() {
                let _ = self.table.expect(hash, c);
            }
            self.sync_pending.insert(c, e);
            proof {
                assert(self@ =~= start.queued(*hash, d.entries, order.take(i + 1)));
            }
            i = i + 1;
        }
        proof {
            assert(order.take(n as int) =~= order);
        }
        let mut effects = self.advance_sync(hash);
        let more = self.replay_awaiting(hash);
        emit_all(&mut effects, more);
        effects
    }

    /// Adopt a Sync: only for the ballot this replica promised and from its
    /// leader. The synchronized ballot and the selection go down in one
    /// batch before anything of the new ballot happens; once the row is
    /// durable the entries are installed, the ballot's fast set is activated
    /// and ballot-scoped votes reset. A Sync ahead of this replica's promise
    /// is kept, not refused.
    pub fn on_sync<H: Fn(HashDomain, Vec<Vec<u8>>) -> Digest32>(
        &mut self,
        hash: &H,
        from: ReplicaId,
        decision: SyncDecision,
    ) -> (r: Vec<Effect>)
        requires
            is_hash(*hash),
        ensures
            (final(self)@, views(r@)) == old(self)@.sync_received(*hash, from, decision@),
    {
        let ghost start = self@;
        let ghost d = decision@;
        let promised = self.ballots.promised();
        if from == decision.ballot.leader && decision.ballot.supersedes(&promised) {
            let higher = match &self.early_sync {
                Some(kept) => decision.ballot.supersedes(&kept.1.ballot),
                None => true,
            };
            if higher {
                self.early_sync = Some((from, decision));
                proof {
                    assert(self@ =~= (FollowerView { early_sync: Some((from, d)), ..start }));
                }
            }
            return no_effects();
        }
        if decision.ballot != promised || from != decision.ballot.leader {
            self.reject(FollowerRejection::SyncRejected { ballot: decision.ballot, promised });
            return no_effects();
        }
        if self.ballots.synced() == decision.ballot {
            if self.config.quorum.ballot() == decision.ballot {
                // Duplicate Sync of the active ballot: converges without
                // change.
                return no_effects();
            }
            return self.activate(hash, decision);
        }
        if let Some(e) = self.ballots.sync_rejection(decision.ballot) {
            self.reject(FollowerRejection::SyncRegression(e));
            return no_effects();
        }
        if self.boot.is_none() {
            return no_effects();
        }
        let record = match self.ballots.mark_synced(decision.ballot) {
            Ok(r) => r,
            Err(e) => {
                proof {
                    assert(self@ =~= start);
                }
                self.reject(FollowerRejection::SyncRegression(e));
                return no_effects();
            },
        };
        let epoch = self.config.identity.epoch;
        let barrier = self.allocate();
        let kept = SyncRecordV1 { decision };
        let batch = two_rows(barrier, sync_update(epoch, &kept), promise_update(epoch, &record));
        self.sync_barrier = Some((barrier, kept.decision));
        let mut out = no_effects();
        emit(&mut out, Effect::Persist(batch));
        proof {
            let turn = start.sync_received(*hash, from, d);
            assert(self@ =~= turn.0);
            assert(views(out@) =~= turn.1);
        }
        out
    }
}

/// The commands of a list the table holds nothing for, in order.
fn unknown_of(table: &CommandTable, commands: &Vec<CommandId>) -> (r: Vec<CommandId>)
    ensures
        r@ == in_order::<CommandId>(unknown_among(table@, commands@.to_set())),
{
    let ghost goal = unknown_among(table@, commands@.to_set());
    let mut out: OrdSet<CommandId> = OrdSet::new();
    let mut i: usize = 0;
    proof {
        assert(out@ =~= goal.intersect(commands@.take(0).to_set()));
    }
    while i < commands.len()
        invariant
            i <= commands@.len(),
            goal == unknown_among(table@, commands@.to_set()),
            out@ == goal.intersect(commands@.take(i as int).to_set()),
        decreases commands@.len() - i,
    {
        let c = commands[i];
        if table.phase_of(&c).is_none() {
            out.insert(c);
        }
        proof {
            assert(commands@.contains(c));
            lemma_take_set(commands@, i as int);
            assert(out@ =~= goal.intersect(commands@.take(i + 1).to_set()));
        }
        i = i + 1;
    }
    proof {
        assert(commands@.take(commands@.len() as int) =~= commands@);
        assert(out@ =~= goal);
    }
    let r = out.to_vec();
    proof {
        lemma_id_views(r@);
    }
    r
}

/// The commands a selection names that this replica holds nothing for: what
/// it needs before the selection can be bound.
fn find_missing(table: &CommandTable, decision: &SyncDecision) -> (r: Vec<CommandId>)
    ensures
        r@ == selection_missing(table@, decision@),
{
    let entries = decision.entries.keys();
    let reproposed = decision.reproposed.to_vec();
    proof {
        lemma_id_views(entries@);
        lemma_id_views(reproposed@);
        lemma_in_order::<CommandId>(decision@.entries.dom());
        lemma_in_order::<CommandId>(decision@.reproposed);
    }
    let mut out = unknown_of(table, &entries);
    let mut more = unknown_of(table, &reproposed);
    out.append(&mut more);
    out
}

fn gap_among(table: &CommandTable, decision: &SyncDecision, deps: &Vec<CommandId>) -> (r: Option<
    CommandId,
>)
    ensures
        r == gap_in(table@, decision@, deps@),
{
    let mut found: Option<CommandId> = None;
    let mut i: usize = 0;
    proof {
        assert(deps@.take(0) =~= Seq::<CommandId>::empty());
    }
    while i < deps.len()
        invariant
            i <= deps@.len(),
            found == gap_in(table@, decision@, deps@.take(i as int)),
        decreases deps@.len() - i,
    {
        let d = deps[i];
        proof {
            assert(deps@.take(i + 1).drop_last() =~= deps@.take(i as int));
            assert(deps@.take(i + 1).last() == d);
        }
        if found.is_none() && !decision.entries.contains_key(&d) && !decision.reproposed.contains(
            &d,
        ) && !has_reached(table.phase_of(&d), Phase::Commit) {
            found = Some(d);
        }
        i = i + 1;
    }
    proof {
        assert(deps@.take(deps@.len() as int) =~= deps@);
    }
    found
}

/// A dependency of a selected entry that the selection does not carry and
/// this replica has not committed.
///
/// A reporter that adopted an entry held its dependencies at ACCEPT or
/// beyond, so a dependency no majority report names is one every such
/// reporter executed and forgot. A replica without it committed cannot get
/// it from this selection, and cannot execute past it.
fn find_gap(table: &CommandTable, decision: &SyncDecision) -> (r: Option<CommandId>)
    ensures
        r == selection_gap(table@, decision@),
{
    let n: usize = decision.entries.len();
    let ghost order = in_order::<CommandId>(decision@.entries.dom());
    let mut found: Option<CommandId> = None;
    let mut i: usize = 0;
    proof {
        lemma_in_order::<CommandId>(decision@.entries.dom());
        assert(order.take(0) =~= Seq::<CommandId>::empty());
    }
    while i < n
        invariant
            i <= n == decision@.entries.dom().len(),
            order == in_order::<CommandId>(decision@.entries.dom()),
            order.len() == n,
            found == gap_over(table@, decision@, order.take(i as int)),
        decreases n - i,
    {
        proof {
            assert(order.take(i + 1).drop_last() =~= order.take(i as int));
            assert(order.take(i + 1).last() == order[i as int]);
        }
        if found.is_none() {
            let e = decision.entries.value_at(i);
            found = gap_among(table, decision, &e.deps);
        }
        i = i + 1;
    }
    proof {
        assert(order.take(n as int) =~= order);
    }
    found
}

impl Follower {
    /// What this replica's own campaign is waiting for before it can bind
    /// its selection. Counted as missing like any other payload, so an ask
    /// its peers could not answer yet is asked again.
    fn campaign_missing(&self) -> (r: Vec<CommandId>)
        ensures
            r@ == self@.campaign_missing(),
    {
        match &self.campaign {
            Some(c) => {
                if c.binding().is_none() && !c.is_durable() {
                    match c.decision() {
                        Some(d) => find_missing(&self.table, d),
                        None => Vec::new(),
                    }
                } else {
                    Vec::new()
                }
            },
            None => Vec::new(),
        }
    }

    /// Commands known by identity (a held proposal, a Sync entry, an adopted
    /// order, a selection waiting to be bound) without a payload.
    pub fn missing_payloads(&self) -> (r: Vec<CommandId>)
        ensures
            r@ == self@.missing(),
    {
        let mut named: OrdSet<CommandId> = set_of(&self.held.keys());
        named.extend(&set_of(&self.sync_pending.keys()));
        named.extend(&set_of(&self.adopted.keys()));
        proof {
            lemma_in_order::<CommandId>(self@.held.dom());
            lemma_in_order::<CommandId>(self@.sync_pending.dom());
            lemma_in_order::<CommandId>(self@.adopted.dom());
        }
        named.remove_keys(&self.payloads);
        let wanted = self.campaign_missing();
        named.extend(&set_of(&wanted));
        let r = named.to_vec();
        proof {
            lemma_id_views(wanted@);
            lemma_id_views(r@);
        }
        r
    }

    /// The next bounded batch of missing payloads to ask for.
    ///
    /// Bounded because the ask repeats on a timer and the answer travels on
    /// a shared, bounded lane; rotating because a bound that always took the
    /// same prefix would leave the rest of the set unasked for ever.
    fn next_batch(&mut self, missing: Vec<CommandId>) -> (r: Vec<CommandId>)
        ensures
            ({
                let (commands, cursor) = payload_batch(missing@, old(self)@.payload_cursor);
                &&& r@ == commands
                &&& final(self)@ == (FollowerView { payload_cursor: cursor, ..old(self)@ })
            }),
    {
        let n: usize = missing.len();
        if n <= MAX_PAYLOAD_TRANSFER {
            return missing;
        }
        let start: usize = self.payload_cursor % n;
        self.payload_cursor = if start > usize::MAX - MAX_PAYLOAD_TRANSFER {
            start - (usize::MAX - MAX_PAYLOAD_TRANSFER) - 1
        } else {
            start + MAX_PAYLOAD_TRANSFER
        };
        let ghost rotated = missing@.skip(start as int) + missing@.take(start as int);
        let mut out: Vec<CommandId> = Vec::new();
        let mut k: usize = 0;
        while k < MAX_PAYLOAD_TRANSFER
            invariant
                k <= MAX_PAYLOAD_TRANSFER,
                n == missing@.len(),
                n > MAX_PAYLOAD_TRANSFER,
                start < n,
                rotated == missing@.skip(start as int) + missing@.take(start as int),
                out@ == rotated.take(k as int),
            decreases MAX_PAYLOAD_TRANSFER - k,
        {
            let at: usize = if k < n - start {
                start + k
            } else {
                k - (n - start)
            };
            proof {
                assert(rotated[k as int] == missing@[at as int]);
                assert(rotated.take(k + 1) =~= rotated.take(k as int).push(rotated[k as int]));
            }
            out.push(missing[at]);
            k = k + 1;
        }
        out
    }

    fn ask(&self, boot: BootId, to: &Vec<ReplicaId>, frame: &Vec<u8>) -> (r: Vec<Effect>)
        requires
            self@.boot is Some,
            self@.boot->0.id == boot,
        ensures
            views(r@) == asked_of(self@, self@.boot->0, to@, frame@),
    {
        let context = self.ballots.context(boot, self.ballots.promised());
        let none: Vec<BarrierId> = Vec::new();
        let mut out = no_effects();
        let mut i: usize = 0;
        proof {
            assert(none@ =~= Seq::<BarrierId>::empty());
            assert(to@.take(0) =~= Seq::<ReplicaId>::empty());
        }
        while i < to.len()
            invariant
                i <= to@.len(),
                none@ == Seq::<BarrierId>::empty(),
                context == self@.ballots.context(self@.boot->0.id, self@.ballots.promised),
                views(out@) == asked_of(self@, self@.boot->0, to@.take(i as int), frame@),
            decreases to@.len() - i,
        {
            proof {
                assert(to@.take(i + 1).drop_last() =~= to@.take(i as int));
                assert(to@.take(i + 1).last() == to@[i as int]);
            }
            publish(&mut out, context, &none, voter_address(to[i]), frame);
            i = i + 1;
        }
        proof {
            assert(to@.take(to@.len() as int) =~= to@);
        }
        out
    }

    /// Ask `from` for the payloads this replica lacks; the request has no
    /// durable prerequisite and is released at once. It is published under
    /// the promised ballot, so a promise for a higher ballot never fences
    /// it.
    ///
    /// A candidate whose selection is waiting for payloads asks for those,
    /// and asks the voters that promised it instead of `from`: they reported
    /// the commands, so they hold them durably.
    #[verifier::rlimit(40)]
    pub fn request_payloads(&mut self, from: ReplicaId) -> (r: Vec<Effect>)
        ensures
            (final(self)@, views(r@)) == old(self)@.payloads_requested(from),
    {
        let ghost start = self@;
        let boot = match &self.boot {
            Some(b) => b.id,
            None => {
                return no_effects();
            },
        };
        let me = self.config.identity.replica;
        let wanted = self.campaign_missing();
        let mut sources: Vec<ReplicaId> = Vec::new();
        let taken = self.campaign.take();
        match taken {
            Some(mut c) => {
                if wanted.len() > 0 {
                    let mut voters = c.promised().dup();
                    voters.remove(&me);
                    sources = voters.to_vec();
                    proof {
                        assert(views(sources@) =~= sources@);
                    }
                    c.mark_payloads_requested(&sources);
                } else {
                    sources.push(from);
                }
                self.campaign = Some(c);
            },
            None => {
                sources.push(from);
            },
        }
        proof {
            if wanted@.len() == 0 {
                assert(self@ =~= start);
            }
        }
        let missing = if wanted.len() == 0 {
            self.missing_payloads()
        } else {
            wanted
        };
        let commands = self.next_batch(missing);
        proof {
            let turn = start.payloads_requested(from);
            let campaigning = start.campaign is Some && wanted@.len() > 0;
            if !campaigning {
                assert(sources@ =~= seq![from]);
            }
            assert(self@.campaign == turn.0.campaign);
            assert(self@.payload_cursor == turn.0.payload_cursor);
        }
        if commands.len() == 0 || sources.len() == 0 {
            proof {
                assert(self@ =~= start.payloads_requested(from).0);
            }
            return no_effects();
        }
        self.payloads_asked = set_of(&commands);
        proof {
            lemma_id_views(commands@);
        }
        let message = ProtocolMessage::PayloadRequest { commands };
        let frame = message.encode();
        let r = self.ask(boot, &sources, &frame);
        proof {
            let turn = start.payloads_requested(from);
            assert(self@ =~= turn.0);
            lemma_asked_of(self@, start, start.boot->0, sources@, frame@);
        }
        r
    }

    /// Serve durable payloads to a peer; an undurable payload is not served
    /// (it is not yet a fact). A peer cannot make this replica flood its own
    /// lane by asking for more than the bound.
    fn serve_payloads(&self, to: ReplicaId, commands: &Vec<CommandId>) -> (r: Vec<Effect>)
        ensures
            views(r@) == (match self@.boot {
                None => Seq::empty(),
                Some(boot) => payloads_served(self@, boot, to, commands@),
            }),
    {
        let mut out = no_effects();
        let boot = match &self.boot {
            Some(b) => b.id,
            None => {
                return out;
            },
        };
        let ghost at = self@.boot->0;
        let context = self.ballots.context(boot, self.ballots.promised());
        let none: Vec<BarrierId> = Vec::new();
        let mut i: usize = 0;
        proof {
            assert(none@ =~= Seq::<BarrierId>::empty());
            assert(commands@.take(0) =~= Seq::<CommandId>::empty());
        }
        while i < commands.len()
            invariant
                i <= commands@.len(),
                self@.boot == Some(at),
                none@ == Seq::<BarrierId>::empty(),
                context == self@.ballots.context(at.id, self@.ballots.promised),
                views(out@) == payloads_served(self@, at, to, commands@.take(i as int)),
            decreases commands@.len() - i,
        {
            let c = commands[i];
            proof {
                assert(commands@.take(i + 1).drop_last() =~= commands@.take(i as int));
                assert(commands@.take(i + 1).last() == c);
            }
            if out.len() < MAX_PAYLOAD_TRANSFER && self.served_payloads.contains(&c) {
                if let Some(p) = self.payloads.get(&c) {
                    let message = ProtocolMessage::PayloadResponse { command: c, payload: p.dup() };
                    let frame = message.encode();
                    publish(&mut out, context, &none, voter_address(to), &frame);
                }
            }
            i = i + 1;
        }
        proof {
            assert(commands@.take(commands@.len() as int) =~= commands@);
        }
        out
    }
}

proof fn lemma_asked_of(
    a: FollowerView,
    b: FollowerView,
    boot: BootView,
    to: Seq<ReplicaId>,
    frame: Seq<u8>,
)
    requires
        a.ballots == b.ballots,
    ensures
        asked_of(a, boot, to, frame) == asked_of(b, boot, to, frame),
    decreases to.len(),
{
    if to.len() > 0 {
        lemma_asked_of(a, b, boot, to.drop_last(), frame);
    }
}

/// The keys of per-key path digests.
fn anchor_keys(paths: &crate::graph::PathAnchors) -> (r: Vec<Vec<u8>>)
    ensures
        views(r@) == views(paths@).map_values(|a: (Seq<u8>, Digest32)| a.0),
{
    let ghost goal = views(paths@).map_values(|a: (Seq<u8>, Digest32)| a.0);
    let mut out: Vec<Vec<u8>> = Vec::new();
    let mut i: usize = 0;
    proof {
        assert(views(out@) =~= goal.take(0));
    }
    while i < paths.len()
        invariant
            i <= paths@.len(),
            goal == views(paths@).map_values(|a: (Seq<u8>, Digest32)| a.0),
            views(out@) == goal.take(i as int),
        decreases paths@.len() - i,
    {
        let key = copy_bytes(&paths[i].0);
        proof {
            assert(views(paths@)[i as int] == paths@[i as int]@);
            assert(goal.take(i + 1) =~= goal.take(i as int).push(goal[i as int]));
            lemma_views_push(out@, key);
        }
        out.push(key);
        i = i + 1;
    }
    proof {
        assert(goal.take(goal.len() as int) =~= goal);
    }
    out
}

impl Follower {
    /// The barriers the report cut must wait for.
    ///
    /// The Sync persistence barrier belongs in it: the report states the
    /// synchronized ballot, which that batch is what makes durable.
    fn outstanding_for_cut(&self) -> (r: Vec<BarrierId>)
        ensures
            r@ == self@.cut(),
    {
        let mut open = self.pending.keys();
        proof {
            lemma_barrier_views(open@);
        }
        if let Some(p) = &self.sync_barrier {
            open.push(p.0);
        }
        open
    }

    /// The commands this replica reports.
    #[verifier::rlimit(40)]
    fn reported(&self) -> (r: OrdSet<CommandId>)
        ensures
            r@ == self@.reported(),
            r@.finite(),
    {
        let mut out: OrdSet<CommandId> = OrdSet::new();
        let commands = self.ledger.records();
        let recorded: usize = self.ledger.len();
        let ghost known = in_order::<CommandId>(self@.ledger.records.dom());
        let ghost goal = self@.ledger.reported().intersect(live(self@.table));
        let mut i: usize = 0;
        proof {
            lemma_in_order::<CommandId>(self@.ledger.records.dom());
            assert(out@ =~= goal.intersect(known.take(0).to_set()));
        }
        while i < commands.len()
            invariant
                i <= commands@.len(),
                commands@ == known,
                known == in_order::<CommandId>(self@.ledger.records.dom()),
                goal == self@.ledger.reported().intersect(live(self@.table)),
                out@ == goal.intersect(known.take(i as int).to_set()),
            decreases commands@.len() - i,
        {
            let c = commands[i];
            let present = match self.ledger.record(&c) {
                Some(record) => record.payload.is_some(),
                None => false,
            };
            if present && !self.table.forgotten(&c) {
                out.insert(c);
            }
            proof {
                lemma_take_set(known, i as int);
                assert(out@ =~= goal.intersect(known.take(i + 1).to_set()));
            }
            i = i + 1;
        }
        proof {
            assert(known.take(known.len() as int) =~= known);
            assert(out@ =~= goal) by {
                assert forall|c: CommandId| goal.contains(c) implies known.to_set().contains(c) by {
                    assert(known.contains(c));
                }
            }
        }
        let waiting = self.sync_pending.keys();
        let ghost order = in_order::<CommandId>(self@.sync_pending.dom());
        let ghost more = self@.sync_pending.dom().intersect(live(self@.table));
        let mut k: usize = 0;
        proof {
            lemma_id_views(waiting@);
            lemma_in_order::<CommandId>(self@.sync_pending.dom());
            assert(out@ =~= goal.union(more.intersect(order.take(0).to_set())));
        }
        while k < waiting.len()
            invariant
                k <= waiting@.len(),
                waiting@ == order,
                order == in_order::<CommandId>(self@.sync_pending.dom()),
                forall|c: CommandId| #[trigger]
                    order.contains(c) <==> self@.sync_pending.dom().contains(c),
                more == self@.sync_pending.dom().intersect(live(self@.table)),
                out@ == goal.union(more.intersect(order.take(k as int).to_set())),
            decreases waiting@.len() - k,
        {
            let c = waiting[k];
            proof {
                assert(order.contains(order[k as int]));
                lemma_take_set(order, k as int);
            }
            if !self.table.forgotten(&c) {
                out.insert(c);
            }
            proof {
                assert(out@ =~= goal.union(more.intersect(order.take(k + 1).to_set())));
            }
            k = k + 1;
        }
        let size: usize = out.len();
        proof {
            assert(order.take(order.len() as int) =~= order);
            assert(out@ =~= self@.reported()) by {
                assert forall|c: CommandId| more.contains(c) implies order.to_set().contains(c) by {
                    assert(order.contains(c));
                }
            }
        }
        out
    }

    /// The entry of a command in the report. A Sync this replica accepted
    /// durably but has not finished installing is reported for what it is:
    /// selected, with its order, payload still outstanding.
    fn report_entry(&self, command: CommandId) -> (r: Option<ReportEntry>)
        requires
            self@.reported().contains(command),
        ensures
            r is Some,
            r->0@ == self@.report_entry(command),
    {
        let mut entry: Option<ReportEntry> = None;
        if let Some(record) = self.ledger.record(&command) {
            if record.payload.is_some() {
                let seqnum: u64 = match record.synced_seq {
                    Some(s) => s,
                    None => 0,
                };
                entry = Some(
                    ReportEntry {
                        command,
                        phase: record.phase,
                        deps: copy_list(&record.deps),
                        path: record.path,
                        paths: dup_all(&record.paths),
                        seqnum,
                        keys: dup_all(&record.keys),
                        payload_present: true,
                    },
                );
            }
        }
        let mut entry = match entry {
            Some(e) => e,
            None => match self.sync_pending.get(&command) {
                Some(p) => ReportEntry {
                    command,
                    phase: p.phase,
                    deps: copy_list(&p.deps),
                    path: p.path,
                    paths: dup_all(&p.paths),
                    seqnum: p.seqnum,
                    keys: anchor_keys(&p.paths),
                    payload_present: false,
                },
                None => {
                    return None;
                },
            },
        };
        if !entry.phase.at_least(Phase::Commit) && has_reached(
            self.table.phase_of(&command),
            Phase::Executed,
        ) {
            entry.phase = Phase::Commit;
        }
        Some(entry)
    }

    /// This replica's recovery report for `ballot`: its durable ledger, plus
    /// any Sync selection it accepted durably and has not finished
    /// installing. History is left out: a command this replica executed and
    /// keeps nothing else about.
    pub fn report(&self, ballot: Ballot) -> (r: RecoveryReport)
        ensures
            r@ == self@.report(ballot),
    {
        let commands = self.reported().to_vec();
        let ghost order = in_order::<CommandId>(self@.reported());
        let ghost goal = self@.report(ballot).entries;
        let mut entries: Vec<ReportEntry> = Vec::new();
        let mut i: usize = 0;
        proof {
            lemma_id_views(commands@);
            assert(views(entries@) =~= goal.take(0));
        }
        while i < commands.len()
            invariant
                i <= commands@.len(),
                commands@ == order,
                order == in_order::<CommandId>(self@.reported()),
                goal == order.map_values(|c: CommandId| self@.report_entry(c)),
                forall|j: int|
                    0 <= j < commands@.len() ==> self@.reported().contains(
                        (#[trigger] commands@[j])@,
                    ),
                views(entries@) == goal.take(i as int),
            decreases commands@.len() - i,
        {
            let c = commands[i];
            proof {
                assert(self@.reported().contains(commands@[i as int]@));
            }
            if let Some(entry) = self.report_entry(c) {
                proof {
                    assert(goal.take(i + 1) =~= goal.take(i as int).push(goal[i as int]));
                    lemma_views_push(entries@, entry);
                }
                entries.push(entry);
            }
            i = i + 1;
        }
        let r = RecoveryReport {
            replica: self.config.identity.replica,
            ballot,
            committed_ballot: self.ballots.synced(),
            entries,
        };
        proof {
            assert(goal.take(goal.len() as int) =~= goal);
            assert(r@ =~= self@.report(ballot));
        }
        r
    }

    /// Bind the selection of this replica's campaign durably, where this
    /// replica can lead from it.
    ///
    /// A candidate further behind than every reporter's window would win and
    /// then never execute again: the selection names what it lacks only as a
    /// dependency, and nothing it binds brings it. A selected command this
    /// replica never stored needs its payload before the result is bound;
    /// the reporting voters hold it durably, and are asked again when a
    /// voter promised that has not been asked yet, or when the last ask was
    /// answered in full.
    fn bind_selection(&mut self) -> (r: Vec<Effect>)
        requires
            old(self)@.boot is Some,
            old(self)@.campaign is Some,
            old(self)@.campaign->0.decision is Some,
        ensures
            (final(self)@, views(r@)) == old(self)@.bound_selection(),
    {
        let ghost start = self@;
        let me = self.config.identity.replica;
        let mut gap: Option<CommandId> = None;
        let mut lacking = false;
        let mut due = false;
        if let Some(c) = &self.campaign {
            due = c.payload_requests_due(me).len() > 0;
            if let Some(d) = c.decision() {
                gap = find_gap(&self.table, d);
                lacking = find_missing(&self.table, d).len() > 0;
            }
        }
        if let Some(missing) = gap {
            self.behind = Some(missing);
            self.campaign = None;
            proof {
                assert(self@ =~= (FollowerView { behind: Some(missing), campaign: None, ..start }));
            }
            self.reject(FollowerRejection::Behind { missing });
            return no_effects();
        }
        if lacking {
            if !due && !self.payloads_asked.is_empty() {
                return no_effects();
            }
            return self.request_payloads(me);
        }
        let epoch = self.config.identity.epoch;
        let barrier = self.allocate();
        let mut out = no_effects();
        let taken = self.campaign.take();
        if let Some(mut c) = taken {
            c.commit_executed(&self.table);
            c.bound(barrier);
            if let Some(d) = c.decision() {
                let row = sync_update(epoch, &SyncRecordV1 { decision: d.dup() });
                emit(&mut out, Effect::Persist(one_row(barrier, row)));
            }
            self.campaign = Some(c);
        }
        proof {
            let turn = start.bound_selection();
            assert(self@ =~= turn.0);
            assert(views(out@) =~= turn.1);
        }
        out
    }

    /// Publish the durably bound selection and install it here.
    fn publish_selection<H: Fn(HashDomain, Vec<Vec<u8>>) -> Digest32>(&mut self, hash: &H) -> (r:
        Vec<Effect>)
        requires
            is_hash(*hash),
            old(self)@.boot is Some,
            old(self)@.campaign is Some,
            old(self)@.campaign->0.decision is Some,
        ensures
            (final(self)@, views(r@)) == old(self)@.published_selection(*hash),
    {
        let ghost start = self@;
        let mut out = no_effects();
        let boot = match &self.boot {
            Some(b) => b.id,
            None => {
                return out;
            },
        };
        let decision = match &self.campaign {
            Some(c) => match c.decision() {
                Some(d) => d.dup(),
                None => {
                    return out;
                },
            },
            None => {
                return out;
            },
        };
        let taken = self.campaign.take();
        if let Some(mut c) = taken {
            c.mark_published();
            self.campaign = Some(c);
        }
        let ballot = decision.ballot;
        let context = self.ballots.context(boot, ballot);
        let none: Vec<BarrierId> = Vec::new();
        let message = ProtocolMessage::Sync(decision.dup());
        let frame = message.encode();
        broadcast(&mut out, context, &none, &self.config.identity, &frame);
        proof {
            assert(none@ =~= Seq::<BarrierId>::empty());
            assert(self@ =~= (FollowerView {
                campaign: Some(CampaignView { published: true, ..start.campaign->0 }),
                ..start
            }));
        }
        let more = self.on_sync(hash, ballot.leader, decision.dup());
        let ghost synced = self@;
        if self.ballots.synced() == ballot {
            // Becoming the leader is part of activating the ballot, which
            // waits for the synchronized row. A resumed campaign whose ballot
            // is already active takes the role here instead.
            if self.config.quorum.ballot() == ballot {
                self.won = Some(decision);
            }
        } else {
            // A higher ballot was promised while the row was becoming
            // durable: the bound Sync is void here and the campaign is lost.
            self.campaign = None;
        }
        emit_all(&mut out, more);
        proof {
            let turn = start.published_selection(*hash);
            assert(self@ =~= turn.0);
            assert(views(out@) =~= turn.1);
        }
        out
    }

    /// Select once a majority of complete reports is in, bind the result
    /// durably, then publish and activate it.
    fn advance_campaign<H: Fn(HashDomain, Vec<Vec<u8>>) -> Digest32>(&mut self, hash: &H) -> (r: Vec<
        Effect,
    >)
        requires
            is_hash(*hash),
        ensures
            (final(self)@, views(r@)) == old(self)@.campaign_advanced(*hash),
    {
        let ghost start = self@;
        if self.boot.is_none() {
            return no_effects();
        }
        let taken = self.campaign.take();
        let mut campaign = match taken {
            Some(c) => c,
            None => {
                proof {
                    assert(self@ =~= start);
                }
                return no_effects();
            },
        };
        let selected = campaign.try_select(hash);
        match selected {
            Err(e) => {
                proof {
                    assert(self@ =~= (FollowerView { campaign: None, ..start }));
                }
                self.reject(FollowerRejection::Campaign(e));
                return no_effects();
            },
            Ok(chosen) => {
                if !chosen {
                    self.campaign = Some(campaign);
                    proof {
                        assert(self@.campaign->0 =~= start.campaign->0);
                        assert(self@ =~= start);
                    }
                    return no_effects();
                }
            },
        }
        let unbound = campaign.binding().is_none() && !campaign.is_durable();
        let ready = campaign.is_durable() && !campaign.is_published();
        self.campaign = Some(campaign);
        proof {
            assert(self@ =~= (FollowerView {
                campaign: Some(start.campaign->0.after_selection(*hash)),
                ..start
            }));
        }
        if unbound {
            return self.bind_selection();
        }
        if ready {
            return self.publish_selection(hash);
        }
        no_effects()
    }

    /// Deliver a report once every batch before its cut is durable: pages to
    /// a candidate, or the own report to this replica's campaign.
    fn deliver_due_report<H: Fn(HashDomain, Vec<Vec<u8>>) -> Digest32>(&mut self, hash: &H) -> (r:
        Vec<Effect>)
        requires
            is_hash(*hash),
        ensures
            (final(self)@, views(r@)) == old(self)@.report_delivered(*hash),
    {
        let ghost start = self@;
        let due = match &self.report_due {
            Some(d) => d.dup(),
            None => {
                return no_effects();
            },
        };
        let context = match &self.boot {
            Some(boot) => {
                if !boot.settled.all_durable(&due.requires_durable) {
                    return no_effects();
                }
                self.ballots.context(boot.id, due.ballot)
            },
            None => {
                return no_effects();
            },
        };
        let report = self.report(due.ballot);
        self.report_due = None;
        let ghost cleared = FollowerView { report_due: None, ..start };
        proof {
            assert(self@ =~= cleared);
        }
        if due.to.replica == self.config.identity.replica {
            let taken = self.campaign.take();
            if let Some(mut c) = taken {
                if c.ballot() == due.ballot {
                    c.own_report(report);
                }
                self.campaign = Some(c);
            }
            proof {
                let told = if start.campaign is Some && start.campaign->0.config.ballot
                    == due.ballot {
                    FollowerView {
                        campaign: Some(start.campaign->0.with_own(start.report(due.ballot))),
                        ..cleared
                    }
                } else {
                    cleared
                };
                assert(self@ =~= told);
            }
            return self.advance_campaign(hash);
        }
        publish_report(hash, context, due.to, &report)
    }

    /// Start a campaign for `ballot` (this replica must be its leader):
    /// promise to itself durably, then ask every other voter.
    #[verifier::rlimit(40)]
    pub fn campaign(&mut self, ballot: Ballot) -> (r: Vec<Effect>)
        ensures
            (final(self)@, views(r@)) == old(self)@.campaigning(ballot),
    {
        let ghost start = self@;
        let boot_id = match &self.boot {
            Some(b) => b.id,
            None => {
                return no_effects();
            },
        };
        if ballot.leader != self.config.identity.replica {
            self.reject(FollowerRejection::CannotLead);
            return no_effects();
        }
        if let Some(missing) = self.behind {
            self.reject(FollowerRejection::Behind { missing });
            return no_effects();
        }
        let config = match BallotConfiguration::c2_default(
            self.config.identity.epoch,
            ballot,
            self.config.identity.voters.dup(),
        ) {
            Ok(c) => c,
            Err(_) => {
                self.reject(FollowerRejection::CannotLead);
                return no_effects();
            },
        };
        let outstanding = self.outstanding_for_cut();
        // A replica campaigning for itself: its own authenticated identity.
        let me = PeerId {
            replica: self.config.identity.replica,
            incarnation: self.config.identity.incarnation,
        };
        let taken = self.boot.take();
        let mut boot = match taken {
            Some(b) => b,
            None => {
                return no_effects();
            },
        };
        let outcome = self.ballots.on_new_leader(
            me,
            ballot,
            boot_id,
            &mut boot.alloc,
            &outstanding,
        );
        self.boot = Some(boot);
        let effects = match outcome {
            Ok(e) => e,
            Err(e) => {
                proof {
                    assert(self@.boot->0 =~= start.boot->0);
                    assert(self@ =~= start);
                }
                self.reject(FollowerRejection::Promise(e));
                return no_effects();
            },
        };
        let barrier = effects.persist.barrier;
        let context = self.ballots.context(boot_id, ballot);
        self.report_due = Some(
            PendingReport { ballot, to: me, requires_durable: effects.reply.requires_durable },
        );
        self.campaign = Some(Campaign::new(config));
        let mut out = no_effects();
        emit(&mut out, Effect::Persist(effects.persist));
        let message = ProtocolMessage::NewLeader { ballot };
        let frame = message.encode();
        broadcast(&mut out, context, &only(barrier), &self.config.identity, &frame);
        proof {
            let turn = start.campaigning(ballot);
            assert(barrier == start.barrier());
            assert(self@ =~= turn.0);
            assert(views(out@) =~= turn.1);
        }
        out
    }

    /// Resume a campaign whose selection was durably bound before a crash:
    /// the same decision is published again; nothing is reselected.
    pub fn resume_campaign<H: Fn(HashDomain, Vec<Vec<u8>>) -> Digest32>(
        &mut self,
        hash: &H,
        decision: SyncDecision,
    ) -> (r: Vec<Effect>)
        requires
            is_hash(*hash),
        ensures
            (final(self)@, views(r@)) == old(self)@.resumed(*hash, decision@),
    {
        let ghost start = self@;
        let ghost d = decision@;
        if decision.ballot.leader != self.config.identity.replica || self.ballots.promised()
            != decision.ballot {
            self.reject(FollowerRejection::CannotLead);
            return no_effects();
        }
        let config = match BallotConfiguration::c2_default(
            self.config.identity.epoch,
            decision.ballot,
            self.config.identity.voters.dup(),
        ) {
            Ok(c) => c,
            Err(_) => {
                self.reject(FollowerRejection::CannotLead);
                return no_effects();
            },
        };
        self.campaign = Some(Campaign::resumed(config, decision));
        proof {
            let q = default_config(
                start.config.identity.epoch,
                d.ballot,
                start.config.identity.voters,
            );
            assert(self@ =~= (FollowerView {
                campaign: Some(CampaignView::resumed(q->0, d)),
                ..start
            }));
        }
        self.advance_campaign(hash)
    }
}

impl Follower {
    /// Offer the submitter the evidence this replica already published for
    /// `command`, because a submission naming it arrived again: the bytes
    /// that were published, under the context they were published in,
    /// requiring the barriers they required, to the frontend only.
    fn repair_evidence(&mut self, command: CommandId) -> (r: Vec<Effect>)
        ensures
            (final(self)@, views(r@)) == old(self)@.evidence_repaired(command),
    {
        let ghost start = self@;
        if !self.may_vote() || self.boot.is_none() {
            self.reject(FollowerRejection::ReplayRefused { command, why: ReplayRefusal::Fenced });
            return no_effects();
        }
        let ballot = self.config.quorum.ballot();
        let mut out = no_effects();
        if let Some(boot) = &self.boot {
            match self.replay.plan(
                command,
                &boot.settled,
                ballot,
                self.config.frontend,
                &self.table,
            ) {
                Ok(sends) => {
                    publish_sends(&mut out, sends);
                    proof {
                        let turn = start.evidence_repaired(command);
                        assert(self@ =~= turn.0);
                        assert(views(out@) =~= turn.1);
                    }
                },
                Err(why) => {
                    proof {
                        assert(self@ =~= start);
                    }
                    self.reject(FollowerRejection::ReplayRefused { command, why });
                },
            }
        }
        out
    }

    /// The same identity again. Whether it is the same *request* is decided
    /// by everything that travelled beside the identity against what this
    /// replica accepted the command under. Only an exact match is a
    /// duplicate, and the submitter presenting it may never have received
    /// what this replica already said about the command. Bound but without a
    /// payload row to compare against, nothing is replayed.
    fn present_again<H: Fn(HashDomain, Vec<Vec<u8>>) -> Digest32>(
        &mut self,
        hash: &H,
        command: CommandId,
        payload: &PayloadRecordV1,
    ) -> (r: Vec<Effect>)
        requires
            is_hash(*hash),
        ensures
            (final(self)@, views(r@)) == old(self)@.presented_again(*hash, command, payload@),
    {
        let accepted = match self.payloads.get(&command) {
            Some(p) => p.admission_digest(hash),
            None => {
                self.reject(FollowerRejection::Duplicate(command));
                return no_effects();
            },
        };
        if accepted == payload.admission_digest(hash) {
            self.reject(FollowerRejection::Duplicate(command));
            return self.repair_evidence(command);
        }
        self.reject(FollowerRejection::RequestFactsConflict { command, accepted });
        no_effects()
    }

    /// Stage the batch of an initialized command.
    fn stage_vote(&mut self, command: CommandId, payload: &PayloadRecordV1) -> (r: (
        BarrierId,
        PersistBatch,
    ))
        requires
            old(self)@.boot is Some,
            old(self)@.table.records.contains_key(command),
        ensures
            r.0 == old(self)@.barrier(),
            r.1@ == (BatchView {
                barrier: old(self)@.barrier(),
                updates: seq![
                    payload_row(command, payload@),
                    dependency_row(
                        old(self)@.config.identity.epoch,
                        command,
                        old(self)@.table.records[command],
                    ),
                ],
            }),
            final(self)@ == old(self)@.voting(command, payload@, old(self)@.table),
    {
        let ghost start = self@;
        let epoch = self.config.identity.epoch;
        self.bindings.insert(payload.retry_key, command);
        self.payloads.insert(command, payload.dup());
        let barrier = self.allocate();
        let row = match self.table.record(&command) {
            Some(record) => {
                let row = dependency_update(epoch, &command, record);
                let record = record.dup();
                self.ledger.stage(barrier, command, record);
                row
            },
            None => payload_update(&command, payload),
        };
        let batch = two_rows(barrier, payload_update(&command, payload), row);
        self.pending.insert(barrier, Pending::Vote(command));
        self.durable_payloads.insert(barrier, command);
        // Own vote joins whatever evidence (a held proposal) already arrived
        // for this command; it never replaces it.
        if !self.votes.contains_key(&command) {
            let set = VoteSet::new(self.config.quorum.dup(), command);
            self.votes.insert(command, set);
        }
        proof {
            assert(self@ =~= start.voting(command, payload@, start.table));
        }
        (barrier, batch)
    }

    /// A canonical request reached this replica (from the frontend, or as a
    /// transferred payload): initialize, persist, vote.
    ///
    /// Initialization is atomic; the placeholder of an early proposal (if
    /// any) becomes the record in this same transition. Without room, what
    /// may be adopted still is: adoption is what lets records execute,
    /// retire and make room.
    #[verifier::rlimit(40)]
    fn on_request<H: Fn(HashDomain, Vec<Vec<u8>>) -> Digest32>(
        &mut self,
        hash: &H,
        command: CommandId,
        payload: PayloadRecordV1,
    ) -> (r: Vec<Effect>)
        requires
            is_hash(*hash),
            old(self)@.boot is Some || !old(self)@.table.initialized(command),
        ensures
            (final(self)@, views(r@)) == old(self)@.requested(*hash, command, payload@),
    {
        let ghost start = self@;
        let ghost p = payload@;
        let retry_key = payload.retry_key;
        match self.bindings.get(&retry_key) {
            Some(bound) => {
                let bound = *bound;
                if bound != command {
                    self.reject(FollowerRejection::RequestIdentityConflict { retry_key, bound });
                    return no_effects();
                }
                return self.present_again(hash, command, &payload);
            },
            None => {},
        }
        let digest = payload.admission_digest(hash);
        if self.boot.is_none() {
            // Nothing is initialized before boot: it would need a barrier.
            let full = self.table.open_for(&command);
            proof {
                assert(self@ =~= (FollowerView { table: start.table.opened(command), ..start }));
            }
            if full {
                self.reject(FollowerRejection::Backpressure);
                return self.advance_pending(hash);
            }
            return no_effects();
        }
        let init = self.table.initialize(hash, command, digest, conservative());
        let init = match init {
            Ok(i) => i,
            Err(e) => {
                let ghost room = FollowerView { table: start.table.opened(command), ..start };
                proof {
                    assert(self@ =~= room);
                }
                match e {
                    InitError::Backpressure => {
                        self.reject(FollowerRejection::Backpressure);
                        return self.advance_pending(hash);
                    },
                    InitError::AlreadyInitialized => {
                        self.bindings.insert(retry_key, command);
                        proof {
                            assert(self@ =~= (FollowerView {
                                bindings: start.bindings.insert(retry_key, command),
                                ..room
                            }));
                        }
                        self.reject(FollowerRejection::Duplicate(command));
                        return self.repair_evidence(command);
                    },
                    InitError::PayloadConflict => {
                        self.reject(FollowerRejection::PayloadConflict(command));
                        return no_effects();
                    },
                }
            },
        };
        let ghost table = self.table@;
        let ghost opened = self@;
        proof {
            assert(opened =~= (FollowerView { table, ..start }));
            assert(table.records.contains_key(command));
        }
        let (barrier, batch) = self.stage_vote(command, &payload);
        let ghost staged = start.voting(command, p, table);
        let mut effects = no_effects();
        emit(&mut effects, Effect::Persist(batch));
        proof {
            assert(self@ =~= staged);
        }
        let ghost persisted = views(effects@);
        let ghost mut voted = staged;
        let ghost mut said: Seq<EffectView> = Seq::empty();
        if self.in_fast_set() {
            let ack = FastAck {
                replica: self.config.identity.replica,
                ballot: self.config.quorum.ballot(),
                command,
                deps: init.deps,
                paths: init.paths,
                path: init.path,
                admission: init.payload,
                seqnum: None,
            };
            let ghost shown = ack@;
            // Counted once the payload and dependency rows are durable.
            self.deferred.insert(
                barrier,
                DeferredVote { command, vote: Vote::Fast(ack.dup()) },
            );
            let message = ProtocolMessage::FastAck(ack);
            let ghost ready = self@;
            self.publish_to_voters_and_frontend(command, barrier, &message, &mut effects);
            proof {
                assert(shown =~= start.fast_ack(command, table, p.admitted(*hash)));
                assert(ready =~= (FollowerView {
                    deferred: start.deferred.insert(
                        barrier,
                        DeferredView { command, vote: VoteView::Fast(shown) },
                    ),
                    ..staged
                }));
                let turn = ready.acknowledged(command, barrier, MessageView::FastAck(shown));
                voted = turn.0;
                said = turn.1;
            }
        } else {
            proof {
                assert(persisted + said =~= persisted);
            }
        }
        // A proposal (or Sync entry) that arrived before the payload can now
        // be adopted (once its dependencies allow it).
        let more = self.advance_sync(hash);
        emit_all(&mut effects, more);
        let last = self.advance_pending(hash);
        emit_all(&mut effects, last);
        proof {
            let turn = start.requested(*hash, command, p);
            let (installed, m) = voted.sync_advanced(*hash);
            let (done, l) = installed.pending_advanced(*hash);
            assert(self@ == done);
            assert(views(effects@) =~= persisted + said + m + l);
            assert(persisted =~= seq![turn.1[0]]);
        }
        effects
    }
}

/// Drop what is held for commands the table keeps nothing of but that they
/// executed.
fn sweep<V: View>(map: &mut OrdMap<CommandId, V>, table: &CommandTable)
    ensures
        final(map)@ == old(map)@.restrict(live(table@)),
{
    let ghost start = map@;
    let keys = map.keys();
    let ghost order = keys@;
    let ghost keep = live(table@);
    let mut i: usize = 0;
    proof {
        lemma_id_views(keys@);
        lemma_in_order::<CommandId>(start.dom());
        assert(map@ =~= start.remove_keys(order.take(0).to_set().difference(keep)));
    }
    while i < keys.len()
        invariant
            i <= keys@.len(),
            order == keys@,
            keep == live(table@),
            map@ == start.remove_keys(order.take(i as int).to_set().difference(keep)),
        decreases keys@.len() - i,
    {
        let c = keys[i];
        if table.forgotten(&c) {
            let _ = map.remove(&c);
        }
        proof {
            lemma_take_set(order, i as int);
            assert(map@ =~= start.remove_keys(order.take(i + 1).to_set().difference(keep)));
        }
        i = i + 1;
    }
    proof {
        assert(order.take(order.len() as int) =~= order);
        assert(map@ =~= start.restrict(keep)) by {
            assert forall|c: CommandId| start.contains_key(c) implies order.to_set().contains(c) by {
                assert(order.contains(c));
            }
        }
    }
}

fn sweep_set(set: &mut OrdSet<CommandId>, table: &CommandTable)
    ensures
        final(set)@ == old(set)@.intersect(live(table@)),
{
    let ghost start = set@;
    let keys = set.to_vec();
    let ghost order = keys@;
    let ghost keep = live(table@);
    let mut i: usize = 0;
    proof {
        lemma_id_views(keys@);
        lemma_in_order::<CommandId>(start);
        assert(set@ =~= start.difference(order.take(0).to_set().difference(keep)));
    }
    while i < keys.len()
        invariant
            i <= keys@.len(),
            order == keys@,
            keep == live(table@),
            set@ == start.difference(order.take(i as int).to_set().difference(keep)),
        decreases keys@.len() - i,
    {
        let c = keys[i];
        if table.forgotten(&c) {
            let _ = set.remove(&c);
        }
        proof {
            lemma_take_set(order, i as int);
            assert(set@ =~= start.difference(order.take(i + 1).to_set().difference(keep)));
        }
        i = i + 1;
    }
    proof {
        assert(order.take(order.len() as int) =~= order);
        assert(set@ =~= start.intersect(keep)) by {
            assert forall|c: CommandId| start.contains(c) implies order.to_set().contains(c) by {
                assert(order.contains(c));
            }
        }
    }
}

fn sweep_ledger(ledger: &mut DurableLedger, table: &CommandTable)
    ensures
        ({
            let keep = live(table@);
            final(ledger)@ == (LedgerView {
                records: old(ledger)@.records.restrict(keep),
                sequences: old(ledger)@.sequences.restrict(
                    Set::new(
                        |c: CommandId|
                            keep.contains(c) || !old(ledger)@.records.contains_key(c),
                    ),
                ),
                ..old(ledger)@
            })
        }),
{
    let ghost start = ledger@;
    let keys = ledger.records();
    let size: usize = ledger.len();
    let ghost order = keys@;
    let ghost keep = live(table@);
    let mut i: usize = 0;
    proof {
        lemma_in_order::<CommandId>(start.records.dom());
        let gone = order.take(0).to_set().difference(keep);
        assert(ledger@.records =~= start.records.remove_keys(gone));
        assert(ledger@.sequences =~= start.sequences.remove_keys(gone));
    }
    while i < keys.len()
        invariant
            i <= keys@.len(),
            order == keys@,
            keep == live(table@),
            ledger@.staged == start.staged,
            ledger@.records == start.records.remove_keys(
                order.take(i as int).to_set().difference(keep),
            ),
            ledger@.sequences == start.sequences.remove_keys(
                order.take(i as int).to_set().difference(keep),
            ),
        decreases keys@.len() - i,
    {
        let c = keys[i];
        if table.forgotten(&c) {
            ledger.forget(&c);
        }
        proof {
            lemma_take_set(order, i as int);
            let gone = order.take(i + 1).to_set().difference(keep);
            assert(ledger@.records =~= start.records.remove_keys(gone));
            assert(ledger@.sequences =~= start.sequences.remove_keys(gone));
        }
        i = i + 1;
    }
    proof {
        assert(order.take(order.len() as int) =~= order);
        assert forall|c: CommandId| start.records.contains_key(c) == order.to_set().contains(c) by {
            assert(order.contains(c) <==> start.records.dom().contains(c));
        }
        assert(ledger@.records =~= start.records.restrict(keep));
        assert(ledger@.sequences =~= start.sequences.restrict(
            Set::new(|c: CommandId| keep.contains(c) || !start.records.contains_key(c)),
        ));
    }
}

impl Follower {
    /// The sweep itself, whatever the ledger's size. The adoption order of a
    /// forgotten command decides nothing more, and kept without its payload
    /// it would read as a payload still missing.
    fn sweep_history(&mut self)
        ensures
            final(self)@ == old(self)@.swept(),
    {
        sweep_ledger(&mut self.ledger, &self.table);
        sweep(&mut self.payloads, &self.table);
        sweep_set(&mut self.served_payloads, &self.table);
        sweep(&mut self.votes, &self.table);
        sweep(&mut self.adopted, &self.table);
        proof {
            assert(self@ =~= old(self)@.swept());
        }
    }

    /// Drop the durable records and payloads of commands this replica keeps
    /// nothing else about, once there are enough of them to be worth a pass.
    fn forget_history(&mut self)
        ensures
            final(self)@ == old(self)@.history_forgotten(),
    {
        if self.ledger.len() <= multiple(self.config.capacity, HISTORY_SWEEP) {
            return;
        }
        self.sweep_history();
    }

    /// The materializer applied `command`: seal and publish the established
    /// result, then learn whatever the new phase enables. Where the evidence is
    /// not sealed, nothing is published or learned.
    pub fn applied<S: Fn(EstablishmentEvidence) -> bool>(
        &mut self,
        seal: &S,
        command: CommandId,
        outcome: &AppliedOutcome,
    ) -> (r: Result<Vec<Effect>, LearnError>)
        requires
            is_seal(*seal),
        ensures
            match old(self)@.apply_refusal(sealing_of(*seal), command, outcome@) {
                Some(e) => r == Err::<Vec<Effect>, LearnError>(e) && final(self)@ == old(
                    self,
                )@.applied(sealing_of(*seal), command, outcome@).0,
                None => r is Ok && (final(self)@, views(r->Ok_0@)) == old(self)@.applied(
                    sealing_of(*seal),
                    command,
                    outcome@,
                ),
            },
    {
        let ghost start = self@;
        let epoch = self.config.identity.epoch;
        let ballot = self.config.quorum.ballot();
        let evidence = match self.learner.established(
            seal,
            &mut self.table,
            command,
            epoch,
            ballot,
            outcome,
        ) {
            Ok(e) => e,
            Err(e) => {
                proof {
                    assert(self@ =~= start.applied(sealing_of(*seal), command, outcome@).0);
                }
                return Err(e);
            },
        };
        proof {
            assert(self@ =~= (FollowerView {
                learner: start.learner.executed(command),
                table: start.table.advanced(command, Phase::Executed),
                ..start
            }));
        }
        self.learn();
        self.forget_history();
        let mut out = no_effects();
        emit(&mut out, Effect::Established(evidence));
        proof {
            assert(views(out@) =~= start.applied(sealing_of(*seal), command, outcome@).1);
        }
        Ok(out)
    }

    /// An admitted request.
    fn on_admitted<H: Fn(HashDomain, Vec<Vec<u8>>) -> Digest32>(
        &mut self,
        hash: &H,
        request: Option<Request>,
        admission: AdmissionFacts,
    ) -> (r: Vec<Effect>)
        requires
            is_hash(*hash),
        ensures
            (final(self)@, views(r@)) == old(self)@.admitted(
                *hash,
                crate::machine::request_view(request),
                admission@,
            ),
    {
        if self.boot.is_none() {
            return no_effects();
        }
        if let Some(transition) = self.ballots.seal_held() {
            self.reject(FollowerRejection::Sealed { transition });
            return no_effects();
        }
        if !self.may_vote() {
            let promised = self.ballots.promised();
            self.reject(FollowerRejection::FencedByPromise { promised });
            return no_effects();
        }
        match request {
            None => {
                self.reject(FollowerRejection::MalformedRequest);
                no_effects()
            },
            Some(q) => {
                let payload = PayloadRecordV1 {
                    retry_key: q.retry_key,
                    logical: q.logical,
                    admission: Some(admission),
                    ack_through: q.ack_through,
                };
                self.on_request(hash, q.command, payload)
            },
        }
    }

    /// A transferred payload: it must rehash to the identity it claims; then
    /// it is treated exactly like an admitted request, under the facts it
    /// was first accepted under. Where a record already exists the payload
    /// is bound beside the record rather than through it, and written, so
    /// that a restart does not lose it.
    fn on_payload<
        H: Fn(HashDomain, Vec<Vec<u8>>) -> Digest32,
        D: Fn(RetryKey, Vec<u8>) -> Option<Derived>,
    >(&mut self, hash: &H, derive: &D, command: CommandId, payload: PayloadRecordV1) -> (r: Vec<
        Effect,
    >)
        requires
            is_hash(*hash),
            is_identity(*derive),
        ensures
            (final(self)@, views(r@)) == old(self)@.payload_received(
                *hash,
                *derive,
                command,
                payload@,
            ),
    {
        let ghost start = self@;
        let ghost p = payload@;
        let derived = derive_front(derive, payload.retry_key, &payload.logical);
        let (claimed, exact) = match derived {
            Some(d) => (d.command == command, d.exact),
            None => (false, false),
        };
        if !claimed {
            self.reject(FollowerRejection::PayloadIdentityMismatch(command));
            return no_effects();
        }
        if self.payloads.contains_key(&command) {
            return no_effects();
        }
        if !self.table.is_initialized(&command) {
            if !exact {
                // A request is a request and nothing else.
                self.reject(FollowerRejection::MalformedRequest);
                return no_effects();
            }
            return self.on_request(hash, command, payload);
        }
        if self.boot.is_none() {
            return no_effects();
        }
        let barrier = self.allocate();
        self.bindings.insert(payload.retry_key, command);
        let row = payload_update(&command, &payload);
        self.payloads.insert(command, payload);
        self.durable_payloads.insert(barrier, command);
        let mut out = no_effects();
        emit(&mut out, Effect::Persist(one_row(barrier, row)));
        proof {
            let turn = start.payload_received(*hash, *derive, command, p);
            assert(self@ =~= turn.0);
            assert(views(out@) =~= turn.1);
        }
        out
    }

    /// An answer to a payload ask: counted only as an answer to the
    /// outstanding ask, and once. A campaign waiting for the payload can
    /// bind now.
    fn on_payload_response<
        H: Fn(HashDomain, Vec<Vec<u8>>) -> Digest32,
        D: Fn(RetryKey, Vec<u8>) -> Option<Derived>,
    >(&mut self, hash: &H, derive: &D, command: CommandId, payload: PayloadRecordV1) -> (r: Vec<
        Effect,
    >)
        requires
            is_hash(*hash),
            is_identity(*derive),
        ensures
            (final(self)@, views(r@)) == old(self)@.payload_answered(
                *hash,
                *derive,
                command,
                payload@,
            ),
    {
        let asked = self.payloads_asked.contains(&command);
        let mut out = self.on_payload(hash, derive, command, payload);
        let ghost taken = self@;
        if asked && self.payloads.contains_key(&command) {
            self.payloads_asked.remove(&command);
            self.payloads_answered = if self.payloads_answered == u64::MAX {
                u64::MAX
            } else {
                self.payloads_answered + 1
            };
            proof {
                assert(self@ =~= (FollowerView {
                    payloads_asked: taken.payloads_asked.remove(command),
                    payloads_answered: if taken.payloads_answered == u64::MAX {
                        u64::MAX
                    } else {
                        (taken.payloads_answered + 1) as u64
                    },
                    ..taken
                }));
            }
        }
        let more = self.advance_campaign(hash);
        emit_all(&mut out, more);
        out
    }

    fn note(&mut self, event: &StorageEvent)
        requires
            old(self)@.ballots.elections < u64::MAX,
        ensures
            final(self)@ == old(self)@.noted(*event),
    {
        let taken = self.boot.take();
        if let Some(mut boot) = taken {
            boot.settled.observe(event);
            self.boot = Some(boot);
        }
        let _ = self.ballots.on_storage(event);
        proof {
            assert(self@ =~= old(self)@.noted(*event));
        }
    }

    /// A batch of this replica is a fact: its record, its payload and its
    /// vote count from here.
    fn settle_durable(&mut self, barrier: BarrierId, seq: crate::ids::LocalJournalSeq)
        requires
            old(self)@.pending.contains_key(barrier),
        ensures
            final(self)@ == old(self)@.batch_durable(barrier, seq),
    {
        let ghost start = self@;
        let pending = match self.pending.remove(&barrier) {
            Some(p) => p,
            None => {
                return;
            },
        };
        let _ = self.ledger.durable(barrier, seq);
        if let Some(c) = self.durable_payloads.remove(&barrier) {
            self.served_payloads.insert(c);
        }
        if let Pending::Adoption(c) = pending {
            if let Some(entry) = self.adopted.remove(&c) {
                self.adopted.insert(c, (entry.0, true));
                proof {
                    assert(self@.adopted =~= start.adopted.insert(c, (start.adopted[c].0, true)));
                }
            } else {
                proof {
                    assert(self@.adopted =~= start.adopted);
                }
            }
        }
        if let Some(deferred) = self.deferred.remove(&barrier) {
            if let Some(mut set) = self.votes.remove(&deferred.command) {
                let command = deferred.command;
                let _ = set.add(deferred.vote);
                self.votes.insert(command, set);
                proof {
                    let d = start.deferred[barrier];
                    assert(self@.votes =~= start.votes.insert(
                        d.command,
                        start.votes[d.command].presented(d.vote),
                    ));
                }
            } else {
                proof {
                    assert(self@.votes =~= start.votes);
                }
            }
        }
        proof {
            assert(self@ =~= start.batch_durable(barrier, seq));
        }
    }

    /// A batch of this replica never happened: its vote is not evidence.
    fn settle_failed(&mut self, barrier: BarrierId)
        requires
            old(self)@.pending.contains_key(barrier),
        ensures
            final(self)@ == old(self)@.batch_failed(barrier),
    {
        let ghost start = self@;
        let pending = match self.pending.remove(&barrier) {
            Some(p) => p,
            None => {
                return;
            },
        };
        let _ = self.deferred.remove(&barrier);
        let _ = self.ledger.failed(barrier);
        let _ = self.durable_payloads.remove(&barrier);
        let command = match pending {
            Pending::Vote(c) => c,
            Pending::Adoption(c) => c,
        };
        proof {
            assert(self@ =~= (FollowerView {
                pending: start.pending.remove(barrier),
                deferred: start.deferred.remove(barrier),
                ledger: LedgerView {
                    staged: start.ledger.staged.remove(barrier),
                    ..start.ledger
                },
                durable_payloads: start.durable_payloads.remove(barrier),
                ..start
            }));
        }
        self.reject(FollowerRejection::BatchFailed(command));
    }

    fn settle_batch(&mut self, event: &StorageEvent)
        ensures
            final(self)@ == old(self)@.batch_settled(*event),
    {
        match *event {
            StorageEvent::JournalDurable { barrier, journal_seq } => {
                if self.pending.contains_key(&barrier) {
                    self.settle_durable(barrier, journal_seq);
                } else if let Some(c) = self.durable_payloads.remove(&barrier) {
                    // A payload bound beside a record has a batch of its own.
                    self.served_payloads.insert(c);
                    proof {
                        assert(self@ =~= old(self)@.batch_settled(*event));
                    }
                } else {
                    proof {
                        assert(self@ =~= old(self)@);
                    }
                }
            },
            StorageEvent::Failed { barrier, .. } => {
                if self.pending.contains_key(&barrier) {
                    self.settle_failed(barrier);
                } else {
                    let _ = self.durable_payloads.remove(&barrier);
                    proof {
                        assert(self@ =~= old(self)@.batch_settled(*event));
                    }
                }
            },
            _ => {},
        }
    }

    /// The row of a Sync settled: the new ballot becomes this replica's only
    /// when that row is a fact, unless a higher ballot was promised while it
    /// was becoming durable.
    fn settle_sync<H: Fn(HashDomain, Vec<Vec<u8>>) -> Digest32>(
        &mut self,
        hash: &H,
        event: &StorageEvent,
    ) -> (r: Vec<Effect>)
        requires
            is_hash(*hash),
            old(self)@.sync_barrier is Some,
        ensures
            (final(self)@, views(r@)) == old(self)@.sync_settled(*hash, *event),
    {
        let ghost start = self@;
        let durable = match event {
            StorageEvent::JournalDurable { .. } => true,
            _ => false,
        };
        let failed = match event {
            StorageEvent::Failed { .. } => true,
            _ => false,
        };
        if !durable && !failed {
            return no_effects();
        }
        let taken = self.sync_barrier.take();
        match taken {
            None => no_effects(),
            Some((_, decision)) => {
                let ballot = decision.ballot;
                proof {
                    assert(self@ =~= (FollowerView { sync_barrier: None, ..start }));
                }
                if failed {
                    self.reject(FollowerRejection::SyncNotDurable(ballot));
                    return no_effects();
                }
                if self.ballots.promised() == ballot {
                    return self.activate(hash, decision);
                }
                self.reject(FollowerRejection::SyncSuperseded(ballot));
                no_effects()
            },
        }
    }

    #[verifier::rlimit(40)]
    fn on_storage_event<H: Fn(HashDomain, Vec<Vec<u8>>) -> Digest32>(
        &mut self,
        hash: &H,
        event: &StorageEvent,
    ) -> (r: Vec<Effect>)
        requires
            is_hash(*hash),
            old(self)@.ballots.elections < u64::MAX,
        ensures
            (final(self)@, views(r@)) == old(self)@.event_stored(*hash, *event),
    {
        self.note(event);
        let barrier = event.barrier();
        let about_sync = match (&self.sync_barrier, barrier) {
            (Some(p), Some(b)) => p.0 == b,
            _ => false,
        };
        if about_sync {
            return self.settle_sync(hash, event);
        }
        self.settle_batch(event);
        let ghost settled = self@;
        let durable = match event {
            StorageEvent::JournalDurable { .. } => true,
            _ => false,
        };
        let mut out = no_effects();
        let mut binds = false;
        if durable {
            if let Some(b) = barrier {
                let taken = self.campaign.take();
                if let Some(mut c) = taken {
                    if let Some(bound) = c.binding() {
                        if bound == b {
                            binds = true;
                            let _ = c.on_durable(b);
                        }
                    }
                    self.campaign = Some(c);
                }
            }
        }
        proof {
            assert(binds == settled.binds(*event));
            if binds {
                assert(self@ =~= (FollowerView {
                    campaign: Some(CampaignView { durable: true, ..settled.campaign->0 }),
                    ..settled
                }));
            } else {
                assert(self@ =~= settled);
            }
        }
        if binds {
            out = self.advance_campaign(hash);
        }
        let more = self.deliver_due_report(hash);
        emit_all(&mut out, more);
        self.learn();
        out
    }

    /// A storage event. A Sync that arrived ahead of this replica's promise
    /// is installed once the promise is this replica's.
    fn on_storage<H: Fn(HashDomain, Vec<Vec<u8>>) -> Digest32>(
        &mut self,
        hash: &H,
        event: &StorageEvent,
    ) -> (r: Vec<Effect>)
        requires
            is_hash(*hash),
            old(self)@.ballots.elections < u64::MAX,
        ensures
            (final(self)@, views(r@)) == old(self)@.stored(*hash, *event),
    {
        let mut out = self.on_storage_event(hash, event);
        let ghost next = self@;
        let promised = self.ballots.promised();
        let due = match &self.early_sync {
            Some(kept) => kept.1.ballot == promised,
            None => false,
        };
        if due {
            let taken = self.early_sync.take();
            if let Some((leader, decision)) = taken {
                proof {
                    assert(self@ =~= (FollowerView { early_sync: None, ..next }));
                }
                let more = self.on_sync(hash, leader, decision);
                emit_all(&mut out, more);
            }
        }
        out
    }

    /// Whether a voting message belongs to the promised ballot whose Sync
    /// has not arrived yet: it is held (bounded by the table capacity) rather
    /// than rejected, since the leader publishes its re-proposals right after
    /// the Sync and peers may deliver them first.
    fn stash_until_sync(&self, message: &ProtocolMessage) -> (r: bool)
        ensures
            r == self@.stashed(message@),
    {
        let ballot = match message {
            ProtocolMessage::Proposal(a) => a.ballot,
            ProtocolMessage::FastAck(a) => a.ballot,
            ProtocolMessage::SlowAck(a) => a.ballot,
            _ => {
                return false;
            },
        };
        ballot == self.ballots.promised() && ballot != self.config.quorum.ballot()
            && self.ballots.in_flight().is_none() && self.awaiting_sync.len() < self.config.capacity
    }

    /// A candidate asks this replica to promise its ballot.
    fn on_new_leader(&mut self, from: PeerId, ballot: Ballot) -> (r: Vec<Effect>)
        ensures
            (final(self)@, views(r@)) == old(self)@.asked_to_promise(from, ballot),
    {
        let ghost start = self@;
        let outstanding = self.outstanding_for_cut();
        let taken = self.boot.take();
        let mut boot = match taken {
            Some(b) => b,
            None => {
                proof {
                    assert(self@ =~= start);
                }
                return no_effects();
            },
        };
        let outcome = self.ballots.on_new_leader(
            from,
            ballot,
            boot.id,
            &mut boot.alloc,
            &outstanding,
        );
        self.boot = Some(boot);
        match outcome {
            Ok(effects) => {
                self.awaiting_sync = Vec::new();
                self.report_due = Some(
                    PendingReport {
                        ballot,
                        to: from,
                        requires_durable: copy_barriers(&effects.reply.requires_durable),
                    },
                );
                let mut out = no_effects();
                emit(&mut out, Effect::Persist(effects.persist));
                emit(&mut out, Effect::Publish(effects.reply));
                proof {
                    let turn = start.asked_to_promise(from, ballot);
                    assert(self@ =~= turn.0);
                    assert(views(out@) =~= turn.1);
                }
                out
            },
            Err(e) => {
                proof {
                    assert(self@.boot->0 =~= start.boot->0);
                    assert(self@ =~= start);
                }
                self.reject(FollowerRejection::Promise(e));
                no_effects()
            },
        }
    }

    /// Sealing the old configuration. The row and the report follow the
    /// promise's rule exactly: the report is published requiring the row and
    /// every batch submitted before the cut.
    fn on_seal_request(&mut self, from: PeerId, transition: Transition) -> (r: Vec<Effect>)
        ensures
            (final(self)@, views(r@)) == old(self)@.asked_to_seal(from, transition),
    {
        let ghost start = self@;
        let outstanding = self.outstanding_for_cut();
        let taken = self.boot.take();
        let mut boot = match taken {
            Some(b) => b,
            None => {
                proof {
                    assert(self@ =~= start);
                }
                return no_effects();
            },
        };
        let outcome = self.ballots.seal(
            transition,
            from,
            boot.id,
            &mut boot.alloc,
            &outstanding,
        );
        self.boot = Some(boot);
        match outcome {
            Ok(effects) => {
                let mut out = no_effects();
                emit(&mut out, Effect::Persist(effects.persist));
                emit(&mut out, Effect::Publish(effects.report));
                proof {
                    let turn = start.asked_to_seal(from, transition);
                    assert(self@ =~= turn.0);
                    assert(views(out@) =~= turn.1);
                }
                out
            },
            Err(e) => {
                proof {
                    assert(self@.boot->0 =~= start.boot->0);
                    assert(self@ =~= start);
                }
                self.reject(FollowerRejection::Seal(e));
                no_effects()
            },
        }
    }

    fn on_promise<H: Fn(HashDomain, Vec<Vec<u8>>) -> Digest32>(
        &mut self,
        hash: &H,
        from: PeerId,
        ballot: Ballot,
        replica: ReplicaId,
    ) -> (r: Vec<Effect>)
        requires
            is_hash(*hash),
        ensures
            (final(self)@, views(r@)) == old(self)@.promise_received(*hash, from, ballot, replica),
    {
        let ghost start = self@;
        let taken = self.campaign.take();
        if let Some(mut c) = taken {
            if c.ballot() == ballot && replica == from.replica {
                c.promise(replica);
            }
            self.campaign = Some(c);
        }
        proof {
            let told = if start.campaign is Some && start.campaign->0.config.ballot == ballot
                && replica == from.replica {
                FollowerView {
                    campaign: Some(start.campaign->0.with_promise(replica)),
                    ..start
                }
            } else {
                start
            };
            assert(self@ =~= told);
        }
        self.advance_campaign(hash)
    }

    fn on_report_page<H: Fn(HashDomain, Vec<Vec<u8>>) -> Digest32>(
        &mut self,
        hash: &H,
        page: ReportPage,
    ) -> (r: Vec<Effect>)
        requires
            is_hash(*hash),
        ensures
            (final(self)@, views(r@)) == old(self)@.page_received(*hash, page@),
    {
        let ghost start = self@;
        let ghost p = page@;
        let taken = self.campaign.take();
        let mut c = match taken {
            Some(c) => c,
            None => {
                proof {
                    assert(self@ =~= start);
                }
                return no_effects();
            },
        };
        let outcome = c.page(hash, page);
        self.campaign = Some(c);
        if let Err(e) = outcome {
            proof {
                assert(self@ =~= start);
            }
            self.reject(FollowerRejection::Page(e));
            return no_effects();
        }
        proof {
            let c = start.campaign->0;
            assert(self@ =~= (FollowerView {
                campaign: Some(CampaignView { assembler: c.assembler.with_page(p), ..c }),
                ..start
            }));
        }
        self.advance_campaign(hash)
    }

    /// A frame from a peer at the exact incarnation the transport bound.
    #[verifier::rlimit(80)]
    pub fn on_peer<
        H: Fn(HashDomain, Vec<Vec<u8>>) -> Digest32,
        D: Fn(RetryKey, Vec<u8>) -> Option<Derived>,
    >(&mut self, hash: &H, derive: &D, from: PeerId, frame: &Vec<u8>) -> (r: Vec<Effect>)
        requires
            is_hash(*hash),
            is_identity(*derive),
        ensures
            (final(self)@, views(r@)) == old(self)@.received(*hash, *derive, from, frame@),
    {
        let ghost start = self@;
        let message = match ProtocolMessage::decode(frame) {
            Ok(m) => m,
            Err(_) => {
                self.reject(FollowerRejection::MalformedPeerMessage);
                return no_effects();
            },
        };
        let ghost m = message@;
        if self.stash_until_sync(&message) {
            let held = (from.replica, message);
            proof {
                lemma_views_push(self.awaiting_sync@, held);
            }
            self.awaiting_sync.push(held);
            proof {
                assert(self@ =~= (FollowerView {
                    awaiting_sync: start.awaiting_sync.push((from.replica, m)),
                    ..start
                }));
            }
            return no_effects();
        }
        match message {
            ProtocolMessage::NewLeader { ballot } => self.on_new_leader(from, ballot),
            ProtocolMessage::SealRequest { transition } => self.on_seal_request(from, transition),
            ProtocolMessage::Promise { ballot, replica, .. } => {
                self.on_promise(hash, from, ballot, replica)
            },
            ProtocolMessage::ReportPage(page) => self.on_report_page(hash, page),
            ProtocolMessage::Sync(decision) => self.on_sync(hash, from.replica, decision),
            ProtocolMessage::Proposal(p) => self.on_proposal(hash, from.replica, p),
            ProtocolMessage::FastAck(ack) => {
                self.collect(from.replica, Vote::Fast(ack));
                no_effects()
            },
            ProtocolMessage::SlowAck(ack) => {
                self.collect(from.replica, Vote::Slow(ack));
                no_effects()
            },
            ProtocolMessage::PayloadRequest { commands } => {
                self.serve_payloads(from.replica, &commands)
            },
            ProtocolMessage::PayloadResponse { command, payload } => {
                self.on_payload_response(hash, derive, command, payload)
            },
            // A seal report is a coordinator's to count, and a leader's
            // reply the frontend's to read.
            _ => no_effects(),
        }
    }

    /// Handle one event.
    #[verifier::rlimit(40)]
    pub fn step<
        H: Fn(HashDomain, Vec<Vec<u8>>) -> Digest32,
        D: Fn(RetryKey, Vec<u8>) -> Option<Derived>,
    >(&mut self, hash: &H, derive: &D, event: Event) -> (r: Vec<Effect>)
        requires
            is_hash(*hash),
            is_identity(*derive),
            old(self)@.ballots.elections < u64::MAX,
        ensures
            (final(self)@, views(r@)) == old(self)@.stepped(*hash, *derive, event),
    {
        match event {
            Event::Boot { boot_id, first_barrier } => {
                self.boot = Some(
                    Boot {
                        id: boot_id,
                        alloc: BarrierAllocator::new(first_barrier),
                        settled: Settlements::new(),
                    },
                );
                proof {
                    assert(self@ =~= old(self)@.booted(boot_id, first_barrier));
                }
                no_effects()
            },
            Event::Admitted { request, admission } => self.on_admitted(hash, request, admission),
            Event::Storage(event) => self.on_storage(hash, &event),
            Event::Peer { from, frame } => self.on_peer(hash, derive, from, &frame),
            Event::Other => no_effects(),
        }
    }
}

/// Durable payload rows, the last of a command winning.
fn gather_payloads(rows: &Vec<(CommandId, PayloadRecordV1)>) -> (r: OrdMap<
    CommandId,
    PayloadRecordV1,
>)
    ensures
        r@ == payloads_in(views(rows@)),
        r@.dom().finite(),
{
    let ghost all = views(rows@);
    let mut out: OrdMap<CommandId, PayloadRecordV1> = OrdMap::new();
    let mut i: usize = 0;
    proof {
        assert(all.take(0) =~= Seq::<(CommandId, PayloadView)>::empty());
    }
    while i < rows.len()
        invariant
            i <= rows@.len(),
            all == views(rows@),
            out@ == payloads_in(all.take(i as int)),
        decreases rows@.len() - i,
    {
        proof {
            assert(all.take(i + 1).drop_last() =~= all.take(i as int));
            assert(all.take(i + 1).last() == rows@[i as int]@);
        }
        let payload = rows[i].1.dup();
        out.insert(rows[i].0, payload);
        i = i + 1;
    }
    proof {
        assert(all.take(all.len() as int) =~= all);
    }
    let size: usize = out.len();
    out
}

/// The retry key each durable payload binds.
fn gather_bindings(payloads: &OrdMap<CommandId, PayloadRecordV1>) -> (r: OrdMap<
    RetryKey,
    CommandId,
>)
    ensures
        r@ == bindings_of(payloads@, in_order::<CommandId>(payloads@.dom())),
{
    let n: usize = payloads.len();
    let ghost order = in_order::<CommandId>(payloads@.dom());
    let mut out: OrdMap<RetryKey, CommandId> = OrdMap::new();
    let mut i: usize = 0;
    proof {
        lemma_in_order::<CommandId>(payloads@.dom());
        assert(order.take(0) =~= Seq::<CommandId>::empty());
    }
    while i < n
        invariant
            i <= n == payloads@.dom().len(),
            order == in_order::<CommandId>(payloads@.dom()),
            order.len() == n,
            out@ == bindings_of(payloads@, order.take(i as int)),
        decreases n - i,
    {
        let c = *payloads.key_at(i);
        let key = payloads.value_at(i).retry_key;
        proof {
            assert(order.take(i + 1).drop_last() =~= order.take(i as int));
            assert(order.take(i + 1).last() == c);
        }
        out.insert(key, c);
        i = i + 1;
    }
    proof {
        assert(order.take(n as int) =~= order);
    }
    out
}

/// The first selection of `ballot` among durable Sync rows.
fn find_selection(syncs: &Vec<(Ballot, SyncDecision)>, ballot: Ballot) -> (r: Option<SyncDecision>)
    ensures
        sync_view(r) == selection_of(views(syncs@), ballot),
{
    let ghost all = views(syncs@);
    let mut found: Option<SyncDecision> = None;
    let mut i: usize = 0;
    proof {
        assert(all.take(0) =~= Seq::<(Ballot, SyncView)>::empty());
    }
    while i < syncs.len()
        invariant
            i <= syncs@.len(),
            all == views(syncs@),
            sync_view(found) == selection_of(all.take(i as int), ballot),
        decreases syncs@.len() - i,
    {
        proof {
            assert(all.take(i + 1).drop_last() =~= all.take(i as int));
            assert(all.take(i + 1).last() == syncs@[i as int]@);
        }
        if found.is_none() && syncs[i].0 == ballot {
            found = Some(syncs[i].1.dup());
        }
        i = i + 1;
    }
    proof {
        assert(all.take(all.len() as int) =~= all);
    }
    found
}

/// The place of every record at ACCEPT or beyond: it was adopted, and its
/// leader's number is not kept.
fn gather_adopted(table: &CommandTable) -> (r: OrdMap<CommandId, (u64, bool)>)
    ensures
        r@ == Map::new(
            |c: CommandId|
                table@.records.contains_key(c) && table@.records[c].payload is Some
                    && table@.records[c].phase.rank() >= Phase::Accept.rank(),
            |c: CommandId| (u64::MAX, true),
        ),
{
    let ghost goal = Map::new(
        |c: CommandId|
            table@.records.contains_key(c) && table@.records[c].payload is Some
                && table@.records[c].phase.rank() >= Phase::Accept.rank(),
        |c: CommandId| (u64::MAX, true),
    );
    let commands = table.records();
    let size: usize = table.len();
    let ghost known = table@.records.dom().filter(|c: CommandId| table@.initialized(c));
    let ghost order = commands@;
    let mut out: OrdMap<CommandId, (u64, bool)> = OrdMap::new();
    let mut i: usize = 0;
    proof {
        lemma_in_order::<CommandId>(known);
        assert(out@ =~= goal.restrict(order.take(0).to_set()));
    }
    while i < commands.len()
        invariant
            i <= commands@.len(),
            order == commands@,
            known == table@.records.dom().filter(|c: CommandId| table@.initialized(c)),
            forall|c: CommandId| #[trigger] order.contains(c) <==> known.contains(c),
            goal == Map::new(
                |c: CommandId|
                    table@.records.contains_key(c) && table@.records[c].payload is Some
                        && table@.records[c].phase.rank() >= Phase::Accept.rank(),
                |c: CommandId| (u64::MAX, true),
            ),
            out@ == goal.restrict(order.take(i as int).to_set()),
        decreases commands@.len() - i,
    {
        let c = commands[i];
        proof {
            assert(order.contains(order[i as int]));
            lemma_take_set(order, i as int);
        }
        if has_reached(table.phase_of(&c), Phase::Accept) {
            out.insert(c, (u64::MAX, true));
        }
        proof {
            assert(out@ =~= goal.restrict(order.take(i + 1).to_set()));
        }
        i = i + 1;
    }
    proof {
        assert(order.take(order.len() as int) =~= order);
        assert(out@ =~= goal) by {
            assert forall|c: CommandId| goal.contains_key(c) implies order.to_set().contains(c) by {
                assert(known.contains(c));
                assert(order.contains(c));
            }
        }
    }
    out
}

impl Follower {
    /// A fresh follower with nothing durable.
    pub fn new<H: Fn(HashDomain, Vec<Vec<u8>>) -> Digest32>(hash: &H, config: FollowerConfig) -> (r:
        Self)
        requires
            is_hash(*hash),
        ensures
            r@ == FollowerView::recovered(
                *hash,
                config@,
                None,
                None,
                Seq::empty(),
                Seq::empty(),
                Seq::empty(),
                ExecutionPosition(0),
            ),
    {
        let rows: Vec<(CommandId, CommandRecord)> = Vec::new();
        let payloads: Vec<(CommandId, PayloadRecordV1)> = Vec::new();
        proof {
            assert(views(rows@) =~= Seq::empty());
            assert(views(payloads@) =~= Seq::empty());
        }
        Follower::recover(hash, config, None, rows, payloads, ExecutionPosition(0))
    }

    /// A follower from its configuration, the recovered promise row, the
    /// durable dependency rows of the epoch and the durable payload rows.
    ///
    /// The payload rows carry the retry key each command was derived from,
    /// so the one-key-one-payload binding survives a restart. The learner
    /// resumes from `executed_through`, the application's durable execution
    /// position. Recovers *unsealed*: a replica whose configuration may have
    /// been sealed comes back through [`Follower::recover_with_syncs`].
    pub fn recover<H: Fn(HashDomain, Vec<Vec<u8>>) -> Digest32>(
        hash: &H,
        config: FollowerConfig,
        durable_promise: Option<PromiseRecordV1>,
        rows: Vec<(CommandId, CommandRecord)>,
        payloads: Vec<(CommandId, PayloadRecordV1)>,
        executed_through: ExecutionPosition,
    ) -> (r: Self)
        requires
            is_hash(*hash),
        ensures
            r@ == FollowerView::recovered(
                *hash,
                config@,
                durable_promise,
                None,
                views(rows@),
                views(payloads@),
                Seq::empty(),
                executed_through,
            ),
    {
        let syncs: Vec<(Ballot, SyncDecision)> = Vec::new();
        proof {
            assert(views(syncs@) =~= Seq::empty());
        }
        Follower::recover_with_syncs(
            hash,
            config,
            durable_promise,
            None,
            rows,
            payloads,
            syncs,
            executed_through,
        )
    }

    /// Recover with the epoch's durable Sync rows as well. The row of the
    /// ballot this replica synchronized to is the selection it accepted: its
    /// installation resumes here, so a restart between the marker and the
    /// last installed entry cannot report a completed synchronization over
    /// an incomplete ledger.
    pub fn recover_with_syncs<H: Fn(HashDomain, Vec<Vec<u8>>) -> Digest32>(
        hash: &H,
        config: FollowerConfig,
        durable_promise: Option<PromiseRecordV1>,
        durable_seal: Option<SealRecordV1>,
        rows: Vec<(CommandId, CommandRecord)>,
        payloads: Vec<(CommandId, PayloadRecordV1)>,
        syncs: Vec<(Ballot, SyncDecision)>,
        executed_through: ExecutionPosition,
    ) -> (r: Self)
        requires
            is_hash(*hash),
        ensures
            r@ == FollowerView::recovered(
                *hash,
                config@,
                durable_promise,
                durable_seal,
                views(rows@),
                views(payloads@),
                views(syncs@),
                executed_through,
            ),
    {
        let ghost given = config@;
        let ballots = BallotState::recover_sealed(
            config.identity.dup(),
            config.genesis,
            durable_promise,
            durable_seal,
        );
        let resumed = find_selection(&syncs, ballots.synced());
        let kept = gather_payloads(&payloads);
        let bindings = gather_bindings(&kept);
        let served_payloads = set_of(&kept.keys());
        let ledger = DurableLedger::restore(dup_all(&rows));
        let table = CommandTable::restore(hash, Some(config.capacity), rows);
        let adopted = gather_adopted(&table);
        proof {
            lemma_in_order::<CommandId>(kept@.dom());
        }
        let mut r = Follower {
            replay: EvidenceStore::new(config.capacity),
            config,
            boot: None,
            ballots,
            table,
            bindings,
            held: OrdMap::new(),
            adopted,
            pending: OrdMap::new(),
            deferred: OrdMap::new(),
            votes: OrdMap::new(),
            payloads: kept,
            durable_payloads: OrdMap::new(),
            served_payloads,
            payload_cursor: 0,
            payloads_answered: 0,
            payloads_asked: OrdSet::new(),
            ledger,
            learner: Learner::new(executed_through),
            campaign: None,
            behind: None,
            report_due: None,
            sync_pending: OrdMap::new(),
            sync_barrier: None,
            won: None,
            awaiting_sync: Vec::new(),
            early_sync: None,
            rejections: Vec::new(),
        };
        let ghost base = r@;
        proof {
            let bare = FollowerView::recovered(
                *hash,
                given,
                durable_promise,
                durable_seal,
                views(rows@),
                views(payloads@),
                Seq::empty(),
                executed_through,
            );
            assert(r.awaiting_sync@ =~= Seq::empty());
            assert(r.rejections@ =~= Seq::empty());
            assert(base =~= bare);
        }
        if let Some(decision) = resumed {
            r.resume_sync(hash, &decision);
        }
        r
    }

    /// Queue the entries of a resumed selection that this replica has not
    /// installed yet. Installation itself waits for boot, like everything
    /// else that needs a barrier.
    fn resume_sync<H: Fn(HashDomain, Vec<Vec<u8>>) -> Digest32>(
        &mut self,
        hash: &H,
        decision: &SyncDecision,
    )
        requires
            is_hash(*hash),
        ensures
            final(self)@ == old(self)@.requeued(
                *hash,
                decision@.entries,
                in_order::<CommandId>(decision@.entries.dom()),
            ),
    {
        let ghost start = self@;
        let ghost d = decision@;
        let ghost order = in_order::<CommandId>(d.entries.dom());
        let n: usize = decision.entries.len();
        let mut i: usize = 0;
        proof {
            lemma_in_order::<CommandId>(d.entries.dom());
            assert(order.take(0) =~= Seq::<CommandId>::empty());
        }
        while i < n
            invariant
                is_hash(*hash),
                i <= n == d.entries.dom().len(),
                d == decision@,
                order == in_order::<CommandId>(d.entries.dom()),
                order.len() == n,
                self@ == start.requeued(*hash, d.entries, order.take(i as int)),
            decreases n - i,
        {
            let c = *decision.entries.key_at(i);
            let e = decision.entries.value_at(i).dup();
            proof {
                assert(order.take(i + 1).drop_last() =~= order.take(i as int));
                assert(order.take(i + 1).last() == c);
            }
            if self.table.phase_of(&c).is_none() {
                let _ = self.table.expect(hash, c);
            }
            if !has_reached(self.table.phase_of(&c), Phase::Commit) {
                self.sync_pending.insert(c, e);
            }
            proof {
                assert(self@ =~= start.requeued(*hash, d.entries, order.take(i + 1)));
            }
            i = i + 1;
        }
        proof {
            assert(order.take(n as int) =~= order);
        }
    }

    /// Restore the durable execution frontier: the commands whose executed
    /// identity rows exist are marked executed and the learner resumes after
    /// `through`. Called before boot on a recovered follower. The executed
    /// records are then retired, in the order they executed, and what that
    /// leaves forgotten is swept.
    pub fn restore_execution(self, through: ExecutionPosition, executed: &Vec<CommandId>) -> (r: Self)
        ensures
            r@ == self@.execution_restored(through, executed@),
    {
        let mut r = self;
        let ghost start = r@;
        let mut i: usize = 0;
        proof {
            assert(executed@.take(0) =~= Seq::<CommandId>::empty());
        }
        while i < executed.len()
            invariant
                i <= executed@.len(),
                r@ == start.with_executed(executed@.take(i as int)),
            decreases executed@.len() - i,
        {
            let c = executed[i];
            proof {
                assert(executed@.take(i + 1).drop_last() =~= executed@.take(i as int));
                assert(executed@.take(i + 1).last() == c);
            }
            r.table.restore_executed(&c);
            if !r.adopted.contains_key(&c) {
                r.adopted.insert(c, (u64::MAX, true));
            }
            proof {
                assert(r@ =~= start.with_executed(executed@.take(i + 1)));
            }
            i = i + 1;
        }
        let ghost marked = r@;
        let mut k: usize = 0;
        proof {
            assert(executed@.take(executed@.len() as int) =~= executed@);
        }
        while k < executed.len()
            invariant
                k <= executed@.len(),
                r@ == marked.with_retired(executed@.take(k as int)),
            decreases executed@.len() - k,
        {
            let c = executed[k];
            proof {
                assert(executed@.take(k + 1).drop_last() =~= executed@.take(k as int));
                assert(executed@.take(k + 1).last() == c);
            }
            let _ = r.table.retire(&c);
            proof {
                assert(r@ =~= marked.with_retired(executed@.take(k + 1)));
            }
            k = k + 1;
        }
        r.sweep_history();
        let mode = r.learner.mode();
        r.learner = Learner::with_mode(through, mode);
        proof {
            lemma_restoring_keeps_the_mode(start, executed@);
            assert(r@ =~= start.execution_restored(through, executed@));
        }
        r
    }

    /// Restore the durable payloads of recovered commands (their payload
    /// rows, written in the same batch as the dependency row) so the
    /// materializer and payload requests are served after a restart. Called
    /// before boot; unknown commands are ignored, and history stays swept.
    pub fn restore_payloads(self, payloads: &Vec<(CommandId, PayloadRecordV1)>) -> (r: Self)
        ensures
            r@ == self@.payloads_restored(views(payloads@)),
    {
        let mut r = self;
        let ghost start = r@;
        let ghost all = views(payloads@);
        let mut i: usize = 0;
        proof {
            assert(all.take(0) =~= Seq::<(CommandId, PayloadView)>::empty());
        }
        while i < payloads.len()
            invariant
                i <= payloads@.len(),
                all == views(payloads@),
                r@ == start.payloads_restored(all.take(i as int)),
            decreases payloads@.len() - i,
        {
            let c = payloads[i].0;
            proof {
                assert(all.take(i + 1).drop_last() =~= all.take(i as int));
                assert(all.take(i + 1).last() == payloads@[i as int]@);
            }
            if r.table.phase_of(&c).is_some() {
                r.bindings.insert(payloads[i].1.retry_key, c);
                if !r.table.forgotten(&c) {
                    let payload = payloads[i].1.dup();
                    r.payloads.insert(c, payload);
                    r.served_payloads.insert(c);
                }
            }
            proof {
                assert(r@ =~= start.payloads_restored(all.take(i + 1)));
            }
            i = i + 1;
        }
        proof {
            assert(all.take(all.len() as int) =~= all);
        }
        r
    }

    /// A follower from state carried across a role change, under `quorum`. A
    /// report owed to a candidate is an obligation of the replica, not of
    /// the role it held when the request arrived.
    pub fn from_recovered(state: RecoveredState, quorum: BallotConfiguration) -> (r: Self)
        ensures
            r@ == FollowerView::taking_over(state@, quorum@),
    {
        let ghost given = state@;
        let genesis = quorum.ballot();
        let r = Follower {
            replay: EvidenceStore::new(state.capacity),
            config: FollowerConfig {
                identity: state.identity,
                genesis,
                quorum,
                frontend: state.frontend,
                capacity: state.capacity,
            },
            boot: state.boot,
            ballots: state.ballots,
            table: state.table,
            bindings: state.bindings,
            held: OrdMap::new(),
            adopted: OrdMap::new(),
            pending: OrdMap::new(),
            deferred: OrdMap::new(),
            votes: OrdMap::new(),
            payloads: state.payloads,
            durable_payloads: OrdMap::new(),
            served_payloads: state.served_payloads,
            payload_cursor: 0,
            payloads_answered: 0,
            payloads_asked: OrdSet::new(),
            ledger: state.ledger,
            learner: state.learner,
            campaign: None,
            behind: None,
            report_due: state.report_due,
            sync_pending: OrdMap::new(),
            sync_barrier: None,
            won: None,
            awaiting_sync: Vec::new(),
            early_sync: None,
            rejections: Vec::new(),
        };
        proof {
            assert(r.awaiting_sync@ =~= Seq::empty());
            assert(r.rejections@ =~= Seq::empty());
            assert(r@ =~= FollowerView::taking_over(given, quorum@));
        }
        r
    }

    /// Give up the role: everything durable or learned, nothing
    /// ballot-scoped.
    pub fn into_recovered(self) -> (r: RecoveredState)
        ensures
            r@ == self@.given_up(),
    {
        let ghost before = self@;
        let r = RecoveredState {
            identity: self.config.identity,
            ballots: self.ballots,
            table: self.table,
            ledger: self.ledger,
            payloads: self.payloads,
            bindings: self.bindings,
            served_payloads: self.served_payloads,
            learner: self.learner,
            boot: self.boot,
            report_due: self.report_due,
            frontend: self.config.frontend,
            capacity: self.config.capacity,
        };
        proof {
            assert(r@ =~= before.given_up());
        }
        r
    }

    /// The current ballot configuration.
    pub fn quorum(&self) -> (r: &BallotConfiguration)
        ensures
            r@ == self@.config.quorum,
    {
        &self.config.quorum
    }

    /// The Sync this replica selected and activated as the new leader, if
    /// its campaign won.
    pub fn won(&self) -> (r: Option<&SyncDecision>)
        ensures
            r is Some <==> self@.won is Some,
            r is Some ==> r->0@ == self@.won->0,
    {
        match &self.won {
            Some(d) => Some(d),
            None => None,
        }
    }

    /// The campaign in progress.
    pub fn campaign_state(&self) -> (r: Option<&Campaign>)
        ensures
            r is Some <==> self@.campaign is Some,
            r is Some ==> r->0@ == self@.campaign->0,
    {
        match &self.campaign {
            Some(c) => Some(c),
            None => None,
        }
    }

    /// The next command to execute through the materializer, if any.
    pub fn next_executable(&self) -> (r: Option<CommandId>)
        ensures
            is_next(
                self@.table,
                |c: CommandId|
                    if self@.adopted.contains_key(c) {
                        Some(self@.adopted[c].0)
                    } else {
                        None
                    },
                r,
            ),
    {
        let seqnum_of = |c: CommandId| -> (n: Option<u64>)
            ensures
                n == (if self@.adopted.contains_key(c) {
                    Some(self@.adopted[c].0)
                } else {
                    None
                }),
            {
                match self.adopted.get(&c) {
                    Some(p) => Some(p.0),
                    None => None,
                }
            };
        let r = self.learner.next_executable(&self.table, &seqnum_of);
        proof {
            let seqs = |c: CommandId|
                if self@.adopted.contains_key(c) {
                    Some(self@.adopted[c].0)
                } else {
                    None
                };
            assert(crate::learner::numbers(seqnum_of, seqs));
        }
        r
    }

    /// The durable ledger (journal-durable records only).
    pub fn ledger(&self) -> (r: &DurableLedger)
        ensures
            r@ == self@.ledger,
    {
        &self.ledger
    }

    /// How many payload transfers a peer has answered this replica with,
    /// counting only answers to the outstanding ask, each once.
    pub fn payloads_answered(&self) -> (r: u64)
        ensures
            r == self@.payloads_answered,
    {
        self.payloads_answered
    }

    /// The durable payload of an initialized command.
    pub fn payload(&self, command: &CommandId) -> (r: Option<&PayloadRecordV1>)
        ensures
            r is Some <==> self@.payloads.contains_key(*command),
            r is Some ==> r->0@ == self@.payloads[*command],
    {
        self.payloads.get(command)
    }

    /// The execution frontier.
    pub fn executed_through(&self) -> (r: ExecutionPosition)
        ensures
            r == self@.learner.executed_through,
    {
        self.learner.executed_through()
    }

    /// Choose the learning predicates (full, or the forced slow path for
    /// comparison runs); carried across role changes and restarts.
    pub fn set_learning(&mut self, mode: LearningMode)
        ensures
            final(self)@ == (FollowerView {
                learner: LearnerView { mode, ..old(self)@.learner },
                ..old(self)@
            }),
    {
        self.learner.set_mode(mode);
    }

    /// The learning mode in effect.
    pub fn learning(&self) -> (r: LearningMode)
        ensures
            r == self@.learner.mode,
    {
        self.learner.mode()
    }

    /// The command table.
    pub fn table(&self) -> (r: &CommandTable)
        ensures
            r@ == self@.table,
    {
        &self.table
    }

    /// The promise state.
    pub fn ballots(&self) -> (r: &BallotState)
        ensures
            r@ == self@.ballots,
    {
        &self.ballots
    }

    /// Proposals held for a payload or lagging dependencies.
    pub fn held(&self) -> (r: &OrdMap<CommandId, HeldProposal>)
        ensures
            r@ == self@.held,
    {
        &self.held
    }

    /// Collected acknowledgements for a command.
    pub fn votes(&self, command: &CommandId) -> (r: Option<&VoteSet>)
        ensures
            r is Some <==> self@.votes.contains_key(*command),
            r is Some ==> r->0@ == self@.votes[*command],
    {
        self.votes.get(command)
    }

    /// Take the rejections recorded since the last call.
    pub fn take_rejections(&mut self) -> (r: Vec<FollowerRejection>)
        ensures
            views(r@) == old(self)@.rejections,
            final(self)@ == (FollowerView { rejections: Seq::empty(), ..old(self)@ }),
    {
        let mut taken: Vec<FollowerRejection> = Vec::new();
        std::mem::swap(&mut taken, &mut self.rejections);
        proof {
            assert(self@ =~= (FollowerView { rejections: Seq::empty(), ..old(self)@ }));
        }
        taken
    }

    /// How often `command`'s evidence has been published again this boot
    /// (diagnostic).
    pub fn evidence_repairs(&self, command: &CommandId) -> (r: u32)
        ensures
            r == self@.replay.repairs_of(*command),
    {
        self.replay.repairs_of(command)
    }
}

proof fn lemma_restoring_keeps_the_mode(state: FollowerView, executed: Seq<CommandId>)
    ensures
        state.with_executed(executed).learner == state.learner,
        state.with_retired(executed).learner == state.learner,
        state.with_executed(executed).with_retired(executed).learner == state.learner,
    decreases executed.len(),
{
    if executed.len() > 0 {
        lemma_restoring_keeps_the_mode(state, executed.drop_last());
    }
    lemma_retiring_keeps_the_mode(state.with_executed(executed), executed);
}

proof fn lemma_retiring_keeps_the_mode(state: FollowerView, executed: Seq<CommandId>)
    ensures
        state.with_retired(executed).learner == state.learner,
    decreases executed.len(),
{
    if executed.len() > 0 {
        lemma_retiring_keeps_the_mode(state, executed.drop_last());
    }
}

/// What ordering, installing and learning leave alone: the promise state, the
/// retry-key bindings, the payloads and who this replica is.
pub open spec fn steady(a: FollowerView, b: FollowerView) -> bool {
    &&& b.ballots == a.ballots
    &&& b.bindings == a.bindings
    &&& b.payloads == a.payloads
    &&& b.payloads_answered == a.payloads_answered
    &&& b.payloads_asked == a.payloads_asked
    &&& b.config.identity == a.config.identity
    &&& b.held.dom().finite()
    &&& b.sync_pending.dom().finite()
}

/// The parts of a follower that a walk goes over are finite.
pub open spec fn walkable(state: FollowerView) -> bool {
    state.held.dom().finite() && state.sync_pending.dom().finite()
}

proof fn lemma_adopt_each_steady<H: Fn(HashDomain, Vec<Vec<u8>>) -> Digest32>(
    state: FollowerView,
    hash: H,
    cs: Seq<CommandId>,
)
    requires
        walkable(state),
    ensures
        steady(state, state.adopt_each(hash, cs).0),
    decreases cs.len(),
{
    if cs.len() > 0 {
        lemma_adopt_each_steady(state, hash, cs.drop_last());
        let before = state.adopt_each(hash, cs.drop_last()).0;
        assert(before.held.remove(cs.last()).dom() =~= before.held.dom().remove(cs.last()));
    }
}

proof fn lemma_adopt_rounds_steady<H: Fn(HashDomain, Vec<Vec<u8>>) -> Digest32>(
    state: FollowerView,
    hash: H,
)
    requires
        walkable(state),
    ensures
        steady(state, state.adopt_rounds(hash).0),
    decreases state.held.dom().len(),
{
    let cs = in_order::<CommandId>(state.adoptable());
    if cs.len() > 0 {
        lemma_adopt_each_steady(state, hash, cs);
        lemma_adopt_round(state, hash);
        lemma_adopt_rounds_steady(state.adopt_each(hash, cs).0, hash);
    }
}

proof fn lemma_install_each_steady<H: Fn(HashDomain, Vec<Vec<u8>>) -> Digest32>(
    state: FollowerView,
    hash: H,
    cs: Seq<CommandId>,
)
    requires
        walkable(state),
    ensures
        steady(state, state.install_each(hash, cs).0),
    decreases cs.len(),
{
    if cs.len() > 0 {
        lemma_install_each_steady(state, hash, cs.drop_last());
        let before = state.install_each(hash, cs.drop_last()).0;
        assert(before.sync_pending.remove(cs.last()).dom() =~= before.sync_pending.dom().remove(
            cs.last(),
        ));
    }
}

proof fn lemma_install_rounds_steady<H: Fn(HashDomain, Vec<Vec<u8>>) -> Digest32>(
    state: FollowerView,
    hash: H,
)
    requires
        walkable(state),
    ensures
        steady(state, state.install_rounds(hash).0),
    decreases state.sync_pending.dom().len(),
{
    let cs = in_order::<CommandId>(state.installable());
    if cs.len() > 0 {
        lemma_install_each_steady(state, hash, cs);
        lemma_install_round(state, hash);
        lemma_install_rounds_steady(state.install_each(hash, cs).0, hash);
    }
}

proof fn lemma_proposal_steady<H: Fn(HashDomain, Vec<Vec<u8>>) -> Digest32>(
    state: FollowerView,
    hash: H,
    from: ReplicaId,
    p: FastAckView,
)
    requires
        walkable(state),
    ensures
        steady(state, state.proposal_received(hash, from, p).0),
{
    let open = FollowerView { adopted: state.adopted.remove(p.command), ..state };
    let ordered = open.with_order(hash, p);
    let held = ordered.holding(p);
    assert(held.held.dom() =~= ordered.held.dom().insert(p.command));
    lemma_adopt_rounds_steady(ordered, hash);
    lemma_adopt_rounds_steady(held, hash);
}

proof fn lemma_replayed_steady<H: Fn(HashDomain, Vec<Vec<u8>>) -> Digest32>(
    state: FollowerView,
    hash: H,
    messages: Seq<(ReplicaId, MessageView)>,
)
    requires
        walkable(state),
    ensures
        steady(state, state.replayed(hash, messages).0),
    decreases messages.len(),
{
    if messages.len() > 0 {
        lemma_replayed_steady(state, hash, messages.drop_last());
        let before = state.replayed(hash, messages.drop_last()).0;
        match messages.last().1 {
            MessageView::Proposal(p) => {
                lemma_proposal_steady(before, hash, messages.last().0, p);
            },
            _ => {},
        }
    }
}

proof fn lemma_queued_steady<H: Fn(HashDomain, Vec<Vec<u8>>) -> Digest32>(
    state: FollowerView,
    hash: H,
    entries: Map<CommandId, SyncEntryView>,
    order: Seq<CommandId>,
)
    requires
        walkable(state),
    ensures
        steady(state, state.queued(hash, entries, order)),
    decreases order.len(),
{
    if order.len() > 0 {
        lemma_queued_steady(state, hash, entries, order.drop_last());
        let before = state.queued(hash, entries, order.drop_last());
        assert(before.sync_pending.insert(order.last(), entries[order.last()]).dom()
            =~= before.sync_pending.dom().insert(order.last()));
    }
}

proof fn lemma_activated_steady<H: Fn(HashDomain, Vec<Vec<u8>>) -> Digest32>(
    state: FollowerView,
    hash: H,
    d: SyncView,
)
    requires
        walkable(state),
    ensures
        steady(state, state.activated(hash, d).0),
{
    let switched = state.switched(d);
    assert(switched.held.dom() =~= Set::empty());
    let order = in_order::<CommandId>(d.entries.dom());
    lemma_queued_steady(switched, hash, d.entries, order);
    let queued = switched.queued(hash, d.entries, order);
    lemma_install_rounds_steady(queued, hash);
    let installed = queued.sync_advanced(hash).0;
    lemma_replayed_steady(
        FollowerView { awaiting_sync: Seq::empty(), ..installed },
        hash,
        installed.awaiting_sync,
    );
}

/// What a promise state keeps while a Sync is handled: everything but the
/// synchronized ballot.
pub open spec fn promise_kept(a: FollowerView, b: FollowerView) -> bool {
    &&& b.ballots == (BallotView { synced: b.ballots.synced, ..a.ballots })
    &&& b.bindings == a.bindings
    &&& b.payloads == a.payloads
    &&& b.payloads_answered == a.payloads_answered
    &&& b.config.identity == a.config.identity
    &&& walkable(b)
}

proof fn lemma_sync_received_keeps<H: Fn(HashDomain, Vec<Vec<u8>>) -> Digest32>(
    state: FollowerView,
    hash: H,
    from: ReplicaId,
    d: SyncView,
)
    requires
        walkable(state),
    ensures
        promise_kept(state, state.sync_received(hash, from, d).0),
{
    lemma_activated_steady(state, hash, d);
}

proof fn lemma_campaign_keeps<H: Fn(HashDomain, Vec<Vec<u8>>) -> Digest32>(
    state: FollowerView,
    hash: H,
)
    requires
        walkable(state),
    ensures
        promise_kept(state, state.campaign_advanced(hash).0),
{
    if state.boot is Some && state.campaign is Some {
        let chosen = FollowerView {
            campaign: Some(state.campaign->0.after_selection(hash)),
            ..state
        };
        let d = chosen.campaign->0.decision->0;
        lemma_sync_received_keeps(
            FollowerView {
                campaign: Some(CampaignView { published: true, ..chosen.campaign->0 }),
                ..chosen
            },
            hash,
            d.ballot.leader,
            d,
        );
    }
}

proof fn lemma_report_delivered_keeps<H: Fn(HashDomain, Vec<Vec<u8>>) -> Digest32>(
    state: FollowerView,
    hash: H,
)
    requires
        walkable(state),
    ensures
        promise_kept(state, state.report_delivered(hash).0),
{
    if state.report_due is Some {
        let due = state.report_due->0;
        let cleared = FollowerView { report_due: None, ..state };
        let told = if state.campaign is Some && state.campaign->0.config.ballot == due.ballot {
            FollowerView {
                campaign: Some(state.campaign->0.with_own(state.report(due.ballot))),
                ..cleared
            }
        } else {
            cleared
        };
        lemma_campaign_keeps(told, hash);
    }
}

proof fn lemma_batch_settled_keeps(state: FollowerView, event: StorageEvent)
    requires
        walkable(state),
    ensures
        steady(state, state.batch_settled(event)),
        state.batch_settled(event).campaign == state.campaign,
{
}

#[verifier::rlimit(40)]
proof fn lemma_event_stored_keeps<H: Fn(HashDomain, Vec<Vec<u8>>) -> Digest32>(
    state: FollowerView,
    hash: H,
    event: StorageEvent,
)
    requires
        walkable(state),
    ensures
        promise_kept(state.noted(event), state.event_stored(hash, event).0),
{
    let noted = state.noted(event);
    if noted.about_sync(event) {
        let d = (noted.sync_barrier->0).1;
        lemma_activated_steady(FollowerView { sync_barrier: None, ..noted }, hash, d);
    } else {
        lemma_batch_settled_keeps(noted, event);
        let settled = noted.batch_settled(event);
        let bound = FollowerView {
            campaign: Some(CampaignView { durable: true, ..settled.campaign->0 }),
            ..settled
        };
        lemma_campaign_keeps(bound, hash);
        let advanced = if settled.binds(event) {
            bound.campaign_advanced(hash).0
        } else {
            settled
        };
        lemma_report_delivered_keeps(advanced, hash);
    }
}

/// Whatever storage reports, the promised ballot never goes down, a sealed
/// configuration stays sealed, and no retry key changes its command.
pub proof fn lemma_storage_never_lowers_the_promise<
    H: Fn(HashDomain, Vec<Vec<u8>>) -> Digest32,
>(state: FollowerView, hash: H, event: StorageEvent)
    requires
        walkable(state),
        state.ballots.sound(),
    ensures
        ({
            let next = state.stored(hash, event).0;
            &&& next.ballots.promised == state.ballots.promised || supersedes(
                next.ballots.promised,
                state.ballots.promised,
            )
            &&& state.ballots.sealed is Some ==> next.ballots.sealed is Some
            &&& next.bindings == state.bindings
            &&& walkable(next)
        }),
{
    crate::ballot::lemma_promise_never_lowered(state.ballots, event);
    lemma_event_stored_keeps(state, hash, event);
    let next = state.event_stored(hash, event).0;
    if next.early_sync is Some && (next.early_sync->0).1.ballot == next.ballots.promised {
        let (leader, d) = next.early_sync->0;
        lemma_sync_received_keeps(FollowerView { early_sync: None, ..next }, hash, leader, d);
    }
}

proof fn lemma_requested_bindings<H: Fn(HashDomain, Vec<Vec<u8>>) -> Digest32>(
    state: FollowerView,
    hash: H,
    c: CommandId,
    payload: PayloadView,
    key: RetryKey,
)
    requires
        walkable(state),
        state.bindings.contains_key(key),
    ensures
        state.requested(hash, c, payload).0.bindings.contains_key(key),
        state.requested(hash, c, payload).0.bindings[key] == state.bindings[key],
{
    lemma_requested_keeps(state, hash, c, payload);
}

proof fn lemma_requested_keeps<H: Fn(HashDomain, Vec<Vec<u8>>) -> Digest32>(
    state: FollowerView,
    hash: H,
    c: CommandId,
    payload: PayloadView,
)
    requires
        walkable(state),
    ensures
        ({
            let next = state.requested(hash, c, payload).0;
            &&& walkable(next)
            &&& next.bindings == state.bindings || (!state.bindings.contains_key(payload.retry_key)
                && next.bindings == state.bindings.insert(payload.retry_key, c))
            &&& next.payloads == state.payloads || next.payloads == state.payloads.insert(
                c,
                payload,
            )
            &&& next.payloads_answered == state.payloads_answered
            &&& next.payloads_asked == state.payloads_asked
            &&& state.boot is Some && !state.bindings.contains_key(payload.retry_key)
                && state.table.init_refusal(c, payload.admitted(hash)) is None ==> next.bindings
                == state.bindings.insert(payload.retry_key, c) && next.payloads
                == state.payloads.insert(c, payload)
        }),
{
    let digest = payload.admitted(hash);
    let room = FollowerView { table: state.table.opened(c), ..state };
    match state.table.init_refusal(c, digest) {
        Some(InitError::Backpressure) => {
            lemma_adopt_rounds_steady(room.rejected(RefusalView::Backpressure), hash);
        },
        None => {
            if state.boot is Some {
                let table = room.table.with_initialized(hash, c, digest, conservative_keys());
                let barrier = state.barrier();
                let ack = state.fast_ack(c, table, digest);
                let staged = state.voting(c, payload, table);
                let voted = if state.config.quorum.fast_eligible(state.config.identity.replica) {
                    FollowerView {
                        deferred: state.deferred.insert(
                            barrier,
                            DeferredView { command: c, vote: VoteView::Fast(ack) },
                        ),
                        ..staged
                    }.acknowledged(c, barrier, MessageView::FastAck(ack)).0
                } else {
                    staged
                };
                lemma_install_rounds_steady(voted, hash);
                lemma_adopt_rounds_steady(voted.sync_advanced(hash).0, hash);
            }
        },
        _ => {},
    }
}

/// One retry key binds one command, and the first presentation wins: no
/// admitted request, and no payload of a command not recorded yet, rebinds a
/// key.
pub proof fn lemma_first_presentation_wins<
    H: Fn(HashDomain, Vec<Vec<u8>>) -> Digest32,
    D: Fn(RetryKey, Vec<u8>) -> Option<Derived>,
>(
    state: FollowerView,
    hash: H,
    derive: D,
    request: Option<crate::machine::RequestView>,
    admission: Seq<u8>,
    c: CommandId,
    payload: PayloadView,
    key: RetryKey,
)
    requires
        walkable(state),
        state.bindings.contains_key(key),
        !state.table.initialized(c),
    ensures
        state.admitted(hash, request, admission).0.bindings.contains_key(key),
        state.admitted(hash, request, admission).0.bindings[key] == state.bindings[key],
        state.payload_received(hash, derive, c, payload).0.bindings.contains_key(key),
        state.payload_received(hash, derive, c, payload).0.bindings[key] == state.bindings[key],
{
    if request is Some {
        let q = request->0;
        lemma_requested_bindings(
            state,
            hash,
            q.command,
            PayloadView {
                retry_key: q.retry_key,
                logical: q.logical,
                admission: Some(admission),
                ack_through: q.ack_through,
            },
            key,
        );
    }
    lemma_requested_bindings(state, hash, c, payload, key);
}

/// A replica that may not vote adopts and acknowledges nothing: a proposal or
/// an admitted request changes nothing but the list of refusals, and a sealed
/// replica leaves what it holds where it is.
pub proof fn lemma_fenced_replica_votes_for_nothing<
    H: Fn(HashDomain, Vec<Vec<u8>>) -> Digest32,
>(
    state: FollowerView,
    hash: H,
    from: ReplicaId,
    p: FastAckView,
    request: Option<crate::machine::RequestView>,
    admission: Seq<u8>,
)
    requires
        !state.may_vote(),
    ensures
        ({
            let (next, said) = state.proposal_received(hash, from, p);
            &&& said.len() == 0
            &&& next == (FollowerView { rejections: next.rejections, ..state })
        }),
        ({
            let (next, said) = state.admitted(hash, request, admission);
            &&& said.len() == 0
            &&& next == (FollowerView { rejections: next.rejections, ..state })
        }),
        state.ballots.fenced() ==> state.pending_advanced(hash) == quiet(state.learned()),
{
}

/// A vote this replica produced counts only once the batch behind it is
/// durable: producing it adds nothing to the evidence, and the evidence grows
/// from a storage event only when that event makes the batch durable.
pub proof fn lemma_own_votes_wait_for_their_batch<
    H: Fn(HashDomain, Vec<Vec<u8>>) -> Digest32,
>(
    state: FollowerView,
    hash: H,
    c: CommandId,
    payload: PayloadView,
    table: TableView,
    event: StorageEvent,
)
    ensures
        state.adopt_one(hash, c).0.votes == state.votes,
        forall|x: CommandId| #[trigger]
            state.votes.contains_key(x) ==> state.voting(c, payload, table).votes[x]
                == state.votes[x],
        !state.votes.contains_key(c) ==> state.voting(c, payload, table).votes[c]
            == VoteSetView::empty(state.config.quorum, c),
        state.batch_settled(event).votes != state.votes ==> (event matches
            StorageEvent::JournalDurable { barrier, .. } && state.deferred.contains_key(barrier)
            && state.batch_settled(event).votes == state.votes.insert(
            state.deferred[barrier].command,
            state.votes[state.deferred[barrier].command].presented(state.deferred[barrier].vote),
        )),
{
}

/// Every acknowledgement waits for the batch it claims: what is published
/// with an adoption comes after the batch that writes it, and requires that
/// batch and every batch still outstanding.
pub proof fn lemma_acknowledgements_rest_on_their_batch<
    H: Fn(HashDomain, Vec<Vec<u8>>) -> Digest32,
>(state: FollowerView, hash: H, c: CommandId, i: int, open: BarrierId)
    requires
        state.pending.dom().finite(),
        0 <= i < state.adopt_one(hash, c).1.len(),
    ensures
        ({
            let effects = state.adopt_one(hash, c).1;
            &&& effects[0] is Persist
            &&& effects[0]->Persist_0.barrier == state.barrier()
            &&& i > 0 ==> effects[i] is Publish
            &&& i > 0 ==> effects[i]->Publish_0.requires_durable.contains(state.barrier())
            &&& i > 0 && state.pending.contains_key(open)
                ==> effects[i]->Publish_0.requires_durable.contains(open)
        }),
{
    let table = state.ordered(c);
    let record = table.records[c];
    let barrier = state.barrier();
    let ack = SlowAck {
        replica: state.config.identity.replica,
        ballot: state.config.quorum.ballot,
        command: c,
        admission: FollowerView::admission_in(hash, record.payload),
    };
    let base = FollowerView { held: state.held.remove(c), table, ..state };
    let staged = FollowerView {
        adopted: state.adopted.insert(
            c,
            (
                match state.held[c].seqnum {
                    Some(n) => n,
                    None => u64::MAX,
                },
                false,
            ),
        ),
        pending: state.pending.insert(barrier, Pending::Adoption(c)),
        ledger: LedgerView {
            staged: state.ledger.staged.insert(barrier, (c, record)),
            ..state.ledger
        },
        deferred: state.deferred.insert(
            barrier,
            DeferredView { command: c, vote: VoteView::Slow(ack) },
        ),
        ..base
    }.allocated();
    let effects = state.adopt_one(hash, c).1;
    let said = staged.acknowledged(c, barrier, MessageView::SlowAck(ack)).1;
    let waits = staged.waits_for(barrier);
    assert(staged.pending.dom() =~= state.pending.dom().insert(barrier));
    lemma_in_order::<BarrierId>(staged.pending.dom());
    assert(in_order::<BarrierId>(staged.pending.dom()).contains(barrier));
    assert(waits.contains(barrier));
    if state.pending.contains_key(open) {
        assert(waits.contains(open));
    }
    if i > 0 {
        assert(effects[i] == said[i - 1]);
        let context = staged.ballots.context(staged.boot->0.id, staged.config.quorum.ballot);
        let frame = frame_of(MessageView::SlowAck(ack));
        let to_voters = broadcast_of(context, waits, staged.config.identity, frame);
        if i - 1 < to_voters.len() {
            crate::machine::lemma_published_to(
                context,
                waits,
                in_order::<ReplicaId>(staged.config.identity.voters),
                staged.config.identity.replica,
                frame,
                i - 1,
            );
            assert(said[i - 1] == to_voters[i - 1]);
        }
    }
}

/// No payload ask names more than the bound, none leaves the missing set, and
/// each ask starts where the one before it stopped.
pub proof fn lemma_payload_asks_are_bounded(missing: Seq<CommandId>, cursor: usize, k: int)
    ensures
        payload_batch(missing, cursor).0.len() <= MAX_PAYLOAD_TRANSFER,
        payload_batch(missing, cursor).0.len() == missing.len() || missing.len()
            > MAX_PAYLOAD_TRANSFER && payload_batch(missing, cursor).0.len()
            == MAX_PAYLOAD_TRANSFER,
        0 <= k < payload_batch(missing, cursor).0.len() ==> missing.contains(
            payload_batch(missing, cursor).0[k],
        ),
        missing.len() > MAX_PAYLOAD_TRANSFER && cursor + MAX_PAYLOAD_TRANSFER <= usize::MAX
            ==> payload_batch(missing, cursor).1 == cursor as int % missing.len() as int
            + MAX_PAYLOAD_TRANSFER,
{
    let batch = payload_batch(missing, cursor).0;
    let n = missing.len() as int;
    if n > MAX_PAYLOAD_TRANSFER {
        let start = cursor as int % n;
        assert(0 <= start < n && start <= cursor) by (nonlinear_arith)
            requires
                n > 0,
                start == cursor as int % n,
                cursor >= 0,
        ;
        let rotated = missing.skip(start) + missing.take(start);
        if 0 <= k < batch.len() {
            if k < n - start {
                assert(batch[k] == missing[start + k]);
            } else {
                assert(batch[k] == missing[k - (n - start)]);
            }
        }
    } else if 0 <= k < batch.len() {
        assert(batch[k] == missing[k]);
    }
}

/// A peer is served at most the bound, however much it asks for.
pub proof fn lemma_payloads_served_are_bounded(
    state: FollowerView,
    boot: BootView,
    to: ReplicaId,
    commands: Seq<CommandId>,
)
    ensures
        payloads_served(state, boot, to, commands).len() <= MAX_PAYLOAD_TRANSFER,
    decreases commands.len(),
{
    if commands.len() > 0 {
        lemma_payloads_served_are_bounded(state, boot, to, commands.drop_last());
    }
}

/// Nothing of a new ballot happens before its synchronized row is durable:
/// a Sync of a ballot not synchronized yet leaves the ballot this replica
/// votes in, what it holds and what it adopted as they are, and publishes
/// nothing.
pub proof fn lemma_sync_waits_for_its_row<H: Fn(HashDomain, Vec<Vec<u8>>) -> Digest32>(
    state: FollowerView,
    hash: H,
    from: ReplicaId,
    d: SyncView,
    i: int,
)
    requires
        state.ballots.synced != d.ballot,
    ensures
        ({
            let (next, said) = state.sync_received(hash, from, d);
            &&& next.config == state.config
            &&& next.held == state.held
            &&& next.adopted == state.adopted
            &&& next.votes == state.votes
            &&& next.table == state.table
            &&& 0 <= i < said.len() ==> said[i] is Persist
        }),
{
}

/// A report names every command this replica has a durable record with a
/// payload of, and every selected entry still to be installed, unless it is
/// history here; it names nothing else.
pub proof fn lemma_report_is_complete(state: FollowerView, ballot: Ballot, c: CommandId)
    requires
        state.ledger.records.dom().finite(),
        state.sync_pending.dom().finite(),
    ensures
        ({
            let entries = state.report(ballot).entries;
            (exists|i: int| 0 <= i < entries.len() && (#[trigger] entries[i]).command == c) <==> (
            state.ledger.records.contains_key(c) && state.ledger.records[c].payload is Some
                || state.sync_pending.contains_key(c)) && !is_history(state.table, c)
        }),
{
    let order = in_order::<CommandId>(state.reported());
    let entries = state.report(ballot).entries;
    lemma_in_order::<CommandId>(state.reported());
    if state.reported().contains(c) {
        assert(order.contains(c));
        let i = choose|i: int| 0 <= i < order.len() && order[i] == c;
        assert(entries[i].command == c);
    }
    if exists|i: int| 0 <= i < entries.len() && (#[trigger] entries[i]).command == c {
        let i = choose|i: int| 0 <= i < entries.len() && (#[trigger] entries[i]).command == c;
        assert(entries[i].command == order[i]);
        assert(order.contains(order[i]));
    }
}

/// A payload is fetched, never made up: what an answer adds is the answered
/// payload under its own command, and only where its identity derives to that
/// command.
pub proof fn lemma_payloads_are_never_made_up<
    H: Fn(HashDomain, Vec<Vec<u8>>) -> Digest32,
    D: Fn(RetryKey, Vec<u8>) -> Option<Derived>,
>(state: FollowerView, hash: H, derive: D, c: CommandId, payload: PayloadView)
    requires
        walkable(state),
    ensures
        ({
            let next = state.payload_answered(hash, derive, c, payload).0;
            next.payloads == state.payloads || (front_identity_of(
                derive,
                payload.retry_key,
                payload.logical,
            ) == Some(c) && !state.payloads.contains_key(c) && next.payloads
                == state.payloads.insert(c, payload))
        }),
{
    lemma_requested_keeps(state, hash, c, payload);
    let taken = state.payload_received(hash, derive, c, payload).0;
    let counted = if state.payloads_asked.contains(c) && taken.payloads.contains_key(c) {
        FollowerView {
            payloads_asked: taken.payloads_asked.remove(c),
            payloads_answered: if taken.payloads_answered == u64::MAX {
                u64::MAX
            } else {
                (taken.payloads_answered + 1) as u64
            },
            ..taken
        }
    } else {
        taken
    };
    lemma_campaign_keeps(counted, hash);
}

/// A Sync counts only for the ballot this replica promised, and only from that
/// ballot's leader: any other is kept for a later promise or refused, and
/// nothing else changes.
pub proof fn lemma_sync_needs_the_promised_ballot<
    H: Fn(HashDomain, Vec<Vec<u8>>) -> Digest32,
>(state: FollowerView, hash: H, from: ReplicaId, d: SyncView)
    requires
        d.ballot != state.ballots.promised || from != d.ballot.leader,
    ensures
        ({
            let (next, said) = state.sync_received(hash, from, d);
            &&& said.len() == 0
            &&& next == (FollowerView {
                early_sync: next.early_sync,
                rejections: next.rejections,
                ..state
            })
        }),
{
}

/// A follower made from what another role gave up carries all of it: giving
/// the role up again hands over the same state.
pub proof fn lemma_follower_carries_everything(state: RecoveredView, quorum: ConfigView)
    ensures
        FollowerView::taking_over(state, quorum).given_up() == state,
{
}

/// An answer is counted once: the count grows by one exactly where the answer
/// is to an outstanding ask and its payload is held from here on, and that ask
/// is then no longer outstanding for the command, unless a campaign under way
/// asked anew.
pub proof fn lemma_answers_count_once<
    H: Fn(HashDomain, Vec<Vec<u8>>) -> Digest32,
    D: Fn(RetryKey, Vec<u8>) -> Option<Derived>,
>(state: FollowerView, hash: H, derive: D, c: CommandId, payload: PayloadView)
    requires
        walkable(state),
    ensures
        ({
            let next = state.payload_answered(hash, derive, c, payload).0;
            let first = state.payloads_asked.contains(c) && next.payloads.contains_key(c);
            &&& walkable(next)
            &&& next.payloads_answered == (if first && state.payloads_answered < u64::MAX {
                state.payloads_answered + 1
            } else {
                state.payloads_answered as int
            })
            &&& state.payload_received(hash, derive, c, payload).0.campaign is None
                ==> next.payloads_asked == (if first {
                state.payloads_asked.remove(c)
            } else {
                state.payloads_asked
            })
        }),
{
    lemma_requested_keeps(state, hash, c, payload);
    let taken = state.payload_received(hash, derive, c, payload).0;
    let counted = if state.payloads_asked.contains(c) && taken.payloads.contains_key(c) {
        FollowerView {
            payloads_asked: taken.payloads_asked.remove(c),
            payloads_answered: if taken.payloads_answered == u64::MAX {
                u64::MAX
            } else {
                (taken.payloads_answered + 1) as u64
            },
            ..taken
        }
    } else {
        taken
    };
    lemma_campaign_keeps(counted, hash);
}

/// Nothing is established unsealed: an application establishes the result of
/// its command where the evidence was sealed, and says nothing otherwise.
pub proof fn lemma_what_is_established_is_sealed(
    state: FollowerView,
    seal: Sealing,
    c: CommandId,
    outcome: OutcomeView,
)
    ensures
        ({
            let said = state.applied(seal, c, outcome).1;
            &&& state.apply_refusal(seal, c, outcome) is Some ==> said.len() == 0
            &&& state.apply_refusal(seal, c, outcome) is None ==> said == seq![
                EffectView::Established(state.evidence(c, outcome)),
            ] && seal(state.evidence(c, outcome))
        }),
{
}

/// The payload a frame answers with was asked for, and is held once the frame
/// was handled.
pub open spec fn answers_an_ask(before: FollowerView, after: FollowerView, frame: Seq<u8>) -> bool {
    message_in(frame) matches Ok(MessageView::PayloadResponse { command, .. })
        && before.payloads_asked.contains(command) && after.payloads.contains_key(command)
}

/// Only answers count: whatever frame a peer sends, the count of answered asks
/// grows by one exactly where the frame carries a payload that was asked for
/// and is held from here on, and is as it was otherwise.
pub proof fn lemma_only_answers_count<
    H: Fn(HashDomain, Vec<Vec<u8>>) -> Digest32,
    D: Fn(RetryKey, Vec<u8>) -> Option<Derived>,
>(state: FollowerView, hash: H, derive: D, from: PeerId, frame: Seq<u8>)
    requires
        walkable(state),
    ensures
        ({
            let next = state.received(hash, derive, from, frame).0;
            &&& walkable(next)
            &&& next.payloads_answered == (if answers_an_ask(state, next, frame)
                && state.payloads_answered < u64::MAX {
                state.payloads_answered + 1
            } else {
                state.payloads_answered as int
            })
        }),
{
    if let Ok(m) = message_in(frame) {
        if !state.stashed(m) {
            match m {
                MessageView::Promise { ballot, replica, .. } => {
                    let told = if state.campaign is Some && state.campaign->0.config.ballot
                        == ballot && replica == from.replica {
                        FollowerView {
                            campaign: Some(state.campaign->0.with_promise(replica)),
                            ..state
                        }
                    } else {
                        state
                    };
                    lemma_campaign_keeps(told, hash);
                },
                MessageView::ReportPage(page) => {
                    if let Some(c) = state.campaign {
                        lemma_campaign_keeps(
                            FollowerView {
                                campaign: Some(
                                    CampaignView { assembler: c.assembler.with_page(page), ..c },
                                ),
                                ..state
                            },
                            hash,
                        );
                    }
                },
                MessageView::Sync(d) => {
                    lemma_sync_received_keeps(state, hash, from.replica, d);
                },
                MessageView::Proposal(p) => {
                    lemma_proposal_steady(state, hash, from.replica, p);
                },
                MessageView::PayloadResponse { command, payload } => {
                    lemma_answers_count_once(state, hash, derive, command, payload);
                },
                _ => {},
            }
        }
    }
}

/// The same answer counts once: after it was counted the ask is no longer
/// outstanding, unless a campaign under way asked anew, and while it is not,
/// the frame delivered again leaves the count as it is.
pub proof fn lemma_repeated_answers_do_not_count<
    H: Fn(HashDomain, Vec<Vec<u8>>) -> Digest32,
    D: Fn(RetryKey, Vec<u8>) -> Option<Derived>,
>(
    state: FollowerView,
    hash: H,
    derive: D,
    from: PeerId,
    again: PeerId,
    frame: Seq<u8>,
    c: CommandId,
    payload: PayloadView,
)
    requires
        walkable(state),
        message_in(frame) == Ok::<MessageView, crate::codec::DecodeError>(
            MessageView::PayloadResponse { command: c, payload },
        ),
    ensures
        ({
            let next = state.received(hash, derive, from, frame).0;
            let last = next.received(hash, derive, again, frame).0;
            &&& answers_an_ask(state, next, frame) && state.payload_received(
                hash,
                derive,
                c,
                payload,
            ).0.campaign is None ==> !next.payloads_asked.contains(c)
            &&& !next.payloads_asked.contains(c) ==> last.payloads_answered
                == next.payloads_answered
        }),
{
    lemma_only_answers_count(state, hash, derive, from, frame);
    lemma_answers_count_once(state, hash, derive, c, payload);
    let next = state.received(hash, derive, from, frame).0;
    lemma_only_answers_count(next, hash, derive, again, frame);
}

/// A payload is served once its batch is durable, whether it came with the
/// record or beside one; where the batch failed it is not.
pub proof fn lemma_durable_payloads_are_served(
    state: FollowerView,
    barrier: BarrierId,
    journal_seq: crate::ids::LocalJournalSeq,
    error: crate::effects::StorageError,
)
    requires
        state.durable_payloads.contains_key(barrier),
    ensures
        ({
            let durable = state.batch_settled(StorageEvent::JournalDurable { barrier, journal_seq });
            let failed = state.batch_settled(StorageEvent::Failed { barrier, error });
            &&& durable.served_payloads == state.served_payloads.insert(
                state.durable_payloads[barrier],
            )
            &&& !durable.durable_payloads.contains_key(barrier)
            &&& failed.served_payloads == state.served_payloads
            &&& !failed.durable_payloads.contains_key(barrier)
        }),
{
}

/// A request presented again under its retry key initializes nothing: another
/// payload is a conflict of identities, the same command under other facts a
/// conflict of facts, and an exact repeat is a duplicate whose evidence is
/// offered again. Only the list of refusals and the count of repeats change.
pub proof fn lemma_presentations_repeat<H: Fn(HashDomain, Vec<Vec<u8>>) -> Digest32>(
    state: FollowerView,
    hash: H,
    c: CommandId,
    payload: PayloadView,
    other: CommandId,
    again: PayloadView,
)
    requires
        walkable(state),
        state.boot is Some,
        !state.bindings.contains_key(payload.retry_key),
        state.table.init_refusal(c, payload.admitted(hash)) is None,
        again.retry_key == payload.retry_key,
    ensures
        ({
            let first = state.requested(hash, c, payload).0;
            let (next, said) = first.requested(hash, other, again);
            &&& other != c ==> said.len() == 0 && next == first.rejected(
                RefusalView::RequestIdentityConflict { retry_key: payload.retry_key, bound: c },
            )
            &&& other == c && again.admitted(hash) == payload.admitted(hash) ==> (next, said)
                == first.rejected(RefusalView::Duplicate(c)).evidence_repaired(c)
            &&& other == c && again.admitted(hash) != payload.admitted(hash) ==> said.len() == 0
                && next == first.rejected(
                RefusalView::RequestFactsConflict { command: c, accepted: payload.admitted(hash) },
            )
            &&& next == (FollowerView {
                rejections: next.rejections,
                replay: next.replay,
                ..first
            })
        }),
{
    lemma_requested_keeps(state, hash, c, payload);
}

} // verus!
