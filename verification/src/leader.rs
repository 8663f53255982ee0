//! Normal-operation leader.
//!
//! The leader reads no clock and does no I/O. For an admitted request it
//! refuses a retry key already bound to a different payload, initializes the
//! command atomically (payload binding, conservative domain dependencies,
//! path evidence, conflict index), persists the payload, dependency and
//! proposal rows in one batch, and publishes the proposal to every other
//! voter and the reply to the frontend requiring that batch, so every leader
//! reply has exact durable support. The leader adopts its own order (ACCEPT)
//! only once the proposal is durable and every direct dependency is at least
//! ACCEPT; COMMIT and execution stay with the learner. A promise for a
//! higher ballot stops proposing and fences unreleased proposals.

use vstd::prelude::*;

use crate::ballot::{
    BallotState, BallotView, ConfigurationIdentity, IdentityView, PromiseRejection, ReplicaRole,
    SealRejection,
};
use crate::bytes::copy_bytes;
use crate::commands::{CommandRecord, CommandTable, InitError, RecordView, TableView};
use crate::effects::{
    BarrierAllocator, BatchView, Effect, EffectView, EstablishmentEvidence, EstablishmentView,
    PersistBatch, ReleasedResult, ReleasedView, SettledView, Settlements, StorageError, StorageEvent, StoreUpdate, UpdateView, any_incarnation,
    next_number, voter_address,
};
use crate::graph::{AnchorSeq, PathAnchors};
use crate::handoff::Transition;
use crate::hash::{HashDomain, is_hash};
use crate::ids::{
    Ballot, BarrierId, BootId, CommandId, Digest32, ExecutionPosition, LocalJournalSeq, PeerId,
    ReplicaId, RetryKey,
};
use crate::learner::{
    AppliedOutcome, LearnError, Learner, LearnerView, LearningMode, OutcomeView, is_next,
};
use crate::lists::{copy_list, lemma_id_views};
use crate::machine::{
    Event, OperationKind, Request, RequestView, broadcast, broadcast_of, conservative,
    conservative_keys, emit, emit_all, has_reached, no_effects, one_row, only, publish,
    publish_report, published, reached, report_published, request_view, two_rows,
};
use crate::messages::{MessageView, ProtocolMessage, frame_of, message_in};
use crate::ordered::{
    Dup, Key, OrdMap, OrdSet, dup_all, in_order, lemma_in_order, lemma_take_set, views,
};
use crate::phase::Phase;
use crate::quorum::{BallotConfiguration, ConfigView};
use crate::recovery::{
    RecoveryReport, ReportView, SyncDecision, SyncEntry, SyncEntryView, SyncView,
};
use crate::role::{
    Boot, BootView, PendingReport, PendingView, RecoveredState, RecoveredView, boot_view,
    pending_view,
};
use crate::rows::{
    AdmissionFacts, PayloadRecordV1, PayloadView, PromiseRecordV1, ProposalRecordV1,
    ProposalRecordView, SealRecordV1, admission_digest, admission_of, dependency_row,
    dependency_update, facts_view, payload_row, payload_update, proposal_row, proposal_update,
};
use crate::seal::{EstablishError, Sealing, is_seal, sealing_of};
use crate::speculation::{
    DEFAULT_SPECULATION_BOUND, GateView, ReleaseGate, Speculation, SpeculationRequest,
    SpeculationView, TentativeOutcome, decides,
};
use crate::summary::{DurableLedger, LedgerView, record_of};
use crate::vote::{FastAck, FastAckView, SlowAck, Vote, VoteError, VoteSet, VoteSetView, VoteView};

verus! {

/// How often a definitely rejected proposal batch is presented again before
/// the leader stops leading.
pub const MAX_PROPOSAL_ATTEMPTS: u32 = 3;

/// Static configuration of a leader.
#[derive(Debug)]
pub struct LeaderConfig {
    /// Configuration identity of this replica.
    pub identity: ConfigurationIdentity,
    /// The ballot (and its fixed fast set) this leader leads.
    pub quorum: BallotConfiguration,
    /// Genesis ballot of the epoch (implicitly promised).
    pub genesis: Ballot,
    /// The trusted frontend every leader reply goes to.
    pub frontend: PeerId,
    /// Command table capacity.
    pub capacity: usize,
}

/// What a configuration says.
#[verifier::ext_equal]
pub struct LeaderConfigView {
    /// Configuration identity of this replica.
    pub identity: IdentityView,
    /// The ballot this leader leads.
    pub quorum: ConfigView,
    /// Genesis ballot of the epoch.
    pub genesis: Ballot,
    /// The trusted frontend.
    pub frontend: PeerId,
    /// Command table capacity.
    pub capacity: usize,
}

impl View for LeaderConfig {
    type V = LeaderConfigView;

    open spec fn view(&self) -> LeaderConfigView {
        LeaderConfigView {
            identity: self.identity@,
            quorum: self.quorum@,
            genesis: self.genesis,
            frontend: self.frontend,
            capacity: self.capacity,
        }
    }
}

/// Why the leader stopped leading. A fenced leader admits nothing and votes
/// no more; the role is recovered by a new election.
#[derive(Clone, Copy, Debug, PartialEq, Eq, Hash, Structural)]
pub enum FenceReason {
    /// A proposal write's outcome is unknown, so its payload, dependency and
    /// proposal rows may or may not be durable. Continuing to lead could
    /// omit that state from a later recovery cut.
    ProposalUnresolved {
        /// The command whose write is unresolved.
        command: CommandId,
        /// What storage reported.
        error: StorageError,
    },
    /// A definitely rejected proposal was presented again as often as
    /// allowed without becoming durable.
    ProposalRetriesExhausted {
        /// The command.
        command: CommandId,
    },
}

/// A refused or dropped input, recorded for the caller (never an effect).
#[derive(Clone, Copy, Debug, PartialEq, Eq, Structural)]
pub enum Rejection {
    /// Not the leader of the promised ballot.
    NotLeading {
        /// The promised ballot.
        promised: Ballot,
    },
    /// The request frame did not decode to exactly one request.
    MalformedRequest,
    /// The retry key is already bound to another payload.
    RequestIdentityConflict {
        /// Retry key.
        retry_key: RetryKey,
        /// Command bound first.
        bound: CommandId,
    },
    /// The same command was already proposed; nothing changed.
    Duplicate(CommandId),
    /// The command table is full.
    Backpressure,
    /// A proposal batch was definitely rejected and is being presented again
    /// unchanged under a new barrier.
    ProposalRetried(CommandId),
    /// A service command presented again while still unlearned: its proposal
    /// was published to the other voters again, unchanged.
    ProposalRepublished(CommandId),
    /// The leader stopped leading; a new election recovers the role.
    Fenced(FenceReason),
    /// A peer message was rejected.
    Vote(VoteError),
    /// A `NewLeader` was rejected.
    Promise(PromiseRejection),
    /// A peer frame did not decode.
    MalformedPeerMessage,
    /// A `SealRequest` was rejected.
    Seal(SealRejection),
    /// The configuration is sealed (or a seal row is in flight): the request
    /// was not proposed, because ordinary service of this configuration is
    /// over and the transition is what must finish.
    Sealed {
        /// The transition the seal is for.
        transition: Transition,
    },
}

/// The leader's proposal state for one command.
#[derive(Debug)]
pub struct Proposal {
    /// Command.
    pub command: CommandId,
    /// Barrier of the payload/dependency/proposal batch.
    pub barrier: BarrierId,
    /// Leader sequence number.
    pub seqnum: u64,
    /// Ordered dependencies.
    pub deps: Vec<CommandId>,
    /// Path evidence.
    pub path: Digest32,
    /// Per-key path anchors published with the proposal.
    pub paths: PathAnchors,
    /// Whether the batch is durable.
    pub durable: bool,
    /// The rows of the batch, kept so a definitely rejected write can be
    /// presented again unchanged under a new barrier.
    pub updates: Vec<StoreUpdate>,
    /// Persistence attempts made for this proposal.
    pub attempts: u32,
    /// Whether this command has executed.
    ///
    /// Recorded here rather than read from the command table, because the
    /// table is allowed to forget an executed record to make room and a
    /// forgotten record reports no phase at all.
    pub executed: bool,
}

/// What a proposal holds.
#[verifier::ext_equal]
pub struct ProposalView {
    /// Command.
    pub command: CommandId,
    /// Barrier of the batch.
    pub barrier: BarrierId,
    /// Leader sequence number.
    pub seqnum: u64,
    /// Ordered dependencies.
    pub deps: Seq<CommandId>,
    /// Path evidence.
    pub path: Digest32,
    /// Per-key path anchors.
    pub paths: AnchorSeq,
    /// Whether the batch is durable.
    pub durable: bool,
    /// The rows of the batch.
    pub updates: Seq<UpdateView>,
    /// Persistence attempts.
    pub attempts: u32,
    /// Whether this command has executed.
    pub executed: bool,
}

impl View for Proposal {
    type V = ProposalView;

    open spec fn view(&self) -> ProposalView {
        ProposalView {
            command: self.command,
            barrier: self.barrier,
            seqnum: self.seqnum,
            deps: self.deps@,
            path: self.path,
            paths: views(self.paths@),
            durable: self.durable,
            updates: views(self.updates@),
            attempts: self.attempts,
            executed: self.executed,
        }
    }
}

/// The leader machine of one domain.
#[derive(Debug)]
pub struct Leader {
    config: LeaderConfig,
    boot: Option<Boot>,
    ballots: BallotState,
    table: CommandTable,
    bindings: OrdMap<RetryKey, CommandId>,
    proposals: OrdMap<CommandId, Proposal>,
    votes: OrdMap<CommandId, VoteSet>,
    payloads: OrdMap<CommandId, PayloadRecordV1>,
    ledger: DurableLedger,
    learner: Learner,
    seqnum: u64,
    report_due: Option<PendingReport>,
    pending_sync: Option<(ReplicaId, SyncDecision)>,
    speculation: Speculation,
    rejections: Vec<Rejection>,
    fenced: Option<FenceReason>,
}

/// What a leader holds.
#[verifier::ext_equal]
pub struct LeaderView {
    /// Configuration.
    pub config: LeaderConfigView,
    /// Boot.
    pub boot: Option<BootView>,
    /// Promise state.
    pub ballots: BallotView,
    /// Command table.
    pub table: TableView,
    /// Retry-key bindings.
    pub bindings: Map<RetryKey, CommandId>,
    /// Proposals.
    pub proposals: Map<CommandId, ProposalView>,
    /// Acknowledgements.
    pub votes: Map<CommandId, VoteSetView>,
    /// Payloads.
    pub payloads: Map<CommandId, PayloadView>,
    /// Durable ledger.
    pub ledger: LedgerView,
    /// Learner.
    pub learner: LearnerView,
    /// Next sequence number.
    pub seqnum: u64,
    /// A report owed to a candidate.
    pub report_due: Option<PendingView>,
    /// A Sync received while still holding the role.
    pub pending_sync: Option<(ReplicaId, SyncView)>,
    /// Tentative outcomes.
    pub speculation: SpeculationView,
    /// Refused inputs.
    pub rejections: Seq<Rejection>,
    /// Why the leader stopped leading.
    pub fenced: Option<FenceReason>,
}

/// What a held Sync says.
pub open spec fn held_sync(p: Option<(ReplicaId, SyncDecision)>) -> Option<(ReplicaId, SyncView)> {
    match p {
        Some((r, d)) => Some((r, d@)),
        None => None,
    }
}

impl View for Leader {
    type V = LeaderView;

    closed spec fn view(&self) -> LeaderView {
        LeaderView {
            config: self.config@,
            boot: boot_view(self.boot),
            ballots: self.ballots@,
            table: self.table@,
            bindings: self.bindings@,
            proposals: self.proposals@,
            votes: self.votes@,
            payloads: self.payloads@,
            ledger: self.ledger@,
            learner: self.learner@,
            seqnum: self.seqnum,
            report_due: pending_view(self.report_due),
            pending_sync: held_sync(self.pending_sync),
            speculation: self.speculation@,
            rejections: self.rejections@,
            fenced: self.fenced,
        }
    }
}

/// A turn of the leader: the state it leaves and the effects it asks for.
pub type Turn = (LeaderView, Seq<EffectView>);

/// The state, and nothing asked.
pub open spec fn quiet(state: LeaderView) -> Turn {
    (state, Seq::empty())
}

/// The first listed proposal of a batch.
pub open spec fn proposal_under(
    proposals: Map<CommandId, ProposalView>,
    order: Seq<CommandId>,
    barrier: BarrierId,
) -> Option<CommandId>
    decreases order.len(),
{
    if order.len() == 0 {
        None
    } else {
        let earlier = proposal_under(proposals, order.drop_last(), barrier);
        if earlier is Some {
            earlier
        } else if proposals[order.last()].barrier == barrier {
            Some(order.last())
        } else {
            None
        }
    }
}

/// The payloads of the listed commands that may be served, published to `to`.
pub open spec fn payloads_served(
    state: LeaderView,
    boot: BootView,
    to: ReplicaId,
    commands: Seq<CommandId>,
) -> Seq<EffectView>
    decreases commands.len(),
{
    if commands.len() == 0 {
        Seq::empty()
    } else {
        let before = payloads_served(state, boot, to, commands.drop_last());
        let c = commands.last();
        if state.proposals.contains_key(c) && state.proposals[c].durable
            && state.payloads.contains_key(c) {
            before.push(
                published(
                    state.ballots.context(boot.id, state.ballots.promised),
                    Seq::empty(),
                    any_incarnation(to),
                    frame_of(
                        MessageView::PayloadResponse { command: c, payload: state.payloads[c] },
                    ),
                ),
            )
        } else {
            before
        }
    }
}

/// Every dependency of `c` that is itself an entry is already placed.
pub open spec fn follows(
    entries: Map<CommandId, SyncEntryView>,
    placed: Seq<CommandId>,
    c: CommandId,
) -> bool {
    forall|i: int|
        0 <= i < entries[c].deps.len() ==> !entries.contains_key(
            #[trigger] entries[c].deps[i],
        ) || placed.contains(entries[c].deps[i])
}

/// One pass over the entries not placed yet: those placed, and those left.
pub open spec fn placing(
    entries: Map<CommandId, SyncEntryView>,
    placed: Seq<CommandId>,
    remaining: Seq<CommandId>,
) -> (Seq<CommandId>, Seq<CommandId>)
    decreases remaining.len(),
{
    if remaining.len() == 0 {
        (placed, Seq::empty())
    } else {
        let (done, left) = placing(entries, placed, remaining.drop_last());
        let c = remaining.last();
        if follows(entries, done, c) {
            (done.push(c), left)
        } else {
            (done, left.push(c))
        }
    }
}

/// A pass leaves no more than there were.
pub proof fn lemma_placing(
    entries: Map<CommandId, SyncEntryView>,
    placed: Seq<CommandId>,
    remaining: Seq<CommandId>,
)
    ensures
        placing(entries, placed, remaining).1.len() <= remaining.len(),
        placing(entries, placed, remaining).0.len() + placing(entries, placed, remaining).1.len()
            == placed.len() + remaining.len(),
    decreases remaining.len(),
{
    if remaining.len() > 0 {
        lemma_placing(entries, placed, remaining.drop_last());
    }
}

/// The entries in dependency order: a command follows every dependency that
/// is itself an entry. Stops at a cycle rather than guess.
pub open spec fn dependency_order(
    entries: Map<CommandId, SyncEntryView>,
    placed: Seq<CommandId>,
    remaining: Seq<CommandId>,
) -> Seq<CommandId>
    decreases remaining.len(),
{
    let (done, left) = placing(entries, placed, remaining);
    if left.len() == remaining.len() || left.len() == 0 {
        done
    } else {
        proof {
            lemma_placing(entries, placed, remaining);
        }
        dependency_order(entries, done, left)
    }
}

impl LeaderView {
    /// A leader that just began.
    pub open spec fn begun(
        config: LeaderConfigView,
        durable_promise: Option<PromiseRecordV1>,
        durable_seal: Option<SealRecordV1>,
        executed_through: ExecutionPosition,
    ) -> Self {
        LeaderView {
            config,
            boot: None,
            ballots: BallotView::recovered(
                config.identity,
                config.genesis,
                durable_promise,
                durable_seal,
            ),
            table: TableView::empty(Some(config.capacity)),
            bindings: Map::empty(),
            proposals: Map::empty(),
            votes: Map::empty(),
            payloads: Map::empty(),
            ledger: LedgerView::of(Map::empty()),
            learner: LearnerView {
                executed_through,
                mode: LearningMode::Full,
                fast: Set::empty(),
            },
            seqnum: 0,
            report_due: None,
            pending_sync: None,
            speculation: SpeculationView::empty(DEFAULT_SPECULATION_BOUND),
            rejections: Seq::empty(),
            fenced: None,
        }
    }

    /// A leader from state carried across a role change.
    pub open spec fn taking_over(state: RecoveredView, quorum: ConfigView) -> Self {
        LeaderView {
            config: LeaderConfigView {
                identity: state.identity,
                genesis: quorum.ballot,
                quorum,
                frontend: state.frontend,
                capacity: state.capacity,
            },
            boot: state.boot,
            ballots: state.ballots,
            table: state.table,
            bindings: state.bindings,
            proposals: Map::empty(),
            votes: Map::empty(),
            payloads: state.payloads,
            ledger: state.ledger,
            learner: state.learner,
            seqnum: 0,
            report_due: state.report_due,
            pending_sync: None,
            speculation: SpeculationView::empty(DEFAULT_SPECULATION_BOUND),
            rejections: Seq::empty(),
            fenced: None,
        }
    }

    /// What is carried when the role is given up.
    pub open spec fn given_up(self) -> RecoveredView {
        RecoveredView {
            identity: self.config.identity,
            ballots: self.ballots,
            table: self.table,
            ledger: self.ledger,
            payloads: self.payloads,
            bindings: self.bindings,
            served_payloads: self.proposals.dom().filter(
                |c: CommandId| self.proposals[c].durable,
            ),
            learner: self.learner,
            boot: self.boot,
            report_due: self.report_due,
            frontend: self.config.frontend,
            capacity: self.config.capacity,
        }
    }

    /// With one more refused input.
    pub open spec fn rejected(self, r: Rejection) -> Self {
        LeaderView { rejections: self.rejections.push(r), ..self }
    }

    /// A higher ballot was promised.
    pub open spec fn deposed(self) -> bool {
        self.ballots.promised != self.config.quorum.ballot
    }

    /// This replica leads the promised ballot.
    pub open spec fn leading(self) -> bool {
        &&& self.fenced is None
        &&& !self.ballots.fenced()
        &&& self.config.identity.role == ReplicaRole::Voter
        &&& self.config.identity.epoch == self.config.quorum.epoch
        &&& self.config.identity.voters == self.config.quorum.voters
        &&& self.config.quorum.voters.contains(self.config.identity.replica)
        &&& self.ballots.promised == self.config.quorum.ballot
        &&& self.config.quorum.ballot.leader == self.config.identity.replica
        &&& self.ballots.in_flight.len() == 0
    }

    /// With the leader fenced, unless it already is.
    pub open spec fn fenced_for(self, reason: FenceReason) -> Self {
        if self.fenced is None {
            LeaderView { fenced: Some(reason), ..self }.rejected(Rejection::Fenced(reason))
        } else {
            self
        }
    }

    /// With whatever the evidence teaches committed.
    pub open spec fn learned(self) -> Self {
        let done = self.learner.learning(self.table).settled(self.learner.mode, self.votes);
        LeaderView {
            table: done.table,
            learner: LearnerView { fast: done.fast, ..self.learner },
            ..self
        }
    }

    /// The next barrier.
    pub open spec fn barrier(self) -> BarrierId {
        BarrierId(self.boot->0.next)
    }

    /// With one barrier given out.
    pub open spec fn allocated(self) -> Self {
        LeaderView {
            boot: Some(BootView { next: next_number(self.boot->0.next), ..self.boot->0 }),
            ..self
        }
    }

    /// The admission a command was accepted under.
    pub open spec fn admission_in<H: Fn(HashDomain, Vec<Vec<u8>>) -> Digest32>(
        self,
        hash: H,
        c: CommandId,
    ) -> Digest32 {
        if self.table.records.contains_key(c) && self.table.records[c].payload is Some {
            self.table.records[c].payload->0
        } else {
            admission_of(hash, None, 0)
        }
    }

    /// The acknowledgement a proposal is.
    pub open spec fn ack_of(
        self,
        c: CommandId,
        deps: Seq<CommandId>,
        paths: AnchorSeq,
        path: Digest32,
        admission: Digest32,
        seqnum: u64,
    ) -> FastAckView {
        FastAckView {
            replica: self.config.identity.replica,
            ballot: self.config.quorum.ballot,
            command: c,
            deps,
            paths,
            path,
            admission,
            seqnum: Some(seqnum),
        }
    }

    /// A proposal published to every other voter, resting on its batch.
    pub open spec fn proposal_sends(self, barrier: BarrierId, ack: FastAckView) -> Seq<EffectView> {
        broadcast_of(
            self.ballots.context(self.boot->0.id, self.config.quorum.ballot),
            seq![barrier],
            self.config.identity,
            frame_of(MessageView::Proposal(ack)),
        )
    }

    /// The reply to the frontend, resting on the proposal's batch.
    pub open spec fn reply_send(self, barrier: BarrierId, ack: FastAckView) -> EffectView {
        published(
            self.ballots.context(self.boot->0.id, self.config.quorum.ballot),
            seq![barrier],
            self.config.frontend,
            frame_of(
                MessageView::LeaderReply {
                    ballot: self.config.quorum.ballot,
                    command: ack.command,
                    seqnum: ack.seqnum->0,
                    deps: ack.deps,
                    path: ack.path,
                },
            ),
        )
    }

    /// With a proposal under way: its batch staged, its own vote counted.
    pub open spec fn with_proposal(
        self,
        barrier: BarrierId,
        ack: FastAckView,
        updates: Seq<UpdateView>,
    ) -> Self {
        let c = ack.command;
        LeaderView {
            ledger: LedgerView {
                staged: self.ledger.staged.insert(barrier, (c, self.table.records[c])),
                ..self.ledger
            },
            votes: self.votes.insert(
                c,
                VoteSetView::empty(self.config.quorum, c).presented(VoteView::Fast(ack)),
            ),
            proposals: self.proposals.insert(
                c,
                ProposalView {
                    command: c,
                    barrier,
                    seqnum: ack.seqnum->0,
                    deps: ack.deps,
                    path: ack.path,
                    paths: ack.paths,
                    durable: false,
                    updates,
                    attempts: 1,
                    executed: false,
                },
            ),
            seqnum: (self.seqnum + 1) as u64,
            ..self
        }
    }

    /// A known command proposed under this ballot with `deps`.
    pub open spec fn reproposed<H: Fn(HashDomain, Vec<Vec<u8>>) -> Digest32>(
        self,
        hash: H,
        c: CommandId,
        deps: Seq<CommandId>,
    ) -> Turn {
        let early = !reached(self.table.phase_of(c), Phase::Commit);
        if self.boot is None || self.table.phase_of(c) is None {
            quiet(self)
        } else if early && self.table.accept_violation(c, deps) is Some {
            quiet(self)
        } else {
            let table = if early {
                self.table.accepted(c, deps)
            } else {
                self.table
            };
            let record = table.records[c];
            let barrier = self.barrier();
            let ack = self.ack_of(
                c,
                deps,
                record.paths,
                record.path,
                match record.payload {
                    Some(p) => p,
                    None => admission_of(hash, None, 0),
                },
                self.seqnum,
            );
            let updates = seq![
                dependency_row(self.config.identity.epoch, c, record),
                proposal_row(
                    self.config.identity.epoch,
                    c,
                    ProposalRecordView {
                        ballot: self.config.quorum.ballot,
                        seqnum: self.seqnum,
                        deps,
                        path: record.path,
                    },
                ),
            ];
            (
                LeaderView { table, ..self }.allocated().with_proposal(barrier, ack, updates),
                seq![EffectView::Persist(BatchView { barrier, updates })] + self.proposal_sends(
                    barrier,
                    ack,
                ),
            )
        }
    }

    /// Each selected entry proposed again in turn, with its dependencies.
    pub open spec fn reproposed_entries<H: Fn(HashDomain, Vec<Vec<u8>>) -> Digest32>(
        self,
        hash: H,
        entries: Map<CommandId, SyncEntryView>,
        order: Seq<CommandId>,
    ) -> Turn
        decreases order.len(),
    {
        if order.len() == 0 {
            quiet(self)
        } else {
            let (before, said) = self.reproposed_entries(hash, entries, order.drop_last());
            let c = order.last();
            let (after, more) = before.reproposed(hash, c, entries[c].deps);
            (after, said + more)
        }
    }

    /// What a re-proposal depends on: the tail of the order.
    pub open spec fn after_tail(last: Option<CommandId>) -> Seq<CommandId> {
        match last {
            Some(l) => seq![l],
            None => Seq::empty(),
        }
    }

    /// Commands selected for re-proposal proposed in turn, each after the
    /// one before.
    pub open spec fn reproposed_chain<H: Fn(HashDomain, Vec<Vec<u8>>) -> Digest32>(
        self,
        hash: H,
        commands: Seq<CommandId>,
        last: Option<CommandId>,
    ) -> (Turn, Option<CommandId>)
        decreases commands.len(),
    {
        if commands.len() == 0 {
            (quiet(self), last)
        } else {
            let ((before, said), tail) = self.reproposed_chain(hash, commands.drop_last(), last);
            let c = commands.last();
            if before.table.phase_of(c) is None {
                ((before, said), tail)
            } else {
                let (after, more) = before.reproposed(hash, c, Self::after_tail(tail));
                ((after, said + more), Some(c))
            }
        }
    }

    /// Becoming the leader of the recovered ballot.
    pub open spec fn recovered<H: Fn(HashDomain, Vec<Vec<u8>>) -> Digest32>(
        hash: H,
        state: RecoveredView,
        quorum: ConfigView,
        decision: SyncView,
    ) -> Turn {
        let order = dependency_order(
            decision.entries,
            Seq::empty(),
            in_order::<CommandId>(decision.entries.dom()),
        );
        let last = if order.len() == 0 {
            None
        } else {
            Some(order.last())
        };
        let (installed, said) = LeaderView::taking_over(state, quorum).reproposed_entries(
            hash,
            decision.entries,
            order,
        );
        let ((done, more), _) = installed.reproposed_chain(
            hash,
            in_order::<CommandId>(decision.reproposed),
            last,
        );
        (done, said + more)
    }

    /// The recovery report for `ballot` at this cut.
    pub open spec fn report(self, ballot: Ballot) -> ReportView {
        self.ledger.report(self.config.identity.replica, ballot, self.ballots.synced)
    }

    /// The report owed to a candidate, once every batch before the cut is
    /// durable.
    pub open spec fn report_delivered<H: Fn(HashDomain, Vec<Vec<u8>>) -> Digest32>(
        self,
        hash: H,
    ) -> Turn {
        match self.report_due {
            None => quiet(self),
            Some(due) => if self.boot is None || !self.boot->0.settled.all_durable(
                due.requires_durable,
            ) {
                quiet(self)
            } else {
                (
                    LeaderView { report_due: None, ..self },
                    report_published(
                        hash,
                        self.ballots.context(self.boot->0.id, due.ballot),
                        due.to,
                        self.report(due.ballot),
                    ),
                )
            },
        }
    }

    /// Unexecuted proposals among `keys`, with their sequence numbers.
    pub open spec fn unexecuted_among(self, keys: Set<CommandId>) -> Set<(u64, CommandId)> {
        Set::new(
            |p: (u64, CommandId)|
                keys.contains(p.1) && self.proposals.contains_key(p.1) && p.0
                    == self.proposals[p.1].seqnum && !self.proposals[p.1].executed && !reached(
                    self.table.phase_of(p.1),
                    Phase::Executed,
                ),
        )
    }

    /// Unexecuted proposals in the leader's order.
    pub open spec fn unexecuted(self) -> Seq<CommandId> {
        in_order::<(u64, CommandId)>(self.unexecuted_among(self.proposals.dom())).map_values(
            |p: (u64, CommandId)| p.1,
        )
    }

    /// What the release gate asks of this leader's state.
    pub open spec fn gate(self, seal: Sealing) -> GateView {
        GateView {
            epoch: self.config.identity.epoch,
            ballot: self.config.quorum.ballot,
            committed: |c: CommandId| reached(self.table.phase_of(c), Phase::Commit),
            fast: |c: CommandId| self.learner.fast.contains(c),
            seal,
        }
    }

    /// Tentative results whose command and whole prefix are learned, released;
    /// none of them where the evidence of one is not sealed.
    pub open spec fn released_ready(self, seal: Sealing) -> Turn {
        let gate = self.gate(seal);
        let proposals = self.unexecuted();
        if !self.leading() {
            quiet(self)
        } else {
            (
                LeaderView { speculation: self.speculation.released_along(gate, proposals), ..self },
                if self.speculation.refused_along(gate, proposals) {
                    Seq::empty()
                } else {
                    self.speculation.releasable(gate, proposals).map_values(
                        |r: ReleasedView| EffectView::Released(r),
                    )
                },
            )
        }
    }

    /// What would establish the result of `c` here.
    pub open spec fn evidence(self, c: CommandId, outcome: OutcomeView) -> EstablishmentView {
        self.learner.evidence(
            self.table,
            c,
            self.config.identity.epoch,
            self.config.quorum.ballot,
            outcome,
        )
    }

    /// The command executed.
    pub open spec fn advanced(self, c: CommandId) -> Self {
        LeaderView {
            learner: self.learner.executed(c),
            table: self.table.advanced(c, Phase::Executed),
            ..self
        }
    }

    /// The command executed, and whatever that enables learned.
    pub open spec fn executed(self, c: CommandId) -> Self {
        self.advanced(c).learned()
    }

    /// The proposal of `c`, if any, marked executed.
    pub open spec fn marked_executed(self, c: CommandId) -> Self {
        if self.proposals.contains_key(c) {
            LeaderView {
                proposals: self.proposals.insert(
                    c,
                    ProposalView { executed: true, ..self.proposals[c] },
                ),
                ..self
            }
        } else {
            self
        }
    }

    /// Why an application is refused.
    pub open spec fn apply_refusal(
        self,
        seal: Sealing,
        c: CommandId,
        outcome: OutcomeView,
    ) -> Option<LearnError> {
        match self.learner.refusal(self.table, c, outcome.position) {
            Some(e) => Some(e),
            None => if !seal(self.evidence(c, outcome)) {
                Some(LearnError::Establish(EstablishError))
            } else {
                match self.speculation.mismatch(c, outcome.position, outcome.result_digest) {
                    Some(m) => Some(LearnError::Speculation(m)),
                    None => None,
                }
            },
        }
    }

    /// The state after an application was offered.
    pub open spec fn applied(self, seal: Sealing, c: CommandId, outcome: OutcomeView) -> Turn {
        let evidence = self.evidence(c, outcome);
        if self.learner.refusal(self.table, c, outcome.position) is Some {
            quiet(self)
        } else if !seal(evidence) {
            quiet(self.advanced(c))
        } else {
            let base = self.executed(c);
            let settled = LeaderView { speculation: base.speculation.forgotten(c), ..base };
            if self.apply_refusal(seal, c, outcome) is Some {
                quiet(settled)
            } else {
                let marked = settled.marked_executed(c);
                let said = seq![EffectView::Established(evidence)];
                let disclosed = if marked.leading() && !self.speculation.released.contains(c) {
                    said.push(
                        EffectView::Released(
                            ReleasedView {
                                evidence,
                                response: outcome.response,
                                speculative: false,
                            },
                        ),
                    )
                } else {
                    said
                };
                let (done, more) = marked.released_ready(seal);
                (done, disclosed + more)
            }
        }
    }

    /// Barriers of proposals not yet durable.
    pub open spec fn undurable(self) -> Set<BarrierId> {
        Set::new(
            |b: BarrierId|
                exists|c: CommandId| #[trigger]
                    self.proposals.contains_key(c) && !self.proposals[c].durable
                        && self.proposals[c].barrier == b,
        )
    }

    /// Every batch submitted and not seen to resolve.
    pub open spec fn cut(self) -> Seq<BarrierId> {
        in_order::<BarrierId>(self.undurable().union(self.ledger.staged.dom()))
    }

    /// Why a request is not proposed.
    pub open spec fn propose_refusal(self, request: Option<RequestView>) -> Option<Rejection> {
        if self.ballots.seal_held() is Some {
            Some(Rejection::Sealed { transition: self.ballots.seal_held()->0 })
        } else if !self.leading() {
            Some(Rejection::NotLeading { promised: self.ballots.promised })
        } else {
            match request {
                None => Some(Rejection::MalformedRequest),
                Some(q) => if self.bindings.contains_key(q.retry_key) {
                    if self.bindings[q.retry_key] != q.command {
                        Some(
                            Rejection::RequestIdentityConflict {
                                retry_key: q.retry_key,
                                bound: self.bindings[q.retry_key],
                            },
                        )
                    } else {
                        Some(Rejection::Duplicate(q.command))
                    }
                } else {
                    None
                },
            }
        }
    }

    /// The payload of a request under an admission.
    pub open spec fn payload_of(q: RequestView, admission: Option<Seq<u8>>) -> PayloadView {
        PayloadView {
            retry_key: q.retry_key,
            logical: q.logical,
            admission,
            ack_through: q.ack_through,
        }
    }

    /// A request proposed.
    pub open spec fn proposed<H: Fn(HashDomain, Vec<Vec<u8>>) -> Digest32>(
        self,
        hash: H,
        request: Option<RequestView>,
        admission: Option<Seq<u8>>,
    ) -> Turn {
        if self.boot is None {
            quiet(self)
        } else if self.propose_refusal(request) is Some {
            quiet(self.rejected(self.propose_refusal(request)->0))
        } else {
            let q = request->0;
            let c = q.command;
            let payload = Self::payload_of(q, admission);
            let digest = payload.admitted(hash);
            let room = LeaderView { table: self.table.opened(c), ..self };
            match self.table.init_refusal(c, digest) {
                Some(e) => quiet(
                    room.rejected(
                        if e == InitError::Backpressure {
                            Rejection::Backpressure
                        } else {
                            Rejection::Duplicate(c)
                        },
                    ),
                ),
                None => {
                    let table = room.table.with_initialized(hash, c, digest, conservative_keys());
                    let record = table.records[c];
                    let barrier = self.barrier();
                    let ack = self.ack_of(
                        c,
                        record.deps,
                        record.paths,
                        record.path,
                        digest,
                        self.seqnum,
                    );
                    let updates = seq![
                        payload_row(c, payload),
                        dependency_row(self.config.identity.epoch, c, record),
                        proposal_row(
                            self.config.identity.epoch,
                            c,
                            ProposalRecordView {
                                ballot: self.config.quorum.ballot,
                                seqnum: self.seqnum,
                                deps: record.deps,
                                path: record.path,
                            },
                        ),
                    ];
                    let bound = LeaderView {
                        table,
                        bindings: self.bindings.insert(q.retry_key, c),
                        payloads: self.payloads.insert(c, payload),
                        ..self
                    };
                    (
                        bound.allocated().with_proposal(barrier, ack, updates),
                        (seq![EffectView::Persist(BatchView { barrier, updates })]
                            + self.proposal_sends(barrier, ack)).push(
                            self.reply_send(barrier, ack),
                        ),
                    )
                },
            }
        }
    }

    /// A service command presented again while it is still unlearned.
    pub open spec fn republishable(self, q: RequestView) -> bool {
        &&& self.boot is Some
        &&& self.leading()
        &&& self.bindings.contains_key(q.retry_key)
        &&& self.bindings[q.retry_key] == q.command
        &&& self.proposals.contains_key(q.command)
        &&& !self.proposals[q.command].executed
        &&& !reached(self.table.phase_of(q.command), Phase::Commit)
    }

    /// The acknowledgement of a proposal already made.
    pub open spec fn ack_again<H: Fn(HashDomain, Vec<Vec<u8>>) -> Digest32>(
        self,
        hash: H,
        c: CommandId,
    ) -> FastAckView {
        let p = self.proposals[c];
        self.ack_of(c, p.deps, p.paths, p.path, self.admission_in(hash, c), p.seqnum)
    }

    /// One of the service's own commands proposed.
    pub open spec fn service_proposed<H: Fn(HashDomain, Vec<Vec<u8>>) -> Digest32>(
        self,
        hash: H,
        request: Option<RequestView>,
    ) -> Turn {
        if request is None || request->0.operation == OperationKind::Other {
            quiet(self.rejected(Rejection::MalformedRequest))
        } else if self.republishable(request->0) {
            let c = request->0.command;
            (
                self.rejected(Rejection::ProposalRepublished(c)),
                self.proposal_sends(self.proposals[c].barrier, self.ack_again(hash, c)),
            )
        } else {
            self.proposed(hash, request, None)
        }
    }

    /// What the batch a storage event is about writes.
    pub open spec fn written_under(self, event: StorageEvent) -> Option<RecordView> {
        if event.about() is Some && self.ledger.staged.contains_key(event.about()->0) {
            Some(self.ledger.staged[event.about()->0].1)
        } else {
            None
        }
    }

    /// A definitely rejected proposal batch presented again: the same rows,
    /// and the record they write, under a new barrier.
    pub open spec fn retried<H: Fn(HashDomain, Vec<Vec<u8>>) -> Digest32>(
        self,
        hash: H,
        c: CommandId,
        written: Option<RecordView>,
    ) -> Turn {
        if !self.proposals.contains_key(c) {
            quiet(self)
        } else if self.proposals[c].attempts >= MAX_PROPOSAL_ATTEMPTS {
            quiet(self.fenced_for(FenceReason::ProposalRetriesExhausted { command: c }))
        } else if self.boot is None {
            quiet(self)
        } else {
            let barrier = self.barrier();
            let p = ProposalView {
                barrier,
                attempts: (self.proposals[c].attempts + 1) as u32,
                ..self.proposals[c]
            };
            let ack = self.ack_again(hash, c);
            (
                LeaderView {
                    proposals: self.proposals.insert(c, p),
                    ledger: match written {
                        Some(record) => LedgerView {
                            staged: self.ledger.staged.insert(barrier, (c, record)),
                            ..self.ledger
                        },
                        None => self.ledger,
                    },
                    ..self
                }.allocated().rejected(Rejection::ProposalRetried(c)),
                (seq![EffectView::Persist(BatchView { barrier, updates: p.updates })]
                    + self.proposal_sends(barrier, ack)).push(self.reply_send(barrier, ack)),
            )
        }
    }

    /// Durable proposals this leader has not accepted yet.
    pub open spec fn acceptable(self) -> Set<CommandId> {
        self.proposals.dom().filter(
            |c: CommandId|
                self.proposals[c].durable && self.table.phase_of(c) == Some(Phase::PreAccept),
        )
    }

    /// The leader's own order of `c` adopted, where its dependencies allow it.
    pub open spec fn accept_one(self, c: CommandId) -> Turn {
        let deps = self.proposals[c].deps;
        if self.table.accept_violation(c, deps) is Some {
            quiet(self)
        } else {
            let next = LeaderView { table: self.table.accepted(c, deps), ..self };
            if self.boot is None || !next.table.records.contains_key(c) {
                quiet(next)
            } else {
                let record = next.table.records[c];
                (
                    LeaderView {
                        ledger: LedgerView {
                            staged: self.ledger.staged.insert(self.barrier(), (c, record)),
                            ..self.ledger
                        },
                        ..next
                    }.allocated(),
                    seq![
                        EffectView::Persist(
                            BatchView {
                                barrier: self.barrier(),
                                updates: seq![
                                    dependency_row(self.config.identity.epoch, c, record),
                                ],
                            },
                        ),
                    ],
                )
            }
        }
    }

    /// Each of `cs` in turn.
    pub open spec fn accept_each(self, cs: Seq<CommandId>) -> Turn
        decreases cs.len(),
    {
        if cs.len() == 0 {
            quiet(self)
        } else {
            let (before, said) = self.accept_each(cs.drop_last());
            let (after, more) = before.accept_one(cs.last());
            (after, said + more)
        }
    }

    /// One pass over the acceptable proposals.
    pub open spec fn accept_round(self) -> Turn {
        self.accept_each(in_order::<CommandId>(self.acceptable()))
    }

    /// Passes until one accepts nothing.
    pub open spec fn accept_rounds(self) -> Turn
        decreases self.acceptable().len(),
        when self.proposals.dom().finite()
    {
        let (next, said) = self.accept_round();
        if next.acceptable() == self.acceptable() {
            (next, said)
        } else {
            proof {
                lemma_accept_round(self);
            }
            let (done, more) = next.accept_rounds();
            (done, said + more)
        }
    }

    /// The leader's own order adopted for every durable proposal whose
    /// dependencies are all at least ACCEPT.
    pub open spec fn pending_advanced(self) -> Turn {
        if !self.leading() {
            quiet(self)
        } else {
            self.accept_rounds()
        }
    }

    /// What storage reported, noted.
    pub open spec fn noted(self, event: StorageEvent) -> Self {
        LeaderView {
            boot: match self.boot {
                Some(b) => Some(BootView { settled: b.settled.observed(event), ..b }),
                None => None,
            },
            ballots: self.ballots.stored(event),
            ledger: match event {
                StorageEvent::JournalDurable { barrier, journal_seq } => self.ledger.settled(
                    barrier,
                    journal_seq,
                ),
                StorageEvent::Failed { barrier, .. } => LedgerView {
                    staged: self.ledger.staged.remove(barrier),
                    ..self.ledger
                },
                _ => self.ledger,
            },
            ..self
        }
    }

    /// The proposal a storage event is about.
    pub open spec fn proposal_about(self, event: StorageEvent) -> Option<CommandId> {
        match event.about() {
            Some(b) => proposal_under(
                self.proposals,
                in_order::<CommandId>(self.proposals.dom()),
                b,
            ),
            None => None,
        }
    }

    /// The proposal of `c` marked durable.
    pub open spec fn proposal_durable(self, c: CommandId) -> Self {
        LeaderView {
            proposals: self.proposals.insert(
                c,
                ProposalView { durable: true, ..self.proposals[c] },
            ),
            ..self
        }
    }

    /// A storage event handled.
    pub open spec fn stored<H: Fn(HashDomain, Vec<Vec<u8>>) -> Digest32>(
        self,
        hash: H,
        event: StorageEvent,
    ) -> Turn {
        let noted = self.noted(event);
        let about = noted.proposal_about(event);
        match (about, event) {
            (Some(c), StorageEvent::Failed { error: StorageError::DefinitelyNotCommitted, .. }) => {
                let (retried, said) = noted.retried(hash, c, self.written_under(event));
                let (done, more) = retried.pending_advanced();
                (done, said + more)
            },
            _ => {
                let marked = match (about, event) {
                    (Some(c), StorageEvent::JournalDurable { .. }) => noted.proposal_durable(c),
                    (Some(c), StorageEvent::Failed { error, .. }) => noted.fenced_for(
                        FenceReason::ProposalUnresolved { command: c, error },
                    ),
                    _ => noted,
                };
                let (advanced, said) = marked.pending_advanced();
                let (done, more) = advanced.learned().report_delivered(hash);
                (done, said + more)
            },
        }
    }

    /// A candidate's `NewLeader` handled.
    pub open spec fn asked_to_promise(self, from: PeerId, ballot: Ballot) -> Turn {
        match self.boot {
            None => quiet(self),
            Some(boot) => match self.ballots.promise_refusal(from, ballot) {
                Some(e) => quiet(self.rejected(Rejection::Promise(e))),
                None => {
                    let reply = self.ballots.promise_reply(
                        from,
                        ballot,
                        boot.id,
                        self.barrier(),
                        self.cut(),
                    );
                    (
                        LeaderView {
                            ballots: self.ballots.promising(from, ballot, self.barrier()),
                            report_due: Some(
                                PendingView {
                                    ballot,
                                    to: from,
                                    requires_durable: reply.requires_durable,
                                },
                            ),
                            ..self
                        }.allocated(),
                        seq![
                            EffectView::Persist(
                                self.ballots.promise_batch(ballot, self.barrier()),
                            ),
                            EffectView::Publish(reply),
                        ],
                    )
                },
            },
        }
    }

    /// A coordinator's `SealRequest` handled.
    pub open spec fn asked_to_seal(self, from: PeerId, transition: Transition) -> Turn {
        match self.boot {
            None => quiet(self),
            Some(boot) => match self.ballots.seal_refusal(transition) {
                Some(e) => quiet(self.rejected(Rejection::Seal(e))),
                None => (
                    LeaderView {
                        ballots: self.ballots.sealing_under(transition, self.barrier()),
                        ..self
                    }.allocated(),
                    seq![
                        EffectView::Persist(self.ballots.seal_batch(transition, self.barrier())),
                        EffectView::Publish(
                            self.ballots.seal_report(
                                transition,
                                from,
                                boot.id,
                                self.barrier(),
                                self.cut(),
                            ),
                        ),
                    ],
                ),
            },
        }
    }

    /// A peer's vote handled.
    pub open spec fn collected(self, seal: Sealing, from: ReplicaId, vote: VoteView) -> Turn {
        let c = vote.command();
        if vote.replica() != from {
            quiet(self.rejected(Rejection::Vote(VoteError::NotAVoter)))
        } else if !self.votes.contains_key(c) {
            quiet(self.rejected(Rejection::Vote(VoteError::WrongCommand)))
        } else {
            let counted = LeaderView {
                votes: self.votes.insert(c, self.votes[c].presented(vote)),
                ..self
            };
            let said = match self.votes[c].refusal(vote) {
                Some(e) => counted.rejected(Rejection::Vote(e)),
                None => counted,
            };
            said.learned().released_ready(seal)
        }
    }

    /// A peer's frame handled.
    pub open spec fn received<H: Fn(HashDomain, Vec<Vec<u8>>) -> Digest32>(
        self,
        hash: H,
        seal: Sealing,
        from: PeerId,
        frame: Seq<u8>,
    ) -> Turn {
        match message_in(frame) {
            Err(_) => quiet(self.rejected(Rejection::MalformedPeerMessage)),
            Ok(m) => match m {
                MessageView::NewLeader { ballot } => self.asked_to_promise(from, ballot),
                MessageView::FastAck(ack) => self.collected(
                    seal,
                    from.replica,
                    VoteView::Fast(ack),
                ),
                MessageView::SlowAck(ack) => self.collected(
                    seal,
                    from.replica,
                    VoteView::Slow(ack),
                ),
                MessageView::PayloadRequest { commands } => match self.boot {
                    None => quiet(self),
                    Some(boot) => (
                        self,
                        payloads_served(self, boot, from.replica, commands),
                    ),
                },
                MessageView::Sync(decision) => if self.deposed() {
                    quiet(
                        LeaderView { pending_sync: Some((from.replica, decision)), ..self },
                    )
                } else {
                    quiet(self)
                },
                MessageView::SealRequest { transition } => self.asked_to_seal(from, transition),
                _ => quiet(self),
            },
        }
    }

    /// The replica booted.
    pub open spec fn booted(self, boot_id: BootId, first: u64) -> Self {
        LeaderView {
            boot: Some(BootView { id: boot_id, next: first, settled: SettledView::none() }),
            ..self
        }
    }

    /// Room for one more proposal and one more election.
    pub open spec fn counting(self) -> bool {
        self.seqnum < u64::MAX && self.ballots.elections < u64::MAX
    }

    /// An event handled.
    pub open spec fn stepped<H: Fn(HashDomain, Vec<Vec<u8>>) -> Digest32>(
        self,
        hash: H,
        seal: Sealing,
        event: Event,
    ) -> Turn {
        match event {
            Event::Boot { boot_id, first_barrier } => quiet(self.booted(boot_id, first_barrier)),
            Event::Admitted { request, admission } => self.proposed(
                hash,
                request_view(request),
                Some(admission@),
            ),
            Event::Storage(event) => self.stored(hash, event),
            Event::Peer { from, frame } => self.received(hash, seal, from, frame@),
            Event::Other => quiet(self),
        }
    }
}

proof fn lemma_accept_one(state: LeaderView, c: CommandId)
    requires
        state.table.phase_of(c) == Some(Phase::PreAccept),
    ensures
        ({
            let next = state.accept_one(c).0;
            &&& next.proposals == state.proposals
            &&& forall|x: CommandId|
                x != c ==> #[trigger] next.table.phase_of(x) == state.table.phase_of(x)
            &&& next.table.phase_of(c) == Some(Phase::PreAccept) ==> state.accept_one(c) == quiet(
                state,
            )
        }),
{
}

proof fn lemma_accept_each(state: LeaderView, cs: Seq<CommandId>)
    requires
        cs.no_duplicates(),
        forall|i: int| 0 <= i < cs.len() ==> state.acceptable().contains(#[trigger] cs[i]),
    ensures
        ({
            let next = state.accept_each(cs).0;
            &&& next.proposals == state.proposals
            &&& forall|x: CommandId|
                !cs.contains(x) ==> #[trigger] next.table.phase_of(x) == state.table.phase_of(x)
        }),
    decreases cs.len(),
{
    if cs.len() > 0 {
        let before = cs.drop_last();
        let c = cs.last();
        assert forall|i: int, j: int| 0 <= i < before.len() && 0 <= j < before.len() && i
            != j implies before[i] != before[j] by {
            assert(before[i] == cs[i] && before[j] == cs[j]);
        }
        assert forall|i: int| 0 <= i < before.len() implies state.acceptable().contains(
            #[trigger] before[i],
        ) by {
            assert(before[i] == cs[i]);
        }
        lemma_accept_each(state, before);
        let mid = state.accept_each(before).0;
        assert(cs[cs.len() - 1] == c);
        assert(!before.contains(c)) by {
            if before.contains(c) {
                let i = choose|i: int| 0 <= i < before.len() && before[i] == c;
                assert(cs[i] == c);
            }
        }
        assert(mid.table.phase_of(c) == state.table.phase_of(c));
        assert(state.acceptable().contains(c));
        lemma_accept_one(mid, c);
        let next = state.accept_each(cs).0;
        assert forall|x: CommandId| !cs.contains(x) implies #[trigger] next.table.phase_of(x)
            == state.table.phase_of(x) by {
            assert(x != c);
            assert(!before.contains(x)) by {
                if before.contains(x) {
                    let i = choose|i: int| 0 <= i < before.len() && before[i] == x;
                    assert(cs[i] == x);
                }
            }
            assert(mid.table.phase_of(x) == state.table.phase_of(x));
        }
    }
}

/// A pass that accepts anything leaves fewer proposals to accept.
pub proof fn lemma_accept_round(state: LeaderView)
    requires
        state.proposals.dom().finite(),
    ensures
        ({
            let next = state.accept_round().0;
            &&& state.acceptable().finite()
            &&& next.proposals == state.proposals
            &&& next.acceptable().subset_of(state.acceptable())
            &&& next.acceptable() != state.acceptable() ==> next.acceptable().len()
                < state.acceptable().len()
        }),
{
    let open = state.acceptable();
    let cs = in_order::<CommandId>(open);
    lemma_in_order::<CommandId>(open);
    assert forall|i: int| 0 <= i < cs.len() implies open.contains(#[trigger] cs[i]) by {
        assert(cs.contains(cs[i]));
    }
    lemma_accept_each(state, cs);
    let next = state.accept_round().0;
    assert forall|c: CommandId| next.acceptable().contains(c) implies open.contains(c) by {
        if !cs.contains(c) {
            assert(next.table.phase_of(c) == state.table.phase_of(c));
        }
    }
    if next.acceptable() != open {
        vstd::set_lib::lemma_len_subset(next.acceptable(), open);
        if next.acceptable().len() == open.len() {
            vstd::set_lib::lemma_subset_equality(next.acceptable(), open);
        }
    }
}

/// Adopting the leader's own order touches the table, the ledger and the
/// barriers, and nothing else.
pub open spec fn only_accepts(before: LeaderView, after: LeaderView) -> bool {
    after == (LeaderView {
        table: after.table,
        ledger: after.ledger,
        boot: after.boot,
        ..before
    })
}

proof fn lemma_accept_each_frame(state: LeaderView, cs: Seq<CommandId>)
    ensures
        only_accepts(state, state.accept_each(cs).0),
    decreases cs.len(),
{
    if cs.len() > 0 {
        lemma_accept_each_frame(state, cs.drop_last());
    }
}

proof fn lemma_pending_frame(state: LeaderView)
    requires
        state.proposals.dom().finite(),
    ensures
        only_accepts(state, state.pending_advanced().0),
{
    if state.leading() {
        lemma_accept_rounds_frame(state);
    }
}

proof fn lemma_accept_rounds_frame(state: LeaderView)
    requires
        state.proposals.dom().finite(),
    ensures
        only_accepts(state, state.accept_rounds().0),
    decreases state.acceptable().len(),
{
    lemma_accept_each_frame(state, in_order::<CommandId>(state.acceptable()));
    lemma_accept_round(state);
    let next = state.accept_round().0;
    if next.acceptable() != state.acceptable() {
        lemma_accept_rounds_frame(next);
    }
}

/// Only a replica that leads proposes: otherwise an admitted request changes
/// nothing but the list of refusals, and nothing is asked of the runtime.
pub proof fn lemma_only_a_leader_proposes<H: Fn(HashDomain, Vec<Vec<u8>>) -> Digest32>(
    state: LeaderView,
    hash: H,
    request: Option<RequestView>,
    admission: Option<Seq<u8>>,
)
    requires
        !state.leading(),
    ensures
        state.proposed(hash, request, admission).1.len() == 0,
        state.proposed(hash, request, admission).0 == (LeaderView {
            rejections: state.proposed(hash, request, admission).0.rejections,
            ..state
        }),
{
}

/// Everything a proposal publishes rests on the batch written with it: the
/// first effect is that batch, and every other is a send that waits for it.
pub proof fn lemma_proposals_rest_on_their_batch<H: Fn(HashDomain, Vec<Vec<u8>>) -> Digest32>(
    state: LeaderView,
    hash: H,
    request: Option<RequestView>,
    admission: Option<Seq<u8>>,
    i: int,
)
    requires
        0 <= i < state.proposed(hash, request, admission).1.len(),
    ensures
        ({
            let effects = state.proposed(hash, request, admission).1;
            &&& effects[0] is Persist
            &&& effects[0]->Persist_0.barrier == state.barrier()
            &&& i > 0 ==> effects[i] is Publish && effects[i]->Publish_0.requires_durable
                == seq![state.barrier()]
        }),
{
    let q = request->0;
    let c = q.command;
    let payload = LeaderView::payload_of(q, admission);
    let digest = payload.admitted(hash);
    let table = state.table.opened(c).with_initialized(hash, c, digest, conservative_keys());
    let record = table.records[c];
    let ack = state.ack_of(c, record.deps, record.paths, record.path, digest, state.seqnum);
    let sends = state.proposal_sends(state.barrier(), ack);
    let effects = state.proposed(hash, request, admission).1;
    if 0 < i <= sends.len() {
        let context = state.ballots.context(state.boot->0.id, state.config.quorum.ballot);
        crate::machine::lemma_published_to(
            context,
            seq![state.barrier()],
            in_order::<ReplicaId>(state.config.identity.voters),
            state.config.identity.replica,
            frame_of(MessageView::Proposal(ack)),
            i - 1,
        );
        assert(effects[i] == sends[i - 1]);
    }
}

/// Each proposal is kept under its own command, and no two have the same
/// place in the leader's order.
pub open spec fn numbered(state: LeaderView) -> bool {
    &&& forall|c: CommandId| #[trigger]
        state.proposals.contains_key(c) ==> state.proposals[c].command == c
            && state.proposals[c].seqnum < state.seqnum
    &&& forall|a: CommandId, b: CommandId| #[trigger]
        state.proposals.contains_key(a) && #[trigger] state.proposals.contains_key(b) && a != b
            ==> state.proposals[a].seqnum != state.proposals[b].seqnum
}

/// Whatever happens, a bound retry key keeps its command, a fenced leader
/// stays fenced for the same reason, and the proposals keep distinct places
/// in the leader's order.
pub proof fn lemma_leader_never_goes_back<H: Fn(HashDomain, Vec<Vec<u8>>) -> Digest32>(
    state: LeaderView,
    hash: H,
    seal: Sealing,
    event: Event,
    key: RetryKey,
)
    requires
        state.proposals.dom().finite(),
        state.counting(),
        numbered(state),
    ensures
        state.bindings.contains_key(key) ==> state.stepped(hash, seal, event).0.bindings.contains_key(key)
            && state.stepped(hash, seal, event).0.bindings[key] == state.bindings[key],
        state.fenced is Some ==> state.stepped(hash, seal, event).0.fenced == state.fenced,
        numbered(state.stepped(hash, seal, event).0),
        state.stepped(hash, seal, event).0.seqnum >= state.seqnum,
{
    match event {
        Event::Storage(e) => {
            let noted = state.noted(e);
            let about = noted.proposal_about(e);
            if about is Some {
                lemma_proposal_under(
                    noted.proposals,
                    in_order::<CommandId>(noted.proposals.dom()),
                    e.about()->0,
                );
                lemma_in_order::<CommandId>(noted.proposals.dom());
            }
            match (about, e) {
                (
                    Some(c),
                    StorageEvent::Failed { error: StorageError::DefinitelyNotCommitted, .. },
                ) => {
                    let retried = noted.retried(hash, c, state.written_under(e)).0;
                    assert(retried.proposals.dom() =~= noted.proposals.dom());
                    lemma_pending_frame(retried);
                },
                _ => {
                    let marked = match (about, e) {
                        (Some(c), StorageEvent::JournalDurable { .. }) => noted.proposal_durable(
                            c,
                        ),
                        (Some(c), StorageEvent::Failed { error, .. }) => noted.fenced_for(
                            FenceReason::ProposalUnresolved { command: c, error },
                        ),
                        _ => noted,
                    };
                    assert(marked.proposals.dom() =~= noted.proposals.dom());
                    lemma_pending_frame(marked);
                },
            }
        },
        _ => {},
    }
}

/// Nothing is disclosed unsealed: whatever an application establishes or
/// releases, and whatever a vote releases, rests on evidence that was sealed.
pub proof fn lemma_what_leaves_is_sealed(
    state: LeaderView,
    seal: Sealing,
    c: CommandId,
    outcome: OutcomeView,
    from: ReplicaId,
    vote: VoteView,
    i: int,
)
    ensures
        0 <= i < state.applied(seal, c, outcome).1.len() ==> disclosed_sealed(
            seal,
            state.applied(seal, c, outcome).1[i],
        ),
        0 <= i < state.collected(seal, from, vote).1.len() ==> disclosed_sealed(
            seal,
            state.collected(seal, from, vote).1[i],
        ),
{
    let settled = state.executed(c);
    let marked = LeaderView {
        speculation: settled.speculation.forgotten(c),
        ..settled
    }.marked_executed(c);
    let said = state.applied(seal, c, outcome).1;
    let more = marked.released_ready(seal).1;
    if 0 <= i < said.len() {
        let first = said.len() - more.len();
        if i >= first {
            assert(said[i] == more[i - first]);
            lemma_ready_is_sealed(marked, seal, i - first);
        }
    }
    let v = vote.command();
    let counted = LeaderView { votes: state.votes.insert(v, state.votes[v].presented(vote)), ..state };
    let heard = match state.votes[v].refusal(vote) {
        Some(e) => counted.rejected(Rejection::Vote(e)),
        None => counted,
    };
    lemma_ready_is_sealed(heard.learned(), seal, i);
}

/// What an effect establishes or releases was sealed.
pub open spec fn disclosed_sealed(seal: Sealing, effect: EffectView) -> bool {
    &&& effect matches EffectView::Established(e) ==> seal(e)
    &&& effect matches EffectView::Released(r) ==> seal(r.evidence)
}

proof fn lemma_ready_is_sealed(state: LeaderView, seal: Sealing, i: int)
    ensures
        0 <= i < state.released_ready(seal).1.len() ==> disclosed_sealed(
            seal,
            state.released_ready(seal).1[i],
        ),
{
    let all = state.speculation.releasable(state.gate(seal), state.unexecuted());
    if 0 <= i < state.released_ready(seal).1.len() {
        crate::speculation::lemma_release_needs_the_prefix(
            state.speculation,
            state.gate(seal),
            state.unexecuted(),
            i,
        );
    }
}

proof fn lemma_proposal_under(
    proposals: Map<CommandId, ProposalView>,
    order: Seq<CommandId>,
    barrier: BarrierId,
)
    ensures
        proposal_under(proposals, order, barrier) matches Some(c) ==> order.contains(c),
    decreases order.len(),
{
    if order.len() > 0 {
        let before = order.drop_last();
        lemma_proposal_under(proposals, before, barrier);
        match proposal_under(proposals, before, barrier) {
            Some(c) => {
                let i = choose|i: int| 0 <= i < before.len() && before[i] == c;
                assert(order[i] == c);
            },
            None => {
                assert(order[order.len() - 1] == order.last());
            },
        }
    }
}

impl Leader {
    /// A leader from its configuration, the recovered promise row and the
    /// application's durable execution position. The learner resumes from
    /// that position, so the next command it establishes is the one the
    /// applier will plan.
    pub fn new(
        config: LeaderConfig,
        durable_promise: Option<PromiseRecordV1>,
        executed_through: ExecutionPosition,
    ) -> (r: Self)
        ensures
            r@ == LeaderView::begun(config@, durable_promise, None, executed_through),
    {
        Leader::new_sealed(config, durable_promise, None, executed_through)
    }

    /// A leader that also recovers the durable seal of its configuration.
    ///
    /// Leading is a role within a configuration and the fence is the
    /// configuration's, so a leader of a sealed epoch is as fenced as any
    /// other voter: it admits no promise and proposes nothing new.
    pub fn new_sealed(
        config: LeaderConfig,
        durable_promise: Option<PromiseRecordV1>,
        durable_seal: Option<SealRecordV1>,
        executed_through: ExecutionPosition,
    ) -> (r: Self)
        ensures
            r@ == LeaderView::begun(config@, durable_promise, durable_seal, executed_through),
    {
        let ballots = BallotState::recover_sealed(
            config.identity.dup(),
            config.genesis,
            durable_promise,
            durable_seal,
        );
        let table = CommandTable::with_capacity(config.capacity);
        let r = Leader {
            config,
            boot: None,
            ballots,
            table,
            bindings: OrdMap::new(),
            proposals: OrdMap::new(),
            votes: OrdMap::new(),
            payloads: OrdMap::new(),
            ledger: DurableLedger::new(),
            learner: Learner::new(executed_through),
            seqnum: 0,
            report_due: None,
            pending_sync: None,
            speculation: Speculation::new(),
            rejections: Vec::new(),
            fenced: None,
        };
        proof {
            assert(r@ =~= LeaderView::begun(
                config@,
                durable_promise,
                durable_seal,
                executed_through,
            ));
        }
        r
    }

    /// Whether a higher ballot was promised: this replica no longer leads
    /// and should convert to a follower (a Sync received meanwhile is
    /// carried over).
    pub fn deposed(&self) -> (r: bool)
        ensures
            r == self@.deposed(),
    {
        self.ballots.promised() != self.config.quorum.ballot()
    }

    /// The ballot configuration this leader was activated under.
    pub fn config_quorum(&self) -> (r: BallotConfiguration)
        ensures
            r@ == self@.config.quorum,
    {
        self.config.quorum.dup()
    }

    /// The Sync received while still holding the leader role, if any.
    pub fn pending_sync(&self) -> (r: Option<&(ReplicaId, SyncDecision)>)
        ensures
            r is Some <==> self@.pending_sync is Some,
            r is Some ==> ((r->0).0, (r->0).1@) == self@.pending_sync->0,
    {
        match &self.pending_sync {
            Some(p) => Some(p),
            None => None,
        }
    }

    fn durable_proposals(&self) -> (r: OrdSet<CommandId>)
        ensures
            r@ == self@.given_up().served_payloads,
    {
        let n: usize = self.proposals.len();
        let ghost order = in_order::<CommandId>(self.proposals@.dom());
        let ghost goal = self@.given_up().served_payloads;
        proof {
            lemma_in_order::<CommandId>(self.proposals@.dom());
        }
        let mut out: OrdSet<CommandId> = OrdSet::new();
        let mut i: usize = 0;
        proof {
            assert(out@ =~= goal.intersect(order.take(0).to_set()));
        }
        while i < n
            invariant
                i <= n == self.proposals@.dom().len(),
                order == in_order::<CommandId>(self.proposals@.dom()),
                order.len() == n,
                goal == self@.given_up().served_payloads,
                out@ == goal.intersect(order.take(i as int).to_set()),
            decreases n - i,
        {
            let c = *self.proposals.key_at(i);
            if self.proposals.value_at(i).durable {
                out.insert(c);
            }
            proof {
                lemma_take_set(order, i as int);
                assert(out@ =~= goal.intersect(order.take(i + 1).to_set()));
            }
            i = i + 1;
        }
        proof {
            assert(order.take(n as int) =~= order);
            assert(out@ =~= goal) by {
                assert forall|c: CommandId| goal.contains(c) implies order.to_set().contains(c) by {
                    assert(order.contains(c));
                }
            }
        }
        out
    }

    /// Give up the role: everything durable or learned, nothing
    /// ballot-scoped.
    pub fn into_recovered(self) -> (r: RecoveredState)
        ensures
            r@ == self@.given_up(),
    {
        let served_payloads = self.durable_proposals();
        let ghost before = self@;
        let r = RecoveredState {
            report_due: self.report_due,
            identity: self.config.identity,
            ballots: self.ballots,
            table: self.table,
            ledger: self.ledger,
            payloads: self.payloads,
            bindings: self.bindings,
            served_payloads,
            learner: self.learner,
            boot: self.boot,
            frontend: self.config.frontend,
            capacity: self.config.capacity,
        };
        proof {
            assert(r@ =~= before.given_up());
        }
        r
    }

    /// The durable ledger (journal-durable records only).
    pub fn ledger(&self) -> (r: &DurableLedger)
        ensures
            r@ == self@.ledger,
    {
        &self.ledger
    }

    /// The recovery report for `ballot` from durable state at this cut.
    pub fn report(&self, ballot: Ballot) -> (r: RecoveryReport)
        ensures
            r@ == self@.report(ballot),
    {
        self.ledger.report(self.config.identity.replica, ballot, self.ballots.synced())
    }

    /// The next command to execute through the materializer, if any.
    pub fn next_executable(&self) -> (r: Option<CommandId>)
        ensures
            is_next(
                self@.table,
                |c: CommandId|
                    if self@.proposals.contains_key(c) {
                        Some(self@.proposals[c].seqnum)
                    } else {
                        None
                    },
                r,
            ),
    {
        let seqnum_of = |c: CommandId| -> (n: Option<u64>)
            ensures
                n == (if self@.proposals.contains_key(c) {
                    Some(self@.proposals[c].seqnum)
                } else {
                    None
                }),
            {
                match self.proposals.get(&c) {
                    Some(p) => Some(p.seqnum),
                    None => None,
                }
            };
        let r = self.learner.next_executable(&self.table, &seqnum_of);
        proof {
            let seqs = |c: CommandId|
                if self@.proposals.contains_key(c) {
                    Some(self@.proposals[c].seqnum)
                } else {
                    None
                };
            assert(crate::learner::numbers(seqnum_of, seqs));
        }
        r
    }

    /// The durable payload of a proposed command.
    pub fn payload(&self, command: &CommandId) -> (r: Option<&PayloadRecordV1>)
        ensures
            r is Some <==> self@.payloads.contains_key(*command),
            r is Some ==> r->0@ == self@.payloads[*command],
    {
        self.payloads.get(command)
    }

    /// The execution frontier.
    pub fn executed_through(&self) -> (r: ExecutionPosition)
        ensures
            r == self@.learner.executed_through,
    {
        self.learner.executed_through()
    }

    /// Choose the learning predicates (full, or the forced slow path for
    /// comparison runs); carried across role changes and restarts.
    pub fn set_learning(&mut self, mode: LearningMode)
        ensures
            final(self)@ == (LeaderView {
                learner: LearnerView { mode, ..old(self)@.learner },
                ..old(self)@
            }),
    {
        self.learner.set_mode(mode);
    }

    /// The learning mode in effect.
    pub fn learning(&self) -> (r: LearningMode)
        ensures
            r == self@.learner.mode,
    {
        self.learner.mode()
    }

    /// Whether this replica leads the promised ballot: it votes in this
    /// epoch (a non-voting role never proposes), its identity agrees with
    /// the ballot configuration, the promised ballot is the configured one
    /// and no promise is in flight, it has not been fenced, and its
    /// configuration is not sealed. The seal is read from the promise state
    /// on every call, so a leader recovered from a durable seal row is
    /// fenced from its first step and a leader whose seal row failed is not.
    pub fn is_leading(&self) -> (r: bool)
        ensures
            r == self@.leading(),
    {
        self.fenced.is_none() && !self.ballots.is_fenced() && self.config.identity.role
            == ReplicaRole::Voter && self.config.identity.epoch == self.config.quorum.epoch()
            && self.config.identity.voters.same(self.config.quorum.voters())
            && self.config.quorum.is_voter(&self.config.identity.replica)
            && self.ballots.promised() == self.config.quorum.ballot()
            && self.config.quorum.ballot().leader == self.config.identity.replica
            && self.ballots.in_flight().is_none()
    }

    /// Why the leader stopped leading, if it did.
    pub fn fenced(&self) -> (r: Option<FenceReason>)
        ensures
            r == self@.fenced,
    {
        self.fenced
    }

    fn fence(&mut self, reason: FenceReason)
        ensures
            final(self)@ == old(self)@.fenced_for(reason),
    {
        if self.fenced.is_none() {
            self.fenced = Some(reason);
            self.rejections.push(Rejection::Fenced(reason));
        }
    }

    fn reject(&mut self, rejection: Rejection)
        ensures
            final(self)@ == old(self)@.rejected(rejection),
    {
        self.rejections.push(rejection);
    }

    /// The command table (phases, dependencies, paths).
    pub fn table(&self) -> (r: &CommandTable)
        ensures
            r@ == self@.table,
    {
        &self.table
    }

    /// The leader sequence number the next proposal takes.
    pub fn seqnum(&self) -> (r: u64)
        ensures
            r == self@.seqnum,
    {
        self.seqnum
    }

    /// The promise state.
    pub fn ballots(&self) -> (r: &BallotState)
        ensures
            r@ == self@.ballots,
    {
        &self.ballots
    }

    /// The proposal for a command, if any.
    pub fn proposal(&self, command: &CommandId) -> (r: Option<&Proposal>)
        ensures
            r is Some <==> self@.proposals.contains_key(*command),
            r is Some ==> r->0@ == self@.proposals[*command],
    {
        self.proposals.get(command)
    }

    /// Collected acknowledgements for a command.
    pub fn votes(&self, command: &CommandId) -> (r: Option<&VoteSet>)
        ensures
            r is Some <==> self@.votes.contains_key(*command),
            r is Some ==> r->0@ == self@.votes[*command],
    {
        self.votes.get(command)
    }

    /// Take the rejections recorded since the last call.
    pub fn take_rejections(&mut self) -> (r: Vec<Rejection>)
        ensures
            r@ == old(self)@.rejections,
            final(self)@ == (LeaderView { rejections: Seq::empty(), ..old(self)@ }),
    {
        let mut taken: Vec<Rejection> = Vec::new();
        std::mem::swap(&mut taken, &mut self.rejections);
        proof {
            assert(self@ =~= (LeaderView { rejections: Seq::empty(), ..old(self)@ }));
        }
        taken
    }

    /// The tentative outcome of a command, if computed and not executed.
    pub fn tentative(&self, command: &CommandId) -> (r: Option<&TentativeOutcome>)
        ensures
            r is Some <==> self@.speculation.outcomes.contains_key(*command),
            r is Some ==> r->0@ == self@.speculation.outcomes[*command],
    {
        self.speculation.outcome(command)
    }

    /// Bound on unexecuted proposals speculated ahead (zero disables).
    pub fn set_speculation_bound(&mut self, bound: usize)
        ensures
            final(self)@ == (LeaderView {
                speculation: SpeculationView { bound, ..old(self)@.speculation },
                ..old(self)@
            }),
    {
        self.speculation.set_bound(bound);
    }

    /// The companion refused to speculate the command (not speculable or
    /// over budget): the chain stops there until it executes.
    pub fn decline_speculation(&mut self, command: CommandId)
        ensures
            final(self)@ == (LeaderView {
                speculation: SpeculationView {
                    declined: old(self)@.speculation.declined.insert(command),
                    ..old(self)@.speculation
                },
                ..old(self)@
            }),
    {
        self.speculation.decline(command);
    }

    fn learn(&mut self)
        ensures
            final(self)@ == old(self)@.learned(),
    {
        let _ = self.learner.commit_learned(&mut self.table, &self.votes);
        proof {
            assert(self@ =~= old(self)@.learned());
        }
    }

    fn allocate(&mut self) -> (r: BarrierId)
        requires
            old(self)@.boot is Some,
        ensures
            r == old(self)@.barrier(),
            final(self)@ == old(self)@.allocated(),
    {
        let taken = self.boot.take();
        match taken {
            Some(mut boot) => {
                let r = boot.alloc.allocate();
                self.boot = Some(boot);
                proof {
                    assert(self@ =~= old(self)@.allocated());
                }
                r
            },
            None => BarrierId(0),
        }
    }

    fn admission_in<H: Fn(HashDomain, Vec<Vec<u8>>) -> Digest32>(&self, hash: &H, c: &CommandId) -> (r:
        Digest32)
        requires
            is_hash(*hash),
        ensures
            r == self@.admission_in(*hash, *c),
    {
        match self.table.record(c) {
            Some(record) => match record.payload {
                Some(p) => p,
                None => admission_digest(hash, None, 0),
            },
            None => admission_digest(hash, None, 0),
        }
    }

    /// Unexecuted proposals in the leader's order.
    fn unexecuted_in_order(&self) -> (r: Vec<CommandId>)
        ensures
            r@ == self@.unexecuted(),
    {
        let n: usize = self.proposals.len();
        let ghost order = in_order::<CommandId>(self.proposals@.dom());
        proof {
            lemma_in_order::<CommandId>(self.proposals@.dom());
        }
        let mut turns: OrdSet<(u64, CommandId)> = OrdSet::new();
        let mut i: usize = 0;
        proof {
            assert(turns@ =~= self@.unexecuted_among(order.take(0).to_set()));
        }
        while i < n
            invariant
                i <= n == self.proposals@.dom().len(),
                order == in_order::<CommandId>(self.proposals@.dom()),
                order.len() == n,
                turns@ == self@.unexecuted_among(order.take(i as int).to_set()),
            decreases n - i,
        {
            let c = *self.proposals.key_at(i);
            let p = self.proposals.value_at(i);
            proof {
                lemma_take_set(order, i as int);
            }
            if !p.executed && !has_reached(self.table.phase_of(&c), Phase::Executed) {
                turns.insert((p.seqnum, c));
            }
            proof {
                assert(turns@ =~= self@.unexecuted_among(order.take(i + 1).to_set()));
            }
            i = i + 1;
        }
        proof {
            assert(order.take(n as int) =~= order);
            assert(turns@ =~= self@.unexecuted_among(self@.proposals.dom())) by {
                assert forall|c: CommandId| self@.proposals.dom().contains(
                    c,
                ) implies order.to_set().contains(c) by {
                    assert(order.contains(c));
                }
            }
        }
        let list = turns.to_vec();
        let ghost pairs = in_order::<(u64, CommandId)>(turns@);
        let mut out: Vec<CommandId> = Vec::new();
        let mut k: usize = 0;
        while k < list.len()
            invariant
                k <= list@.len(),
                views(list@) == pairs,
                list@.len() == pairs.len(),
                out@ == pairs.map_values(|p: (u64, CommandId)| p.1).take(k as int),
            decreases list@.len() - k,
        {
            proof {
                let all = pairs.map_values(|p: (u64, CommandId)| p.1);
                assert(all.take(k + 1) =~= all.take(k as int).push(all[k as int]));
                assert(views(list@)[k as int] == list@[k as int]@);
            }
            out.push(list[k].1);
            k = k + 1;
        }
        proof {
            let all = pairs.map_values(|p: (u64, CommandId)| p.1);
            assert(all.take(all.len() as int) =~= all);
        }
        out
    }

    /// The next proposal to speculate, if the bound allows and every earlier
    /// unexecuted proposal has a tentative outcome.
    pub fn next_speculable(&self) -> (r: Option<SpeculationRequest>)
        ensures
            crate::speculation::request_view(r) == (if self@.leading() {
                self@.speculation.next_request(
                    self@.unexecuted(),
                    self@.learner.executed_through,
                )
            } else {
                None
            }),
    {
        if !self.is_leading() {
            return None;
        }
        let proposals = self.unexecuted_in_order();
        self.speculation.next_request(&proposals, self.learner.executed_through())
    }

    /// Release tentative results whose command and whole prefix are learned
    /// (the release gate).
    #[verifier::rlimit(40)]
    fn release_ready<S: Fn(EstablishmentEvidence) -> bool>(&mut self, seal: &S) -> (r: Vec<Effect>)
        requires
            is_seal(*seal),
        ensures
            (final(self)@, views(r@)) == old(self)@.released_ready(sealing_of(*seal)),
    {
        if !self.is_leading() {
            return no_effects();
        }
        let proposals = self.unexecuted_in_order();
        let ghost model = self@.gate(sealing_of(*seal));
        let result = {
            let table = &self.table;
            let learner = &self.learner;
            let committed = |c: CommandId| -> (b: bool)
                ensures
                    b == reached(table@.phase_of(c), Phase::Commit),
                { has_reached(table.phase_of(&c), Phase::Commit) };
            let fast = |c: CommandId| -> (b: bool)
                ensures
                    b == learner@.fast.contains(c),
                { learner.learned_fast(&c) };
            let gate = ReleaseGate {
                epoch: self.config.identity.epoch,
                ballot: self.config.quorum.ballot(),
                committed: &committed,
                fast: &fast,
            };
            proof {
                assert(decides(committed, model.committed));
                assert(decides(fast, model.fast));
                assert(gate.answers(model));
            }
            gate.release(seal, &mut self.speculation, &proposals)
        };
        let released = match result {
            Ok(list) => list,
            Err(_) => {
                proof {
                    assert(self@ =~= old(self)@.released_ready(sealing_of(*seal)).0);
                }
                return no_effects();
            },
        };
        let ghost shown = views(released@);
        let mut rest = released;
        let mut back: Vec<ReleasedResult> = Vec::new();
        let ghost given = rest@;
        let ghost n = given.len();
        while rest.len() > 0
            invariant
                back@.len() + rest@.len() == n,
                given.len() == n,
                rest@ == given.take(rest@.len() as int),
                forall|j: int| 0 <= j < back@.len() ==> #[trigger] back@[j] == given[n - 1 - j],
            decreases rest@.len(),
        {
            match rest.pop() {
                Some(x) => {
                    back.push(x);
                },
                None => {},
            }
        }
        let ghost goal = shown.map_values(|r: ReleasedView| EffectView::Released(r));
        let mut out = no_effects();
        let ghost mut i: int = 0;
        proof {
            assert(goal.take(0) =~= Seq::<EffectView>::empty());
        }
        while back.len() > 0
            invariant
                0 <= i <= n,
                back@.len() == n - i,
                given.len() == n,
                shown == views(given),
                goal == shown.map_values(|r: ReleasedView| EffectView::Released(r)),
                forall|j: int| 0 <= j < back@.len() ==> #[trigger] back@[j] == given[n - 1 - j],
                views(out@) == goal.take(i),
            decreases back@.len(),
        {
            let ghost last = back@.len() - 1;
            match back.pop() {
                Some(x) => {
                    proof {
                        assert(x == given[n - 1 - last]);
                        assert(goal.take(i + 1) =~= goal.take(i).push(goal[i]));
                    }
                    emit(&mut out, Effect::Released(x));
                    proof {
                        i = i + 1;
                    }
                },
                None => {},
            }
        }
        proof {
            assert(goal.take(n as int) =~= goal);
            assert(self@ =~= old(self)@.released_ready(sealing_of(*seal)).0);
        }
        out
    }

    /// Record a tentative outcome; releases whatever the learned prefix now
    /// allows.
    pub fn speculated<S: Fn(EstablishmentEvidence) -> bool>(
        &mut self,
        seal: &S,
        outcome: TentativeOutcome,
    ) -> (r: Vec<Effect>)
        requires
            is_seal(*seal),
        ensures
            (final(self)@, views(r@)) == (if old(self)@.proposals.contains_key(outcome@.command) {
                (LeaderView {
                    speculation: old(self)@.speculation.recorded(outcome@),
                    ..old(self)@
                }).released_ready(sealing_of(*seal))
            } else {
                quiet(old(self)@)
            }),
    {
        if !self.proposals.contains_key(&outcome.command) {
            return no_effects();
        }
        let ghost recorded = LeaderView {
            speculation: self@.speculation.recorded(outcome@),
            ..self@
        };
        self.speculation.record(outcome);
        proof {
            assert(self@ =~= recorded);
        }
        self.release_ready(seal)
    }
}

impl Leader {
    /// Stage a proposal whose record is in the table: its batch, its own
    /// vote and its bookkeeping.
    fn stage_proposal(&mut self, barrier: BarrierId, ack: FastAck, updates: Vec<StoreUpdate>)
        requires
            old(self)@.table.records.contains_key(ack@.command),
            ack@.seqnum is Some,
            old(self)@.seqnum < u64::MAX,
        ensures
            final(self)@ == old(self)@.with_proposal(barrier, ack@, views(updates@)),
    {
        let command = ack.command;
        let seqnum: u64 = match ack.seqnum {
            Some(n) => n,
            None => 0,
        };
        if let Some(record) = self.table.record(&command) {
            let record = record.dup();
            self.ledger.stage(barrier, command, record);
        }
        let proposal = Proposal {
            command,
            barrier,
            seqnum,
            deps: copy_list(&ack.deps),
            path: ack.path,
            paths: dup_all(&ack.paths),
            durable: false,
            updates,
            attempts: 1,
            executed: false,
        };
        let mut set = VoteSet::new(self.config.quorum.dup(), command);
        let _ = set.add(Vote::Fast(ack));
        self.votes.insert(command, set);
        self.proposals.insert(command, proposal);
        self.seqnum = self.seqnum + 1;
        proof {
            assert(self@ =~= old(self)@.with_proposal(barrier, ack@, views(updates@)));
        }
    }

    /// Publish a proposal to every other voter.
    fn publish_proposal(&self, out: &mut Vec<Effect>, barrier: BarrierId, ack: &FastAck)
        requires
            self@.boot is Some,
        ensures
            views(final(out)@) == views(old(out)@) + self@.proposal_sends(barrier, ack@),
    {
        if let Some(boot) = &self.boot {
            let context = self.ballots.context(boot.id, self.config.quorum.ballot());
            let message = ProtocolMessage::Proposal(ack.dup());
            let frame = message.encode();
            broadcast(out, context, &only(barrier), &self.config.identity, &frame);
        }
    }

    /// Publish the reply to the frontend.
    fn publish_reply(&self, out: &mut Vec<Effect>, barrier: BarrierId, ack: &FastAck)
        requires
            self@.boot is Some,
            ack@.seqnum is Some,
        ensures
            views(final(out)@) == views(old(out)@).push(self@.reply_send(barrier, ack@)),
    {
        if let Some(boot) = &self.boot {
            let ballot = self.config.quorum.ballot();
            let context = self.ballots.context(boot.id, ballot);
            let seqnum: u64 = match ack.seqnum {
                Some(n) => n,
                None => 0,
            };
            let message = ProtocolMessage::LeaderReply {
                ballot,
                command: ack.command,
                seqnum,
                deps: copy_list(&ack.deps),
                path: ack.path,
            };
            let frame = message.encode();
            publish(out, context, &only(barrier), self.config.frontend, &frame);
        }
    }

    /// Propose a known command under this ballot with `deps`.
    ///
    /// Re-proposal installs the order this ballot chose. A command that is
    /// only accepted locally, from a lower synchronized ballot, must take
    /// the new dependencies: leaving the table and the durable row on the
    /// old ones would make this leader learn from evidence about a different
    /// order. Committed and executed records keep theirs.
    fn repropose<H: Fn(HashDomain, Vec<Vec<u8>>) -> Digest32>(
        &mut self,
        hash: &H,
        command: CommandId,
        deps: Vec<CommandId>,
    ) -> (r: Vec<Effect>)
        requires
            is_hash(*hash),
            old(self)@.seqnum < u64::MAX,
            old(self)@.table.phase_of(command) is Some
                ==> old(self)@.table.records.contains_key(command),
        ensures
            (final(self)@, views(r@)) == old(self)@.reproposed(*hash, command, deps@),
    {
        let phase = self.table.phase_of(&command);
        if self.boot.is_none() || phase.is_none() {
            return no_effects();
        }
        if !has_reached(phase, Phase::Commit) {
            if self.table.accept(command, copy_list(&deps)).is_err() {
                proof {
                    assert(self@ =~= old(self)@);
                }
                return no_effects();
            }
        }
        let seqnum: u64 = self.seqnum;
        let ballot = self.config.quorum.ballot();
        let epoch = self.config.identity.epoch;
        let barrier = self.allocate();
        let mut out = no_effects();
        match self.table.record(&command) {
            None => out,
            Some(record) => {
                let admission = match record.payload {
                    Some(p) => p,
                    None => admission_digest(hash, None, 0),
                };
                let ack = FastAck {
                    replica: self.config.identity.replica,
                    ballot,
                    command,
                    deps: copy_list(&deps),
                    paths: dup_all(&record.paths),
                    path: record.path,
                    admission,
                    seqnum: Some(seqnum),
                };
                let row = ProposalRecordV1 { ballot, seqnum, deps, path: record.path };
                let batch = two_rows(
                    barrier,
                    dependency_update(epoch, &command, record),
                    proposal_update(epoch, &command, &row),
                );
                let updates = dup_all(&batch.updates);
                emit(&mut out, Effect::Persist(batch));
                self.publish_proposal(&mut out, barrier, &ack);
                self.stage_proposal(barrier, ack, updates);
                proof {
                    let turn = old(self)@.reproposed(*hash, command, deps@);
                    assert(self@ =~= turn.0);
                    assert(views(out@) =~= turn.1);
                }
                out
            },
        }
    }
}

proof fn lemma_placing_members(
    entries: Map<CommandId, SyncEntryView>,
    placed: Seq<CommandId>,
    remaining: Seq<CommandId>,
    bound: Set<CommandId>,
)
    requires
        forall|i: int| 0 <= i < placed.len() ==> bound.contains(#[trigger] placed[i]),
        forall|i: int| 0 <= i < remaining.len() ==> bound.contains(#[trigger] remaining[i]),
    ensures
        forall|i: int|
            0 <= i < placing(entries, placed, remaining).0.len() ==> bound.contains(
                #[trigger] placing(entries, placed, remaining).0[i],
            ),
        forall|i: int|
            0 <= i < placing(entries, placed, remaining).1.len() ==> bound.contains(
                #[trigger] placing(entries, placed, remaining).1[i],
            ),
    decreases remaining.len(),
{
    if remaining.len() > 0 {
        let before = remaining.drop_last();
        assert forall|i: int| 0 <= i < before.len() implies bound.contains(#[trigger] before[i]) by {
            assert(before[i] == remaining[i]);
        }
        lemma_placing_members(entries, placed, before, bound);
        assert(remaining[remaining.len() - 1] == remaining.last());
        let mid = placing(entries, placed, before);
        let out = placing(entries, placed, remaining);
        assert forall|i: int| 0 <= i < out.0.len() implies bound.contains(#[trigger] out.0[i]) by {
            if i < mid.0.len() {
                assert(out.0[i] == mid.0[i]);
                assert(bound.contains(mid.0[i]));
            }
        }
        assert forall|i: int| 0 <= i < out.1.len() implies bound.contains(#[trigger] out.1[i]) by {
            if i < mid.1.len() {
                assert(out.1[i] == mid.1[i]);
                assert(bound.contains(mid.1[i]));
            }
        }
    }
}

fn is_listed(list: &Vec<CommandId>, c: &CommandId) -> (r: bool)
    ensures
        r == list@.contains(*c),
{
    crate::lists::listed(list, c)
}

fn can_follow(entries: &OrdMap<CommandId, SyncEntry>, placed: &Vec<CommandId>, c: &CommandId) -> (r:
    bool)
    requires
        entries@.contains_key(*c),
    ensures
        r == follows(entries@, placed@, *c),
{
    match entries.get(c) {
        None => false,
        Some(entry) => {
            let mut i: usize = 0;
            while i < entry.deps.len()
                invariant
                    i <= entry.deps@.len(),
                    entry@ == entries@[*c],
                    forall|j: int|
                        0 <= j < i ==> !entries@.contains_key(#[trigger] entries@[*c].deps[j])
                            || placed@.contains(entries@[*c].deps[j]),
                decreases entry.deps@.len() - i,
            {
                let d = entry.deps[i];
                if entries.contains_key(&d) && !is_listed(placed, &d) {
                    proof {
                        assert(entries@[*c].deps[i as int] == d);
                    }
                    return false;
                }
                proof {
                    assert(entries@[*c].deps[i as int] == d);
                }
                i = i + 1;
            }
            true
        },
    }
}

/// The entries in dependency order.
#[verifier::rlimit(40)]
fn order_entries(entries: &OrdMap<CommandId, SyncEntry>) -> (r: Vec<CommandId>)
    ensures
        r@ == dependency_order(entries@, Seq::empty(), in_order::<CommandId>(entries@.dom())),
        forall|i: int| 0 <= i < r@.len() ==> entries@.contains_key(#[trigger] r@[i]),
        r@.len() <= entries@.dom().len(),
{
    let mut remaining = entries.keys();
    let mut placed: Vec<CommandId> = Vec::new();
    let ghost all = entries@;
    let ghost start = remaining@;
    proof {
        lemma_id_views(remaining@);
        assert(placed@ =~= Seq::<CommandId>::empty());
        assert forall|i: int| 0 <= i < start.len() implies all.dom().contains(
            #[trigger] start[i],
        ) by {
            assert(all.contains_key(start[i]@));
        }
    }
    loop
        invariant
            all == entries@,
            dependency_order(all, placed@, remaining@) == dependency_order(
                all,
                Seq::empty(),
                start,
            ),
            forall|i: int| 0 <= i < placed@.len() ==> all.dom().contains(#[trigger] placed@[i]),
            forall|i: int|
                0 <= i < remaining@.len() ==> all.dom().contains(#[trigger] remaining@[i]),
            placed@.len() + remaining@.len() == all.dom().len(),
            start == in_order::<CommandId>(all.dom()),
        decreases remaining@.len(),
    {
        let ghost before = placed@;
        let ghost rest = remaining@;
        let mut left: Vec<CommandId> = Vec::new();
        let mut i: usize = 0;
        proof {
            assert(rest.take(0) =~= Seq::<CommandId>::empty());
            assert(left@ =~= Seq::<CommandId>::empty());
        }
        while i < remaining.len()
            invariant
                i <= remaining@.len(),
                all == entries@,
                rest == remaining@,
                forall|j: int|
                    0 <= j < remaining@.len() ==> all.dom().contains(#[trigger] remaining@[j]),
                (placed@, left@) == placing(all, before, rest.take(i as int)),
            decreases remaining@.len() - i,
        {
            let c = remaining[i];
            proof {
                assert(rest.take(i + 1).drop_last() =~= rest.take(i as int));
                assert(rest.take(i + 1).last() == c);
                assert(all.dom().contains(remaining@[i as int]));
            }
            if can_follow(entries, &placed, &c) {
                placed.push(c);
            } else {
                left.push(c);
            }
            i = i + 1;
        }
        proof {
            assert(rest.take(rest.len() as int) =~= rest);
            lemma_placing(all, before, rest);
            lemma_placing_members(all, before, rest, all.dom());
        }
        // A cycle among entries cannot come from one leader's order; stop
        // rather than guess.
        if left.len() == remaining.len() || left.len() == 0 {
            return placed;
        }
        remaining = left;
    }
}

proof fn lemma_reproposed_keeps<H: Fn(HashDomain, Vec<Vec<u8>>) -> Digest32>(
    state: LeaderView,
    hash: H,
    c: CommandId,
    deps: Seq<CommandId>,
)
    requires
        state.seqnum < u64::MAX,
    ensures
        ({
            let next = state.reproposed(hash, c, deps).0;
            &&& next.table.records.dom() == state.table.records.dom()
            &&& forall|x: CommandId|
                #![trigger next.table.phase_of(x)]
                (next.table.phase_of(x) is Some) == (state.table.phase_of(x) is Some)
            &&& next.seqnum <= state.seqnum + 1
        }),
{
    let next = state.reproposed(hash, c, deps).0;
    assert(next.table.records.dom() =~= state.table.records.dom());
}

impl Leader {
    /// Become the leader of the recovered ballot after a won campaign: every
    /// Sync entry is re-proposed under the new ballot in dependency order
    /// with the selected dependencies, and commands selected for re-proposal
    /// follow in identity order, each after the tail of the recovered order.
    #[verifier::rlimit(40)]
    pub fn from_recovered<H: Fn(HashDomain, Vec<Vec<u8>>) -> Digest32>(
        hash: &H,
        state: RecoveredState,
        quorum: BallotConfiguration,
        decision: &SyncDecision,
    ) -> (r: (Self, Vec<Effect>))
        requires
            is_hash(*hash),
            quorum@.ballot.leader == state@.identity.replica,
            decision@.entries.dom().len() + decision@.reproposed.len() <= u64::MAX,
            forall|c: CommandId|
                #![trigger state@.table.phase_of(c)]
                (decision@.entries.contains_key(c) || decision@.reproposed.contains(c))
                    && state@.table.phase_of(c) is Some ==> state@.table.records.contains_key(c),
        ensures
            (r.0@, views(r.1@)) == LeaderView::recovered(*hash, state@, quorum@, decision@),
    {
        let ghost given = state@;
        let ghost table = given.table;
        let ballot = quorum.ballot();
        let mut leader = Leader {
            config: LeaderConfig {
                identity: state.identity,
                genesis: ballot,
                quorum,
                frontend: state.frontend,
                capacity: state.capacity,
            },
            boot: state.boot,
            ballots: state.ballots,
            table: state.table,
            bindings: state.bindings,
            proposals: OrdMap::new(),
            votes: OrdMap::new(),
            payloads: state.payloads,
            ledger: state.ledger,
            learner: state.learner,
            seqnum: 0,
            report_due: state.report_due,
            pending_sync: None,
            speculation: Speculation::new(),
            rejections: Vec::new(),
            fenced: None,
        };
        let ghost start = leader@;
        proof {
            assert(start =~= LeaderView::taking_over(given, quorum@));
        }
        let order = order_entries(&decision.entries);
        let ghost placed = order@;
        let mut last: Option<CommandId> = if order.len() == 0 {
            None
        } else {
            Some(order[order.len() - 1])
        };
        let again: usize = decision.reproposed.len();
        let many: usize = decision.entries.len();
        let mut effects = no_effects();
        let mut i: usize = 0;
        proof {
            assert(placed.take(0) =~= Seq::<CommandId>::empty());
        }
        while i < order.len()
            invariant
                i <= order@.len(),
                placed == order@,
                is_hash(*hash),
                table == given.table,
                forall|j: int|
                    0 <= j < placed.len() ==> decision@.entries.contains_key(#[trigger] placed[j]),
                forall|c: CommandId|
                    #![trigger table.phase_of(c)]
                    (decision@.entries.contains_key(c) || decision@.reproposed.contains(c))
                        && table.phase_of(c) is Some ==> table.records.contains_key(c),
                leader@.table.records.dom() == table.records.dom(),
                forall|x: CommandId|
                    #![trigger leader@.table.phase_of(x)]
                    (leader@.table.phase_of(x) is Some) == (table.phase_of(x) is Some),
                leader@.seqnum <= i,
                placed.len() <= decision@.entries.dom().len(),
                decision@.entries.dom().len() + decision@.reproposed.len() <= u64::MAX,
                (leader@, views(effects@)) == start.reproposed_entries(
                    *hash,
                    decision@.entries,
                    placed.take(i as int),
                ),
            decreases order@.len() - i,
        {
            let c = order[i];
            proof {
                assert(placed.take(i + 1).drop_last() =~= placed.take(i as int));
                assert(placed.take(i + 1).last() == c);
                assert(decision@.entries.contains_key(placed[i as int]));
                assert(leader@.table.phase_of(c) is Some == (table.phase_of(c) is Some));
            }
            if let Some(entry) = decision.entries.get(&c) {
                let deps = copy_list(&entry.deps);
                proof {
                    lemma_reproposed_keeps(leader@, *hash, c, deps@);
                }
                let more = leader.repropose(hash, c, deps);
                emit_all(&mut effects, more);
            }
            i = i + 1;
        }
        proof {
            assert(placed.take(placed.len() as int) =~= placed);
        }
        let ghost installed = leader@;
        let ghost tail = last;
        let commands = decision.reproposed.to_vec();
        let ghost chain = commands@;
        let mut more_effects = no_effects();
        let mut k: usize = 0;
        proof {
            lemma_id_views(commands@);
            assert(chain.take(0) =~= Seq::<CommandId>::empty());
        }
        while k < commands.len()
            invariant
                k <= commands@.len(),
                chain == commands@,
                chain.len() == decision@.reproposed.len(),
                is_hash(*hash),
                forall|j: int|
                    0 <= j < chain.len() ==> decision@.reproposed.contains((#[trigger] chain[j])@),
                forall|c: CommandId|
                    #![trigger table.phase_of(c)]
                    (decision@.entries.contains_key(c) || decision@.reproposed.contains(c))
                        && table.phase_of(c) is Some ==> table.records.contains_key(c),
                leader@.table.records.dom() == table.records.dom(),
                forall|x: CommandId|
                    #![trigger leader@.table.phase_of(x)]
                    (leader@.table.phase_of(x) is Some) == (table.phase_of(x) is Some),
                leader@.seqnum <= decision@.entries.dom().len() + k,
                decision@.entries.dom().len() + decision@.reproposed.len() <= u64::MAX,
                ((leader@, views(more_effects@)), last) == installed.reproposed_chain(
                    *hash,
                    chain.take(k as int),
                    tail,
                ),
            decreases commands@.len() - k,
        {
            let c = commands[k];
            proof {
                assert(chain.take(k + 1).drop_last() =~= chain.take(k as int));
                assert(chain.take(k + 1).last() == c);
                assert(decision@.reproposed.contains(chain[k as int]@));
                assert(leader@.table.phase_of(c) is Some == (table.phase_of(c) is Some));
            }
            if leader.table.phase_of(&c).is_some() {
                let mut deps: Vec<CommandId> = Vec::new();
                if let Some(l) = last {
                    deps.push(l);
                }
                proof {
                    assert(deps@ =~= LeaderView::after_tail(last));
                    lemma_reproposed_keeps(leader@, *hash, c, deps@);
                }
                let more = leader.repropose(hash, c, deps);
                emit_all(&mut more_effects, more);
                last = Some(c);
            }
            k = k + 1;
        }
        proof {
            assert(chain.take(chain.len() as int) =~= chain);
        }
        emit_all(&mut effects, more_effects);
        (leader, effects)
    }

    /// Deliver the report owed to a candidate once every batch before the
    /// cut is durable.
    fn deliver_due_report<H: Fn(HashDomain, Vec<Vec<u8>>) -> Digest32>(&mut self, hash: &H) -> (r:
        Vec<Effect>)
        requires
            is_hash(*hash),
        ensures
            (final(self)@, views(r@)) == old(self)@.report_delivered(*hash),
    {
        let due = match &self.report_due {
            Some(d) => d.dup(),
            None => {
                return no_effects();
            },
        };
        let context = match &self.boot {
            Some(boot) => {
                if !boot.settled.all_durable(&due.requires_durable) {
                    return no_effects();
                }
                self.ballots.context(boot.id, due.ballot)
            },
            None => {
                return no_effects();
            },
        };
        let report = self.report(due.ballot);
        self.report_due = None;
        proof {
            assert(self@ =~= old(self)@.report_delivered(*hash).0);
        }
        publish_report(hash, context, due.to, &report)
    }

    /// The materializer applied `command`: seal and publish the established
    /// result, then learn whatever the new phase enables. Where the evidence is
    /// not sealed, nothing is published or learned.
    ///
    /// A command whose result was released speculatively is already
    /// disclosed; releasing it again would answer one caller twice. A
    /// command whose result was *not* is only disclosed here: the command is
    /// committed, its whole prefix has executed before it, and its result is
    /// materialized and durable, so it carries `speculative: false`.
    pub fn applied<S: Fn(EstablishmentEvidence) -> bool>(
        &mut self,
        seal: &S,
        command: CommandId,
        outcome: &AppliedOutcome,
    ) -> (r: Result<Vec<Effect>, LearnError>)
        requires
            is_seal(*seal),
        ensures
            match old(self)@.apply_refusal(sealing_of(*seal), command, outcome@) {
                Some(e) => r == Err::<Vec<Effect>, LearnError>(e) && final(self)@ == old(
                    self,
                )@.applied(sealing_of(*seal), command, outcome@).0,
                None => r is Ok && (final(self)@, views(r->Ok_0@)) == old(self)@.applied(
                    sealing_of(*seal),
                    command,
                    outcome@,
                ),
            },
    {
        let epoch = self.config.identity.epoch;
        let ballot = self.config.quorum.ballot();
        let evidence = match self.learner.established(
            seal,
            &mut self.table,
            command,
            epoch,
            ballot,
            outcome,
        ) {
            Ok(e) => e,
            Err(e) => {
                proof {
                    assert(self@ =~= old(self)@.applied(sealing_of(*seal), command, outcome@).0);
                }
                return Err(e);
            },
        };
        proof {
            assert(self@ =~= old(self)@.advanced(command));
        }
        self.learn();
        proof {
            assert(self@ =~= old(self)@.executed(command));
        }
        let released = self.speculation.released(&command);
        match self.speculation.reconcile(command, outcome.position, outcome.result_digest) {
            Err(m) => {
                return Err(LearnError::Speculation(m));
            },
            Ok(()) => {},
        }
        let ghost settled = self@;
        if let Some(mut proposal) = self.proposals.remove(&command) {
            proposal.executed = true;
            let ghost marked = proposal@;
            self.proposals.insert(command, proposal);
            proof {
                assert(marked =~= (ProposalView {
                    executed: true,
                    ..settled.proposals[command]
                }));
                assert(self@.proposals =~= settled.marked_executed(command).proposals);
            }
        }
        proof {
            assert(self@ =~= settled.marked_executed(command));
        }
        let mut effects = no_effects();
        emit(&mut effects, Effect::Established(evidence.dup()));
        if self.is_leading() && !released {
            emit(
                &mut effects,
                Effect::Released(
                    ReleasedResult {
                        evidence,
                        response: copy_bytes(&outcome.response),
                        speculative: false,
                    },
                ),
            );
        }
        let more = self.release_ready(seal);
        emit_all(&mut effects, more);
        proof {
            let turn = old(self)@.applied(sealing_of(*seal), command, outcome@);
            assert(views(effects@) =~= turn.1);
        }
        Ok(effects)
    }

    fn undurable(&self) -> (r: OrdSet<BarrierId>)
        ensures
            r@ == self@.undurable(),
    {
        let n: usize = self.proposals.len();
        let ghost order = in_order::<CommandId>(self.proposals@.dom());
        proof {
            lemma_in_order::<CommandId>(self.proposals@.dom());
        }
        let mut out: OrdSet<BarrierId> = OrdSet::new();
        let mut i: usize = 0;
        while i < n
            invariant
                i <= n == self.proposals@.dom().len(),
                order == in_order::<CommandId>(self.proposals@.dom()),
                order.len() == n,
                forall|j: int| 0 <= j < n ==> self@.proposals.contains_key(#[trigger] order[j]),
                forall|b: BarrierId|
                    out@.contains(b) <==> exists|j: int|
                        0 <= j < i && !self@.proposals[#[trigger] order[j]].durable
                            && self@.proposals[order[j]].barrier == b,
            decreases n - i,
        {
            let p = self.proposals.value_at(i);
            let ghost was = out@;
            proof {
                assert(p@ == self@.proposals[order[i as int]]);
            }
            if !p.durable {
                out.insert(p.barrier);
            }
            proof {
                assert forall|b: BarrierId|
                    out@.contains(b) <==> exists|j: int|
                        0 <= j < i + 1 && !self@.proposals[#[trigger] order[j]].durable
                            && self@.proposals[order[j]].barrier == b by {
                    if was.contains(b) {
                        let j = choose|j: int|
                            0 <= j < i && !self@.proposals[#[trigger] order[j]].durable
                                && self@.proposals[order[j]].barrier == b;
                        assert(!self@.proposals[order[j]].durable);
                    }
                    if out@.contains(b) && !was.contains(b) {
                        assert(!self@.proposals[order[i as int]].durable);
                    }
                }
            }
            i = i + 1;
        }
        proof {
            assert forall|b: BarrierId| out@.contains(b) == self@.undurable().contains(b) by {
                if self@.undurable().contains(b) {
                    let c = choose|c: CommandId| #[trigger]
                        self@.proposals.contains_key(c) && !self@.proposals[c].durable
                            && self@.proposals[c].barrier == b;
                    assert(order.contains(c));
                    let j = choose|j: int| 0 <= j < order.len() && order[j] == c;
                    assert(!self@.proposals[order[j]].durable);
                }
                if out@.contains(b) {
                    let j = choose|j: int|
                        0 <= j < i && !self@.proposals[#[trigger] order[j]].durable
                            && self@.proposals[order[j]].barrier == b;
                    assert(self@.proposals.contains_key(order[j]));
                }
            }
            assert(out@ =~= self@.undurable());
        }
        out
    }

    /// Barriers of proposals not yet durable, in order.
    pub fn outstanding_barriers(&self) -> (r: Vec<BarrierId>)
        ensures
            r@ == in_order::<BarrierId>(self@.undurable()),
    {
        let r = self.undurable().to_vec();
        proof {
            crate::effects::lemma_barrier_views(r@);
        }
        r
    }

    /// Every batch this leader submitted and has not seen resolve: the
    /// proposal batches, including one re-presented under a new barrier, and
    /// the acceptance batches written separately. A proposal is marked
    /// durable in the same turn its acceptance batch is submitted, so a cut
    /// over proposals alone would release a report while that ACCEPT row is
    /// still volatile.
    fn cut(&self) -> (r: Vec<BarrierId>)
        ensures
            r@ == self@.cut(),
    {
        let mut all = self.undurable();
        let staged = self.ledger.outstanding();
        proof {
            crate::effects::lemma_barrier_views(staged@);
            lemma_in_order::<BarrierId>(self@.ledger.staged.dom());
        }
        let more = crate::ordered::set_of(&staged);
        all.extend(&more);
        let r = all.to_vec();
        proof {
            crate::effects::lemma_barrier_views(r@);
            assert(all@ =~= self@.undurable().union(self@.ledger.staged.dom()));
        }
        r
    }
}

impl Leader {
    /// Propose one of the service's own commands.
    ///
    /// This is the path the scheduler's expiry candidates take: a lease
    /// expiring is not somebody's request, so there is no credential to
    /// check and no receipt to mint. The command is accepted with no
    /// admission at all, and that absence is exactly what execution keys on.
    ///
    /// Only the two service operations may travel this way; anything else is
    /// refused here rather than proposed. A service command presented again
    /// while it is still unlearned has its proposal published again, since
    /// its scheduler is the only thing that can ever get it to a quorum after
    /// its first proposal was lost on the way.
    pub fn propose_service<H: Fn(HashDomain, Vec<Vec<u8>>) -> Digest32>(
        &mut self,
        hash: &H,
        request: Option<Request>,
    ) -> (r: Vec<Effect>)
        requires
            is_hash(*hash),
            old(self)@.seqnum < u64::MAX,
        ensures
            (final(self)@, views(r@)) == old(self)@.service_proposed(*hash, request_view(request)),
    {
        let permitted = match &request {
            Some(q) => q.operation != OperationKind::Other,
            None => false,
        };
        if !permitted {
            self.reject(Rejection::MalformedRequest);
            return no_effects();
        }
        if let Some(q) = &request {
            if self.is_republishable(q) {
                return self.republish_service(hash, q.command);
            }
        }
        self.propose(hash, request, None)
    }

    fn is_republishable(&self, q: &Request) -> (r: bool)
        ensures
            r == self@.republishable(q@),
    {
        if self.boot.is_none() || !self.is_leading() {
            return false;
        }
        match self.bindings.get(&q.retry_key) {
            Some(bound) => {
                if *bound != q.command {
                    return false;
                }
            },
            None => {
                return false;
            },
        }
        match self.proposals.get(&q.command) {
            Some(p) => !p.executed && !has_reached(self.table.phase_of(&q.command), Phase::Commit),
            None => false,
        }
    }

    /// The acknowledgement of a proposal already made.
    fn ack_again<H: Fn(HashDomain, Vec<Vec<u8>>) -> Digest32>(&self, hash: &H, command: CommandId) -> (r:
        FastAck)
        requires
            is_hash(*hash),
            self@.proposals.contains_key(command),
        ensures
            r@ == self@.ack_again(*hash, command),
    {
        let admission = self.admission_in(hash, &command);
        let replica = self.config.identity.replica;
        let ballot = self.config.quorum.ballot();
        match self.proposals.get(&command) {
            Some(p) => FastAck {
                replica,
                ballot,
                command,
                deps: copy_list(&p.deps),
                paths: dup_all(&p.paths),
                path: p.path,
                admission,
                seqnum: Some(p.seqnum),
            },
            None => FastAck {
                replica,
                ballot,
                command,
                deps: Vec::new(),
                paths: Vec::new(),
                path: admission,
                admission,
                seqnum: None,
            },
        }
    }

    /// Publish the proposal of a service command again: the same proposal,
    /// at the same ballot, sequence number and dependencies, under the
    /// barrier that already carries its rows, which are not written a second
    /// time.
    fn republish_service<H: Fn(HashDomain, Vec<Vec<u8>>) -> Digest32>(
        &mut self,
        hash: &H,
        command: CommandId,
    ) -> (r: Vec<Effect>)
        requires
            is_hash(*hash),
            old(self)@.boot is Some,
            old(self)@.proposals.contains_key(command),
        ensures
            final(self)@ == old(self)@.rejected(Rejection::ProposalRepublished(command)),
            views(r@) == old(self)@.proposal_sends(
                old(self)@.proposals[command].barrier,
                old(self)@.ack_again(*hash, command),
            ),
    {
        let ack = self.ack_again(hash, command);
        let mut out = no_effects();
        if let Some(p) = self.proposals.get(&command) {
            self.publish_proposal(&mut out, p.barrier, &ack);
        }
        self.reject(Rejection::ProposalRepublished(command));
        proof {
            assert(Seq::<EffectView>::empty() + old(self)@.proposal_sends(
                old(self)@.proposals[command].barrier,
                old(self)@.ack_again(*hash, command),
            ) =~= old(self)@.proposal_sends(
                old(self)@.proposals[command].barrier,
                old(self)@.ack_again(*hash, command),
            ));
        }
        out
    }

    /// Propose an admitted request: one retry key binds one payload, first
    /// presentation wins; payload, dependency and proposal rows go down in
    /// one batch, and the proposal and the reply rest on it.
    #[verifier::rlimit(40)]
    pub fn propose<H: Fn(HashDomain, Vec<Vec<u8>>) -> Digest32>(
        &mut self,
        hash: &H,
        request: Option<Request>,
        admission: Option<AdmissionFacts>,
    ) -> (r: Vec<Effect>)
        requires
            is_hash(*hash),
            old(self)@.seqnum < u64::MAX,
        ensures
            (final(self)@, views(r@)) == old(self)@.proposed(
                *hash,
                request_view(request),
                facts_view(admission),
            ),
    {
        if self.boot.is_none() {
            return no_effects();
        }
        if let Some(transition) = self.ballots.seal_held() {
            self.reject(Rejection::Sealed { transition });
            return no_effects();
        }
        if !self.is_leading() {
            let promised = self.ballots.promised();
            self.reject(Rejection::NotLeading { promised });
            return no_effects();
        }
        let q = match request {
            Some(q) => q,
            None => {
                self.reject(Rejection::MalformedRequest);
                return no_effects();
            },
        };
        let command = q.command;
        let held = match self.bindings.get(&q.retry_key) {
            Some(b) => Some(*b),
            None => None,
        };
        if let Some(bound) = held {
            if bound != command {
                self.reject(
                    Rejection::RequestIdentityConflict { retry_key: q.retry_key, bound },
                );
            } else {
                self.reject(Rejection::Duplicate(command));
            }
            return no_effects();
        }
        let retry_key = q.retry_key;
        let payload = PayloadRecordV1 {
            retry_key,
            logical: q.logical,
            admission,
            ack_through: q.ack_through,
        };
        let ghost said = LeaderView::payload_of(request_view(request)->0, facts_view(admission));
        proof {
            assert(payload@ =~= said);
        }
        let digest = payload.admission_digest(hash);
        let init = match self.table.initialize(hash, command, digest, conservative()) {
            Ok(i) => i,
            Err(InitError::Backpressure) => {
                self.reject(Rejection::Backpressure);
                return no_effects();
            },
            Err(_) => {
                self.reject(Rejection::Duplicate(command));
                return no_effects();
            },
        };
        let seqnum: u64 = self.seqnum;
        let ballot = self.config.quorum.ballot();
        let epoch = self.config.identity.epoch;
        self.bindings.insert(retry_key, command);
        let mut updates: Vec<StoreUpdate> = Vec::new();
        updates.push(payload_update(&command, &payload));
        self.payloads.insert(command, payload);
        let barrier = self.allocate();
        let mut out = no_effects();
        match self.table.record(&command) {
            None => out,
            Some(record) => {
                let ack = FastAck {
                    replica: self.config.identity.replica,
                    ballot,
                    command,
                    deps: copy_list(&init.deps),
                    paths: init.paths,
                    path: init.path,
                    admission: init.payload,
                    seqnum: Some(seqnum),
                };
                let row = ProposalRecordV1 { ballot, seqnum, deps: init.deps, path: init.path };
                updates.push(dependency_update(epoch, &command, record));
                updates.push(proposal_update(epoch, &command, &row));
                let batch = PersistBatch { barrier, updates: dup_all(&updates) };
                emit(&mut out, Effect::Persist(batch));
                self.publish_proposal(&mut out, barrier, &ack);
                self.publish_reply(&mut out, barrier, &ack);
                self.stage_proposal(barrier, ack, updates);
                proof {
                    let turn = old(self)@.proposed(
                        *hash,
                        request_view(request),
                        facts_view(admission),
                    );
                    let room = old(self)@.table.opened(command);
                    let table = room.with_initialized(*hash, command, digest, conservative_keys());
                    assert(views(updates@) =~= seq![
                        payload_row(command, said),
                        dependency_row(epoch, command, table.records[command]),
                        proposal_row(
                            epoch,
                            command,
                            ProposalRecordView {
                                ballot,
                                seqnum,
                                deps: table.records[command].deps,
                                path: table.records[command].path,
                            },
                        ),
                    ]);
                    assert(self@ =~= turn.0);
                    assert(views(out@) =~= turn.1);
                }
                out
            },
        }
    }

    /// Present a definitely rejected proposal batch again, unchanged, under
    /// a new barrier, and republish the sends that waited on the old one.
    /// The leader stops leading once the attempts are spent.
    fn retry_proposal<H: Fn(HashDomain, Vec<Vec<u8>>) -> Digest32>(
        &mut self,
        hash: &H,
        command: CommandId,
        written: Option<CommandRecord>,
    ) -> (r: Vec<Effect>)
        requires
            is_hash(*hash),
        ensures
            (final(self)@, views(r@)) == old(self)@.retried(*hash, command, record_of(written)),
    {
        let attempts: u32 = match self.proposals.get(&command) {
            Some(p) => p.attempts,
            None => {
                return no_effects();
            },
        };
        if attempts >= MAX_PROPOSAL_ATTEMPTS {
            self.fence(FenceReason::ProposalRetriesExhausted { command });
            return no_effects();
        }
        if self.boot.is_none() {
            return no_effects();
        }
        let ack = self.ack_again(hash, command);
        let barrier = self.allocate();
        let mut out = no_effects();
        match self.proposals.remove(&command) {
            None => out,
            Some(mut p) => {
                p.barrier = barrier;
                p.attempts = attempts + 1;
                let ghost next = ProposalView {
                    barrier,
                    attempts: (attempts + 1) as u32,
                    ..old(self)@.proposals[command]
                };
                proof {
                    assert(p@ =~= next);
                }
                let batch = PersistBatch { barrier, updates: dup_all(&p.updates) };
                self.proposals.insert(command, p);
                proof {
                    assert(self@.proposals =~= old(self)@.proposals.insert(command, next));
                }
                if let Some(record) = written {
                    self.ledger.stage(barrier, command, record);
                }
                emit(&mut out, Effect::Persist(batch));
                self.publish_proposal(&mut out, barrier, &ack);
                self.publish_reply(&mut out, barrier, &ack);
                self.reject(Rejection::ProposalRetried(command));
                proof {
                    let turn = old(self)@.retried(*hash, command, record_of(written));
                    assert(self@ =~= turn.0);
                    assert(views(out@) =~= turn.1);
                }
                out
            },
        }
    }

    fn find_acceptable(&self) -> (r: Vec<CommandId>)
        ensures
            r@ == in_order::<CommandId>(self@.acceptable()),
            self@.proposals.dom().finite(),
    {
        let n: usize = self.proposals.len();
        let ghost order = in_order::<CommandId>(self.proposals@.dom());
        let ghost goal = self@.acceptable();
        proof {
            lemma_in_order::<CommandId>(self.proposals@.dom());
        }
        let mut out: OrdSet<CommandId> = OrdSet::new();
        let mut i: usize = 0;
        proof {
            assert(out@ =~= goal.intersect(order.take(0).to_set()));
        }
        while i < n
            invariant
                i <= n == self.proposals@.dom().len(),
                order == in_order::<CommandId>(self.proposals@.dom()),
                order.len() == n,
                goal == self@.acceptable(),
                out@ == goal.intersect(order.take(i as int).to_set()),
            decreases n - i,
        {
            let c = *self.proposals.key_at(i);
            let waiting = match self.table.phase_of(&c) {
                Some(p) => p == Phase::PreAccept,
                None => false,
            };
            if waiting && self.proposals.value_at(i).durable {
                out.insert(c);
            }
            proof {
                lemma_take_set(order, i as int);
                assert(out@ =~= goal.intersect(order.take(i + 1).to_set()));
            }
            i = i + 1;
        }
        proof {
            assert(order.take(n as int) =~= order);
            assert(out@ =~= goal) by {
                assert forall|c: CommandId| goal.contains(c) implies order.to_set().contains(c) by {
                    assert(order.contains(c));
                }
            }
        }
        let r = out.to_vec();
        proof {
            lemma_id_views(r@);
        }
        r
    }

    /// Adopt the leader's own order of one durable proposal. The acceptance
    /// is recorded durably now, not when the command was merely proposed: a
    /// row claiming ACCEPT before the guard passed would let recovery
    /// restore an accepted command whose prerequisite never was accepted.
    fn accept_one(&mut self, command: CommandId, effects: &mut Vec<Effect>) -> (r: bool)
        requires
            old(self)@.proposals.contains_key(command),
        ensures
            final(self)@ == old(self)@.accept_one(command).0,
            views(final(effects)@) == views(old(effects)@) + old(self)@.accept_one(command).1,
            r == (old(self)@.table.accept_violation(
                command,
                old(self)@.proposals[command].deps,
            ) is None),
    {
        let ghost nothing = views(effects@) + Seq::<EffectView>::empty();
        proof {
            assert(nothing =~= views(effects@));
        }
        let deps = match self.proposals.get(&command) {
            Some(p) => copy_list(&p.deps),
            None => Vec::new(),
        };
        if self.table.accept(command, deps).is_err() {
            proof {
                assert(self@ =~= old(self)@);
            }
            return false;
        }
        if self.boot.is_none() || self.table.record(&command).is_none() {
            return true;
        }
        let epoch = self.config.identity.epoch;
        let barrier = self.allocate();
        if let Some(record) = self.table.record(&command) {
            let record = record.dup();
            let batch = one_row(barrier, dependency_update(epoch, &command, &record));
            self.ledger.stage(barrier, command, record);
            emit(effects, Effect::Persist(batch));
        }
        proof {
            let turn = old(self)@.accept_one(command);
            assert(self@ =~= turn.0);
            assert(views(effects@) =~= views(old(effects)@) + turn.1);
        }
        true
    }

    /// Adopt the leader's own order for every durable proposal whose
    /// dependencies are all at least ACCEPT; repeat while progress is made
    /// so a chain advances in one turn. A leader that no longer leads writes
    /// no new acceptance: that ballot's transitions end at the recovery cut.
    #[verifier::rlimit(40)]
    fn advance_pending(&mut self) -> (r: Vec<Effect>)
        ensures
            (final(self)@, views(r@)) == old(self)@.pending_advanced(),
    {
        let mut effects = no_effects();
        if !self.is_leading() {
            return effects;
        }
        let many: usize = self.proposals.len();
        let ghost start = self@;
        proof {
            let done = start.accept_rounds();
            assert((done.0, Seq::<EffectView>::empty() + done.1) == done) by {
                assert(Seq::<EffectView>::empty() + done.1 =~= done.1);
            }
        }
        loop
            invariant
                self@.proposals.dom().finite(),
                ({
                    let done = self@.accept_rounds();
                    (done.0, views(effects@) + done.1)
                }) == start.accept_rounds(),
                start == old(self)@,
                start.leading(),
                start.proposals.dom().finite(),
            decreases self@.acceptable().len(),
        {
            let ghost state = self@;
            let ghost said = views(effects@);
            let candidates = self.find_acceptable();
            let ghost cs = candidates@;
            let mut progressed = false;
            let ghost mut moved: int = 0;
            let mut i: usize = 0;
            proof {
                lemma_in_order::<CommandId>(state.acceptable());
                lemma_accept_round(state);
                assert(cs.take(0) =~= Seq::<CommandId>::empty());
                assert(said + Seq::<EffectView>::empty() =~= said);
                assert forall|j: int| 0 <= j < cs.len() implies state.acceptable().contains(
                    #[trigger] cs[j],
                ) by {
                    assert(cs.contains(cs[j]));
                }
            }
            while i < candidates.len()
                invariant
                    i <= candidates@.len(),
                    cs == candidates@,
                    cs.no_duplicates(),
                    forall|j: int|
                        0 <= j < cs.len() ==> state.acceptable().contains(#[trigger] cs[j]),
                    self@ == state.accept_each(cs.take(i as int)).0,
                    views(effects@) == said + state.accept_each(cs.take(i as int)).1,
                    !progressed ==> self@ == state,
                    progressed ==> 0 <= moved < i && self@.table.phase_of(cs[moved]) == Some(
                        Phase::Accept,
                    ),
                decreases candidates@.len() - i,
            {
                let c = candidates[i];
                let ghost mid = self@;
                let ghost before = cs.take(i as int);
                proof {
                    assert(cs.take(i + 1).drop_last() =~= before);
                    assert(cs.take(i + 1).last() == c);
                    assert forall|a: int, b: int| 0 <= a < before.len() && 0 <= b < before.len()
                        && a != b implies before[a] != before[b] by {
                        assert(before[a] == cs[a] && before[b] == cs[b]);
                    }
                    assert forall|j: int| 0 <= j < before.len() implies state.acceptable().contains(
                        #[trigger] before[j],
                    ) by {
                        assert(before[j] == cs[j]);
                    }
                    lemma_accept_each(state, before);
                    assert(!before.contains(c)) by {
                        if before.contains(c) {
                            let j = choose|j: int| 0 <= j < before.len() && before[j] == c;
                            assert(cs[j] == c);
                        }
                    }
                    assert(state.acceptable().contains(cs[i as int]));
                    assert(mid.table.phase_of(c) == state.table.phase_of(c));
                    lemma_accept_one(mid, c);
                }
                let accepted = self.accept_one(c, &mut effects);
                proof {
                    let one = mid.accept_one(c);
                    let all = state.accept_each(cs.take(i + 1));
                    assert(said + state.accept_each(before).1 + one.1 =~= said + all.1);
                    if progressed {
                        assert(cs[moved] != c);
                    }
                    if accepted {
                        assert(self@.table.phase_of(c) == Some(Phase::Accept));
                        moved = i as int;
                    }
                }
                if accepted {
                    progressed = true;
                }
                i = i + 1;
            }
            proof {
                assert(cs.take(cs.len() as int) =~= cs);
                let round = state.accept_round();
                assert(self@ == round.0);
                assert(views(effects@) == said + round.1);
                if progressed {
                    assert(state.acceptable().contains(cs[moved]));
                    assert(!self@.acceptable().contains(cs[moved]));
                    let done = self@.accept_rounds();
                    assert(state.accept_rounds() == (done.0, round.1 + done.1));
                    assert(said + (round.1 + done.1) =~= (said + round.1) + done.1);
                } else {
                    assert(state.accept_rounds() == round);
                }
            }
            if !progressed {
                return effects;
            }
        }
    }

    fn find_proposal(&self, barrier: BarrierId) -> (r: Option<CommandId>)
        ensures
            r == proposal_under(
                self@.proposals,
                in_order::<CommandId>(self@.proposals.dom()),
                barrier,
            ),
            r is Some ==> self@.proposals.contains_key(r->0),
    {
        let n: usize = self.proposals.len();
        let ghost order = in_order::<CommandId>(self.proposals@.dom());
        let ghost all = self@.proposals;
        let mut found: Option<CommandId> = None;
        let mut i: usize = 0;
        proof {
            lemma_in_order::<CommandId>(self.proposals@.dom());
            assert(order.take(0) =~= Seq::<CommandId>::empty());
        }
        while i < n
            invariant
                i <= n == self.proposals@.dom().len(),
                order == in_order::<CommandId>(self.proposals@.dom()),
                order.len() == n,
                all == self.proposals@,
                found == proposal_under(all, order.take(i as int), barrier),
                found is Some ==> all.contains_key(found->0),
            decreases n - i,
        {
            let c = *self.proposals.key_at(i);
            proof {
                assert(order.take(i + 1).drop_last() =~= order.take(i as int));
                assert(order.take(i + 1).last() == order[i as int]);
            }
            if found.is_none() && self.proposals.value_at(i).barrier == barrier {
                found = Some(c);
            }
            i = i + 1;
        }
        proof {
            assert(order.take(n as int) =~= order);
        }
        found
    }

    /// A fact storage reports. Only a definite rejection proves a proposal's
    /// rows are absent; the same batch is then presented again unchanged,
    /// keeping the command, its identity binding and its dependents intact.
    /// Any other failure may have written some or all of them, so the leader
    /// stops leading instead of continuing over state a later recovery cut
    /// could miss.
    pub fn on_storage<H: Fn(HashDomain, Vec<Vec<u8>>) -> Digest32>(
        &mut self,
        hash: &H,
        event: &StorageEvent,
    ) -> (r: Vec<Effect>)
        requires
            is_hash(*hash),
            old(self)@.ballots.elections < u64::MAX,
        ensures
            (final(self)@, views(r@)) == old(self)@.stored(*hash, *event),
    {
        let taken = self.boot.take();
        if let Some(mut boot) = taken {
            boot.settled.observe(event);
            self.boot = Some(boot);
        }
        let _ = self.ballots.on_storage(event);
        let written = match event.barrier() {
            Some(b) => self.ledger.staged_record(&b),
            None => None,
        };
        match event {
            StorageEvent::JournalDurable { barrier, journal_seq } => {
                let _ = self.ledger.durable(*barrier, *journal_seq);
            },
            StorageEvent::Failed { barrier, error: _ } => {
                let _ = self.ledger.failed(*barrier);
            },
            _ => {},
        }
        let ghost noted = self@;
        proof {
            assert(noted =~= old(self)@.noted(*event));
        }
        let about = match event.barrier() {
            Some(b) => self.find_proposal(b),
            None => None,
        };
        if let Some(command) = about {
            match event {
                StorageEvent::JournalDurable { .. } => {
                    if let Some(mut p) = self.proposals.remove(&command) {
                        p.durable = true;
                        let ghost next = p@;
                        self.proposals.insert(command, p);
                        proof {
                            assert(next =~= (ProposalView {
                                durable: true,
                                ..noted.proposals[command]
                            }));
                            assert(self@.proposals =~= noted.proposal_durable(command).proposals);
                            assert(self@ =~= noted.proposal_durable(command));
                        }
                    }
                },
                StorageEvent::Failed { barrier: _, error } => {
                    if *error == StorageError::DefinitelyNotCommitted {
                        let mut effects = self.retry_proposal(hash, command, written);
                        let more = self.advance_pending();
                        emit_all(&mut effects, more);
                        return effects;
                    }
                    self.fence(FenceReason::ProposalUnresolved { command, error: *error });
                },
                _ => {},
            }
        }
        let mut effects = self.advance_pending();
        self.learn();
        let more = self.deliver_due_report(hash);
        emit_all(&mut effects, more);
        effects
    }

    /// Serve durable payloads to a peer; a payload whose proposal batch is
    /// not durable is not served. Payload transfer is not a voting
    /// transition: it is served under the promised ballot so a deposed
    /// leader still supplies the payloads a candidate recovers from.
    fn serve_payloads(&self, to: ReplicaId, commands: &Vec<CommandId>) -> (r: Vec<Effect>)
        ensures
            views(r@) == (match self@.boot {
                Some(boot) => payloads_served(self@, boot, to, commands@),
                None => Seq::empty(),
            }),
    {
        let mut out = no_effects();
        let none: Vec<BarrierId> = Vec::new();
        proof {
            assert(none@ =~= Seq::<BarrierId>::empty());
        }
        match &self.boot {
            None => out,
            Some(boot) => {
                let context = self.ballots.context(boot.id, self.ballots.promised());
                let ghost all = commands@;
                let mut i: usize = 0;
                proof {
                    assert(all.take(0) =~= Seq::<CommandId>::empty());
                }
                while i < commands.len()
                    invariant
                        i <= commands@.len(),
                        all == commands@,
                        none@ == Seq::<BarrierId>::empty(),
                        context == self@.ballots.context(boot@.id, self@.ballots.promised),
                        views(out@) == payloads_served(self@, boot@, to, all.take(i as int)),
                    decreases commands@.len() - i,
                {
                    let c = commands[i];
                    proof {
                        assert(all.take(i + 1).drop_last() =~= all.take(i as int));
                        assert(all.take(i + 1).last() == c);
                    }
                    let durable = match self.proposals.get(&c) {
                        Some(p) => p.durable,
                        None => false,
                    };
                    if durable {
                        if let Some(p) = self.payloads.get(&c) {
                            let message = ProtocolMessage::PayloadResponse {
                                command: c,
                                payload: p.dup(),
                            };
                            let frame = message.encode();
                            publish(&mut out, context, &none, voter_address(to), &frame);
                        }
                    }
                    i = i + 1;
                }
                proof {
                    assert(all.take(all.len() as int) =~= all);
                }
                out
            },
        }
    }

    fn collect<S: Fn(EstablishmentEvidence) -> bool>(
        &mut self,
        seal: &S,
        from: ReplicaId,
        vote: Vote,
    ) -> (r: Vec<Effect>)
        requires
            is_seal(*seal),
        ensures
            (final(self)@, views(r@)) == old(self)@.collected(sealing_of(*seal), from, vote@),
    {
        if vote.replica() != from {
            self.reject(Rejection::Vote(VoteError::NotAVoter));
            return no_effects();
        }
        let command = vote.command();
        let ghost shown = vote@;
        match self.votes.remove(&command) {
            None => {
                // Acknowledgements for a command this leader never proposed
                // are kept out: nothing to learn from.
                proof {
                    assert(self@.votes =~= old(self)@.votes);
                    assert(self@ =~= old(self)@);
                }
                self.reject(Rejection::Vote(VoteError::WrongCommand));
                no_effects()
            },
            Some(mut set) => {
                let added = set.add(vote);
                self.votes.insert(command, set);
                let ghost counted = LeaderView {
                    votes: old(self)@.votes.insert(
                        command,
                        old(self)@.votes[command].presented(shown),
                    ),
                    ..old(self)@
                };
                proof {
                    assert(self@.votes =~= counted.votes);
                    assert(self@ =~= counted);
                }
                if let Err(e) = added {
                    self.reject(Rejection::Vote(e));
                }
                self.learn();
                self.release_ready(seal)
            },
        }
    }

    fn on_new_leader(&mut self, from: PeerId, ballot: Ballot) -> (r: Vec<Effect>)
        ensures
            (final(self)@, views(r@)) == old(self)@.asked_to_promise(from, ballot),
    {
        let outstanding = self.cut();
        let mut out = no_effects();
        let taken = self.boot.take();
        match taken {
            None => {
                proof {
                    assert(self@ =~= old(self)@);
                }
                out
            },
            Some(mut boot) => {
                let result = self.ballots.on_new_leader(
                    from,
                    ballot,
                    boot.id,
                    &mut boot.alloc,
                    &outstanding,
                );
                self.boot = Some(boot);
                match result {
                    Ok(effects) => {
                        self.report_due = Some(
                            PendingReport {
                                ballot,
                                to: from,
                                requires_durable: crate::effects::copy_barriers(
                                    &effects.reply.requires_durable,
                                ),
                            },
                        );
                        emit(&mut out, Effect::Persist(effects.persist));
                        emit(&mut out, Effect::Publish(effects.reply));
                        proof {
                            let turn = old(self)@.asked_to_promise(from, ballot);
                            assert(self@ =~= turn.0);
                            assert(views(out@) =~= turn.1);
                        }
                        out
                    },
                    Err(e) => {
                        proof {
                            assert(self@ =~= old(self)@);
                        }
                        self.reject(Rejection::Promise(e));
                        out
                    },
                }
            },
        }
    }

    /// A leader seals like any other voter: leading is a role within a
    /// configuration, and the fence is the configuration's.
    fn on_seal_request(&mut self, from: PeerId, transition: Transition) -> (r: Vec<Effect>)
        ensures
            (final(self)@, views(r@)) == old(self)@.asked_to_seal(from, transition),
    {
        let outstanding = self.cut();
        let mut out = no_effects();
        let taken = self.boot.take();
        match taken {
            None => {
                proof {
                    assert(self@ =~= old(self)@);
                }
                out
            },
            Some(mut boot) => {
                let result = self.ballots.seal(
                    transition,
                    from,
                    boot.id,
                    &mut boot.alloc,
                    &outstanding,
                );
                self.boot = Some(boot);
                match result {
                    Ok(effects) => {
                        emit(&mut out, Effect::Persist(effects.persist));
                        emit(&mut out, Effect::Publish(effects.report));
                        proof {
                            let turn = old(self)@.asked_to_seal(from, transition);
                            assert(self@ =~= turn.0);
                            assert(views(out@) =~= turn.1);
                        }
                        out
                    },
                    Err(e) => {
                        proof {
                            assert(self@ =~= old(self)@);
                        }
                        self.reject(Rejection::Seal(e));
                        out
                    },
                }
            },
        }
    }

    /// A frame from an authenticated peer.
    #[verifier::rlimit(40)]
    pub fn on_peer<
        H: Fn(HashDomain, Vec<Vec<u8>>) -> Digest32,
        S: Fn(EstablishmentEvidence) -> bool,
    >(&mut self, hash: &H, seal: &S, from: PeerId, frame: &Vec<u8>) -> (r: Vec<Effect>)
        requires
            is_hash(*hash),
            is_seal(*seal),
        ensures
            (final(self)@, views(r@)) == old(self)@.received(
                *hash,
                sealing_of(*seal),
                from,
                frame@,
            ),
    {
        let message = match ProtocolMessage::decode(frame) {
            Ok(m) => m,
            Err(_) => {
                self.reject(Rejection::MalformedPeerMessage);
                return no_effects();
            },
        };
        match message {
            ProtocolMessage::NewLeader { ballot } => self.on_new_leader(from, ballot),
            ProtocolMessage::FastAck(ack) => self.collect(seal, from.replica, Vote::Fast(ack)),
            ProtocolMessage::SlowAck(ack) => self.collect(seal, from.replica, Vote::Slow(ack)),
            ProtocolMessage::PayloadRequest { commands } => {
                self.serve_payloads(from.replica, &commands)
            },
            ProtocolMessage::Sync(decision) => {
                // A deposed leader carries the Sync into its follower role.
                if self.deposed() {
                    self.pending_sync = Some((from.replica, decision));
                }
                no_effects()
            },
            ProtocolMessage::SealRequest { transition } => self.on_seal_request(from, transition),
            _ => no_effects(),
        }
    }

    /// Handle one event.
    #[verifier::rlimit(40)]
    pub fn step<
        H: Fn(HashDomain, Vec<Vec<u8>>) -> Digest32,
        S: Fn(EstablishmentEvidence) -> bool,
    >(&mut self, hash: &H, seal: &S, event: Event) -> (r: Vec<Effect>)
        requires
            is_hash(*hash),
            is_seal(*seal),
            old(self)@.counting(),
        ensures
            (final(self)@, views(r@)) == old(self)@.stepped(*hash, sealing_of(*seal), event),
    {
        match event {
            Event::Boot { boot_id, first_barrier } => {
                self.boot = Some(
                    Boot {
                        id: boot_id,
                        alloc: BarrierAllocator::new(first_barrier),
                        settled: Settlements::new(),
                    },
                );
                proof {
                    assert(self@ =~= old(self)@.booted(boot_id, first_barrier));
                }
                no_effects()
            },
            Event::Admitted { request, admission } => {
                self.propose(hash, request, Some(admission))
            },
            Event::Storage(event) => self.on_storage(hash, &event),
            Event::Peer { from, frame } => self.on_peer(hash, seal, from, &frame),
            Event::Other => no_effects(),
        }
    }
}

/// Everything a change of role carries that the leader does not rebuild.
pub open spec fn carried(state: RecoveredView, leader: LeaderView) -> bool {
    &&& leader.config.identity == state.identity
    &&& leader.ballots == state.ballots
    &&& leader.payloads == state.payloads
    &&& leader.bindings == state.bindings
    &&& leader.learner == state.learner
    &&& leader.report_due == state.report_due
    &&& leader.ledger.records == state.ledger.records
    &&& forall|c: CommandId|
        reached(state.table.phase_of(c), Phase::Commit) ==> #[trigger] leader.table.phase_of(c)
            == state.table.phase_of(c)
}

proof fn lemma_reproposed_carries<H: Fn(HashDomain, Vec<Vec<u8>>) -> Digest32>(
    state: RecoveredView,
    leader: LeaderView,
    hash: H,
    c: CommandId,
    deps: Seq<CommandId>,
)
    requires
        carried(state, leader),
    ensures
        carried(state, leader.reproposed(hash, c, deps).0),
{
    let next = leader.reproposed(hash, c, deps).0;
    assert forall|k: CommandId| reached(state.table.phase_of(k), Phase::Commit) implies
        #[trigger] next.table.phase_of(k) == state.table.phase_of(k) by {
        assert(leader.table.phase_of(k) == state.table.phase_of(k));
    }
}

proof fn lemma_entries_carry<H: Fn(HashDomain, Vec<Vec<u8>>) -> Digest32>(
    state: RecoveredView,
    leader: LeaderView,
    hash: H,
    entries: Map<CommandId, SyncEntryView>,
    order: Seq<CommandId>,
)
    requires
        carried(state, leader),
    ensures
        carried(state, leader.reproposed_entries(hash, entries, order).0),
    decreases order.len(),
{
    if order.len() > 0 {
        lemma_entries_carry(state, leader, hash, entries, order.drop_last());
        let before = leader.reproposed_entries(hash, entries, order.drop_last()).0;
        lemma_reproposed_carries(state, before, hash, order.last(), entries[order.last()].deps);
    }
}

proof fn lemma_chain_carries<H: Fn(HashDomain, Vec<Vec<u8>>) -> Digest32>(
    state: RecoveredView,
    leader: LeaderView,
    hash: H,
    commands: Seq<CommandId>,
    last: Option<CommandId>,
)
    requires
        carried(state, leader),
    ensures
        carried(state, (leader.reproposed_chain(hash, commands, last).0).0),
    decreases commands.len(),
{
    if commands.len() > 0 {
        lemma_chain_carries(state, leader, hash, commands.drop_last(), last);
        let ((before, _), tail) = leader.reproposed_chain(hash, commands.drop_last(), last);
        lemma_reproposed_carries(
            state,
            before,
            hash,
            commands.last(),
            LeaderView::after_tail(tail),
        );
    }
}

/// Becoming the leader of a recovered ballot keeps what was learned: the
/// promises, the payloads, the retry-key bindings, the execution frontier, the
/// durable records, a report still owed, and the phase of every command that
/// was committed.
pub proof fn lemma_recovery_keeps_what_was_learned<
    H: Fn(HashDomain, Vec<Vec<u8>>) -> Digest32,
>(hash: H, state: RecoveredView, quorum: ConfigView, decision: SyncView)
    ensures
        carried(state, LeaderView::recovered(hash, state, quorum, decision).0),
{
    let start = LeaderView::taking_over(state, quorum);
    let order = dependency_order(
        decision.entries,
        Seq::empty(),
        in_order::<CommandId>(decision.entries.dom()),
    );
    let last = if order.len() == 0 {
        None
    } else {
        Some(order.last())
    };
    lemma_entries_carry(state, start, hash, decision.entries, order);
    let installed = start.reproposed_entries(hash, decision.entries, order).0;
    lemma_chain_carries(
        state,
        installed,
        hash,
        in_order::<CommandId>(decision.reproposed),
        last,
    );
}

/// `after` accepted nothing of its own order that `before` may not: a command
/// whose phase changed has a durable proposal, and every command that it is
/// proposed after is at ACCEPT or later. What was at ACCEPT stays there.
pub open spec fn accepted_in_turn(before: LeaderView, after: LeaderView) -> bool {
    &&& after.proposals == before.proposals
    &&& forall|c: CommandId|
        reached(before.table.phase_of(c), Phase::Accept) ==> reached(
            #[trigger] after.table.phase_of(c),
            Phase::Accept,
        )
    &&& forall|c: CommandId| #[trigger]
        after.table.phase_of(c) != before.table.phase_of(c) ==> in_turn(after, c)
}

/// The proposal of `c` is durable, and every command it is proposed after is at
/// ACCEPT or later.
pub open spec fn in_turn(state: LeaderView, c: CommandId) -> bool {
    &&& state.proposals.contains_key(c)
    &&& state.proposals[c].durable
    &&& forall|i: int|
        0 <= i < state.proposals[c].deps.len() ==> reached(
            state.table.phase_of(#[trigger] state.proposals[c].deps[i]),
            Phase::Accept,
        )
}

proof fn lemma_accept_one_in_turn(state: LeaderView, c: CommandId)
    requires
        state.proposals.contains_key(c),
        state.proposals[c].durable,
    ensures
        accepted_in_turn(state, state.accept_one(c).0),
{
    let deps = state.proposals[c].deps;
    let next = state.accept_one(c).0;
    crate::phase::lemma_guard_holds(deps, state.table.phases(), Phase::Accept);
    assert forall|k: CommandId| reached(state.table.phase_of(k), Phase::Accept) implies reached(
        #[trigger] next.table.phase_of(k),
        Phase::Accept,
    ) by {}
    assert forall|k: CommandId| #[trigger]
        next.table.phase_of(k) != state.table.phase_of(k) implies in_turn(next, k) by {
        assert(k == c);
        assert forall|i: int| 0 <= i < deps.len() implies reached(
            next.table.phase_of(#[trigger] deps[i]),
            Phase::Accept,
        ) by {
            assert(state.table.phases()(deps[i]) == state.table.phase_of(deps[i]));
        }
    }
}

proof fn lemma_turns_compose(a: LeaderView, b: LeaderView, c: LeaderView)
    requires
        accepted_in_turn(a, b),
        accepted_in_turn(b, c),
    ensures
        accepted_in_turn(a, c),
{
    assert forall|k: CommandId| reached(a.table.phase_of(k), Phase::Accept) implies reached(
        #[trigger] c.table.phase_of(k),
        Phase::Accept,
    ) by {
        assert(reached(b.table.phase_of(k), Phase::Accept));
    }
    assert forall|k: CommandId| #[trigger]
        c.table.phase_of(k) != a.table.phase_of(k) implies in_turn(c, k) by {
        if c.table.phase_of(k) == b.table.phase_of(k) {
            assert(in_turn(b, k));
            let deps = b.proposals[k].deps;
            assert forall|i: int| 0 <= i < deps.len() implies reached(
                c.table.phase_of(#[trigger] c.proposals[k].deps[i]),
                Phase::Accept,
            ) by {
                assert(reached(b.table.phase_of(b.proposals[k].deps[i]), Phase::Accept));
            }
        }
    }
}

proof fn lemma_accept_each_in_turn(state: LeaderView, cs: Seq<CommandId>)
    requires
        forall|i: int|
            0 <= i < cs.len() ==> state.proposals.contains_key(#[trigger] cs[i])
                && state.proposals[cs[i]].durable,
    ensures
        accepted_in_turn(state, state.accept_each(cs).0),
    decreases cs.len(),
{
    if cs.len() > 0 {
        assert forall|i: int| 0 <= i < cs.len() - 1 implies state.proposals.contains_key(
            #[trigger] cs.drop_last()[i],
        ) && state.proposals[cs.drop_last()[i]].durable by {
            assert(state.proposals.contains_key(cs[i]));
        }
        lemma_accept_each_in_turn(state, cs.drop_last());
        let before = state.accept_each(cs.drop_last()).0;
        assert(state.proposals.contains_key(cs[cs.len() - 1]));
        lemma_accept_one_in_turn(before, cs.last());
        lemma_turns_compose(state, before, state.accept_each(cs).0);
    }
}

/// The leader adopts its own order only when the proposal is durable and every
/// dependency is at ACCEPT or later, however many passes it takes.
pub proof fn lemma_own_order_is_adopted_in_turn(state: LeaderView)
    requires
        state.proposals.dom().finite(),
    ensures
        accepted_in_turn(state, state.pending_advanced().0),
    decreases state.acceptable().len(),
{
    let open = state.acceptable();
    let cs = in_order::<CommandId>(open);
    lemma_accept_round(state);
    lemma_in_order::<CommandId>(open);
    assert forall|i: int| 0 <= i < cs.len() implies state.proposals.contains_key(#[trigger] cs[i])
        && state.proposals[cs[i]].durable by {
        assert(cs.contains(cs[i]));
        assert(open.contains(cs[i]));
    }
    lemma_accept_each_in_turn(state, cs);
    let next = state.accept_round().0;
    if state.leading() && next.acceptable() != open {
        lemma_accept_each_frame(state, cs);
        lemma_own_order_is_adopted_in_turn(next);
        lemma_turns_compose(state, next, next.pending_advanced().0);
    }
}

/// A request presented again under its retry key proposes nothing: the same
/// command is a duplicate and another payload a conflict. Nothing but the list
/// of refusals changes, and nothing is asked of the runtime.
pub proof fn lemma_proposals_do_not_repeat<H: Fn(HashDomain, Vec<Vec<u8>>) -> Digest32>(
    state: LeaderView,
    hash: H,
    first: RequestView,
    admission: Option<Seq<u8>>,
    second: RequestView,
    other: Option<Seq<u8>>,
)
    requires
        state.boot is Some,
        state.propose_refusal(Some(first)) is None,
        state.table.init_refusal(
            first.command,
            LeaderView::payload_of(first, admission).admitted(hash),
        ) is None,
        second.retry_key == first.retry_key,
    ensures
        ({
            let made = state.proposed(hash, Some(first), admission).0;
            let (next, said) = made.proposed(hash, Some(second), other);
            &&& said.len() == 0
            &&& next == made.rejected(
                if second.command == first.command {
                    Rejection::Duplicate(first.command)
                } else {
                    Rejection::RequestIdentityConflict {
                        retry_key: first.retry_key,
                        bound: first.command,
                    }
                },
            )
        }),
{
}

/// A proposal batch that was definitely rejected loses nothing: presented again
/// under a new barrier, its record is a durable fact once that batch is, unless
/// a later batch of the command was durable before.
pub proof fn lemma_retried_records_are_reported<H: Fn(HashDomain, Vec<Vec<u8>>) -> Digest32>(
    state: LeaderView,
    hash: H,
    c: CommandId,
    record: RecordView,
    journal_seq: LocalJournalSeq,
)
    requires
        state.boot is Some,
        state.proposals.contains_key(c),
        state.proposals[c].attempts < MAX_PROPOSAL_ATTEMPTS,
        !state.ledger.sequences.contains_key(c) || state.ledger.sequences[c].0 <= journal_seq.0,
    ensures
        ({
            let retried = state.retried(hash, c, Some(record)).0;
            let durable = StorageEvent::JournalDurable { barrier: state.barrier(), journal_seq };
            &&& retried.proposals[c].barrier == state.barrier()
            &&& retried.noted(durable).ledger.records.contains_key(c)
            &&& retried.noted(durable).ledger.records[c] == record
        }),
{
}

} // verus!
