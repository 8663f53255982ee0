//! The collector of one domain.
//!
//! * **Fan-out** is parallel and direct: the canonical command goes to every
//!   voter of the configuration at once. The leader is one target among
//!   them, never a relay.
//! * **Evidence** is counted by voter identity: the sender bound at
//!   negotiation must be the replica the acknowledgement claims, a second
//!   connection of the same identity is a duplicate, and only the ballot's
//!   leader may publish a release.
//! * **Release** needs both halves: the collector's own learning predicate
//!   over counted votes *and* the leader's release-gate result for the same
//!   epoch, ballot and command. A lone leader reply, a lone release, or a
//!   majority without the leader never releases tentative data.
//! * **Cancellation** detaches the caller and nothing else: the entry keeps
//!   collecting, its identity stays bound and the outcome, once established,
//!   is resolvable.
//! * **Bounds**: pending commands are capped and unresolved entries are never
//!   evicted to make room; the retained submission envelopes are capped in
//!   bytes; resolved outcomes are kept in a bounded window. Capacity is
//!   reserved before anything is offered, so a refusal means nothing was sent
//!   by this attempt.

use vstd::prelude::*;
use vstd::string::*;

use crate::bytes::{copy_bytes, same_bytes};
use crate::client::{
    AdmittedRequest, AdmittedView, ErrorCode, Frame, FrameView, OutcomeBody, OutcomeV1,
    PeerProvenance, ReceiptView, RequestBody, ResolveRequestV1, ResponseV1, ResponseView,
    WireLimits, usable, usable_bytes,
};
use crate::clock::MonotonicMillis;
use crate::codec::Wire;
use crate::codes::{error_body, error_response};
use crate::delivery::{
    DeliveryView, Dissemination, OfferOutcome, answered, deadline, expiry, reading_view,
};
use crate::effects::{ReleasedResult, ReleasedView};
use crate::graph::PathAnchors;
use crate::hash::{HashDomain, is_hash};
use crate::ids::{CommandId, Digest32, KvRevision, ReplicaId, RetryKey, SessionId};
use crate::machine::{Derived, derive_identity, identity_of, is_identity, lemma_views_push};
use crate::messages::{MessageView, ProtocolMessage};
use crate::ordered::{
    Dup, Key, OrdMap, ascending, in_order, lemma_in_order, lemma_is_in_order, lemma_take_set, views,
};
use crate::quorum::{BallotConfiguration, ConfigView};
use crate::rows::{admission_digest, admission_of};
use crate::trace::{
    CollectorEvent, EventView, command_hex, hex_of, hexes_of, replica_hex, replica_hexes,
};
use crate::vote::{
    FastAck, FastAckView, LearnedView, Vote, VoteError, VoteSet, VoteSetView, VoteView,
};
use crate::wire::{KIND_SUBMIT, SubmitV1, SubmitView, facts_of, frame_bytes, framed, submit_frame};

verus! {

/// Configuration of one domain's collector.
#[derive(Debug)]
pub struct CollectorConfig {
    /// The current ballot configuration (voters, leader, fast set).
    pub quorum: BallotConfiguration,
    /// Commands pending at once (per domain).
    pub max_pending: usize,
    /// Resolved outcomes retained for retries and resolution.
    pub max_resolved: usize,
    /// Submission envelope bytes this collector will hold at once for
    /// commands it still owes a destination.
    pub max_undelivered_bytes: usize,
    /// What the wire carries.
    pub limits: WireLimits,
}

/// What a configuration says.
#[verifier::ext_equal]
pub struct SetupView {
    /// The current ballot configuration.
    pub quorum: ConfigView,
    /// Commands pending at once.
    pub max_pending: usize,
    /// Resolved outcomes retained.
    pub max_resolved: usize,
    /// Submission envelope bytes held at once.
    pub max_undelivered_bytes: usize,
    /// What the wire carries.
    pub limits: WireLimits,
}

impl View for CollectorConfig {
    type V = SetupView;

    open spec fn view(&self) -> SetupView {
        SetupView {
            quorum: self.quorum@,
            max_pending: self.max_pending,
            max_resolved: self.max_resolved,
            max_undelivered_bytes: self.max_undelivered_bytes,
            limits: self.limits,
        }
    }
}

/// The parallel fan-out of one submission.
///
/// It has no `Debug`: the frame is a caller's request.
pub struct FanOut {
    /// Command.
    pub command: CommandId,
    /// Retry key.
    pub retry_key: RetryKey,
    /// The voters this offer is for: every voter on the first offer, and on
    /// a repeat only the destinations that still owe an enqueue.
    pub targets: Vec<ReplicaId>,
    /// The `Submit` frame: the exact envelope of the first offer, never
    /// rebuilt from current session state.
    pub frame: Frame,
}

/// What a fan-out says.
#[verifier::ext_equal]
pub struct FanOutView {
    /// Command.
    pub command: CommandId,
    /// Retry key.
    pub retry_key: RetryKey,
    /// The voters this offer is for.
    pub targets: Seq<ReplicaId>,
    /// The `Submit` frame.
    pub frame: FrameView,
}

impl View for FanOut {
    type V = FanOutView;

    open spec fn view(&self) -> FanOutView {
        FanOutView {
            command: self.command,
            retry_key: self.retry_key,
            targets: self.targets@,
            frame: self.frame@,
        }
    }
}

/// What an offer of one command's submission actually achieved.
#[derive(Debug)]
pub struct Offered {
    /// The command the offer was for.
    pub command: CommandId,
    /// One outcome per destination the offer named.
    pub outcomes: Vec<(ReplicaId, OfferOutcome)>,
}

/// What a submission produced.
pub enum Submitted {
    /// New work: fan out.
    FanOut(FanOut),
    /// A retry of a pending command: the caller is re-attached, nothing is
    /// sent again.
    Attached {
        /// Command.
        command: CommandId,
    },
    /// A retry of a resolved command: the retained outcome.
    Resolved(ResponseV1),
}

/// What a submission produced.
#[verifier::ext_equal]
pub enum SubmittedView {
    /// New work.
    FanOut(FanOutView),
    /// A retry of a pending command.
    Attached {
        /// Command.
        command: CommandId,
    },
    /// A retry of a resolved command.
    Resolved(ResponseView),
}

impl View for Submitted {
    type V = SubmittedView;

    open spec fn view(&self) -> SubmittedView {
        match self {
            Submitted::FanOut(f) => SubmittedView::FanOut(f@),
            Submitted::Attached { command } => SubmittedView::Attached { command: *command },
            Submitted::Resolved(r) => SubmittedView::Resolved(r@),
        }
    }
}

/// Why a submission was refused. Nothing was sent.
#[allow(inconsistent_fields)]
#[derive(Clone, Copy, Debug, PartialEq, Eq, Structural)]
pub enum SubmitRefusal {
    /// The admitted frame is not a canonical request.
    Malformed,
    /// The retry key is bound to another payload.
    RequestIdentityConflict {
        /// Identity bound first.
        bound: CommandId,
    },
    /// The domain is at its pending bound.
    Backpressure {
        /// Commands pending.
        pending: usize,
    },
}

/// What a submission gave.
pub open spec fn submit_result(r: Result<Submitted, SubmitRefusal>) -> Result<
    SubmittedView,
    SubmitRefusal,
> {
    match r {
        Ok(s) => Ok(s@),
        Err(e) => Err(e),
    }
}

/// Why evidence was not counted.
#[allow(inconsistent_fields)]
#[derive(Clone, Copy, Debug, PartialEq, Eq, Structural)]
pub enum EvidenceError {
    /// The acknowledgement claims a replica other than the bound sender.
    SenderMismatch {
        /// Bound sender.
        sender: ReplicaId,
        /// Claimed replica.
        claimed: ReplicaId,
    },
    /// No pending command of that identity.
    UnknownCommand,
    /// A release from someone other than the ballot's leader.
    NotLeader {
        /// Sender.
        sender: ReplicaId,
    },
    /// A release for another epoch.
    WrongEpoch,
    /// A release for another ballot.
    WrongBallot,
    /// The vote set rejected the acknowledgement.
    Vote(VoteError),
    /// Not an evidence message (a recovery or transfer message).
    NotEvidence,
    /// A second, different release for the command.
    ReleaseMismatch,
    /// The acknowledgement is of the same identity under other attested facts
    /// than the ones submitted: it did not acknowledge this request.
    AdmissionMismatch,
}

/// The name of a refusal in the trace.
pub open spec fn vote_reason(e: VoteError) -> Seq<char> {
    match e {
        VoteError::NotAVoter => "Vote(NotAVoter)"@,
        VoteError::NotInFastSet => "Vote(NotInFastSet)"@,
        VoteError::WrongBallot => "Vote(WrongBallot)"@,
        VoteError::WrongCommand => "Vote(WrongCommand)"@,
        VoteError::Duplicate => "Vote(Duplicate)"@,
        VoteError::LeaderSlowAck => "Vote(LeaderSlowAck)"@,
        VoteError::ForgedProposal => "Vote(ForgedProposal)"@,
    }
}

/// A refusal in the trace: its name, and whom it names in lowercase hex.
pub open spec fn reason_of(e: EvidenceError) -> Seq<char> {
    match e {
        EvidenceError::SenderMismatch { sender, claimed } => "SenderMismatch { sender: "@ + hex_of(
            sender.bytes(),
        ) + ", claimed: "@ + hex_of(claimed.bytes()) + " }"@,
        EvidenceError::UnknownCommand => "UnknownCommand"@,
        EvidenceError::NotLeader { sender } => "NotLeader { sender: "@ + hex_of(sender.bytes())
            + " }"@,
        EvidenceError::WrongEpoch => "WrongEpoch"@,
        EvidenceError::WrongBallot => "WrongBallot"@,
        EvidenceError::Vote(v) => vote_reason(v),
        EvidenceError::NotEvidence => "NotEvidence"@,
        EvidenceError::ReleaseMismatch => "ReleaseMismatch"@,
        EvidenceError::AdmissionMismatch => "AdmissionMismatch"@,
    }
}

fn reason(e: &EvidenceError) -> (r: String)
    ensures
        r@ == reason_of(*e),
{
    match e {
        EvidenceError::SenderMismatch { sender, claimed } => {
            let mut text = "SenderMismatch { sender: ".to_owned();
            text.append(replica_hex(sender).as_str());
            text.append(", claimed: ");
            text.append(replica_hex(claimed).as_str());
            text.append(" }");
            text
        },
        EvidenceError::UnknownCommand => "UnknownCommand".to_owned(),
        EvidenceError::NotLeader { sender } => {
            let mut text = "NotLeader { sender: ".to_owned();
            text.append(replica_hex(sender).as_str());
            text.append(" }");
            text
        },
        EvidenceError::WrongEpoch => "WrongEpoch".to_owned(),
        EvidenceError::WrongBallot => "WrongBallot".to_owned(),
        EvidenceError::Vote(VoteError::NotAVoter) => "Vote(NotAVoter)".to_owned(),
        EvidenceError::Vote(VoteError::NotInFastSet) => "Vote(NotInFastSet)".to_owned(),
        EvidenceError::Vote(VoteError::WrongBallot) => "Vote(WrongBallot)".to_owned(),
        EvidenceError::Vote(VoteError::WrongCommand) => "Vote(WrongCommand)".to_owned(),
        EvidenceError::Vote(VoteError::Duplicate) => "Vote(Duplicate)".to_owned(),
        EvidenceError::Vote(VoteError::LeaderSlowAck) => "Vote(LeaderSlowAck)".to_owned(),
        EvidenceError::Vote(VoteError::ForgedProposal) => "Vote(ForgedProposal)".to_owned(),
        EvidenceError::NotEvidence => "NotEvidence".to_owned(),
        EvidenceError::ReleaseMismatch => "ReleaseMismatch".to_owned(),
        EvidenceError::AdmissionMismatch => "AdmissionMismatch".to_owned(),
    }
}

/// Whether two results produced the same revision, or both none.
fn same_revision(a: Option<KvRevision>, b: Option<KvRevision>) -> (r: bool)
    ensures
        r == (a == b),
{
    match (a, b) {
        (Some(x), Some(y)) => x == y,
        (None, None) => true,
        _ => false,
    }
}

/// What a release still waits for.
#[derive(Clone, Copy, Debug, PartialEq, Eq, Structural)]
pub enum HoldReason {
    /// The learning predicate does not hold over counted votes.
    AwaitingVotes,
    /// The leader's release-gate result has not arrived.
    AwaitingRelease,
}

/// A released result for a caller.
#[derive(Debug)]
pub struct Release {
    /// Retry key.
    pub retry_key: RetryKey,
    /// Command.
    pub command: CommandId,
    /// Session that submitted it.
    pub session: SessionId,
    /// The response.
    pub response: ResponseV1,
    /// Whether it preceded materialization.
    pub speculative: bool,
    /// Whether the collector learned on the fast path.
    pub fast: bool,
    /// Whether a caller is still attached.
    pub attached: bool,
}

/// What a release says.
#[verifier::ext_equal]
pub struct ReleaseView {
    /// Retry key.
    pub retry_key: RetryKey,
    /// Command.
    pub command: CommandId,
    /// Session that submitted it.
    pub session: SessionId,
    /// The response.
    pub response: ResponseView,
    /// Whether it preceded materialization.
    pub speculative: bool,
    /// Whether the collector learned on the fast path.
    pub fast: bool,
    /// Whether a caller is still attached.
    pub attached: bool,
}

impl View for Release {
    type V = ReleaseView;

    open spec fn view(&self) -> ReleaseView {
        ReleaseView {
            retry_key: self.retry_key,
            command: self.command,
            session: self.session,
            response: self.response@,
            speculative: self.speculative,
            fast: self.fast,
            attached: self.attached,
        }
    }
}

/// Progress after evidence.
#[derive(Debug)]
pub enum Progress {
    /// Still pending.
    Held(HoldReason),
    /// Released now.
    Released(Release),
    /// Already released earlier; the evidence changed nothing.
    Settled,
}

/// Progress after evidence.
#[verifier::ext_equal]
pub enum ProgressView {
    /// Still pending.
    Held(HoldReason),
    /// Released now.
    Released(ReleaseView),
    /// Already released earlier.
    Settled,
}

impl View for Progress {
    type V = ProgressView;

    open spec fn view(&self) -> ProgressView {
        match self {
            Progress::Held(h) => ProgressView::Held(*h),
            Progress::Released(r) => ProgressView::Released(r@),
            Progress::Settled => ProgressView::Settled,
        }
    }
}

/// What evidence gave.
pub open spec fn progress_result<E>(r: Result<Progress, E>) -> Result<ProgressView, E> {
    match r {
        Ok(p) => Ok(p@),
        Err(e) => Err(e),
    }
}

/// Resolution of an identity.
#[derive(Debug)]
pub enum Resolution {
    /// The established outcome.
    Outcome(ResponseV1),
    /// Bound and still collecting.
    Pending,
    /// The retry key is bound to another payload.
    Conflict {
        /// Identity bound.
        bound: CommandId,
    },
    /// Never seen here, or beyond the retained window.
    Unknown,
}

/// Resolution of an identity.
#[verifier::ext_equal]
pub enum ResolutionView {
    /// The established outcome.
    Outcome(ResponseView),
    /// Bound and still collecting.
    Pending,
    /// The retry key is bound to another payload.
    Conflict {
        /// Identity bound.
        bound: CommandId,
    },
    /// Never seen here, or beyond the retained window.
    Unknown,
}

impl View for Resolution {
    type V = ResolutionView;

    open spec fn view(&self) -> ResolutionView {
        match self {
            Resolution::Outcome(r) => ResolutionView::Outcome(r@),
            Resolution::Pending => ResolutionView::Pending,
            Resolution::Conflict { bound } => ResolutionView::Conflict { bound: *bound },
            Resolution::Unknown => ResolutionView::Unknown,
        }
    }
}

/// A command whose client deadline passed.
#[derive(Clone, Copy, Debug, PartialEq, Eq, Structural)]
pub struct Expired {
    /// Retry key.
    pub retry_key: RetryKey,
    /// Command.
    pub command: CommandId,
    /// Session.
    pub session: SessionId,
}

/// Why the durable record of a command's execution did not settle it here.
#[derive(Clone, Copy, Debug, PartialEq, Eq, Structural)]
pub enum SettleError {
    /// Not pending here: never submitted through this collector, or already
    /// resolved and beyond the retained window.
    NotPending,
    /// Nothing of this collector's own corroborates the record -- neither
    /// the learning predicate nor the leader's release. The record alone is
    /// deliberately not enough here.
    Uncorroborated,
    /// The release this collector holds and the record disagree on what the
    /// command produced. Neither is believed over the other.
    Mismatch,
}

/// One pending command.
struct Pending {
    retry_key: RetryKey,
    session: SessionId,
    /// Digest of the admission this collector submitted the command with.
    admission: Digest32,
    votes: VoteSet,
    released: Option<ReleasedResult>,
    attached: bool,
    deadline: Option<MonotonicMillis>,
    timed_out: bool,
    /// What each voter still owes this command by way of taking the
    /// submission. Bound to the *command*, not to the caller: a caller that
    /// times out or disconnects is detached and this obligation stays.
    dissemination: Dissemination,
}

/// What an optional release is.
pub open spec fn released_view(r: Option<ReleasedResult>) -> Option<ReleasedView> {
    match r {
        Some(x) => Some(x@),
        None => None,
    }
}

/// What a pending command is.
#[verifier::ext_equal]
pub struct EntryView {
    /// Retry key.
    pub retry_key: RetryKey,
    /// Session that submitted it.
    pub session: SessionId,
    /// Digest of the admission it was submitted with.
    pub admission: Digest32,
    /// Votes counted.
    pub votes: VoteSetView,
    /// The leader's release, once it came.
    pub released: Option<ReleasedView>,
    /// A caller is attached.
    pub attached: bool,
    /// When its caller gives up.
    pub deadline: Option<int>,
    /// The deadline was reported.
    pub timed_out: bool,
    /// What is owed by way of delivery.
    pub dissemination: DeliveryView,
}

impl View for Pending {
    type V = EntryView;

    closed spec fn view(&self) -> EntryView {
        EntryView {
            retry_key: self.retry_key,
            session: self.session,
            admission: self.admission,
            votes: self.votes@,
            released: released_view(self.released),
            attached: self.attached,
            deadline: reading_view(self.deadline),
            timed_out: self.timed_out,
            dissemination: self.dissemination@,
        }
    }
}

/// The collector of one domain.
pub struct Collector {
    config: CollectorConfig,
    pending: OrdMap<CommandId, Pending>,
    bindings: OrdMap<RetryKey, CommandId>,
    resolved: OrdMap<RetryKey, (CommandId, ResponseV1)>,
    resolved_order: Vec<RetryKey>,
    trace: Vec<CollectorEvent>,
    /// Envelope bytes reserved by commands that still owe a destination,
    /// kept incrementally so admission is a comparison rather than a walk.
    undelivered_bytes: usize,
    /// Where the next round of repeats starts looking.
    offer_cursor: usize,
}

/// What a collector holds.
#[verifier::ext_equal]
pub struct CollectorView {
    /// Configuration.
    pub config: SetupView,
    /// Pending commands.
    pub pending: Map<CommandId, EntryView>,
    /// The command each retry key is bound to.
    pub bindings: Map<RetryKey, CommandId>,
    /// Retained outcomes.
    pub resolved: Map<RetryKey, (CommandId, ResponseView)>,
    /// Retained outcomes, oldest first.
    pub resolved_order: Seq<RetryKey>,
    /// Transitions so far.
    pub trace: Seq<EventView>,
    /// Envelope bytes reserved.
    pub undelivered_bytes: usize,
    /// Where the next round of repeats starts looking.
    pub offer_cursor: usize,
}

impl View for Collector {
    type V = CollectorView;

    closed spec fn view(&self) -> CollectorView {
        CollectorView {
            config: self.config@,
            pending: self.pending@,
            bindings: self.bindings@,
            resolved: self.resolved@,
            resolved_order: self.resolved_order@,
            trace: views(self.trace@),
            undelivered_bytes: self.undelivered_bytes,
            offer_cursor: self.offer_cursor,
        }
    }
}

/// What is left of a reservation.
pub open spec fn drained(held: usize, given_back: usize) -> usize {
    if held >= given_back {
        (held - given_back) as usize
    } else {
        0
    }
}

fn drain(held: usize, given_back: usize) -> (r: usize)
    ensures
        r == drained(held, given_back),
{
    if held >= given_back {
        held - given_back
    } else {
        0
    }
}

/// One item of evidence as the trace shows it.
pub open spec fn evidence_event(
    command: CommandId,
    from: ReplicaId,
    kind: Seq<char>,
    refusal: Option<EvidenceError>,
) -> EventView {
    EventView::Evidence {
        command: hex_of(command.bytes()),
        from: hex_of(from.bytes()),
        kind,
        accepted: refusal is None,
        reason: match refusal {
            Some(e) => Some(reason_of(e)),
            None => None,
        },
    }
}

fn evidence(command: &CommandId, from: &ReplicaId, kind: &str, refusal: Option<EvidenceError>) -> (r:
    CollectorEvent)
    ensures
        r@ == evidence_event(*command, *from, kind@, refusal),
{
    let accepted = refusal.is_none();
    let text: Option<String> = match &refusal {
        Some(e) => Some(reason(e)),
        None => None,
    };
    CollectorEvent::Evidence {
        command: command_hex(command),
        from: replica_hex(from),
        kind: kind.to_owned(),
        accepted,
        reason: text,
    }
}

/// The vote a message carries, and what the trace calls it. A compact leader
/// reply carries no evidence of the admission: it is counted under what this
/// collector submitted.
pub open spec fn vote_in(message: MessageView, sender: ReplicaId, admission: Digest32) -> Option<
    (Seq<char>, VoteView),
> {
    match message {
        MessageView::LeaderReply { ballot, command, seqnum, deps, path } => Some(
            (
                "leader-reply"@,
                VoteView::Fast(
                    FastAckView {
                        replica: sender,
                        ballot,
                        command,
                        deps,
                        paths: Seq::empty(),
                        path,
                        admission,
                        seqnum: Some(seqnum),
                    },
                ),
            ),
        ),
        MessageView::FastAck(ack) => Some(("fast-ack"@, VoteView::Fast(ack))),
        MessageView::SlowAck(ack) => Some(("slow-ack"@, VoteView::Slow(ack))),
        _ => None,
    }
}

/// The response a caller is handed for a result, bounded by what can be
/// delivered: a result the API frame class cannot carry is real but
/// undeliverable, and saying so is an answer while silence is not.
pub open spec fn answer(
    limits: WireLimits,
    command: CommandId,
    revision: Option<KvRevision>,
    result: Seq<u8>,
) -> ResponseView {
    if result.len() <= usable(limits.api_frame) && result.len() <= limits.result {
        ResponseView {
            command_id: command,
            outcome: OutcomeBody::Established { revision, result },
        }
    } else {
        error_body(limits, command, ErrorCode::ResultTooLarge, "result bound"@)
    }
}

/// The revision a response establishes.
pub open spec fn revision_in(response: ResponseView) -> Option<u64> {
    match response.outcome {
        OutcomeBody::Established { revision: Some(r), .. } => Some(r.0),
        _ => None,
    }
}

impl EntryView {
    /// A freshly submitted command.
    pub open spec fn submitted(
        key: RetryKey,
        session: SessionId,
        admission: Digest32,
        command: CommandId,
        quorum: ConfigView,
        deadline: Option<int>,
        frame: FrameView,
        bytes: usize,
    ) -> Self {
        EntryView {
            retry_key: key,
            session,
            admission,
            votes: VoteSetView::empty(quorum, command),
            released: None,
            attached: true,
            deadline,
            timed_out: false,
            dissemination: DeliveryView::planned(frame, bytes, quorum.voters),
        }
    }

    /// The entry with its caller back.
    pub open spec fn reattached(self, deadline: Option<int>) -> Self {
        EntryView { attached: true, timed_out: false, deadline, ..self }
    }

    /// Exactly one half of what a release needs is held.
    pub open spec fn half(self) -> bool {
        (self.votes.learned() is Some) != (self.released is Some)
    }

    /// The caller's deadline has passed and was not reported yet.
    pub open spec fn overdue(self, now: int) -> bool {
        !self.timed_out && (self.deadline matches Some(d) && now >= d)
    }

    /// The entry after the ballot changed: evidence and releases of the old
    /// ballot are void, and delivery follows the new configuration.
    pub open spec fn reset(self, quorum: ConfigView, command: CommandId) -> Self {
        EntryView {
            votes: VoteSetView::empty(quorum, command),
            released: None,
            dissemination: self.dissemination.revisited(quorum.voters).trimmed(),
            ..self
        }
    }

    /// The bytes that go back when the ballot changes.
    pub open spec fn freed(self, quorum: ConfigView) -> usize {
        self.dissemination.revisited(quorum.voters).given_back()
    }
}

/// A round of repeats: the commands it reached, what it offers, and how many
/// destinations that spent.
#[verifier::ext_equal]
pub struct RoundView {
    /// Pending commands with the repeats under way.
    pub pending: Map<CommandId, EntryView>,
    /// The repeats.
    pub offers: Seq<FanOutView>,
    /// Destinations offered.
    pub spent: int,
    /// Commands looked at.
    pub examined: int,
}

impl RoundView {
    /// The round after looking at one more command.
    pub open spec fn visit(self, command: CommandId, now: int, budget: int) -> Self {
        let entry = self.pending[command];
        let targets = entry.dissemination.targets(now, budget - self.spent);
        if !self.pending.contains_key(command) || targets.len() == 0 {
            RoundView { examined: self.examined + 1, ..self }
        } else {
            RoundView {
                pending: self.pending.insert(
                    command,
                    EntryView {
                        dissemination: entry.dissemination.reoffered(now, budget - self.spent),
                        ..entry
                    },
                ),
                offers: self.offers.push(
                    FanOutView {
                        command,
                        retry_key: entry.retry_key,
                        targets,
                        frame: entry.dissemination.envelope->0,
                    },
                ),
                spent: self.spent + targets.len(),
                examined: self.examined + 1,
            }
        }
    }
}

/// A round of repeats over `order`, which stops where the budget is spent.
pub open spec fn round(
    pending: Map<CommandId, EntryView>,
    order: Seq<CommandId>,
    now: int,
    budget: int,
) -> RoundView
    decreases order.len(),
{
    if order.len() == 0 {
        RoundView { pending, offers: Seq::empty(), spent: 0, examined: 0 }
    } else {
        let before = round(pending, order.drop_last(), now, budget);
        if before.spent >= budget {
            before
        } else {
            before.visit(order.last(), now, budget)
        }
    }
}

/// The order a round looks at commands in: from where the last one stopped,
/// round to it again.
pub open spec fn rotated(order: Seq<CommandId>, start: int) -> Seq<CommandId> {
    order.skip(start) + order.take(start)
}

/// Repeats as the trace shows them.
pub open spec fn repeat_events(offers: Seq<FanOutView>) -> Seq<EventView> {
    Seq::new(
        offers.len(),
        |i: int|
            EventView::Reoffered {
                command: hex_of(offers[i].command.bytes()),
                targets: hexes_of(offers[i].targets),
            },
    )
}

/// What a collector holds and what it answers.
pub type Submission = (CollectorView, Result<SubmittedView, SubmitRefusal>);

impl CollectorView {
    /// A collector that holds nothing.
    pub open spec fn start(config: SetupView) -> Self {
        CollectorView {
            config,
            pending: Map::empty(),
            bindings: Map::empty(),
            resolved: Map::empty(),
            resolved_order: Seq::empty(),
            trace: Seq::empty(),
            undelivered_bytes: 0,
            offer_cursor: 0,
        }
    }

    /// The collector with one more transition in its trace.
    pub open spec fn noted(self, event: EventView) -> Self {
        CollectorView { trace: self.trace.push(event), ..self }
    }

    /// A refused submission as the trace shows it.
    pub open spec fn refused(self, sequence: u64, reason: Seq<char>) -> Self {
        self.noted(EventView::Refused { sequence, reason })
    }

    /// Commands pending.
    pub open spec fn load(self) -> nat {
        self.pending.dom().len()
    }

    /// The outcome of `command` is retained.
    pub open spec fn is_resolved(self, command: CommandId) -> bool {
        exists|k: RetryKey| #[trigger] self.resolved.contains_key(k) && self.resolved[k].0 == command
    }

    /// Submit an admitted request.
    pub open spec fn submitted<
        H: Fn(HashDomain, Vec<Vec<u8>>) -> Digest32,
        D: Fn(RetryKey, Vec<u8>) -> Option<Derived>,
    >(self, hash: H, derive: D, now: int, admitted: AdmittedView) -> Submission {
        match admitted.request {
            None => (self, Err(SubmitRefusal::Malformed)),
            Some(request) => match identity_of(derive, request.retry_key, request.logical) {
                None => (self, Err(SubmitRefusal::Malformed)),
                Some(command) => self.placed(
                    now,
                    admitted.receipt,
                    request,
                    command,
                    admission_of(hash, Some(facts_of(admitted.receipt)), request.ack_through),
                ),
            },
        }
    }

    /// Submit a request whose command is known, under the digest its
    /// admission has.
    pub open spec fn placed(
        self,
        now: int,
        receipt: ReceiptView,
        request: RequestBody,
        command: CommandId,
        admission: Digest32,
    ) -> Submission {
        let key = request.retry_key;
        let sequence = key.request_sequence.0;
        if self.bindings.contains_key(key) && self.bindings[key] != command {
            (
                self.refused(sequence, "request-identity-conflict"@),
                Err(SubmitRefusal::RequestIdentityConflict { bound: self.bindings[key] }),
            )
        } else if self.bindings.contains_key(key) && self.resolved.contains_key(key) {
            (
                self.noted(
                    EventView::Retained { command: hex_of(command.bytes()), sequence },
                ),
                Ok(SubmittedView::Resolved(self.resolved[key].1)),
            )
        } else if self.bindings.contains_key(key) && self.pending.contains_key(command) {
            (
                CollectorView {
                    pending: self.pending.insert(
                        command,
                        self.pending[command].reattached(expiry(now, request.deadline_ms)),
                    ),
                    ..self
                }.noted(EventView::Attached { command: hex_of(command.bytes()), sequence }),
                Ok(SubmittedView::Attached { command }),
            )
        } else if self.load() >= self.config.max_pending {
            (
                self.refused(sequence, "backpressure"@),
                Err(SubmitRefusal::Backpressure { pending: self.load() as usize }),
            )
        } else {
            match framed(
                self.config.limits,
                KIND_SUBMIT,
                SubmitV1::wire(SubmitView { receipt, request }),
            ) {
                Err(_) => (self, Err(SubmitRefusal::Malformed)),
                Ok(frame) => self.accepted(now, receipt, request, command, admission, frame),
            }
        }
    }

    /// New work, where its envelope fits the byte budget. Past this point no
    /// destination's answer turns into a refusal of the command.
    pub open spec fn accepted(
        self,
        now: int,
        receipt: ReceiptView,
        request: RequestBody,
        command: CommandId,
        admission: Digest32,
        frame: FrameView,
    ) -> Submission {
        let key = request.retry_key;
        let sequence = key.request_sequence.0;
        let bytes = frame_bytes(self.config.limits, frame);
        let targets = in_order::<ReplicaId>(self.config.quorum.voters);
        if self.undelivered_bytes + bytes > self.config.max_undelivered_bytes {
            (
                self.refused(sequence, "undelivered-bytes"@),
                Err(SubmitRefusal::Backpressure { pending: self.load() as usize }),
            )
        } else {
            (
                CollectorView {
                    undelivered_bytes: (self.undelivered_bytes + bytes) as usize,
                    bindings: self.bindings.insert(key, command),
                    pending: self.pending.insert(
                        command,
                        EntryView::submitted(
                            key,
                            receipt.attested.session,
                            admission,
                            command,
                            self.config.quorum,
                            expiry(now, request.deadline_ms),
                            frame,
                            bytes as usize,
                        ),
                    ),
                    ..self
                }.noted(
                    EventView::Submitted {
                        command: hex_of(command.bytes()),
                        sequence,
                        targets: hexes_of(targets),
                    },
                ),
                Ok(
                    SubmittedView::FanOut(
                        FanOutView { command, retry_key: key, targets, frame },
                    ),
                ),
            )
        }
    }

    /// What an offer achieved is recorded.
    pub open spec fn offered(
        self,
        now: int,
        command: CommandId,
        outcomes: Seq<(ReplicaId, OfferOutcome)>,
    ) -> Self {
        if !self.pending.contains_key(command) {
            self
        } else {
            let entry = self.pending[command];
            let delivery = DeliveryView {
                owed: answered(entry.dissemination.owed, now, outcomes),
                ..entry.dissemination
            };
            CollectorView {
                undelivered_bytes: drained(self.undelivered_bytes, delivery.given_back()),
                pending: self.pending.insert(
                    command,
                    EntryView { dissemination: delivery.trimmed(), ..entry },
                ),
                ..self
            }
        }
    }

    /// Where the round of repeats starts.
    pub open spec fn first_offer(self) -> int {
        self.offer_cursor as int % self.load() as int
    }

    /// The round of repeats that is due.
    pub open spec fn due_round(self, now: int, budget: int) -> RoundView {
        round(
            self.pending,
            rotated(in_order::<CommandId>(self.pending.dom()), self.first_offer()),
            now,
            budget,
        )
    }

    /// The repeats that are due are made.
    pub open spec fn reoffered(self, now: int, budget: int) -> (Self, Seq<FanOutView>) {
        if budget == 0 || self.load() == 0 {
            (self, Seq::empty())
        } else {
            let made = self.due_round(now, budget);
            (
                CollectorView {
                    pending: made.pending,
                    trace: self.trace + repeat_events(made.offers),
                    offer_cursor: usize::wrapping_add(
                        self.first_offer() as usize,
                        made.examined as usize,
                    ),
                    ..self
                },
                made.offers,
            )
        }
    }

    /// The destination `r` of `command` is on the congestion schedule.
    pub open spec fn scheduled(self, command: CommandId, r: ReplicaId) -> bool {
        self.pending.contains_key(command) && self.pending[command].dissemination.envelope is Some
            && self.pending[command].dissemination.owed.contains_key(r)
            && self.pending[command].dissemination.owed[r] is Missed
    }

    /// When the destination is due again.
    pub open spec fn due_at(self, command: CommandId, r: ReplicaId) -> int {
        self.pending[command].dissemination.owed[r]->next
    }

    /// `due` is the earliest reading at which a destination is due again,
    /// absent where none is on the schedule.
    pub open spec fn next_due_is(self, due: Option<int>) -> bool {
        match due {
            None => forall|c: CommandId, v: ReplicaId| !#[trigger] self.scheduled(c, v),
            Some(m) => (exists|c: CommandId, v: ReplicaId| #[trigger]
                self.scheduled(c, v) && self.due_at(c, v) == m) && forall|
                c: CommandId,
                v: ReplicaId,
            | #[trigger]
                self.scheduled(c, v) ==> m <= self.due_at(c, v),
        }
    }

    /// What a compact reply about `command` is counted under.
    pub open spec fn admission_for<H: Fn(HashDomain, Vec<Vec<u8>>) -> Digest32>(
        self,
        hash: H,
        command: CommandId,
    ) -> Digest32 {
        if self.pending.contains_key(command) {
            self.pending[command].admission
        } else {
            admission_of(hash, None, 0)
        }
    }

    /// Why a vote from `sender` is not counted.
    pub open spec fn vote_refusal(self, sender: ReplicaId, vote: VoteView) -> Option<EvidenceError> {
        if vote.replica() != sender {
            Some(EvidenceError::SenderMismatch { sender, claimed: vote.replica() })
        } else if self.pending.contains_key(vote.command()) {
            match self.pending[vote.command()].votes.refusal(vote) {
                Some(e) => Some(EvidenceError::Vote(e)),
                None => if vote.admission() != self.pending[vote.command()].admission {
                    Some(EvidenceError::AdmissionMismatch)
                } else {
                    None
                },
            }
        } else if self.is_resolved(vote.command()) {
            None
        } else {
            Some(EvidenceError::UnknownCommand)
        }
    }

    /// The collector with a vote presented to the command it names.
    pub open spec fn with_vote(self, vote: VoteView) -> Self {
        let entry = self.pending[vote.command()];
        CollectorView {
            pending: self.pending.insert(
                vote.command(),
                EntryView { votes: entry.votes.presented(vote), ..entry },
            ),
            ..self
        }
    }

    /// A vote from `sender` is presented.
    pub open spec fn counted(self, sender: ReplicaId, kind: Seq<char>, vote: VoteView) -> (
        Self,
        Result<ProgressView, EvidenceError>,
    ) {
        let command = vote.command();
        let refusal = self.vote_refusal(sender, vote);
        let event = evidence_event(command, sender, kind, refusal);
        match refusal {
            Some(e) => (self.noted(event), Err(e)),
            None => if self.pending.contains_key(command) {
                let (next, progress) = self.with_vote(vote).noted(event).released(command);
                (next, Ok(progress))
            } else {
                (self.noted(event), Ok(ProgressView::Settled))
            },
        }
    }

    /// Protocol evidence from a bound voter identity.
    pub open spec fn evidenced<H: Fn(HashDomain, Vec<Vec<u8>>) -> Digest32>(
        self,
        hash: H,
        from: PeerProvenance,
        message: MessageView,
    ) -> (Self, Result<ProgressView, EvidenceError>) {
        let named = vote_in(message, from.from, admission_of(hash, None, 0));
        match named {
            None => (self, Err(EvidenceError::NotEvidence)),
            Some((_, named_vote)) => {
                let (kind, vote) = vote_in(
                    message,
                    from.from,
                    self.admission_for(hash, named_vote.command()),
                )->0;
                self.counted(from.from, kind, vote)
            },
        }
    }

    /// Why a release is not taken.
    pub open spec fn release_refusal(self, sender: ReplicaId, released: ReleasedView) -> Option<
        EvidenceError,
    > {
        let quorum = self.config.quorum;
        let command = released.evidence.command;
        if sender != quorum.ballot.leader {
            Some(EvidenceError::NotLeader { sender })
        } else if released.evidence.epoch != quorum.epoch {
            Some(EvidenceError::WrongEpoch)
        } else if released.evidence.ballot != quorum.ballot {
            Some(EvidenceError::WrongBallot)
        } else if self.pending.contains_key(command) {
            match self.pending[command].released {
                Some(previous) if previous.evidence.result_digest
                    != released.evidence.result_digest || previous.evidence.position
                    != released.evidence.position || previous.evidence.revision
                    != released.evidence.revision || previous.response != released.response => Some(
                    EvidenceError::ReleaseMismatch,
                ),
                _ => None,
            }
        } else if self.is_resolved(command) {
            None
        } else {
            Some(EvidenceError::UnknownCommand)
        }
    }

    /// The collector with a release held for its command.
    pub open spec fn with_release(self, released: ReleasedView) -> Self {
        let entry = self.pending[released.evidence.command];
        CollectorView {
            pending: self.pending.insert(
                released.evidence.command,
                EntryView { released: Some(released), ..entry },
            ),
            ..self
        }
    }

    /// The leader's release-gate result is taken.
    pub open spec fn release_taken(self, from: PeerProvenance, released: ReleasedView) -> (
        Self,
        Result<ProgressView, EvidenceError>,
    ) {
        let command = released.evidence.command;
        let refusal = self.release_refusal(from.from, released);
        let event = evidence_event(command, from.from, "release"@, refusal);
        match refusal {
            Some(e) => (self.noted(event), Err(e)),
            None => if self.pending.contains_key(command) {
                let (next, progress) = self.with_release(released).noted(event).released(command);
                (next, Ok(progress))
            } else {
                (self.noted(event), Ok(ProgressView::Settled))
            },
        }
    }

    /// The release rule: both the collector's learning predicate and the
    /// leader's release must hold.
    pub open spec fn released(self, command: CommandId) -> (Self, ProgressView) {
        if !self.pending.contains_key(command) {
            (self, ProgressView::Settled)
        } else {
            let entry = self.pending[command];
            match (entry.votes.learned(), entry.released) {
                (None, _) => (
                    self.noted(
                        EventView::Held {
                            command: hex_of(command.bytes()),
                            reason: "awaiting-votes"@,
                        },
                    ),
                    ProgressView::Held(HoldReason::AwaitingVotes),
                ),
                (Some(_), None) => (
                    self.noted(
                        EventView::Held {
                            command: hex_of(command.bytes()),
                            reason: "awaiting-release"@,
                        },
                    ),
                    ProgressView::Held(HoldReason::AwaitingRelease),
                ),
                (Some(learned), Some(released)) => self.retired(command).finished(
                    command,
                    entry,
                    answer(
                        self.config.limits,
                        command,
                        released.evidence.revision,
                        released.response,
                    ),
                    released.speculative,
                    learned is Fast,
                ),
            }
        }
    }

    /// The collector without a command that settles: its dissemination
    /// obligation ends, its bytes go back, and the voters that never took
    /// the submission are recorded.
    pub open spec fn retired(self, command: CommandId) -> Self {
        let entry = self.pending[command];
        let missed = entry.dissemination.missing();
        CollectorView {
            pending: self.pending.remove(command),
            undelivered_bytes: drained(self.undelivered_bytes, entry.dissemination.reserved),
            trace: if missed.len() == 0 {
                self.trace
            } else {
                self.trace.push(
                    EventView::Undisseminated {
                        command: hex_of(command.bytes()),
                        missed: hexes_of(missed),
                    },
                )
            },
            ..self
        }
    }

    /// The outcome is retained, the release recorded, and the caller's
    /// answer handed back.
    pub open spec fn finished(
        self,
        command: CommandId,
        entry: EntryView,
        response: ResponseView,
        speculative: bool,
        fast: bool,
    ) -> (Self, ProgressView) {
        (
            self.retained(entry.retry_key, command, response).noted(
                EventView::Released {
                    command: hex_of(command.bytes()),
                    speculative,
                    fast,
                    voters: hexes_of(in_order::<ReplicaId>(entry.votes.voted())),
                    revision: revision_in(response),
                    delivered: entry.attached,
                },
            ),
            ProgressView::Released(
                ReleaseView {
                    retry_key: entry.retry_key,
                    command,
                    session: entry.session,
                    response,
                    speculative,
                    fast,
                    attached: entry.attached,
                },
            ),
        )
    }

    /// The outcome joins the retained window.
    pub open spec fn retained(self, key: RetryKey, command: CommandId, response: ResponseView) -> Self {
        CollectorView {
            resolved: self.resolved.insert(key, (command, response)),
            resolved_order: self.resolved_order.push(key),
            ..self
        }.windowed()
    }

    /// The oldest outcomes leave until the window holds no more than its
    /// bound.
    pub open spec fn windowed(self) -> Self
        decreases self.resolved_order.len(),
    {
        if self.resolved_order.len() <= self.config.max_resolved {
            self
        } else {
            let oldest = self.resolved_order.first();
            CollectorView {
                resolved: self.resolved.remove(oldest),
                bindings: self.bindings.remove(oldest),
                resolved_order: self.resolved_order.drop_first(),
                ..self
            }.windowed()
        }
    }

    /// Why the durable record does not settle a command.
    pub open spec fn record_refusal(
        self,
        command: CommandId,
        result_digest: Digest32,
        response: Seq<u8>,
    ) -> Option<SettleError> {
        if !self.pending.contains_key(command) {
            if self.is_resolved(command) {
                None
            } else {
                Some(SettleError::NotPending)
            }
        } else {
            let entry = self.pending[command];
            match entry.released {
                Some(released) => if released.evidence.result_digest != result_digest
                    || released.response != response {
                    Some(SettleError::Mismatch)
                } else {
                    None
                },
                None => if entry.votes.learned() is None {
                    Some(SettleError::Uncorroborated)
                } else {
                    None
                },
            }
        }
    }

    /// A command is settled from the durable record of its execution.
    pub open spec fn settled_from_record(
        self,
        command: CommandId,
        result_digest: Digest32,
        revision: Option<KvRevision>,
        response: Seq<u8>,
    ) -> (Self, Result<ProgressView, SettleError>) {
        match self.record_refusal(command, result_digest, response) {
            Some(e) => (self, Err(e)),
            None => if !self.pending.contains_key(command) {
                (self, Ok(ProgressView::Settled))
            } else {
                let entry = self.pending[command];
                let (next, progress) = self.retired(command).noted(
                    EventView::SettledFromRecord {
                        command: hex_of(command.bytes()),
                        corroborated: if entry.released is Some {
                            "release"@
                        } else {
                            "votes"@
                        },
                    },
                ).finished(
                    command,
                    entry,
                    answer(self.config.limits, command, revision, response),
                    false,
                    entry.votes.learned() matches Some(LearnedView::Fast(_)),
                );
                (next, Ok(progress))
            },
        }
    }

    /// The caller of `retry_key` went away.
    pub open spec fn cancelled(self, retry_key: RetryKey) -> (Self, Option<CommandId>) {
        if self.bindings.contains_key(retry_key) && self.pending.contains_key(
            self.bindings[retry_key],
        ) {
            let command = self.bindings[retry_key];
            (
                CollectorView {
                    pending: self.pending.insert(
                        command,
                        EntryView { attached: false, ..self.pending[command] },
                    ),
                    ..self
                }.noted(EventView::Cancelled { command: hex_of(command.bytes()) }),
                Some(command),
            )
        } else {
            (self, None)
        }
    }

    /// What is known of an identity.
    pub open spec fn resolution(self, request: ResolveRequestV1) -> ResolutionView {
        let key = request.retry_key;
        if !self.bindings.contains_key(key) {
            ResolutionView::Unknown
        } else if self.bindings[key] != request.command_id {
            ResolutionView::Conflict { bound: self.bindings[key] }
        } else if self.resolved.contains_key(key) {
            ResolutionView::Outcome(self.resolved[key].1)
        } else if self.pending.contains_key(self.bindings[key]) {
            ResolutionView::Pending
        } else {
            ResolutionView::Unknown
        }
    }

    /// An identity is resolved.
    pub open spec fn resolved_query(self, request: ResolveRequestV1) -> Self {
        self.noted(
            EventView::Resolved {
                sequence: request.retry_key.request_sequence.0,
                result: match self.resolution(request) {
                    ResolutionView::Outcome(_) => "outcome"@,
                    ResolutionView::Pending => "pending"@,
                    ResolutionView::Conflict { .. } => "conflict"@,
                    ResolutionView::Unknown => "unknown"@,
                },
            },
        )
    }

    /// Commands that hold exactly one half of a release, in command order.
    pub open spec fn halves(self) -> Seq<CommandId> {
        in_order::<CommandId>(self.pending.dom().filter(|c: CommandId| self.pending[c].half()))
    }

    /// Commands whose deadline passed at `now`, in command order.
    pub open spec fn overdue(self, now: int) -> Seq<CommandId> {
        in_order::<CommandId>(
            self.pending.dom().filter(|c: CommandId| self.pending[c].overdue(now)),
        )
    }

    /// Passed deadlines are reported once; the commands stay pending.
    pub open spec fn expired(self, now: int) -> Self {
        CollectorView {
            pending: Map::new(
                |c: CommandId| self.pending.contains_key(c),
                |c: CommandId|
                    if self.pending[c].overdue(now) {
                        EntryView { timed_out: true, ..self.pending[c] }
                    } else {
                        self.pending[c]
                    },
            ),
            trace: self.trace + timeouts(self.overdue(now)),
            ..self
        }
    }

    /// What is left of the reservations once the commands of `order` follow
    /// a new configuration.
    pub open spec fn left_after(self, quorum: ConfigView, order: Seq<CommandId>) -> usize
        decreases order.len(),
    {
        if order.len() == 0 {
            self.undelivered_bytes
        } else {
            drained(
                self.left_after(quorum, order.drop_last()),
                self.pending[order.last()].freed(quorum),
            )
        }
    }

    /// The ballot changed: pending commands collect afresh under the new
    /// configuration.
    pub open spec fn reconfigured(self, quorum: ConfigView) -> Self {
        CollectorView {
            config: SetupView { quorum, ..self.config },
            pending: Map::new(
                |c: CommandId| self.pending.contains_key(c),
                |c: CommandId| self.pending[c].reset(quorum, c),
            ),
            undelivered_bytes: self.left_after(
                quorum,
                in_order::<CommandId>(self.pending.dom()),
            ),
            trace: self.trace.push(
                EventView::Reconfigured {
                    ballot: quorum.ballot.number,
                    reset: self.load() as usize,
                },
            ),
            ..self
        }
    }
}

proof fn lemma_no_targets(delivery: DeliveryView, now: int, room: int)
    requires
        delivery.targets(now, room).len() == 0,
    ensures
        delivery.reoffered(now, room) == delivery,
{
    assert(delivery.reoffered(now, room).owed =~= delivery.owed);
}

proof fn lemma_few_targets(delivery: DeliveryView, now: int, room: int)
    requires
        0 <= room,
    ensures
        delivery.targets(now, room).len() <= room,
{
}

impl Collector {
    /// A collector under `config`.
    pub fn new(config: CollectorConfig) -> (r: Self)
        ensures
            r@ == CollectorView::start(config@),
    {
        let r = Collector {
            config,
            pending: OrdMap::new(),
            bindings: OrdMap::new(),
            resolved: OrdMap::new(),
            resolved_order: Vec::new(),
            trace: Vec::new(),
            undelivered_bytes: 0,
            offer_cursor: 0,
        };
        proof {
            assert(views(r.trace@) =~= Seq::<EventView>::empty());
            assert(r@ =~= CollectorView::start(config@));
        }
        r
    }

    /// The current ballot configuration.
    pub fn quorum(&self) -> (r: &BallotConfiguration)
        ensures
            r@ == self@.config.quorum,
    {
        &self.config.quorum
    }

    /// Commands pending.
    pub fn pending(&self) -> (r: usize)
        ensures
            r == self@.load(),
            self@.pending.dom().finite(),
    {
        self.pending.len()
    }

    /// The admission digest `command` was submitted under, while it is
    /// outstanding: what evidence for it has to agree with.
    pub fn admission(&self, command: &CommandId) -> (r: Option<Digest32>)
        ensures
            r == (if self@.pending.contains_key(*command) {
                Some(self@.pending[*command].admission)
            } else {
                None
            }),
    {
        match self.pending.get(command) {
            Some(p) => Some(p.admission),
            None => None,
        }
    }

    /// Whether `command` is outstanding here.
    pub fn is_pending(&self, command: &CommandId) -> (r: bool)
        ensures
            r == self@.pending.contains_key(*command),
    {
        self.pending.contains_key(command)
    }

    /// The transitions so far.
    pub fn trace(&self) -> (r: &Vec<CollectorEvent>)
        ensures
            views(r@) == self@.trace,
    {
        &self.trace
    }

    /// Take the transitions so far.
    pub fn take_trace(&mut self) -> (r: Vec<CollectorEvent>)
        ensures
            views(r@) == old(self)@.trace,
            final(self)@ == (CollectorView { trace: Seq::empty(), ..old(self)@ }),
    {
        let mut taken: Vec<CollectorEvent> = Vec::new();
        std::mem::swap(&mut taken, &mut self.trace);
        proof {
            assert(views(self.trace@) =~= Seq::<EventView>::empty());
        }
        taken
    }

    /// Submission envelope bytes held for commands that owe a destination
    /// (diagnostic).
    pub fn undelivered_bytes(&self) -> (r: usize)
        ensures
            r == self@.undelivered_bytes,
    {
        self.undelivered_bytes
    }

    fn note(&mut self, event: CollectorEvent)
        ensures
            final(self)@ == old(self)@.noted(event@),
    {
        let ghost before = self.trace@;
        self.trace.push(event);
        proof {
            lemma_views_push(before, event);
            assert(self@ =~= old(self)@.noted(event@));
        }
    }

    fn refuse(&mut self, sequence: u64, reason: &str)
        ensures
            final(self)@ == old(self)@.refused(sequence, reason@),
    {
        self.note(CollectorEvent::Refused { sequence, reason: reason.to_owned() });
    }

    /// Submit an admitted request at `now`, the monotonic reading its
    /// deadline is measured from.
    pub fn submit<
        H: Fn(HashDomain, Vec<Vec<u8>>) -> Digest32,
        D: Fn(RetryKey, Vec<u8>) -> Option<Derived>,
    >(
        &mut self,
        hash: &H,
        derive: &D,
        now: MonotonicMillis,
        admitted: &AdmittedRequest,
    ) -> (r: Result<Submitted, SubmitRefusal>)
        requires
            is_hash(*hash),
            is_identity(*derive),
        ensures
            (final(self)@, submit_result(r)) == old(self)@.submitted(
                *hash,
                *derive,
                now@,
                admitted@,
            ),
    {
        let request = match &admitted.request {
            Some(r) => r,
            None => {
                return Err(SubmitRefusal::Malformed);
            },
        };
        let command = match derive_identity(derive, request.retry_key, &request.logical) {
            Some(c) => c,
            None => {
                return Err(SubmitRefusal::Malformed);
            },
        };
        let facts = admitted.receipt.facts();
        let admission = admission_digest(hash, Some(&facts), request.ack_through);
        self.place(now, admitted, command, admission)
    }

    /// Submit a request whose command is known, under the digest its
    /// admission has.
    pub fn place(
        &mut self,
        now: MonotonicMillis,
        admitted: &AdmittedRequest,
        command: CommandId,
        admission: Digest32,
    ) -> (r: Result<Submitted, SubmitRefusal>)
        ensures
            (final(self)@, submit_result(r)) == (match admitted@.request {
                Some(request) => old(self)@.placed(
                    now@,
                    admitted@.receipt,
                    request,
                    command,
                    admission,
                ),
                None => (old(self)@, Err::<SubmittedView, SubmitRefusal>(SubmitRefusal::Malformed)),
            }),
    {
        let ghost start = self@;
        let request = match &admitted.request {
            Some(r) => r,
            None => {
                return Err(SubmitRefusal::Malformed);
            },
        };
        let key = request.retry_key;
        let sequence: u64 = key.request_sequence.0;
        if let Some(bound) = self.bindings.get(&key) {
            let bound: CommandId = *bound;
            if bound != command {
                self.refuse(sequence, "request-identity-conflict");
                return Err(SubmitRefusal::RequestIdentityConflict { bound });
            }
            if let Some(retained) = self.resolved.get(&key) {
                let response = retained.1.dup();
                self.note(
                    CollectorEvent::Retained { command: command_hex(&command), sequence },
                );
                return Ok(Submitted::Resolved(response));
            }
            if let Some(mut entry) = self.pending.remove(&command) {
                entry.attached = true;
                entry.timed_out = false;
                entry.deadline = deadline(now, request.deadline_ms);
                let ghost again = entry@;
                self.pending.insert(command, entry);
                proof {
                    assert(again =~= start.pending[command].reattached(
                        expiry(now@, request.deadline_ms),
                    ));
                    assert(self@.pending =~= start.pending.insert(command, again));
                    assert(self@ =~= (CollectorView {
                        pending: start.pending.insert(command, again),
                        ..start
                    }));
                }
                self.note(
                    CollectorEvent::Attached { command: command_hex(&command), sequence },
                );
                return Ok(Submitted::Attached { command });
            }
            // Bound but neither pending nor resolved: the retained window
            // moved past it; it is new work again under the same identity.
        }
        proof {
            assert(self@ =~= start);
        }
        let load: usize = self.pending.len();
        if load >= self.config.max_pending {
            self.refuse(sequence, "backpressure");
            return Err(SubmitRefusal::Backpressure { pending: load });
        }
        let submit = SubmitV1 { receipt: admitted.receipt.dup(), request: request.dup() };
        let frame = match submit_frame(&self.config.limits, &submit) {
            Ok(f) => f,
            Err(_) => {
                return Err(SubmitRefusal::Malformed);
            },
        };
        self.accept(now, admitted, command, admission, frame)
    }

    /// Take new work on, where its envelope fits the byte budget.
    #[verifier::rlimit(40)]
    fn accept(
        &mut self,
        now: MonotonicMillis,
        admitted: &AdmittedRequest,
        command: CommandId,
        admission: Digest32,
        frame: Frame,
    ) -> (r: Result<Submitted, SubmitRefusal>)
        requires
            admitted@.request is Some,
            frame_bytes(old(self)@.config.limits, frame@) <= usize::MAX,
        ensures
            (final(self)@, submit_result(r)) == old(self)@.accepted(
                now@,
                admitted@.receipt,
                admitted@.request->0,
                command,
                admission,
                frame@,
            ),
    {
        let ghost start = self@;
        let request = match &admitted.request {
            Some(r) => r,
            None => {
                return Err(SubmitRefusal::Malformed);
            },
        };
        let key = request.retry_key;
        let sequence: u64 = key.request_sequence.0;
        let load: usize = self.pending.len();
        // The second half of the reservation, and the last point at which
        // refusing is honest: a refusal is a statement that nothing was sent
        // by this attempt.
        let bytes: usize = frame.payload.len() + self.config.limits.header;
        let fits = match self.undelivered_bytes.checked_add(bytes) {
            Some(total) => total <= self.config.max_undelivered_bytes,
            None => false,
        };
        if !fits {
            self.refuse(sequence, "undelivered-bytes");
            return Err(SubmitRefusal::Backpressure { pending: load });
        }
        let targets = self.config.quorum.voters().to_vec();
        proof {
            assert(views(targets@) =~= targets@);
        }
        self.undelivered_bytes = self.undelivered_bytes + bytes;
        self.bindings.insert(key, command);
        let entry = Pending {
            retry_key: key,
            session: admitted.receipt.session(),
            admission,
            votes: VoteSet::new(self.config.quorum.dup(), command),
            released: None,
            attached: true,
            deadline: deadline(now, request.deadline_ms),
            timed_out: false,
            dissemination: Dissemination::planned(
                frame.dup(),
                bytes,
                self.config.quorum.voters(),
            ),
        };
        let ghost fresh = entry@;
        self.pending.insert(command, entry);
        proof {
            assert(fresh =~= EntryView::submitted(
                key,
                admitted@.receipt.attested.session,
                admission,
                command,
                start.config.quorum,
                expiry(now@, request.deadline_ms),
                frame@,
                bytes,
            ));
            assert(self@ =~= (CollectorView {
                undelivered_bytes: (start.undelivered_bytes + bytes) as usize,
                bindings: start.bindings.insert(key, command),
                pending: start.pending.insert(command, fresh),
                ..start
            }));
        }
        let event = CollectorEvent::Submitted {
            command: command_hex(&command),
            sequence,
            targets: replica_hexes(&targets),
        };
        self.note(event);
        Ok(Submitted::FanOut(FanOut { command, retry_key: key, targets, frame }))
    }

    /// Record what an offer of `report.command` achieved, destination by
    /// destination.
    ///
    /// The one way delivery state moves. Whoever holds the sockets makes the
    /// attempt and says what happened; the obligation that follows from it
    /// lives here, beside the pending command. Nothing here can fail a
    /// command.
    pub fn offered(&mut self, now: MonotonicMillis, report: &Offered)
        ensures
            final(self)@ == old(self)@.offered(now@, report.command, report.outcomes@),
    {
        let ghost start = self@;
        let mut entry = match self.pending.remove(&report.command) {
            Some(e) => e,
            None => {
                // Settled, or never ours: a late report about it is not an
                // error.
                proof {
                    assert(self@ =~= start);
                }
                return;
            },
        };
        entry.dissemination.record(now, &report.outcomes);
        let given_back: usize = entry.dissemination.release();
        self.undelivered_bytes = drain(self.undelivered_bytes, given_back);
        let ghost after = entry@;
        self.pending.insert(report.command, entry);
        proof {
            let was = start.pending[report.command];
            let delivery = DeliveryView {
                owed: answered(was.dissemination.owed, now@, report.outcomes@),
                ..was.dissemination
            };
            assert(after =~= (EntryView { dissemination: delivery.trimmed(), ..was }));
            assert(self@ =~= start.offered(now@, report.command, report.outcomes@));
        }
    }

    /// Look at one command of a round of repeats, where the destinations
    /// spent so far leave room.
    fn revisit(
        &mut self,
        command: CommandId,
        now: MonotonicMillis,
        room: usize,
    ) -> (r: Option<FanOut>)
        ensures
            ({
                let was = old(self)@.pending[command];
                let targets = was.dissemination.targets(now@, room as int);
                if !old(self)@.pending.contains_key(command) || targets.len() == 0 {
                    final(self)@ == old(self)@ && r is None
                } else {
                    &&& final(self)@ == (CollectorView {
                        pending: old(self)@.pending.insert(
                            command,
                            EntryView {
                                dissemination: was.dissemination.reoffered(now@, room as int),
                                ..was
                            },
                        ),
                        trace: old(self)@.trace.push(
                            EventView::Reoffered {
                                command: hex_of(command.bytes()),
                                targets: hexes_of(targets),
                            },
                        ),
                        ..old(self)@
                    })
                    &&& r is Some
                    &&& r->0@ == (FanOutView {
                        command,
                        retry_key: was.retry_key,
                        targets,
                        frame: was.dissemination.envelope->0,
                    })
                }
            }),
    {
        let ghost start = self@;
        let mut entry = match self.pending.remove(&command) {
            Some(e) => e,
            None => {
                proof {
                    assert(self@ =~= start);
                }
                return None;
            },
        };
        let retry_key = entry.retry_key;
        let envelope = entry.dissemination.envelope();
        let targets = entry.dissemination.reoffer(now, room);
        let ghost after = entry@;
        self.pending.insert(command, entry);
        proof {
            let was = start.pending[command];
            assert(after =~= (EntryView {
                dissemination: was.dissemination.reoffered(now@, room as int),
                ..was
            }));
            if targets@.len() == 0 {
                lemma_no_targets(was.dissemination, now@, room as int);
                assert(after =~= was);
                assert(self@.pending =~= start.pending);
                assert(self@ =~= start);
            } else {
                assert(self@ =~= (CollectorView {
                    pending: start.pending.insert(command, after),
                    ..start
                }));
            }
        }
        if targets.len() == 0 {
            return None;
        }
        match envelope {
            Some(frame) => {
                self.note(
                    CollectorEvent::Reoffered {
                        command: command_hex(&command),
                        targets: replica_hexes(&targets),
                    },
                );
                Some(FanOut { command, retry_key, targets, frame })
            },
            None => None,
        }
    }

    /// The re-offers that are due, bounded by `budget` destinations in
    /// total.
    ///
    /// Fair across commands rather than in command order: the cursor
    /// advances past whatever was served. Bounded in what it *does*, never in
    /// what it *owes*: there is no attempt limit after which an accepted,
    /// unresolved command is forgotten.
    #[verifier::rlimit(40)]
    pub fn due_offers(&mut self, now: MonotonicMillis, budget: usize) -> (r: Vec<FanOut>)
        ensures
            (final(self)@, views(r@)) == old(self)@.reoffered(now@, budget as int),
    {
        let ghost start = self@;
        let mut out: Vec<FanOut> = Vec::new();
        let commands = self.pending.keys();
        proof {
            assert(views(commands@) =~= commands@);
            assert(views(out@) =~= Seq::<FanOutView>::empty());
        }
        if budget == 0 || commands.len() == 0 {
            return out;
        }
        let size: usize = commands.len();
        let first: usize = self.offer_cursor % size;
        let ghost order = rotated(commands@, first as int);
        let mut spent: usize = 0;
        let mut examined: usize = 0;
        let mut i: usize = 0;
        proof {
            assert(order.take(0) =~= Seq::<CommandId>::empty());
            assert(repeat_events(views(out@)) =~= Seq::<EventView>::empty());
            assert(start.trace + repeat_events(views(out@)) =~= start.trace);
        }
        while i < size
            invariant
                i <= size,
                size == commands@.len(),
                first < size,
                order == rotated(commands@, first as int),
                order.len() == size,
                examined <= i,
                spent <= budget,
                ({
                    let made = round(start.pending, order.take(i as int), now@, budget as int);
                    &&& self@ == (CollectorView {
                        pending: made.pending,
                        trace: start.trace + repeat_events(made.offers),
                        ..start
                    })
                    &&& views(out@) == made.offers
                    &&& spent == made.spent
                    &&& examined == made.examined
                }),
            decreases size - i,
        {
            let ghost made = round(start.pending, order.take(i as int), now@, budget as int);
            proof {
                assert(order.take(i + 1).drop_last() =~= order.take(i as int));
                assert(order.take(i + 1).last() == order[i as int]);
            }
            if spent < budget {
                let at: usize = if i < size - first {
                    first + i
                } else {
                    i - (size - first)
                };
                let command = commands[at];
                proof {
                    assert(command == order[i as int]);
                }
                examined = examined + 1;
                let ghost was = self@.pending[command];
                let ghost room = budget - spent;
                let ghost offered_before = out@;
                if let Some(offer) = self.revisit(command, now, budget - spent) {
                    proof {
                        lemma_few_targets(was.dissemination, now@, room);
                        lemma_views_push(offered_before, offer);
                        assert(repeat_events(made.offers.push(offer@)) =~= repeat_events(
                            made.offers,
                        ).push(
                            EventView::Reoffered {
                                command: hex_of(command.bytes()),
                                targets: hexes_of(offer@.targets),
                            },
                        ));
                        assert(start.trace + repeat_events(made.offers.push(offer@)) =~= (
                        start.trace + repeat_events(made.offers)).push(
                            EventView::Reoffered {
                                command: hex_of(command.bytes()),
                                targets: hexes_of(offer@.targets),
                            },
                        ));
                    }
                    spent = spent + offer.targets.len();
                    out.push(offer);
                }
            }
            i = i + 1;
        }
        self.offer_cursor = first.wrapping_add(examined);
        proof {
            assert(order.take(size as int) =~= order);
            assert(self@ =~= start.reoffered(now@, budget as int).0);
        }
        out
    }

    /// When the next re-offer falls due, on the clock `due_offers` is given,
    /// or `None` when nothing is owed on the congestion schedule.
    pub fn next_due(&self) -> (r: Option<MonotonicMillis>)
        ensures
            self@.next_due_is(
                match r {
                    None => None,
                    Some(m) => Some(m@),
                },
            ),
    {
        let size: usize = self.pending.len();
        let mut best: Option<MonotonicMillis> = None;
        let mut i: usize = 0;
        let ghost order = in_order::<CommandId>(self.pending@.dom());
        proof {
            lemma_in_order::<CommandId>(self.pending@.dom());
        }
        while i < size
            invariant
                i <= size == self.pending@.dom().len(),
                self@.pending == self.pending@,
                order == in_order::<CommandId>(self.pending@.dom()),
                order.len() == size,
                best is None ==> forall|j: int, v: ReplicaId|
                    0 <= j < i ==> !#[trigger] self@.scheduled(order[j], v),
                best matches Some(m) ==> (exists|c: CommandId, v: ReplicaId| #[trigger]
                    self@.scheduled(c, v) && self@.due_at(c, v) == m@) && forall|
                    j: int,
                    v: ReplicaId,
                |
                    0 <= j < i && #[trigger] self@.scheduled(order[j], v) ==> m@ <= self@.due_at(
                        order[j],
                        v,
                    ),
            decreases size - i,
        {
            let entry = self.pending.value_at(i);
            let key = self.pending.key_at(i);
            let found = entry.dissemination.next_due();
            proof {
                assert(key@ == order[i as int]);
                let delivery = entry@.dissemination;
                assert forall|v: ReplicaId| #[trigger] self@.scheduled(order[i as int], v) implies found is Some && found->0@ <= self@.due_at(order[i as int], v) by {
                    assert(delivery.owed.contains_key(v));
                }
                if found is Some {
                    let v = choose|v: ReplicaId| #[trigger]
                        delivery.owed.contains_key(v) && delivery.owed[v] is Missed
                            && delivery.owed[v]->next == found->0@;
                    assert(self@.scheduled(key@, v));
                }
            }
            if let Some(next) = found {
                let earlier = match best {
                    None => true,
                    Some(m) => !next.reached(m),
                };
                if earlier {
                    best = Some(next);
                }
            }
            i = i + 1;
        }
        proof {
            assert forall|c: CommandId, v: ReplicaId| #[trigger] self@.scheduled(c, v) implies best is Some && best->0@ <= self@.due_at(c, v) by {
                assert(order.contains(c));
                let j = choose|j: int| 0 <= j < order.len() && order[j] == c;
                assert(self@.scheduled(order[j], v));
            }
        }
        best
    }

    /// Commands that still owe a destination an enqueue (diagnostic).
    pub fn undelivered(&self) -> (r: usize)
        ensures
            r == self@.pending.dom().filter(
                |c: CommandId| self@.pending[c].dissemination.outstanding(),
            ).len(),
    {
        let size: usize = self.pending.len();
        let ghost order = in_order::<CommandId>(self.pending@.dom());
        let ghost owing = |c: CommandId| self@.pending[c].dissemination.outstanding();
        let mut count: usize = 0;
        let mut i: usize = 0;
        proof {
            lemma_in_order::<CommandId>(self.pending@.dom());
            assert(order.take(0).to_set() =~= Set::<CommandId>::empty());
            assert(order.take(0).to_set().filter(owing) =~= Set::<CommandId>::empty());
        }
        while i < size
            invariant
                i <= size == self.pending@.dom().len(),
                count <= i,
                self@.pending == self.pending@,
                order == in_order::<CommandId>(self.pending@.dom()),
                order.len() == size,
                order.no_duplicates(),
                owing == (|c: CommandId| self@.pending[c].dissemination.outstanding()),
                order.take(i as int).to_set().filter(owing).finite(),
                count == order.take(i as int).to_set().filter(owing).len(),
            decreases size - i,
        {
            proof {
                lemma_take_set(order, i as int);
                let seen = order.take(i as int).to_set();
                let c = order[i as int];
                if seen.contains(c) {
                    let j = choose|j: int| 0 <= j < i && order.take(i as int)[j] == c;
                    assert(order[j] == order[i as int]);
                }
                if owing(c) {
                    assert(seen.insert(c).filter(owing) =~= seen.filter(owing).insert(c));
                } else {
                    assert(seen.insert(c).filter(owing) =~= seen.filter(owing));
                }
            }
            if self.pending.value_at(i).dissemination.outstanding() {
                count = count + 1;
            }
            i = i + 1;
        }
        proof {
            assert(order.take(size as int) =~= order);
            assert(order.to_set() =~= self.pending@.dom());
        }
        count
    }
}

/// `found` holds, in order, the members of `wanted` among `seen`.
spec fn picked(found: Seq<CommandId>, seen: Seq<CommandId>, wanted: Set<CommandId>) -> bool {
    &&& ascending::<CommandId>(found)
    &&& forall|c: CommandId|
        #![trigger found.contains(c)]
        found.contains(c) <==> seen.contains(c) && wanted.contains(c)
}

proof fn lemma_picked_step(
    found: Seq<CommandId>,
    order: Seq<CommandId>,
    i: int,
    wanted: Set<CommandId>,
)
    requires
        0 <= i < order.len(),
        ascending::<CommandId>(order),
        picked(found, order.take(i), wanted),
    ensures
        wanted.contains(order[i]) ==> picked(found.push(order[i]), order.take(i + 1), wanted),
        !wanted.contains(order[i]) ==> picked(found, order.take(i + 1), wanted),
{
    let k = order[i];
    let seen = order.take(i);
    let more = order.take(i + 1);
    let next = found.push(k);
    assert forall|c: CommandId| #![trigger more.contains(c)] more.contains(c) <==> seen.contains(c) || c == k by {
        if seen.contains(c) {
            let j = choose|j: int| 0 <= j < seen.len() && seen[j] == c;
            assert(more[j] == c);
        }
        assert(more[i] == k);
        if more.contains(c) && c != k {
            let j = choose|j: int| 0 <= j < more.len() && more[j] == c;
            assert(seen[j] == c);
        }
    }
    assert forall|j: int| 0 <= j < found.len() implies CommandId::before(#[trigger] found[j], k) by {
        assert(found.contains(found[j]));
        let m = choose|m: int| 0 <= m < seen.len() && seen[m] == found[j];
        assert(order[m] == found[j]);
    }
    assert forall|c: CommandId| #![trigger next.contains(c)] next.contains(c) <==> found.contains(c) || c == k by {
        if found.contains(c) {
            let j = choose|j: int| 0 <= j < found.len() && found[j] == c;
            assert(next[j] == c);
        }
        assert(next[found.len() as int] == k);
        if next.contains(c) && c != k {
            let j = choose|j: int| 0 <= j < next.len() && next[j] == c;
            assert(found[j] == c);
        }
    }
}

proof fn lemma_picked_all(
    found: Seq<CommandId>,
    order: Seq<CommandId>,
    all: Set<CommandId>,
    wanted: Set<CommandId>,
)
    requires
        all.finite(),
        order == in_order::<CommandId>(all),
        wanted.subset_of(all),
        picked(found, order, wanted),
    ensures
        found == in_order::<CommandId>(wanted),
{
    lemma_in_order::<CommandId>(all);
    assert forall|c: CommandId| #[trigger] found.contains(c) <==> wanted.contains(c) by {
        if wanted.contains(c) {
            assert(order.contains(c));
        }
    }
    lemma_is_in_order::<CommandId>(found, wanted);
}

/// `from` with the entries of `done` as they are in `to`.
spec fn swept(
    from: Map<CommandId, EntryView>,
    to: Map<CommandId, EntryView>,
    done: Seq<CommandId>,
) -> Map<CommandId, EntryView> {
    Map::new(
        |c: CommandId| from.contains_key(c),
        |c: CommandId|
            if done.contains(c) {
                to[c]
            } else {
                from[c]
            },
    )
}

proof fn lemma_swept_step(
    from: Map<CommandId, EntryView>,
    to: Map<CommandId, EntryView>,
    order: Seq<CommandId>,
    i: int,
)
    requires
        0 <= i < order.len(),
        from.contains_key(order[i]),
    ensures
        swept(from, to, order.take(i + 1)) == swept(from, to, order.take(i)).insert(
            order[i],
            to[order[i]],
        ),
{
    let seen = order.take(i);
    let more = order.take(i + 1);
    assert forall|c: CommandId| #![trigger more.contains(c)] more.contains(c) <==> seen.contains(c) || c == order[i] by {
        if seen.contains(c) {
            let j = choose|j: int| 0 <= j < seen.len() && seen[j] == c;
            assert(more[j] == c);
        }
        assert(more[i] == order[i]);
        if more.contains(c) && c != order[i] {
            let j = choose|j: int| 0 <= j < more.len() && more[j] == c;
            assert(seen[j] == c);
        }
    }
    assert(swept(from, to, more) =~= swept(from, to, seen).insert(order[i], to[order[i]]));
}

/// Reported deadlines as the trace shows them.
pub open spec fn timeouts(commands: Seq<CommandId>) -> Seq<EventView> {
    Seq::new(
        commands.len(),
        |i: int| EventView::TimedOut { command: hex_of(commands[i].bytes()) },
    )
}

impl Collector {
    fn is_resolved(&self, command: &CommandId) -> (r: bool)
        ensures
            r == self@.is_resolved(*command),
    {
        let size: usize = self.resolved.len();
        let ghost order = in_order::<RetryKey>(self.resolved@.dom());
        let mut i: usize = 0;
        proof {
            lemma_in_order::<RetryKey>(self.resolved@.dom());
        }
        while i < size
            invariant
                i <= size == self.resolved@.dom().len(),
                order == in_order::<RetryKey>(self.resolved@.dom()),
                forall|j: int| 0 <= j < i ==> self.resolved@[#[trigger] order[j]].0 != *command,
            decreases size - i,
        {
            let retained = self.resolved.value_at(i);
            if retained.0 == *command {
                let key = self.resolved.key_at(i);
                proof {
                    assert(self@.resolved.contains_key(key@));
                }
                return true;
            }
            i = i + 1;
        }
        proof {
            assert forall|k: RetryKey| #[trigger] self@.resolved.contains_key(k) implies self@.resolved[k].0 != *command by {
                assert(order.contains(k));
                let j = choose|j: int| 0 <= j < order.len() && order[j] == k;
                assert(self.resolved@[order[j]].0 != *command);
            }
        }
        false
    }

    /// Count protocol evidence from a bound voter identity.
    pub fn on_evidence<H: Fn(HashDomain, Vec<Vec<u8>>) -> Digest32>(
        &mut self,
        hash: &H,
        from: PeerProvenance,
        message: ProtocolMessage,
    ) -> (r: Result<Progress, EvidenceError>)
        requires
            is_hash(*hash),
        ensures
            (final(self)@, progress_result(r)) == old(self)@.evidenced(*hash, from, message@),
    {
        let sender = from.from;
        match message {
            ProtocolMessage::LeaderReply { ballot, command, seqnum, deps, path } => {
                let admission = match self.pending.get(&command) {
                    Some(p) => p.admission,
                    None => admission_digest(hash, None, 0),
                };
                let ack = FastAck {
                    replica: sender,
                    ballot,
                    command,
                    deps,
                    paths: PathAnchors::new(),
                    path,
                    admission,
                    seqnum: Some(seqnum),
                };
                proof {
                    assert(ack@.paths =~= Seq::empty());
                }
                self.count(sender, "leader-reply", Vote::Fast(ack))
            },
            ProtocolMessage::FastAck(ack) => self.count(sender, "fast-ack", Vote::Fast(ack)),
            ProtocolMessage::SlowAck(ack) => self.count(sender, "slow-ack", Vote::Slow(ack)),
            _ => Err(EvidenceError::NotEvidence),
        }
    }

    /// Present a vote from a bound voter identity.
    fn count(&mut self, sender: ReplicaId, kind: &str, vote: Vote) -> (r: Result<
        Progress,
        EvidenceError,
    >)
        ensures
            (final(self)@, progress_result(r)) == old(self)@.counted(sender, kind@, vote@),
    {
        let ghost start = self@;
        let ghost ballot = vote@;
        let command = vote.command();
        let claimed = vote.replica();
        let admission = vote.admission();
        let mut present = false;
        let refusal: Option<EvidenceError> = if claimed != sender {
            Some(EvidenceError::SenderMismatch { sender, claimed })
        } else if let Some(mut entry) = self.pending.remove(&command) {
            // What was not acknowledged under the submitted facts takes no
            // slot: the voter may still acknowledge this request.
            let refused = match entry.votes.check(&vote) {
                Err(e) => Some(EvidenceError::Vote(e)),
                Ok(()) => if entry.admission == admission {
                    None
                } else {
                    Some(EvidenceError::AdmissionMismatch)
                },
            };
            if refused.is_none() {
                let _ = entry.votes.add(vote);
            }
            let ghost after = entry@;
            self.pending.insert(command, entry);
            present = true;
            proof {
                let was = start.pending[command];
                if refused is None {
                    assert(after =~= (EntryView { votes: was.votes.presented(ballot), ..was }));
                    assert(self@.pending =~= start.pending.insert(command, after));
                    assert(self@ =~= start.with_vote(ballot));
                } else {
                    assert(after =~= was);
                    assert(self@.pending =~= start.pending);
                    assert(self@ =~= start);
                }
            }
            refused
        } else {
            proof {
                assert(self@ =~= start);
            }
            if self.is_resolved(&command) {
                None
            } else {
                Some(EvidenceError::UnknownCommand)
            }
        };
        proof {
            assert(refusal == start.vote_refusal(sender, ballot));
        }
        self.note(evidence(&command, &sender, kind, refusal));
        match refusal {
            Some(e) => Err(e),
            None => {
                if present {
                    Ok(self.try_release(command))
                } else {
                    Ok(Progress::Settled)
                }
            },
        }
    }

    /// Take the leader's release-gate result.
    pub fn on_release(&mut self, from: PeerProvenance, released: ReleasedResult) -> (r: Result<
        Progress,
        EvidenceError,
    >)
        ensures
            (final(self)@, progress_result(r)) == old(self)@.release_taken(from, released@),
    {
        let sender = from.from;
        let command = released.evidence.command;
        let checked = self.check_release(sender, released);
        match checked {
            Ok(settled) => {
                self.note(evidence(&command, &sender, "release", None));
                if settled {
                    return Ok(Progress::Settled);
                }
                Ok(self.try_release(command))
            },
            Err(e) => {
                self.note(evidence(&command, &sender, "release", Some(e)));
                Err(e)
            },
        }
    }

    /// `Ok(true)` when the command was already released.
    fn check_release(&mut self, sender: ReplicaId, released: ReleasedResult) -> (r: Result<
        bool,
        EvidenceError,
    >)
        ensures
            match old(self)@.release_refusal(sender, released@) {
                Some(e) => r == Err::<bool, EvidenceError>(e) && final(self)@ == old(self)@,
                None => if old(self)@.pending.contains_key(released@.evidence.command) {
                    r == Ok::<bool, EvidenceError>(false) && final(self)@ == old(
                        self,
                    )@.with_release(released@)
                } else {
                    r == Ok::<bool, EvidenceError>(true) && final(self)@ == old(self)@
                },
            },
    {
        let ghost start = self@;
        let ghost result = released@;
        if sender != self.config.quorum.leader() {
            return Err(EvidenceError::NotLeader { sender });
        }
        if released.evidence.epoch != self.config.quorum.epoch() {
            return Err(EvidenceError::WrongEpoch);
        }
        if released.evidence.ballot != self.config.quorum.ballot() {
            return Err(EvidenceError::WrongBallot);
        }
        let command = released.evidence.command;
        let mut entry = match self.pending.remove(&command) {
            Some(e) => e,
            None => {
                proof {
                    assert(self@ =~= start);
                }
                if self.is_resolved(&command) {
                    return Ok(true);
                } else {
                    return Err(EvidenceError::UnknownCommand);
                }
            },
        };
        // A final release may follow a speculative one; anything else that
        // differs is a mismatch.
        let differs = match &entry.released {
            Some(previous) => previous.evidence.result_digest != released.evidence.result_digest
                || previous.evidence.position != released.evidence.position || !same_revision(
                previous.evidence.revision,
                released.evidence.revision,
            ) || !same_bytes(
                previous.response.as_slice(),
                released.response.as_slice(),
            ),
            None => false,
        };
        if differs {
            self.pending.insert(command, entry);
            proof {
                assert(self@.pending =~= start.pending);
                assert(self@ =~= start);
            }
            return Err(EvidenceError::ReleaseMismatch);
        }
        entry.released = Some(released);
        let ghost after = entry@;
        self.pending.insert(command, entry);
        proof {
            let was = start.pending[command];
            assert(after =~= (EntryView { released: Some(result), ..was }));
            assert(self@.pending =~= start.pending.insert(command, after));
            assert(self@ =~= start.with_release(result));
        }
        Ok(false)
    }

    /// The release rule: both the collector's learning predicate and the
    /// leader's release must hold.
    fn try_release(&mut self, command: CommandId) -> (r: Progress)
        ensures
            (final(self)@, r@) == old(self)@.released(command),
    {
        let (learned, released) = match self.pending.get(&command) {
            Some(entry) => (
                entry.votes.learned(),
                match &entry.released {
                    Some(r) => Some(
                        (r.evidence.revision, copy_bytes(r.response.as_slice()), r.speculative),
                    ),
                    None => None,
                },
            ),
            None => {
                return Progress::Settled;
            },
        };
        let fast = match learned {
            Some(l) => l.is_fast(),
            None => {
                self.note(
                    CollectorEvent::Held {
                        command: command_hex(&command),
                        reason: "awaiting-votes".to_owned(),
                    },
                );
                return Progress::Held(HoldReason::AwaitingVotes);
            },
        };
        let (revision, result, speculative) = match released {
            Some(r) => r,
            None => {
                self.note(
                    CollectorEvent::Held {
                        command: command_hex(&command),
                        reason: "awaiting-release".to_owned(),
                    },
                );
                return Progress::Held(HoldReason::AwaitingRelease);
            },
        };
        // Settled, so the dissemination obligation ends here. A command may
        // legitimately be established by the quorum it needed before a
        // saturated voter ever took its submission; what that minority
        // missed is recorded rather than left to pass.
        match self.retire(command) {
            Some(entry) => {
                let response = self.answer_of(command, revision, &result);
                self.finish(command, entry, response, speculative, fast)
            },
            None => Progress::Settled,
        }
    }

    /// Take a command that settles out: its bytes go back, and the voters
    /// that never took the submission are recorded.
    fn retire(&mut self, command: CommandId) -> (r: Option<Pending>)
        ensures
            r is Some <==> old(self)@.pending.contains_key(command),
            r is Some ==> r->0@ == old(self)@.pending[command] && final(self)@ == old(
                self,
            )@.retired(command),
            r is None ==> final(self)@ == old(self)@,
    {
        let ghost start = self@;
        match self.pending.remove(&command) {
            Some(entry) => {
                self.undelivered_bytes = drain(
                    self.undelivered_bytes,
                    entry.dissemination.reserved(),
                );
                let missed = entry.dissemination.missing();
                if missed.len() > 0 {
                    self.note(
                        CollectorEvent::Undisseminated {
                            command: command_hex(&command),
                            missed: replica_hexes(&missed),
                        },
                    );
                }
                proof {
                    assert(self@ =~= start.retired(command));
                }
                Some(entry)
            },
            None => {
                proof {
                    assert(self@ =~= start);
                }
                None
            },
        }
    }

    /// The response a caller is handed for a result, bounded by what can be
    /// delivered.
    fn answer_of(&self, command: CommandId, revision: Option<KvRevision>, result: &Vec<u8>) -> (r:
        ResponseV1)
        ensures
            r@ == answer(self@.config.limits, command, revision, result@),
    {
        let limits = &self.config.limits;
        if result.len() <= usable_bytes(limits.api_frame) && result.len() <= limits.result {
            ResponseV1 {
                command_id: command,
                outcome: OutcomeV1::Established { revision, result: copy_bytes(result.as_slice()) },
            }
        } else {
            error_response(limits, command, ErrorCode::ResultTooLarge, "result bound")
        }
    }

    /// Retire a pending entry with its answer: retain the outcome for
    /// resolution, record the release, hand back what the caller gets.
    fn finish(
        &mut self,
        command: CommandId,
        entry: Pending,
        response: ResponseV1,
        speculative: bool,
        fast: bool,
    ) -> (r: Progress)
        ensures
            (final(self)@, r@) == old(self)@.finished(
                command,
                entry@,
                response@,
                speculative,
                fast,
            ),
    {
        let voted = entry.votes.voted().to_vec();
        proof {
            assert(views(voted@) =~= voted@);
        }
        let revision: Option<u64> = match &response.outcome {
            OutcomeV1::Established { revision: Some(r), .. } => Some(r.0),
            _ => None,
        };
        self.retain(entry.retry_key, command, response.dup());
        self.note(
            CollectorEvent::Released {
                command: command_hex(&command),
                speculative,
                fast,
                voters: replica_hexes(&voted),
                revision,
                delivered: entry.attached,
            },
        );
        Progress::Released(
            Release {
                retry_key: entry.retry_key,
                command,
                session: entry.session,
                response,
                speculative,
                fast,
                attached: entry.attached,
            },
        )
    }

    fn retain(&mut self, key: RetryKey, command: CommandId, response: ResponseV1)
        ensures
            final(self)@ == old(self)@.retained(key, command, response@),
    {
        let ghost start = self@;
        self.resolved.insert(key, (command, response));
        self.resolved_order.push(key);
        let ghost goal = start.retained(key, command, response@);
        proof {
            assert(self@ =~= (CollectorView {
                resolved: start.resolved.insert(key, (command, response@)),
                resolved_order: start.resolved_order.push(key),
                ..start
            }));
        }
        while self.resolved_order.len() > self.config.max_resolved
            invariant
                self@.windowed() == goal,
            decreases self.resolved_order@.len(),
        {
            let ghost before = self@;
            let oldest = self.resolved_order.remove(0);
            self.resolved.remove(&oldest);
            self.bindings.remove(&oldest);
            proof {
                assert(self@.resolved_order =~= before.resolved_order.drop_first());
                assert(self@ =~= (CollectorView {
                    resolved: before.resolved.remove(oldest),
                    bindings: before.bindings.remove(oldest),
                    resolved_order: before.resolved_order.drop_first(),
                    ..before
                }));
            }
        }
    }

    /// Pending commands that hold half of what a release needs: the learning
    /// predicate without the leader's release, or the release without the
    /// predicate.
    ///
    /// A fresh command has neither and a releasable one has both. These are
    /// the ones something arrived for and something else did not, which is
    /// the shape a lost frontend delivery leaves behind, and the only shape
    /// the durable record is consulted for.
    pub fn half_established(&self) -> (r: Vec<(CommandId, RetryKey)>)
        ensures
            r@ == Seq::new(
                self@.halves().len(),
                |i: int| (self@.halves()[i], self@.pending[self@.halves()[i]].retry_key),
            ),
    {
        let commands = self.pending.keys();
        let mut out: Vec<(CommandId, RetryKey)> = Vec::new();
        let ghost mut found: Seq<CommandId> = Seq::empty();
        let ghost wanted = self@.pending.dom().filter(|c: CommandId| self@.pending[c].half());
        let mut i: usize = 0;
        proof {
            assert(views(commands@) =~= commands@);
            lemma_in_order::<CommandId>(self.pending@.dom());
        }
        while i < commands.len()
            invariant
                i <= commands@.len(),
                self@.pending == self.pending@,
                commands@ == in_order::<CommandId>(self.pending@.dom()),
                commands@.len() == self.pending@.dom().len(),
                forall|j: int| 0 <= j < commands@.len() ==> self.pending@.contains_key(#[trigger] commands@[j]),
                ascending::<CommandId>(commands@),
                wanted == self@.pending.dom().filter(|c: CommandId| self@.pending[c].half()),
                picked(found, commands@.take(i as int), wanted),
                out@ == Seq::new(
                    found.len(),
                    |j: int| (found[j], self@.pending[found[j]].retry_key),
                ),
            decreases commands@.len() - i,
        {
            let entry = self.pending.value_at(i);
            let learned = entry.votes.learned().is_some();
            let half = learned != entry.released.is_some();
            proof {
                assert(half == wanted.contains(commands@[i as int]));
                lemma_picked_step(found, commands@, i as int, wanted);
            }
            if half {
                out.push((commands[i], entry.retry_key));
                proof {
                    found = found.push(commands@[i as int]);
                    assert(out@ =~= Seq::new(
                        found.len(),
                        |j: int| (found[j], self@.pending[found[j]].retry_key),
                    ));
                }
            }
            i = i + 1;
        }
        proof {
            assert(commands@.take(commands@.len() as int) =~= commands@);
            lemma_picked_all(found, commands@, self@.pending.dom(), wanted);
        }
        out
    }

    /// Settle `command` from the durable record its execution left behind on
    /// this node.
    ///
    /// The record is not evidence and is not a release. It is trusted here
    /// only to complete what the collector already half holds: when the
    /// release is held, the record must agree with it on the digest and the
    /// bytes; when the learning predicate holds, the record supplies the
    /// response the missing release would have carried. With neither, the
    /// record is not used, deliberately.
    ///
    /// Never counted as a vote, and never `speculative`.
    pub fn settle_from_record(
        &mut self,
        command: CommandId,
        result_digest: Digest32,
        revision: Option<KvRevision>,
        response: &Vec<u8>,
    ) -> (r: Result<Progress, SettleError>)
        ensures
            (final(self)@, progress_result(r)) == old(self)@.settled_from_record(
                command,
                result_digest,
                revision,
                response@,
            ),
    {
        let (learned, confirmed) = match self.pending.get(&command) {
            Some(entry) => (
                entry.votes.learned(),
                match &entry.released {
                    Some(released) => Some(
                        released.evidence.result_digest == result_digest && same_bytes(
                            released.response.as_slice(),
                            response.as_slice(),
                        ),
                    ),
                    None => None,
                },
            ),
            None => {
                if self.is_resolved(&command) {
                    return Ok(Progress::Settled);
                } else {
                    return Err(SettleError::NotPending);
                }
            },
        };
        let fast = match &learned {
            Some(l) => l.is_fast(),
            None => false,
        };
        let corroborated = match confirmed {
            Some(false) => {
                return Err(SettleError::Mismatch);
            },
            Some(true) => "release",
            None => {
                if learned.is_none() {
                    return Err(SettleError::Uncorroborated);
                }
                "votes"
            },
        };
        match self.retire(command) {
            Some(entry) => {
                self.note(
                    CollectorEvent::SettledFromRecord {
                        command: command_hex(&command),
                        corroborated: corroborated.to_owned(),
                    },
                );
                let answer = self.answer_of(command, revision, response);
                Ok(self.finish(command, entry, answer, false, fast))
            },
            None => Ok(Progress::Settled),
        }
    }

    /// The caller of `retry_key` went away. The command keeps collecting;
    /// returns it when it was pending.
    pub fn cancel(&mut self, retry_key: &RetryKey) -> (r: Option<CommandId>)
        ensures
            (final(self)@, r) == old(self)@.cancelled(*retry_key),
    {
        let ghost start = self@;
        let command: CommandId = match self.bindings.get(retry_key) {
            Some(c) => *c,
            None => {
                return None;
            },
        };
        let mut entry = match self.pending.remove(&command) {
            Some(e) => e,
            None => {
                proof {
                    assert(self@ =~= start);
                }
                return None;
            },
        };
        entry.attached = false;
        let ghost after = entry@;
        self.pending.insert(command, entry);
        proof {
            let was = start.pending[command];
            assert(after =~= (EntryView { attached: false, ..was }));
            assert(self@ =~= (CollectorView {
                pending: start.pending.insert(command, after),
                ..start
            }));
        }
        self.note(CollectorEvent::Cancelled { command: command_hex(&command) });
        Some(command)
    }

    /// Resolve an identity.
    pub fn resolve(&mut self, request: &ResolveRequestV1) -> (r: Resolution)
        ensures
            final(self)@ == old(self)@.resolved_query(*request),
            r@ == old(self)@.resolution(*request),
    {
        let sequence: u64 = request.retry_key.request_sequence.0;
        let resolution = match self.bindings.get(&request.retry_key) {
            None => Resolution::Unknown,
            Some(bound) => {
                if *bound != request.command_id {
                    Resolution::Conflict { bound: *bound }
                } else {
                    match self.resolved.get(&request.retry_key) {
                        Some(retained) => Resolution::Outcome(retained.1.dup()),
                        None => {
                            if self.pending.contains_key(bound) {
                                Resolution::Pending
                            } else {
                                Resolution::Unknown
                            }
                        },
                    }
                }
            },
        };
        let result = match &resolution {
            Resolution::Outcome(_) => "outcome",
            Resolution::Pending => "pending",
            Resolution::Conflict { .. } => "conflict",
            Resolution::Unknown => "unknown",
        };
        self.note(CollectorEvent::Resolved { sequence, result: result.to_owned() });
        resolution
    }

    /// Commands whose client deadline passed at `now`; each is reported once
    /// and stays pending for resolution.
    #[verifier::rlimit(40)]
    pub fn expire(&mut self, now: MonotonicMillis) -> (r: Vec<Expired>)
        ensures
            final(self)@ == old(self)@.expired(now@),
            r@ == Seq::new(
                old(self)@.overdue(now@).len(),
                |i: int|
                    {
                        let c = old(self)@.overdue(now@)[i];
                        Expired {
                            retry_key: old(self)@.pending[c].retry_key,
                            command: c,
                            session: old(self)@.pending[c].session,
                        }
                    },
            ),
    {
        let ghost start = self@;
        let commands = self.pending.keys();
        let mut out: Vec<Expired> = Vec::new();
        let ghost mut found: Seq<CommandId> = Seq::empty();
        let ghost wanted = start.pending.dom().filter(|c: CommandId| start.pending[c].overdue(now@));
        let ghost goal = start.expired(now@);
        let mut i: usize = 0;
        proof {
            assert(views(commands@) =~= commands@);
            lemma_in_order::<CommandId>(start.pending.dom());
            assert(swept(start.pending, goal.pending, commands@.take(0)) =~= start.pending);
            assert(self@ =~= (CollectorView {
                pending: swept(start.pending, goal.pending, commands@.take(0)),
                trace: start.trace + timeouts(found),
                ..start
            }));
        }
        while i < commands.len()
            invariant
                i <= commands@.len(),
                commands@ == in_order::<CommandId>(start.pending.dom()),
                commands@.len() == start.pending.dom().len(),
                ascending::<CommandId>(commands@),
                commands@.no_duplicates(),
                forall|j: int| 0 <= j < commands@.len() ==> start.pending.contains_key(#[trigger] commands@[j]),
                goal == start.expired(now@),
                wanted == start.pending.dom().filter(
                    |c: CommandId| start.pending[c].overdue(now@),
                ),
                picked(found, commands@.take(i as int), wanted),
                self@ == (CollectorView {
                    pending: swept(start.pending, goal.pending, commands@.take(i as int)),
                    trace: start.trace + timeouts(found),
                    ..start
                }),
                out@ == Seq::new(
                    found.len(),
                    |j: int|
                        Expired {
                            retry_key: start.pending[found[j]].retry_key,
                            command: found[j],
                            session: start.pending[found[j]].session,
                        },
                ),
            decreases commands@.len() - i,
        {
            let command = commands[i];
            let ghost before = self@;
            let ghost seen = commands@.take(i as int);
            proof {
                assert(!seen.contains(command)) by {
                    if seen.contains(command) {
                        let j = choose|j: int| 0 <= j < seen.len() && seen[j] == command;
                        assert(commands@[j] == commands@[i as int]);
                    }
                }
                lemma_swept_step(start.pending, goal.pending, commands@, i as int);
                lemma_picked_step(found, commands@, i as int, wanted);
            }
            if let Some(mut entry) = self.pending.remove(&command) {
                let overdue = !entry.timed_out && match entry.deadline {
                    Some(d) => now.reached(d),
                    None => false,
                };
                let retry_key = entry.retry_key;
                let session = entry.session;
                if overdue {
                    entry.timed_out = true;
                }
                let ghost after = entry@;
                self.pending.insert(command, entry);
                proof {
                    let was = start.pending[command];
                    assert(overdue == was.overdue(now@));
                    assert(after =~= goal.pending[command]);
                    assert(self@.pending =~= swept(
                        start.pending,
                        goal.pending,
                        commands@.take(i + 1),
                    ));
                    assert(self@ =~= (CollectorView { pending: self@.pending, ..before }));
                }
                if overdue {
                    out.push(Expired { retry_key, command, session });
                    self.note(CollectorEvent::TimedOut { command: command_hex(&command) });
                    proof {
                        assert(timeouts(found.push(command)) =~= timeouts(found).push(
                            EventView::TimedOut { command: hex_of(command.bytes()) },
                        ));
                        assert(start.trace + timeouts(found.push(command)) =~= (start.trace
                            + timeouts(found)).push(
                            EventView::TimedOut { command: hex_of(command.bytes()) },
                        ));
                        found = found.push(command);
                        assert(out@ =~= Seq::new(
                            found.len(),
                            |j: int|
                                Expired {
                                    retry_key: start.pending[found[j]].retry_key,
                                    command: found[j],
                                    session: start.pending[found[j]].session,
                                },
                        ));
                    }
                }
            }
            i = i + 1;
        }
        proof {
            assert(commands@.take(commands@.len() as int) =~= commands@);
            lemma_picked_all(found, commands@, start.pending.dom(), wanted);
            assert(swept(start.pending, goal.pending, commands@) =~= goal.pending);
            assert(self@.trace =~= goal.trace);
            assert(self@ =~= goal);
        }
        out
    }

    /// The ballot changed (recovery): evidence and releases of the old
    /// ballot are void; pending commands collect afresh under the new
    /// configuration.
    #[verifier::rlimit(40)]
    pub fn reconfigure(&mut self, quorum: BallotConfiguration)
        ensures
            final(self)@ == old(self)@.reconfigured(quorum@),
    {
        let ghost start = self@;
        let commands = self.pending.keys();
        let reset: usize = self.pending.len();
        let ghost goal = start.reconfigured(quorum@);
        let mut i: usize = 0;
        proof {
            assert(views(commands@) =~= commands@);
            lemma_in_order::<CommandId>(start.pending.dom());
            assert(commands@.take(0) =~= Seq::<CommandId>::empty());
            assert(swept(start.pending, goal.pending, commands@.take(0)) =~= start.pending);
            assert(self@ =~= (CollectorView {
                pending: swept(start.pending, goal.pending, commands@.take(0)),
                undelivered_bytes: start.left_after(quorum@, commands@.take(0)),
                ..start
            }));
        }
        while i < commands.len()
            invariant
                i <= commands@.len(),
                commands@ == in_order::<CommandId>(start.pending.dom()),
                commands@.no_duplicates(),
                forall|j: int| 0 <= j < commands@.len() ==> start.pending.contains_key(#[trigger] commands@[j]),
                goal == start.reconfigured(quorum@),
                self@ == (CollectorView {
                    pending: swept(start.pending, goal.pending, commands@.take(i as int)),
                    undelivered_bytes: start.left_after(quorum@, commands@.take(i as int)),
                    ..start
                }),
            decreases commands@.len() - i,
        {
            let command = commands[i];
            let ghost seen = commands@.take(i as int);
            proof {
                assert(!seen.contains(command)) by {
                    if seen.contains(command) {
                        let j = choose|j: int| 0 <= j < seen.len() && seen[j] == command;
                        assert(commands@[j] == commands@[i as int]);
                    }
                }
                lemma_swept_step(start.pending, goal.pending, commands@, i as int);
                assert(commands@.take(i + 1).drop_last() =~= seen);
            }
            if let Some(mut entry) = self.pending.remove(&command) {
                entry.votes = VoteSet::new(quorum.dup(), command);
                entry.released = None;
                entry.dissemination.revisit(quorum.voters());
                // A command that owes nothing again gives its bytes back,
                // and one that owes something after the reconciliation keeps
                // holding them.
                let given_back: usize = entry.dissemination.release();
                self.undelivered_bytes = drain(self.undelivered_bytes, given_back);
                let ghost after = entry@;
                self.pending.insert(command, entry);
                proof {
                    let was = start.pending[command];
                    assert(given_back == was.freed(quorum@));
                    assert(after =~= was.reset(quorum@, command));
                    assert(self@.pending =~= swept(
                        start.pending,
                        goal.pending,
                        commands@.take(i + 1),
                    ));
                }
            }
            i = i + 1;
            proof {
                assert(self@ =~= (CollectorView {
                    pending: swept(start.pending, goal.pending, commands@.take(i as int)),
                    undelivered_bytes: start.left_after(quorum@, commands@.take(i as int)),
                    ..start
                }));
            }
        }
        proof {
            assert(commands@.take(commands@.len() as int) =~= commands@);
            assert(swept(start.pending, goal.pending, commands@) =~= goal.pending);
        }
        let ballot: u64 = quorum.ballot().number;
        self.note(CollectorEvent::Reconfigured { ballot, reset });
        self.config.quorum = quorum;
        proof {
            assert(self@ =~= goal);
        }
    }
}

} // verus!
