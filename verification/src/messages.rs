//! Messages between the replicas of a domain.
//!
//! Encoded for the logical outbox; the transport wraps them in its own
//! frames. Never a durable format.

use vstd::prelude::*;

use crate::codec::{DecodeError, List, Wire, exactly, from_wire, lemma_wire_round_trip, to_wire};
use crate::handoff::Transition;
use crate::ids::{Ballot, CommandId, Digest32, ReplicaId};
use crate::lists::{copy_list, lemma_id_views};
use crate::ordered::Dup;
use crate::recovery::{SyncDecision, SyncView};
use crate::rows::{PayloadRecordV1, PayloadView};
use crate::summary::{PageView, ReportPage};
use crate::vote::{FastAck, FastAckView, SlowAck};

verus! {

/// How many payloads one ask names and one answer carries: the ask repeats
/// and the answer travels on a shared, bounded lane.
pub const MAX_PAYLOAD_TRANSFER: usize = 64;

/// A peer message.
#[allow(inconsistent_fields)]
#[derive(Debug)]
pub enum ProtocolMessage {
    /// A candidate asks for promises under `ballot`.
    NewLeader {
        /// Ballot.
        ballot: Ballot,
    },
    /// A voter's promise: it will vote in no ballot below `ballot`, and its
    /// state is that of `synced`.
    Promise {
        /// Ballot.
        ballot: Ballot,
        /// Highest synchronized ballot.
        synced: Ballot,
        /// Sender.
        replica: ReplicaId,
    },
    /// The leader's proposal for a command, carrying its sequence number and
    /// the per-key path anchors a follower records.
    Proposal(FastAck),
    /// A follower's fast acknowledgement.
    FastAck(FastAck),
    /// A follower's adoption acknowledgement.
    SlowAck(SlowAck),
    /// The leader's reply to the frontend used for learning: the proposal's
    /// evidence, never a result.
    LeaderReply {
        /// Ballot.
        ballot: Ballot,
        /// Command.
        command: CommandId,
        /// Leader sequence number.
        seqnum: u64,
        /// Dependencies the leader ordered.
        deps: Vec<CommandId>,
        /// Dependency-path evidence.
        path: Digest32,
    },
    /// One page of a recovery report.
    ReportPage(ReportPage),
    /// A request for the durable payloads of commands a replica lacks.
    PayloadRequest {
        /// Commands.
        commands: Vec<CommandId>,
    },
    /// A durable payload; the receiver rehashes it against the identity.
    PayloadResponse {
        /// Command.
        command: CommandId,
        /// Payload.
        payload: PayloadRecordV1,
    },
    /// The new leader's selected recovery result, durably bound before it is
    /// sent.
    Sync(SyncDecision),
    /// A coordinator asks the old voters to seal for a transition.
    SealRequest {
        /// The transition.
        transition: Transition,
    },
    /// A voter's seal: ordinary voting is over here for every ballot of the
    /// old configuration. Published only once the seal row and every batch
    /// submitted before the cut are durable, so what it reports is complete.
    Sealed {
        /// The transition.
        transition: Transition,
        /// The ballot promised when the seal was written: evidence, never an
        /// authorization.
        at: Ballot,
        /// Sender.
        replica: ReplicaId,
    },
}

/// What a message says.
#[allow(inconsistent_fields)]
#[verifier::ext_equal]
pub enum MessageView {
    /// A candidate asks for promises under `ballot`.
    NewLeader {
        /// Ballot.
        ballot: Ballot,
    },
    /// A voter's promise: it will vote in no ballot below `ballot`, and its
    /// state is that of `synced`.
    Promise {
        /// Ballot.
        ballot: Ballot,
        /// Highest synchronized ballot.
        synced: Ballot,
        /// Sender.
        replica: ReplicaId,
    },
    /// The leader's proposal for a command, carrying its sequence number and
    /// the per-key path anchors a follower records.
    Proposal(FastAckView),
    /// A follower's fast acknowledgement.
    FastAck(FastAckView),
    /// A follower's adoption acknowledgement.
    SlowAck(SlowAck),
    /// The leader's reply to the frontend used for learning: the proposal's
    /// evidence, never a result.
    LeaderReply {
        /// Ballot.
        ballot: Ballot,
        /// Command.
        command: CommandId,
        /// Leader sequence number.
        seqnum: u64,
        /// Dependencies the leader ordered.
        deps: Seq<CommandId>,
        /// Dependency-path evidence.
        path: Digest32,
    },
    /// One page of a recovery report.
    ReportPage(PageView),
    /// A request for the durable payloads of commands a replica lacks.
    PayloadRequest {
        /// Commands.
        commands: Seq<CommandId>,
    },
    /// A durable payload; the receiver rehashes it against the identity.
    PayloadResponse {
        /// Command.
        command: CommandId,
        /// Payload.
        payload: PayloadView,
    },
    /// The new leader's selected recovery result, durably bound before it is
    /// sent.
    Sync(SyncView),
    /// A coordinator asks the old voters to seal for a transition.
    SealRequest {
        /// The transition.
        transition: Transition,
    },
    /// A voter's seal: ordinary voting is over here for every ballot of the
    /// old configuration. Published only once the seal row and every batch
    /// submitted before the cut are durable, so what it reports is complete.
    Sealed {
        /// The transition.
        transition: Transition,
        /// The ballot promised when the seal was written: evidence, never an
        /// authorization.
        at: Ballot,
        /// Sender.
        replica: ReplicaId,
    },
}

impl View for ProtocolMessage {
    type V = MessageView;

    open spec fn view(&self) -> MessageView {
        match self {
            ProtocolMessage::NewLeader { ballot } => MessageView::NewLeader {
                ballot: *ballot,
            },
            ProtocolMessage::Promise { ballot, synced, replica } => MessageView::Promise {
                ballot: *ballot,
                synced: *synced,
                replica: *replica,
            },
            ProtocolMessage::Proposal(a) => MessageView::Proposal(a@),
            ProtocolMessage::FastAck(a) => MessageView::FastAck(a@),
            ProtocolMessage::SlowAck(a) => MessageView::SlowAck(a@),
            ProtocolMessage::LeaderReply { ballot, command, seqnum, deps, path } => MessageView::LeaderReply {
                ballot: *ballot,
                command: *command,
                seqnum: *seqnum,
                deps: deps@,
                path: *path,
            },
            ProtocolMessage::ReportPage(a) => MessageView::ReportPage(a@),
            ProtocolMessage::PayloadRequest { commands } => MessageView::PayloadRequest {
                commands: commands@,
            },
            ProtocolMessage::PayloadResponse { command, payload } => MessageView::PayloadResponse {
                command: *command,
                payload: payload@,
            },
            ProtocolMessage::Sync(a) => MessageView::Sync(a@),
            ProtocolMessage::SealRequest { transition } => MessageView::SealRequest {
                transition: *transition,
            },
            ProtocolMessage::Sealed { transition, at, replica } => MessageView::Sealed {
                transition: *transition,
                at: *at,
                replica: *replica,
            },
        }
    }
}

/// What follows the number of a `NewLeader`.
pub type NewLeaderLayout = (u32, Ballot);

/// What follows the number of a `Promise`.
pub type PromiseLayout = (u32, (Ballot, (Ballot, ReplicaId)));

/// What follows the number of a `Proposal`.
pub type ProposalLayout = (u32, FastAck);

/// What follows the number of a `FastAck`.
pub type FastAckLayout = (u32, FastAck);

/// What follows the number of a `SlowAck`.
pub type SlowAckLayout = (u32, SlowAck);

/// What follows the number of a `LeaderReply`.
pub type LeaderReplyLayout = (u32, (Ballot, (CommandId, (u64, (List<CommandId>, Digest32)))));

/// What follows the number of a `ReportPage`.
pub type ReportPageLayout = (u32, ReportPage);

/// What follows the number of a `PayloadRequest`.
pub type PayloadRequestLayout = (u32, List<CommandId>);

/// What follows the number of a `PayloadResponse`.
pub type PayloadResponseLayout = (u32, (CommandId, PayloadRecordV1));

/// What follows the number of a `Sync`.
pub type SyncLayout = (u32, SyncDecision);

/// What follows the number of a `SealRequest`.
pub type SealRequestLayout = (u32, Transition);

/// What follows the number of a `Sealed`.
pub type SealedLayout = (u32, (Transition, (Ballot, ReplicaId)));

impl Wire for ProtocolMessage {
    open spec fn fits(v: MessageView) -> bool {
        match v {
            MessageView::NewLeader { ballot } => NewLeaderLayout::fits((0u32, ballot)),
            MessageView::Promise { ballot, synced, replica } => PromiseLayout::fits((1u32, (ballot, (synced, replica)))),
            MessageView::Proposal(a) => ProposalLayout::fits((2u32, a)),
            MessageView::FastAck(a) => FastAckLayout::fits((3u32, a)),
            MessageView::SlowAck(a) => SlowAckLayout::fits((4u32, a)),
            MessageView::LeaderReply { ballot, command, seqnum, deps, path } => LeaderReplyLayout::fits((5u32, (ballot, (command, (seqnum, (deps, path)))))),
            MessageView::ReportPage(a) => ReportPageLayout::fits((6u32, a)),
            MessageView::PayloadRequest { commands } => PayloadRequestLayout::fits((7u32, commands)),
            MessageView::PayloadResponse { command, payload } => PayloadResponseLayout::fits((8u32, (command, payload))),
            MessageView::Sync(a) => SyncLayout::fits((9u32, a)),
            MessageView::SealRequest { transition } => SealRequestLayout::fits((10u32, transition)),
            MessageView::Sealed { transition, at, replica } => SealedLayout::fits((11u32, (transition, (at, replica)))),
        }
    }

    open spec fn wire(v: MessageView) -> Seq<u8> {
        match v {
            MessageView::NewLeader { ballot } => NewLeaderLayout::wire((0u32, ballot)),
            MessageView::Promise { ballot, synced, replica } => PromiseLayout::wire((1u32, (ballot, (synced, replica)))),
            MessageView::Proposal(a) => ProposalLayout::wire((2u32, a)),
            MessageView::FastAck(a) => FastAckLayout::wire((3u32, a)),
            MessageView::SlowAck(a) => SlowAckLayout::wire((4u32, a)),
            MessageView::LeaderReply { ballot, command, seqnum, deps, path } => LeaderReplyLayout::wire((5u32, (ballot, (command, (seqnum, (deps, path)))))),
            MessageView::ReportPage(a) => ReportPageLayout::wire((6u32, a)),
            MessageView::PayloadRequest { commands } => PayloadRequestLayout::wire((7u32, commands)),
            MessageView::PayloadResponse { command, payload } => PayloadResponseLayout::wire((8u32, (command, payload))),
            MessageView::Sync(a) => SyncLayout::wire((9u32, a)),
            MessageView::SealRequest { transition } => SealRequestLayout::wire((10u32, transition)),
            MessageView::Sealed { transition, at, replica } => SealedLayout::wire((11u32, (transition, (at, replica)))),
        }
    }

    open spec fn parse(s: Seq<u8>) -> Option<(MessageView, int)> {
        match u32::parse(s) {
            Some((0, _)) => match NewLeaderLayout::parse(s) {
                Some(((_, ballot), used)) => Some((MessageView::NewLeader { ballot }, used)),
                None => None,
            },
            Some((1, _)) => match PromiseLayout::parse(s) {
                Some(((_, (ballot, (synced, replica))), used)) => Some((MessageView::Promise { ballot, synced, replica }, used)),
                None => None,
            },
            Some((2, _)) => match ProposalLayout::parse(s) {
                Some(((_, a), used)) => Some((MessageView::Proposal(a), used)),
                None => None,
            },
            Some((3, _)) => match FastAckLayout::parse(s) {
                Some(((_, a), used)) => Some((MessageView::FastAck(a), used)),
                None => None,
            },
            Some((4, _)) => match SlowAckLayout::parse(s) {
                Some(((_, a), used)) => Some((MessageView::SlowAck(a), used)),
                None => None,
            },
            Some((5, _)) => match LeaderReplyLayout::parse(s) {
                Some(((_, (ballot, (command, (seqnum, (deps, path))))), used)) => Some((MessageView::LeaderReply { ballot, command, seqnum, deps, path }, used)),
                None => None,
            },
            Some((6, _)) => match ReportPageLayout::parse(s) {
                Some(((_, a), used)) => Some((MessageView::ReportPage(a), used)),
                None => None,
            },
            Some((7, _)) => match PayloadRequestLayout::parse(s) {
                Some(((_, commands), used)) => Some((MessageView::PayloadRequest { commands }, used)),
                None => None,
            },
            Some((8, _)) => match PayloadResponseLayout::parse(s) {
                Some(((_, (command, payload)), used)) => Some((MessageView::PayloadResponse { command, payload }, used)),
                None => None,
            },
            Some((9, _)) => match SyncLayout::parse(s) {
                Some(((_, a), used)) => Some((MessageView::Sync(a), used)),
                None => None,
            },
            Some((10, _)) => match SealRequestLayout::parse(s) {
                Some(((_, transition), used)) => Some((MessageView::SealRequest { transition }, used)),
                None => None,
            },
            Some((11, _)) => match SealedLayout::parse(s) {
                Some(((_, (transition, (at, replica))), used)) => Some((MessageView::Sealed { transition, at, replica }, used)),
                None => None,
            },
            _ => None,
        }
    }

    proof fn round_trip(v: MessageView, rest: Seq<u8>) {
        match v {
            MessageView::NewLeader { ballot } => {
                NewLeaderLayout::round_trip((0u32, ballot), rest);
            },
            MessageView::Promise { ballot, synced, replica } => {
                PromiseLayout::round_trip((1u32, (ballot, (synced, replica))), rest);
            },
            MessageView::Proposal(a) => {
                ProposalLayout::round_trip((2u32, a), rest);
            },
            MessageView::FastAck(a) => {
                FastAckLayout::round_trip((3u32, a), rest);
            },
            MessageView::SlowAck(a) => {
                SlowAckLayout::round_trip((4u32, a), rest);
            },
            MessageView::LeaderReply { ballot, command, seqnum, deps, path } => {
                LeaderReplyLayout::round_trip((5u32, (ballot, (command, (seqnum, (deps, path))))), rest);
            },
            MessageView::ReportPage(a) => {
                ReportPageLayout::round_trip((6u32, a), rest);
            },
            MessageView::PayloadRequest { commands } => {
                PayloadRequestLayout::round_trip((7u32, commands), rest);
            },
            MessageView::PayloadResponse { command, payload } => {
                PayloadResponseLayout::round_trip((8u32, (command, payload)), rest);
            },
            MessageView::Sync(a) => {
                SyncLayout::round_trip((9u32, a), rest);
            },
            MessageView::SealRequest { transition } => {
                SealRequestLayout::round_trip((10u32, transition), rest);
            },
            MessageView::Sealed { transition, at, replica } => {
                SealedLayout::round_trip((11u32, (transition, (at, replica))), rest);
            },
        }
    }

    proof fn within(s: Seq<u8>) {
        match u32::parse(s) {
            Some((0, _)) => {
                NewLeaderLayout::within(s);
            },
            Some((1, _)) => {
                PromiseLayout::within(s);
            },
            Some((2, _)) => {
                ProposalLayout::within(s);
            },
            Some((3, _)) => {
                FastAckLayout::within(s);
            },
            Some((4, _)) => {
                SlowAckLayout::within(s);
            },
            Some((5, _)) => {
                LeaderReplyLayout::within(s);
            },
            Some((6, _)) => {
                ReportPageLayout::within(s);
            },
            Some((7, _)) => {
                PayloadRequestLayout::within(s);
            },
            Some((8, _)) => {
                PayloadResponseLayout::within(s);
            },
            Some((9, _)) => {
                SyncLayout::within(s);
            },
            Some((10, _)) => {
                SealRequestLayout::within(s);
            },
            Some((11, _)) => {
                SealedLayout::within(s);
            },
            _ => {},
        }
    }

    fn put(&self, out: &mut Vec<u8>) {
        match self {
            ProtocolMessage::NewLeader { ballot } => {
                let fields: NewLeaderLayout = (0, *ballot);
                fields.put(out);
            },
            ProtocolMessage::Promise { ballot, synced, replica } => {
                let fields: PromiseLayout = (1, (*ballot, (*synced, *replica)));
                fields.put(out);
            },
            ProtocolMessage::Proposal(a) => {
                let fields: ProposalLayout = (2, a.dup());
                fields.put(out);
            },
            ProtocolMessage::FastAck(a) => {
                let fields: FastAckLayout = (3, a.dup());
                fields.put(out);
            },
            ProtocolMessage::SlowAck(a) => {
                let fields: SlowAckLayout = (4, *a);
                fields.put(out);
            },
            ProtocolMessage::LeaderReply { ballot, command, seqnum, deps, path } => {
                let fields: LeaderReplyLayout = (5, (*ballot, (*command, (*seqnum, (List(copy_list(deps)), *path)))));
                proof {
                    lemma_id_views(deps@);
                }
                fields.put(out);
            },
            ProtocolMessage::ReportPage(a) => {
                let fields: ReportPageLayout = (6, a.dup());
                fields.put(out);
            },
            ProtocolMessage::PayloadRequest { commands } => {
                let fields: PayloadRequestLayout = (7, List(copy_list(commands)));
                proof {
                    lemma_id_views(commands@);
                }
                fields.put(out);
            },
            ProtocolMessage::PayloadResponse { command, payload } => {
                let fields: PayloadResponseLayout = (8, (*command, payload.dup()));
                fields.put(out);
            },
            ProtocolMessage::Sync(a) => {
                let fields: SyncLayout = (9, a.dup());
                fields.put(out);
            },
            ProtocolMessage::SealRequest { transition } => {
                let fields: SealRequestLayout = (10, *transition);
                fields.put(out);
            },
            ProtocolMessage::Sealed { transition, at, replica } => {
                let fields: SealedLayout = (11, (*transition, (*at, *replica)));
                fields.put(out);
            },
        }
    }

    #[verifier::rlimit(40)]
    fn take(bytes: &Vec<u8>, at: usize) -> (r: Option<(Self, usize)>) {
        match u32::take(bytes, at) {
            Some((0, _)) => match NewLeaderLayout::take(bytes, at) {
                Some(((_, ballot), next)) => {
                    Some((ProtocolMessage::NewLeader { ballot }, next))
                },
                None => None,
            },
            Some((1, _)) => match PromiseLayout::take(bytes, at) {
                Some(((_, (ballot, (synced, replica))), next)) => {
                    Some((ProtocolMessage::Promise { ballot, synced, replica }, next))
                },
                None => None,
            },
            Some((2, _)) => match ProposalLayout::take(bytes, at) {
                Some(((_, a), next)) => {
                    Some((ProtocolMessage::Proposal(a), next))
                },
                None => None,
            },
            Some((3, _)) => match FastAckLayout::take(bytes, at) {
                Some(((_, a), next)) => {
                    Some((ProtocolMessage::FastAck(a), next))
                },
                None => None,
            },
            Some((4, _)) => match SlowAckLayout::take(bytes, at) {
                Some(((_, a), next)) => {
                    Some((ProtocolMessage::SlowAck(a), next))
                },
                None => None,
            },
            Some((5, _)) => match LeaderReplyLayout::take(bytes, at) {
                Some(((_, (ballot, (command, (seqnum, (deps, path))))), next)) => {
                    proof {
                        lemma_id_views(deps.0@);
                    }
                    Some((ProtocolMessage::LeaderReply { ballot, command, seqnum, deps: deps.0, path }, next))
                },
                None => None,
            },
            Some((6, _)) => match ReportPageLayout::take(bytes, at) {
                Some(((_, a), next)) => {
                    Some((ProtocolMessage::ReportPage(a), next))
                },
                None => None,
            },
            Some((7, _)) => match PayloadRequestLayout::take(bytes, at) {
                Some(((_, commands), next)) => {
                    proof {
                        lemma_id_views(commands.0@);
                    }
                    Some((ProtocolMessage::PayloadRequest { commands: commands.0 }, next))
                },
                None => None,
            },
            Some((8, _)) => match PayloadResponseLayout::take(bytes, at) {
                Some(((_, (command, payload)), next)) => {
                    Some((ProtocolMessage::PayloadResponse { command, payload }, next))
                },
                None => None,
            },
            Some((9, _)) => match SyncLayout::take(bytes, at) {
                Some(((_, a), next)) => {
                    Some((ProtocolMessage::Sync(a), next))
                },
                None => None,
            },
            Some((10, _)) => match SealRequestLayout::take(bytes, at) {
                Some(((_, transition), next)) => {
                    Some((ProtocolMessage::SealRequest { transition }, next))
                },
                None => None,
            },
            Some((11, _)) => match SealedLayout::take(bytes, at) {
                Some(((_, (transition, (at, replica))), next)) => {
                    Some((ProtocolMessage::Sealed { transition, at, replica }, next))
                },
                None => None,
            },
            _ => None,
        }
    }
}

impl MessageView {
    /// The command a message is evidence about, where it is evidence.
    pub open spec fn about(self) -> Option<CommandId> {
        match self {
            MessageView::Proposal(a) => Some(a.command),
            MessageView::FastAck(a) => Some(a.command),
            MessageView::SlowAck(a) => Some(a.command),
            MessageView::LeaderReply { command, .. } => Some(command),
            MessageView::PayloadResponse { command, .. } => Some(command),
            _ => None,
        }
    }
}

/// The bytes of a message.
#[verifier::opaque]
pub open spec fn frame_of(message: MessageView) -> Seq<u8> {
    ProtocolMessage::wire(message)
}

/// The message a frame holds, or why it holds none.
#[verifier::opaque]
pub open spec fn message_in(frame: Seq<u8>) -> Result<MessageView, DecodeError> {
    exactly::<ProtocolMessage>(frame)
}

impl ProtocolMessage {
    /// The message's bytes.
    pub fn encode(&self) -> (r: Vec<u8>)
        ensures
            r@ == frame_of(self@),
            message_in(r@) == Ok::<MessageView, DecodeError>(self@),
    {
        let r = to_wire(self);
        proof {
            reveal(frame_of);
            reveal(message_in);
            lemma_wire_round_trip::<ProtocolMessage>(self@);
        }
        r
    }

    /// The command this message is evidence about, where it is evidence.
    ///
    /// A runtime that has to say which caller's submission a frame belongs
    /// to needs this: in a deployment with more than one collector, a
    /// voter's evidence goes back to the collector that submitted, and the
    /// command is what says which one that was. It is `None` for everything
    /// that is about a ballot or a replica rather than about one command.
    pub fn command(&self) -> (r: Option<CommandId>)
        ensures
            r == self@.about(),
    {
        match self {
            ProtocolMessage::Proposal(a) => Some(a.command),
            ProtocolMessage::FastAck(a) => Some(a.command),
            ProtocolMessage::SlowAck(a) => Some(a.command),
            ProtocolMessage::LeaderReply { command, .. } => Some(*command),
            ProtocolMessage::PayloadResponse { command, .. } => Some(*command),
            _ => None,
        }
    }

    /// Decode exactly one message.
    pub fn decode(bytes: &Vec<u8>) -> (r: Result<Self, DecodeError>)
        ensures
            match r {
                Ok(m) => message_in(bytes@) == Ok::<MessageView, DecodeError>(m@),
                Err(e) => message_in(bytes@) == Err::<MessageView, DecodeError>(e),
            },
    {
        proof {
            reveal(message_in);
        }
        from_wire(bytes)
    }
}

/// Two messages that fit and have the same bytes are the same message.
pub proof fn lemma_frames_distinct(a: MessageView, b: MessageView)
    requires
        ProtocolMessage::fits(a),
        ProtocolMessage::fits(b),
        frame_of(a) == frame_of(b),
    ensures
        a == b,
{
    reveal(frame_of);
    lemma_wire_round_trip::<ProtocolMessage>(a);
    lemma_wire_round_trip::<ProtocolMessage>(b);
}

} // verus!
