//! What the client plane carries: requests and their admission, responses,
//! and the frames they travel in.
//!
//! A request arrives decoded. Its canonical logical bytes are kept as they
//! were sent, since identity binds exactly those bytes; what they mean is
//! execution's to read.

use vstd::prelude::*;

use crate::bytes::copy_bytes;
use crate::ids::{
    ClusterId, CommandId, Digest32, DomainId, KvRevision, ReplicaId, RetryKey, SessionId,
};
use crate::ordered::Dup;

verus! {

/// What a connection was bound as at negotiation.
#[derive(Clone, Copy, Debug, PartialEq, Eq, Structural)]
pub enum PeerRole {
    /// A voter of the domain.
    Voter,
    /// A non-voting replica.
    Observer,
    /// A native client.
    Client,
    /// The trusted frontend.
    Frontend,
    /// The authorized collector of the Kine front end.
    KineCollector,
}

impl View for PeerRole {
    type V = PeerRole;

    open spec fn view(&self) -> PeerRole {
        *self
    }
}

impl PeerRole {
    /// The role may relay a client's work.
    pub open spec fn relays(self) -> bool {
        self == PeerRole::Frontend || self == PeerRole::KineCollector
    }

    /// Whether the role may relay a client's work: the trusted frontend and
    /// the authorized collector, and nobody else.
    pub fn may_submit_for_clients(self) -> (r: bool)
        ensures
            r == self.relays(),
    {
        self == PeerRole::Frontend || self == PeerRole::KineCollector
    }
}

/// What an admission is for.
#[derive(Clone, Copy, Debug, PartialEq, Eq, Structural)]
pub enum AdmissionPurpose {
    /// A submission under a session the cluster already agreed on.
    Submit,
    /// The establishment of a session.
    Establish,
}

impl View for AdmissionPurpose {
    type V = AdmissionPurpose;

    open spec fn view(&self) -> AdmissionPurpose {
        *self
    }
}

/// Where a peer message came from, as the transport bound it.
#[derive(Clone, Copy, Debug, PartialEq, Eq, Structural)]
pub struct PeerProvenance {
    /// The authenticated sender.
    pub from: ReplicaId,
    /// Its incarnation.
    pub incarnation: u64,
    /// The connection it arrived on.
    pub connection: u64,
}

impl View for PeerProvenance {
    type V = PeerProvenance;

    open spec fn view(&self) -> PeerProvenance {
        *self
    }
}

impl Dup for PeerProvenance {
    fn dup(&self) -> (r: Self) {
        *self
    }
}

/// What an admitting verifier attested.
#[derive(Clone, Copy, Debug, PartialEq, Eq, Structural)]
pub struct AttestedAdmission {
    /// Cluster of the verifier.
    pub cluster: ClusterId,
    /// Domain of the verifier.
    pub domain: DomainId,
    /// Session the request is admitted under.
    pub session: SessionId,
    /// Rule/issuer generation relied on.
    pub rule_generation: u64,
    /// Scope ceiling; execution policy can only narrow it.
    pub scope_ceiling: u32,
    /// Identity of the receipt.
    pub receipt_id: Digest32,
    /// Wall-clock reading of the admission.
    pub admitted_at_ticks: u64,
}

impl View for AttestedAdmission {
    type V = AttestedAdmission;

    open spec fn view(&self) -> AttestedAdmission {
        *self
    }
}

impl Dup for AttestedAdmission {
    fn dup(&self) -> (r: Self) {
        *self
    }
}

/// A verifier's receipt for a request: what was attested, what it is for, and
/// the claims an establishment carries (none for a submission).
#[derive(Debug)]
pub struct AdmissionReceipt {
    /// What was attested.
    pub attested: AttestedAdmission,
    /// What it is for.
    pub purpose: AdmissionPurpose,
    /// Claims of an establishment.
    pub claims: Vec<u8>,
}

/// What it says.
#[verifier::ext_equal]
pub struct ReceiptView {
    /// What was attested.
    pub attested: AttestedAdmission,
    /// What it is for.
    pub purpose: AdmissionPurpose,
    /// Claims of an establishment.
    pub claims: Seq<u8>,
}

impl View for AdmissionReceipt {
    type V = ReceiptView;

    open spec fn view(&self) -> ReceiptView {
        ReceiptView {
            attested: self.attested,
            purpose: self.purpose,
            claims: self.claims@,
        }
    }
}

impl Dup for AdmissionReceipt {
    fn dup(&self) -> (r: Self) {
        AdmissionReceipt {
            attested: self.attested,
            purpose: self.purpose,
            claims: copy_bytes(&self.claims),
        }
    }
}

/// A client request.
#[derive(Debug)]
pub struct RequestV1 {
    /// Retry key.
    pub retry_key: RetryKey,
    /// Canonical logical bytes, as the client sent them.
    pub logical: Vec<u8>,
    /// Client deadline in milliseconds; zero for none.
    pub deadline_ms: u32,
    /// Acknowledged sequence floor.
    pub ack_through: u64,
}

/// What it says.
#[verifier::ext_equal]
pub struct RequestBody {
    /// Retry key.
    pub retry_key: RetryKey,
    /// Canonical logical bytes, as the client sent them.
    pub logical: Seq<u8>,
    /// Client deadline in milliseconds; zero for none.
    pub deadline_ms: u32,
    /// Acknowledged sequence floor.
    pub ack_through: u64,
}

impl View for RequestV1 {
    type V = RequestBody;

    open spec fn view(&self) -> RequestBody {
        RequestBody {
            retry_key: self.retry_key,
            logical: self.logical@,
            deadline_ms: self.deadline_ms,
            ack_through: self.ack_through,
        }
    }
}

impl Dup for RequestV1 {
    fn dup(&self) -> (r: Self) {
        RequestV1 {
            retry_key: self.retry_key,
            logical: copy_bytes(&self.logical),
            deadline_ms: self.deadline_ms,
            ack_through: self.ack_through,
        }
    }
}

/// A request with the receipt it was admitted under. The request is absent
/// where the admitted frame was not exactly one canonical request.
#[derive(Debug)]
pub struct AdmittedRequest {
    /// Receipt.
    pub receipt: AdmissionReceipt,
    /// Request.
    pub request: Option<RequestV1>,
}

/// What an admitted request says.
#[verifier::ext_equal]
pub struct AdmittedView {
    /// Receipt.
    pub receipt: ReceiptView,
    /// Request.
    pub request: Option<RequestBody>,
}

/// What an optional request says.
pub open spec fn body_view(r: Option<RequestV1>) -> Option<RequestBody> {
    match r {
        Some(r) => Some(r@),
        None => None,
    }
}

impl View for AdmittedRequest {
    type V = AdmittedView;

    open spec fn view(&self) -> AdmittedView {
        AdmittedView { receipt: self.receipt@, request: body_view(self.request) }
    }
}

/// A resolution query for an identity.
#[derive(Clone, Copy, Debug, PartialEq, Eq, Structural)]
pub struct ResolveRequestV1 {
    /// Retry key.
    pub retry_key: RetryKey,
    /// Command the client derived.
    pub command_id: CommandId,
}

impl View for ResolveRequestV1 {
    type V = ResolveRequestV1;

    open spec fn view(&self) -> ResolveRequestV1 {
        *self
    }
}

impl Dup for ResolveRequestV1 {
    fn dup(&self) -> (r: Self) {
        *self
    }
}

/// Why a response is an error.
#[derive(Clone, Copy, Debug, PartialEq, Eq, Structural)]
pub enum ErrorCode {
    /// The request is not canonical.
    MalformedRequest,
    /// The caller may not do this here.
    NotAdmitted,
    /// A bound of this endpoint is reached; try again.
    Backpressure,
    /// The retry key is bound to another payload.
    RequestIdentityConflict,
    /// The result is established but cannot be delivered.
    ResultTooLarge,
}

impl View for ErrorCode {
    type V = ErrorCode;

    open spec fn view(&self) -> ErrorCode {
        *self
    }
}

/// The outcome a client is told.
#[derive(Debug)]
pub enum OutcomeV1 {
    /// Established.
    Established {
        /// KV revision produced, if any.
        revision: Option<KvRevision>,
        /// Result bytes.
        result: Vec<u8>,
    },
    /// Refused or undeliverable.
    Refused {
        /// Why.
        code: ErrorCode,
        /// Bounded, redacted detail.
        detail: Vec<u8>,
    },
    /// Not established yet; resolvable by identity.
    Pending,
    /// An identity this endpoint does not know.
    Unknown,
}

/// What an outcome says.
#[verifier::ext_equal]
pub enum OutcomeBody {
    /// Established.
    Established {
        /// KV revision produced, if any.
        revision: Option<KvRevision>,
        /// Result bytes.
        result: Seq<u8>,
    },
    /// Refused or undeliverable.
    Refused {
        /// Why.
        code: ErrorCode,
        /// Bounded, redacted detail.
        detail: Seq<u8>,
    },
    /// Not established yet.
    Pending,
    /// Unknown here.
    Unknown,
}

impl View for OutcomeV1 {
    type V = OutcomeBody;

    open spec fn view(&self) -> OutcomeBody {
        match self {
            OutcomeV1::Established { revision, result } => OutcomeBody::Established {
                revision: *revision,
                result: result@,
            },
            OutcomeV1::Refused { code, detail } => OutcomeBody::Refused { code: *code, detail: detail@ },
            OutcomeV1::Pending => OutcomeBody::Pending,
            OutcomeV1::Unknown => OutcomeBody::Unknown,
        }
    }
}

impl Dup for OutcomeV1 {
    fn dup(&self) -> (r: Self) {
        match self {
            OutcomeV1::Established { revision, result } => OutcomeV1::Established {
                revision: *revision,
                result: copy_bytes(result),
            },
            OutcomeV1::Refused { code, detail } => OutcomeV1::Refused {
                code: *code,
                detail: copy_bytes(detail),
            },
            OutcomeV1::Pending => OutcomeV1::Pending,
            OutcomeV1::Unknown => OutcomeV1::Unknown,
        }
    }
}

/// A response to a client.
#[derive(Debug)]
pub struct ResponseV1 {
    /// Command.
    pub command_id: CommandId,
    /// Outcome.
    pub outcome: OutcomeV1,
}

/// What it says.
#[verifier::ext_equal]
pub struct ResponseView {
    /// Command.
    pub command_id: CommandId,
    /// Outcome.
    pub outcome: OutcomeBody,
}

impl View for ResponseV1 {
    type V = ResponseView;

    open spec fn view(&self) -> ResponseView {
        ResponseView {
            command_id: self.command_id,
            outcome: self.outcome@,
        }
    }
}

impl Dup for ResponseV1 {
    fn dup(&self) -> (r: Self) {
        ResponseV1 {
            command_id: self.command_id,
            outcome: self.outcome.dup(),
        }
    }
}

/// One frame: its kind, schema version and payload.
#[derive(Debug)]
pub struct Frame {
    /// Kind.
    pub kind: u16,
    /// Schema version.
    pub version: u16,
    /// Payload.
    pub payload: Vec<u8>,
}

/// What it says.
#[verifier::ext_equal]
pub struct FrameView {
    /// Kind.
    pub kind: u16,
    /// Schema version.
    pub version: u16,
    /// Payload.
    pub payload: Seq<u8>,
}

impl View for Frame {
    type V = FrameView;

    open spec fn view(&self) -> FrameView {
        FrameView {
            kind: self.kind,
            version: self.version,
            payload: self.payload@,
        }
    }
}

impl Dup for Frame {
    fn dup(&self) -> (r: Self) {
        Frame {
            kind: self.kind,
            version: self.version,
            payload: copy_bytes(&self.payload),
        }
    }
}

/// The sizes the wire allows.
#[derive(Clone, Copy, Debug, PartialEq, Eq, Structural)]
pub struct WireLimits {
    /// Bytes a frame takes beside its payload.
    pub header: usize,
    /// Largest frame of the API class.
    pub api_frame: usize,
    /// Largest frame of the collector-evidence class.
    pub evidence_frame: usize,
    /// Largest frame of the watch class.
    pub watch_frame: usize,
    /// Largest result a response may carry.
    pub result: usize,
    /// Largest detail an error may carry.
    pub reason: usize,
    /// Most events one watch frame may carry.
    pub events: usize,
}

impl View for WireLimits {
    type V = WireLimits;

    open spec fn view(&self) -> WireLimits {
        *self
    }
}

impl Dup for WireLimits {
    fn dup(&self) -> (r: Self) {
        *self
    }
}

/// Room a class limit leaves for a message's own fields and the frame header.
pub const FRAME_SLACK: usize = 64 * 1024;

/// What of a class limit a payload may use.
pub open spec fn usable(class: usize) -> int {
    if class > FRAME_SLACK {
        class - FRAME_SLACK
    } else {
        0
    }
}

/// What of a class limit a payload may use.
pub fn usable_bytes(class: usize) -> (r: usize)
    ensures
        r == usable(class),
{
    if class > FRAME_SLACK {
        class - FRAME_SLACK
    } else {
        0
    }
}

} // verus!
