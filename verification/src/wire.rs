//! Collector frames. The submission travels in the API kind range because it
//! carries a client request and takes its class limit; the release and the
//! evidence frame are in the collector-evidence range, which is sized for an
//! established result.
//!
//! | Kind | Direction | Payload |
//! |---|---|---|
//! | `Submit` `0x0103` | collector to every voter | [`SubmitV1`] |
//! | `Release` `0x0701` | leader to collector | `ReleasedResult` |
//! | `Evidence` `0x0700` | voter to collector | `ProtocolMessage` |
//!
//! Payloads are laid out field by field in the postcard encoding.

use vstd::prelude::*;

use crate::bytes::copy_bytes;
use crate::client::{
    AdmissionPurpose, AdmissionReceipt, AttestedAdmission, Frame, FrameView, ReceiptView,
    RequestBody, RequestV1, WireLimits,
};
use crate::codec::{DecodeError, List, Opt, Wire, exactly, from_wire, to_wire};
use crate::effects::{EstablishmentEvidence, EstablishmentView, ReleasedResult, ReleasedView};
use crate::ids::{
    Ballot, ClusterId, CommandId, ConfigurationEpoch, Digest32, DomainId, ExecutionPosition,
    KvRevision, RetryKey, SessionId,
};
use crate::lists::{copy_list, lemma_id_views};
use crate::messages::{MessageView, ProtocolMessage, frame_of, message_in};
use crate::ordered::Dup;
use crate::rows::AdmissionFacts;

verus! {

/// A collector submits an admitted, canonical request to a voter.
pub const KIND_SUBMIT: u16 = 0x0103;

/// The leader publishes a released result to the collector. It is in the
/// collector-evidence range, not the API range: an established result may be
/// larger than the API class can carry, and a release that cannot be framed
/// would leave its request pending with nothing to answer.
pub const KIND_RELEASE: u16 = 0x0701;

/// A voter's protocol evidence (leader reply, fast or slow ack).
pub const KIND_EVIDENCE: u16 = 0x0700;

/// Schema version of every collector frame.
pub const VERSION: u16 = 1;

/// The submission: what the admitting verifier attested and the exact request
/// the client sent (its logical bytes are what identity binds).
#[derive(Debug)]
pub struct SubmitV1 {
    /// What the admitting verifier attested.
    pub receipt: AdmissionReceipt,
    /// The client request.
    pub request: RequestV1,
}

/// What it says.
#[verifier::ext_equal]
pub struct SubmitView {
    /// What the admitting verifier attested.
    pub receipt: ReceiptView,
    /// The client request.
    pub request: RequestBody,
}

impl View for SubmitV1 {
    type V = SubmitView;

    open spec fn view(&self) -> SubmitView {
        SubmitView {
            receipt: self.receipt@,
            request: self.request@,
        }
    }
}

impl Dup for SubmitV1 {
    fn dup(&self) -> (r: Self) {
        SubmitV1 {
            receipt: self.receipt.dup(),
            request: self.request.dup(),
        }
    }
}

impl Wire for ExecutionPosition {
    open spec fn fits(v: ExecutionPosition) -> bool {
        true
    }

    open spec fn wire(v: ExecutionPosition) -> Seq<u8> {
        u64::wire(v.0)
    }

    open spec fn parse(s: Seq<u8>) -> Option<(ExecutionPosition, int)> {
        match u64::parse(s) {
            Some((v, n)) => Some((ExecutionPosition(v), n)),
            None => None,
        }
    }

    proof fn round_trip(v: ExecutionPosition, rest: Seq<u8>) {
        u64::round_trip(v.0, rest);
    }

    proof fn within(s: Seq<u8>) {
        u64::within(s);
    }

    fn put(&self, out: &mut Vec<u8>) {
        self.0.put(out);
    }

    fn take(bytes: &Vec<u8>, at: usize) -> (r: Option<(Self, usize)>) {
        match u64::take(bytes, at) {
            Some((v, next)) => Some((ExecutionPosition(v), next)),
            None => None,
        }
    }
}

impl Wire for KvRevision {
    open spec fn fits(v: KvRevision) -> bool {
        true
    }

    open spec fn wire(v: KvRevision) -> Seq<u8> {
        u64::wire(v.0)
    }

    open spec fn parse(s: Seq<u8>) -> Option<(KvRevision, int)> {
        match u64::parse(s) {
            Some((v, n)) => Some((KvRevision(v), n)),
            None => None,
        }
    }

    proof fn round_trip(v: KvRevision, rest: Seq<u8>) {
        u64::round_trip(v.0, rest);
    }

    proof fn within(s: Seq<u8>) {
        u64::within(s);
    }

    fn put(&self, out: &mut Vec<u8>) {
        self.0.put(out);
    }

    fn take(bytes: &Vec<u8>, at: usize) -> (r: Option<(Self, usize)>) {
        match u64::take(bytes, at) {
            Some((v, next)) => Some((KvRevision(v), next)),
            None => None,
        }
    }
}

/// The number an admission's purpose travels as.
pub open spec fn purpose_number(v: AdmissionPurpose) -> u32 {
    match v {
        AdmissionPurpose::Submit => 0,
        AdmissionPurpose::Establish => 1,
    }
}

/// The purpose that a number stands for.
pub open spec fn purpose_of(n: u32) -> Option<AdmissionPurpose> {
    match n {
        0 => Some(AdmissionPurpose::Submit),
        1 => Some(AdmissionPurpose::Establish),
        _ => None,
    }
}

impl Wire for AdmissionPurpose {
    open spec fn fits(v: AdmissionPurpose) -> bool {
        true
    }

    open spec fn wire(v: AdmissionPurpose) -> Seq<u8> {
        u32::wire(purpose_number(v))
    }

    open spec fn parse(s: Seq<u8>) -> Option<(AdmissionPurpose, int)> {
        match u32::parse(s) {
            Some((n, used)) => match purpose_of(n) {
                Some(v) => Some((v, used)),
                None => None,
            },
            None => None,
        }
    }

    proof fn round_trip(v: AdmissionPurpose, rest: Seq<u8>) {
        u32::round_trip(purpose_number(v), rest);
    }

    proof fn within(s: Seq<u8>) {
        u32::within(s);
    }

    fn put(&self, out: &mut Vec<u8>) {
        let n: u32 = match self {
            AdmissionPurpose::Submit => 0,
            AdmissionPurpose::Establish => 1,
        };
        n.put(out);
    }

    fn take(bytes: &Vec<u8>, at: usize) -> (r: Option<(Self, usize)>) {
        match u32::take(bytes, at) {
            Some((n, next)) => {
                let v = match n {
                    0 => AdmissionPurpose::Submit,
                    1 => AdmissionPurpose::Establish,
                    _ => {
                        return None;
                    },
                };
                Some((v, next))
            },
            None => None,
        }
    }
}

/// Field by field, the layout of what a verifier attested.
pub type AttestedAdmissionLayout = (ClusterId, (DomainId, (SessionId, (u64, (u32, (Digest32, u64))))));

impl Wire for AttestedAdmission {
    open spec fn fits(v: AttestedAdmission) -> bool {
        AttestedAdmissionLayout::fits((v.cluster, (v.domain, (v.session, (v.rule_generation, (v.scope_ceiling, (v.receipt_id, v.admitted_at_ticks)))))))
    }

    open spec fn wire(v: AttestedAdmission) -> Seq<u8> {
        AttestedAdmissionLayout::wire((v.cluster, (v.domain, (v.session, (v.rule_generation, (v.scope_ceiling, (v.receipt_id, v.admitted_at_ticks)))))))
    }

    open spec fn parse(s: Seq<u8>) -> Option<(AttestedAdmission, int)> {
        match AttestedAdmissionLayout::parse(s) {
            Some(((cluster, (domain, (session, (rule_generation, (scope_ceiling, (receipt_id, admitted_at_ticks)))))), n)) => Some((AttestedAdmission { cluster, domain, session, rule_generation, scope_ceiling, receipt_id, admitted_at_ticks }, n)),
            None => None,
        }
    }

    proof fn round_trip(v: AttestedAdmission, rest: Seq<u8>) {
        AttestedAdmissionLayout::round_trip((v.cluster, (v.domain, (v.session, (v.rule_generation, (v.scope_ceiling, (v.receipt_id, v.admitted_at_ticks)))))), rest);
    }

    proof fn within(s: Seq<u8>) {
        AttestedAdmissionLayout::within(s);
    }

    fn put(&self, out: &mut Vec<u8>) {
        let fields: AttestedAdmissionLayout = (self.cluster, (self.domain, (self.session, (self.rule_generation, (self.scope_ceiling, (self.receipt_id, self.admitted_at_ticks))))));
        fields.put(out);
    }

    fn take(bytes: &Vec<u8>, at: usize) -> (r: Option<(Self, usize)>) {
        match AttestedAdmissionLayout::take(bytes, at) {
            Some(((cluster, (domain, (session, (rule_generation, (scope_ceiling, (receipt_id, admitted_at_ticks)))))), next)) => {
                let r = AttestedAdmission { cluster, domain, session, rule_generation, scope_ceiling, receipt_id, admitted_at_ticks };
                Some((r, next))
            },
            None => None,
        }
    }
}

/// Field by field, the layout of a receipt.
pub type AdmissionReceiptLayout = (AttestedAdmission, (AdmissionPurpose, Vec<u8>));

impl Wire for AdmissionReceipt {
    open spec fn fits(v: ReceiptView) -> bool {
        AdmissionReceiptLayout::fits((v.attested, (v.purpose, v.claims)))
    }

    open spec fn wire(v: ReceiptView) -> Seq<u8> {
        AdmissionReceiptLayout::wire((v.attested, (v.purpose, v.claims)))
    }

    open spec fn parse(s: Seq<u8>) -> Option<(ReceiptView, int)> {
        match AdmissionReceiptLayout::parse(s) {
            Some(((attested, (purpose, claims)), n)) => Some((ReceiptView { attested, purpose, claims }, n)),
            None => None,
        }
    }

    proof fn round_trip(v: ReceiptView, rest: Seq<u8>) {
        AdmissionReceiptLayout::round_trip((v.attested, (v.purpose, v.claims)), rest);
    }

    proof fn within(s: Seq<u8>) {
        AdmissionReceiptLayout::within(s);
    }

    fn put(&self, out: &mut Vec<u8>) {
        let fields: AdmissionReceiptLayout = (self.attested, (self.purpose, self.claims.dup()));
        fields.put(out);
    }

    fn take(bytes: &Vec<u8>, at: usize) -> (r: Option<(Self, usize)>) {
        match AdmissionReceiptLayout::take(bytes, at) {
            Some(((attested, (purpose, claims)), next)) => {
                let r = AdmissionReceipt { attested, purpose, claims };
                Some((r, next))
            },
            None => None,
        }
    }
}

/// Field by field, the layout of a client request.
pub type RequestV1Layout = (RetryKey, (Vec<u8>, (u32, u64)));

impl Wire for RequestV1 {
    open spec fn fits(v: RequestBody) -> bool {
        RequestV1Layout::fits((v.retry_key, (v.logical, (v.deadline_ms, v.ack_through))))
    }

    open spec fn wire(v: RequestBody) -> Seq<u8> {
        RequestV1Layout::wire((v.retry_key, (v.logical, (v.deadline_ms, v.ack_through))))
    }

    open spec fn parse(s: Seq<u8>) -> Option<(RequestBody, int)> {
        match RequestV1Layout::parse(s) {
            Some(((retry_key, (logical, (deadline_ms, ack_through))), n)) => Some((RequestBody { retry_key, logical, deadline_ms, ack_through }, n)),
            None => None,
        }
    }

    proof fn round_trip(v: RequestBody, rest: Seq<u8>) {
        RequestV1Layout::round_trip((v.retry_key, (v.logical, (v.deadline_ms, v.ack_through))), rest);
    }

    proof fn within(s: Seq<u8>) {
        RequestV1Layout::within(s);
    }

    fn put(&self, out: &mut Vec<u8>) {
        let fields: RequestV1Layout = (self.retry_key, (self.logical.dup(), (self.deadline_ms, self.ack_through)));
        fields.put(out);
    }

    fn take(bytes: &Vec<u8>, at: usize) -> (r: Option<(Self, usize)>) {
        match RequestV1Layout::take(bytes, at) {
            Some(((retry_key, (logical, (deadline_ms, ack_through))), next)) => {
                let r = RequestV1 { retry_key, logical, deadline_ms, ack_through };
                Some((r, next))
            },
            None => None,
        }
    }
}

/// Field by field, the layout of a submission.
pub type SubmitV1Layout = (AdmissionReceipt, RequestV1);

impl Wire for SubmitV1 {
    open spec fn fits(v: SubmitView) -> bool {
        SubmitV1Layout::fits((v.receipt, v.request))
    }

    open spec fn wire(v: SubmitView) -> Seq<u8> {
        SubmitV1Layout::wire((v.receipt, v.request))
    }

    open spec fn parse(s: Seq<u8>) -> Option<(SubmitView, int)> {
        match SubmitV1Layout::parse(s) {
            Some(((receipt, request), n)) => Some((SubmitView { receipt, request }, n)),
            None => None,
        }
    }

    proof fn round_trip(v: SubmitView, rest: Seq<u8>) {
        SubmitV1Layout::round_trip((v.receipt, v.request), rest);
    }

    proof fn within(s: Seq<u8>) {
        SubmitV1Layout::within(s);
    }

    fn put(&self, out: &mut Vec<u8>) {
        let fields: SubmitV1Layout = (self.receipt.dup(), self.request.dup());
        fields.put(out);
    }

    fn take(bytes: &Vec<u8>, at: usize) -> (r: Option<(Self, usize)>) {
        match SubmitV1Layout::take(bytes, at) {
            Some(((receipt, request), next)) => {
                let r = SubmitV1 { receipt, request };
                Some((r, next))
            },
            None => None,
        }
    }
}

/// Field by field, the layout of what establishes a result.
pub type EstablishmentEvidenceLayout = (CommandId, (ConfigurationEpoch, (Ballot, (ExecutionPosition, (List<CommandId>, (Digest32, (Opt<KvRevision>, bool)))))));

impl Wire for EstablishmentEvidence {
    open spec fn fits(v: EstablishmentView) -> bool {
        EstablishmentEvidenceLayout::fits((v.command, (v.epoch, (v.ballot, (v.position, (v.closed_predecessors, (v.result_digest, (v.revision, v.fast_path))))))))
    }

    open spec fn wire(v: EstablishmentView) -> Seq<u8> {
        EstablishmentEvidenceLayout::wire((v.command, (v.epoch, (v.ballot, (v.position, (v.closed_predecessors, (v.result_digest, (v.revision, v.fast_path))))))))
    }

    open spec fn parse(s: Seq<u8>) -> Option<(EstablishmentView, int)> {
        match EstablishmentEvidenceLayout::parse(s) {
            Some(((command, (epoch, (ballot, (position, (closed_predecessors, (result_digest, (revision, fast_path))))))), n)) => Some((EstablishmentView { command, epoch, ballot, position, closed_predecessors, result_digest, revision, fast_path }, n)),
            None => None,
        }
    }

    proof fn round_trip(v: EstablishmentView, rest: Seq<u8>) {
        EstablishmentEvidenceLayout::round_trip((v.command, (v.epoch, (v.ballot, (v.position, (v.closed_predecessors, (v.result_digest, (v.revision, v.fast_path))))))), rest);
    }

    proof fn within(s: Seq<u8>) {
        EstablishmentEvidenceLayout::within(s);
    }

    fn put(&self, out: &mut Vec<u8>) {
        let fields: EstablishmentEvidenceLayout = (self.command, (self.epoch, (self.ballot, (self.position, (List(copy_list(&self.closed_predecessors)), (self.result_digest, (Opt(self.revision), self.fast_path)))))));
        proof {
            lemma_id_views(self.closed_predecessors@);
        }
        fields.put(out);
    }

    fn take(bytes: &Vec<u8>, at: usize) -> (r: Option<(Self, usize)>) {
        match EstablishmentEvidenceLayout::take(bytes, at) {
            Some(((command, (epoch, (ballot, (position, (closed_predecessors, (result_digest, (revision, fast_path))))))), next)) => {
                let r = EstablishmentEvidence { command, epoch, ballot, position, closed_predecessors: closed_predecessors.0, result_digest, revision: revision.0, fast_path };
                proof {
                lemma_id_views(r.closed_predecessors@);
                }
                Some((r, next))
            },
            None => None,
        }
    }
}

/// Field by field, the layout of a released result.
pub type ReleasedResultLayout = (EstablishmentEvidence, (Vec<u8>, bool));

impl Wire for ReleasedResult {
    open spec fn fits(v: ReleasedView) -> bool {
        ReleasedResultLayout::fits((v.evidence, (v.response, v.speculative)))
    }

    open spec fn wire(v: ReleasedView) -> Seq<u8> {
        ReleasedResultLayout::wire((v.evidence, (v.response, v.speculative)))
    }

    open spec fn parse(s: Seq<u8>) -> Option<(ReleasedView, int)> {
        match ReleasedResultLayout::parse(s) {
            Some(((evidence, (response, speculative)), n)) => Some((ReleasedView { evidence, response, speculative }, n)),
            None => None,
        }
    }

    proof fn round_trip(v: ReleasedView, rest: Seq<u8>) {
        ReleasedResultLayout::round_trip((v.evidence, (v.response, v.speculative)), rest);
    }

    proof fn within(s: Seq<u8>) {
        ReleasedResultLayout::within(s);
    }

    fn put(&self, out: &mut Vec<u8>) {
        let fields: ReleasedResultLayout = (self.evidence.dup(), (self.response.dup(), self.speculative));
        fields.put(out);
    }

    fn take(bytes: &Vec<u8>, at: usize) -> (r: Option<(Self, usize)>) {
        match ReleasedResultLayout::take(bytes, at) {
            Some(((evidence, (response, speculative)), next)) => {
                let r = ReleasedResult { evidence, response, speculative };
                Some((r, next))
            },
            None => None,
        }
    }
}

/// The facts of an admission as they are digested and stored: the layout of
/// the receipt.
pub open spec fn facts_of(receipt: ReceiptView) -> Seq<u8> {
    AdmissionReceipt::wire(receipt)
}

impl AdmissionReceipt {
    /// The facts of the admission, as they are digested and stored.
    pub fn facts(&self) -> (r: AdmissionFacts)
        ensures
            r@ == facts_of(self@),
    {
        AdmissionFacts(to_wire(self))
    }

    /// The session the request is admitted under.
    pub fn session(&self) -> (r: SessionId)
        ensures
            r == self@.attested.session,
    {
        self.attested.session
    }
}

/// Two different admissions have different facts.
pub proof fn lemma_facts_are_faithful(a: ReceiptView, b: ReceiptView)
    requires
        AdmissionReceipt::fits(a),
        AdmissionReceipt::fits(b),
        facts_of(a) == facts_of(b),
    ensures
        a == b,
{
    crate::codec::lemma_wire_round_trip::<AdmissionReceipt>(a);
    crate::codec::lemma_wire_round_trip::<AdmissionReceipt>(b);
}

/// Why a collector frame was not accepted.
#[derive(Clone, Copy, Debug, PartialEq, Eq, Structural)]
pub enum CollectorWireError {
    /// Not the kind expected here.
    UnexpectedKind {
        /// Kind seen.
        kind: u16,
    },
    /// Not a supported schema version.
    UnsupportedVersion {
        /// Version seen.
        version: u16,
    },
    /// The payload did not decode.
    Malformed,
    /// Bytes followed the payload.
    Trailing,
    /// The frame exceeds its class limit.
    TooLarge,
}

/// The class limit of a collector frame's kind.
pub open spec fn class_limit(limits: WireLimits, kind: u16) -> usize {
    if kind == KIND_SUBMIT {
        limits.api_frame
    } else {
        limits.evidence_frame
    }
}

/// Why a frame is not the one expected.
pub open spec fn frame_defect(frame: FrameView, kind: u16) -> Option<CollectorWireError> {
    if frame.kind != kind {
        Some(CollectorWireError::UnexpectedKind { kind: frame.kind })
    } else if frame.version != VERSION {
        Some(CollectorWireError::UnsupportedVersion { version: frame.version })
    } else {
        None
    }
}

fn check(frame: &Frame, kind: u16) -> (r: Result<(), CollectorWireError>)
    ensures
        match frame_defect(frame@, kind) {
            Some(e) => r == Err::<(), CollectorWireError>(e),
            None => r is Ok,
        },
{
    if frame.kind != kind {
        return Err(CollectorWireError::UnexpectedKind { kind: frame.kind });
    }
    if frame.version != VERSION {
        return Err(CollectorWireError::UnsupportedVersion { version: frame.version });
    }
    Ok(())
}

/// What a payload decodes to, all of it.
pub open spec fn decoded<T: Wire>(payload: Seq<u8>) -> Result<T::V, CollectorWireError> {
    match exactly::<T>(payload) {
        Ok(v) => Ok(v),
        Err(DecodeError::TrailingBytes) => Err(CollectorWireError::Trailing),
        Err(DecodeError::Truncated) => Err(CollectorWireError::Malformed),
    }
}

fn exact<T: Wire>(payload: &Vec<u8>) -> (r: Result<T, CollectorWireError>)
    ensures
        match r {
            Ok(v) => decoded::<T>(payload@) == Ok::<T::V, CollectorWireError>(v@),
            Err(e) => decoded::<T>(payload@) == Err::<T::V, CollectorWireError>(e),
        },
{
    match from_wire::<T>(payload) {
        Ok(v) => Ok(v),
        Err(DecodeError::TrailingBytes) => Err(CollectorWireError::Trailing),
        Err(DecodeError::Truncated) => Err(CollectorWireError::Malformed),
    }
}

/// The frame of a payload, where it stays within its class limit.
pub open spec fn framed(limits: WireLimits, kind: u16, payload: Seq<u8>) -> Result<
    FrameView,
    CollectorWireError,
> {
    if payload.len() + limits.header > class_limit(limits, kind) {
        Err(CollectorWireError::TooLarge)
    } else {
        Ok(FrameView { kind, version: VERSION, payload })
    }
}

/// What a framing attempt gave.
pub open spec fn frame_result(r: Result<Frame, CollectorWireError>) -> Result<
    FrameView,
    CollectorWireError,
> {
    match r {
        Ok(f) => Ok(f@),
        Err(e) => Err(e),
    }
}

fn frame(limits: &WireLimits, kind: u16, payload: Vec<u8>) -> (r: Result<Frame, CollectorWireError>)
    ensures
        frame_result(r) == framed(*limits, kind, payload@),
{
    let class: usize = if kind == KIND_SUBMIT {
        limits.api_frame
    } else {
        limits.evidence_frame
    };
    if limits.header > class || payload.len() > class - limits.header {
        return Err(CollectorWireError::TooLarge);
    }
    Ok(Frame { kind, version: VERSION, payload })
}

/// The bytes a frame takes on the wire.
pub open spec fn frame_bytes(limits: WireLimits, frame: FrameView) -> int {
    frame.payload.len() + limits.header
}

/// Encode a submission.
pub fn submit_frame(limits: &WireLimits, submit: &SubmitV1) -> (r: Result<Frame, CollectorWireError>)
    ensures
        frame_result(r) == framed(*limits, KIND_SUBMIT, SubmitV1::wire(submit@)),
        SubmitV1::fits(submit@),
{
    frame(limits, KIND_SUBMIT, to_wire(submit))
}

/// What a submission frame holds.
pub open spec fn submission_in(frame: FrameView) -> Result<SubmitView, CollectorWireError> {
    match frame_defect(frame, KIND_SUBMIT) {
        Some(e) => Err(e),
        None => decoded::<SubmitV1>(frame.payload),
    }
}

/// Decode a submission.
pub fn decode_submit(frame: &Frame) -> (r: Result<SubmitV1, CollectorWireError>)
    ensures
        match r {
            Ok(v) => submission_in(frame@) == Ok::<SubmitView, CollectorWireError>(v@),
            Err(e) => submission_in(frame@) == Err::<SubmitView, CollectorWireError>(e),
        },
{
    check(frame, KIND_SUBMIT)?;
    exact(&frame.payload)
}

/// Encode protocol evidence for the collector.
pub fn evidence_frame(limits: &WireLimits, message: &ProtocolMessage) -> (r: Result<
    Frame,
    CollectorWireError,
>)
    ensures
        frame_result(r) == framed(*limits, KIND_EVIDENCE, frame_of(message@)),
{
    frame(limits, KIND_EVIDENCE, message.encode())
}

/// Encode already-encoded protocol evidence (the bytes of a machine's send
/// effect) for the collector.
pub fn evidence_frame_from_bytes(limits: &WireLimits, message: &[u8]) -> (r: Result<
    Frame,
    CollectorWireError,
>)
    ensures
        frame_result(r) == framed(*limits, KIND_EVIDENCE, message@),
{
    frame(limits, KIND_EVIDENCE, copy_bytes(message))
}

/// What an evidence frame holds.
pub open spec fn evidence_in(frame: FrameView) -> Result<MessageView, CollectorWireError> {
    match frame_defect(frame, KIND_EVIDENCE) {
        Some(e) => Err(e),
        None => match message_in(frame.payload) {
            Ok(m) => Ok(m),
            Err(_) => Err(CollectorWireError::Malformed),
        },
    }
}

/// Decode protocol evidence.
pub fn decode_evidence(frame: &Frame) -> (r: Result<ProtocolMessage, CollectorWireError>)
    ensures
        match r {
            Ok(v) => evidence_in(frame@) == Ok::<MessageView, CollectorWireError>(v@),
            Err(e) => evidence_in(frame@) == Err::<MessageView, CollectorWireError>(e),
        },
{
    check(frame, KIND_EVIDENCE)?;
    match ProtocolMessage::decode(&frame.payload) {
        Ok(m) => Ok(m),
        Err(_) => Err(CollectorWireError::Malformed),
    }
}

/// Encode a released result.
pub fn release_frame(limits: &WireLimits, released: &ReleasedResult) -> (r: Result<
    Frame,
    CollectorWireError,
>)
    ensures
        frame_result(r) == framed(*limits, KIND_RELEASE, ReleasedResult::wire(released@)),
        ReleasedResult::fits(released@),
{
    frame(limits, KIND_RELEASE, to_wire(released))
}

/// What a release frame holds.
pub open spec fn release_in(frame: FrameView) -> Result<ReleasedView, CollectorWireError> {
    match frame_defect(frame, KIND_RELEASE) {
        Some(e) => Err(e),
        None => decoded::<ReleasedResult>(frame.payload),
    }
}

/// Decode a released result.
pub fn decode_release(frame: &Frame) -> (r: Result<ReleasedResult, CollectorWireError>)
    ensures
        match r {
            Ok(v) => release_in(frame@) == Ok::<ReleasedView, CollectorWireError>(v@),
            Err(e) => release_in(frame@) == Err::<ReleasedView, CollectorWireError>(e),
        },
{
    check(frame, KIND_RELEASE)?;
    exact(&frame.payload)
}

/// A frame that was encoded decodes to what was put in, and to nothing under
/// another kind.
pub proof fn lemma_frames_round_trip(
    limits: WireLimits,
    submit: SubmitView,
    message: MessageView,
    released: ReleasedView,
)
    requires
        SubmitV1::fits(submit),
        ProtocolMessage::fits(message),
        ReleasedResult::fits(released),
    ensures
        framed(limits, KIND_SUBMIT, SubmitV1::wire(submit)) matches Ok(f) ==> submission_in(f)
            == Ok::<SubmitView, CollectorWireError>(submit) && release_in(f) is Err
            && evidence_in(f) is Err,
        framed(limits, KIND_RELEASE, ReleasedResult::wire(released)) matches Ok(f)
            ==> release_in(f) == Ok::<ReleasedView, CollectorWireError>(released)
            && submission_in(f) is Err && evidence_in(f) is Err,
        framed(limits, KIND_EVIDENCE, frame_of(message)) matches Ok(f) ==> evidence_in(f) == Ok::<
            MessageView,
            CollectorWireError,
        >(message) && submission_in(f) is Err && release_in(f) is Err,
{
    crate::codec::lemma_wire_round_trip::<SubmitV1>(submit);
    crate::codec::lemma_wire_round_trip::<ReleasedResult>(released);
    reveal(frame_of);
    reveal(message_in);
    crate::codec::lemma_wire_round_trip::<ProtocolMessage>(message);
}

/// Evidence travels as it was published: a frame carries exactly the bytes it
/// was made from, under the evidence kind and version, and reading it gives
/// what those bytes decode to, or that they are malformed. Only a payload past
/// its class limit is not framed.
pub proof fn lemma_evidence_travels_as_published(limits: WireLimits, message: Seq<u8>)
    ensures
        framed(limits, KIND_EVIDENCE, message) matches Ok(f) ==> {
            &&& f == (FrameView { kind: KIND_EVIDENCE, version: VERSION, payload: message })
            &&& evidence_in(f) == match message_in(message) {
                Ok(m) => Ok::<MessageView, CollectorWireError>(m),
                Err(_) => Err(CollectorWireError::Malformed),
            }
        },
        framed(limits, KIND_EVIDENCE, message) is Err <==> message.len() + limits.header
            > limits.evidence_frame,
        framed(limits, KIND_EVIDENCE, message) matches Err(e) ==> e == CollectorWireError::TooLarge,
{
}

} // verus!
