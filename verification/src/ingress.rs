//! The voter side of the collector contract: what a voter accepts from a
//! collector and what it sends back.
//!
//! A `Submit` becomes an admitted request only when the connection's bound
//! role is a collector role. A native client, an observer or another voter
//! presenting the same frame is refused: role-scoped collector access never
//! becomes general request or voting access, and nothing that arrives on an
//! API-class connection is ever treated as a vote.

use vstd::prelude::*;

use crate::client::{
    AdmissionPurpose, AdmittedRequest, AdmittedView, Frame, FrameView, PeerRole, WireLimits,
};
use crate::codec::Wire;
use crate::effects::{Effect, EffectView, ReleasedResult};
use crate::ids::{ClusterId, DomainId, PeerId};
use crate::wire::{
    CollectorWireError, KIND_EVIDENCE, KIND_RELEASE, decode_submit, evidence_frame_from_bytes,
    frame_result, framed, release_frame, submission_in,
};

verus! {

/// Why a frame from an API-class connection was not admitted.
#[allow(inconsistent_fields)]
#[derive(Clone, Copy, Debug, PartialEq, Eq, Structural)]
pub enum IngressError {
    /// The role may not submit on behalf of clients.
    RoleNotAuthorized(PeerRole),
    /// The role may relay a client's work but may not say who a credential
    /// belongs to, and these claims establish a session.
    NotASessionIssuer(PeerRole),
    /// The claims were attested by a verifier of another cluster or another
    /// domain. They admit nothing here whatever they say.
    WrongOrigin {
        /// Cluster the claims name.
        cluster: ClusterId,
        /// Domain the claims name.
        domain: DomainId,
    },
    /// Not a collector submission.
    Wire(CollectorWireError),
}

/// Whether `role` is an authorized collector: the role vocabulary's own
/// answer, not a second copy of it.
pub fn is_collector(role: PeerRole) -> (r: bool)
    ensures
        r == role.relays(),
{
    role.may_submit_for_clients()
}

/// What a submission admits, presented by `role` to a voter of `cluster` and
/// `domain`. `issues_sessions` says whether the role may say who a credential
/// belongs to.
pub open spec fn admission_in(
    role: PeerRole,
    issues_sessions: bool,
    frame: FrameView,
    cluster: ClusterId,
    domain: DomainId,
) -> Result<AdmittedView, IngressError> {
    match submission_in(frame) {
        Err(e) => Err(IngressError::Wire(e)),
        Ok(submit) => {
            let attested = submit.receipt.attested;
            if attested.cluster != cluster || attested.domain != domain {
                Err(IngressError::WrongOrigin { cluster: attested.cluster, domain: attested.domain })
            } else if submit.receipt.purpose == AdmissionPurpose::Submit && !role.relays() {
                Err(IngressError::RoleNotAuthorized(role))
            } else if submit.receipt.purpose == AdmissionPurpose::Establish && !issues_sessions {
                Err(IngressError::NotASessionIssuer(role))
            } else {
                Ok(AdmittedView { receipt: submit.receipt, request: Some(submit.request) })
            }
        },
    }
}

/// Turn a collector's `Submit` into the admitted request the consensus
/// machines consume.
///
/// Deserializing a record is not proof of where it came from. So the request
/// is admitted only after the ingress it arrived on is shown to have the
/// authority the claims call for:
///
/// * **Origin.** The claims name the cluster and domain their verifier
///   belongs to, and they must be this voter's own.
/// * **Purpose against authority.** A submission under an existing session
///   needs a role that may relay a client's work. Establishing a session
///   needs a role that may say who a credential belongs to, which is
///   strictly narrower; whether `role` may is the role vocabulary's to say,
///   and arrives as `issues_sessions`.
///
/// Nothing here decides whether the session exists, whether the rule is
/// still enabled, or whether the receipt was already consumed.
pub fn admitted_from_submit(
    role: PeerRole,
    issues_sessions: bool,
    frame: &Frame,
    cluster: ClusterId,
    domain: DomainId,
) -> (r: Result<AdmittedRequest, IngressError>)
    ensures
        match r {
            Ok(a) => admission_in(role, issues_sessions, frame@, cluster, domain) == Ok::<
                AdmittedView,
                IngressError,
            >(a@),
            Err(e) => admission_in(role, issues_sessions, frame@, cluster, domain) == Err::<
                AdmittedView,
                IngressError,
            >(e),
        },
{
    let submit = match decode_submit(frame) {
        Ok(s) => s,
        Err(e) => {
            return Err(IngressError::Wire(e));
        },
    };
    let attested = submit.receipt.attested;
    if attested.cluster != cluster || attested.domain != domain {
        return Err(
            IngressError::WrongOrigin { cluster: attested.cluster, domain: attested.domain },
        );
    }
    match submit.receipt.purpose {
        AdmissionPurpose::Submit => {
            if !role.may_submit_for_clients() {
                return Err(IngressError::RoleNotAuthorized(role));
            }
        },
        AdmissionPurpose::Establish => {
            if !issues_sessions {
                return Err(IngressError::NotASessionIssuer(role));
            }
        },
    }
    Ok(AdmittedRequest { receipt: submit.receipt, request: Some(submit.request) })
}

/// Role-scoped collector access never becomes a general request path: a
/// client's work is admitted only from a collector role, a session is
/// established only by a role that may, and only for this cluster and domain.
pub proof fn lemma_only_collectors_submit(
    role: PeerRole,
    issues_sessions: bool,
    frame: FrameView,
    cluster: ClusterId,
    domain: DomainId,
)
    requires
        admission_in(role, issues_sessions, frame, cluster, domain) is Ok,
    ensures
        ({
            let receipt = admission_in(role, issues_sessions, frame, cluster, domain)->Ok_0.receipt;
            &&& receipt.attested.cluster == cluster
            &&& receipt.attested.domain == domain
            &&& receipt.purpose == AdmissionPurpose::Submit ==> role == PeerRole::Frontend || role
                == PeerRole::KineCollector
            &&& receipt.purpose == AdmissionPurpose::Establish ==> issues_sessions
        }),
{
}

/// The frame of an effect that addresses the collector.
pub open spec fn frame_for(limits: WireLimits, effect: EffectView, frontend: PeerId) -> Option<
    Result<FrameView, CollectorWireError>,
> {
    match effect {
        EffectView::Publish(send) => if send.to == frontend {
            Some(framed(limits, KIND_EVIDENCE, send.frame))
        } else {
            None
        },
        EffectView::Released(released) => Some(
            framed(limits, KIND_RELEASE, ReleasedResult::wire(released)),
        ),
        _ => None,
    }
}

/// The frame a voter sends to its collector for `effect`, when the effect
/// addresses the collector: evidence published to the frontend peer
/// identity, or a released result. Everything else is not the collector's.
pub fn frontend_frame(limits: &WireLimits, effect: &Effect, frontend: PeerId) -> (r: Option<
    Result<Frame, CollectorWireError>,
>)
    ensures
        match r {
            Some(f) => frame_for(*limits, effect@, frontend) == Some(frame_result(f)),
            None => frame_for(*limits, effect@, frontend) is None,
        },
{
    match effect {
        Effect::Publish(send) => {
            if send.to == frontend {
                Some(evidence_frame_from_bytes(limits, send.frame.as_slice()))
            } else {
                None
            }
        },
        Effect::Released(released) => Some(release_frame(limits, released)),
        _ => None,
    }
}

/// Encode a released result for the collector (the leader's release gate
/// output).
pub fn released_frame(limits: &WireLimits, released: &ReleasedResult) -> (r: Result<
    Frame,
    CollectorWireError,
>)
    ensures
        frame_result(r) == framed(*limits, KIND_RELEASE, ReleasedResult::wire(released@)),
{
    release_frame(limits, released)
}

} // verus!
