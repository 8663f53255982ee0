//! Responses of the frontend that carry no established result. Pending and
//! unknown outcomes are not errors: the outcome is not established yet, or
//! the identity is not known here, and neither says that the command failed.

use vstd::prelude::*;
use vstd::utf8::encode_utf8;

use crate::bytes::copy_bytes;
use crate::client::{
    ErrorCode, OutcomeBody, OutcomeV1, ResponseV1, ResponseView, WireLimits,
};
use crate::ids::CommandId;

verus! {

/// A response whose outcome is not established yet.
pub open spec fn pending_body(command_id: CommandId) -> ResponseView {
    ResponseView { command_id, outcome: OutcomeBody::Pending }
}

/// A response whose outcome is not established yet. Used for resolution of
/// pending work and for a client deadline: the outcome is unknown, never
/// failed.
pub fn pending_response(command_id: CommandId) -> (r: ResponseV1)
    ensures
        r@ == pending_body(command_id),
{
    ResponseV1 { command_id, outcome: OutcomeV1::Pending }
}

/// A response for an identity this endpoint does not know.
pub open spec fn unknown_body(command_id: CommandId) -> ResponseView {
    ResponseView { command_id, outcome: OutcomeBody::Unknown }
}

/// A response for an identity this endpoint does not know.
pub fn unknown_response(command_id: CommandId) -> (r: ResponseV1)
    ensures
        r@ == unknown_body(command_id),
{
    ResponseV1 { command_id, outcome: OutcomeV1::Unknown }
}

/// The first bytes of a detail, as many as an error may carry.
pub open spec fn bounded(detail: Seq<u8>, bound: usize) -> Seq<u8> {
    if detail.len() > bound {
        detail.take(bound as int)
    } else {
        detail
    }
}

/// An error response with a bounded detail.
pub open spec fn error_body(
    limits: WireLimits,
    command_id: CommandId,
    code: ErrorCode,
    detail: Seq<char>,
) -> ResponseView {
    ResponseView {
        command_id,
        outcome: OutcomeBody::Refused {
            code,
            detail: bounded(encode_utf8(detail), limits.reason),
        },
    }
}

/// An error response with a bounded, redacted detail.
pub fn error_response(limits: &WireLimits, command_id: CommandId, code: ErrorCode, detail: &str) -> (r:
    ResponseV1)
    ensures
        r@ == error_body(*limits, command_id, code, detail@),
{
    let mut bytes = copy_bytes(detail.as_bytes());
    if bytes.len() > limits.reason {
        bytes.truncate(limits.reason);
    }
    let r = ResponseV1 { command_id, outcome: OutcomeV1::Refused { code, detail: bytes } };
    proof {
        assert(bytes@ =~= bounded(encode_utf8(detail@), limits.reason));
    }
    r
}

} // verus!
