//! Sealing the evidence of a result, supplied by the caller.
//!
//! Whether evidence is sealed into an established result is decided outside
//! this crate: whoever runs the logic hands the decision in as a function of
//! the evidence. Contracts speak of it through [`sealing_of`].

use vstd::prelude::*;

use crate::effects::{EstablishmentEvidence, EstablishmentView};
use crate::ordered::Dup;

verus! {

/// The evidence of a result was not sealed.
#[derive(Clone, Copy, Debug, PartialEq, Eq)]
pub struct EstablishError;

/// Which evidence is sealed.
pub type Sealing = spec_fn(EstablishmentView) -> bool;

/// `r` is what `seal` may answer for this evidence.
pub open spec fn answers_to<S: Fn(EstablishmentEvidence) -> bool>(
    seal: S,
    evidence: EstablishmentView,
    r: bool,
) -> bool {
    exists|e: EstablishmentEvidence| #[trigger] e@ == evidence && call_ensures(seal, (e,), r)
}

/// `seal` can be called on anything, and equal evidence gives equal answers.
pub open spec fn is_seal<S: Fn(EstablishmentEvidence) -> bool>(seal: S) -> bool {
    &&& forall|e: EstablishmentEvidence| #[trigger] call_requires(seal, (e,))
    &&& forall|evidence: EstablishmentView, a: bool, b: bool|
        #[trigger] answers_to(seal, evidence, a) && #[trigger] answers_to(seal, evidence, b) ==> a
            == b
}

/// This evidence is sealed.
pub closed spec fn sealed_by<S: Fn(EstablishmentEvidence) -> bool>(
    seal: S,
    evidence: EstablishmentView,
) -> bool {
    answers_to(seal, evidence, true)
}

/// Which evidence `seal` seals.
pub open spec fn sealing_of<S: Fn(EstablishmentEvidence) -> bool>(seal: S) -> Sealing {
    |evidence: EstablishmentView| sealed_by(seal, evidence)
}

/// What a call of `seal` answers is whether the evidence is sealed.
pub proof fn lemma_sealed_by<S: Fn(EstablishmentEvidence) -> bool>(
    seal: S,
    evidence: EstablishmentEvidence,
    r: bool,
)
    requires
        is_seal(seal),
        call_ensures(seal, (evidence,), r),
    ensures
        r == sealed_by(seal, evidence@),
{
    assert(answers_to(seal, evidence@, r));
}

/// Ask whether this evidence is sealed.
pub fn is_sealed<S: Fn(EstablishmentEvidence) -> bool>(
    seal: &S,
    evidence: &EstablishmentEvidence,
) -> (r: bool)
    requires
        is_seal(*seal),
    ensures
        r == sealing_of(*seal)(evidence@),
{
    let e = evidence.dup();
    let ghost given = e;
    let r = seal(e);
    proof {
        lemma_sealed_by(*seal, given, r);
    }
    r
}

} // verus!
