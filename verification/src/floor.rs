//! Quorum-certified checkpoint floors.
//!
//! 1. **Prepare.** Somebody proposes a [`FloorCandidate`]: a configuration
//!    epoch, an executed prefix, and a subject digest that binds
//!    everything else about the checkpoint. Two candidates that differ in
//!    any of those are different floors, however close their positions.
//! 2. **Readiness.** A voter records [`Readiness`] only when it durably
//!    holds the complete checkpoint the subject names. Recording it is a
//!    promise: this voter will never again vote from a baseline below that
//!    position. A [`ReadinessLedger`] moves up, it never moves down, and it
//!    never holds two subjects at one position.
//! 3. **Activation.** A majority of the epoch's voters with readiness for
//!    the *same* candidate is an [`ActivatedFloor`].
//! 4. **Discovery.** Every permitted recovery reads reports from a majority
//!    of the same voter set. Two majorities of one set intersect, so a
//!    recovery always sees at least one signer of the highest activated
//!    floor: [`discover`] selects it.
//! 5. **Fence.** Once a floor is durable here, a delayed message about
//!    state at or below it is answered from the retained common outcome.
//!    The protocol rows that trimming removed never come back.
//!
//! A floor is not a ballot artifact: it belongs to a configuration and
//! outlives every term in it, so nothing here consults a ballot or its
//! leader. And copying a snapshot to a majority is not activation: what is
//! counted is the durable promise, not possession.

use vstd::prelude::*;

use crate::ids::{ConfigurationEpoch, Digest32, ExecutionPosition, ReplicaId};
use crate::ordered::{Dup, OrdSet};
use crate::quorum::{EpochVoters, EpochVotersView, lemma_majorities_intersect, majority_of};

verus! {

/// What one floor names.
#[derive(Clone, Copy, Debug, PartialEq, Eq, Hash, Structural)]
pub struct FloorCandidate {
    /// Configuration the floor belongs to.
    pub epoch: ConfigurationEpoch,
    /// Executed prefix the checkpoint covers, and at or below which
    /// protocol state may be forgotten.
    pub position: ExecutionPosition,
    /// Digest binding everything else about the checkpoint.
    pub subject: Digest32,
}

/// One voter's durable readiness for a candidate: evidence of a promise,
/// never of possession.
#[derive(Clone, Copy, Debug, PartialEq, Eq, Structural)]
pub struct Readiness {
    /// The voter that promised.
    pub voter: ReplicaId,
    /// What it promised about.
    pub candidate: FloorCandidate,
}

/// Why a voter could not record readiness.
#[derive(Clone, Copy, Debug, PartialEq, Eq, Structural)]
pub enum ReadinessError {
    /// The candidate belongs to another configuration.
    EpochMismatch,
    /// This replica does not vote in the epoch. An observer holds
    /// catch-up state, not obligations, and certifies nothing.
    NotAVoter,
    /// The candidate is below what this voter already promised.
    Regression {
        /// What it already holds.
        held: FloorCandidate,
    },
    /// Another subject at the position this voter is already ready for.
    Competing {
        /// What it already holds.
        held: FloorCandidate,
    },
}

/// One voter's durable readiness row.
#[derive(Clone, Copy, Debug, PartialEq, Eq, Structural)]
pub struct ReadinessLedger {
    voter: ReplicaId,
    epoch: ConfigurationEpoch,
    held: Option<FloorCandidate>,
}

/// What a readiness row says.
pub struct ReadinessView {
    /// The voter.
    pub voter: ReplicaId,
    /// Its configuration.
    pub epoch: ConfigurationEpoch,
    /// What it has promised, if anything.
    pub held: Option<FloorCandidate>,
}

impl View for ReadinessLedger {
    type V = ReadinessView;

    closed spec fn view(&self) -> ReadinessView {
        ReadinessView { voter: self.voter, epoch: self.epoch, held: self.held }
    }
}

impl ReadinessView {
    /// Why `candidate` cannot be recorded, if it cannot.
    pub open spec fn refusal(
        self,
        voters: EpochVotersView,
        candidate: FloorCandidate,
    ) -> Option<ReadinessError> {
        if candidate.epoch != self.epoch || voters.epoch != self.epoch {
            Some(ReadinessError::EpochMismatch)
        } else if !voters.voters.contains(self.voter) {
            Some(ReadinessError::NotAVoter)
        } else {
            match self.held {
                None => None,
                Some(held) => if candidate == held {
                    None
                } else if candidate.position.0 < held.position.0 {
                    Some(ReadinessError::Regression { held })
                } else if candidate.position.0 == held.position.0 {
                    Some(ReadinessError::Competing { held })
                } else {
                    None
                },
            }
        }
    }

    /// The row after `candidate` was offered.
    pub open spec fn offered(self, voters: EpochVotersView, candidate: FloorCandidate) -> Self {
        if self.refusal(voters, candidate) is None {
            ReadinessView { held: Some(candidate), ..self }
        } else {
            self
        }
    }

    /// The row binds its voter to `candidate`: it holds it, or one above.
    pub open spec fn bound_by(self, candidate: FloorCandidate) -> bool {
        self.held is Some && (self.held->0 == candidate || self.held->0.position.0
            > candidate.position.0)
    }
}

/// A promise only moves up: whatever is offered next, a voter stays bound by
/// every candidate it recorded, and it never becomes ready for another
/// subject at the position of one of them.
pub proof fn lemma_readiness_never_regresses(
    row: ReadinessView,
    voters: EpochVotersView,
    promised: FloorCandidate,
    next: FloorCandidate,
)
    ensures
        row.refusal(voters, promised) is None ==> row.offered(voters, promised).bound_by(promised),
        row.bound_by(promised) ==> row.offered(voters, next).bound_by(promised),
        row.bound_by(promised) && row.refusal(voters, next) is None && next.position
            == promised.position ==> next == promised,
        row.bound_by(promised) && row.refusal(voters, next) is None ==> next.position.0
            >= promised.position.0,
{
}

impl ReadinessLedger {
    /// An empty ledger for `voter` in `epoch`.
    pub fn new(voter: ReplicaId, epoch: ConfigurationEpoch) -> (r: Self)
        ensures
            r@ == (ReadinessView { voter, epoch, held: None }),
    {
        ReadinessLedger { voter, epoch, held: None }
    }

    /// Rebuild from a durable row.
    pub fn recovered(
        voter: ReplicaId,
        epoch: ConfigurationEpoch,
        held: Option<FloorCandidate>,
    ) -> (r: Self)
        ensures
            r@ == (ReadinessView { voter, epoch, held }),
    {
        ReadinessLedger { voter, epoch, held }
    }

    /// What this voter has promised, if anything.
    pub fn held(&self) -> (r: Option<FloorCandidate>)
        ensures
            r == self@.held,
    {
        self.held
    }

    /// The baseline this voter may not vote from below.
    pub fn floor(&self) -> (r: ExecutionPosition)
        ensures
            r == (match self@.held {
                Some(c) => c.position,
                None => ExecutionPosition(0),
            }),
    {
        match self.held {
            Some(c) => c.position,
            None => ExecutionPosition(0),
        }
    }

    /// Record readiness for `candidate`, returning the evidence a
    /// certificate counts.
    ///
    /// Repeating the candidate already held succeeds and changes nothing:
    /// promising the same thing twice is the same promise. That is what
    /// makes a retry after a lost reply safe.
    pub fn record(&mut self, voters: &EpochVoters, candidate: FloorCandidate) -> (r: Result<
        Readiness,
        ReadinessError,
    >)
        ensures
            final(self)@ == old(self)@.offered(voters@, candidate),
            match old(self)@.refusal(voters@, candidate) {
                Some(e) => r == Err::<Readiness, ReadinessError>(e),
                None => r == Ok::<Readiness, ReadinessError>(
                    Readiness { voter: old(self)@.voter, candidate },
                ),
            },
    {
        if candidate.epoch != self.epoch || voters.epoch() != self.epoch {
            return Err(ReadinessError::EpochMismatch);
        }
        if !voters.is_voter(&self.voter) {
            return Err(ReadinessError::NotAVoter);
        }
        if let Some(held) = self.held {
            if candidate == held {
                return Ok(Readiness { voter: self.voter, candidate });
            }
            if candidate.position.0 < held.position.0 {
                return Err(ReadinessError::Regression { held });
            }
            if candidate.position.0 == held.position.0 {
                return Err(ReadinessError::Competing { held });
            }
        }
        self.held = Some(candidate);
        Ok(Readiness { voter: self.voter, candidate })
    }
}

/// Why readiness did not certify a floor.
#[derive(Clone, Copy, Debug, PartialEq, Eq, Structural)]
pub enum ActivationError {
    /// Nothing was offered.
    Empty,
    /// A candidate belongs to another configuration.
    EpochMismatch,
    /// A signature came from a replica that does not vote here.
    NotAVoter {
        /// The sender.
        replica: ReplicaId,
    },
    /// The readiness offered is not all for one candidate. A certificate
    /// is evidence about one floor; merging two would certify a position
    /// no majority ever agreed on.
    Divided,
    /// Fewer than a majority of the epoch's voters are ready.
    NoQuorum {
        /// Distinct voters offered.
        have: usize,
        /// Signatures a certificate needs.
        need: usize,
    },
}

/// A floor a majority of the configuration's voters has certified.
#[derive(Debug)]
pub struct ActivatedFloor {
    candidate: FloorCandidate,
    signers: OrdSet<ReplicaId>,
}

/// What a certified floor states.
#[verifier::ext_equal]
pub struct ActivatedView {
    /// What was certified.
    pub candidate: FloorCandidate,
    /// The voters that promised.
    pub signers: Set<ReplicaId>,
}

impl View for ActivatedFloor {
    type V = ActivatedView;

    closed spec fn view(&self) -> ActivatedView {
        ActivatedView { candidate: self.candidate, signers: self.signers@ }
    }
}

impl Dup for ActivatedFloor {
    fn dup(&self) -> (r: Self) {
        ActivatedFloor { candidate: self.candidate, signers: self.signers.dup() }
    }
}

/// What a delayed message about some execution position may do under an
/// activated floor.
#[derive(Clone, Copy, Debug, PartialEq, Eq, Structural)]
pub enum FenceVerdict {
    /// Above the floor: handled as any other message.
    Ordinary,
    /// At or below the floor: answered from the retained common outcome.
    /// The protocol rows trimming removed are never re-created, whatever
    /// the message asks for.
    Retained,
}

impl ActivatedFloor {
    /// What was certified.
    pub fn candidate(&self) -> (r: FloorCandidate)
        ensures
            r == self@.candidate,
    {
        self.candidate
    }

    /// The executed prefix at or below which protocol state may be
    /// forgotten.
    pub fn position(&self) -> (r: ExecutionPosition)
        ensures
            r == self@.candidate.position,
    {
        self.candidate.position
    }

    /// The checkpoint identity every signer agreed on.
    pub fn subject(&self) -> (r: Digest32)
        ensures
            r == self@.candidate.subject,
    {
        self.candidate.subject
    }

    /// The configuration this floor belongs to.
    pub fn epoch(&self) -> (r: ConfigurationEpoch)
        ensures
            r == self@.candidate.epoch,
    {
        self.candidate.epoch
    }

    /// The voters that promised. Retained in the certificate because a
    /// floor's authority is the promises behind it.
    pub fn signers(&self) -> (r: &OrdSet<ReplicaId>)
        ensures
            r@ == self@.signers,
    {
        &self.signers
    }

    /// Whether a replica whose durable baseline is `baseline` may vote
    /// under this floor.
    pub fn admits_voter(&self, baseline: ExecutionPosition) -> (r: bool)
        ensures
            r == (baseline.0 >= self@.candidate.position.0),
    {
        baseline.0 >= self.candidate.position.0
    }

    /// What a message about `position` may do.
    pub fn verdict(&self, position: ExecutionPosition) -> (r: FenceVerdict)
        ensures
            r == (if position.0 <= self@.candidate.position.0 {
                FenceVerdict::Retained
            } else {
                FenceVerdict::Ordinary
            }),
    {
        if position.0 <= self.candidate.position.0 {
            FenceVerdict::Retained
        } else {
            FenceVerdict::Ordinary
        }
    }
}

/// The voters of readiness records.
pub open spec fn readiness_voters(ready: Seq<Readiness>) -> Set<ReplicaId>
    decreases ready.len(),
{
    if ready.len() == 0 {
        Set::empty()
    } else {
        readiness_voters(ready.drop_last()).insert(ready.last().voter)
    }
}

/// What is wrong with one offered readiness.
pub open spec fn offer_defect(
    voters: EpochVotersView,
    candidate: FloorCandidate,
    offered: Readiness,
) -> Option<ActivationError> {
    if offered.candidate.epoch != voters.epoch {
        Some(ActivationError::EpochMismatch)
    } else if offered.candidate != candidate {
        Some(ActivationError::Divided)
    } else if !voters.voters.contains(offered.voter) {
        Some(ActivationError::NotAVoter { replica: offered.voter })
    } else {
        None
    }
}

/// The first thing wrong with the offers.
pub open spec fn first_offer_defect(
    voters: EpochVotersView,
    candidate: FloorCandidate,
    ready: Seq<Readiness>,
) -> Option<ActivationError>
    decreases ready.len(),
{
    if ready.len() == 0 {
        None
    } else {
        let earlier = first_offer_defect(voters, candidate, ready.drop_last());
        if earlier is Some {
            earlier
        } else {
            offer_defect(voters, candidate, ready.last())
        }
    }
}

/// The floor these offers certify, or why they certify none.
pub open spec fn activation(voters: EpochVotersView, ready: Seq<Readiness>) -> Result<
    ActivatedView,
    ActivationError,
> {
    if ready.len() == 0 {
        Err(ActivationError::Empty)
    } else {
        let candidate = ready[0].candidate;
        match first_offer_defect(voters, candidate, ready) {
            Some(e) => Err(e),
            None => {
                let signers = readiness_voters(ready);
                let need = majority_of(voters.voters.len());
                if signers.len() < need {
                    Err(
                        ActivationError::NoQuorum {
                            have: signers.len() as usize,
                            need: need as usize,
                        },
                    )
                } else {
                    Ok(ActivatedView { candidate, signers })
                }
            },
        }
    }
}

proof fn lemma_offer_prefix(
    voters: EpochVotersView,
    candidate: FloorCandidate,
    ready: Seq<Readiness>,
    n: int,
)
    requires
        0 <= n <= ready.len(),
    ensures
        first_offer_defect(voters, candidate, ready.take(n)) is Some ==> first_offer_defect(
            voters,
            candidate,
            ready,
        ) == first_offer_defect(voters, candidate, ready.take(n)),
    decreases ready.len() - n,
{
    if n < ready.len() {
        lemma_offer_prefix(voters, candidate, ready, n + 1);
        assert(ready.take(n + 1).drop_last() =~= ready.take(n));
    } else {
        assert(ready.take(n) =~= ready);
    }
}

/// Certify `ready` as a floor of `voters`.
///
/// Every offered readiness must name one candidate of this epoch and come
/// from a voter of it; duplicates from one voter count once. A majority
/// certifies.
pub fn activate(voters: &EpochVoters, ready: &Vec<Readiness>) -> (r: Result<
    ActivatedFloor,
    ActivationError,
>)
    ensures
        match r {
            Ok(floor) => activation(voters@, ready@) == Ok::<ActivatedView, ActivationError>(
                floor@,
            ),
            Err(e) => activation(voters@, ready@) == Err::<ActivatedView, ActivationError>(e),
        },
{
    if ready.len() == 0 {
        return Err(ActivationError::Empty);
    }
    let candidate = ready[0].candidate;
    let mut signers: OrdSet<ReplicaId> = OrdSet::new();
    let mut i: usize = 0;
    while i < ready.len()
        invariant
            i <= ready@.len(),
            ready@.len() > 0,
            candidate == ready@[0].candidate,
            signers@ == readiness_voters(ready@.take(i as int)),
            first_offer_defect(voters@, candidate, ready@.take(i as int)) is None,
        decreases ready@.len() - i,
    {
        let offered = ready[i];
        proof {
            assert(ready@.take(i + 1).drop_last() =~= ready@.take(i as int));
            lemma_offer_prefix(voters@, candidate, ready@, i + 1);
        }
        if offered.candidate.epoch != voters.epoch() {
            return Err(ActivationError::EpochMismatch);
        }
        if offered.candidate != candidate {
            return Err(ActivationError::Divided);
        }
        if !voters.is_voter(&offered.voter) {
            return Err(ActivationError::NotAVoter { replica: offered.voter });
        }
        signers.insert(offered.voter);
        i = i + 1;
    }
    proof {
        assert(ready@.take(ready@.len() as int) =~= ready@);
    }
    let need: usize = voters.majority();
    if signers.len() < need {
        return Err(ActivationError::NoQuorum { have: signers.len(), need });
    }
    Ok(ActivatedFloor { candidate, signers })
}

proof fn lemma_readiness_voters(ready: Seq<Readiness>)
    ensures
        readiness_voters(ready).finite(),
        forall|v: ReplicaId| #[trigger]
            readiness_voters(ready).contains(v) <==> exists|i: int|
                0 <= i < ready.len() && (#[trigger] ready[i]).voter == v,
    decreases ready.len(),
{
    if ready.len() > 0 {
        let before = ready.drop_last();
        let n = ready.len() - 1;
        lemma_readiness_voters(before);
        assert forall|v: ReplicaId| #[trigger]
            readiness_voters(ready).contains(v) <==> exists|i: int|
                0 <= i < ready.len() && (#[trigger] ready[i]).voter == v by {
            if readiness_voters(before).contains(v) {
                let i = choose|i: int| 0 <= i < before.len() && (#[trigger] before[i]).voter == v;
                assert(ready[i].voter == v);
            }
            if exists|i: int| 0 <= i < ready.len() && (#[trigger] ready[i]).voter == v {
                let i = choose|i: int| 0 <= i < ready.len() && (#[trigger] ready[i]).voter == v;
                if i < n {
                    assert(before[i].voter == v);
                }
            }
            assert(ready[n] == ready.last());
        }
    }
}

proof fn lemma_offers_clean(
    voters: EpochVotersView,
    candidate: FloorCandidate,
    ready: Seq<Readiness>,
)
    requires
        first_offer_defect(voters, candidate, ready) is None,
    ensures
        forall|i: int|
            0 <= i < ready.len() ==> (#[trigger] ready[i]).candidate == candidate
                && voters.voters.contains(ready[i].voter),
    decreases ready.len(),
{
    if ready.len() > 0 {
        let before = ready.drop_last();
        lemma_offers_clean(voters, candidate, before);
        assert forall|i: int| 0 <= i < ready.len() implies (#[trigger] ready[i]).candidate
            == candidate && voters.voters.contains(ready[i].voter) by {
            if i < before.len() {
                assert(before[i].candidate == candidate);
            }
        }
    }
}

/// A certified floor has a majority of the voters behind it.
pub proof fn lemma_activation_needs_a_majority(voters: EpochVotersView, ready: Seq<Readiness>)
    requires
        activation(voters, ready) is Ok,
    ensures
        activation(voters, ready)->Ok_0.signers.subset_of(voters.voters),
        activation(voters, ready)->Ok_0.signers.len() >= majority_of(voters.voters.len()),
        forall|v: ReplicaId| #[trigger]
            activation(voters, ready)->Ok_0.signers.contains(v) ==> exists|i: int|
                0 <= i < ready.len() && (#[trigger] ready[i]).voter == v && ready[i].candidate
                    == activation(voters, ready)->Ok_0.candidate,
{
    let candidate = ready[0].candidate;
    lemma_offers_clean(voters, candidate, ready);
    lemma_readiness_voters(ready);
    assert forall|v: ReplicaId| #[trigger]
        activation(voters, ready)->Ok_0.signers.contains(v) implies exists|i: int|
        0 <= i < ready.len() && (#[trigger] ready[i]).voter == v && ready[i].candidate
            == activation(voters, ready)->Ok_0.candidate by {
        let i = choose|i: int| 0 <= i < ready.len() && (#[trigger] ready[i]).voter == v;
        assert(ready[i].candidate == candidate);
    }
}

/// At most one subject is ever certified at a position: two certificates
/// share a signer, and a voter that signs two candidates at one position
/// signed the same one twice.
pub proof fn lemma_one_floor_per_position(
    voters: EpochVotersView,
    left: Seq<Readiness>,
    right: Seq<Readiness>,
)
    requires
        voters.voters.finite(),
        activation(voters, left) is Ok,
        activation(voters, right) is Ok,
        activation(voters, left)->Ok_0.candidate.position == activation(
            voters,
            right,
        )->Ok_0.candidate.position,
        forall|i: int, j: int|
            0 <= i < left.len() && 0 <= j < right.len() && (#[trigger] left[i]).voter == (
            #[trigger] right[j]).voter && left[i].candidate.position == right[j].candidate.position
                ==> left[i].candidate == right[j].candidate,
    ensures
        activation(voters, left)->Ok_0.candidate == activation(voters, right)->Ok_0.candidate,
{
    lemma_activation_needs_a_majority(voters, left);
    lemma_activation_needs_a_majority(voters, right);
    let a = activation(voters, left)->Ok_0;
    let b = activation(voters, right)->Ok_0;
    let v = lemma_majorities_intersect(voters.voters, a.signers, b.signers);
    let i = choose|i: int|
        0 <= i < left.len() && (#[trigger] left[i]).voter == v && left[i].candidate == a.candidate;
    let j = choose|j: int|
        0 <= j < right.len() && (#[trigger] right[j]).voter == v && right[j].candidate
            == b.candidate;
    assert(left[i].candidate == right[j].candidate);
}

/// Two activated floors of one configuration disagreed at one position.
///
/// It is a typed outcome rather than a panic because discovery reads what
/// other replicas report, and what another replica reports is evidence to
/// check, not a fact.
#[derive(Clone, Copy, Debug, PartialEq, Eq, Structural)]
pub struct FloorConflict {
    /// The contested position.
    pub position: ExecutionPosition,
    /// One subject certified there.
    pub left: Digest32,
    /// The other.
    pub right: Digest32,
}

/// What a recovery learned from the readiness a majority reported.
///
/// `subjects` holds more than one only when voters at that position are
/// ready for different checkpoints, which is legitimate while none of them
/// has been certified.
#[derive(Debug)]
pub struct Discovered {
    /// Highest position any report is ready for.
    pub position: ExecutionPosition,
    /// The distinct subjects reported at that position.
    pub subjects: OrdSet<Digest32>,
}

/// What was discovered.
#[verifier::ext_equal]
pub struct DiscoveredView {
    /// Highest position any report is ready for.
    pub position: ExecutionPosition,
    /// The distinct subjects reported at that position.
    pub subjects: Set<Digest32>,
}

impl View for Discovered {
    type V = DiscoveredView;

    open spec fn view(&self) -> DiscoveredView {
        DiscoveredView { position: self.position, subjects: self.subjects@ }
    }
}

impl Discovered {
    /// The one subject, when the reports agree on it.
    pub fn subject(&self) -> (r: Option<Digest32>)
        ensures
            r is Some <==> self@.subjects.len() == 1,
            r is Some ==> self@.subjects.contains(r->0),
    {
        if self.subjects.len() == 1 {
            Some(*self.subjects.at(0))
        } else {
            None
        }
    }
}

/// The highest position reported.
pub open spec fn highest_position(reports: Seq<Readiness>) -> u64
    decreases reports.len(),
{
    if reports.len() == 0 {
        0
    } else {
        let before = highest_position(reports.drop_last());
        let last = reports.last().candidate.position.0;
        if last > before {
            last
        } else {
            before
        }
    }
}

/// The subjects reported at a position.
pub open spec fn subjects_at(reports: Seq<Readiness>, position: u64) -> Set<Digest32>
    decreases reports.len(),
{
    if reports.len() == 0 {
        Set::empty()
    } else {
        let before = subjects_at(reports.drop_last(), position);
        if reports.last().candidate.position.0 == position {
            before.insert(reports.last().candidate.subject)
        } else {
            before
        }
    }
}

/// The floor a recovery discovers from the readiness a majority reported.
///
/// Readiness is what is read, not certificates. A signer promised before
/// any certificate existed and keeps the promise whether or not it ever saw
/// one, so the promises are the evidence that is actually guaranteed to be
/// there.
pub fn discover(reports: &Vec<Readiness>) -> (r: Option<Discovered>)
    ensures
        r is Some <==> reports@.len() > 0,
        r is Some ==> r->0@ == (DiscoveredView {
            position: ExecutionPosition(highest_position(reports@)),
            subjects: subjects_at(reports@, highest_position(reports@)),
        }),
{
    if reports.len() == 0 {
        return None;
    }
    let mut position: u64 = 0;
    let mut i: usize = 0;
    while i < reports.len()
        invariant
            i <= reports@.len(),
            position == highest_position(reports@.take(i as int)),
        decreases reports@.len() - i,
    {
        proof {
            assert(reports@.take(i + 1).drop_last() =~= reports@.take(i as int));
        }
        if reports[i].candidate.position.0 > position {
            position = reports[i].candidate.position.0;
        }
        i = i + 1;
    }
    proof {
        assert(reports@.take(reports@.len() as int) =~= reports@);
    }
    let mut subjects: OrdSet<Digest32> = OrdSet::new();
    let mut j: usize = 0;
    while j < reports.len()
        invariant
            j <= reports@.len(),
            subjects@ == subjects_at(reports@.take(j as int), position),
        decreases reports@.len() - j,
    {
        proof {
            assert(reports@.take(j + 1).drop_last() =~= reports@.take(j as int));
        }
        if reports[j].candidate.position.0 == position {
            subjects.insert(reports[j].candidate.subject);
        }
        j = j + 1;
    }
    proof {
        assert(reports@.take(reports@.len() as int) =~= reports@);
    }
    Some(Discovered { position: ExecutionPosition(position), subjects })
}

proof fn lemma_highest_position(reports: Seq<Readiness>)
    ensures
        forall|i: int|
            0 <= i < reports.len() ==> (#[trigger] reports[i]).candidate.position.0
                <= highest_position(reports),
    decreases reports.len(),
{
    if reports.len() > 0 {
        let before = reports.drop_last();
        lemma_highest_position(before);
        assert forall|i: int| 0 <= i < reports.len() implies (
        #[trigger] reports[i]).candidate.position.0 <= highest_position(reports) by {
            if i < before.len() {
                assert(before[i].candidate.position.0 <= highest_position(before));
            }
        }
    }
}

/// A recovery that reads a majority always discovers the certified floor:
/// some report is a signer's, and a signer never promises less again.
pub proof fn lemma_discovery_cannot_miss(
    voters: EpochVotersView,
    ready: Seq<Readiness>,
    reports: Seq<Readiness>,
)
    requires
        voters.voters.finite(),
        activation(voters, ready) is Ok,
        readiness_voters(reports).subset_of(voters.voters),
        readiness_voters(reports).len() >= majority_of(voters.voters.len()),
        forall|i: int|
            0 <= i < reports.len() && activation(voters, ready)->Ok_0.signers.contains(
                (#[trigger] reports[i]).voter,
            ) ==> reports[i].candidate.position.0 >= activation(
                voters,
                ready,
            )->Ok_0.candidate.position.0,
    ensures
        reports.len() > 0,
        highest_position(reports) >= activation(voters, ready)->Ok_0.candidate.position.0,
{
    lemma_activation_needs_a_majority(voters, ready);
    lemma_readiness_voters(reports);
    lemma_highest_position(reports);
    let floor = activation(voters, ready)->Ok_0;
    let v = lemma_majorities_intersect(voters.voters, floor.signers, readiness_voters(reports));
    let i = choose|i: int| 0 <= i < reports.len() && (#[trigger] reports[i]).voter == v;
    assert(reports[i].candidate.position.0 >= floor.candidate.position.0);
}

/// What installing a floor did.
#[derive(Clone, Copy, Debug, PartialEq, Eq, Structural)]
pub enum FloorInstall {
    /// The held floor advanced.
    Advanced,
    /// Already at or above it. A late certificate for an older floor is
    /// ordinary traffic, not an error, and it never lowers what is held.
    AlreadyCovered,
}

/// The activated floor one replica holds. Never lowered.
#[derive(Debug)]
pub struct FloorLedger {
    epoch: ConfigurationEpoch,
    held: Option<ActivatedFloor>,
}

/// What a floor ledger holds.
#[verifier::ext_equal]
pub struct FloorLedgerView {
    /// Its configuration.
    pub epoch: ConfigurationEpoch,
    /// The floor held, if any.
    pub held: Option<ActivatedView>,
}

/// An optional floor.
pub open spec fn floor_view(f: Option<ActivatedFloor>) -> Option<ActivatedView> {
    match f {
        Some(f) => Some(f@),
        None => None,
    }
}

impl View for FloorLedger {
    type V = FloorLedgerView;

    closed spec fn view(&self) -> FloorLedgerView {
        FloorLedgerView { epoch: self.epoch, held: floor_view(self.held) }
    }
}

impl FloorLedgerView {
    /// The executed prefix that may be forgotten at or below.
    pub open spec fn position(self) -> u64 {
        match self.held {
            Some(f) => f.candidate.position.0,
            None => 0,
        }
    }

    /// What installing `floor` does.
    pub open spec fn installing(self, floor: ActivatedView) -> Result<FloorInstall, FloorConflict> {
        if floor.candidate.epoch != self.epoch {
            Ok(FloorInstall::AlreadyCovered)
        } else {
            match self.held {
                Some(held) => if held.candidate.position.0 > floor.candidate.position.0 {
                    Ok(FloorInstall::AlreadyCovered)
                } else if held.candidate.position.0 == floor.candidate.position.0 {
                    if held.candidate.subject == floor.candidate.subject {
                        Ok(FloorInstall::AlreadyCovered)
                    } else {
                        Err(
                            FloorConflict {
                                position: held.candidate.position,
                                left: held.candidate.subject,
                                right: floor.candidate.subject,
                            },
                        )
                    }
                } else {
                    Ok(FloorInstall::Advanced)
                },
                None => Ok(FloorInstall::Advanced),
            }
        }
    }

    /// The ledger after `floor` was offered.
    pub open spec fn offered(self, floor: ActivatedView) -> Self {
        if self.installing(floor) == Ok::<FloorInstall, FloorConflict>(FloorInstall::Advanced) {
            FloorLedgerView { held: Some(floor), ..self }
        } else {
            self
        }
    }
}

/// The floor a replica holds is never lowered, whatever it is offered.
pub proof fn lemma_floor_never_lowered(ledger: FloorLedgerView, floor: ActivatedView)
    ensures
        ledger.offered(floor).position() >= ledger.position(),
        ledger.held is Some ==> ledger.offered(floor).held is Some,
{
}

impl FloorLedger {
    /// An empty ledger for `epoch`.
    pub fn new(epoch: ConfigurationEpoch) -> (r: Self)
        ensures
            r@ == (FloorLedgerView { epoch, held: None }),
    {
        FloorLedger { epoch, held: None }
    }

    /// Rebuild from a durable certificate.
    pub fn recovered(epoch: ConfigurationEpoch, held: Option<ActivatedFloor>) -> (r: Self)
        ensures
            r@ == (FloorLedgerView { epoch, held: floor_view(held) }),
    {
        FloorLedger { epoch, held }
    }

    /// The floor held, if any.
    pub fn held(&self) -> (r: Option<&ActivatedFloor>)
        ensures
            r is Some <==> self@.held is Some,
            r is Some ==> r->0@ == self@.held->0,
    {
        match &self.held {
            Some(f) => Some(f),
            None => None,
        }
    }

    /// The executed prefix this replica may forget at or below.
    pub fn position(&self) -> (r: ExecutionPosition)
        ensures
            r.0 == self@.position(),
    {
        match &self.held {
            Some(f) => f.position(),
            None => ExecutionPosition(0),
        }
    }

    /// Install `floor`, keeping the higher of the two.
    pub fn install(&mut self, floor: ActivatedFloor) -> (r: Result<FloorInstall, FloorConflict>)
        ensures
            r == old(self)@.installing(floor@),
            final(self)@ == old(self)@.offered(floor@),
    {
        if floor.epoch() != self.epoch {
            return Ok(FloorInstall::AlreadyCovered);
        }
        if let Some(held) = &self.held {
            if held.position().0 > floor.position().0 {
                return Ok(FloorInstall::AlreadyCovered);
            }
            if held.position().0 == floor.position().0 {
                if held.subject() == floor.subject() {
                    return Ok(FloorInstall::AlreadyCovered);
                }
                return Err(
                    FloorConflict {
                        position: held.position(),
                        left: held.subject(),
                        right: floor.subject(),
                    },
                );
            }
        }
        self.held = Some(floor);
        Ok(FloorInstall::Advanced)
    }
}

} // verus!
