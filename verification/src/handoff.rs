//! Sealed membership handoff.
//!
//! Membership is a stop-and-transfer extension. The lifecycle is `Stable ->
//! Preparing -> Sealing -> TerminalRecovery -> Installing -> Activating ->
//! Stable`, with a cancellation back to `Stable` that is only available
//! before sealing; this module is the vocabulary, the certificates and,
//! above all, the rule for choosing where a recovering coordinator resumes.
//!
//! The lifecycle name a dead coordinator was holding is not evidence, a
//! missing local record is not evidence, and a timeout is not evidence.
//! [`resume`] takes only durable records that some replica made -- stances,
//! certificates, installations -- and every stage it returns is justified
//! by one of them.
//!
//! * [`SealCertificate`]: a majority of the *old* voters have durably
//!   fenced ordinary voting for the whole old configuration, across
//!   ballots.
//! * [`CancellationCertificate`]: a majority of the old voters have durably
//!   refused the transition instead. A voter records one stance per
//!   transition and never reverses it ([`StanceLedger`]), so a seal and a
//!   cancellation can never both authorize a continuation.
//! * [`TerminalCertificate`]: after the seal, a majority of the old voters
//!   report the same terminal root. Mixed roots are refused rather than
//!   merged, and there is no selection without a seal.
//! * [`ActivationCertificate`]: a majority of the *successor* set have
//!   durably installed that exact terminal root.

use vstd::prelude::*;

use crate::ids::{ConfigurationEpoch, Digest32, ReplicaId};
use crate::ordered::{Dup, OrdSet};
use crate::quorum::{EpochVoters, EpochVotersView, lemma_majorities_intersect, majority_of};

verus! {

/// One membership transition's identity: two transitions differing in
/// anything are different transitions, and a stale attempt is a different
/// subject rather than an older version of this one.
#[derive(Clone, Copy, Debug, PartialEq, Eq, Hash, Structural)]
pub struct Transition {
    /// The configuration being left.
    pub from: ConfigurationEpoch,
    /// The configuration being entered.
    pub to: ConfigurationEpoch,
    /// Digest binding the domain, both epochs and the successor.
    pub subject: Digest32,
}

impl View for Transition {
    type V = Transition;

    open spec fn view(&self) -> Transition {
        *self
    }
}

/// What one old voter durably decided about one transition.
#[derive(Clone, Copy, Debug, PartialEq, Eq, Hash, Structural)]
pub enum Stance {
    /// Ordinary voting is fenced for the whole old configuration, across
    /// every ballot of it. Irreversible.
    Sealed,
    /// This transition is refused. Available only while nothing has
    /// sealed.
    Cancelled,
}

/// One old voter's durable record about one transition.
#[derive(Clone, Copy, Debug, PartialEq, Eq, Hash, Structural)]
pub struct StanceRecord {
    /// The recording voter.
    pub voter: ReplicaId,
    /// The transition it is about.
    pub transition: Transition,
    /// What it decided.
    pub stance: Stance,
}

/// Why a voter could not record a stance.
#[allow(inconsistent_fields)]
#[derive(Clone, Copy, Debug, PartialEq, Eq, Structural)]
pub enum StanceError {
    /// This replica does not vote in the old configuration.
    NotAVoter,
    /// The transition leaves another configuration than this voter's.
    EpochMismatch,
    /// The opposite stance for the transition this voter already decided.
    Reversal {
        /// What it already holds.
        held: Stance,
    },
    /// This voter has sealed, so the old configuration is fenced and the
    /// recorded transition is the one that must be finished.
    Sealed {
        /// The transition it sealed.
        held: Transition,
    },
}

/// One old voter's durable stance row.
#[derive(Clone, Copy, Debug, PartialEq, Eq, Structural)]
pub struct StanceLedger {
    voter: ReplicaId,
    epoch: ConfigurationEpoch,
    held: Option<StanceRecord>,
}

/// What a stance row says.
pub struct StanceView {
    /// The voter.
    pub voter: ReplicaId,
    /// Its configuration.
    pub epoch: ConfigurationEpoch,
    /// What it decided, if anything.
    pub held: Option<StanceRecord>,
}

impl View for StanceLedger {
    type V = StanceView;

    closed spec fn view(&self) -> StanceView {
        StanceView { voter: self.voter, epoch: self.epoch, held: self.held }
    }
}

impl StanceView {
    /// The record this voter would make.
    pub open spec fn would_record(self, transition: Transition, stance: Stance) -> StanceRecord {
        StanceRecord { voter: self.voter, transition, stance }
    }

    /// Why the stance cannot be recorded, if it cannot.
    pub open spec fn refusal(
        self,
        voters: EpochVotersView,
        transition: Transition,
        stance: Stance,
    ) -> Option<StanceError> {
        if !voters.voters.contains(self.voter) {
            Some(StanceError::NotAVoter)
        } else if transition.from != self.epoch || voters.epoch != self.epoch {
            Some(StanceError::EpochMismatch)
        } else {
            match self.held {
                None => None,
                Some(held) => if held == self.would_record(transition, stance) {
                    None
                } else if held.transition == transition {
                    Some(StanceError::Reversal { held: held.stance })
                } else if held.stance == Stance::Sealed {
                    Some(StanceError::Sealed { held: held.transition })
                } else {
                    None
                },
            }
        }
    }

    /// The row after the stance was offered.
    pub open spec fn offered(
        self,
        voters: EpochVotersView,
        transition: Transition,
        stance: Stance,
    ) -> Self {
        if self.refusal(voters, transition, stance) is None {
            StanceView { held: Some(self.would_record(transition, stance)), ..self }
        } else {
            self
        }
    }

    /// This voter's ordinary voting is fenced.
    pub open spec fn fenced(self) -> bool {
        self.held is Some && self.held->0.stance == Stance::Sealed
    }

    /// What the row holds was recorded by its own voter.
    pub open spec fn own(self) -> bool {
        self.held is Some ==> self.held->0.voter == self.voter
    }
}

/// A fence is never cleared: once a voter sealed, every offer leaves its row
/// as it is. And a stance on a transition is never reversed while it is
/// held.
pub proof fn lemma_stance_never_reverses(
    row: StanceView,
    voters: EpochVotersView,
    transition: Transition,
    stance: Stance,
)
    requires
        row.own(),
    ensures
        row.offered(voters, transition, stance).own(),
        row.fenced() ==> row.offered(voters, transition, stance) == row,
        row.held is Some && row.held->0.transition == transition ==> row.offered(
            voters,
            transition,
            stance,
        ).held == row.held,
{
}

impl StanceLedger {
    /// An empty ledger for `voter` of `epoch`.
    pub fn new(voter: ReplicaId, epoch: ConfigurationEpoch) -> (r: Self)
        ensures
            r@ == (StanceView { voter, epoch, held: None }),
    {
        StanceLedger { voter, epoch, held: None }
    }

    /// Rebuild from a durable row.
    pub fn recovered(
        voter: ReplicaId,
        epoch: ConfigurationEpoch,
        held: Option<StanceRecord>,
    ) -> (r: Self)
        ensures
            r@ == (StanceView { voter, epoch, held }),
    {
        StanceLedger { voter, epoch, held }
    }

    /// What this voter holds, if anything.
    pub fn held(&self) -> (r: Option<StanceRecord>)
        ensures
            r == self@.held,
    {
        self.held
    }

    /// Whether this voter's ordinary voting is fenced.
    pub fn fenced(&self) -> (r: bool)
        ensures
            r == self@.fenced(),
    {
        match self.held {
            Some(record) => record.stance == Stance::Sealed,
            None => false,
        }
    }

    /// Record `stance` about `transition`.
    ///
    /// Repeating what is already held succeeds and changes nothing, which
    /// is what makes a retry after a lost reply safe. Everything else that
    /// would change a decision is refused. A cancelled transition released
    /// the domain, so another one may start: its record replaces the
    /// cancellation, which has nothing left to fence.
    pub fn record(
        &mut self,
        voters: &EpochVoters,
        transition: Transition,
        stance: Stance,
    ) -> (r: Result<StanceRecord, StanceError>)
        ensures
            final(self)@ == old(self)@.offered(voters@, transition, stance),
            match old(self)@.refusal(voters@, transition, stance) {
                Some(e) => r == Err::<StanceRecord, StanceError>(e),
                None => r == Ok::<StanceRecord, StanceError>(
                    old(self)@.would_record(transition, stance),
                ),
            },
    {
        if !voters.is_voter(&self.voter) {
            return Err(StanceError::NotAVoter);
        }
        if transition.from != self.epoch || voters.epoch() != self.epoch {
            return Err(StanceError::EpochMismatch);
        }
        let record = StanceRecord { voter: self.voter, transition, stance };
        if let Some(held) = self.held {
            if held == record {
                return Ok(record);
            }
            if held.transition == transition {
                return Err(StanceError::Reversal { held: held.stance });
            }
            if held.stance == Stance::Sealed {
                return Err(StanceError::Sealed { held: held.transition });
            }
        }
        self.held = Some(record);
        Ok(record)
    }
}

/// Why a certificate could not be formed, or a stage could not be chosen.
#[derive(Clone, Copy, Debug, PartialEq, Eq, Structural)]
pub enum HandoffError {
    /// A record came from a replica that does not vote where it must.
    NotAVoter {
        /// The sender.
        replica: ReplicaId,
    },
    /// A record is about another transition.
    WrongTransition,
    /// Fewer than a majority.
    NoQuorum {
        /// Distinct replicas offered.
        have: usize,
        /// A majority of the configuration.
        need: usize,
    },
    /// Terminal reports of one transition disagree about the state. Merged
    /// they would be a history nobody agreed on, so they are refused.
    MixedTerminal,
    /// A terminal certificate was asked for without a durable seal.
    NotSealed,
    /// An installation names a terminal root other than the certificate's.
    WrongTerminalRoot,
    /// A seal and a cancellation both certified one transition. The stance
    /// rules make this unreachable, so finding it is a reason to stop
    /// rather than to choose.
    SealedAndCancelled,
    /// Some voter is fenced by a different transition. A fence belongs to
    /// the configuration, not to whoever started it, so the recorded
    /// transition is the one that must be finished.
    FencedByAnother {
        /// The transition that fenced it.
        held: Transition,
    },
}

/// Voters that took a stance.
pub open spec fn takers(stances: Seq<StanceRecord>, wanted: Stance) -> Set<ReplicaId>
    decreases stances.len(),
{
    if stances.len() == 0 {
        Set::empty()
    } else {
        let before = takers(stances.drop_last(), wanted);
        if stances.last().stance == wanted {
            before.insert(stances.last().voter)
        } else {
            before
        }
    }
}

/// The first record that is no voter's or is about another transition.
pub open spec fn stance_defect(
    voters: EpochVotersView,
    transition: Transition,
    stances: Seq<StanceRecord>,
) -> Option<HandoffError>
    decreases stances.len(),
{
    if stances.len() == 0 {
        None
    } else {
        let earlier = stance_defect(voters, transition, stances.drop_last());
        let last = stances.last();
        if earlier is Some {
            earlier
        } else if !voters.voters.contains(last.voter) {
            Some(HandoffError::NotAVoter { replica: last.voter })
        } else if last.transition != transition {
            Some(HandoffError::WrongTransition)
        } else {
            None
        }
    }
}

/// Fewer than a majority.
pub open spec fn no_quorum(voters: EpochVotersView, have: nat) -> HandoffError {
    HandoffError::NoQuorum {
        have: have as usize,
        need: majority_of(voters.voters.len()) as usize,
    }
}

/// The voters that certify a stance, or why they do not.
pub open spec fn certification(
    voters: EpochVotersView,
    transition: Transition,
    stances: Seq<StanceRecord>,
    wanted: Stance,
) -> Result<Set<ReplicaId>, HandoffError> {
    match stance_defect(voters, transition, stances) {
        Some(e) => Err(e),
        None => {
            let signers = takers(stances, wanted);
            if signers.len() < majority_of(voters.voters.len()) {
                Err(no_quorum(voters, signers.len()))
            } else {
                Ok(signers)
            }
        },
    }
}

proof fn lemma_stance_prefix(
    voters: EpochVotersView,
    transition: Transition,
    stances: Seq<StanceRecord>,
    n: int,
)
    requires
        0 <= n <= stances.len(),
    ensures
        stance_defect(voters, transition, stances.take(n)) is Some ==> stance_defect(
            voters,
            transition,
            stances,
        ) == stance_defect(voters, transition, stances.take(n)),
    decreases stances.len() - n,
{
    if n < stances.len() {
        lemma_stance_prefix(voters, transition, stances, n + 1);
        assert(stances.take(n + 1).drop_last() =~= stances.take(n));
    } else {
        assert(stances.take(n) =~= stances);
    }
}

fn certify(
    voters: &EpochVoters,
    transition: Transition,
    stances: &Vec<StanceRecord>,
    wanted: Stance,
) -> (r: Result<OrdSet<ReplicaId>, HandoffError>)
    ensures
        match r {
            Ok(signers) => certification(voters@, transition, stances@, wanted) == Ok::<
                Set<ReplicaId>,
                HandoffError,
            >(signers@),
            Err(e) => certification(voters@, transition, stances@, wanted) == Err::<
                Set<ReplicaId>,
                HandoffError,
            >(e),
        },
{
    let mut signers: OrdSet<ReplicaId> = OrdSet::new();
    let mut i: usize = 0;
    while i < stances.len()
        invariant
            i <= stances@.len(),
            signers@ == takers(stances@.take(i as int), wanted),
            stance_defect(voters@, transition, stances@.take(i as int)) is None,
        decreases stances@.len() - i,
    {
        let record = stances[i];
        proof {
            assert(stances@.take(i + 1).drop_last() =~= stances@.take(i as int));
            lemma_stance_prefix(voters@, transition, stances@, i + 1);
        }
        if !voters.is_voter(&record.voter) {
            return Err(HandoffError::NotAVoter { replica: record.voter });
        }
        if record.transition != transition {
            return Err(HandoffError::WrongTransition);
        }
        if record.stance == wanted {
            signers.insert(record.voter);
        }
        i = i + 1;
    }
    proof {
        assert(stances@.take(stances@.len() as int) =~= stances@);
    }
    let need: usize = voters.majority();
    if signers.len() < need {
        return Err(HandoffError::NoQuorum { have: signers.len(), need });
    }
    Ok(signers)
}

/// A majority of the old voters have durably fenced the old configuration.
#[derive(Debug)]
pub struct SealCertificate {
    transition: Transition,
    signers: OrdSet<ReplicaId>,
}

/// A majority of the old voters have durably refused the transition.
#[derive(Debug)]
pub struct CancellationCertificate {
    transition: Transition,
    signers: OrdSet<ReplicaId>,
}

/// What a certificate of stances states.
#[verifier::ext_equal]
pub struct StanceCertificate {
    /// The transition it is about.
    pub transition: Transition,
    /// The voters behind it.
    pub signers: Set<ReplicaId>,
}

impl View for SealCertificate {
    type V = StanceCertificate;

    closed spec fn view(&self) -> StanceCertificate {
        StanceCertificate { transition: self.transition, signers: self.signers@ }
    }
}

impl View for CancellationCertificate {
    type V = StanceCertificate;

    closed spec fn view(&self) -> StanceCertificate {
        StanceCertificate { transition: self.transition, signers: self.signers@ }
    }
}

impl SealCertificate {
    /// The transition it seals.
    pub fn transition(&self) -> (r: Transition)
        ensures
            r == self@.transition,
    {
        self.transition
    }

    /// The voters that fenced.
    pub fn signers(&self) -> (r: &OrdSet<ReplicaId>)
        ensures
            r@ == self@.signers,
    {
        &self.signers
    }
}

impl CancellationCertificate {
    /// The transition it cancels.
    pub fn transition(&self) -> (r: Transition)
        ensures
            r == self@.transition,
    {
        self.transition
    }

    /// The voters that refused.
    pub fn signers(&self) -> (r: &OrdSet<ReplicaId>)
        ensures
            r@ == self@.signers,
    {
        &self.signers
    }
}

/// Certify that the old configuration is fenced.
pub fn seal(voters: &EpochVoters, transition: Transition, stances: &Vec<StanceRecord>) -> (r: Result<
    SealCertificate,
    HandoffError,
>)
    ensures
        match certification(voters@, transition, stances@, Stance::Sealed) {
            Ok(signers) => r is Ok && r->Ok_0@ == (StanceCertificate { transition, signers }),
            Err(e) => r is Err && r->Err_0 == e,
        },
{
    match certify(voters, transition, stances, Stance::Sealed) {
        Ok(signers) => Ok(SealCertificate { transition, signers }),
        Err(e) => Err(e),
    }
}

/// Certify that the transition was refused before it sealed.
pub fn cancel(voters: &EpochVoters, transition: Transition, stances: &Vec<StanceRecord>) -> (r:
    Result<CancellationCertificate, HandoffError>)
    ensures
        match certification(voters@, transition, stances@, Stance::Cancelled) {
            Ok(signers) => r is Ok && r->Ok_0@ == (StanceCertificate { transition, signers }),
            Err(e) => r is Err && r->Err_0 == e,
        },
{
    match certify(voters, transition, stances, Stance::Cancelled) {
        Ok(signers) => Ok(CancellationCertificate { transition, signers }),
        Err(e) => Err(e),
    }
}

proof fn lemma_takers(stances: Seq<StanceRecord>, wanted: Stance)
    ensures
        takers(stances, wanted).finite(),
        forall|v: ReplicaId| #[trigger]
            takers(stances, wanted).contains(v) <==> exists|i: int|
                0 <= i < stances.len() && (#[trigger] stances[i]).voter == v && stances[i].stance
                    == wanted,
    decreases stances.len(),
{
    if stances.len() > 0 {
        let before = stances.drop_last();
        let n = stances.len() - 1;
        lemma_takers(before, wanted);
        assert forall|v: ReplicaId| #[trigger]
            takers(stances, wanted).contains(v) <==> exists|i: int|
                0 <= i < stances.len() && (#[trigger] stances[i]).voter == v && stances[i].stance
                    == wanted by {
            if takers(before, wanted).contains(v) {
                let i = choose|i: int|
                    0 <= i < before.len() && (#[trigger] before[i]).voter == v && before[i].stance
                        == wanted;
                assert(stances[i].voter == v);
            }
            if exists|i: int|
                0 <= i < stances.len() && (#[trigger] stances[i]).voter == v && stances[i].stance
                    == wanted {
                let i = choose|i: int|
                    0 <= i < stances.len() && (#[trigger] stances[i]).voter == v
                        && stances[i].stance == wanted;
                if i < n {
                    assert(before[i].voter == v);
                }
            }
            assert(stances[n] == stances.last());
        }
    }
}

proof fn lemma_stances_clean(
    voters: EpochVotersView,
    transition: Transition,
    stances: Seq<StanceRecord>,
)
    requires
        stance_defect(voters, transition, stances) is None,
    ensures
        forall|i: int|
            0 <= i < stances.len() ==> (#[trigger] stances[i]).transition == transition
                && voters.voters.contains(stances[i].voter),
    decreases stances.len(),
{
    if stances.len() > 0 {
        let before = stances.drop_last();
        lemma_stances_clean(voters, transition, before);
        assert forall|i: int| 0 <= i < stances.len() implies (#[trigger] stances[i]).transition
            == transition && voters.voters.contains(stances[i].voter) by {
            if i < before.len() {
                assert(before[i].transition == transition);
            }
        }
    }
}

/// No voter takes both stances on one transition.
pub open spec fn single_minded(stances: Seq<StanceRecord>) -> bool {
    forall|i: int, j: int|
        0 <= i < stances.len() && 0 <= j < stances.len() && (#[trigger] stances[i]).voter == (
        #[trigger] stances[j]).voter && stances[i].transition == stances[j].transition
            ==> stances[i].stance == stances[j].stance
}

/// A seal and a cancellation never both certify one transition.
pub proof fn lemma_seal_excludes_cancellation(
    voters: EpochVotersView,
    transition: Transition,
    stances: Seq<StanceRecord>,
)
    requires
        voters.voters.finite(),
        single_minded(stances),
    ensures
        !(certification(voters, transition, stances, Stance::Sealed) is Ok && certification(
            voters,
            transition,
            stances,
            Stance::Cancelled,
        ) is Ok),
{
    if certification(voters, transition, stances, Stance::Sealed) is Ok && certification(
        voters,
        transition,
        stances,
        Stance::Cancelled,
    ) is Ok {
        lemma_stances_clean(voters, transition, stances);
        lemma_takers(stances, Stance::Sealed);
        lemma_takers(stances, Stance::Cancelled);
        let a = takers(stances, Stance::Sealed);
        let b = takers(stances, Stance::Cancelled);
        assert(a.subset_of(voters.voters)) by {
            assert forall|v: ReplicaId| a.contains(v) implies voters.voters.contains(v) by {
                let i = choose|i: int|
                    0 <= i < stances.len() && (#[trigger] stances[i]).voter == v
                        && stances[i].stance == Stance::Sealed;
            }
        }
        assert(b.subset_of(voters.voters)) by {
            assert forall|v: ReplicaId| b.contains(v) implies voters.voters.contains(v) by {
                let i = choose|i: int|
                    0 <= i < stances.len() && (#[trigger] stances[i]).voter == v
                        && stances[i].stance == Stance::Cancelled;
            }
        }
        let v = lemma_majorities_intersect(voters.voters, a, b);
        let i = choose|i: int|
            0 <= i < stances.len() && (#[trigger] stances[i]).voter == v && stances[i].stance
                == Stance::Sealed;
        let j = choose|j: int|
            0 <= j < stances.len() && (#[trigger] stances[j]).voter == v && stances[j].stance
                == Stance::Cancelled;
        assert(stances[i].stance == stances[j].stance);
    }
}

/// One old voter's report of the terminal state, made after its own seal is
/// durable.
#[derive(Clone, Copy, Debug, PartialEq, Eq, Structural)]
pub struct TerminalReport {
    /// The reporting voter.
    pub voter: ReplicaId,
    /// The transition it is about.
    pub transition: Transition,
    /// Root binding the final common state.
    pub terminal_root: Digest32,
}

/// The one terminal state and successor of a sealed transition.
#[derive(Debug)]
pub struct TerminalCertificate {
    transition: Transition,
    terminal_root: Digest32,
    successor: OrdSet<ReplicaId>,
    signers: OrdSet<ReplicaId>,
}

/// What a terminal certificate states.
#[verifier::ext_equal]
pub struct TerminalView {
    /// The transition it settles.
    pub transition: Transition,
    /// The terminal state the successor must install.
    pub terminal_root: Digest32,
    /// The exact successor.
    pub successor: Set<ReplicaId>,
    /// The old voters that reported it.
    pub signers: Set<ReplicaId>,
}

impl View for TerminalCertificate {
    type V = TerminalView;

    closed spec fn view(&self) -> TerminalView {
        TerminalView {
            transition: self.transition,
            terminal_root: self.terminal_root,
            successor: self.successor@,
            signers: self.signers@,
        }
    }
}

impl TerminalCertificate {
    /// The transition it settles.
    pub fn transition(&self) -> (r: Transition)
        ensures
            r == self@.transition,
    {
        self.transition
    }

    /// The terminal state the successor must install.
    pub fn terminal_root(&self) -> (r: Digest32)
        ensures
            r == self@.terminal_root,
    {
        self.terminal_root
    }

    /// The exact successor.
    pub fn successor(&self) -> (r: &OrdSet<ReplicaId>)
        ensures
            r@ == self@.successor,
    {
        &self.successor
    }

    /// The old voters that reported it.
    pub fn signers(&self) -> (r: &OrdSet<ReplicaId>)
        ensures
            r@ == self@.signers,
    {
        &self.signers
    }
}

/// The first report that is no voter's or is about another transition.
pub open spec fn report_defect(
    voters: EpochVotersView,
    transition: Transition,
    reports: Seq<TerminalReport>,
) -> Option<HandoffError>
    decreases reports.len(),
{
    if reports.len() == 0 {
        None
    } else {
        let earlier = report_defect(voters, transition, reports.drop_last());
        let last = reports.last();
        if earlier is Some {
            earlier
        } else if !voters.voters.contains(last.voter) {
            Some(HandoffError::NotAVoter { replica: last.voter })
        } else if last.transition != transition {
            Some(HandoffError::WrongTransition)
        } else {
            None
        }
    }
}

/// Voters of terminal reports.
pub open spec fn terminal_voters(reports: Seq<TerminalReport>) -> Set<ReplicaId>
    decreases reports.len(),
{
    if reports.len() == 0 {
        Set::empty()
    } else {
        terminal_voters(reports.drop_last()).insert(reports.last().voter)
    }
}

/// Every report names one root.
pub open spec fn same_root(reports: Seq<TerminalReport>) -> bool {
    forall|i: int|
        0 <= i < reports.len() ==> (#[trigger] reports[i]).terminal_root == reports[0].terminal_root
}

/// The terminal state the reports select, or why they select none.
pub open spec fn terminal_selection(
    voters: EpochVotersView,
    transition: Transition,
    successor: Set<ReplicaId>,
    reports: Seq<TerminalReport>,
) -> Result<TerminalView, HandoffError> {
    match report_defect(voters, transition, reports) {
        Some(e) => Err(e),
        None => if !same_root(reports) {
            Err(HandoffError::MixedTerminal)
        } else {
            let signers = terminal_voters(reports);
            if reports.len() == 0 || signers.len() < majority_of(voters.voters.len()) {
                Err(no_quorum(voters, signers.len()))
            } else {
                Ok(
                    TerminalView {
                        transition,
                        terminal_root: reports[0].terminal_root,
                        successor,
                        signers,
                    },
                )
            }
        },
    }
}

proof fn lemma_report_prefix(
    voters: EpochVotersView,
    transition: Transition,
    reports: Seq<TerminalReport>,
    n: int,
)
    requires
        0 <= n <= reports.len(),
    ensures
        report_defect(voters, transition, reports.take(n)) is Some ==> report_defect(
            voters,
            transition,
            reports,
        ) == report_defect(voters, transition, reports.take(n)),
    decreases reports.len() - n,
{
    if n < reports.len() {
        lemma_report_prefix(voters, transition, reports, n + 1);
        assert(reports.take(n + 1).drop_last() =~= reports.take(n));
    } else {
        assert(reports.take(n) =~= reports);
    }
}

/// Select the terminal certificate of a sealed transition.
///
/// There is no selection without `seal`: before the fence, an old voter can
/// still accept work, so what it reports as terminal is not terminal. After
/// it, a majority reporting the same root is the terminal state, and any
/// majority a later attempt reads intersects this one.
pub fn select_terminal(
    voters: &EpochVoters,
    seal: &SealCertificate,
    successor: &OrdSet<ReplicaId>,
    reports: &Vec<TerminalReport>,
) -> (r: Result<TerminalCertificate, HandoffError>)
    ensures
        match terminal_selection(voters@, seal@.transition, successor@, reports@) {
            Ok(certificate) => r is Ok && r->Ok_0@ == certificate,
            Err(e) => r is Err && r->Err_0 == e,
        },
{
    let transition = seal.transition();
    let mut signers: OrdSet<ReplicaId> = OrdSet::new();
    let mut mixed = false;
    let mut i: usize = 0;
    while i < reports.len()
        invariant
            i <= reports@.len(),
            transition == seal@.transition,
            signers@ == terminal_voters(reports@.take(i as int)),
            report_defect(voters@, transition, reports@.take(i as int)) is None,
            mixed <==> exists|j: int|
                0 <= j < i && (#[trigger] reports@[j]).terminal_root != reports@[0].terminal_root,
        decreases reports@.len() - i,
    {
        let report = reports[i];
        proof {
            assert(reports@.take(i + 1).drop_last() =~= reports@.take(i as int));
            lemma_report_prefix(voters@, transition, reports@, i + 1);
        }
        if !voters.is_voter(&report.voter) {
            return Err(HandoffError::NotAVoter { replica: report.voter });
        }
        if report.transition != transition {
            return Err(HandoffError::WrongTransition);
        }
        if report.terminal_root != reports[0].terminal_root {
            mixed = true;
            proof {
                assert(reports@[i as int].terminal_root != reports@[0].terminal_root);
            }
        }
        signers.insert(report.voter);
        i = i + 1;
    }
    proof {
        assert(reports@.take(reports@.len() as int) =~= reports@);
    }
    if mixed {
        return Err(HandoffError::MixedTerminal);
    }
    let need: usize = voters.majority();
    if reports.len() == 0 || signers.len() < need {
        return Err(HandoffError::NoQuorum { have: signers.len(), need });
    }
    Ok(
        TerminalCertificate {
            transition,
            terminal_root: reports[0].terminal_root,
            successor: successor.dup(),
            signers,
        },
    )
}

proof fn lemma_terminal_voters(reports: Seq<TerminalReport>)
    ensures
        terminal_voters(reports).finite(),
        forall|v: ReplicaId| #[trigger]
            terminal_voters(reports).contains(v) <==> exists|i: int|
                0 <= i < reports.len() && (#[trigger] reports[i]).voter == v,
    decreases reports.len(),
{
    if reports.len() > 0 {
        let before = reports.drop_last();
        let n = reports.len() - 1;
        lemma_terminal_voters(before);
        assert forall|v: ReplicaId| #[trigger]
            terminal_voters(reports).contains(v) <==> exists|i: int|
                0 <= i < reports.len() && (#[trigger] reports[i]).voter == v by {
            if terminal_voters(before).contains(v) {
                let i = choose|i: int| 0 <= i < before.len() && (#[trigger] before[i]).voter == v;
                assert(reports[i].voter == v);
            }
            if exists|i: int| 0 <= i < reports.len() && (#[trigger] reports[i]).voter == v {
                let i = choose|i: int| 0 <= i < reports.len() && (#[trigger] reports[i]).voter == v;
                if i < n {
                    assert(before[i].voter == v);
                }
            }
            assert(reports[n] == reports.last());
        }
    }
}

proof fn lemma_reports_clean(
    voters: EpochVotersView,
    transition: Transition,
    reports: Seq<TerminalReport>,
)
    requires
        report_defect(voters, transition, reports) is None,
    ensures
        forall|i: int|
            0 <= i < reports.len() ==> voters.voters.contains((#[trigger] reports[i]).voter),
    decreases reports.len(),
{
    if reports.len() > 0 {
        let before = reports.drop_last();
        lemma_reports_clean(voters, transition, before);
        assert forall|i: int| 0 <= i < reports.len() implies voters.voters.contains(
            (#[trigger] reports[i]).voter,
        ) by {
            if i < before.len() {
                assert(voters.voters.contains(before[i].voter));
            }
        }
    }
}

/// A replacement coordinator selects the same terminal state: two selections
/// of one transition share a voter, and a voter reports one root.
pub proof fn lemma_one_terminal_state(
    voters: EpochVotersView,
    transition: Transition,
    successor: Set<ReplicaId>,
    left: Seq<TerminalReport>,
    right: Seq<TerminalReport>,
)
    requires
        voters.voters.finite(),
        terminal_selection(voters, transition, successor, left) is Ok,
        terminal_selection(voters, transition, successor, right) is Ok,
        forall|i: int, j: int|
            0 <= i < left.len() && 0 <= j < right.len() && (#[trigger] left[i]).voter == (
            #[trigger] right[j]).voter ==> left[i].terminal_root == right[j].terminal_root,
    ensures
        terminal_selection(voters, transition, successor, left)->Ok_0.terminal_root
            == terminal_selection(voters, transition, successor, right)->Ok_0.terminal_root,
{
    lemma_terminal_voters(left);
    lemma_terminal_voters(right);
    lemma_reports_clean(voters, transition, left);
    lemma_reports_clean(voters, transition, right);
    let a = terminal_voters(left);
    let b = terminal_voters(right);
    assert(a.subset_of(voters.voters)) by {
        assert forall|v: ReplicaId| a.contains(v) implies voters.voters.contains(v) by {
            let i = choose|i: int| 0 <= i < left.len() && (#[trigger] left[i]).voter == v;
        }
    }
    assert(b.subset_of(voters.voters)) by {
        assert forall|v: ReplicaId| b.contains(v) implies voters.voters.contains(v) by {
            let i = choose|i: int| 0 <= i < right.len() && (#[trigger] right[i]).voter == v;
        }
    }
    let v = lemma_majorities_intersect(voters.voters, a, b);
    let i = choose|i: int| 0 <= i < left.len() && (#[trigger] left[i]).voter == v;
    let j = choose|j: int| 0 <= j < right.len() && (#[trigger] right[j]).voter == v;
    assert(left[i].terminal_root == right[j].terminal_root);
}

/// One successor replica's durable installation of the terminal state.
#[derive(Clone, Copy, Debug, PartialEq, Eq, Structural)]
pub struct InstallRecord {
    /// The installing replica.
    pub replica: ReplicaId,
    /// The transition it is about.
    pub transition: Transition,
    /// The terminal root it installed.
    pub terminal_root: Digest32,
}

/// The successor is authorized to serve.
#[derive(Debug)]
pub struct ActivationCertificate {
    transition: Transition,
    terminal_root: Digest32,
    installers: OrdSet<ReplicaId>,
}

/// What an activation certificate states.
#[verifier::ext_equal]
pub struct ActivationView {
    /// The transition it completes.
    pub transition: Transition,
    /// The terminal state the successor installed.
    pub terminal_root: Digest32,
    /// The successor replicas that installed it.
    pub installers: Set<ReplicaId>,
}

impl View for ActivationCertificate {
    type V = ActivationView;

    closed spec fn view(&self) -> ActivationView {
        ActivationView {
            transition: self.transition,
            terminal_root: self.terminal_root,
            installers: self.installers@,
        }
    }
}

impl ActivationCertificate {
    /// The transition it completes.
    pub fn transition(&self) -> (r: Transition)
        ensures
            r == self@.transition,
    {
        self.transition
    }

    /// The terminal state the successor installed.
    pub fn terminal_root(&self) -> (r: Digest32)
        ensures
            r == self@.terminal_root,
    {
        self.terminal_root
    }

    /// The successor replicas that installed it.
    pub fn installers(&self) -> (r: &OrdSet<ReplicaId>)
        ensures
            r@ == self@.installers,
    {
        &self.installers
    }
}

/// The first installation that does not count.
pub open spec fn install_defect(
    successor: EpochVotersView,
    certificate: TerminalView,
    installs: Seq<InstallRecord>,
) -> Option<HandoffError>
    decreases installs.len(),
{
    if installs.len() == 0 {
        None
    } else {
        let earlier = install_defect(successor, certificate, installs.drop_last());
        let last = installs.last();
        if earlier is Some {
            earlier
        } else if !successor.voters.contains(last.replica) {
            Some(HandoffError::NotAVoter { replica: last.replica })
        } else if last.transition != certificate.transition {
            Some(HandoffError::WrongTransition)
        } else if last.terminal_root != certificate.terminal_root {
            Some(HandoffError::WrongTerminalRoot)
        } else {
            None
        }
    }
}

/// Installing replicas.
pub open spec fn installers_of(installs: Seq<InstallRecord>) -> Set<ReplicaId>
    decreases installs.len(),
{
    if installs.len() == 0 {
        Set::empty()
    } else {
        installers_of(installs.drop_last()).insert(installs.last().replica)
    }
}

/// The activation the installations certify, or why they certify none.
pub open spec fn handoff_activation(
    successor: EpochVotersView,
    certificate: TerminalView,
    installs: Seq<InstallRecord>,
) -> Result<ActivationView, HandoffError> {
    match install_defect(successor, certificate, installs) {
        Some(e) => Err(e),
        None => {
            let installers = installers_of(installs);
            if installers.len() < majority_of(successor.voters.len()) {
                Err(no_quorum(successor, installers.len()))
            } else {
                Ok(
                    ActivationView {
                        transition: certificate.transition,
                        terminal_root: certificate.terminal_root,
                        installers,
                    },
                )
            }
        },
    }
}

proof fn lemma_install_prefix(
    successor: EpochVotersView,
    certificate: TerminalView,
    installs: Seq<InstallRecord>,
    n: int,
)
    requires
        0 <= n <= installs.len(),
    ensures
        install_defect(successor, certificate, installs.take(n)) is Some ==> install_defect(
            successor,
            certificate,
            installs,
        ) == install_defect(successor, certificate, installs.take(n)),
    decreases installs.len() - n,
{
    if n < installs.len() {
        lemma_install_prefix(successor, certificate, installs, n + 1);
        assert(installs.take(n + 1).drop_last() =~= installs.take(n));
    } else {
        assert(installs.take(n) =~= installs);
    }
}

/// Activate the successor of `certificate`.
///
/// A majority of the successor set must have durably installed that exact
/// terminal root. Installing something else is another history, and it is
/// refused rather than counted.
pub fn activate(
    successor: &EpochVoters,
    certificate: &TerminalCertificate,
    installs: &Vec<InstallRecord>,
) -> (r: Result<ActivationCertificate, HandoffError>)
    ensures
        match handoff_activation(successor@, certificate@, installs@) {
            Ok(done) => r is Ok && r->Ok_0@ == done,
            Err(e) => r is Err && r->Err_0 == e,
        },
{
    let mut installers: OrdSet<ReplicaId> = OrdSet::new();
    let mut i: usize = 0;
    while i < installs.len()
        invariant
            i <= installs@.len(),
            installers@ == installers_of(installs@.take(i as int)),
            install_defect(successor@, certificate@, installs@.take(i as int)) is None,
        decreases installs@.len() - i,
    {
        let record = installs[i];
        proof {
            assert(installs@.take(i + 1).drop_last() =~= installs@.take(i as int));
            lemma_install_prefix(successor@, certificate@, installs@, i + 1);
        }
        if !successor.is_voter(&record.replica) {
            return Err(HandoffError::NotAVoter { replica: record.replica });
        }
        if record.transition != certificate.transition() {
            return Err(HandoffError::WrongTransition);
        }
        if record.terminal_root != certificate.terminal_root() {
            return Err(HandoffError::WrongTerminalRoot);
        }
        installers.insert(record.replica);
        i = i + 1;
    }
    proof {
        assert(installs@.take(installs@.len() as int) =~= installs@);
    }
    let need: usize = successor.majority();
    if installers.len() < need {
        return Err(HandoffError::NoQuorum { have: installers.len(), need });
    }
    Ok(
        ActivationCertificate {
            transition: certificate.transition(),
            terminal_root: certificate.terminal_root(),
            installers,
        },
    )
}

/// Everything durable about one transition that a recovering coordinator
/// can read.
///
/// Every field is a record some replica made durable. There is no lifecycle
/// label here, and deliberately no place to put one.
pub struct Evidence<'a> {
    /// Whether the transition was authorized at all.
    pub authorized: bool,
    /// Every old-voter stance that was recovered, about any transition.
    /// Passing only this transition's would hide a fence another one left,
    /// and the fence is the configuration's, not the transition's.
    pub stances: &'a Vec<StanceRecord>,
    /// Terminal reports recovered from the old voters.
    pub reports: &'a Vec<TerminalReport>,
    /// The selected terminal certificate, if one was made durable.
    pub terminal: Option<&'a TerminalCertificate>,
    /// Installations recovered from the successor.
    pub installs: &'a Vec<InstallRecord>,
    /// The activation, if one was made durable.
    pub activation: Option<&'a ActivationCertificate>,
}

/// What the evidence shows.
pub struct EvidenceView {
    /// Whether the transition was authorized at all.
    pub authorized: bool,
    /// Every old-voter stance that was recovered.
    pub stances: Seq<StanceRecord>,
    /// The selected terminal certificate.
    pub terminal: Option<TerminalView>,
    /// Installations recovered from the successor.
    pub installs: Seq<InstallRecord>,
    /// The activation.
    pub activation: Option<ActivationView>,
}

impl<'a> View for Evidence<'a> {
    type V = EvidenceView;

    open spec fn view(&self) -> EvidenceView {
        EvidenceView {
            authorized: self.authorized,
            stances: self.stances@,
            terminal: match self.terminal {
                Some(t) => Some(t@),
                None => None,
            },
            installs: self.installs@,
            activation: match self.activation {
                Some(a) => Some(a@),
                None => None,
            },
        }
    }
}

/// Where a recovering coordinator resumes.
#[derive(Clone, Copy, Debug, PartialEq, Eq, Structural)]
pub enum Stage {
    /// Nothing is in flight, or the transition was certifiably cancelled
    /// before anything sealed.
    Stable,
    /// Authorized and staging; sealing has not started and cancellation is
    /// still available.
    Preparing,
    /// Some voter has fenced. The seal is the point of no return, so there
    /// is no path from here back to `Stable`: the authorized sealing
    /// procedure continues, or it blocks.
    Sealing,
    /// The old configuration is fenced; the terminal certificate is not
    /// selected yet.
    TerminalRecovery,
    /// The terminal certificate exists; the successor has not installed it.
    Installing,
    /// A majority of the successor has installed; activation is owed.
    Activating,
    /// The successor is activated and serving. Reused, never recomputed.
    Served,
}

/// The first stance that fences the configuration for another transition.
pub open spec fn fence_elsewhere(stances: Seq<StanceRecord>, transition: Transition) -> Option<
    Transition,
>
    decreases stances.len(),
{
    if stances.len() == 0 {
        None
    } else {
        let earlier = fence_elsewhere(stances.drop_last(), transition);
        let last = stances.last();
        if earlier is Some {
            earlier
        } else if last.transition != transition && last.stance == Stance::Sealed {
            Some(last.transition)
        } else {
            None
        }
    }
}

/// The stances about a transition, in order.
pub open spec fn stances_about(stances: Seq<StanceRecord>, transition: Transition) -> Seq<
    StanceRecord,
>
    decreases stances.len(),
{
    if stances.len() == 0 {
        Seq::empty()
    } else {
        let before = stances_about(stances.drop_last(), transition);
        if stances.last().transition == transition {
            before.push(stances.last())
        } else {
            before
        }
    }
}

/// Where the evidence says to resume.
pub open spec fn resumption(
    old_voters: EpochVotersView,
    successor: EpochVotersView,
    transition: Transition,
    evidence: EvidenceView,
) -> Result<Stage, HandoffError> {
    let mine = stances_about(evidence.stances, transition);
    let sealed = certification(old_voters, transition, mine, Stance::Sealed) is Ok;
    let cancelled = certification(old_voters, transition, mine, Stance::Cancelled) is Ok;
    if evidence.activation is Some {
        if evidence.activation->0.transition != transition {
            Err(HandoffError::WrongTransition)
        } else {
            Ok(Stage::Served)
        }
    } else if fence_elsewhere(evidence.stances, transition) is Some {
        Err(
            HandoffError::FencedByAnother {
                held: fence_elsewhere(evidence.stances, transition)->0,
            },
        )
    } else if sealed && cancelled {
        Err(HandoffError::SealedAndCancelled)
    } else if evidence.terminal is Some {
        if evidence.terminal->0.transition != transition {
            Err(HandoffError::WrongTransition)
        } else {
            match handoff_activation(successor, evidence.terminal->0, evidence.installs) {
                Ok(_) => Ok(Stage::Activating),
                Err(HandoffError::NoQuorum { .. }) => Ok(Stage::Installing),
                Err(e) => Err(e),
            }
        }
    } else if sealed {
        Ok(Stage::TerminalRecovery)
    } else if exists|i: int| 0 <= i < mine.len() && (#[trigger] mine[i]).stance == Stance::Sealed {
        Ok(Stage::Sealing)
    } else if cancelled {
        Ok(Stage::Stable)
    } else if evidence.authorized {
        Ok(Stage::Preparing)
    } else {
        Ok(Stage::Stable)
    }
}

proof fn lemma_fence_prefix(stances: Seq<StanceRecord>, transition: Transition, n: int)
    requires
        0 <= n <= stances.len(),
    ensures
        fence_elsewhere(stances.take(n), transition) is Some ==> fence_elsewhere(
            stances,
            transition,
        ) == fence_elsewhere(stances.take(n), transition),
    decreases stances.len() - n,
{
    if n < stances.len() {
        lemma_fence_prefix(stances, transition, n + 1);
        assert(stances.take(n + 1).drop_last() =~= stances.take(n));
    } else {
        assert(stances.take(n) =~= stances);
    }
}

/// Choose where to resume from durable evidence alone.
///
/// The order is by how far the transition demonstrably got, highest first,
/// because every later record implies the earlier ones happened and the
/// opposite is never true. A stage is returned only when a record justifies
/// it. An activation that exists is reused rather than recomputed; a fence
/// another transition left is still a fence; and any fence at all, even one
/// voter's, forbids `Stable`.
#[verifier::rlimit(40)]
pub fn resume(
    old_voters: &EpochVoters,
    successor: &EpochVoters,
    transition: Transition,
    evidence: Evidence,
) -> (r: Result<Stage, HandoffError>)
    ensures
        r == resumption(old_voters@, successor@, transition, evidence@),
{
    if let Some(activation) = evidence.activation {
        if activation.transition() != transition {
            return Err(HandoffError::WrongTransition);
        }
        return Ok(Stage::Served);
    }
    let ghost all = evidence.stances@;
    let mut mine: Vec<StanceRecord> = Vec::new();
    let mut fenced = false;
    let mut i: usize = 0;
    while i < evidence.stances.len()
        invariant
            i <= evidence.stances@.len(),
            all == evidence.stances@,
            evidence@.activation is None,
            mine@ == stances_about(all.take(i as int), transition),
            fence_elsewhere(all.take(i as int), transition) is None,
            fenced <==> exists|j: int|
                0 <= j < mine@.len() && (#[trigger] mine@[j]).stance == Stance::Sealed,
        decreases evidence.stances@.len() - i,
    {
        let record = evidence.stances[i];
        proof {
            assert(all.take(i + 1).drop_last() =~= all.take(i as int));
            lemma_fence_prefix(all, transition, i + 1);
        }
        let ghost before = mine@;
        if record.transition == transition {
            mine.push(record);
            proof {
                assert forall|j: int| 0 <= j < before.len() implies mine@[j] == before[j] by {}
            }
            if record.stance == Stance::Sealed {
                fenced = true;
                proof {
                    assert(mine@[before.len() as int].stance == Stance::Sealed);
                }
            } else {
                proof {
                    if exists|j: int|
                        0 <= j < mine@.len() && (#[trigger] mine@[j]).stance == Stance::Sealed {
                        let j = choose|j: int|
                            0 <= j < mine@.len() && (#[trigger] mine@[j]).stance == Stance::Sealed;
                        assert(before[j].stance == Stance::Sealed);
                    }
                    if exists|j: int|
                        0 <= j < before.len() && (#[trigger] before[j]).stance == Stance::Sealed {
                        let j = choose|j: int|
                            0 <= j < before.len() && (#[trigger] before[j]).stance
                                == Stance::Sealed;
                        assert(mine@[j].stance == Stance::Sealed);
                    }
                }
            }
        } else if record.stance == Stance::Sealed {
            return Err(HandoffError::FencedByAnother { held: record.transition });
        }
        i = i + 1;
    }
    proof {
        assert(all.take(all.len() as int) =~= all);
    }
    let sealed = seal(old_voters, transition, &mine);
    let cancelled = cancel(old_voters, transition, &mine);
    if sealed.is_ok() && cancelled.is_ok() {
        return Err(HandoffError::SealedAndCancelled);
    }
    if let Some(certificate) = evidence.terminal {
        if certificate.transition() != transition {
            return Err(HandoffError::WrongTransition);
        }
        return match activate(successor, certificate, evidence.installs) {
            Ok(_) => Ok(Stage::Activating),
            Err(HandoffError::NoQuorum { have: _, need: _ }) => Ok(Stage::Installing),
            Err(e) => Err(e),
        };
    }
    if sealed.is_ok() {
        return Ok(Stage::TerminalRecovery);
    }
    if fenced {
        return Ok(Stage::Sealing);
    }
    if cancelled.is_ok() {
        return Ok(Stage::Stable);
    }
    if evidence.authorized {
        return Ok(Stage::Preparing);
    }
    Ok(Stage::Stable)
}

proof fn lemma_sealed_somewhere(stances: Seq<StanceRecord>, transition: Transition)
    requires
        exists|i: int| 0 <= i < stances.len() && (#[trigger] stances[i]).stance == Stance::Sealed,
    ensures
        fence_elsewhere(stances, transition) is Some || exists|i: int|
            0 <= i < stances_about(stances, transition).len() && (#[trigger] stances_about(
                stances,
                transition,
            )[i]).stance == Stance::Sealed,
    decreases stances.len(),
{
    let before = stances.drop_last();
    let last = stances.last();
    let mine = stances_about(stances, transition);
    let i = choose|i: int| 0 <= i < stances.len() && (#[trigger] stances[i]).stance == Stance::Sealed;
    if i < before.len() {
        assert(before[i].stance == Stance::Sealed);
        lemma_sealed_somewhere(before, transition);
        if fence_elsewhere(before, transition) is None {
            let part = stances_about(before, transition);
            let j = choose|j: int| 0 <= j < part.len() && (#[trigger] part[j]).stance == Stance::Sealed;
            assert(mine[j].stance == Stance::Sealed);
        }
    } else if last.transition == transition {
        assert(mine[mine.len() - 1].stance == Stance::Sealed);
    }
}

/// Once any voter has sealed, no evidence leads back to `Stable` or to a
/// stage where cancelling is still possible.
pub proof fn lemma_no_way_back_from_a_fence(
    old_voters: EpochVotersView,
    successor: EpochVotersView,
    transition: Transition,
    evidence: EvidenceView,
)
    requires
        exists|i: int|
            0 <= i < evidence.stances.len() && (#[trigger] evidence.stances[i]).stance
                == Stance::Sealed,
    ensures
        resumption(old_voters, successor, transition, evidence) != Ok::<Stage, HandoffError>(
            Stage::Stable,
        ),
        resumption(old_voters, successor, transition, evidence) != Ok::<Stage, HandoffError>(
            Stage::Preparing,
        ),
{
    lemma_sealed_somewhere(evidence.stances, transition);
}

/// A stage is justified by a record: terminal recovery by a certified seal,
/// installation by a terminal certificate, service by an activation.
pub proof fn lemma_stage_is_justified(
    old_voters: EpochVotersView,
    successor: EpochVotersView,
    transition: Transition,
    evidence: EvidenceView,
)
    ensures
        ({
            let stage = resumption(old_voters, successor, transition, evidence);
            let mine = stances_about(evidence.stances, transition);
            &&& stage == Ok::<Stage, HandoffError>(Stage::Served) ==> evidence.activation is Some
                && evidence.activation->0.transition == transition
            &&& stage == Ok::<Stage, HandoffError>(Stage::Activating) || stage == Ok::<
                Stage,
                HandoffError,
            >(Stage::Installing) ==> evidence.terminal is Some && evidence.terminal->0.transition
                == transition
            &&& stage == Ok::<Stage, HandoffError>(Stage::Activating) ==> handoff_activation(
                successor,
                evidence.terminal->0,
                evidence.installs,
            ) is Ok
            &&& stage == Ok::<Stage, HandoffError>(Stage::TerminalRecovery) ==> certification(
                old_voters,
                transition,
                mine,
                Stance::Sealed,
            ) is Ok
            &&& stage == Ok::<Stage, HandoffError>(Stage::Sealing) ==> exists|i: int|
                0 <= i < mine.len() && (#[trigger] mine[i]).stance == Stance::Sealed
            &&& stage == Ok::<Stage, HandoffError>(Stage::Preparing) ==> evidence.authorized
        }),
{
}

/// The stances a list of rows holds.
pub open spec fn held_stances(ledgers: Seq<StanceView>) -> Seq<StanceRecord>
    decreases ledgers.len(),
{
    if ledgers.len() == 0 {
        Seq::empty()
    } else {
        let before = held_stances(ledgers.drop_last());
        match ledgers.last().held {
            Some(record) => before.push(record),
            None => before,
        }
    }
}

/// Every stance a set of ledgers holds, for a coordinator assembling
/// evidence. Deliberately unfiltered: a coordinator that collected only its
/// own transition's stances would hand [`resume`] evidence that cannot show
/// it a fence another transition left.
pub fn stances_of(ledgers: &Vec<StanceLedger>) -> (r: Vec<StanceRecord>)
    ensures
        r@ == held_stances(crate::ordered::views(ledgers@)),
{
    let ghost all = crate::ordered::views(ledgers@);
    let mut out: Vec<StanceRecord> = Vec::new();
    let mut i: usize = 0;
    while i < ledgers.len()
        invariant
            i <= ledgers@.len(),
            all == crate::ordered::views(ledgers@),
            out@ == held_stances(all.take(i as int)),
        decreases ledgers@.len() - i,
    {
        proof {
            assert(all.take(i + 1).drop_last() =~= all.take(i as int));
            assert(all.take(i + 1).last() == ledgers@[i as int]@);
        }
        if let Some(record) = ledgers[i].held() {
            out.push(record);
        }
        i = i + 1;
    }
    proof {
        assert(all.take(all.len() as int) =~= all);
    }
    out
}

} // verus!
