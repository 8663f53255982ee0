//! Replicated feature activation.
//!
//! A feature changes replicated behaviour or writes durable state every
//! voter must be able to interpret. So the rule is **unanimity of the
//! configured voters**, not a majority: a minority that cannot do the thing
//! cannot be caught up to it.
//!
//! Activation is one-way. There is no deactivation and no downgrade: once a
//! cluster has written state under a feature, a binary that cannot read
//! that state refuses to serve rather than operating on what it half
//! understands.

use vstd::prelude::*;

use crate::ids::{ConfigurationEpoch, ReplicaId};
use crate::ordered::{
    Dup, Key, OrdMap, OrdSet, Order, in_order, lemma_in_order, lemma_take_set, views,
};
use crate::quorum::{EpochVoters, EpochVotersView};

verus! {

/// Identity of a feature.
#[derive(Clone, Copy, Debug, PartialEq, Eq, Hash, Structural)]
pub struct Feature(pub u32);

impl View for Feature {
    type V = Feature;

    open spec fn view(&self) -> Feature {
        *self
    }
}

impl Dup for Feature {
    fn dup(&self) -> (r: Self) {
        *self
    }
}

impl Key for Feature {
    open spec fn before(a: Feature, b: Feature) -> bool {
        a.0 < b.0
    }

    proof fn irreflexive(a: Feature) {
    }

    proof fn transitive(a: Feature, b: Feature, c: Feature) {
    }

    proof fn total(a: Feature, b: Feature) {
    }

    fn order(&self, other: &Self) -> (r: Order) {
        self.0.order(&other.0)
    }

    fn copy_key(&self) -> (r: Self) {
        *self
    }
}

/// One voter's report of what its binary can take part in.
#[derive(Debug)]
pub struct Support {
    /// The reporting voter.
    pub voter: ReplicaId,
    /// The configuration it reported under.
    pub epoch: ConfigurationEpoch,
    /// The features its binary supports.
    pub features: OrdSet<Feature>,
}

/// What a report says.
pub struct SupportView {
    /// The reporting voter.
    pub voter: ReplicaId,
    /// The configuration it reported under.
    pub epoch: ConfigurationEpoch,
    /// The features its binary supports.
    pub features: Set<Feature>,
}

impl View for Support {
    type V = SupportView;

    open spec fn view(&self) -> SupportView {
        SupportView { voter: self.voter, epoch: self.epoch, features: self.features@ }
    }
}

/// Why a report was not recorded.
#[derive(Clone, Copy, Debug, PartialEq, Eq, Structural)]
pub enum SupportError {
    /// The report is for another configuration.
    EpochMismatch,
    /// The reporter is not a voter of this configuration.
    NotAVoter,
    /// A voter withdrew support for a feature it had already reported. The
    /// only honest way to stop supporting a feature is to stop being a
    /// voter.
    Withdrawn {
        /// The feature it had reported.
        feature: Feature,
    },
}

/// What the voters of one configuration have reported.
#[derive(Debug)]
pub struct SupportLedger {
    voters: EpochVoters,
    /// The features there are.
    known: OrdSet<Feature>,
    reported: OrdMap<ReplicaId, OrdSet<Feature>>,
}

/// What a support ledger holds.
#[verifier::ext_equal]
pub struct SupportLedgerView {
    /// The configuration's voters.
    pub voters: EpochVotersView,
    /// The features there are.
    pub known: Set<Feature>,
    /// What each voter reported.
    pub reported: Map<ReplicaId, Set<Feature>>,
}

impl View for SupportLedger {
    type V = SupportLedgerView;

    closed spec fn view(&self) -> SupportLedgerView {
        SupportLedgerView {
            voters: self.voters@,
            known: self.known@,
            reported: self.reported@,
        }
    }
}

impl SupportLedgerView {
    /// Why a report is not recorded, if it is not.
    pub open spec fn refusal(self, report: SupportView) -> Option<SupportError> {
        if report.epoch != self.voters.epoch {
            Some(SupportError::EpochMismatch)
        } else if !self.voters.voters.contains(report.voter) {
            Some(SupportError::NotAVoter)
        } else if self.reported.contains_key(report.voter)
            && !self.reported[report.voter].subset_of(report.features) {
            Some(
                SupportError::Withdrawn {
                    feature: in_order::<Feature>(
                        self.reported[report.voter].difference(report.features),
                    )[0],
                },
            )
        } else {
            None
        }
    }

    /// The ledger after a report was presented.
    pub open spec fn presented(self, report: SupportView) -> Self {
        if self.refusal(report) is None {
            SupportLedgerView {
                reported: self.reported.insert(report.voter, report.features),
                ..self
            }
        } else {
            self
        }
    }

    /// The ledger after reports were presented in order.
    pub open spec fn presented_all(self, reports: Seq<SupportView>) -> Self
        decreases reports.len(),
    {
        if reports.len() == 0 {
            self
        } else {
            self.presented_all(reports.drop_last()).presented(reports.last())
        }
    }

    /// `voter` reported `feature`.
    pub open spec fn supports(self, voter: ReplicaId, feature: Feature) -> bool {
        self.reported.contains_key(voter) && self.reported[voter].contains(feature)
    }

    /// The features every configured voter has reported. A voter that has
    /// not reported at all supports nothing: silence is never assent.
    pub open spec fn unanimous(self) -> Set<Feature> {
        self.known.filter(
            |f: Feature|
                forall|v: ReplicaId| #[trigger]
                    self.voters.voters.contains(v) ==> self.supports(v, f),
        )
    }

    /// Voters that have not reported `feature`.
    pub open spec fn missing(self, feature: Feature) -> Set<ReplicaId> {
        self.voters.voters.filter(|v: ReplicaId| !self.supports(v, feature))
    }
}

/// What a voter reported it never takes back.
pub proof fn lemma_support_never_shrinks(
    ledger: SupportLedgerView,
    report: SupportView,
    voter: ReplicaId,
    feature: Feature,
)
    requires
        ledger.supports(voter, feature),
    ensures
        ledger.presented(report).supports(voter, feature),
{
}

/// The first feature of `held` that is not in `kept`, in order.
fn first_dropped(held: &OrdSet<Feature>, kept: &OrdSet<Feature>) -> (r: Option<Feature>)
    ensures
        match r {
            Some(f) => !held@.subset_of(kept@) && f == in_order::<Feature>(
                held@.difference(kept@),
            )[0],
            None => held@.subset_of(kept@),
        },
{
    let n: usize = held.len();
    let ghost order = in_order::<Feature>(held@);
    let ghost gone = held@.difference(kept@);
    proof {
        lemma_in_order::<Feature>(held@);
        lemma_in_order::<Feature>(gone);
    }
    let mut i: usize = 0;
    while i < n
        invariant
            i <= n == held@.len(),
            order == in_order::<Feature>(held@),
            order.len() == n,
            crate::ordered::ascending::<Feature>(order),
            forall|x: Feature| #[trigger] order.contains(x) <==> held@.contains(x),
            gone == held@.difference(kept@),
            crate::ordered::ascending::<Feature>(in_order::<Feature>(gone)),
            forall|x: Feature| #[trigger]
                in_order::<Feature>(gone).contains(x) <==> gone.contains(x),
            forall|j: int| 0 <= j < i ==> kept@.contains(#[trigger] order[j]),
        decreases n - i,
    {
        let f = *held.at(i);
        if !kept.contains(&f) {
            proof {
                let dropped = in_order::<Feature>(gone);
                assert(gone.contains(f));
                assert(dropped.contains(f));
                let p = choose|p: int| 0 <= p < dropped.len() && dropped[p] == f;
                let first = dropped[0];
                assert(dropped.contains(first));
                assert(order.contains(first));
                let q = choose|q: int| 0 <= q < order.len() && order[q] == first;
                if p > 0 {
                    assert(Feature::before(dropped[0], dropped[p]));
                    if q < i {
                        assert(kept@.contains(order[q]));
                    } else if q > i {
                        assert(Feature::before(order[i as int], order[q]));
                    }
                }
            }
            return Some(f);
        }
        i = i + 1;
    }
    proof {
        assert forall|x: Feature| held@.contains(x) implies kept@.contains(x) by {
            assert(order.contains(x));
            let j = choose|j: int| 0 <= j < order.len() && order[j] == x;
            assert(kept@.contains(order[j]));
        }
    }
    None
}

impl SupportLedger {
    /// An empty ledger for `voters`, where `known` are the features there
    /// are.
    pub fn new(voters: EpochVoters, known: OrdSet<Feature>) -> (r: Self)
        ensures
            r@ == (SupportLedgerView { voters: voters@, known: known@, reported: Map::empty() }),
    {
        SupportLedger { voters, known, reported: OrdMap::new() }
    }

    /// A ledger rebuilt from durable reports.
    pub fn recovered(voters: EpochVoters, known: OrdSet<Feature>, reports: &Vec<Support>) -> (r:
        Self)
        ensures
            r@ == (SupportLedgerView {
                voters: voters@,
                known: known@,
                reported: Map::empty(),
            }).presented_all(views(reports@)),
    {
        let mut ledger = SupportLedger::new(voters, known);
        let ghost start = ledger@;
        let ghost all = views(reports@);
        let mut i: usize = 0;
        while i < reports.len()
            invariant
                i <= reports@.len(),
                all == views(reports@),
                ledger@ == start.presented_all(all.take(i as int)),
            decreases reports@.len() - i,
        {
            let _ = ledger.record(&reports[i]);
            proof {
                assert(all.take(i + 1).drop_last() =~= all.take(i as int));
                assert(all.take(i + 1).last() == reports@[i as int]@);
            }
            i = i + 1;
        }
        proof {
            assert(all.take(all.len() as int) =~= all);
        }
        ledger
    }

    /// The configuration this ledger is for.
    pub fn epoch(&self) -> (r: ConfigurationEpoch)
        ensures
            r == self@.voters.epoch,
    {
        self.voters.epoch()
    }

    /// What `voter` reported, if anything.
    pub fn reported(&self, voter: &ReplicaId) -> (r: Option<&OrdSet<Feature>>)
        ensures
            r is Some <==> self@.reported.contains_key(*voter),
            r is Some ==> r->0@ == self@.reported[*voter],
    {
        self.reported.get(voter)
    }

    /// Record one report.
    pub fn record(&mut self, report: &Support) -> (r: Result<(), SupportError>)
        ensures
            final(self)@ == old(self)@.presented(report@),
            match old(self)@.refusal(report@) {
                Some(e) => r == Err::<(), SupportError>(e),
                None => r is Ok,
            },
    {
        if report.epoch != self.voters.epoch() {
            return Err(SupportError::EpochMismatch);
        }
        if !self.voters.is_voter(&report.voter) {
            return Err(SupportError::NotAVoter);
        }
        if let Some(held) = self.reported.get(&report.voter) {
            if let Some(feature) = first_dropped(held, &report.features) {
                return Err(SupportError::Withdrawn { feature });
            }
        }
        self.reported.insert(report.voter, report.features.dup());
        Ok(())
    }

    fn supports(&self, voter: &ReplicaId, feature: &Feature) -> (r: bool)
        ensures
            r == self@.supports(*voter, *feature),
    {
        match self.reported.get(voter) {
            Some(features) => features.contains(feature),
            None => false,
        }
    }

    /// Which voters have not reported `feature`, in identifier order.
    pub fn missing(&self, feature: Feature) -> (r: Vec<ReplicaId>)
        ensures
            r@ == in_order::<ReplicaId>(self@.missing(feature)),
            (r@.len() == 0) == (forall|v: ReplicaId| #[trigger]
                self@.voters.voters.contains(v) ==> self@.supports(v, feature)),
    {
        let voters = self.voters.voters();
        let n: usize = voters.len();
        let ghost order = in_order::<ReplicaId>(voters@);
        let ghost goal = self@.missing(feature);
        proof {
            lemma_in_order::<ReplicaId>(voters@);
        }
        let mut out: OrdSet<ReplicaId> = OrdSet::new();
        let mut i: usize = 0;
        proof {
            assert(out@ =~= goal.intersect(order.take(0).to_set()));
        }
        while i < n
            invariant
                i <= n == voters@.len(),
                voters@ == self@.voters.voters,
                order == in_order::<ReplicaId>(voters@),
                order.len() == n,
                goal == self@.missing(feature),
                out@ == goal.intersect(order.take(i as int).to_set()),
            decreases n - i,
        {
            let voter = *voters.at(i);
            if !self.supports(&voter, &feature) {
                out.insert(voter);
            }
            proof {
                lemma_take_set(order, i as int);
                assert(out@ =~= goal.intersect(order.take(i + 1).to_set()));
            }
            i = i + 1;
        }
        proof {
            assert(order.take(n as int) =~= order);
            assert(out@ =~= goal) by {
                assert forall|v: ReplicaId| goal.contains(v) implies order.to_set().contains(v) by {
                    assert(order.contains(v));
                }
            }
        }
        let r = out.to_vec();
        proof {
            assert(views(r@) =~= r@);
            lemma_in_order::<ReplicaId>(goal);
            if r@.len() == 0 {
                assert forall|v: ReplicaId| #[trigger] self@.voters.voters.contains(v) implies self@.supports(
                    v,
                    feature,
                ) by {
                    if !self@.supports(v, feature) {
                        assert(goal.contains(v));
                        assert(in_order::<ReplicaId>(goal).contains(v));
                    }
                }
            } else {
                let v = r@[0];
                assert(in_order::<ReplicaId>(goal).contains(v));
                assert(goal.contains(v));
            }
        }
        r
    }

    /// The features every configured voter has reported.
    pub fn unanimous(&self) -> (r: OrdSet<Feature>)
        ensures
            r@ == self@.unanimous(),
    {
        let n: usize = self.known.len();
        let ghost order = in_order::<Feature>(self.known@);
        let ghost goal = self@.unanimous();
        proof {
            lemma_in_order::<Feature>(self.known@);
        }
        let mut out: OrdSet<Feature> = OrdSet::new();
        let mut i: usize = 0;
        proof {
            assert(out@ =~= goal.intersect(order.take(0).to_set()));
        }
        while i < n
            invariant
                i <= n == self.known@.len(),
                order == in_order::<Feature>(self.known@),
                order.len() == n,
                goal == self@.unanimous(),
                out@ == goal.intersect(order.take(i as int).to_set()),
            decreases n - i,
        {
            let feature = *self.known.at(i);
            let missing = self.missing(feature);
            if missing.len() == 0 {
                out.insert(feature);
            }
            proof {
                lemma_take_set(order, i as int);
                assert(out@ =~= goal.intersect(order.take(i + 1).to_set()));
            }
            i = i + 1;
        }
        proof {
            assert(order.take(n as int) =~= order);
            assert(out@ =~= goal) by {
                assert forall|f: Feature| goal.contains(f) implies order.to_set().contains(f) by {
                    assert(order.contains(f));
                }
            }
        }
        out
    }
}

/// Why an activation was refused.
#[derive(Debug, PartialEq, Eq)]
pub enum ActivationError {
    /// The request is for another configuration.
    EpochMismatch,
    /// At least one configured voter has not reported support.
    NotUnanimous {
        /// The feature.
        feature: Feature,
        /// Voters that have not reported it.
        missing: Vec<ReplicaId>,
    },
    /// The feature is already active; activation is idempotent but the
    /// caller is told, because a second activation is usually a second
    /// operator.
    AlreadyActive,
}

/// The features a cluster has activated.
///
/// Monotone: activating adds, and nothing removes.
#[derive(Debug)]
pub struct ActiveFeatures {
    active: OrdSet<Feature>,
}

impl View for ActiveFeatures {
    type V = Set<Feature>;

    closed spec fn view(&self) -> Set<Feature> {
        self.active@
    }
}

impl ActiveFeatures {
    /// Nothing active: a cluster at genesis.
    pub fn new() -> (r: Self)
        ensures
            r@ == Set::<Feature>::empty(),
    {
        ActiveFeatures { active: OrdSet::new() }
    }

    /// Rebuilt from a durable record.
    pub fn recovered(active: OrdSet<Feature>) -> (r: Self)
        ensures
            r@ == active@,
    {
        ActiveFeatures { active }
    }

    /// Whether `feature` is active.
    pub fn is_active(&self, feature: Feature) -> (r: bool)
        ensures
            r == self@.contains(feature),
    {
        self.active.contains(&feature)
    }

    /// The active set, in identifier order.
    pub fn active(&self) -> (r: &OrdSet<Feature>)
        ensures
            r@ == self@,
    {
        &self.active
    }

    /// Activate `feature`, given what the voters have reported.
    ///
    /// The ledger is the evidence and the only evidence: there is no
    /// argument by which a caller asserts that the voters are ready.
    pub fn activate(&mut self, feature: Feature, ledger: &SupportLedger, epoch: ConfigurationEpoch) -> (r:
        Result<(), ActivationError>)
        ensures
            match r {
                Ok(()) => ledger@.voters.epoch == epoch && !old(self)@.contains(feature)
                    && ledger@.unanimous().contains(feature) && final(self)@ == old(self)@.insert(
                    feature,
                ),
                Err(ActivationError::EpochMismatch) => ledger@.voters.epoch != epoch && final(self)@ == old(self)@,
                Err(ActivationError::AlreadyActive) => ledger@.voters.epoch == epoch && old(self)@.contains(feature) && final(self)@ == old(self)@,
                Err(ActivationError::NotUnanimous { feature: f, missing }) => ledger@.voters.epoch
                    == epoch && !old(self)@.contains(feature) && !ledger@.unanimous().contains(
                    feature,
                ) && f == feature && missing@ == in_order::<ReplicaId>(ledger@.missing(feature))
                    && final(self)@ == old(self)@,
            },
            old(self)@.subset_of(final(self)@),
    {
        if ledger.epoch() != epoch {
            return Err(ActivationError::EpochMismatch);
        }
        if self.active.contains(&feature) {
            return Err(ActivationError::AlreadyActive);
        }
        let unanimous = ledger.unanimous();
        if !unanimous.contains(&feature) {
            return Err(
                ActivationError::NotUnanimous { feature, missing: ledger.missing(feature) },
            );
        }
        self.active.insert(feature);
        Ok(())
    }

    /// Whether a binary supporting `supported` may serve a cluster with
    /// this active set; where it may not, what it is missing.
    pub fn admits(&self, supported: &OrdSet<Feature>) -> (r: Result<(), Vec<Feature>>)
        ensures
            match r {
                Ok(()) => self@.subset_of(supported@),
                Err(missing) => !self@.subset_of(supported@) && missing@ == in_order::<Feature>(
                    self@.difference(supported@),
                ),
            },
    {
        let n: usize = self.active.len();
        let ghost order = in_order::<Feature>(self.active@);
        let ghost goal = self@.difference(supported@);
        proof {
            lemma_in_order::<Feature>(self.active@);
        }
        let mut out: OrdSet<Feature> = OrdSet::new();
        let mut i: usize = 0;
        proof {
            assert(out@ =~= goal.intersect(order.take(0).to_set()));
        }
        while i < n
            invariant
                i <= n == self.active@.len(),
                order == in_order::<Feature>(self.active@),
                order.len() == n,
                goal == self@.difference(supported@),
                out@ == goal.intersect(order.take(i as int).to_set()),
            decreases n - i,
        {
            let feature = *self.active.at(i);
            if !supported.contains(&feature) {
                out.insert(feature);
            }
            proof {
                lemma_take_set(order, i as int);
                assert(out@ =~= goal.intersect(order.take(i + 1).to_set()));
            }
            i = i + 1;
        }
        proof {
            assert(order.take(n as int) =~= order);
            assert(out@ =~= goal) by {
                assert forall|f: Feature| goal.contains(f) implies order.to_set().contains(f) by {
                    assert(order.contains(f));
                }
            }
        }
        if out.is_empty() {
            proof {
                assert forall|f: Feature| self@.contains(f) implies supported@.contains(f) by {
                    assert(!goal.contains(f));
                }
            }
            Ok(())
        } else {
            let missing = out.to_vec();
            proof {
                assert(views(missing@) =~= missing@);
                if self@.subset_of(supported@) {
                    assert(goal =~= Set::<Feature>::empty());
                }
            }
            Err(missing)
        }
    }
}

} // verus!
