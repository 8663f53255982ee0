//! Quorum policy.
//!
//! Every fast and slow quorum includes the ballot's leader. Slow quorums
//! are majorities. C2 uses one fixed majority-sized fast set bound to the
//! ballot; C1 uses any set of more than three quarters of the voters. A
//! different fast set needs a higher ballot.

use vstd::prelude::*;

use crate::ids::{Ballot, ConfigurationEpoch, ReplicaId};
use crate::ordered::{Dup, Key, OrdSet, in_order, lemma_in_order};

verus! {

/// Which fast-quorum class a ballot uses.
#[derive(Clone, Copy, Debug, PartialEq, Eq, Hash, Structural)]
pub enum FastQuorumClass {
    /// Any fast quorum of more than three quarters of the voters.
    C1,
    /// One fixed fast set of majority size, immutable within the ballot.
    C2,
}

impl View for FastQuorumClass {
    type V = FastQuorumClass;

    open spec fn view(&self) -> FastQuorumClass {
        *self
    }
}

/// Why a ballot configuration is invalid.
#[derive(Clone, Copy, Debug, PartialEq, Eq, Structural)]
pub enum ConfigurationError {
    /// No voters.
    NoVoters,
    /// The ballot's leader is not a voter.
    LeaderNotVoter,
    /// The ballot's epoch differs from the configuration epoch.
    EpochMismatch,
    /// The fast set names a non-voter.
    FastSetNotVoters,
    /// The fast set does not include the leader.
    FastSetExcludesLeader,
    /// The C2 fast set is not exactly a majority.
    FastSetNotMajority,
}

/// The size of a majority of `n` voters.
pub open spec fn majority_of(n: nat) -> nat {
    n / 2 + 1
}

/// Two majorities of one voter set have a voter in common.
pub proof fn lemma_majorities_intersect(
    voters: Set<ReplicaId>,
    a: Set<ReplicaId>,
    b: Set<ReplicaId>,
) -> (common: ReplicaId)
    requires
        voters.finite(),
        a.subset_of(voters),
        b.subset_of(voters),
        a.len() >= majority_of(voters.len()),
        b.len() >= majority_of(voters.len()),
    ensures
        a.contains(common),
        b.contains(common),
{
    lemma_overlap(voters, a, b);
    let both = a.intersect(b);
    assert(both.len() > 0);
    let common = both.choose();
    assert(both.contains(common)) by {
        if both =~= Set::<ReplicaId>::empty() {
            assert(both.len() == 0);
        }
    }
    common
}

/// Sets of voters share at least what their sizes exceed the whole by.
pub proof fn lemma_overlap(voters: Set<ReplicaId>, a: Set<ReplicaId>, b: Set<ReplicaId>)
    requires
        voters.finite(),
        a.subset_of(voters),
        b.subset_of(voters),
    ensures
        a.finite(),
        b.finite(),
        a.intersect(b).finite(),
        a.intersect(b).len() + voters.len() >= a.len() + b.len(),
{
    vstd::set_lib::lemma_len_subset(a, voters);
    vstd::set_lib::lemma_len_subset(b, voters);
    vstd::set_lib::lemma_set_intersect_union_lens(a, b);
    assert(a.union(b).subset_of(voters));
    vstd::set_lib::lemma_len_subset(a.union(b), voters);
    vstd::set_lib::lemma_len_subset(a.intersect(b), voters);
}

/// The exact voters of one configuration epoch.
#[derive(Debug)]
pub struct EpochVoters {
    epoch: ConfigurationEpoch,
    voters: OrdSet<ReplicaId>,
}

/// What an epoch's voters are.
#[verifier::ext_equal]
pub struct EpochVotersView {
    /// Configuration epoch.
    pub epoch: ConfigurationEpoch,
    /// Its voters.
    pub voters: Set<ReplicaId>,
}

impl View for EpochVoters {
    type V = EpochVotersView;

    closed spec fn view(&self) -> EpochVotersView {
        EpochVotersView { epoch: self.epoch, voters: self.voters@ }
    }
}

impl Dup for EpochVoters {
    fn dup(&self) -> (r: Self) {
        EpochVoters { epoch: self.epoch, voters: self.voters.dup() }
    }
}

impl EpochVoters {
    /// The voters of `epoch`.
    pub fn new(epoch: ConfigurationEpoch, voters: OrdSet<ReplicaId>) -> (r: Self)
        ensures
            r@ == (EpochVotersView { epoch, voters: voters@ }),
    {
        EpochVoters { epoch, voters }
    }

    /// Configuration epoch.
    pub fn epoch(&self) -> (r: ConfigurationEpoch)
        ensures
            r == self@.epoch,
    {
        self.epoch
    }

    /// The voters.
    pub fn voters(&self) -> (r: &OrdSet<ReplicaId>)
        ensures
            r@ == self@.voters,
    {
        &self.voters
    }

    /// Whether `replica` votes in the epoch.
    pub fn is_voter(&self, replica: &ReplicaId) -> (r: bool)
        ensures
            r == self@.voters.contains(*replica),
    {
        self.voters.contains(replica)
    }

    /// A majority of the voters.
    pub fn majority(&self) -> (r: usize)
        ensures
            r == majority_of(self@.voters.len()),
            self@.voters.finite(),
    {
        let n: usize = self.voters.len();
        n / 2 + 1
    }
}

/// The quorum policy of one ballot in one configuration epoch.
///
/// Only [`BallotConfiguration::c2`] and [`BallotConfiguration::c1`]
/// construct one, so every value in existence satisfies the quorum
/// invariants (the leader is a voter in every fast set; a C2 fast set is
/// exactly a majority).
#[derive(Debug)]
pub struct BallotConfiguration {
    /// Configuration epoch (exact voter identities).
    epoch: ConfigurationEpoch,
    /// Ballot; its leader leads every quorum.
    ballot: Ballot,
    /// Exact voters of the epoch.
    voters: OrdSet<ReplicaId>,
    /// C2: the fixed fast set. C1: every voter is eligible.
    fast_set: OrdSet<ReplicaId>,
    /// Fast-quorum class.
    class: FastQuorumClass,
}

/// What a ballot configuration states.
#[verifier::ext_equal]
pub struct ConfigView {
    /// Configuration epoch.
    pub epoch: ConfigurationEpoch,
    /// Ballot.
    pub ballot: Ballot,
    /// Exact voters of the epoch.
    pub voters: Set<ReplicaId>,
    /// The fast set.
    pub fast_set: Set<ReplicaId>,
    /// Fast-quorum class.
    pub class: FastQuorumClass,
}

impl ConfigView {
    /// Slow quorum size: a majority.
    pub open spec fn slow_size(self) -> nat {
        majority_of(self.voters.len())
    }

    /// Fast quorum size: the fixed set for C2, more than three quarters
    /// for C1.
    pub open spec fn fast_size(self) -> nat {
        match self.class {
            FastQuorumClass::C2 => self.fast_set.len(),
            FastQuorumClass::C1 => (3 * self.voters.len()) / 4 + 1,
        }
    }

    /// A fast acknowledgement from `replica` can count.
    pub open spec fn fast_eligible(self, replica: ReplicaId) -> bool {
        match self.class {
            FastQuorumClass::C2 => self.fast_set.contains(replica),
            FastQuorumClass::C1 => self.voters.contains(replica),
        }
    }

    /// Fast quorums are large enough for two of them to share a majority, or
    /// there is one fast set and they are it.
    pub open spec fn fast_quorums_share_a_majority(self) -> bool {
        match self.class {
            FastQuorumClass::C2 => true,
            FastQuorumClass::C1 => 2 * self.fast_size() >= self.voters.len() + self.slow_size(),
        }
    }

    /// The first rule the configuration breaks, if any.
    pub open spec fn defect(self) -> Option<ConfigurationError> {
        if self.voters == Set::<ReplicaId>::empty() {
            Some(ConfigurationError::NoVoters)
        } else if self.ballot.epoch != self.epoch {
            Some(ConfigurationError::EpochMismatch)
        } else if !self.voters.contains(self.ballot.leader) {
            Some(ConfigurationError::LeaderNotVoter)
        } else if !self.fast_set.subset_of(self.voters) {
            Some(ConfigurationError::FastSetNotVoters)
        } else if !self.fast_set.contains(self.ballot.leader) {
            Some(ConfigurationError::FastSetExcludesLeader)
        } else if self.class == FastQuorumClass::C2 && self.fast_set.len() != self.slow_size() {
            Some(ConfigurationError::FastSetNotMajority)
        } else {
            None
        }
    }

    /// A fast quorum of the configuration: enough eligible replicas, the
    /// leader among them.
    pub open spec fn fast_quorum(self, q: Set<ReplicaId>) -> bool {
        &&& q.contains(self.ballot.leader)
        &&& forall|r: ReplicaId| #[trigger] q.contains(r) ==> self.fast_eligible(r)
        &&& q.len() >= self.fast_size()
    }

    /// A slow quorum of the configuration: a majority of the voters, the
    /// leader among them.
    pub open spec fn slow_quorum(self, q: Set<ReplicaId>) -> bool {
        &&& q.contains(self.ballot.leader)
        &&& q.subset_of(self.voters)
        &&& q.len() >= self.slow_size()
    }
}

/// Any two fast quorums of a valid configuration share a majority of the
/// voters.
pub proof fn lemma_fast_quorums_intersect(
    config: ConfigView,
    a: Set<ReplicaId>,
    b: Set<ReplicaId>,
)
    requires
        config.voters.finite(),
        config.defect() is None,
        config.fast_quorum(a),
        config.fast_quorum(b),
    ensures
        a.intersect(b).len() >= config.slow_size(),
{
    assert(a.subset_of(config.voters)) by {
        assert forall|r: ReplicaId| a.contains(r) implies config.voters.contains(r) by {
            assert(config.fast_eligible(r));
        }
    }
    assert(b.subset_of(config.voters)) by {
        assert forall|r: ReplicaId| b.contains(r) implies config.voters.contains(r) by {
            assert(config.fast_eligible(r));
        }
    }
    lemma_overlap(config.voters, a, b);
    match config.class {
        FastQuorumClass::C1 => {},
        FastQuorumClass::C2 => {
            vstd::set_lib::lemma_len_subset(config.fast_set, config.voters);
            assert(a.subset_of(config.fast_set)) by {
                assert forall|r: ReplicaId| a.contains(r) implies config.fast_set.contains(r) by {
                    assert(config.fast_eligible(r));
                }
            }
            assert(b.subset_of(config.fast_set)) by {
                assert forall|r: ReplicaId| b.contains(r) implies config.fast_set.contains(r) by {
                    assert(config.fast_eligible(r));
                }
            }
            lemma_overlap(config.fast_set, a, b);
        },
    }
}

/// A fast quorum and a slow quorum of one ballot share a voter besides
/// being led alike.
pub proof fn lemma_fast_and_slow_intersect(
    config: ConfigView,
    fast: Set<ReplicaId>,
    slow: Set<ReplicaId>,
)
    requires
        config.voters.finite(),
        config.defect() is None,
        config.fast_quorum(fast),
        config.slow_quorum(slow),
    ensures
        fast.contains(config.ballot.leader) && slow.contains(config.ballot.leader),
        fast.intersect(slow).len() > 0,
{
    let both = fast.intersect(slow);
    assert(both.contains(config.ballot.leader));
    vstd::set_lib::lemma_len_subset(slow, config.voters);
    vstd::set_lib::lemma_len_subset(both, slow);
    if both.len() == 0 {
        assert(both =~= Set::<ReplicaId>::empty());
    }
}

impl View for BallotConfiguration {
    type V = ConfigView;

    closed spec fn view(&self) -> ConfigView {
        ConfigView {
            epoch: self.epoch,
            ballot: self.ballot,
            voters: self.voters@,
            fast_set: self.fast_set@,
            class: self.class,
        }
    }
}

impl Dup for BallotConfiguration {
    fn dup(&self) -> (r: Self) {
        proof {
            use_type_invariant(self);
        }
        let voters = self.voters.dup();
        let fast_set = self.fast_set.dup();
        BallotConfiguration {
            epoch: self.epoch,
            ballot: self.ballot,
            voters,
            fast_set,
            class: self.class,
        }
    }
}

/// The leader and the next voters in identity order, wrapping.
pub open spec fn default_fast_set(voters: Set<ReplicaId>, leader: ReplicaId) -> Set<ReplicaId> {
    let order = in_order::<ReplicaId>(voters);
    let start = order.index_of(leader);
    Seq::new(majority_of(order.len()), |i: int| order[(start + i) % (order.len() as int)]).to_set()
}

fn validate(
    epoch: ConfigurationEpoch,
    ballot: Ballot,
    voters: &OrdSet<ReplicaId>,
    fast_set: &OrdSet<ReplicaId>,
    class: FastQuorumClass,
) -> (r: Result<(), ConfigurationError>)
    ensures
        match (ConfigView {
            epoch,
            ballot,
            voters: voters@,
            fast_set: fast_set@,
            class,
        }).defect() {
            Some(e) => r == Err::<(), ConfigurationError>(e),
            None => r is Ok,
        },
{
    if voters.is_empty() {
        return Err(ConfigurationError::NoVoters);
    }
    if ballot.epoch != epoch {
        return Err(ConfigurationError::EpochMismatch);
    }
    if !voters.contains(&ballot.leader) {
        return Err(ConfigurationError::LeaderNotVoter);
    }
    if !fast_set.is_subset(voters) {
        return Err(ConfigurationError::FastSetNotVoters);
    }
    if !fast_set.contains(&ballot.leader) {
        return Err(ConfigurationError::FastSetExcludesLeader);
    }
    if class == FastQuorumClass::C2 && fast_set.len() != voters.len() / 2 + 1 {
        return Err(ConfigurationError::FastSetNotMajority);
    }
    Ok(())
}

impl BallotConfiguration {
    #[verifier::type_invariant]
    spec fn inv(self) -> bool {
        self@.defect() is None && self.voters@.finite() && self.fast_set@.finite()
    }

    /// Every configuration keeps the quorum rules.
    pub fn valid(&self)
        ensures
            self@.defect() is None,
            self@.voters.finite(),
            self@.fast_set.finite(),
    {
        proof {
            use_type_invariant(self);
        }
    }

    /// A configuration of these fields, if it keeps the quorum rules.
    pub fn from_parts(
        epoch: ConfigurationEpoch,
        ballot: Ballot,
        voters: OrdSet<ReplicaId>,
        fast_set: OrdSet<ReplicaId>,
        class: FastQuorumClass,
    ) -> (r: Result<Self, ConfigurationError>)
        ensures
            ({
                let wanted = ConfigView {
                    epoch,
                    ballot,
                    voters: voters@,
                    fast_set: fast_set@,
                    class,
                };
                match r {
                    Ok(config) => wanted.defect() is None && config@ == wanted,
                    Err(e) => wanted.defect() == Some(e),
                }
            }),
    {
        match validate(epoch, ballot, &voters, &fast_set, class) {
            Err(e) => Err(e),
            Ok(()) => {
                let _ = voters.len();
                let _ = fast_set.len();
                Ok(BallotConfiguration { epoch, ballot, voters, fast_set, class })
            },
        }
    }

    /// A C2 configuration with a fixed fast set (majority-sized, including
    /// the leader).
    pub fn c2(
        epoch: ConfigurationEpoch,
        ballot: Ballot,
        voters: OrdSet<ReplicaId>,
        fast_set: OrdSet<ReplicaId>,
    ) -> (r: Result<Self, ConfigurationError>)
        ensures
            ({
                let wanted = ConfigView {
                    epoch,
                    ballot,
                    voters: voters@,
                    fast_set: fast_set@,
                    class: FastQuorumClass::C2,
                };
                match r {
                    Ok(config) => wanted.defect() is None && config@ == wanted,
                    Err(e) => wanted.defect() == Some(e),
                }
            }),
    {
        Self::from_parts(epoch, ballot, voters, fast_set, FastQuorumClass::C2)
    }

    /// The default C2 fast set of a ballot: the leader plus the next `N/2`
    /// voters in identity order, wrapping. Deterministic on every replica.
    #[verifier::rlimit(40)]
    pub fn c2_default(
        epoch: ConfigurationEpoch,
        ballot: Ballot,
        voters: OrdSet<ReplicaId>,
    ) -> (r: Result<Self, ConfigurationError>)
        ensures
            !voters@.contains(ballot.leader) ==> r == Err::<Self, ConfigurationError>(
                ConfigurationError::LeaderNotVoter,
            ),
            voters@.contains(ballot.leader) && ballot.epoch != epoch ==> r == Err::<
                Self,
                ConfigurationError,
            >(ConfigurationError::EpochMismatch),
            voters@.contains(ballot.leader) && ballot.epoch == epoch ==> r is Ok && r->Ok_0@ == (
            ConfigView {
                epoch,
                ballot,
                voters: voters@,
                fast_set: default_fast_set(voters@, ballot.leader),
                class: FastQuorumClass::C2,
            }),
    {
        let n: usize = voters.len();
        let ghost order = in_order::<ReplicaId>(voters@);
        proof {
            lemma_in_order::<ReplicaId>(voters@);
        }
        let mut start: usize = 0;
        while start < n && *voters.at(start) != ballot.leader
            invariant
                start <= n == voters@.len(),
                order == in_order::<ReplicaId>(voters@),
                forall|j: int| 0 <= j < start ==> order[j] != ballot.leader,
            decreases n - start,
        {
            start = start + 1;
        }
        if start == n {
            proof {
                if voters@.contains(ballot.leader) {
                    assert(order.contains(ballot.leader));
                }
            }
            return Err(ConfigurationError::LeaderNotVoter);
        }
        proof {
            assert(order[start as int] == ballot.leader);
            assert(order.contains(ballot.leader));
            let k = order.index_of(ballot.leader);
            assert(order[k] == ballot.leader);
            assert(k == start);
        }
        let size: usize = n / 2 + 1;
        let ghost picked = Seq::new(
            majority_of(order.len()),
            |i: int| order[(start + i) % (order.len() as int)],
        );
        let mut fast_set: OrdSet<ReplicaId> = OrdSet::new();
        let mut i: usize = 0;
        let mut at: usize = start;
        proof {
            assert(picked.take(0).to_set() =~= Set::<ReplicaId>::empty());
            vstd::arithmetic::div_mod::lemma_small_mod(start as nat, n as nat);
        }
        while i < size
            invariant
                i <= size == n / 2 + 1,
                start < n == voters@.len(),
                order == in_order::<ReplicaId>(voters@),
                order.len() == n,
                order.no_duplicates(),
                picked == Seq::new(
                    majority_of(order.len()),
                    |i: int| order[(start + i) % (order.len() as int)],
                ),
                at == (start + i) % (n as int),
                fast_set@ == picked.take(i as int).to_set(),
                fast_set@.finite(),
                fast_set@.len() == i,
                fast_set@.subset_of(voters@),
                voters@.finite(),
            decreases size - i,
        {
            let r = *voters.at(at);
            fast_set.insert(r);
            proof {
                let a = picked.take(i as int);
                let b = picked.take(i + 1);
                assert(picked[i as int] == order[at as int]);
                assert(b =~= a.push(r));
                assert(!a.to_set().contains(r)) by {
                    if a.to_set().contains(r) {
                        let j = choose|j: int| 0 <= j < a.len() && a[j] == r;
                        assert(order[(start + j) % (n as int)] == order[at as int]);
                        assert((start + j) % (n as int) == (start + i) % (n as int));
                        lemma_wrap_distinct(start as int, j, i as int, n as int);
                    }
                }
                assert(b.to_set() =~= a.to_set().insert(r)) by {
                    assert forall|x: ReplicaId| b.to_set().contains(x) <==> a.to_set().insert(
                        r,
                    ).contains(x) by {
                        if b.to_set().contains(x) {
                            let j = choose|j: int| 0 <= j < b.len() && b[j] == x;
                            if j < i {
                                assert(a[j] == x);
                            }
                        }
                        if a.to_set().contains(x) {
                            let j = choose|j: int| 0 <= j < a.len() && a[j] == x;
                            assert(b[j] == x);
                        }
                        assert(b[i as int] == r);
                    }
                }
            }
            at = if at + 1 == n {
                0
            } else {
                at + 1
            };
            proof {
                lemma_wrap_next(start as int, i as int, n as int);
            }
            i = i + 1;
        }
        proof {
            assert(picked.take(size as int) =~= picked);
            assert(fast_set@ == default_fast_set(voters@, ballot.leader));
            assert(picked[0] == order[start as int]);
            assert(picked.to_set().contains(picked[0]));
            assert(voters@ != Set::<ReplicaId>::empty());
        }
        BallotConfiguration::c2(epoch, ballot, voters, fast_set)
    }

    /// A C1 configuration: any more-than-three-quarters set that includes
    /// the leader is a fast quorum.
    pub fn c1(epoch: ConfigurationEpoch, ballot: Ballot, voters: OrdSet<ReplicaId>) -> (r: Result<
        Self,
        ConfigurationError,
    >)
        ensures
            ({
                let wanted = ConfigView {
                    epoch,
                    ballot,
                    voters: voters@,
                    fast_set: voters@,
                    class: FastQuorumClass::C1,
                };
                match r {
                    Ok(config) => wanted.defect() is None && config@ == wanted,
                    Err(e) => wanted.defect() == Some(e),
                }
            }),
    {
        let fast_set = voters.dup();
        match validate(epoch, ballot, &voters, &fast_set, FastQuorumClass::C1) {
            Err(e) => Err(e),
            Ok(()) => {
                let _ = voters.len();
                Ok(
                    BallotConfiguration {
                        epoch,
                        ballot,
                        voters,
                        fast_set,
                        class: FastQuorumClass::C1,
                    },
                )
            },
        }
    }

    /// Configuration epoch.
    pub fn epoch(&self) -> (r: ConfigurationEpoch)
        ensures
            r == self@.epoch,
    {
        self.epoch
    }

    /// The ballot.
    pub fn ballot(&self) -> (r: Ballot)
        ensures
            r == self@.ballot,
    {
        self.ballot
    }

    /// Exact voters of the epoch.
    pub fn voters(&self) -> (r: &OrdSet<ReplicaId>)
        ensures
            r@ == self@.voters,
    {
        &self.voters
    }

    /// The fixed fast set (C2) or every voter (C1).
    pub fn fast_set(&self) -> (r: &OrdSet<ReplicaId>)
        ensures
            r@ == self@.fast_set,
    {
        &self.fast_set
    }

    /// Fast-quorum class.
    pub fn class(&self) -> (r: FastQuorumClass)
        ensures
            r == self@.class,
    {
        self.class
    }

    /// Number of voters.
    pub fn voter_count(&self) -> (r: usize)
        ensures
            r == self@.voters.len(),
    {
        self.voters.len()
    }

    /// The ballot's leader.
    pub fn leader(&self) -> (r: ReplicaId)
        ensures
            r == self@.ballot.leader,
    {
        self.ballot.leader
    }

    /// Slow quorum size: a majority (`N/2 + 1`).
    pub fn slow_size(&self) -> (r: usize)
        ensures
            r == self@.slow_size(),
    {
        self.voters.len() / 2 + 1
    }

    /// Fast quorum size: the fixed set for C2, `3N/4 + 1` for C1.
    pub fn fast_size(&self) -> (r: usize)
        ensures
            r == self@.fast_size(),
    {
        match self.class {
            FastQuorumClass::C2 => self.fast_set.len(),
            FastQuorumClass::C1 => {
                let n: usize = self.voters.len();
                let quarters: u128 = (3 * (n as u128)) / 4 + 1;
                quarters as usize
            },
        }
    }

    /// Whether `replica` votes in this epoch.
    pub fn is_voter(&self, replica: &ReplicaId) -> (r: bool)
        ensures
            r == self@.voters.contains(*replica),
    {
        self.voters.contains(replica)
    }

    /// Whether a fast acknowledgement from `replica` can count toward the
    /// fast path of this ballot.
    pub fn fast_eligible(&self, replica: &ReplicaId) -> (r: bool)
        ensures
            r == self@.fast_eligible(*replica),
    {
        match self.class {
            FastQuorumClass::C2 => self.fast_set.contains(replica),
            FastQuorumClass::C1 => self.is_voter(replica),
        }
    }

    /// Whether any two fast quorums intersect in a majority. C2 has one
    /// fast set, so it holds trivially; C1 holds because
    /// `2 * fast_size - N >= slow_size`.
    pub fn fast_quorums_intersect_in_majority(&self) -> (r: bool)
        ensures
            r == self@.fast_quorums_share_a_majority(),
            r,
    {
        match self.class {
            FastQuorumClass::C2 => true,
            FastQuorumClass::C1 => {
                let n: usize = self.voters.len();
                let fast: usize = self.fast_size();
                let slow: usize = self.slow_size();
                2 * (fast as u128) >= n as u128 + slow as u128
            },
        }
    }
}

proof fn lemma_wrap_distinct(start: int, j: int, i: int, n: int)
    by (nonlinear_arith)
    requires
        0 <= start < n,
        0 <= j < i,
        i <= n / 2,
    ensures
        (start + j) % n != (start + i) % n,
{
    let q1 = (start + j) / n;
    let q2 = (start + i) / n;
    assert(start + j == q1 * n + (start + j) % n);
    assert(start + i == q2 * n + (start + i) % n);
    if (start + j) % n == (start + i) % n {
        assert(i - j == (q2 - q1) * n);
        assert(false);
    }
}

proof fn lemma_wrap_next(start: int, i: int, n: int)
    requires
        0 <= start < n,
        0 <= i,
    ensures
        (start + i + 1) % n == (if (start + i) % n + 1 == n {
            0
        } else {
            (start + i) % n + 1
        }),
{
    vstd::arithmetic::div_mod::lemma_fundamental_div_mod(start + i, n);
    let q = (start + i) / n;
    let r = (start + i) % n;
    assert(0 <= r < n) by {
        vstd::arithmetic::div_mod::lemma_mod_bound(start + i, n);
    }
    if r + 1 == n {
        assert(start + i + 1 == n * (q + 1) + 0) by (nonlinear_arith)
            requires
                start + i == n * q + r,
                r + 1 == n,
        ;
        vstd::arithmetic::div_mod::lemma_fundamental_div_mod_converse(start + i + 1, n, q + 1, 0);
    } else {
        assert(start + i + 1 == n * q + (r + 1));
        vstd::arithmetic::div_mod::lemma_fundamental_div_mod_converse(start + i + 1, n, q, r + 1);
    }
}

} // verus!
