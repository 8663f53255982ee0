//! Acknowledgements and learning predicates.
//!
//! A vote set collects one ballot's acknowledgements for one command. It
//! rejects votes from non-voters (observers), from outside the fixed fast
//! set for the fast path, duplicates and wrong ballots, and binds the
//! leader's proposal. Learning:
//!
//! * fast: the leader's proposal plus fast-set members whose dependency
//!   path digest equals the leader's, `fast_size` members in total
//!   including the leader;
//! * slow: the leader's proposal plus adoption acknowledgements (a slow
//!   acknowledgement, or a fast acknowledgement whose dependency set equals
//!   the leader's), `slow_size` members in total including the leader.
//!
//! An acknowledgement made under other admission facts than the leader's
//! proposal agrees with nothing, so no quorum forms across replicas that
//! accepted different facts.

use vstd::prelude::*;

use crate::graph::{AnchorSeq, PathAnchors};
use crate::ids::{Ballot, CommandId, Digest32, ReplicaId};
use crate::lists::{copy_list, members};
use crate::ordered::{Dup, Key, OrdMap, OrdSet, dup_all, in_order, lemma_in_order, views};
use crate::quorum::{BallotConfiguration, ConfigView};

verus! {

/// A fast acknowledgement: the sender's local dependencies and its
/// dependency-path digest for the command's keys. The leader's fast
/// acknowledgement is the leader proposal and carries the sequence number.
#[derive(Debug, PartialEq, Eq)]
pub struct FastAck {
    /// Sender.
    pub replica: ReplicaId,
    /// Ballot.
    pub ballot: Ballot,
    /// Command.
    pub command: CommandId,
    /// Direct dependencies as the sender ordered them.
    pub deps: Vec<CommandId>,
    /// Per-key path digests through the command (leader synchronization
    /// input for followers).
    pub paths: PathAnchors,
    /// Combined digest of the conflict path the sender saw.
    pub path: Digest32,
    /// Digest of the admission the sender accepted the command under.
    pub admission: Digest32,
    /// Leader sequence number (leader proposal only).
    pub seqnum: Option<u64>,
}

/// What a fast acknowledgement states.
#[verifier::ext_equal]
pub struct FastAckView {
    /// Sender.
    pub replica: ReplicaId,
    /// Ballot.
    pub ballot: Ballot,
    /// Command.
    pub command: CommandId,
    /// Direct dependencies as the sender ordered them.
    pub deps: Seq<CommandId>,
    /// Per-key path digests through the command.
    pub paths: AnchorSeq,
    /// Combined digest of the conflict path the sender saw.
    pub path: Digest32,
    /// Digest of the admission the sender accepted the command under.
    pub admission: Digest32,
    /// Leader sequence number (leader proposal only).
    pub seqnum: Option<u64>,
}

impl View for FastAck {
    type V = FastAckView;

    open spec fn view(&self) -> FastAckView {
        FastAckView {
            replica: self.replica,
            ballot: self.ballot,
            command: self.command,
            deps: self.deps@,
            paths: views(self.paths@),
            path: self.path,
            admission: self.admission,
            seqnum: self.seqnum,
        }
    }
}

impl Dup for FastAck {
    fn dup(&self) -> (r: Self) {
        FastAck {
            replica: self.replica,
            ballot: self.ballot,
            command: self.command,
            deps: copy_list(&self.deps),
            paths: dup_all(&self.paths),
            path: self.path,
            admission: self.admission,
            seqnum: self.seqnum,
        }
    }
}

/// A slow acknowledgement: adoption of the leader's order.
#[derive(Clone, Copy, Debug, PartialEq, Eq, Hash, Structural)]
pub struct SlowAck {
    /// Sender.
    pub replica: ReplicaId,
    /// Ballot.
    pub ballot: Ballot,
    /// Command.
    pub command: CommandId,
    /// Digest of the admission the sender accepted the command under.
    pub admission: Digest32,
}

impl View for SlowAck {
    type V = SlowAck;

    open spec fn view(&self) -> SlowAck {
        *self
    }
}

/// One acknowledgement.
#[derive(Debug, PartialEq, Eq)]
pub enum Vote {
    /// Fast acknowledgement or leader proposal.
    Fast(FastAck),
    /// Adoption acknowledgement.
    Slow(SlowAck),
}

/// What an acknowledgement states.
pub enum VoteView {
    /// Fast acknowledgement or leader proposal.
    Fast(FastAckView),
    /// Adoption acknowledgement.
    Slow(SlowAck),
}

impl View for Vote {
    type V = VoteView;

    open spec fn view(&self) -> VoteView {
        match self {
            Vote::Fast(f) => VoteView::Fast(f@),
            Vote::Slow(s) => VoteView::Slow(*s),
        }
    }
}

impl VoteView {
    /// Sender.
    pub open spec fn replica(self) -> ReplicaId {
        match self {
            VoteView::Fast(f) => f.replica,
            VoteView::Slow(s) => s.replica,
        }
    }

    /// Ballot.
    pub open spec fn ballot(self) -> Ballot {
        match self {
            VoteView::Fast(f) => f.ballot,
            VoteView::Slow(s) => s.ballot,
        }
    }

    /// Command.
    pub open spec fn command(self) -> CommandId {
        match self {
            VoteView::Fast(f) => f.command,
            VoteView::Slow(s) => s.command,
        }
    }

    /// The admission the voter acknowledged the command under.
    pub open spec fn admission(self) -> Digest32 {
        match self {
            VoteView::Fast(a) => a.admission,
            VoteView::Slow(a) => a.admission,
        }
    }
}

impl Vote {
    /// Sender.
    pub fn replica(&self) -> (r: ReplicaId)
        ensures
            r == self@.replica(),
    {
        match self {
            Vote::Fast(f) => f.replica,
            Vote::Slow(s) => s.replica,
        }
    }

    /// Ballot.
    pub fn ballot(&self) -> (r: Ballot)
        ensures
            r == self@.ballot(),
    {
        match self {
            Vote::Fast(f) => f.ballot,
            Vote::Slow(s) => s.ballot,
        }
    }

    /// Command.
    pub fn command(&self) -> (r: CommandId)
        ensures
            r == self@.command(),
    {
        match self {
            Vote::Fast(f) => f.command,
            Vote::Slow(s) => s.command,
        }
    }

    /// The admission the voter acknowledged the command under.
    pub fn admission(&self) -> (r: Digest32)
        ensures
            r == self@.admission(),
    {
        match self {
            Vote::Fast(a) => a.admission,
            Vote::Slow(a) => a.admission,
        }
    }
}

/// Why a vote was rejected. Nothing was counted.
#[derive(Clone, Copy, Debug, PartialEq, Eq, Hash, Structural)]
pub enum VoteError {
    /// The sender is not a voter of the epoch (an observer, or a stranger).
    NotAVoter,
    /// A fast acknowledgement from a voter outside the ballot's fast set.
    NotInFastSet,
    /// The vote names another ballot.
    WrongBallot,
    /// The vote names another command.
    WrongCommand,
    /// The sender already voted for this command in this ballot.
    Duplicate,
    /// The leader must send a proposal, not an adoption acknowledgement.
    LeaderSlowAck,
    /// A non-leader vote carried a leader sequence number.
    ForgedProposal,
}

/// A learned decision for the command.
#[derive(Debug, PartialEq, Eq)]
pub enum Learned {
    /// Fast path: the leader's order confirmed by dependency paths.
    Fast {
        /// Dependencies (the leader's).
        deps: Vec<CommandId>,
    },
    /// Slow path: the leader's order adopted by a majority.
    Slow {
        /// Dependencies (the leader's).
        deps: Vec<CommandId>,
    },
}

/// What was learned.
pub enum LearnedView {
    /// Fast path.
    Fast(Seq<CommandId>),
    /// Slow path.
    Slow(Seq<CommandId>),
}

impl View for Learned {
    type V = LearnedView;

    open spec fn view(&self) -> LearnedView {
        match self {
            Learned::Fast { deps } => LearnedView::Fast(deps@),
            Learned::Slow { deps } => LearnedView::Slow(deps@),
        }
    }
}

impl LearnedView {
    /// The learned dependencies.
    pub open spec fn deps(self) -> Seq<CommandId> {
        match self {
            LearnedView::Fast(deps) => deps,
            LearnedView::Slow(deps) => deps,
        }
    }
}

impl Learned {
    /// The learned dependencies.
    pub fn deps(&self) -> (r: &Vec<CommandId>)
        ensures
            r@ == self@.deps(),
    {
        match self {
            Learned::Fast { deps } => deps,
            Learned::Slow { deps } => deps,
        }
    }

    /// Whether it was learned on the fast path.
    pub fn is_fast(&self) -> (r: bool)
        ensures
            r == (self@ is Fast),
    {
        match self {
            Learned::Fast { .. } => true,
            Learned::Slow { .. } => false,
        }
    }
}

/// An optional decision.
pub open spec fn learned_view(l: Option<Learned>) -> Option<LearnedView> {
    match l {
        Some(l) => Some(l@),
        None => None,
    }
}

/// An optional acknowledgement.
pub open spec fn ack_view(a: Option<FastAck>) -> Option<FastAckView> {
    match a {
        Some(a) => Some(a@),
        None => None,
    }
}

/// One ballot's acknowledgements for one command.
#[derive(Debug)]
pub struct VoteSet {
    config: BallotConfiguration,
    command: CommandId,
    leader: Option<FastAck>,
    fast: OrdMap<ReplicaId, FastAck>,
    slow: OrdMap<ReplicaId, Digest32>,
}

/// What a vote set holds.
#[verifier::ext_equal]
pub struct VoteSetView {
    /// Quorum policy of the ballot.
    pub config: ConfigView,
    /// The command voted on.
    pub command: CommandId,
    /// The leader's proposal.
    pub leader: Option<FastAckView>,
    /// Fast acknowledgements by sender.
    pub fast: Map<ReplicaId, FastAckView>,
    /// The admission each adopting voter accepted the command under.
    pub slow: Map<ReplicaId, Digest32>,
}

impl View for VoteSet {
    type V = VoteSetView;

    closed spec fn view(&self) -> VoteSetView {
        VoteSetView {
            config: self.config@,
            command: self.command,
            leader: ack_view(self.leader),
            fast: self.fast@,
            slow: self.slow@,
        }
    }
}

impl VoteSetView {
    /// No vote yet.
    pub open spec fn empty(config: ConfigView, command: CommandId) -> Self {
        VoteSetView { config, command, leader: None, fast: Map::empty(), slow: Map::empty() }
    }

    /// Why `vote` is not counted, if it is not.
    pub open spec fn refusal(self, vote: VoteView) -> Option<VoteError> {
        let replica = vote.replica();
        let is_leader = replica == self.config.ballot.leader;
        if vote.command() != self.command {
            Some(VoteError::WrongCommand)
        } else if vote.ballot() != self.config.ballot {
            Some(VoteError::WrongBallot)
        } else if !self.config.voters.contains(replica) {
            Some(VoteError::NotAVoter)
        } else {
            match vote {
                VoteView::Fast(ack) => if is_leader {
                    if self.leader is Some {
                        Some(VoteError::Duplicate)
                    } else {
                        None
                    }
                } else if ack.seqnum is Some {
                    Some(VoteError::ForgedProposal)
                } else if !self.config.fast_eligible(replica) {
                    Some(VoteError::NotInFastSet)
                } else if self.fast.contains_key(replica) {
                    Some(VoteError::Duplicate)
                } else {
                    None
                },
                VoteView::Slow(_) => if is_leader {
                    Some(VoteError::LeaderSlowAck)
                } else if self.slow.contains_key(replica) {
                    Some(VoteError::Duplicate)
                } else {
                    None
                },
            }
        }
    }

    /// The set once `vote` is counted.
    pub open spec fn counted(self, vote: VoteView) -> Self {
        match vote {
            VoteView::Fast(ack) => if ack.replica == self.config.ballot.leader {
                VoteSetView { leader: Some(ack), ..self }
            } else {
                VoteSetView { fast: self.fast.insert(ack.replica, ack), ..self }
            },
            VoteView::Slow(ack) => VoteSetView {
                slow: self.slow.insert(ack.replica, ack.admission),
                ..self
            },
        }
    }

    /// The set after `vote` was presented.
    pub open spec fn presented(self, vote: VoteView) -> Self {
        if self.refusal(vote) is None {
            self.counted(vote)
        } else {
            self
        }
    }

    /// Fast voters whose path and admission are the leader's.
    pub open spec fn agreeing(self, leader: FastAckView) -> Set<ReplicaId> {
        self.fast.dom().filter(
            |r: ReplicaId|
                self.fast[r].path == leader.path && self.fast[r].admission == leader.admission,
        )
    }

    /// Fast voters whose dependencies and admission are the leader's.
    pub open spec fn matching(self, leader: FastAckView) -> Set<ReplicaId> {
        self.fast.dom().filter(
            |r: ReplicaId|
                self.fast[r].deps.to_set() == leader.deps.to_set() && self.fast[r].admission
                    == leader.admission,
        )
    }

    /// Voters that adopted the leader's order by a slow acknowledgement.
    pub open spec fn adopted(self, leader: FastAckView) -> Set<ReplicaId> {
        self.slow.dom().filter(|r: ReplicaId| self.slow[r] == leader.admission)
    }

    /// The slow predicate: the leader's order adopted by a majority
    /// including the leader.
    pub open spec fn learned_slow(self) -> Option<LearnedView> {
        match self.leader {
            None => None,
            Some(leader) => if self.adopted(leader).union(self.matching(leader)).len() + 1
                >= self.config.slow_size() {
                Some(LearnedView::Slow(leader.deps))
            } else {
                None
            },
        }
    }

    /// The learning predicate; fast learning is preferred when both hold.
    pub open spec fn learned(self) -> Option<LearnedView> {
        match self.leader {
            None => None,
            Some(leader) => if self.agreeing(leader).len() + 1 >= self.config.fast_size() {
                Some(LearnedView::Fast(leader.deps))
            } else {
                self.learned_slow()
            },
        }
    }

    /// Voters whose acknowledgement was counted (leader included).
    pub open spec fn voted(self) -> Set<ReplicaId> {
        let others = self.fast.dom().union(self.slow.dom());
        match self.leader {
            Some(leader) => others.insert(leader.replica),
            None => others,
        }
    }

    /// Only acknowledgements of this command in this ballot, from voters
    /// that may cast them, are held, each under its sender.
    pub open spec fn sound(self) -> bool {
        &&& self.fast.dom().finite()
        &&& self.slow.dom().finite()
        &&& self.leader is Some ==> self.leader->0.replica == self.config.ballot.leader
            && self.leader->0.ballot == self.config.ballot && self.leader->0.command == self.command
        &&& forall|r: ReplicaId| #[trigger]
            self.fast.contains_key(r) ==> self.fast[r].replica == r && self.fast[r].ballot
                == self.config.ballot && self.fast[r].command == self.command
                && self.fast[r].seqnum is None && self.config.fast_eligible(r)
                && self.config.voters.contains(r) && r != self.config.ballot.leader
        &&& forall|r: ReplicaId| #[trigger]
            self.slow.contains_key(r) ==> self.config.voters.contains(r) && r
                != self.config.ballot.leader
    }
}

impl VoteSetView {
    /// Every counted acknowledgement was given under these facts.
    pub open spec fn under(self, admission: Digest32) -> bool {
        &&& self.leader matches Some(leader) ==> leader.admission == admission
        &&& forall|r: ReplicaId| #[trigger]
            self.fast.contains_key(r) ==> self.fast[r].admission == admission
        &&& forall|r: ReplicaId| #[trigger] self.slow.contains_key(r) ==> self.slow[r] == admission
    }

    /// Fast voters with the leader's path.
    pub open spec fn same_path(self, leader: FastAckView) -> Set<ReplicaId> {
        self.fast.dom().filter(|r: ReplicaId| self.fast[r].path == leader.path)
    }

    /// Fast voters with the leader's dependencies.
    pub open spec fn same_deps(self, leader: FastAckView) -> Set<ReplicaId> {
        self.fast.dom().filter(|r: ReplicaId| self.fast[r].deps.to_set() == leader.deps.to_set())
    }

    /// The leader with the fast voters on its path is a fast quorum.
    pub open spec fn fast_by_count(self) -> bool {
        self.leader matches Some(leader) && 1 + self.same_path(leader).len()
            >= self.config.fast_size()
    }

    /// The leader with the slow voters and the fast voters with its
    /// dependencies is a slow quorum.
    pub open spec fn slow_by_count(self) -> bool {
        self.leader matches Some(leader) && 1 + self.slow.dom().union(self.same_deps(leader)).len()
            >= self.config.slow_size()
    }
}

/// Where every acknowledgement was given under the same facts, learning is a
/// plain count of voters: fast with a fast quorum on the leader's path, slow
/// otherwise with a majority after the leader's dependencies.
pub proof fn lemma_learning_is_the_count(set: VoteSetView, admission: Digest32)
    requires
        set.under(admission),
    ensures
        set.learned() is Some <==> set.fast_by_count() || set.slow_by_count(),
        set.learned() is Some && set.learned()->0 is Fast <==> set.fast_by_count(),
{
    if set.leader is Some {
        let leader = set.leader->0;
        assert(set.agreeing(leader) =~= set.same_path(leader));
        assert(set.matching(leader) =~= set.same_deps(leader));
        assert(set.adopted(leader) =~= set.slow.dom());
    }
}

/// A vote set stays sound whatever is presented to it.
pub proof fn lemma_votes_stay_sound(set: VoteSetView, vote: VoteView)
    requires
        set.sound(),
    ensures
        set.presented(vote).sound(),
        VoteSetView::empty(set.config, set.command).sound(),
{
}

/// What was learned stays learned, with the same dependencies, whatever
/// votes follow.
pub proof fn lemma_learning_is_stable(set: VoteSetView, vote: VoteView)
    requires
        set.sound(),
        set.learned() is Some,
    ensures
        set.presented(vote).learned() is Some,
        set.presented(vote).learned()->0.deps() == set.learned()->0.deps(),
        set.learned() is Some && set.learned()->0 is Fast ==> set.presented(vote).learned()
            == set.learned(),
{
    if set.refusal(vote) is None {
        let next = set.counted(vote);
        let leader = set.leader->0;
        lemma_votes_stay_sound(set, vote);
        assert(next.leader == set.leader);
        assert(set.agreeing(leader).subset_of(next.agreeing(leader)));
        assert(set.matching(leader).subset_of(next.matching(leader)));
        assert(set.adopted(leader).subset_of(next.adopted(leader)));
        vstd::set_lib::lemma_len_subset(set.agreeing(leader), next.agreeing(leader));
        let a = set.adopted(leader).union(set.matching(leader));
        let b = next.adopted(leader).union(next.matching(leader));
        assert(a.subset_of(b));
        vstd::set_lib::lemma_len_subset(a, b);
    }
}

/// A command is learned on the fast path only by a fast quorum of the
/// ballot, and on the slow path only by a slow quorum: the leader's
/// proposal is always among the votes, and nothing of another ballot,
/// another command or another admission counts.
pub proof fn lemma_learning_needs_a_quorum(set: VoteSetView)
    requires
        set.sound(),
        set.config.voters.finite(),
        set.config.defect() is None,
        set.learned() is Some,
    ensures
        set.leader is Some,
        set.learned()->0.deps() == set.leader->0.deps,
        set.learned()->0 is Fast ==> set.config.fast_quorum(
            set.agreeing(set.leader->0).insert(set.config.ballot.leader),
        ),
        set.learned()->0 is Slow ==> set.config.slow_quorum(
            set.adopted(set.leader->0).union(set.matching(set.leader->0)).insert(
                set.config.ballot.leader,
            ),
        ),
{
    let leader = set.leader->0;
    let l = set.config.ballot.leader;
    let fast = set.agreeing(leader);
    let slow = set.adopted(leader).union(set.matching(leader));
    assert(fast.finite());
    assert(slow.finite());
    assert(!fast.contains(l)) by {
        if fast.contains(l) {
            assert(set.fast.contains_key(l));
        }
    }
    assert(!slow.contains(l)) by {
        if slow.contains(l) {
            assert(set.fast.contains_key(l) || set.slow.contains_key(l));
        }
    }
    assert forall|r: ReplicaId| #[trigger] fast.insert(l).contains(r) implies set.config.fast_eligible(
        r,
    ) by {
        if r != l {
            assert(set.fast.contains_key(r));
        }
    }
    assert(slow.insert(l).subset_of(set.config.voters)) by {
        assert forall|r: ReplicaId| slow.insert(l).contains(r) implies set.config.voters.contains(
            r,
        ) by {
            if r != l {
                assert(set.fast.contains_key(r) || set.slow.contains_key(r));
            }
        }
    }
}

/// Learners agree: vote sets that heard the same proposal learn the same
/// dependencies, whatever other votes each counted.
pub proof fn lemma_learners_agree(a: VoteSetView, b: VoteSetView)
    requires
        a.learned() is Some,
        b.learned() is Some,
        a.leader == b.leader,
    ensures
        a.learned()->0.deps() == b.learned()->0.deps(),
{
}

/// Dependency sets compare as sets.
pub fn same_set(a: &Vec<CommandId>, b: &Vec<CommandId>) -> (r: bool)
    ensures
        r == (a@.to_set() == b@.to_set()),
{
    let a = members(a);
    let b = members(b);
    a.same(&b)
}

impl VoteSet {
    /// An empty vote set for `command` under `config`.
    pub fn new(config: BallotConfiguration, command: CommandId) -> (r: Self)
        ensures
            r@ == VoteSetView::empty(config@, command),
    {
        VoteSet { config, command, leader: None, fast: OrdMap::new(), slow: OrdMap::new() }
    }

    /// The leader proposal, once received.
    pub fn proposal(&self) -> (r: Option<&FastAck>)
        ensures
            r is Some <==> self@.leader is Some,
            r is Some ==> r->0@ == self@.leader->0,
    {
        match &self.leader {
            Some(ack) => Some(ack),
            None => None,
        }
    }

    /// Voters whose acknowledgement was counted (leader included).
    pub fn voted(&self) -> (r: OrdSet<ReplicaId>)
        ensures
            r@ == self@.voted(),
    {
        let fast = self.fast.keys();
        let slow = self.slow.keys();
        proof {
            lemma_in_order::<ReplicaId>(self.fast@.dom());
            lemma_in_order::<ReplicaId>(self.slow@.dom());
        }
        let mut out = crate::ordered::set_of(&fast);
        let more = crate::ordered::set_of(&slow);
        out.extend(&more);
        if let Some(leader) = &self.leader {
            out.insert(leader.replica);
        }
        out
    }

    /// Count a vote, or reject it with the reason. A replica may contribute
    /// one fast acknowledgement and one adoption acknowledgement; a second
    /// of the same kind is a duplicate.
    pub fn add(&mut self, vote: Vote) -> (r: Result<(), VoteError>)
        ensures
            final(self)@ == old(self)@.presented(vote@),
            match old(self)@.refusal(vote@) {
                Some(e) => r == Err::<(), VoteError>(e),
                None => r is Ok,
            },
    {
        if let Err(e) = self.check(&vote) {
            return Err(e);
        }
        let replica = vote.replica();
        match vote {
            Vote::Fast(ack) => {
                if replica == self.config.leader() {
                    self.leader = Some(ack);
                } else {
                    self.fast.insert(replica, ack);
                }
            },
            Vote::Slow(ack) => {
                self.slow.insert(replica, ack.admission);
            },
        }
        Ok(())
    }

    /// Whether a vote would be counted, and what refuses it where not.
    pub fn check(&self, vote: &Vote) -> (r: Result<(), VoteError>)
        ensures
            match self@.refusal(vote@) {
                Some(e) => r == Err::<(), VoteError>(e),
                None => r is Ok,
            },
    {
        if vote.command() != self.command {
            return Err(VoteError::WrongCommand);
        }
        if vote.ballot() != self.config.ballot() {
            return Err(VoteError::WrongBallot);
        }
        let replica = vote.replica();
        if !self.config.is_voter(&replica) {
            return Err(VoteError::NotAVoter);
        }
        let is_leader = replica == self.config.leader();
        match vote {
            Vote::Fast(ack) => {
                if is_leader {
                    if self.leader.is_some() {
                        return Err(VoteError::Duplicate);
                    }
                } else {
                    if ack.seqnum.is_some() {
                        return Err(VoteError::ForgedProposal);
                    }
                    if !self.config.fast_eligible(&replica) {
                        return Err(VoteError::NotInFastSet);
                    }
                    if self.fast.contains_key(&replica) {
                        return Err(VoteError::Duplicate);
                    }
                }
            },
            Vote::Slow(_) => {
                if is_leader {
                    return Err(VoteError::LeaderSlowAck);
                }
                if self.slow.contains_key(&replica) {
                    return Err(VoteError::Duplicate);
                }
            },
        }
        Ok(())
    }

    /// Voters whose fast acknowledgement carries the leader's path.
    fn agreeing(&self, leader: &FastAck) -> (r: OrdSet<ReplicaId>)
        ensures
            r@ == self@.agreeing(leader@),
    {
        let n: usize = self.fast.len();
        let ghost order = in_order::<ReplicaId>(self.fast@.dom());
        proof {
            lemma_in_order::<ReplicaId>(self.fast@.dom());
        }
        let mut out: OrdSet<ReplicaId> = OrdSet::new();
        let mut i: usize = 0;
        while i < n
            invariant
                i <= n == self.fast@.dom().len(),
                order == in_order::<ReplicaId>(self.fast@.dom()),
                order.len() == n,
                forall|r: ReplicaId|
                    out@.contains(r) <==> self@.agreeing(leader@).contains(r) && exists|j: int|
                        0 <= j < i && #[trigger] order[j] == r,
                forall|x: ReplicaId| #[trigger]
                    order.contains(x) <==> self.fast@.dom().contains(x),
            decreases n - i,
        {
            let replica = *self.fast.key_at(i);
            let ack = self.fast.value_at(i);
            let ghost before = out@;
            if ack.path == leader.path && ack.admission == leader.admission {
                out.insert(replica);
            }
            proof {
                assert forall|r: ReplicaId|
                    out@.contains(r) <==> self@.agreeing(leader@).contains(r) && exists|j: int|
                        0 <= j < i + 1 && #[trigger] order[j] == r by {
                    if before.contains(r) {
                        let j = choose|j: int| 0 <= j < i && #[trigger] order[j] == r;
                        assert(order[j] == r);
                    }
                    assert(order[i as int] == replica);
                }
            }
            i = i + 1;
        }
        proof {
            assert forall|r: ReplicaId| self@.agreeing(leader@).contains(r) implies out@.contains(
                r,
            ) by {
                assert(order.contains(r));
                let j = choose|j: int| 0 <= j < order.len() && order[j] == r;
                assert(order[j] == r);
            }
            assert(out@ =~= self@.agreeing(leader@));
        }
        out
    }

    /// Voters that adopted the leader's order, by either kind of
    /// acknowledgement.
    #[verifier::rlimit(40)]
    fn adopting(&self, leader: &FastAck) -> (r: OrdSet<ReplicaId>)
        ensures
            r@ == self@.adopted(leader@).union(self@.matching(leader@)),
    {
        let n: usize = self.fast.len();
        let m: usize = self.slow.len();
        let ghost fast_order = in_order::<ReplicaId>(self.fast@.dom());
        let ghost slow_order = in_order::<ReplicaId>(self.slow@.dom());
        proof {
            lemma_in_order::<ReplicaId>(self.fast@.dom());
            lemma_in_order::<ReplicaId>(self.slow@.dom());
        }
        let mut out: OrdSet<ReplicaId> = OrdSet::new();
        let mut i: usize = 0;
        while i < m
            invariant
                i <= m == self.slow@.dom().len(),
                slow_order == in_order::<ReplicaId>(self.slow@.dom()),
                slow_order.len() == m,
                forall|r: ReplicaId|
                    out@.contains(r) <==> self@.adopted(leader@).contains(r) && exists|j: int|
                        0 <= j < i && #[trigger] slow_order[j] == r,
            decreases m - i,
        {
            let replica = *self.slow.key_at(i);
            let ghost before = out@;
            if *self.slow.value_at(i) == leader.admission {
                out.insert(replica);
            }
            proof {
                assert forall|r: ReplicaId|
                    out@.contains(r) <==> self@.adopted(leader@).contains(r) && exists|j: int|
                        0 <= j < i + 1 && #[trigger] slow_order[j] == r by {
                    if before.contains(r) {
                        let j = choose|j: int| 0 <= j < i && #[trigger] slow_order[j] == r;
                        assert(slow_order[j] == r);
                    }
                    assert(slow_order[i as int] == replica);
                }
            }
            i = i + 1;
        }
        proof {
            assert forall|r: ReplicaId| self@.adopted(leader@).contains(r) implies out@.contains(
                r,
            ) by {
                assert(slow_order.contains(r));
                let j = choose|j: int| 0 <= j < slow_order.len() && slow_order[j] == r;
                assert(slow_order[j] == r);
            }
            assert(out@ =~= self@.adopted(leader@));
        }
        let mut k: usize = 0;
        while k < n
            invariant
                k <= n == self.fast@.dom().len(),
                fast_order == in_order::<ReplicaId>(self.fast@.dom()),
                fast_order.len() == n,
                forall|r: ReplicaId|
                    out@.contains(r) <==> self@.adopted(leader@).contains(r) || self@.matching(
                        leader@,
                    ).contains(r) && exists|j: int| 0 <= j < k && #[trigger] fast_order[j] == r,
            decreases n - k,
        {
            let replica = *self.fast.key_at(k);
            let ack = self.fast.value_at(k);
            let ghost before = out@;
            if ack.admission == leader.admission && same_set(&ack.deps, &leader.deps) {
                out.insert(replica);
            }
            proof {
                assert forall|r: ReplicaId|
                    out@.contains(r) <==> self@.adopted(leader@).contains(r) || self@.matching(
                        leader@,
                    ).contains(r) && exists|j: int|
                        0 <= j < k + 1 && #[trigger] fast_order[j] == r by {
                    if before.contains(r) && !self@.adopted(leader@).contains(r) {
                        let j = choose|j: int| 0 <= j < k && #[trigger] fast_order[j] == r;
                        assert(fast_order[j] == r);
                    }
                    assert(fast_order[k as int] == replica);
                }
            }
            k = k + 1;
        }
        proof {
            assert forall|r: ReplicaId| self@.matching(leader@).contains(r) implies out@.contains(
                r,
            ) by {
                assert(fast_order.contains(r));
                let j = choose|j: int| 0 <= j < fast_order.len() && fast_order[j] == r;
                assert(fast_order[j] == r);
            }
            assert(out@ =~= self@.adopted(leader@).union(self@.matching(leader@)));
        }
        out
    }

    /// The conservative slow predicate only: the leader proposal adopted by
    /// a majority including the leader.
    pub fn learned_slow(&self) -> (r: Option<Learned>)
        ensures
            learned_view(r) == self@.learned_slow(),
    {
        match &self.leader {
            None => None,
            Some(leader) => {
                let adopting = self.adopting(leader);
                if adopting.len() >= self.config.slow_size() - 1 {
                    Some(Learned::Slow { deps: copy_list(&leader.deps) })
                } else {
                    None
                }
            },
        }
    }

    /// The learning predicate over the counted votes. Fast learning is
    /// preferred when both hold; both need the leader proposal.
    pub fn learned(&self) -> (r: Option<Learned>)
        ensures
            learned_view(r) == self@.learned(),
    {
        match &self.leader {
            None => None,
            Some(leader) => {
                let agreeing = self.agreeing(leader);
                self.config.valid();
                let n: usize = agreeing.len();
                let need: usize = self.config.fast_size();
                if need == 0 || n >= need - 1 {
                    return Some(Learned::Fast { deps: copy_list(&leader.deps) });
                }
                self.learned_slow()
            },
        }
    }
}

impl Dup for VoteSet {
    fn dup(&self) -> (r: Self) {
        VoteSet {
            config: self.config.dup(),
            command: self.command,
            leader: match &self.leader {
                Some(ack) => Some(ack.dup()),
                None => None,
            },
            fast: self.fast.dup(),
            slow: self.slow.dup(),
        }
    }
}

} // verus!
