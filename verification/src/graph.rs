//! Dependency paths and closure traversal.
//!
//! A per-key path log is a hash chain over the commands that touched the
//! key in the order this replica processed them, anchored at the prefix
//! the leader has ordered. Its head is the dependency-path evidence a fast
//! acknowledgement carries: two replicas with equal heads saw the same
//! ordered prefix. Nothing is compressed: the head is recomputed over the
//! whole pending suffix after every synchronization.
//!
//! Closure traversal is exact (every transitive dependency of a known
//! command) and incremental: a cursor advances by a bounded number of units
//! of work per step, and an unknown dependency stops it with the identity
//! that is missing.

use vstd::prelude::*;

use crate::bytes::{bytes_before, is_before, lemma_bytes_total, lemma_bytes_transitive};
use crate::hash::{HashDomain, digest, digest_of, is_hash};
use crate::ids::{CommandId, Digest32};
use crate::lists::{copy_list, drop_all, listed, without};
use crate::ordered::{Dup, Key, OrdMap, OrdSet, ascending, lemma_ascending_same, views};

verus! {

/// Per-key path digests through one command, in key order.
pub type PathAnchors = Vec<(Vec<u8>, Digest32)>;

/// What a list of path anchors holds.
pub type AnchorSeq = Seq<(Seq<u8>, Digest32)>;

impl<A: Dup, B: Dup> Dup for (A, B) {
    fn dup(&self) -> (r: Self) {
        (self.0.dup(), self.1.dup())
    }
}

/// The digest of a path extended by one command.
pub open spec fn chained<H: Fn(HashDomain, Vec<Vec<u8>>) -> Digest32>(
    hash: H,
    previous: Digest32,
    command: CommandId,
) -> Digest32 {
    digest_of(hash, HashDomain::DependencyPath, seq![previous.bytes(), command.bytes()])
}

/// The digest of a path extended by commands in order.
pub open spec fn chain_all<H: Fn(HashDomain, Vec<Vec<u8>>) -> Digest32>(
    hash: H,
    previous: Digest32,
    commands: Seq<CommandId>,
) -> Digest32
    decreases commands.len(),
{
    if commands.len() == 0 {
        previous
    } else {
        chained(hash, chain_all(hash, previous, commands.drop_last()), commands.last())
    }
}

/// The digest of the path of no command.
pub open spec fn no_path<H: Fn(HashDomain, Vec<Vec<u8>>) -> Digest32>(hash: H) -> Digest32 {
    digest_of(hash, HashDomain::DependencyPath, Seq::empty())
}

/// Chain one command onto a path digest.
pub fn chain<H: Fn(HashDomain, Vec<Vec<u8>>) -> Digest32>(
    hash: &H,
    previous: &Digest32,
    command: &CommandId,
) -> (r: Digest32)
    requires
        is_hash(*hash),
    ensures
        r == chained(*hash, *previous, *command),
{
    let mut parts: Vec<Vec<u8>> = Vec::new();
    parts.push(previous.to_bytes());
    parts.push(command.to_bytes());
    assert(views(parts@) =~= seq![previous.bytes(), command.bytes()]);
    digest(hash, HashDomain::DependencyPath, parts)
}

/// The digest of an empty path.
pub fn empty_path<H: Fn(HashDomain, Vec<Vec<u8>>) -> Digest32>(hash: &H) -> (r: Digest32)
    requires
        is_hash(*hash),
    ensures
        r == no_path(*hash),
{
    let parts: Vec<Vec<u8>> = Vec::new();
    assert(views(parts@) =~= Seq::<Seq<u8>>::empty());
    digest(hash, HashDomain::DependencyPath, parts)
}

/// One key's conflict log.
#[derive(Debug)]
pub struct PathLog {
    /// Leader sequence number of the highest synchronized command.
    synced_seq: Option<u64>,
    /// Path digest through the synchronized prefix.
    synced_hash: Digest32,
    /// Commands after the synchronized prefix, in local order.
    pending: Vec<CommandId>,
    /// Digest of the whole log.
    head: Digest32,
    /// Leader synchronizations that arrived before the command was
    /// appended locally.
    early: OrdMap<CommandId, (u64, Digest32)>,
    /// Commands whose synchronization was applied, until they are retired:
    /// a duplicate or reordered copy of an applied synchronization is
    /// recognized instead of being taken for evidence about a command not
    /// appended yet.
    applied: OrdSet<CommandId>,
}

/// What a path log holds.
#[verifier::ext_equal]
pub struct PathLogView {
    /// Leader sequence number of the highest synchronized command.
    pub synced_seq: Option<u64>,
    /// Path digest through the synchronized prefix.
    pub synced_hash: Digest32,
    /// Commands after the synchronized prefix, in local order.
    pub pending: Seq<CommandId>,
    /// Digest of the whole log.
    pub head: Digest32,
    /// Synchronizations of commands not appended yet.
    pub early: Map<CommandId, (u64, Digest32)>,
    /// Commands whose synchronization was applied.
    pub applied: Set<CommandId>,
}

impl View for PathLog {
    type V = PathLogView;

    closed spec fn view(&self) -> PathLogView {
        PathLogView {
            synced_seq: self.synced_seq,
            synced_hash: self.synced_hash,
            pending: self.pending@,
            head: self.head,
            early: self.early@,
            applied: self.applied@,
        }
    }
}

impl PathLogView {
    /// A log that starts at `digest` and holds nothing else.
    pub open spec fn at(digest: Digest32) -> Self {
        PathLogView {
            synced_seq: None,
            synced_hash: digest,
            pending: Seq::empty(),
            head: digest,
            early: Map::empty(),
            applied: Set::empty(),
        }
    }

    /// The head covers the synchronized prefix and then every pending
    /// command in order.
    pub open spec fn anchored<H: Fn(HashDomain, Vec<Vec<u8>>) -> Digest32>(self, hash: H) -> bool {
        self.head == chain_all(hash, self.synced_hash, self.pending)
    }

    /// The leader's order of `command` takes effect.
    pub open spec fn ordered<H: Fn(HashDomain, Vec<Vec<u8>>) -> Digest32>(
        self,
        hash: H,
        command: CommandId,
        seq: u64,
        digest: Digest32,
    ) -> Self {
        let newest = self.synced_seq is None || seq > self.synced_seq->0;
        let base = if newest {
            digest
        } else {
            self.synced_hash
        };
        let rest = without(self.pending, command);
        PathLogView {
            synced_seq: if newest {
                Some(seq)
            } else {
                self.synced_seq
            },
            synced_hash: base,
            pending: rest,
            head: chain_all(hash, base, rest),
            early: self.early,
            applied: self.applied.insert(command),
        }
    }

    /// `command` is appended in local order, or takes the leader's order
    /// that arrived before it.
    pub open spec fn appended<H: Fn(HashDomain, Vec<Vec<u8>>) -> Digest32>(
        self,
        hash: H,
        command: CommandId,
    ) -> Self {
        if self.early.contains_key(command) {
            let (seq, digest) = self.early[command];
            PathLogView { early: self.early.remove(command), ..self }.ordered(
                hash,
                command,
                seq,
                digest,
            )
        } else {
            PathLogView {
                pending: self.pending.push(command),
                head: chained(hash, self.head, command),
                ..self
            }
        }
    }

    /// The path digest through `command` once it is appended.
    pub open spec fn digest_through<H: Fn(HashDomain, Vec<Vec<u8>>) -> Digest32>(
        self,
        hash: H,
        command: CommandId,
    ) -> Digest32 {
        if self.early.contains_key(command) {
            self.early[command].1
        } else {
            chained(hash, self.head, command)
        }
    }

    /// The leader's order of `command` arrives.
    pub open spec fn synced<H: Fn(HashDomain, Vec<Vec<u8>>) -> Digest32>(
        self,
        hash: H,
        command: CommandId,
        seq: u64,
        digest: Digest32,
    ) -> Self {
        if self.applied.contains(command) {
            self
        } else if !self.pending.contains(command) {
            PathLogView { early: self.early.insert(command, (seq, digest)), ..self }
        } else {
            self.ordered(hash, command, seq, digest)
        }
    }

    /// `command` is retired.
    pub open spec fn forgotten(self, command: CommandId) -> Self {
        PathLogView {
            early: self.early.remove(command),
            applied: self.applied.remove(command),
            ..self
        }
    }
}

/// Whatever happens to a log, its head stays the digest of the synchronized
/// prefix followed by the pending suffix.
pub proof fn lemma_head_stays_anchored<H: Fn(HashDomain, Vec<Vec<u8>>) -> Digest32>(
    hash: H,
    log: PathLogView,
    command: CommandId,
    seq: u64,
    digest: Digest32,
)
    requires
        log.anchored(hash),
    ensures
        PathLogView::at(digest).anchored(hash),
        log.appended(hash, command).anchored(hash),
        log.synced(hash, command, seq, digest).anchored(hash),
        log.forgotten(command).anchored(hash),
{
    assert(log.pending.push(command).drop_last() =~= log.pending);
}

/// A synchronization that was applied changes nothing when it arrives again.
pub proof fn lemma_sync_idempotent<H: Fn(HashDomain, Vec<Vec<u8>>) -> Digest32>(
    hash: H,
    log: PathLogView,
    command: CommandId,
    seq: u64,
    digest: Digest32,
)
    ensures
        log.synced(hash, command, seq, digest).synced(hash, command, seq, digest) == log.synced(
            hash,
            command,
            seq,
            digest,
        ),
{
    let once = log.synced(hash, command, seq, digest);
    if !log.applied.contains(command) && !log.pending.contains(command) {
        assert(once.early.insert(command, (seq, digest)) =~= once.early);
    }
}

/// A leader order that arrives before its command leaves the log as it
/// would be had the command come first.
pub proof fn lemma_early_order_converges<H: Fn(HashDomain, Vec<Vec<u8>>) -> Digest32>(
    hash: H,
    log: PathLogView,
    command: CommandId,
    seq: u64,
    digest: Digest32,
)
    requires
        !log.applied.contains(command),
        !log.pending.contains(command),
        !log.early.contains_key(command),
    ensures
        log.synced(hash, command, seq, digest).appended(hash, command) == log.appended(
            hash,
            command,
        ).synced(hash, command, seq, digest),
{
    let late = log.appended(hash, command);
    assert(late.pending[log.pending.len() as int] == command);
    assert(late.pending.contains(command));
    assert(late.pending.drop_last() =~= log.pending);
    crate::lists::lemma_without(log.pending, command);
    let early = log.synced(hash, command, seq, digest);
    assert(early.early.remove(command) =~= log.early);
    assert(without(late.pending, command) == log.pending);
    assert(early.appended(hash, command) =~= late.synced(hash, command, seq, digest));
}

/// The digest of the first `n` commands of a path extended by the next one.
pub open spec fn link<H: Fn(HashDomain, Vec<Vec<u8>>) -> Digest32>(
    hash: H,
    anchor: Digest32,
    commands: Seq<CommandId>,
    n: int,
) -> Digest32 {
    chained(hash, chain_all(hash, anchor, commands.take(n)), commands[n])
}

/// The hash tells two paths from one anchor apart: no link of the one is the
/// digest of a different link of the other, and none leads back to the anchor.
pub open spec fn told_apart<H: Fn(HashDomain, Vec<Vec<u8>>) -> Digest32>(
    hash: H,
    anchor: Digest32,
    a: Seq<CommandId>,
    b: Seq<CommandId>,
) -> bool {
    &&& forall|i: int, j: int|
        0 <= i < a.len() && 0 <= j < b.len() && #[trigger] link(hash, anchor, a, i)
            == #[trigger] link(hash, anchor, b, j) ==> chain_all(hash, anchor, a.take(i))
            == chain_all(hash, anchor, b.take(j)) && a[i] == b[j]
    &&& forall|i: int| 0 <= i < a.len() ==> #[trigger] link(hash, anchor, a, i) != anchor
    &&& forall|j: int| 0 <= j < b.len() ==> #[trigger] link(hash, anchor, b, j) != anchor
}

proof fn lemma_told_apart_before<H: Fn(HashDomain, Vec<Vec<u8>>) -> Digest32>(
    hash: H,
    anchor: Digest32,
    a: Seq<CommandId>,
    b: Seq<CommandId>,
)
    requires
        told_apart(hash, anchor, a, b),
        a.len() > 0,
        b.len() > 0,
    ensures
        told_apart(hash, anchor, a.drop_last(), b.drop_last()),
{
    assert forall|i: int| 0 <= i < a.len() - 1 implies #[trigger] link(
        hash,
        anchor,
        a.drop_last(),
        i,
    ) == link(hash, anchor, a, i) && a.drop_last().take(i) == a.take(i) by {
        assert(a.drop_last().take(i) =~= a.take(i));
    }
    assert forall|j: int| 0 <= j < b.len() - 1 implies #[trigger] link(
        hash,
        anchor,
        b.drop_last(),
        j,
    ) == link(hash, anchor, b, j) && b.drop_last().take(j) == b.take(j) by {
        assert(b.drop_last().take(j) =~= b.take(j));
    }
}

proof fn lemma_equal_chains<H: Fn(HashDomain, Vec<Vec<u8>>) -> Digest32>(
    hash: H,
    anchor: Digest32,
    a: Seq<CommandId>,
    b: Seq<CommandId>,
)
    requires
        told_apart(hash, anchor, a, b),
        chain_all(hash, anchor, a) == chain_all(hash, anchor, b),
    ensures
        a == b,
    decreases a.len(),
{
    if a.len() > 0 {
        assert(a.take(a.len() - 1) =~= a.drop_last());
        assert(link(hash, anchor, a, a.len() - 1) == chain_all(hash, anchor, a));
    }
    if b.len() > 0 {
        assert(b.take(b.len() - 1) =~= b.drop_last());
        assert(link(hash, anchor, b, b.len() - 1) == chain_all(hash, anchor, b));
    }
    if a.len() > 0 && b.len() > 0 {
        lemma_told_apart_before(hash, anchor, a, b);
        lemma_equal_chains(hash, anchor, a.drop_last(), b.drop_last());
        assert(a =~= a.drop_last().push(a.last()));
        assert(b =~= b.drop_last().push(b.last()));
    } else {
        assert(a =~= b);
    }
}

/// Two logs with equal heads over one synchronized prefix saw the same
/// commands in the same order, where the hash tells their paths apart.
pub proof fn lemma_equal_heads_saw_the_same<H: Fn(HashDomain, Vec<Vec<u8>>) -> Digest32>(
    hash: H,
    a: PathLogView,
    b: PathLogView,
)
    requires
        a.anchored(hash),
        b.anchored(hash),
        a.synced_hash == b.synced_hash,
        a.head == b.head,
        told_apart(hash, a.synced_hash, a.pending, b.pending),
    ensures
        a.pending == b.pending,
{
    lemma_equal_chains(hash, a.synced_hash, a.pending, b.pending);
}

impl PathLog {
    /// An empty log.
    pub fn new<H: Fn(HashDomain, Vec<Vec<u8>>) -> Digest32>(hash: &H) -> (r: Self)
        requires
            is_hash(*hash),
        ensures
            r@ == PathLogView::at(no_path(*hash)),
    {
        let empty = empty_path(hash);
        PathLog::resumed(empty)
    }

    /// A log resumed at a synchronized digest with no pending suffix.
    pub fn resumed(digest: Digest32) -> (r: Self)
        ensures
            r@ == PathLogView::at(digest),
    {
        PathLog {
            synced_seq: None,
            synced_hash: digest,
            pending: Vec::new(),
            head: digest,
            early: OrdMap::new(),
            applied: OrdSet::new(),
        }
    }

    /// Digest of the whole log: the path evidence for the next command.
    pub fn head(&self) -> (r: Digest32)
        ensures
            r == self@.head,
    {
        self.head
    }

    /// Commands after the synchronized prefix, in local order.
    pub fn pending(&self) -> (r: &Vec<CommandId>)
        ensures
            r@ == self@.pending,
    {
        &self.pending
    }

    /// Highest synchronized leader sequence number.
    pub fn synced_seq(&self) -> (r: Option<u64>)
        ensures
            r == self@.synced_seq,
    {
        self.synced_seq
    }

    /// Commands whose synchronization is applied and not yet forgotten.
    pub fn applied(&self) -> (r: &OrdSet<CommandId>)
        ensures
            r@ == self@.applied,
    {
        &self.applied
    }

    fn recompute<H: Fn(HashDomain, Vec<Vec<u8>>) -> Digest32>(&mut self, hash: &H)
        requires
            is_hash(*hash),
        ensures
            final(self)@ == (PathLogView {
                head: chain_all(*hash, old(self)@.synced_hash, old(self)@.pending),
                ..old(self)@
            }),
    {
        let mut head = self.synced_hash;
        let mut i: usize = 0;
        while i < self.pending.len()
            invariant
                i <= self.pending@.len(),
                is_hash(*hash),
                head == chain_all(*hash, self.synced_hash, self.pending@.take(i as int)),
            decreases self.pending@.len() - i,
        {
            head = chain(hash, &head, &self.pending[i]);
            proof {
                assert(self.pending@.take(i + 1).drop_last() =~= self.pending@.take(i as int));
            }
            i = i + 1;
        }
        proof {
            assert(self.pending@.take(self.pending@.len() as int) =~= self.pending@);
        }
        self.head = head;
    }

    fn sync_known<H: Fn(HashDomain, Vec<Vec<u8>>) -> Digest32>(
        &mut self,
        hash: &H,
        command: CommandId,
        seq: u64,
        digest: Digest32,
    )
        requires
            is_hash(*hash),
        ensures
            final(self)@ == old(self)@.ordered(*hash, command, seq, digest),
    {
        self.pending = drop_all(&self.pending, &command);
        self.applied.insert(command);
        let newest = match self.synced_seq {
            None => true,
            Some(s) => seq > s,
        };
        if newest {
            self.synced_seq = Some(seq);
            self.synced_hash = digest;
        }
        self.recompute(hash);
    }

    /// Append a command in local order and return the path digest through
    /// it. A leader synchronization that arrived early is applied instead.
    pub fn append<H: Fn(HashDomain, Vec<Vec<u8>>) -> Digest32>(
        &mut self,
        hash: &H,
        command: CommandId,
    ) -> (r: Digest32)
        requires
            is_hash(*hash),
        ensures
            r == old(self)@.digest_through(*hash, command),
            final(self)@ == old(self)@.appended(*hash, command),
    {
        match self.early.remove(&command) {
            Some((seq, digest)) => {
                self.sync_known(hash, command, seq, digest);
                digest
            },
            None => {
                proof {
                    assert(self.early@ =~= old(self).early@);
                }
                self.pending.push(command);
                self.head = chain(hash, &self.head, &command);
                self.head
            },
        }
    }

    /// The leader ordered `command` at `seq` with path digest `digest`
    /// through it: the command leaves the pending suffix and, when `seq` is
    /// the highest seen, becomes the synchronized prefix; the head is
    /// recomputed over the remaining suffix.
    pub fn sync<H: Fn(HashDomain, Vec<Vec<u8>>) -> Digest32>(
        &mut self,
        hash: &H,
        command: CommandId,
        seq: u64,
        digest: Digest32,
    )
        requires
            is_hash(*hash),
        ensures
            final(self)@ == old(self)@.synced(*hash, command, seq, digest),
    {
        if self.applied.contains(&command) {
            // Already synchronized: a duplicate or reordered copy.
            return;
        }
        if !listed(&self.pending, &command) {
            // Not appended yet: remember it for the append.
            self.early.insert(command, (seq, digest));
            return;
        }
        self.sync_known(hash, command, seq, digest);
    }

    /// Forget a retired command: its applied synchronization and any early
    /// evidence. The log's prefix digest already covers it.
    pub fn forget(&mut self, command: &CommandId)
        ensures
            final(self)@ == old(self)@.forgotten(*command),
    {
        self.applied.remove(command);
        let _ = self.early.remove(command);
    }
}

impl Dup for PathLog {
    fn dup(&self) -> (r: Self) {
        PathLog {
            synced_seq: self.synced_seq,
            synced_hash: self.synced_hash,
            pending: copy_list(&self.pending),
            head: self.head,
            early: self.early.dup(),
            applied: self.applied.dup(),
        }
    }
}

/// An anchor set into a list kept by key, after every anchor of its key.
pub open spec fn place(s: AnchorSeq, x: (Seq<u8>, Digest32)) -> AnchorSeq
    decreases s.len(),
{
    if s.len() == 0 || !bytes_before(x.0, s.last().0) {
        s.push(x)
    } else {
        place(s.drop_last(), x).push(s.last())
    }
}

/// The anchors by key; those of one key keep their order.
pub open spec fn by_key(s: AnchorSeq) -> AnchorSeq
    decreases s.len(),
{
    if s.len() == 0 {
        Seq::empty()
    } else {
        place(by_key(s.drop_last()), s.last())
    }
}

/// Key and digest of each anchor in turn.
pub open spec fn anchor_parts(s: AnchorSeq) -> Seq<Seq<u8>>
    decreases s.len(),
{
    if s.len() == 0 {
        Seq::empty()
    } else {
        anchor_parts(s.drop_last()).push(s.last().0).push(s.last().1.bytes())
    }
}

/// The digest of a command's anchors taken together.
pub open spec fn combined<H: Fn(HashDomain, Vec<Vec<u8>>) -> Digest32>(
    hash: H,
    anchors: AnchorSeq,
) -> Digest32 {
    digest_of(hash, HashDomain::DependencyPath, anchor_parts(by_key(anchors)))
}

proof fn lemma_place_at(s: AnchorSeq, x: (Seq<u8>, Digest32), at: int)
    requires
        0 <= at <= s.len(),
        at == 0 || !bytes_before(x.0, s[at - 1].0),
        forall|i: int| at <= i < s.len() ==> bytes_before(x.0, (#[trigger] s[i]).0),
    ensures
        place(s, x) == s.insert(at, x),
    decreases s.len(),
{
    if at == s.len() {
        assert(s.insert(at, x) =~= s.push(x));
    } else {
        assert(bytes_before(x.0, s[s.len() - 1].0));
        lemma_place_at(s.drop_last(), x, at);
        assert(s.insert(at, x) =~= s.drop_last().insert(at, x).push(s.last()));
    }
}

fn place_anchor(list: &mut PathAnchors, key: Vec<u8>, digest: Digest32)
    ensures
        views(final(list)@) == place(views(old(list)@), (key@, digest)),
{
    let ghost before = views(list@);
    let ghost x = (key@, digest);
    let mut at: usize = list.len();
    while at > 0 && is_before(&key, &list[at - 1].0)
        invariant
            at <= list@.len(),
            *list == *old(list),
            x == (key@, digest),
            before == views(list@),
            forall|i: int| at <= i < before.len() ==> bytes_before(x.0, (#[trigger] before[i]).0),
        ensures
            at <= list@.len(),
            at == 0 || !bytes_before(x.0, before[at - 1].0),
            forall|i: int| at <= i < before.len() ==> bytes_before(x.0, (#[trigger] before[i]).0),
        decreases at,
    {
        at = at - 1;
    }
    list.insert(at, (key, digest));
    proof {
        lemma_place_at(before, x, at as int);
        assert(views(list@) =~= before.insert(at as int, x));
    }
}

/// Combine per-key path digests into one evidence digest, independent of
/// the order keys are listed in.
pub fn combined_path<H: Fn(HashDomain, Vec<Vec<u8>>) -> Digest32>(
    hash: &H,
    paths: &PathAnchors,
) -> (r: Digest32)
    requires
        is_hash(*hash),
    ensures
        r == combined(*hash, views(paths@)),
{
    let mut sorted: PathAnchors = Vec::new();
    let mut i: usize = 0;
    proof {
        assert(views(sorted@) =~= by_key(views(paths@).take(0)));
    }
    while i < paths.len()
        invariant
            i <= paths@.len(),
            views(sorted@) == by_key(views(paths@).take(i as int)),
        decreases paths@.len() - i,
    {
        proof {
            let t = views(paths@).take(i + 1);
            assert(t.drop_last() =~= views(paths@).take(i as int));
            assert(t.last() == paths@[i as int]@);
        }
        let key = paths[i].0.dup();
        place_anchor(&mut sorted, key, paths[i].1);
        i = i + 1;
    }
    proof {
        assert(views(paths@).take(paths@.len() as int) =~= views(paths@));
    }
    let ghost order = views(sorted@);
    let mut parts: Vec<Vec<u8>> = Vec::new();
    let mut j: usize = 0;
    proof {
        assert(views(parts@) =~= anchor_parts(order.take(0)));
    }
    while j < sorted.len()
        invariant
            j <= sorted@.len(),
            order == views(sorted@),
            views(parts@) == anchor_parts(order.take(j as int)),
        decreases sorted@.len() - j,
    {
        let ghost done = parts@;
        parts.push(sorted[j].0.dup());
        parts.push(sorted[j].1.to_bytes());
        proof {
            let t = order.take(j + 1);
            assert(t.drop_last() =~= order.take(j as int));
            assert(t.last() == sorted@[j as int]@);
            assert(views(parts@) =~= views(done).push(t.last().0).push(t.last().1.bytes()));
        }
        j = j + 1;
    }
    proof {
        assert(order.take(order.len() as int) =~= order);
    }
    digest(hash, HashDomain::DependencyPath, parts)
}

spec fn anchor_keys(s: AnchorSeq) -> Seq<Seq<u8>> {
    Seq::new(s.len(), |i: int| s[i].0)
}

proof fn lemma_ascending_at(ks: Seq<Seq<u8>>, i: int, j: int)
    requires
        ascending::<Vec<u8>>(ks),
        0 <= i < j < ks.len(),
    ensures
        bytes_before(ks[i], ks[j]),
{
    assert(Vec::<u8>::before(ks[i], ks[j]));
}

#[verifier::rlimit(40)]
proof fn lemma_place_sorted(s: AnchorSeq, x: (Seq<u8>, Digest32))
    requires
        ascending::<Vec<u8>>(anchor_keys(s)),
        forall|i: int| 0 <= i < s.len() ==> (#[trigger] s[i]).0 != x.0,
    ensures
        ascending::<Vec<u8>>(anchor_keys(place(s, x))),
        forall|y: (Seq<u8>, Digest32)| #[trigger]
            place(s, x).contains(y) <==> s.contains(y) || y == x,
    decreases s.len(),
{
    let r = place(s, x);
    let ks = anchor_keys(s);
    if s.len() == 0 || !bytes_before(x.0, s.last().0) {
        assert forall|i: int, j: int| 0 <= i < j < r.len() implies bytes_before(
            #[trigger] anchor_keys(r)[i],
            #[trigger] anchor_keys(r)[j],
        ) by {
            if j < s.len() {
                assert(Vec::<u8>::before(ks[i], ks[j]));
            } else {
                lemma_bytes_total(x.0, s.last().0);
                if i < s.len() - 1 {
                    let n = s.len() - 1;
                    lemma_ascending_at(ks, i, n);
                    lemma_bytes_transitive(ks[i], s.last().0, x.0);
                }
            }
        }
        assert forall|y: (Seq<u8>, Digest32)| #[trigger] r.contains(y) <==> s.contains(y) || y
            == x by {
            if s.contains(y) {
                let i = choose|i: int| 0 <= i < s.len() && s[i] == y;
                assert(r[i] == y);
            }
            if y == x {
                assert(r[s.len() as int] == y);
            }
            if r.contains(y) {
                let i = choose|i: int| 0 <= i < r.len() && r[i] == y;
                if i < s.len() {
                    assert(s[i] == y);
                }
            }
        }
    } else {
        let t = s.drop_last();
        assert(ascending::<Vec<u8>>(anchor_keys(t))) by {
            assert forall|i: int, j: int| 0 <= i < j < t.len() implies bytes_before(
                #[trigger] anchor_keys(t)[i],
                #[trigger] anchor_keys(t)[j],
            ) by {
                assert(Vec::<u8>::before(ks[i], ks[j]));
            }
        }
        lemma_place_sorted(t, x);
        let p = place(t, x);
        assert forall|i: int, j: int| 0 <= i < j < r.len() implies bytes_before(
            #[trigger] anchor_keys(r)[i],
            #[trigger] anchor_keys(r)[j],
        ) by {
            if j < p.len() {
                assert(Vec::<u8>::before(anchor_keys(p)[i], anchor_keys(p)[j]));
            } else {
                assert(p.contains(p[i]));
                if p[i] != x {
                    let k = choose|k: int| 0 <= k < t.len() && t[k] == p[i];
                    assert(Vec::<u8>::before(ks[k], ks[s.len() - 1]));
                }
            }
        }
        assert forall|y: (Seq<u8>, Digest32)| #[trigger] r.contains(y) <==> s.contains(y) || y
            == x by {
            if p.contains(y) {
                let i = choose|i: int| 0 <= i < p.len() && p[i] == y;
                assert(r[i] == y);
            }
            if y == s.last() {
                assert(r[p.len() as int] == y);
            }
            if r.contains(y) {
                let i = choose|i: int| 0 <= i < r.len() && r[i] == y;
                if i < p.len() {
                    assert(p[i] == y);
                    assert(p.contains(y));
                    if y != x {
                        let k = choose|k: int| 0 <= k < t.len() && t[k] == y;
                        assert(s[k] == y);
                    }
                } else {
                    assert(s[s.len() - 1] == y);
                }
            }
            if s.contains(y) {
                let i = choose|i: int| 0 <= i < s.len() && s[i] == y;
                if i < t.len() {
                    assert(t[i] == y);
                    assert(t.contains(y));
                    assert(p.contains(y));
                }
            }
            if y == x {
                assert(p.contains(y));
            }
        }
    }
}

/// No key is listed twice.
pub open spec fn distinct_keys(s: AnchorSeq) -> bool {
    forall|i: int, j: int| 0 <= i < j < s.len() ==> (#[trigger] s[i]).0 != (#[trigger] s[j]).0
}

proof fn lemma_by_key_sorted(s: AnchorSeq)
    requires
        distinct_keys(s),
    ensures
        ascending::<Vec<u8>>(anchor_keys(by_key(s))),
        forall|y: (Seq<u8>, Digest32)| #[trigger] by_key(s).contains(y) <==> s.contains(y),
    decreases s.len(),
{
    if s.len() > 0 {
        let t = s.drop_last();
        lemma_by_key_sorted(t);
        let b = by_key(t);
        assert forall|i: int| 0 <= i < b.len() implies (#[trigger] b[i]).0 != s.last().0 by {
            assert(b.contains(b[i]));
            let k = choose|k: int| 0 <= k < t.len() && t[k] == b[i];
            assert(s[k].0 != s[s.len() - 1].0);
        }
        lemma_place_sorted(b, s.last());
        assert forall|y: (Seq<u8>, Digest32)| #[trigger] by_key(s).contains(y) <==> s.contains(
            y,
        ) by {
            if s.contains(y) {
                let i = choose|i: int| 0 <= i < s.len() && s[i] == y;
                if i < t.len() {
                    assert(t[i] == y);
                    assert(t.contains(y));
                    assert(b.contains(y));
                }
            }
            if by_key(s).contains(y) && y != s.last() {
                assert(b.contains(y));
                let i = choose|i: int| 0 <= i < t.len() && t[i] == y;
                assert(s[i] == y);
            }
            assert(s[s.len() - 1] == s.last());
        }
    }
}

/// The evidence of a command's keys does not depend on the order in which
/// they are listed.
pub proof fn lemma_combined_ignores_order<H: Fn(HashDomain, Vec<Vec<u8>>) -> Digest32>(
    hash: H,
    s: AnchorSeq,
    t: AnchorSeq,
)
    requires
        distinct_keys(s),
        distinct_keys(t),
        s.to_set() == t.to_set(),
    ensures
        combined(hash, s) == combined(hash, t),
{
    lemma_by_key_sorted(s);
    lemma_by_key_sorted(t);
    let a = by_key(s);
    let b = by_key(t);
    assert forall|y: (Seq<u8>, Digest32)| a.contains(y) <==> b.contains(y) by {
        assert(s.to_set().contains(y) <==> s.contains(y));
        assert(t.to_set().contains(y) <==> t.contains(y));
    }
    let ka = anchor_keys(a);
    let kb = anchor_keys(b);
    assert(ka.to_set() =~= kb.to_set()) by {
        assert forall|k: Seq<u8>| ka.to_set().contains(k) <==> kb.to_set().contains(k) by {
            if ka.to_set().contains(k) {
                let i = choose|i: int| 0 <= i < ka.len() && ka[i] == k;
                assert(a.contains(a[i]));
                let j = choose|j: int| 0 <= j < b.len() && b[j] == a[i];
                assert(kb[j] == k);
            }
            if kb.to_set().contains(k) {
                let i = choose|i: int| 0 <= i < kb.len() && kb[i] == k;
                assert(b.contains(b[i]));
                let j = choose|j: int| 0 <= j < a.len() && a[j] == b[i];
                assert(ka[j] == k);
            }
        }
    }
    lemma_ascending_same::<Vec<u8>>(ka, kb);
    assert forall|i: int| 0 <= i < a.len() implies a[i] == b[i] by {
        assert(a.contains(a[i]));
        let j = choose|j: int| 0 <= j < b.len() && b[j] == a[i];
        crate::ordered::lemma_ascending_unique::<Vec<u8>>(kb);
        assert(kb[j] == ka[i]);
        assert(kb[i] == ka[i]);
    }
    assert(a.len() == ka.len() && b.len() == kb.len());
    assert(a =~= b);
}

/// An in-progress closure traversal.
#[derive(Debug)]
pub struct ClosureCursor {
    root: CommandId,
    frontier: Vec<CommandId>,
    visited: OrdSet<CommandId>,
    visits: usize,
    /// The dependency list being expanded and how far it got, when a
    /// step ran out of budget in the middle of one.
    expanding: Option<(Vec<CommandId>, usize)>,
}

/// What a traversal holds.
#[verifier::ext_equal]
pub struct CursorView {
    /// Where it started.
    pub root: CommandId,
    /// Commands still to visit; the last comes next.
    pub frontier: Seq<CommandId>,
    /// Commands visited, the root among them.
    pub visited: Set<CommandId>,
    /// Commands visited after the root.
    pub visits: nat,
    /// A dependency list and how many of it were examined.
    pub expanding: Option<(Seq<CommandId>, nat)>,
}

impl View for ClosureCursor {
    type V = CursorView;

    closed spec fn view(&self) -> CursorView {
        CursorView {
            root: self.root,
            frontier: self.frontier@,
            visited: self.visited@,
            visits: self.visits as nat,
            expanding: match self.expanding {
                Some((deps, index)) => Some((deps@, index as nat)),
                None => None,
            },
        }
    }
}

/// The exact transitive dependency closure of a command.
#[derive(Debug)]
pub struct Closure {
    /// Root.
    pub root: CommandId,
    /// Every transitive dependency (root excluded).
    pub members: OrdSet<CommandId>,
    /// Commands visited (work spent).
    pub visits: usize,
}

/// What a closure holds.
#[verifier::ext_equal]
pub struct ClosureView {
    /// Root.
    pub root: CommandId,
    /// Every transitive dependency (root excluded).
    pub members: Set<CommandId>,
    /// Commands visited.
    pub visits: nat,
}

impl View for Closure {
    type V = ClosureView;

    open spec fn view(&self) -> ClosureView {
        ClosureView { root: self.root, members: self.members@, visits: self.visits as nat }
    }
}

/// Result of one closure step.
#[derive(Debug)]
pub enum ClosureProgress {
    /// More work remains; continue from the cursor.
    Continue(ClosureCursor),
    /// The closure is complete.
    Complete(Closure),
}

/// The direct dependencies of each known command.
pub type Dependencies = spec_fn(CommandId) -> Option<Seq<CommandId>>;

/// How a bounded walk ends.
pub enum Walk {
    /// The budget ran out.
    Continue(CursorView),
    /// Nothing is left to visit.
    Complete(ClosureView),
    /// This command is not known.
    Missing(CommandId),
}

impl CursorView {
    /// A dependency list examined to its end is done with.
    pub open spec fn settled(self) -> Self {
        match self.expanding {
            Some((deps, index)) => if index >= deps.len() {
                CursorView { expanding: None, ..self }
            } else {
                self
            },
            None => self,
        }
    }

    /// The walk of at most `budget` units of work: one for each frontier
    /// entry taken and one for each dependency examined.
    pub open spec fn walk(self, budget: nat, deps_of: Dependencies) -> Walk
        decreases budget,
    {
        let here = self.settled();
        match here.expanding {
            Some((deps, index)) => if budget == 0 {
                Walk::Continue(here)
            } else {
                here.examined(deps, index).walk((budget - 1) as nat, deps_of)
            },
            None => if here.frontier.len() == 0 {
                Walk::Complete(
                    ClosureView {
                        root: here.root,
                        members: here.visited.remove(here.root),
                        visits: here.visits,
                    },
                )
            } else if budget == 0 {
                Walk::Continue(here)
            } else if here.visited.contains(here.frontier.last()) {
                here.skipped().walk((budget - 1) as nat, deps_of)
            } else if deps_of(here.frontier.last()) is None {
                Walk::Missing(here.frontier.last())
            } else {
                here.taken(deps_of(here.frontier.last())->0).walk((budget - 1) as nat, deps_of)
            },
        }
    }

    /// One more dependency of the list being expanded is examined.
    pub open spec fn examined(self, deps: Seq<CommandId>, index: nat) -> Self {
        CursorView {
            frontier: if self.visited.contains(deps[index as int]) {
                self.frontier
            } else {
                self.frontier.push(deps[index as int])
            },
            expanding: Some((deps, index + 1)),
            ..self
        }
    }

    /// A frontier entry that was visited before is passed over.
    pub open spec fn skipped(self) -> Self {
        CursorView { frontier: self.frontier.drop_last(), ..self }
    }

    /// The next frontier entry is visited and its dependencies opened.
    pub open spec fn taken(self, deps: Seq<CommandId>) -> Self {
        CursorView {
            frontier: self.frontier.drop_last(),
            visited: self.visited.insert(self.frontier.last()),
            visits: self.visits + 1,
            expanding: Some((deps, 0)),
            ..self
        }
    }

    /// A traversal about to begin.
    pub open spec fn starting(root: CommandId, deps: Seq<CommandId>) -> Self {
        CursorView {
            root,
            frontier: deps,
            visited: Set::empty().insert(root),
            visits: 0,
            expanding: None,
        }
    }

    /// `y` is still to be visited.
    pub open spec fn awaits(self, y: CommandId) -> bool {
        ||| self.frontier.contains(y)
        ||| self.expanding is Some && exists|i: int|
            (self.expanding->0).1 <= i < (self.expanding->0).0.len() && #[trigger] (self.expanding->0).0[i]
                == y
    }

    /// Everything seen is a dependency of the root, and every dependency of
    /// what was visited is visited or awaited.
    pub open spec fn sound(self, deps_of: Dependencies) -> bool {
        &&& self.visited.contains(self.root)
        &&& forall|c: CommandId| #[trigger]
            self.visited.contains(c) ==> reaches(deps_of, self.root, c) && deps_of(c) is Some
        &&& forall|c: CommandId| #[trigger]
            self.frontier.contains(c) ==> reaches(deps_of, self.root, c)
        &&& self.expanding is Some ==> forall|i: int|
            0 <= i < (self.expanding->0).0.len() ==> reaches(
                deps_of,
                self.root,
                #[trigger] (self.expanding->0).0[i],
            )
        &&& forall|c: CommandId, y: CommandId|
            self.visited.contains(c) && #[trigger] depends(deps_of, c, y) ==> self.visited.contains(
                y,
            ) || self.awaits(y)
    }
}

/// `y` is a direct dependency of `x`.
pub open spec fn depends(deps_of: Dependencies, x: CommandId, y: CommandId) -> bool {
    deps_of(x) is Some && deps_of(x)->0.contains(y)
}

/// A chain of direct dependencies.
pub open spec fn dependency_chain(deps_of: Dependencies, path: Seq<CommandId>) -> bool {
    &&& path.len() > 0
    &&& forall|i: int, j: int|
        0 <= i && j == i + 1 && j < path.len() ==> depends(
            deps_of,
            #[trigger] path[i],
            #[trigger] path[j],
        )
}

/// `b` is `a` or one of its transitive dependencies.
pub open spec fn reaches(deps_of: Dependencies, a: CommandId, b: CommandId) -> bool {
    exists|path: Seq<CommandId>| #[trigger]
        dependency_chain(deps_of, path) && path[0] == a && path.last() == b
}

/// The members are the root's transitive dependencies, all of them and
/// nothing else.
pub open spec fn exact_closure(closure: ClosureView, deps_of: Dependencies) -> bool {
    forall|c: CommandId| #[trigger]
        closure.members.contains(c) <==> c != closure.root && reaches(deps_of, closure.root, c)
}

proof fn lemma_reaches_step(deps_of: Dependencies, a: CommandId, b: CommandId, c: CommandId)
    requires
        reaches(deps_of, a, b),
        depends(deps_of, b, c),
    ensures
        reaches(deps_of, a, c),
{
    let path = choose|path: Seq<CommandId>| #[trigger]
        dependency_chain(deps_of, path) && path[0] == a && path.last() == b;
    let longer = path.push(c);
    assert forall|i: int, j: int| 0 <= i && j == i + 1 && j < longer.len() implies depends(
        deps_of,
        #[trigger] longer[i],
        #[trigger] longer[j],
    ) by {
        if j < path.len() {
            assert(depends(deps_of, path[i], path[j]));
        }
    }
    assert(dependency_chain(deps_of, longer));
    assert(longer[0] == a && longer.last() == c);
}

proof fn lemma_reaches_self(deps_of: Dependencies, a: CommandId)
    ensures
        reaches(deps_of, a, a),
{
    let path = seq![a];
    assert(dependency_chain(deps_of, path));
    assert(path[0] == a && path.last() == a);
}

proof fn lemma_closed_set(deps_of: Dependencies, set: Set<CommandId>, path: Seq<CommandId>)
    requires
        dependency_chain(deps_of, path),
        set.contains(path[0]),
        forall|c: CommandId, y: CommandId|
            set.contains(c) && #[trigger] depends(deps_of, c, y) ==> set.contains(y),
    ensures
        set.contains(path.last()),
    decreases path.len(),
{
    if path.len() > 1 {
        let shorter = path.drop_last();
        assert forall|i: int, j: int| 0 <= i && j == i + 1 && j < shorter.len() implies depends(
            deps_of,
            #[trigger] shorter[i],
            #[trigger] shorter[j],
        ) by {
            assert(depends(deps_of, path[i], path[j]));
        }
        lemma_closed_set(deps_of, set, shorter);
        assert(depends(deps_of, path[path.len() - 2], path[path.len() - 1]));
    }
}

proof fn lemma_sound_settled(cursor: CursorView, deps_of: Dependencies)
    requires
        cursor.sound(deps_of),
    ensures
        cursor.settled().sound(deps_of),
{
    let s = cursor.settled();
    assert forall|c: CommandId, y: CommandId|
        s.visited.contains(c) && #[trigger] depends(deps_of, c, y) implies s.visited.contains(y)
        || s.awaits(y) by {
        assert(cursor.visited.contains(y) || cursor.awaits(y));
    }
}

proof fn lemma_sound_examined(
    cursor: CursorView,
    deps_of: Dependencies,
    deps: Seq<CommandId>,
    index: nat,
)
    requires
        cursor.sound(deps_of),
        cursor.expanding == Some((deps, index)),
        index < deps.len(),
    ensures
        cursor.examined(deps, index).sound(deps_of),
{
    let n = cursor.examined(deps, index);
    let d = deps[index as int];
    assert forall|c: CommandId| #[trigger] n.frontier.contains(c) implies reaches(
        deps_of,
        n.root,
        c,
    ) by {
        let i = choose|i: int| 0 <= i < n.frontier.len() && n.frontier[i] == c;
        if i < cursor.frontier.len() {
            assert(cursor.frontier.contains(c));
        } else {
            assert(reaches(deps_of, cursor.root, (cursor.expanding->0).0[index as int]));
        }
    }
    assert forall|i: int| 0 <= i < (n.expanding->0).0.len() implies reaches(
        deps_of,
        n.root,
        #[trigger] (n.expanding->0).0[i],
    ) by {
        assert(reaches(deps_of, cursor.root, (cursor.expanding->0).0[i]));
    }
    assert forall|c: CommandId, y: CommandId|
        n.visited.contains(c) && #[trigger] depends(deps_of, c, y) implies n.visited.contains(y)
        || n.awaits(y) by {
        assert(cursor.visited.contains(y) || cursor.awaits(y));
        if !n.visited.contains(y) {
            if cursor.frontier.contains(y) {
                let i = choose|i: int| 0 <= i < cursor.frontier.len() && cursor.frontier[i] == y;
                assert(n.frontier[i] == y);
            } else {
                let i = choose|i: int| index <= i < deps.len() && #[trigger] deps[i] == y;
                if i == index {
                    assert(n.frontier[cursor.frontier.len() as int] == y);
                } else {
                    assert((n.expanding->0).0[i] == y);
                }
            }
        }
    }
}

proof fn lemma_sound_skipped(cursor: CursorView, deps_of: Dependencies)
    requires
        cursor.sound(deps_of),
        cursor.expanding is None,
        cursor.frontier.len() > 0,
        cursor.visited.contains(cursor.frontier.last()),
    ensures
        cursor.skipped().sound(deps_of),
{
    let n = cursor.skipped();
    assert forall|c: CommandId| #[trigger] n.frontier.contains(c) implies reaches(
        deps_of,
        n.root,
        c,
    ) by {
        let i = choose|i: int| 0 <= i < n.frontier.len() && n.frontier[i] == c;
        assert(cursor.frontier[i] == c);
        assert(cursor.frontier.contains(c));
    }
    assert forall|c: CommandId, y: CommandId|
        n.visited.contains(c) && #[trigger] depends(deps_of, c, y) implies n.visited.contains(y)
        || n.awaits(y) by {
        assert(cursor.visited.contains(y) || cursor.awaits(y));
        if !n.visited.contains(y) {
            let i = choose|i: int| 0 <= i < cursor.frontier.len() && cursor.frontier[i] == y;
            assert(n.frontier[i] == y);
        }
    }
}

proof fn lemma_sound_taken(cursor: CursorView, deps_of: Dependencies)
    requires
        cursor.sound(deps_of),
        cursor.expanding is None,
        cursor.frontier.len() > 0,
        deps_of(cursor.frontier.last()) is Some,
    ensures
        cursor.taken(deps_of(cursor.frontier.last())->0).sound(deps_of),
{
    let next = cursor.frontier.last();
    let deps = deps_of(next)->0;
    let n = cursor.taken(deps);
    assert(cursor.frontier.contains(next)) by {
        assert(cursor.frontier[cursor.frontier.len() - 1] == next);
    }
    assert forall|c: CommandId| #[trigger] n.frontier.contains(c) implies reaches(
        deps_of,
        n.root,
        c,
    ) by {
        let i = choose|i: int| 0 <= i < n.frontier.len() && n.frontier[i] == c;
        assert(cursor.frontier[i] == c);
        assert(cursor.frontier.contains(c));
    }
    assert forall|i: int| 0 <= i < deps.len() implies reaches(
        deps_of,
        n.root,
        #[trigger] (n.expanding->0).0[i],
    ) by {
        assert(deps.contains(deps[i]));
        assert(depends(deps_of, next, deps[i]));
        lemma_reaches_step(deps_of, n.root, next, deps[i]);
    }
    assert forall|c: CommandId, y: CommandId|
        n.visited.contains(c) && #[trigger] depends(deps_of, c, y) implies n.visited.contains(y)
        || n.awaits(y) by {
        if c == next {
            let i = choose|i: int| 0 <= i < deps.len() && deps[i] == y;
            assert((n.expanding->0).0[i] == y);
        } else {
            assert(cursor.visited.contains(c));
            assert(cursor.visited.contains(y) || cursor.awaits(y));
            if !n.visited.contains(y) {
                let i = choose|i: int| 0 <= i < cursor.frontier.len() && cursor.frontier[i] == y;
                assert(n.frontier[i] == y);
            }
        }
    }
}

/// A traversal that starts from a command's dependencies is sound.
pub proof fn lemma_start_sound(deps_of: Dependencies, root: CommandId)
    requires
        deps_of(root) is Some,
    ensures
        CursorView::starting(root, deps_of(root)->0).sound(deps_of),
{
    let deps = deps_of(root)->0;
    let n = CursorView::starting(root, deps);
    lemma_reaches_self(deps_of, root);
    assert forall|c: CommandId| #[trigger] n.frontier.contains(c) implies reaches(
        deps_of,
        n.root,
        c,
    ) by {
        assert(depends(deps_of, root, c));
        lemma_reaches_step(deps_of, root, root, c);
    }
}

/// However a traversal is cut into steps, it stays sound; when it completes,
/// its members are exactly the transitive dependencies of the root, and the
/// command it may stop at is a dependency that is not known.
pub proof fn lemma_walk_exact(cursor: CursorView, budget: nat, deps_of: Dependencies)
    requires
        cursor.sound(deps_of),
    ensures
        cursor.walk(budget, deps_of) matches Walk::Continue(next) ==> next.sound(deps_of)
            && next.root == cursor.root,
        cursor.walk(budget, deps_of) matches Walk::Complete(closure) ==> exact_closure(
            closure,
            deps_of,
        ) && closure.root == cursor.root,
        cursor.walk(budget, deps_of) matches Walk::Missing(c) ==> deps_of(c) is None && reaches(
            deps_of,
            cursor.root,
            c,
        ),
    decreases budget,
{
    let here = cursor.settled();
    lemma_sound_settled(cursor, deps_of);
    match here.expanding {
        Some((deps, index)) => {
            if budget > 0 {
                lemma_sound_examined(here, deps_of, deps, index);
                lemma_walk_exact(here.examined(deps, index), (budget - 1) as nat, deps_of);
            }
        },
        None => {
            if here.frontier.len() == 0 {
                let closure = ClosureView {
                    root: here.root,
                    members: here.visited.remove(here.root),
                    visits: here.visits,
                };
                assert forall|c: CommandId, y: CommandId|
                    here.visited.contains(c) && #[trigger] depends(
                        deps_of,
                        c,
                        y,
                    ) implies here.visited.contains(y) by {
                    assert(here.visited.contains(y) || here.awaits(y));
                }
                assert forall|c: CommandId| #[trigger]
                    closure.members.contains(c) <==> c != closure.root && reaches(
                        deps_of,
                        closure.root,
                        c,
                    ) by {
                    if reaches(deps_of, closure.root, c) {
                        let path = choose|path: Seq<CommandId>| #[trigger]
                            dependency_chain(deps_of, path) && path[0] == closure.root
                                && path.last() == c;
                        lemma_closed_set(deps_of, here.visited, path);
                    }
                    if here.visited.contains(c) {
                        assert(reaches(deps_of, here.root, c));
                    }
                }
            } else if budget > 0 {
                let next = here.frontier.last();
                assert(here.frontier.contains(next)) by {
                    assert(here.frontier[here.frontier.len() - 1] == next);
                }
                if here.visited.contains(next) {
                    lemma_sound_skipped(here, deps_of);
                    lemma_walk_exact(here.skipped(), (budget - 1) as nat, deps_of);
                } else if deps_of(next) is Some {
                    lemma_sound_taken(here, deps_of);
                    lemma_walk_exact(
                        here.taken(deps_of(next)->0),
                        (budget - 1) as nat,
                        deps_of,
                    );
                }
            }
        },
    }
}

/// The commands of an optional list.
pub open spec fn listed_view(v: Option<Vec<CommandId>>) -> Option<Seq<CommandId>> {
    match v {
        Some(list) => Some(list@),
        None => None,
    }
}

/// The lookup can be asked about every command.
pub open spec fn answers_all<F: Fn(CommandId) -> Option<Vec<CommandId>>>(lookup: F) -> bool {
    forall|c: CommandId| #[trigger] call_requires(lookup, (c,))
}

/// Whatever the lookup answers is what `deps_of` says.
pub open spec fn answers<F: Fn(CommandId) -> Option<Vec<CommandId>>>(
    lookup: F,
    deps_of: Dependencies,
) -> bool {
    forall|c: CommandId, v: Option<Vec<CommandId>>| #[trigger]
        call_ensures(lookup, (c,), v) ==> listed_view(v) == deps_of(c)
}

/// How a walk ended.
pub open spec fn walk_result(r: Result<ClosureProgress, CommandId>) -> Walk {
    match r {
        Ok(ClosureProgress::Continue(next)) => Walk::Continue(next@),
        Ok(ClosureProgress::Complete(closure)) => Walk::Complete(closure@),
        Err(missing) => Walk::Missing(missing),
    }
}

impl ClosureCursor {
    /// The traversal counts what it visits.
    pub closed spec fn wf(&self) -> bool {
        &&& self.visited@.finite()
        &&& self.visits + 1 == self.visited@.len()
        &&& self.expanding is Some ==> (self.expanding->0).1 <= (self.expanding->0).0@.len()
    }

    /// Start a traversal at `root` with `deps` its direct dependencies.
    pub fn start(root: CommandId, deps: &Vec<CommandId>) -> (r: Self)
        ensures
            r.wf(),
            r@ == CursorView::starting(root, deps@),
    {
        let mut visited: OrdSet<CommandId> = OrdSet::new();
        visited.insert(root);
        proof {
            assert(visited@ =~= Set::<CommandId>::empty().insert(root));
        }
        ClosureCursor { root, frontier: copy_list(deps), visited, visits: 0, expanding: None }
    }

    /// Root.
    pub fn root(&self) -> (r: CommandId)
        ensures
            r == self@.root,
    {
        self.root
    }

    /// Commands still to visit.
    pub fn frontier(&self) -> (r: &Vec<CommandId>)
        ensures
            r@ == self@.frontier,
    {
        &self.frontier
    }

    /// Units of work known to remain: frontier entries plus the rest of
    /// a dependency list being expanded (more may be discovered).
    pub fn remaining(&self) -> (r: usize)
        requires
            self.wf(),
            self@.frontier.len() + (match self@.expanding {
                Some((deps, index)) => deps.len() - index,
                None => 0,
            }) <= usize::MAX,
        ensures
            r == self@.frontier.len() + (match self@.expanding {
                Some((deps, index)) => deps.len() - index,
                None => 0,
            }),
    {
        let rest: usize = match &self.expanding {
            Some((deps, index)) => deps.len() - *index,
            None => 0,
        };
        self.frontier.len() + rest
    }

    /// Advance by at most `budget` units of work, where every frontier
    /// entry taken (visited or duplicate) and every dependency edge
    /// examined costs one unit, so a step's work is bounded whatever the
    /// size of a dependency list or of the frontier; an expansion cut off
    /// mid-list resumes where it stopped. `lookup` gives the direct
    /// dependencies of a known command, or `None`, which stops the
    /// traversal.
    #[verifier::rlimit(40)]
    pub fn step<F: Fn(CommandId) -> Option<Vec<CommandId>>>(
        self,
        budget: usize,
        lookup: &F,
    ) -> (r: Result<ClosureProgress, CommandId>)
        requires
            self.wf(),
            answers_all(*lookup),
        ensures
            forall|deps_of: Dependencies| #[trigger]
                answers(*lookup, deps_of) ==> walk_result(r) == self@.walk(budget as nat, deps_of),
            r matches Ok(ClosureProgress::Continue(next)) ==> next.wf(),
    {
        let mut this = self;
        let mut left: usize = budget;
        loop
            invariant
                this.wf(),
                answers_all(*lookup),
                forall|deps_of: Dependencies| #[trigger]
                    answers(*lookup, deps_of) ==> this@.walk(left as nat, deps_of) == self@.walk(
                        budget as nat,
                        deps_of,
                    ),
            decreases left,
        {
            let ClosureCursor { root, mut frontier, mut visited, visits, expanding } = this;
            match expanding {
                Some((deps, index)) if index < deps.len() => {
                    if left == 0 {
                        return Ok(
                            ClosureProgress::Continue(
                                ClosureCursor {
                                    root,
                                    frontier,
                                    visited,
                                    visits,
                                    expanding: Some((deps, index)),
                                },
                            ),
                        );
                    }
                    let d = deps[index];
                    if !visited.contains(&d) {
                        frontier.push(d);
                    }
                    this = ClosureCursor {
                        root,
                        frontier,
                        visited,
                        visits,
                        expanding: Some((deps, index + 1)),
                    };
                    left = left - 1;
                    continue ;
                },
                _ => {},
            }
            if frontier.len() == 0 {
                visited.remove(&root);
                return Ok(
                    ClosureProgress::Complete(Closure { root, members: visited, visits }),
                );
            }
            if left == 0 {
                return Ok(
                    ClosureProgress::Continue(
                        ClosureCursor { root, frontier, visited, visits, expanding: None },
                    ),
                );
            }
            let next = frontier[frontier.len() - 1];
            if visited.contains(&next) {
                let _ = frontier.pop();
                this = ClosureCursor { root, frontier, visited, visits, expanding: None };
                left = left - 1;
                continue ;
            }
            let found = lookup(next);
            proof {
                assert forall|deps_of: Dependencies| #[trigger]
                    answers(*lookup, deps_of) implies deps_of(next) == listed_view(found) by {}
            }
            match found {
                None => {
                    return Err(next);
                },
                Some(deps) => {
                    let _ = frontier.pop();
                    visited.insert(next);
                    let seen: usize = visited.len();
                    this = ClosureCursor {
                        root,
                        frontier,
                        visited,
                        visits: seen - 1,
                        expanding: Some((deps, 0)),
                    };
                    left = left - 1;
                },
            }
        }
    }
}

/// Units of work that are still certain to come: frontier entries, and
/// dependencies of the list being expanded.
pub open spec fn left(cursor: CursorView) -> int {
    cursor.frontier.len() + match cursor.expanding {
        Some((deps, index)) => deps.len() - index,
        None => 0,
    }
}

/// A step without a budget makes no progress and loses nothing; where nothing
/// is left, any step completes.
pub proof fn lemma_steps_need_a_budget(cursor: CursorView, budget: nat, deps_of: Dependencies)
    requires
        cursor.expanding matches Some((deps, index)) ==> index <= deps.len(),
    ensures
        left(cursor) > 0 ==> cursor.walk(0, deps_of) == Walk::Continue(cursor.settled())
            && left(cursor.settled()) == left(cursor) && cursor.settled().visited
            == cursor.visited && cursor.settled().frontier == cursor.frontier,
        left(cursor) == 0 ==> cursor.walk(budget, deps_of) == Walk::Complete(
            ClosureView {
                root: cursor.root,
                members: cursor.visited.remove(cursor.root),
                visits: cursor.visits,
            },
        ),
{
}

/// The dependencies of the commands of a finite set.
pub open spec fn edges(set: Set<CommandId>, deps_of: Dependencies) -> nat
    decreases set.len(),
    when set.finite()
{
    if set.len() == 0 {
        0
    } else {
        let c = set.choose();
        (match deps_of(c) {
            Some(deps) => deps.len(),
            None => 0,
        }) + edges(set.remove(c), deps_of)
    }
}

proof fn lemma_edges_remove(set: Set<CommandId>, deps_of: Dependencies, c: CommandId)
    requires
        set.finite(),
        set.contains(c),
        deps_of(c) is Some,
    ensures
        edges(set, deps_of) == deps_of(c)->0.len() + edges(set.remove(c), deps_of),
    decreases set.len(),
{
    let d = set.choose();
    if d != c {
        lemma_edges_remove(set.remove(d), deps_of, c);
        assert(set.remove(d).remove(c) =~= set.remove(c).remove(d));
        lemma_edges_choice(set.remove(c), deps_of, d);
    }
}

proof fn lemma_edges_choice(set: Set<CommandId>, deps_of: Dependencies, d: CommandId)
    requires
        set.finite(),
        set.contains(d),
    ensures
        edges(set, deps_of) == (match deps_of(d) {
            Some(deps) => deps.len(),
            None => 0,
        }) + edges(set.remove(d), deps_of),
    decreases set.len(),
{
    let e = set.choose();
    if e != d {
        lemma_edges_choice(set.remove(e), deps_of, d);
        assert(set.remove(e).remove(d) =~= set.remove(d).remove(e));
        lemma_edges_choice(set.remove(d), deps_of, e);
    }
}

/// A traversal that stays among `all` commands.
pub open spec fn stays_within(
    cursor: CursorView,
    all: Set<CommandId>,
    deps_of: Dependencies,
) -> bool {
    &&& all.finite()
    &&& forall|i: int| 0 <= i < cursor.frontier.len() ==> all.contains(#[trigger] cursor.frontier[i])
    &&& cursor.expanding matches Some((deps, index)) ==> index <= deps.len() && forall|i: int|
        0 <= i < deps.len() ==> all.contains(#[trigger] deps[i])
    &&& forall|c: CommandId, i: int|
        #![trigger all.contains(c), deps_of(c)->0[i]]
        all.contains(c) && deps_of(c) is Some && 0 <= i < deps_of(c)->0.len() ==> all.contains(
            deps_of(c)->0[i],
        )
}

/// Work that bounds a traversal among `all` commands: every dependency of what
/// is not visited yet may be examined and then taken.
pub open spec fn work(cursor: CursorView, all: Set<CommandId>, deps_of: Dependencies) -> int {
    cursor.frontier.len() + 2 * (left(cursor) - cursor.frontier.len()) + 2 * edges(
        all.difference(cursor.visited),
        deps_of,
    )
}

/// A traversal over finitely many commands ends: with as much budget as there
/// is work, a walk completes or stops at a command that is not known.
pub proof fn lemma_walks_end(
    cursor: CursorView,
    all: Set<CommandId>,
    budget: nat,
    deps_of: Dependencies,
)
    requires
        stays_within(cursor, all, deps_of),
        work(cursor, all, deps_of) <= budget,
    ensures
        !(cursor.walk(budget, deps_of) is Continue),
    decreases budget,
{
    let here = cursor.settled();
    match here.expanding {
        Some((deps, index)) => {
            let next = here.examined(deps, index);
            if budget > 0 {
                assert forall|i: int| 0 <= i < next.frontier.len() implies all.contains(
                    #[trigger] next.frontier[i],
                ) by {
                    if i < here.frontier.len() {
                        assert(all.contains(here.frontier[i]));
                    }
                }
                lemma_walks_end(next, all, (budget - 1) as nat, deps_of);
            }
        },
        None => {
            if here.frontier.len() > 0 && budget > 0 {
                let c = here.frontier.last();
                assert(here.frontier[here.frontier.len() - 1] == c);
                assert(all.contains(c));
                if here.visited.contains(c) {
                    let next = here.skipped();
                    assert forall|i: int| 0 <= i < next.frontier.len() implies all.contains(
                        #[trigger] next.frontier[i],
                    ) by {
                        assert(next.frontier[i] == here.frontier[i]);
                    }
                    lemma_walks_end(next, all, (budget - 1) as nat, deps_of);
                } else if deps_of(c) is Some {
                    let next = here.taken(deps_of(c)->0);
                    let open = all.difference(here.visited);
                    assert(all.difference(next.visited) =~= open.remove(c));
                    lemma_edges_remove(open, deps_of, c);
                    assert forall|i: int| 0 <= i < next.frontier.len() implies all.contains(
                        #[trigger] next.frontier[i],
                    ) by {
                        assert(next.frontier[i] == here.frontier[i]);
                    }
                    lemma_walks_end(next, all, (budget - 1) as nat, deps_of);
                }
            }
        },
    }
}

/// Every visit is of one more command.
pub open spec fn counts(cursor: CursorView) -> bool {
    &&& cursor.visited.finite()
    &&& cursor.visited.contains(cursor.root)
    &&& cursor.visited.len() == cursor.visits + 1
}

/// The work a traversal reports is the number of its members, however it was
/// cut into steps.
pub proof fn lemma_visits_are_members(cursor: CursorView, budget: nat, deps_of: Dependencies)
    requires
        counts(cursor),
    ensures
        cursor.walk(budget, deps_of) matches Walk::Continue(next) ==> counts(next),
        cursor.walk(budget, deps_of) matches Walk::Complete(closure) ==> closure.visits
            == closure.members.len(),
    decreases budget,
{
    let here = cursor.settled();
    match here.expanding {
        Some((deps, index)) => {
            if budget > 0 {
                lemma_visits_are_members(here.examined(deps, index), (budget - 1) as nat, deps_of);
            }
        },
        None => {
            if here.frontier.len() > 0 && budget > 0 {
                let c = here.frontier.last();
                if here.visited.contains(c) {
                    lemma_visits_are_members(here.skipped(), (budget - 1) as nat, deps_of);
                } else if deps_of(c) is Some {
                    lemma_visits_are_members(
                        here.taken(deps_of(c)->0),
                        (budget - 1) as nat,
                        deps_of,
                    );
                }
            }
        },
    }
}

/// A traversal about to begin has counted nothing.
pub proof fn lemma_start_counts(root: CommandId, deps: Seq<CommandId>)
    ensures
        counts(CursorView::starting(root, deps)),
{
}

/// Steps add up: where one stops for want of budget, the next goes on as one
/// step with both budgets would have, and where one ended, more budget changes
/// nothing.
pub proof fn lemma_steps_add_up(cursor: CursorView, first: nat, more: nat, deps_of: Dependencies)
    ensures
        match cursor.walk(first, deps_of) {
            Walk::Continue(next) => next.walk(more, deps_of) == cursor.walk(first + more, deps_of),
            ended => ended == cursor.walk(first + more, deps_of),
        },
    decreases first,
{
    let here = cursor.settled();
    let rest = (first - 1) as nat;
    if first > 0 {
        assert((first + more - 1) as nat == rest + more);
    } else {
        assert(here.settled() == here);
    }
    match here.expanding {
        Some((deps, index)) => {
            if first > 0 {
                lemma_steps_add_up(here.examined(deps, index), rest, more, deps_of);
            }
        },
        None => {
            if here.frontier.len() > 0 && first > 0 {
                let c = here.frontier.last();
                if here.visited.contains(c) {
                    lemma_steps_add_up(here.skipped(), rest, more, deps_of);
                } else if deps_of(c) is Some {
                    lemma_steps_add_up(here.taken(deps_of(c)->0), rest, more, deps_of);
                }
            }
        },
    }
}

/// A closure over finitely many commands is found: with as much budget as
/// there is work, the traversal from `root` completes and reports as much work
/// as it has members, unless it meets a command that is not known.
pub proof fn lemma_closures_end(
    root: CommandId,
    deps: Seq<CommandId>,
    all: Set<CommandId>,
    budget: nat,
    deps_of: Dependencies,
)
    requires
        stays_within(CursorView::starting(root, deps), all, deps_of),
        work(CursorView::starting(root, deps), all, deps_of) <= budget,
    ensures
        match CursorView::starting(root, deps).walk(budget, deps_of) {
            Walk::Continue(_) => false,
            Walk::Complete(closure) => closure.visits == closure.members.len(),
            Walk::Missing(_) => true,
        },
{
    let start = CursorView::starting(root, deps);
    lemma_start_counts(root, deps);
    lemma_walks_end(start, all, budget, deps_of);
    lemma_visits_are_members(start, budget, deps_of);
}

} // verus!
