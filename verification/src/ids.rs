//! Identities and counters.
//!
//! An identity of sixteen bytes is held as the number those bytes spell,
//! most significant first, so that numeric order is byte order. Counters
//! order by value.

use vstd::prelude::*;

use crate::ordered::{Dup, Key, Order};

verus! {

/// `256` to the power of `n`.
pub open spec fn pow256(n: nat) -> int
    decreases n,
{
    if n == 0 {
        1
    } else {
        256 * pow256((n - 1) as nat)
    }
}

/// The last `n` bytes of a value, most significant first.
pub open spec fn be_bytes(value: int, n: nat) -> Seq<u8>
    decreases n,
{
    if n == 0 {
        Seq::empty()
    } else {
        be_bytes(value / 256, (n - 1) as nat).push((value % 256) as u8)
    }
}

/// The value whose bytes, most significant first, are `s`.
pub open spec fn be_value(s: Seq<u8>) -> int
    decreases s.len(),
{
    if s.len() == 0 {
        0
    } else {
        be_value(s.drop_last()) * 256 + s.last()
    }
}

/// The encoding has the length it is asked for.
pub proof fn lemma_be_len(value: int, n: nat)
    ensures
        be_bytes(value, n).len() == n,
    decreases n,
{
    if n > 0 {
        lemma_be_len(value / 256, (n - 1) as nat);
    }
}

/// Reading an encoding gives the value back.
pub proof fn lemma_be_round_trip(value: int, n: nat)
    requires
        0 <= value < pow256(n),
    ensures
        be_value(be_bytes(value, n)) == value,
    decreases n,
{
    if n > 0 {
        let m = (n - 1) as nat;
        assert(value / 256 < pow256(m)) by {
            assert(pow256(n) == 256 * pow256(m));
        }
        lemma_be_round_trip(value / 256, m);
        let s = be_bytes(value, n);
        assert(s.drop_last() =~= be_bytes(value / 256, m));
    }
}

/// Different values have different encodings.
pub proof fn lemma_be_injective(a: int, b: int, n: nat)
    requires
        0 <= a < pow256(n),
        0 <= b < pow256(n),
        be_bytes(a, n) == be_bytes(b, n),
    ensures
        a == b,
{
    lemma_be_round_trip(a, n);
    lemma_be_round_trip(b, n);
}

/// The ranges of the encoded integer types.
pub proof fn lemma_pow256()
    ensures
        pow256(8) == 0x1_0000_0000_0000_0000,
        pow256(16) == 0x1_0000_0000_0000_0000_0000_0000_0000_0000,
{
    reveal_with_fuel(pow256, 9);
    assert(pow256(8) == 0x1_0000_0000_0000_0000);
    assert(pow256(16) == 0x1_0000_0000_0000_0000_0000_0000_0000_0000) by {
        reveal_with_fuel(pow256, 17);
    }
}

/// The last `n` bytes of `value`, most significant first.
pub fn to_be(value: u128, n: usize) -> (r: Vec<u8>)
    ensures
        r@ == be_bytes(value as int, n as nat),
    decreases n,
{
    if n == 0 {
        return Vec::new();
    }
    let mut out = to_be(value / 256, n - 1);
    out.push((value % 256) as u8);
    out
}

/// The value sixteen bytes spell, most significant first.
pub fn from_be(bytes: &[u8; 16]) -> (r: u128)
    ensures
        r as int == be_value(bytes@),
{
    let mut value: u128 = 0;
    let mut i: usize = 0;
    proof {
        assert(bytes@.take(0) =~= Seq::<u8>::empty());
    }
    while i < 16
        invariant
            i <= 16,
            value as int == be_value(bytes@.take(i as int)),
            value < pow256(i as nat),
        decreases 16 - i,
    {
        proof {
            lemma_pow256();
            lemma_pow256_monotone((i + 1) as nat, 16);
            assert(bytes@.take(i + 1).drop_last() =~= bytes@.take(i as int));
            assert(pow256((i + 1) as nat) == 256 * pow256(i as nat));
        }
        value = value * 256 + bytes[i] as u128;
        i = i + 1;
    }
    assert(bytes@.take(16) =~= bytes@);
    value
}

proof fn lemma_pow256_monotone(a: nat, b: nat)
    requires
        a <= b,
    ensures
        0 < pow256(a) <= pow256(b),
    decreases b,
{
    if a < b {
        lemma_pow256_monotone(a, (b - 1) as nat);
    } else if a > 0 {
        lemma_pow256_monotone((a - 1) as nat, (a - 1) as nat);
    }
}

/// Identity of a replica.
#[derive(Clone, Copy, Debug, PartialEq, Eq, Hash, Structural)]
pub struct ReplicaId(pub u128);

impl View for ReplicaId {
    type V = ReplicaId;

    open spec fn view(&self) -> ReplicaId {
        *self
    }
}

impl Dup for ReplicaId {
    fn dup(&self) -> (r: Self) {
        *self
    }
}

impl ReplicaId {
    /// The bytes of the identity.
    pub open spec fn bytes(self) -> Seq<u8> {
        be_bytes(self.0 as int, 16)
    }

    /// The identity these bytes spell.
    pub fn from_bytes(bytes: [u8; 16]) -> (r: Self)
        ensures
            r.0 as int == be_value(bytes@),
    {
        ReplicaId(from_be(&bytes))
    }

    /// The bytes of the identity.
    pub fn to_bytes(&self) -> (r: Vec<u8>)
        ensures
            r@ == self.bytes(),
    {
        to_be(self.0, 16)
    }
}

impl Key for ReplicaId {
    open spec fn before(a: ReplicaId, b: ReplicaId) -> bool {
        a.0 < b.0
    }

    proof fn irreflexive(a: ReplicaId) {
    }

    proof fn transitive(a: ReplicaId, b: ReplicaId, c: ReplicaId) {
    }

    proof fn total(a: ReplicaId, b: ReplicaId) {
    }

    fn order(&self, other: &Self) -> (r: Order) {
        proof {
            assert(Self::before(self@, other@) <==> self.0 < other.0);
            assert(Self::before(other@, self@) <==> other.0 < self.0);
        }
        if self.0 < other.0 {
            Order::Before
        } else if self.0 == other.0 {
            Order::Same
        } else {
            Order::After
        }
    }

    fn copy_key(&self) -> (r: Self) {
        *self
    }
}

/// Identity of a cluster.
#[derive(Clone, Copy, Debug, PartialEq, Eq, Hash, Structural)]
pub struct ClusterId(pub u128);

impl View for ClusterId {
    type V = ClusterId;

    open spec fn view(&self) -> ClusterId {
        *self
    }
}

impl Dup for ClusterId {
    fn dup(&self) -> (r: Self) {
        *self
    }
}

impl ClusterId {
    /// The bytes of the identity.
    pub open spec fn bytes(self) -> Seq<u8> {
        be_bytes(self.0 as int, 16)
    }

    /// The identity these bytes spell.
    pub fn from_bytes(bytes: [u8; 16]) -> (r: Self)
        ensures
            r.0 as int == be_value(bytes@),
    {
        ClusterId(from_be(&bytes))
    }

    /// The bytes of the identity.
    pub fn to_bytes(&self) -> (r: Vec<u8>)
        ensures
            r@ == self.bytes(),
    {
        to_be(self.0, 16)
    }
}

impl Key for ClusterId {
    open spec fn before(a: ClusterId, b: ClusterId) -> bool {
        a.0 < b.0
    }

    proof fn irreflexive(a: ClusterId) {
    }

    proof fn transitive(a: ClusterId, b: ClusterId, c: ClusterId) {
    }

    proof fn total(a: ClusterId, b: ClusterId) {
    }

    fn order(&self, other: &Self) -> (r: Order) {
        proof {
            assert(Self::before(self@, other@) <==> self.0 < other.0);
            assert(Self::before(other@, self@) <==> other.0 < self.0);
        }
        if self.0 < other.0 {
            Order::Before
        } else if self.0 == other.0 {
            Order::Same
        } else {
            Order::After
        }
    }

    fn copy_key(&self) -> (r: Self) {
        *self
    }
}

/// Identity of a replicated domain.
#[derive(Clone, Copy, Debug, PartialEq, Eq, Hash, Structural)]
pub struct DomainId(pub u128);

impl View for DomainId {
    type V = DomainId;

    open spec fn view(&self) -> DomainId {
        *self
    }
}

impl Dup for DomainId {
    fn dup(&self) -> (r: Self) {
        *self
    }
}

impl DomainId {
    /// The bytes of the identity.
    pub open spec fn bytes(self) -> Seq<u8> {
        be_bytes(self.0 as int, 16)
    }

    /// The identity these bytes spell.
    pub fn from_bytes(bytes: [u8; 16]) -> (r: Self)
        ensures
            r.0 as int == be_value(bytes@),
    {
        DomainId(from_be(&bytes))
    }

    /// The bytes of the identity.
    pub fn to_bytes(&self) -> (r: Vec<u8>)
        ensures
            r@ == self.bytes(),
    {
        to_be(self.0, 16)
    }
}

impl Key for DomainId {
    open spec fn before(a: DomainId, b: DomainId) -> bool {
        a.0 < b.0
    }

    proof fn irreflexive(a: DomainId) {
    }

    proof fn transitive(a: DomainId, b: DomainId, c: DomainId) {
    }

    proof fn total(a: DomainId, b: DomainId) {
    }

    fn order(&self, other: &Self) -> (r: Order) {
        proof {
            assert(Self::before(self@, other@) <==> self.0 < other.0);
            assert(Self::before(other@, self@) <==> other.0 < self.0);
        }
        if self.0 < other.0 {
            Order::Before
        } else if self.0 == other.0 {
            Order::Same
        } else {
            Order::After
        }
    }

    fn copy_key(&self) -> (r: Self) {
        *self
    }
}

/// Identity of a client session.
#[derive(Clone, Copy, Debug, PartialEq, Eq, Hash, Structural)]
pub struct SessionId(pub u128);

impl View for SessionId {
    type V = SessionId;

    open spec fn view(&self) -> SessionId {
        *self
    }
}

impl Dup for SessionId {
    fn dup(&self) -> (r: Self) {
        *self
    }
}

impl SessionId {
    /// The bytes of the identity.
    pub open spec fn bytes(self) -> Seq<u8> {
        be_bytes(self.0 as int, 16)
    }

    /// The identity these bytes spell.
    pub fn from_bytes(bytes: [u8; 16]) -> (r: Self)
        ensures
            r.0 as int == be_value(bytes@),
    {
        SessionId(from_be(&bytes))
    }

    /// The bytes of the identity.
    pub fn to_bytes(&self) -> (r: Vec<u8>)
        ensures
            r@ == self.bytes(),
    {
        to_be(self.0, 16)
    }
}

impl Key for SessionId {
    open spec fn before(a: SessionId, b: SessionId) -> bool {
        a.0 < b.0
    }

    proof fn irreflexive(a: SessionId) {
    }

    proof fn transitive(a: SessionId, b: SessionId, c: SessionId) {
    }

    proof fn total(a: SessionId, b: SessionId) {
    }

    fn order(&self, other: &Self) -> (r: Order) {
        proof {
            assert(Self::before(self@, other@) <==> self.0 < other.0);
            assert(Self::before(other@, self@) <==> other.0 < self.0);
        }
        if self.0 < other.0 {
            Order::Before
        } else if self.0 == other.0 {
            Order::Same
        } else {
            Order::After
        }
    }

    fn copy_key(&self) -> (r: Self) {
        *self
    }
}

/// Identity of one client process.
#[derive(Clone, Copy, Debug, PartialEq, Eq, Hash, Structural)]
pub struct ClientInstanceId(pub u128);

impl View for ClientInstanceId {
    type V = ClientInstanceId;

    open spec fn view(&self) -> ClientInstanceId {
        *self
    }
}

impl Dup for ClientInstanceId {
    fn dup(&self) -> (r: Self) {
        *self
    }
}

impl ClientInstanceId {
    /// The bytes of the identity.
    pub open spec fn bytes(self) -> Seq<u8> {
        be_bytes(self.0 as int, 16)
    }

    /// The identity these bytes spell.
    pub fn from_bytes(bytes: [u8; 16]) -> (r: Self)
        ensures
            r.0 as int == be_value(bytes@),
    {
        ClientInstanceId(from_be(&bytes))
    }

    /// The bytes of the identity.
    pub fn to_bytes(&self) -> (r: Vec<u8>)
        ensures
            r@ == self.bytes(),
    {
        to_be(self.0, 16)
    }
}

impl Key for ClientInstanceId {
    open spec fn before(a: ClientInstanceId, b: ClientInstanceId) -> bool {
        a.0 < b.0
    }

    proof fn irreflexive(a: ClientInstanceId) {
    }

    proof fn transitive(a: ClientInstanceId, b: ClientInstanceId, c: ClientInstanceId) {
    }

    proof fn total(a: ClientInstanceId, b: ClientInstanceId) {
    }

    fn order(&self, other: &Self) -> (r: Order) {
        proof {
            assert(Self::before(self@, other@) <==> self.0 < other.0);
            assert(Self::before(other@, self@) <==> other.0 < self.0);
        }
        if self.0 < other.0 {
            Order::Before
        } else if self.0 == other.0 {
            Order::Same
        } else {
            Order::After
        }
    }

    fn copy_key(&self) -> (r: Self) {
        *self
    }
}

/// A digest of thirty-two bytes, held as its two halves.
#[derive(Clone, Copy, Debug, PartialEq, Eq, Hash, Structural)]
pub struct Digest32 {
    /// The number the first sixteen bytes spell.
    pub high: u128,
    /// The number the last sixteen bytes spell.
    pub low: u128,
}

impl View for Digest32 {
    type V = Digest32;

    open spec fn view(&self) -> Digest32 {
        *self
    }
}

impl Dup for Digest32 {
    fn dup(&self) -> (r: Self) {
        *self
    }
}

impl Digest32 {
    /// The bytes of the digest.
    pub open spec fn bytes(self) -> Seq<u8> {
        be_bytes(self.high as int, 16) + be_bytes(self.low as int, 16)
    }

    /// The digest of these two halves.
    pub fn from_halves(high: [u8; 16], low: [u8; 16]) -> (r: Self)
        ensures
            r.high as int == be_value(high@),
            r.low as int == be_value(low@),
    {
        Digest32 { high: from_be(&high), low: from_be(&low) }
    }

    /// The bytes of the digest.
    pub fn to_bytes(&self) -> (r: Vec<u8>)
        ensures
            r@ == self.bytes(),
    {
        let mut out = to_be(self.high, 16);
        let mut tail = to_be(self.low, 16);
        out.append(&mut tail);
        out
    }
}

/// Different digests have different bytes.
pub proof fn lemma_digest_injective(a: Digest32, b: Digest32)
    requires
        a.bytes() == b.bytes(),
    ensures
        a == b,
{
    lemma_pow256();
    lemma_be_len(a.high as int, 16);
    lemma_be_len(b.high as int, 16);
    assert(a.bytes().take(16) =~= be_bytes(a.high as int, 16));
    assert(b.bytes().take(16) =~= be_bytes(b.high as int, 16));
    assert(a.bytes().skip(16) =~= be_bytes(a.low as int, 16));
    assert(b.bytes().skip(16) =~= be_bytes(b.low as int, 16));
    lemma_be_injective(a.high as int, b.high as int, 16);
    lemma_be_injective(a.low as int, b.low as int, 16);
}

/// Identity of a command: the digest of its retry key and logical request.
#[derive(Clone, Copy, Debug, PartialEq, Eq, Hash, Structural)]
pub struct CommandId(pub Digest32);

impl View for CommandId {
    type V = CommandId;

    open spec fn view(&self) -> CommandId {
        *self
    }
}

impl Dup for CommandId {
    fn dup(&self) -> (r: Self) {
        *self
    }
}

impl CommandId {
    /// The bytes of the identity.
    pub open spec fn bytes(self) -> Seq<u8> {
        self.0.bytes()
    }

    /// The bytes of the identity.
    pub fn to_bytes(&self) -> (r: Vec<u8>)
        ensures
            r@ == self.bytes(),
    {
        self.0.to_bytes()
    }
}

impl Key for Digest32 {
    open spec fn before(a: Digest32, b: Digest32) -> bool {
        a.high < b.high || a.high == b.high && a.low < b.low
    }

    proof fn irreflexive(a: Digest32) {
    }

    proof fn transitive(a: Digest32, b: Digest32, c: Digest32) {
    }

    proof fn total(a: Digest32, b: Digest32) {
    }

    fn order(&self, other: &Self) -> (r: Order) {
        if self.high < other.high || self.high == other.high && self.low < other.low {
            Order::Before
        } else if self.high == other.high && self.low == other.low {
            Order::Same
        } else {
            Order::After
        }
    }

    fn copy_key(&self) -> (r: Self) {
        *self
    }
}

impl Key for CommandId {
    open spec fn before(a: CommandId, b: CommandId) -> bool {
        a.0.high < b.0.high || a.0.high == b.0.high && a.0.low < b.0.low
    }

    proof fn irreflexive(a: CommandId) {
    }

    proof fn transitive(a: CommandId, b: CommandId, c: CommandId) {
    }

    proof fn total(a: CommandId, b: CommandId) {
    }

    fn order(&self, other: &Self) -> (r: Order) {
        if self.0.high < other.0.high || self.0.high == other.0.high && self.0.low < other.0.low {
            Order::Before
        } else if self.0.high == other.0.high && self.0.low == other.0.low {
            Order::Same
        } else {
            Order::After
        }
    }

    fn copy_key(&self) -> (r: Self) {
        *self
    }
}

/// Epoch of a membership configuration.
#[derive(Clone, Copy, Debug, PartialEq, Eq, Hash, Structural)]
pub struct ConfigurationEpoch(pub u64);

impl View for ConfigurationEpoch {
    type V = ConfigurationEpoch;

    open spec fn view(&self) -> ConfigurationEpoch {
        *self
    }
}

impl Dup for ConfigurationEpoch {
    fn dup(&self) -> (r: Self) {
        *self
    }
}

impl ConfigurationEpoch {
    /// The value.
    pub fn get(&self) -> (r: u64)
        ensures
            r == self.0,
    {
        self.0
    }
}

/// Position of a command in the execution order.
#[derive(Clone, Copy, Debug, PartialEq, Eq, Hash, Structural)]
pub struct ExecutionPosition(pub u64);

impl View for ExecutionPosition {
    type V = ExecutionPosition;

    open spec fn view(&self) -> ExecutionPosition {
        *self
    }
}

impl Dup for ExecutionPosition {
    fn dup(&self) -> (r: Self) {
        *self
    }
}

impl ExecutionPosition {
    /// The value.
    pub fn get(&self) -> (r: u64)
        ensures
            r == self.0,
    {
        self.0
    }
}

/// Revision of the key-value state.
#[derive(Clone, Copy, Debug, PartialEq, Eq, Hash, Structural)]
pub struct KvRevision(pub u64);

impl View for KvRevision {
    type V = KvRevision;

    open spec fn view(&self) -> KvRevision {
        *self
    }
}

impl Dup for KvRevision {
    fn dup(&self) -> (r: Self) {
        *self
    }
}

impl KvRevision {
    /// The value.
    pub fn get(&self) -> (r: u64)
        ensures
            r == self.0,
    {
        self.0
    }
}

/// Sequence number of a batch in the local journal.
#[derive(Clone, Copy, Debug, PartialEq, Eq, Hash, Structural)]
pub struct LocalJournalSeq(pub u64);

impl View for LocalJournalSeq {
    type V = LocalJournalSeq;

    open spec fn view(&self) -> LocalJournalSeq {
        *self
    }
}

impl Dup for LocalJournalSeq {
    fn dup(&self) -> (r: Self) {
        *self
    }
}

impl LocalJournalSeq {
    /// The value.
    pub fn get(&self) -> (r: u64)
        ensures
            r == self.0,
    {
        self.0
    }
}

/// Sequence number of a request within a client instance.
#[derive(Clone, Copy, Debug, PartialEq, Eq, Hash, Structural)]
pub struct RequestSequence(pub u64);

impl View for RequestSequence {
    type V = RequestSequence;

    open spec fn view(&self) -> RequestSequence {
        *self
    }
}

impl Dup for RequestSequence {
    fn dup(&self) -> (r: Self) {
        *self
    }
}

impl RequestSequence {
    /// The value.
    pub fn get(&self) -> (r: u64)
        ensures
            r == self.0,
    {
        self.0
    }
}

/// Identity of a submitted journal batch.
#[derive(Clone, Copy, Debug, PartialEq, Eq, Hash, Structural)]
pub struct BarrierId(pub u64);

impl View for BarrierId {
    type V = BarrierId;

    open spec fn view(&self) -> BarrierId {
        *self
    }
}

impl Dup for BarrierId {
    fn dup(&self) -> (r: Self) {
        *self
    }
}

impl BarrierId {
    /// The value.
    pub fn get(&self) -> (r: u64)
        ensures
            r == self.0,
    {
        self.0
    }
}

impl Key for BarrierId {
    open spec fn before(a: BarrierId, b: BarrierId) -> bool {
        a.0 < b.0
    }

    proof fn irreflexive(a: BarrierId) {
    }

    proof fn transitive(a: BarrierId, b: BarrierId, c: BarrierId) {
    }

    proof fn total(a: BarrierId, b: BarrierId) {
    }

    fn order(&self, other: &Self) -> (r: Order) {
        proof {
            assert(Self::before(self@, other@) <==> self.0 < other.0);
            assert(Self::before(other@, self@) <==> other.0 < self.0);
        }
        if self.0 < other.0 {
            Order::Before
        } else if self.0 == other.0 {
            Order::Same
        } else {
            Order::After
        }
    }

    fn copy_key(&self) -> (r: Self) {
        *self
    }
}

/// Identity of one start of a replica process.
#[derive(Clone, Copy, Debug, PartialEq, Eq, Hash, Structural)]
pub struct BootId(pub u128);

impl View for BootId {
    type V = BootId;

    open spec fn view(&self) -> BootId {
        *self
    }
}

impl Dup for BootId {
    fn dup(&self) -> (r: Self) {
        *self
    }
}

impl BootId {
    /// The bytes of the identity.
    pub open spec fn bytes(self) -> Seq<u8> {
        be_bytes(self.0 as int, 16)
    }

    /// The identity these bytes spell.
    pub fn from_bytes(bytes: [u8; 16]) -> (r: Self)
        ensures
            r.0 as int == be_value(bytes@),
    {
        BootId(from_be(&bytes))
    }

    /// The bytes of the identity.
    pub fn to_bytes(&self) -> (r: Vec<u8>)
        ensures
            r@ == self.bytes(),
    {
        to_be(self.0, 16)
    }
}

impl Key for u64 {
    open spec fn before(a: u64, b: u64) -> bool {
        a < b
    }

    proof fn irreflexive(a: u64) {
    }

    proof fn transitive(a: u64, b: u64, c: u64) {
    }

    proof fn total(a: u64, b: u64) {
    }

    fn order(&self, other: &Self) -> (r: Order) {
        proof {
            assert(Self::before(self@, other@) <==> *self < *other);
            assert(Self::before(other@, self@) <==> *other < *self);
        }
        if *self < *other {
            Order::Before
        } else if *self == *other {
            Order::Same
        } else {
            Order::After
        }
    }

    fn copy_key(&self) -> (r: Self) {
        *self
    }
}

impl Dup for u64 {
    fn dup(&self) -> (r: Self) {
        *self
    }
}

impl Key for u32 {
    open spec fn before(a: u32, b: u32) -> bool {
        a < b
    }

    proof fn irreflexive(a: u32) {
    }

    proof fn transitive(a: u32, b: u32, c: u32) {
    }

    proof fn total(a: u32, b: u32) {
    }

    fn order(&self, other: &Self) -> (r: Order) {
        proof {
            assert(u32::before(*self, *other) == (*self < *other));
            assert(u32::before(*other, *self) == (*other < *self));
        }
        if *self < *other {
            Order::Before
        } else if *self == *other {
            Order::Same
        } else {
            Order::After
        }
    }

    fn copy_key(&self) -> (r: Self) {
        *self
    }
}

impl Dup for u32 {
    fn dup(&self) -> (r: Self) {
        *self
    }
}

/// A ballot of an epoch: a round number and the replica that leads it.
#[derive(Clone, Copy, Debug, PartialEq, Eq, Hash, Structural)]
pub struct Ballot {
    /// Configuration epoch.
    pub epoch: ConfigurationEpoch,
    /// Round number.
    pub number: u64,
    /// Leader of the ballot.
    pub leader: ReplicaId,
}

impl View for Ballot {
    type V = Ballot;

    open spec fn view(&self) -> Ballot {
        *self
    }
}

impl Dup for Ballot {
    fn dup(&self) -> (r: Self) {
        *self
    }
}

/// `a` is the lower ballot: by number, then by leader identity.
pub open spec fn ballot_below(a: Ballot, b: Ballot) -> bool {
    a.number < b.number || a.number == b.number && a.leader.0 < b.leader.0
}

/// `a` is a higher ballot of the same epoch.
pub open spec fn supersedes(a: Ballot, b: Ballot) -> bool {
    a.epoch == b.epoch && ballot_below(b, a)
}

impl Ballot {
    /// Compare two ballots of the same epoch; ballots of different epochs
    /// are not ordered.
    pub fn compare_same_epoch(&self, other: &Ballot) -> (r: Option<Order>)
        ensures
            r is Some <==> self.epoch == other.epoch,
            r is Some ==> (r->0 is Before <==> ballot_below(*self, *other)) && (r->0 is Same
                <==> *self == *other) && (r->0 is After <==> ballot_below(*other, *self)),
    {
        if self.epoch != other.epoch {
            return None;
        }
        if self.number < other.number {
            Some(Order::Before)
        } else if other.number < self.number {
            Some(Order::After)
        } else {
            Some(self.leader.order(&other.leader))
        }
    }

    /// Whether this is a higher ballot of the same epoch.
    pub fn supersedes(&self, other: &Ballot) -> (r: bool)
        ensures
            r == supersedes(*self, *other),
    {
        self.epoch == other.epoch && other.below(self)
    }

    /// Whether this ballot is below `other`.
    pub fn below(&self, other: &Ballot) -> (r: bool)
        ensures
            r == ballot_below(*self, *other),
    {
        self.number < other.number || self.number == other.number && self.leader.0 < other.leader.0
    }
}

/// A connected peer: a replica and the incarnation of its process.
#[derive(Clone, Copy, Debug, PartialEq, Eq, Hash, Structural)]
pub struct PeerId {
    /// Replica.
    pub replica: ReplicaId,
    /// Incarnation.
    pub incarnation: u64,
}

impl View for PeerId {
    type V = PeerId;

    open spec fn view(&self) -> PeerId {
        *self
    }
}

impl Dup for PeerId {
    fn dup(&self) -> (r: Self) {
        *self
    }
}

/// The stable identity of one client invocation.
#[derive(Clone, Copy, Debug, PartialEq, Eq, Hash, Structural)]
pub struct RetryKey {
    /// Cluster the request is for.
    pub cluster_id: ClusterId,
    /// Domain the request is for.
    pub domain_id: DomainId,
    /// Session it was made under.
    pub session_id: SessionId,
    /// Client process that made it.
    pub client_instance_id: ClientInstanceId,
    /// Its sequence number there.
    pub request_sequence: RequestSequence,
}

impl View for RetryKey {
    type V = RetryKey;

    open spec fn view(&self) -> RetryKey {
        *self
    }
}

impl Dup for RetryKey {
    fn dup(&self) -> (r: Self) {
        *self
    }
}

/// Field by field, the first difference decides.
pub open spec fn retry_key_before(a: RetryKey, b: RetryKey) -> bool {
    if a.cluster_id != b.cluster_id {
        a.cluster_id.0 < b.cluster_id.0
    } else if a.domain_id != b.domain_id {
        a.domain_id.0 < b.domain_id.0
    } else if a.session_id != b.session_id {
        a.session_id.0 < b.session_id.0
    } else if a.client_instance_id != b.client_instance_id {
        a.client_instance_id.0 < b.client_instance_id.0
    } else {
        a.request_sequence.0 < b.request_sequence.0
    }
}

impl Key for RetryKey {
    open spec fn before(a: RetryKey, b: RetryKey) -> bool {
        retry_key_before(a, b)
    }

    proof fn irreflexive(a: RetryKey) {
    }

    proof fn transitive(a: RetryKey, b: RetryKey, c: RetryKey) {
    }

    proof fn total(a: RetryKey, b: RetryKey) {
    }

    fn order(&self, other: &Self) -> (r: Order) {
        if self.cluster_id != other.cluster_id {
            self.cluster_id.order(&other.cluster_id)
        } else if self.domain_id != other.domain_id {
            self.domain_id.order(&other.domain_id)
        } else if self.session_id != other.session_id {
            self.session_id.order(&other.session_id)
        } else if self.client_instance_id != other.client_instance_id {
            self.client_instance_id.order(&other.client_instance_id)
        } else {
            self.request_sequence.0.order(&other.request_sequence.0)
        }
    }

    fn copy_key(&self) -> (r: Self) {
        *self
    }
}

impl RetryKey {
    /// The key's fields in order, most significant byte first.
    pub open spec fn canonical(self) -> Seq<u8> {
        self.cluster_id.bytes() + self.domain_id.bytes() + self.session_id.bytes()
            + self.client_instance_id.bytes() + be_bytes(self.request_sequence.0 as int, 8)
    }

    /// The canonical encoding of the key.
    pub fn canonical_bytes(&self) -> (r: Vec<u8>)
        ensures
            r@ == self.canonical(),
    {
        let mut out = self.cluster_id.to_bytes();
        let mut part = self.domain_id.to_bytes();
        out.append(&mut part);
        let mut part = self.session_id.to_bytes();
        out.append(&mut part);
        let mut part = self.client_instance_id.to_bytes();
        out.append(&mut part);
        let mut part = to_be(self.request_sequence.0 as u128, 8);
        out.append(&mut part);
        out
    }
}

} // verus!
