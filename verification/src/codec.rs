//! The byte layout of protocol records and messages.
//!
//! Integers travel as variable-length integers, identities and digests as
//! their bytes, a list as its length and then its items, a choice as its
//! number and then its contents. Reading what was written gives the value
//! back, whatever follows it.

use vstd::prelude::*;
use vstd::slice::slice_subrange;

use crate::bytes::append_bytes;
use crate::ids::{
    CommandId, Digest32, ReplicaId, be_bytes, be_value, from_be, lemma_be_len, lemma_be_round_trip,
    lemma_pow256,
};
use crate::ordered::{Key, OrdMap, OrdSet, in_order, lemma_in_order, views};

verus! {

/// A value in groups of seven bits, least significant first, each but the
/// last marked by its high bit.
pub open spec fn varint(value: int) -> Seq<u8>
    decreases value,
    when value >= 0
{
    if value < 128 {
        seq![value as u8]
    } else {
        seq![(value % 128 + 128) as u8] + varint(value / 128)
    }
}

/// The variable-length integer at the front of `s`, read as the group
/// number `i` onwards, and how many bytes it takes. An integer of
/// sixty-four bits has at most ten groups, the tenth of one bit.
pub open spec fn varint_at(s: Seq<u8>, i: nat) -> Option<(int, int)>
    decreases 10 - i,
{
    if i >= 10 || s.len() == 0 {
        None
    } else if s[0] < 128 {
        if i == 9 && s[0] > 1 {
            None
        } else {
            Some((s[0] as int, 1))
        }
    } else {
        match varint_at(s.drop_first(), i + 1) {
            Some((v, n)) => Some((s[0] - 128 + 128 * v, n + 1)),
            None => None,
        }
    }
}

/// The bits left to an integer from group `i` onwards.
spec fn group_bound(i: nat) -> int
    decreases 10 - i,
{
    if i >= 9 {
        2
    } else {
        128 * group_bound(i + 1)
    }
}

proof fn lemma_group_bound()
    ensures
        group_bound(0) == 0x1_0000_0000_0000_0000,
{
    reveal_with_fuel(group_bound, 11);
}

proof fn lemma_varint_at(value: int, rest: Seq<u8>, i: nat)
    requires
        i < 10,
        0 <= value < group_bound(i),
    ensures
        varint_at(varint(value) + rest, i) == Some((value, varint(value).len() as int)),
    decreases 10 - i,
{
    let s = varint(value) + rest;
    if value < 128 {
        assert(s[0] == value);
    } else {
        assert(i < 9);
        let tail = varint(value / 128);
        lemma_varint_at(value / 128, rest, i + 1);
        assert(s[0] == (value % 128 + 128) as u8);
        assert(s.drop_first() =~= tail + rest);
    }
}

/// Reading a variable-length integer gives back what was written.
pub proof fn lemma_varint_round_trip(value: u64, rest: Seq<u8>)
    ensures
        varint_at(varint(value as int) + rest, 0) == Some(
            (value as int, varint(value as int).len() as int),
        ),
{
    lemma_group_bound();
    lemma_varint_at(value as int, rest, 0);
}

proof fn lemma_varint_at_bounds(s: Seq<u8>, i: nat)
    ensures
        varint_at(s, i) matches Some((v, n)) ==> 0 <= v < group_bound(i) && 1 <= n <= s.len(),
    decreases 10 - i,
{
    if i < 10 && s.len() > 0 && s[0] >= 128 {
        lemma_varint_at_bounds(s.drop_first(), i + 1);
    } else if i < 9 {
        lemma_group_positive(i + 1);
    }
}

proof fn lemma_group_positive(i: nat)
    ensures
        group_bound(i) >= 2,
    decreases 10 - i,
{
    if i < 9 {
        lemma_group_positive(i + 1);
    }
}

/// What is read as an integer fits one.
pub proof fn lemma_varint_bounds(s: Seq<u8>)
    ensures
        varint_at(s, 0) matches Some((v, n)) ==> 0 <= v <= u64::MAX && 1 <= n <= s.len(),
{
    lemma_varint_at_bounds(s, 0);
    lemma_group_bound();
}

/// The values that fit in `groups` groups are below this.
spec fn group_limit(groups: nat) -> int
    decreases groups,
{
    if groups == 0 {
        1
    } else {
        128 * group_limit((groups - 1) as nat)
    }
}

proof fn lemma_varint_len(value: int, groups: nat)
    requires
        groups > 0,
        0 <= value < group_limit(groups),
    ensures
        1 <= varint(value).len() <= groups,
    decreases groups,
{
    if value >= 128 {
        if groups == 1 {
            reveal_with_fuel(group_limit, 2);
        }
        lemma_varint_len(value / 128, (groups - 1) as nat);
    }
}

/// `postcard::to_allocvec` on a `u64`: the result is the integer's
/// variable-length form. Appending to a vector never fails, so the call
/// never does.
#[verifier::external_body]
fn encode_varint(value: u64) -> (r: Vec<u8>)
    ensures
        r@ == varint(value as int),
{
    postcard::to_allocvec(&value).expect("an integer always encodes")
}

/// `postcard::take_from_bytes` for a `u64`: the integer at the front and
/// the number of bytes behind it, or nothing where the bytes end early or
/// the groups hold more than sixty-four bits.
#[verifier::external_body]
fn decode_varint(bytes: &[u8]) -> (r: Option<(u64, usize)>)
    ensures
        match r {
            Some((value, left)) => left <= bytes@.len() && varint_at(bytes@, 0) == Some(
                (value as int, bytes@.len() - left),
            ),
            None => varint_at(bytes@, 0) is None,
        },
{
    match postcard::take_from_bytes::<u64>(bytes) {
        Ok((value, rest)) => Some((value, rest.len())),
        Err(_) => None,
    }
}

/// A type with a byte layout.
pub trait Wire: View + Sized {
    /// The value has a layout.
    spec fn fits(v: Self::V) -> bool;

    /// The bytes of a value.
    spec fn wire(v: Self::V) -> Seq<u8>;

    /// The value at the front of `s` and how many bytes it takes.
    spec fn parse(s: Seq<u8>) -> Option<(Self::V, int)>;

    /// Reading what was written gives the value back, whatever follows.
    proof fn round_trip(v: Self::V, rest: Seq<u8>)
        requires
            Self::fits(v),
        ensures
            Self::parse(Self::wire(v) + rest) == Some((v, Self::wire(v).len() as int)),
    ;

    /// Nothing is read past the end.
    proof fn within(s: Seq<u8>)
        ensures
            Self::parse(s) matches Some((v, n)) ==> 0 <= n <= s.len(),
    ;

    /// Append the bytes of the value.
    fn put(&self, out: &mut Vec<u8>)
        ensures
            Self::fits(self@),
            final(out)@ == old(out)@ + Self::wire(self@),
    ;

    /// Read a value at `at`; with it comes where the next one starts.
    fn take(bytes: &Vec<u8>, at: usize) -> (r: Option<(Self, usize)>)
        requires
            at <= bytes@.len(),
        ensures
            match r {
                Some((v, next)) => at <= next <= bytes@.len() && Self::parse(
                    bytes@.skip(at as int),
                ) == Some((v@, next - at)),
                None => Self::parse(bytes@.skip(at as int)) is None,
            },
    ;
}

impl Wire for u64 {
    open spec fn fits(v: u64) -> bool {
        true
    }

    open spec fn wire(v: u64) -> Seq<u8> {
        varint(v as int)
    }

    open spec fn parse(s: Seq<u8>) -> Option<(u64, int)> {
        match varint_at(s, 0) {
            Some((v, n)) => Some((v as u64, n)),
            None => None,
        }
    }

    proof fn round_trip(v: u64, rest: Seq<u8>) {
        lemma_varint_round_trip(v, rest);
    }

    proof fn within(s: Seq<u8>) {
        lemma_varint_bounds(s);
    }

    fn put(&self, out: &mut Vec<u8>) {
        let mut bytes = encode_varint(*self);
        out.append(&mut bytes);
    }

    fn take(bytes: &Vec<u8>, at: usize) -> (r: Option<(Self, usize)>) {
        let rest = slice_subrange(bytes.as_slice(), at, bytes.len());
        proof {
            assert(rest@ =~= bytes@.skip(at as int));
        }
        match decode_varint(rest) {
            Some((value, left)) => Some((value, bytes.len() - left)),
            None => None,
        }
    }
}

/// An integer of thirty-two bits has at most this many groups.
pub const U32_GROUPS: usize = 5;

impl Wire for u32 {
    open spec fn fits(v: u32) -> bool {
        true
    }

    open spec fn wire(v: u32) -> Seq<u8> {
        varint(v as int)
    }

    open spec fn parse(s: Seq<u8>) -> Option<(u32, int)> {
        match varint_at(s, 0) {
            Some((v, n)) => if v <= u32::MAX && n <= U32_GROUPS {
                Some((v as u32, n))
            } else {
                None
            },
            None => None,
        }
    }

    proof fn round_trip(v: u32, rest: Seq<u8>) {
        lemma_varint_round_trip(v as u64, rest);
        reveal_with_fuel(group_limit, 6);
        lemma_varint_len(v as int, 5);
    }

    proof fn within(s: Seq<u8>) {
        lemma_varint_bounds(s);
    }

    fn put(&self, out: &mut Vec<u8>) {
        (*self as u64).put(out);
    }

    fn take(bytes: &Vec<u8>, at: usize) -> (r: Option<(Self, usize)>) {
        proof {
            lemma_varint_bounds(bytes@.skip(at as int));
        }
        match u64::take(bytes, at) {
            Some((value, next)) => {
                if value <= u32::MAX as u64 && next - at <= U32_GROUPS {
                    Some((value as u32, next))
                } else {
                    None
                }
            },
            None => None,
        }
    }
}

impl Wire for bool {
    open spec fn fits(v: bool) -> bool {
        true
    }

    open spec fn wire(v: bool) -> Seq<u8> {
        if v {
            seq![1u8]
        } else {
            seq![0u8]
        }
    }

    open spec fn parse(s: Seq<u8>) -> Option<(bool, int)> {
        if s.len() > 0 && s[0] == 0 {
            Some((false, 1))
        } else if s.len() > 0 && s[0] == 1 {
            Some((true, 1))
        } else {
            None
        }
    }

    proof fn round_trip(v: bool, rest: Seq<u8>) {
    }

    proof fn within(s: Seq<u8>) {
    }

    fn put(&self, out: &mut Vec<u8>) {
        if *self {
            out.push(1);
        } else {
            out.push(0);
        }
        proof {
            assert(out@ =~= old(out)@ + Self::wire(*self));
        }
    }

    fn take(bytes: &Vec<u8>, at: usize) -> (r: Option<(Self, usize)>) {
        if at >= bytes.len() {
            return None;
        }
        if bytes[at] == 0 {
            Some((false, at + 1))
        } else if bytes[at] == 1 {
            Some((true, at + 1))
        } else {
            None
        }
    }
}

/// The value of the first sixteen bytes.
pub open spec fn parse_be16(s: Seq<u8>) -> Option<(u128, int)> {
    if s.len() < 16 {
        None
    } else {
        Some((be_value(s.take(16)) as u128, 16))
    }
}

proof fn lemma_be16(v: u128, rest: Seq<u8>)
    ensures
        parse_be16(be_bytes(v as int, 16) + rest) == Some((v, 16int)),
        be_bytes(v as int, 16).len() == 16,
{
    lemma_pow256();
    lemma_be_len(v as int, 16);
    lemma_be_round_trip(v as int, 16);
    assert((be_bytes(v as int, 16) + rest).take(16) =~= be_bytes(v as int, 16));
}

fn take_be16(bytes: &Vec<u8>, at: usize) -> (r: Option<(u128, usize)>)
    requires
        at <= bytes@.len(),
    ensures
        match r {
            Some((v, next)) => at <= next <= bytes@.len() && parse_be16(bytes@.skip(at as int))
                == Some((v, next - at)),
            None => parse_be16(bytes@.skip(at as int)) is None,
        },
{
    if bytes.len() - at < 16 {
        return None;
    }
    let block: [u8; 16] = [
        bytes[at],
        bytes[at + 1],
        bytes[at + 2],
        bytes[at + 3],
        bytes[at + 4],
        bytes[at + 5],
        bytes[at + 6],
        bytes[at + 7],
        bytes[at + 8],
        bytes[at + 9],
        bytes[at + 10],
        bytes[at + 11],
        bytes[at + 12],
        bytes[at + 13],
        bytes[at + 14],
        bytes[at + 15],
    ];
    let v = from_be(&block);
    proof {
        assert(block@ =~= bytes@.skip(at as int).take(16));
    }
    Some((v, at + 16))
}

impl Wire for ReplicaId {
    open spec fn fits(v: ReplicaId) -> bool {
        true
    }

    open spec fn wire(v: ReplicaId) -> Seq<u8> {
        v.bytes()
    }

    open spec fn parse(s: Seq<u8>) -> Option<(ReplicaId, int)> {
        match parse_be16(s) {
            Some((v, n)) => Some((ReplicaId(v), n)),
            None => None,
        }
    }

    proof fn round_trip(v: ReplicaId, rest: Seq<u8>) {
        lemma_be16(v.0, rest);
    }

    proof fn within(s: Seq<u8>) {
    }

    fn put(&self, out: &mut Vec<u8>) {
        let mut bytes = self.to_bytes();
        out.append(&mut bytes);
    }

    fn take(bytes: &Vec<u8>, at: usize) -> (r: Option<(Self, usize)>) {
        match take_be16(bytes, at) {
            Some((v, next)) => Some((ReplicaId(v), next)),
            None => None,
        }
    }
}

impl Wire for Digest32 {
    open spec fn fits(v: Digest32) -> bool {
        true
    }

    open spec fn wire(v: Digest32) -> Seq<u8> {
        v.bytes()
    }

    open spec fn parse(s: Seq<u8>) -> Option<(Digest32, int)> {
        match parse_be16(s) {
            Some((high, n)) => match parse_be16(s.skip(n)) {
                Some((low, m)) => Some((Digest32 { high, low }, n + m)),
                None => None,
            },
            None => None,
        }
    }

    proof fn round_trip(v: Digest32, rest: Seq<u8>) {
        let high = be_bytes(v.high as int, 16);
        let low = be_bytes(v.low as int, 16);
        lemma_be16(v.high, low + rest);
        lemma_be16(v.low, rest);
        assert(v.bytes() + rest =~= high + (low + rest));
        assert((v.bytes() + rest).skip(16) =~= low + rest);
    }

    proof fn within(s: Seq<u8>) {
    }

    fn put(&self, out: &mut Vec<u8>) {
        let mut bytes = self.to_bytes();
        out.append(&mut bytes);
    }

    fn take(bytes: &Vec<u8>, at: usize) -> (r: Option<(Self, usize)>) {
        match take_be16(bytes, at) {
            Some((high, mid)) => {
                proof {
                    assert(bytes@.skip(at as int).skip(mid - at) =~= bytes@.skip(mid as int));
                }
                match take_be16(bytes, mid) {
                    Some((low, next)) => Some((Digest32 { high, low }, next)),
                    None => None,
                }
            },
            None => None,
        }
    }
}

impl Wire for CommandId {
    open spec fn fits(v: CommandId) -> bool {
        true
    }

    open spec fn wire(v: CommandId) -> Seq<u8> {
        Digest32::wire(v.0)
    }

    open spec fn parse(s: Seq<u8>) -> Option<(CommandId, int)> {
        match Digest32::parse(s) {
            Some((v, n)) => Some((CommandId(v), n)),
            None => None,
        }
    }

    proof fn round_trip(v: CommandId, rest: Seq<u8>) {
        Digest32::round_trip(v.0, rest);
    }

    proof fn within(s: Seq<u8>) {
        Digest32::within(s);
    }

    fn put(&self, out: &mut Vec<u8>) {
        self.0.put(out);
    }

    fn take(bytes: &Vec<u8>, at: usize) -> (r: Option<(Self, usize)>) {
        match Digest32::take(bytes, at) {
            Some((v, next)) => Some((CommandId(v), next)),
            None => None,
        }
    }
}

impl<A: Wire, B: Wire> Wire for (A, B) {
    open spec fn fits(v: (A::V, B::V)) -> bool {
        A::fits(v.0) && B::fits(v.1)
    }

    open spec fn wire(v: (A::V, B::V)) -> Seq<u8> {
        A::wire(v.0) + B::wire(v.1)
    }

    open spec fn parse(s: Seq<u8>) -> Option<((A::V, B::V), int)> {
        match A::parse(s) {
            Some((a, n)) => match B::parse(s.skip(n)) {
                Some((b, m)) => Some(((a, b), n + m)),
                None => None,
            },
            None => None,
        }
    }

    proof fn round_trip(v: (A::V, B::V), rest: Seq<u8>) {
        let a = A::wire(v.0);
        let b = B::wire(v.1);
        A::round_trip(v.0, b + rest);
        B::round_trip(v.1, rest);
        assert(Self::wire(v) + rest =~= a + (b + rest));
        assert((Self::wire(v) + rest).skip(a.len() as int) =~= b + rest);
    }

    proof fn within(s: Seq<u8>) {
        A::within(s);
        match A::parse(s) {
            Some((a, n)) => {
                B::within(s.skip(n));
            },
            None => {},
        }
    }

    fn put(&self, out: &mut Vec<u8>) {
        self.0.put(out);
        self.1.put(out);
        proof {
            assert(out@ =~= old(out)@ + Self::wire(self@));
        }
    }

    fn take(bytes: &Vec<u8>, at: usize) -> (r: Option<(Self, usize)>) {
        match A::take(bytes, at) {
            Some((a, mid)) => {
                proof {
                    assert(bytes@.skip(at as int).skip(mid - at) =~= bytes@.skip(mid as int));
                }
                match B::take(bytes, mid) {
                    Some((b, next)) => Some(((a, b), next)),
                    None => None,
                }
            },
            None => None,
        }
    }
}

/// The items of a list, one after another.
pub open spec fn items_wire<T: Wire>(items: Seq<T::V>) -> Seq<u8>
    decreases items.len(),
{
    if items.len() == 0 {
        Seq::empty()
    } else {
        T::wire(items[0]) + items_wire::<T>(items.drop_first())
    }
}

/// `n` items at the front of `s`.
pub open spec fn items_parse<T: Wire>(s: Seq<u8>, n: nat) -> Option<(Seq<T::V>, int)>
    decreases n,
{
    if n == 0 {
        Some((Seq::empty(), 0))
    } else {
        match T::parse(s) {
            Some((v, k)) => match items_parse::<T>(s.skip(k), (n - 1) as nat) {
                Some((rest, m)) => Some((seq![v] + rest, k + m)),
                None => None,
            },
            None => None,
        }
    }
}

/// A list: its length, then its items.
pub open spec fn list_wire<T: Wire>(items: Seq<T::V>) -> Seq<u8> {
    varint(items.len() as int) + items_wire::<T>(items)
}

/// The list at the front of `s`.
pub open spec fn list_parse<T: Wire>(s: Seq<u8>) -> Option<(Seq<T::V>, int)> {
    match u64::parse(s) {
        Some((n, k)) => match items_parse::<T>(s.skip(k), n as nat) {
            Some((items, m)) => Some((items, k + m)),
            None => None,
        },
        None => None,
    }
}

/// Every item has a layout, and so has their number.
pub open spec fn list_fits<T: Wire>(items: Seq<T::V>) -> bool {
    &&& items.len() <= u64::MAX
    &&& forall|i: int| 0 <= i < items.len() ==> T::fits(#[trigger] items[i])
}

proof fn lemma_items_round_trip<T: Wire>(items: Seq<T::V>, rest: Seq<u8>)
    requires
        forall|i: int| 0 <= i < items.len() ==> T::fits(#[trigger] items[i]),
    ensures
        items_parse::<T>(items_wire::<T>(items) + rest, items.len()) == Some(
            (items, items_wire::<T>(items).len() as int),
        ),
    decreases items.len(),
{
    if items.len() > 0 {
        let head = T::wire(items[0]);
        let tail = items.drop_first();
        let body = items_wire::<T>(tail);
        assert forall|i: int| 0 <= i < tail.len() implies T::fits(#[trigger] tail[i]) by {
            assert(tail[i] == items[i + 1]);
        }
        T::round_trip(items[0], body + rest);
        lemma_items_round_trip::<T>(tail, rest);
        let s = items_wire::<T>(items) + rest;
        assert(s =~= head + (body + rest));
        assert(s.skip(head.len() as int) =~= body + rest);
        assert(seq![items[0]] + tail =~= items);
    }
}

proof fn lemma_items_within<T: Wire>(s: Seq<u8>, n: nat)
    ensures
        items_parse::<T>(s, n) matches Some((items, k)) ==> 0 <= k <= s.len() && items.len() == n,
    decreases n,
{
    if n > 0 {
        T::within(s);
        match T::parse(s) {
            Some((v, k)) => {
                lemma_items_within::<T>(s.skip(k), (n - 1) as nat);
            },
            None => {},
        }
    }
}

/// Reading a list that was written gives it back.
pub proof fn lemma_list_round_trip<T: Wire>(items: Seq<T::V>, rest: Seq<u8>)
    requires
        list_fits::<T>(items),
    ensures
        list_parse::<T>(list_wire::<T>(items) + rest) == Some(
            (items, list_wire::<T>(items).len() as int),
        ),
{
    let n = items.len() as u64;
    let head = varint(items.len() as int);
    let body = items_wire::<T>(items);
    lemma_varint_round_trip(n, body + rest);
    lemma_items_round_trip::<T>(items, rest);
    let s = list_wire::<T>(items) + rest;
    assert(s =~= head + (body + rest));
    assert(s.skip(head.len() as int) =~= body + rest);
}

/// Nothing of a list is read past the end.
pub proof fn lemma_list_within<T: Wire>(s: Seq<u8>)
    ensures
        list_parse::<T>(s) matches Some((items, n)) ==> 0 <= n <= s.len(),
{
    lemma_varint_bounds(s);
    match u64::parse(s) {
        Some((n, k)) => {
            lemma_items_within::<T>(s.skip(k), n as nat);
        },
        None => {},
    }
}

/// Append a list.
pub fn put_list<T: Wire>(items: &Vec<T>, out: &mut Vec<u8>)
    ensures
        list_fits::<T>(views(items@)),
        final(out)@ == old(out)@ + list_wire::<T>(views(items@)),
{
    let ghost all = views(items@);
    let n: usize = items.len();
    (n as u64).put(out);
    let ghost head = out@;
    let mut i: usize = 0;
    proof {
        assert(all.take(0) =~= Seq::<T::V>::empty());
    }
    while i < items.len()
        invariant
            i <= items@.len(),
            all == views(items@),
            out@ =~= head + items_wire::<T>(all.take(i as int)),
            forall|j: int| 0 <= j < i ==> T::fits(#[trigger] all[j]),
        decreases items@.len() - i,
    {
        items[i].put(out);
        proof {
            lemma_items_push::<T>(all.take(i as int), all[i as int]);
            assert(all.take(i + 1) =~= all.take(i as int).push(all[i as int]));
        }
        i = i + 1;
    }
    proof {
        assert(all.take(all.len() as int) =~= all);
        assert(out@ =~= old(out)@ + list_wire::<T>(all));
    }
}

proof fn lemma_items_push<T: Wire>(items: Seq<T::V>, last: T::V)
    ensures
        items_wire::<T>(items.push(last)) == items_wire::<T>(items) + T::wire(last),
    decreases items.len(),
{
    if items.len() == 0 {
        let none = Seq::<T::V>::empty();
        assert(items.push(last).drop_first() =~= none);
        assert(items_wire::<T>(none) =~= Seq::<u8>::empty());
        assert(items.push(last)[0] == last);
        assert(items_wire::<T>(items.push(last)) =~= T::wire(last));
        assert(items_wire::<T>(items) + T::wire(last) =~= T::wire(last));
    } else {
        lemma_items_push::<T>(items.drop_first(), last);
        assert(items.push(last).drop_first() =~= items.drop_first().push(last));
        assert(items_wire::<T>(items.push(last)) =~= items_wire::<T>(items) + T::wire(last));
    }
}

/// What the items read so far and the items to come amount to.
spec fn joined<T: Wire>(done: Seq<T::V>, used: int, more: Option<(Seq<T::V>, int)>) -> Option<
    (Seq<T::V>, int),
> {
    match more {
        Some((rest, n)) => Some((done + rest, used + n)),
        None => None,
    }
}

/// Read a list at `at`.
#[verifier::rlimit(40)]
pub fn take_list<T: Wire>(bytes: &Vec<u8>, at: usize) -> (r: Option<(Vec<T>, usize)>)
    requires
        at <= bytes@.len(),
    ensures
        match r {
            Some((items, next)) => at <= next <= bytes@.len() && list_parse::<T>(
                bytes@.skip(at as int),
            ) == Some((views(items@), next - at)),
            None => list_parse::<T>(bytes@.skip(at as int)) is None,
        },
{
    let (n, start) = match u64::take(bytes, at) {
        Some((n, start)) => (n, start),
        None => {
            return None;
        },
    };
    proof {
        assert(bytes@.skip(at as int).skip(start - at) =~= bytes@.skip(start as int));
    }
    let ghost goal = items_parse::<T>(bytes@.skip(start as int), n as nat);
    let mut items: Vec<T> = Vec::new();
    let mut next: usize = start;
    let mut i: u64 = 0;
    proof {
        assert(bytes@.skip(start as int).skip(0) =~= bytes@.skip(start as int));
        match goal {
            Some((rest, k)) => {
                assert(Seq::<T::V>::empty() + rest =~= rest);
            },
            None => {},
        }
        assert(views(items@) =~= Seq::<T::V>::empty());
    }
    while i < n
        invariant
            at <= start <= next <= bytes@.len(),
            i <= n,
            goal == items_parse::<T>(bytes@.skip(start as int), n as nat),
            goal == joined::<T>(
                views(items@),
                next - start,
                items_parse::<T>(bytes@.skip(next as int), (n - i) as nat),
            ),
            list_parse::<T>(bytes@.skip(at as int)) == joined::<T>(
                Seq::empty(),
                start - at,
                goal,
            ),
        decreases n - i,
    {
        let ghost tail = bytes@.skip(next as int);
        match T::take(bytes, next) {
            Some((item, after)) => {
                let ghost done = items@;
                let ghost v = item@;
                items.push(item);
                proof {
                    assert(views(items@) =~= views(done).push(v));
                    assert(tail.skip(after - next) =~= bytes@.skip(after as int));
                    match items_parse::<T>(bytes@.skip(after as int), (n - i - 1) as nat) {
                        Some((rest, k)) => {
                            assert(views(done) + (seq![v] + rest) =~= views(done).push(v) + rest);
                        },
                        None => {},
                    }
                }
                next = after;
                i = i + 1;
            },
            None => {
                return None;
            },
        }
    }
    proof {
        assert(views(items@) + Seq::<T::V>::empty() =~= views(items@));
        assert(Seq::<T::V>::empty() + views(items@) =~= views(items@));
    }
    Some((items, next))
}

impl Wire for Vec<u8> {
    open spec fn fits(v: Seq<u8>) -> bool {
        v.len() <= u64::MAX
    }

    open spec fn wire(v: Seq<u8>) -> Seq<u8> {
        varint(v.len() as int) + v
    }

    open spec fn parse(s: Seq<u8>) -> Option<(Seq<u8>, int)> {
        match u64::parse(s) {
            Some((n, k)) => if n <= s.len() - k {
                Some((s.subrange(k, k + n), k + n))
            } else {
                None
            },
            None => None,
        }
    }

    proof fn round_trip(v: Seq<u8>, rest: Seq<u8>) {
        let head = varint(v.len() as int);
        lemma_varint_round_trip(v.len() as u64, v + rest);
        let s = Self::wire(v) + rest;
        assert(s =~= head + (v + rest));
        assert(s.subrange(head.len() as int, (head.len() + v.len()) as int) =~= v);
    }

    proof fn within(s: Seq<u8>) {
        lemma_varint_bounds(s);
    }

    fn put(&self, out: &mut Vec<u8>) {
        (self.len() as u64).put(out);
        append_bytes(out, self.as_slice());
        proof {
            assert(out@ =~= old(out)@ + Self::wire(self@));
        }
    }

    fn take(bytes: &Vec<u8>, at: usize) -> (r: Option<(Self, usize)>) {
        let (n, start) = match u64::take(bytes, at) {
            Some((n, start)) => (n, start),
            None => {
                return None;
            },
        };
        if n > (bytes.len() - start) as u64 {
            return None;
        }
        let end: usize = start + n as usize;
        let part = crate::bytes::copy_bytes(slice_subrange(bytes.as_slice(), start, end));
        proof {
            assert(part@ =~= bytes@.skip(at as int).subrange(start - at, start - at + n));
        }
        Some((part, end))
    }
}

/// An optional value: whether it is there, then the value.
pub open spec fn option_wire<T: Wire>(o: Option<T::V>) -> Seq<u8> {
    match o {
        Some(v) => seq![1u8] + T::wire(v),
        None => seq![0u8],
    }
}

/// The optional value at the front of `s`.
pub open spec fn option_parse<T: Wire>(s: Seq<u8>) -> Option<(Option<T::V>, int)> {
    match bool::parse(s) {
        Some((true, _)) => match T::parse(s.skip(1)) {
            Some((v, n)) => Some((Some(v), n + 1)),
            None => None,
        },
        Some((false, _)) => Some((None, 1)),
        None => None,
    }
}

/// Reading an optional value that was written gives it back.
pub proof fn lemma_option_round_trip<T: Wire>(o: Option<T::V>, rest: Seq<u8>)
    requires
        o is Some ==> T::fits(o->0),
    ensures
        option_parse::<T>(option_wire::<T>(o) + rest) == Some(
            (o, option_wire::<T>(o).len() as int),
        ),
{
    match o {
        Some(v) => {
            T::round_trip(v, rest);
            let s = option_wire::<T>(o) + rest;
            assert(s[0] == 1);
            assert(s.skip(1) =~= T::wire(v) + rest);
        },
        None => {
            assert((option_wire::<T>(o) + rest)[0] == 0);
        },
    }
}

/// Nothing of an optional value is read past the end.
pub proof fn lemma_option_within<T: Wire>(s: Seq<u8>)
    ensures
        option_parse::<T>(s) matches Some((o, n)) ==> 0 <= n <= s.len(),
{
    if s.len() > 0 {
        T::within(s.skip(1));
    }
}

/// Read an optional value at `at`.
pub fn take_option<T: Wire>(bytes: &Vec<u8>, at: usize) -> (r: Option<(Option<T>, usize)>)
    requires
        at <= bytes@.len(),
    ensures
        match r {
            Some((Some(v), next)) => at <= next <= bytes@.len() && option_parse::<T>(
                bytes@.skip(at as int),
            ) == Some((Some(v@), next - at)),
            Some((None, next)) => at <= next <= bytes@.len() && option_parse::<T>(
                bytes@.skip(at as int),
            ) == Some((None::<T::V>, next - at)),
            None => option_parse::<T>(bytes@.skip(at as int)) is None,
        },
{
    match bool::take(bytes, at) {
        Some((true, next)) => {
            proof {
                assert(bytes@.skip(at as int).skip(1) =~= bytes@.skip(next as int));
            }
            match T::take(bytes, next) {
                Some((v, end)) => Some((Some(v), end)),
                None => None,
            }
        },
        Some((false, next)) => Some((None, next)),
        None => None,
    }
}

/// The entries of a map in key order.
pub open spec fn map_items<K: Key, V>(m: Map<K::V, V>) -> Seq<(K::V, V)> {
    let order = in_order::<K>(m.dom());
    Seq::new(order.len(), |i: int| (order[i], m[order[i]]))
}

/// The map of entries, later ones replacing earlier ones.
pub open spec fn items_map<A, B>(items: Seq<(A, B)>) -> Map<A, B>
    decreases items.len(),
{
    if items.len() == 0 {
        Map::empty()
    } else {
        items_map(items.drop_last()).insert(items.last().0, items.last().1)
    }
}

/// Entries with different keys are the map's.
pub proof fn lemma_items_map<A, B>(items: Seq<(A, B)>)
    ensures
        forall|k: A| #[trigger]
            items_map(items).contains_key(k) <==> exists|i: int|
                0 <= i < items.len() && (#[trigger] items[i]).0 == k,
        (forall|i: int, j: int|
            0 <= i < j < items.len() ==> (#[trigger] items[i]).0 != (#[trigger] items[j]).0)
            ==> forall|i: int|
            0 <= i < items.len() ==> items_map(items)[(#[trigger] items[i]).0] == items[i].1,
    decreases items.len(),
{
    if items.len() > 0 {
        let before = items.drop_last();
        let n = items.len() - 1;
        lemma_items_map(before);
        assert forall|k: A| #[trigger]
            items_map(items).contains_key(k) <==> exists|i: int|
                0 <= i < items.len() && (#[trigger] items[i]).0 == k by {
            if items_map(before).contains_key(k) {
                let i = choose|i: int| 0 <= i < before.len() && (#[trigger] before[i]).0 == k;
                assert(items[i].0 == k);
            }
            if exists|i: int| 0 <= i < items.len() && (#[trigger] items[i]).0 == k {
                let i = choose|i: int| 0 <= i < items.len() && (#[trigger] items[i]).0 == k;
                if i < n {
                    assert(before[i].0 == k);
                }
            }
            assert(items[n] == items.last());
        }
        if forall|i: int, j: int|
            0 <= i < j < items.len() ==> (#[trigger] items[i]).0 != (#[trigger] items[j]).0 {
            assert forall|i: int, j: int| 0 <= i < j < before.len() implies (
            #[trigger] before[i]).0 != (#[trigger] before[j]).0 by {
                assert(items[i].0 != items[j].0);
            }
            assert forall|i: int| 0 <= i < items.len() implies items_map(items)[(
            #[trigger] items[i]).0] == items[i].1 by {
                if i < n {
                    assert(before[i] == items[i]);
                    assert(items[i].0 != items[n].0);
                    assert(items_map(before)[before[i].0] == before[i].1);
                }
            }
        }
    }
}

/// A map is the map of its entries.
pub proof fn lemma_map_items<K: Key, V>(m: Map<K::V, V>)
    requires
        m.dom().finite(),
    ensures
        items_map(map_items::<K, V>(m)) == m,
{
    let items = map_items::<K, V>(m);
    let order = in_order::<K>(m.dom());
    lemma_in_order::<K>(m.dom());
    lemma_items_map(items);
    assert forall|i: int, j: int| 0 <= i < j < items.len() implies (#[trigger] items[i]).0 != (
    #[trigger] items[j]).0 by {
        assert(order[i] != order[j]);
    }
    let got = items_map(items);
    assert forall|k: K::V| #[trigger] got.contains_key(k) <==> m.contains_key(k) by {
        if got.contains_key(k) {
            let i = choose|i: int| 0 <= i < items.len() && (#[trigger] items[i]).0 == k;
            assert(order.contains(order[i]));
        }
        if m.contains_key(k) {
            assert(order.contains(k));
            let i = choose|i: int| 0 <= i < order.len() && order[i] == k;
            assert(items[i].0 == k);
        }
    }
    assert forall|k: K::V| #[trigger] got.contains_key(k) implies got[k] == m[k] by {
        let i = choose|i: int| 0 <= i < items.len() && (#[trigger] items[i]).0 == k;
        assert(got[items[i].0] == items[i].1);
    }
    assert(got =~= m);
}

/// Append a map: the number of entries, then each in key order.
pub fn put_map<K: Key + Wire, V: Wire>(map: &OrdMap<K, V>, out: &mut Vec<u8>)
    ensures
        map@.dom().finite(),
        list_fits::<(K, V)>(map_items::<K, V::V>(map@)),
        final(out)@ == old(out)@ + list_wire::<(K, V)>(map_items::<K, V::V>(map@)),
{
    let n: usize = map.len();
    let ghost all = map_items::<K, V::V>(map@);
    proof {
        lemma_in_order::<K>(map@.dom());
    }
    (n as u64).put(out);
    let ghost head = out@;
    let mut i: usize = 0;
    proof {
        assert(all.take(0) =~= Seq::<(K::V, V::V)>::empty());
    }
    while i < n
        invariant
            i <= n == map@.dom().len(),
            all == map_items::<K, V::V>(map@),
            all.len() == n,
            in_order::<K>(map@.dom()).len() == n,
            out@ =~= head + items_wire::<(K, V)>(all.take(i as int)),
            forall|j: int| 0 <= j < i ==> <(K, V)>::fits(#[trigger] all[j]),
        decreases n - i,
    {
        map.key_at(i).put(out);
        map.value_at(i).put(out);
        proof {
            lemma_items_push::<(K, V)>(all.take(i as int), all[i as int]);
            assert(all.take(i + 1) =~= all.take(i as int).push(all[i as int]));
        }
        i = i + 1;
    }
    proof {
        assert(all.take(all.len() as int) =~= all);
        assert(out@ =~= old(out)@ + list_wire::<(K, V)>(all));
    }
}

/// The map at the front of `s`.
pub open spec fn map_parse<K: Key + Wire, V: Wire>(s: Seq<u8>) -> Option<(Map<K::V, V::V>, int)> {
    match list_parse::<(K, V)>(s) {
        Some((items, n)) => Some((items_map(items), n)),
        None => None,
    }
}

/// Read a map at `at`.
pub fn take_map<K: Key + Wire, V: Wire>(bytes: &Vec<u8>, at: usize) -> (r: Option<
    (OrdMap<K, V>, usize),
>)
    requires
        at <= bytes@.len(),
    ensures
        match r {
            Some((map, next)) => at <= next <= bytes@.len() && map_parse::<K, V>(
                bytes@.skip(at as int),
            ) == Some((map@, next - at)),
            None => map_parse::<K, V>(bytes@.skip(at as int)) is None,
        },
{
    match take_list::<(K, V)>(bytes, at) {
        Some((items, next)) => {
            let ghost all = views(items@);
            let mut items = items;
            let mut map: OrdMap<K, V> = OrdMap::new();
            let ghost mut seen: int = 0;
            proof {
                assert(all.skip(0) =~= all);
                assert(all.take(0) =~= Seq::<(K::V, V::V)>::empty());
                assert(items_map(all.take(0)) =~= Map::<K::V, V::V>::empty());
            }
            while items.len() > 0
                invariant
                    0 <= seen <= all.len(),
                    views(items@) == all.skip(seen),
                    map@ == items_map(all.take(seen)),
                    items@.len() == all.len() - seen,
                decreases items@.len(),
            {
                let ghost before = items@;
                let (k, v) = items.remove(0);
                proof {
                    assert(all.take(seen + 1).drop_last() =~= all.take(seen));
                    assert(views(before)[0] == all[seen]);
                    assert forall|j: int| 0 <= j < items@.len() implies views(items@)[j]
                        == all.skip(seen + 1)[j] by {
                        assert(views(before)[j + 1] == all.skip(seen)[j + 1]);
                    }
                    assert(views(items@) =~= all.skip(seen + 1));
                    seen = seen + 1;
                }
                map.insert(k, v);
            }
            proof {
                assert(all.take(all.len() as int) =~= all);
            }
            Some((map, next))
        },
        None => None,
    }
}

/// Reading a map that was written gives it back.
pub proof fn lemma_map_round_trip<K: Key + Wire, V: Wire>(m: Map<K::V, V::V>, rest: Seq<u8>)
    requires
        m.dom().finite(),
        list_fits::<(K, V)>(map_items::<K, V::V>(m)),
    ensures
        map_parse::<K, V>(list_wire::<(K, V)>(map_items::<K, V::V>(m)) + rest) == Some(
            (m, list_wire::<(K, V)>(map_items::<K, V::V>(m)).len() as int),
        ),
{
    lemma_list_round_trip::<(K, V)>(map_items::<K, V::V>(m), rest);
    lemma_map_items::<K, V::V>(m);
}

/// Append a set: the number of members, then each in order.
pub fn put_set<K: Key + Wire>(set: &OrdSet<K>, out: &mut Vec<u8>)
    ensures
        set@.finite(),
        list_fits::<K>(in_order::<K>(set@)),
        final(out)@ == old(out)@ + list_wire::<K>(in_order::<K>(set@)),
{
    let members = set.to_vec();
    put_list(&members, out);
}

/// The set at the front of `s`.
pub open spec fn set_parse<K: Key + Wire>(s: Seq<u8>) -> Option<(Set<K::V>, int)> {
    match list_parse::<K>(s) {
        Some((items, n)) => Some((items.to_set(), n)),
        None => None,
    }
}

/// Read a set at `at`.
pub fn take_set<K: Key + Wire>(bytes: &Vec<u8>, at: usize) -> (r: Option<(OrdSet<K>, usize)>)
    requires
        at <= bytes@.len(),
    ensures
        match r {
            Some((set, next)) => at <= next <= bytes@.len() && set_parse::<K>(
                bytes@.skip(at as int),
            ) == Some((set@, next - at)),
            None => set_parse::<K>(bytes@.skip(at as int)) is None,
        },
{
    match take_list::<K>(bytes, at) {
        Some((items, next)) => Some((crate::ordered::set_of(&items), next)),
        None => None,
    }
}

/// Reading a set that was written gives it back.
pub proof fn lemma_set_round_trip<K: Key + Wire>(set: Set<K::V>, rest: Seq<u8>)
    requires
        set.finite(),
        list_fits::<K>(in_order::<K>(set)),
    ensures
        set_parse::<K>(list_wire::<K>(in_order::<K>(set)) + rest) == Some(
            (set, list_wire::<K>(in_order::<K>(set)).len() as int),
        ),
{
    lemma_list_round_trip::<K>(in_order::<K>(set), rest);
    lemma_in_order::<K>(set);
}

/// A list as one value.
pub struct List<T: View>(pub Vec<T>);

impl<T: View> View for List<T> {
    type V = Seq<T::V>;

    open spec fn view(&self) -> Seq<T::V> {
        views(self.0@)
    }
}

impl<T: Wire> Wire for List<T> {
    open spec fn fits(v: Seq<T::V>) -> bool {
        list_fits::<T>(v)
    }

    open spec fn wire(v: Seq<T::V>) -> Seq<u8> {
        list_wire::<T>(v)
    }

    open spec fn parse(s: Seq<u8>) -> Option<(Seq<T::V>, int)> {
        list_parse::<T>(s)
    }

    proof fn round_trip(v: Seq<T::V>, rest: Seq<u8>) {
        lemma_list_round_trip::<T>(v, rest);
    }

    proof fn within(s: Seq<u8>) {
        lemma_list_within::<T>(s);
    }

    fn put(&self, out: &mut Vec<u8>) {
        put_list(&self.0, out);
    }

    fn take(bytes: &Vec<u8>, at: usize) -> (r: Option<(Self, usize)>) {
        match take_list::<T>(bytes, at) {
            Some((items, next)) => Some((List(items), next)),
            None => None,
        }
    }
}

/// An optional value as one value.
pub struct Opt<T: View>(pub Option<T>);

impl<T: View> View for Opt<T> {
    type V = Option<T::V>;

    open spec fn view(&self) -> Option<T::V> {
        match self.0 {
            Some(v) => Some(v@),
            None => None,
        }
    }
}

impl<T: Wire> Wire for Opt<T> {
    open spec fn fits(v: Option<T::V>) -> bool {
        v is Some ==> T::fits(v->0)
    }

    open spec fn wire(v: Option<T::V>) -> Seq<u8> {
        option_wire::<T>(v)
    }

    open spec fn parse(s: Seq<u8>) -> Option<(Option<T::V>, int)> {
        option_parse::<T>(s)
    }

    proof fn round_trip(v: Option<T::V>, rest: Seq<u8>) {
        lemma_option_round_trip::<T>(v, rest);
    }

    proof fn within(s: Seq<u8>) {
        lemma_option_within::<T>(s);
    }

    fn put(&self, out: &mut Vec<u8>) {
        match &self.0 {
            Some(v) => {
                out.push(1);
                v.put(out);
            },
            None => {
                out.push(0);
            },
        }
        proof {
            assert(out@ =~= old(out)@ + option_wire::<T>(self@));
        }
    }

    fn take(bytes: &Vec<u8>, at: usize) -> (r: Option<(Self, usize)>) {
        match take_option::<T>(bytes, at) {
            Some((o, next)) => Some((Opt(o), next)),
            None => None,
        }
    }
}

impl<K: Key + Wire, V: Wire> Wire for OrdMap<K, V> {
    open spec fn fits(v: Map<K::V, V::V>) -> bool {
        v.dom().finite() && list_fits::<(K, V)>(map_items::<K, V::V>(v))
    }

    open spec fn wire(v: Map<K::V, V::V>) -> Seq<u8> {
        list_wire::<(K, V)>(map_items::<K, V::V>(v))
    }

    open spec fn parse(s: Seq<u8>) -> Option<(Map<K::V, V::V>, int)> {
        map_parse::<K, V>(s)
    }

    proof fn round_trip(v: Map<K::V, V::V>, rest: Seq<u8>) {
        lemma_map_round_trip::<K, V>(v, rest);
    }

    proof fn within(s: Seq<u8>) {
        lemma_list_within::<(K, V)>(s);
    }

    fn put(&self, out: &mut Vec<u8>) {
        put_map(self, out);
    }

    fn take(bytes: &Vec<u8>, at: usize) -> (r: Option<(Self, usize)>) {
        take_map::<K, V>(bytes, at)
    }
}

impl<K: Key + Wire> Wire for OrdSet<K> {
    open spec fn fits(v: Set<K::V>) -> bool {
        v.finite() && list_fits::<K>(in_order::<K>(v))
    }

    open spec fn wire(v: Set<K::V>) -> Seq<u8> {
        list_wire::<K>(in_order::<K>(v))
    }

    open spec fn parse(s: Seq<u8>) -> Option<(Set<K::V>, int)> {
        set_parse::<K>(s)
    }

    proof fn round_trip(v: Set<K::V>, rest: Seq<u8>) {
        lemma_set_round_trip::<K>(v, rest);
    }

    proof fn within(s: Seq<u8>) {
        lemma_list_within::<K>(s);
    }

    fn put(&self, out: &mut Vec<u8>) {
        put_set(self, out);
    }

    fn take(bytes: &Vec<u8>, at: usize) -> (r: Option<(Self, usize)>) {
        take_set::<K>(bytes, at)
    }
}

/// The bytes of one value.
pub fn to_wire<T: Wire>(value: &T) -> (r: Vec<u8>)
    ensures
        T::fits(value@),
        r@ == T::wire(value@),
{
    let mut out: Vec<u8> = Vec::new();
    value.put(&mut out);
    proof {
        assert(out@ =~= T::wire(value@));
    }
    out
}

/// Why bytes are not one value.
#[derive(Clone, Copy, Debug, PartialEq, Eq, Structural)]
pub enum DecodeError {
    /// The bytes end early or hold something else.
    Truncated,
    /// Bytes follow the value.
    TrailingBytes,
}

/// The one value the bytes hold.
pub open spec fn exactly<T: Wire>(s: Seq<u8>) -> Result<T::V, DecodeError> {
    match T::parse(s) {
        None => Err(DecodeError::Truncated),
        Some((v, n)) => if n == s.len() {
            Ok(v)
        } else {
            Err(DecodeError::TrailingBytes)
        },
    }
}

/// Read exactly one value.
pub fn from_wire<T: Wire>(bytes: &Vec<u8>) -> (r: Result<T, DecodeError>)
    ensures
        match r {
            Ok(v) => exactly::<T>(bytes@) == Ok::<T::V, DecodeError>(v@),
            Err(e) => exactly::<T>(bytes@) == Err::<T::V, DecodeError>(e),
        },
{
    proof {
        assert(bytes@.skip(0) =~= bytes@);
    }
    match T::take(bytes, 0) {
        None => Err(DecodeError::Truncated),
        Some((value, next)) => {
            if next == bytes.len() {
                Ok(value)
            } else {
                Err(DecodeError::TrailingBytes)
            }
        },
    }
}

/// A value written and read back is the same value.
pub proof fn lemma_wire_round_trip<T: Wire>(v: T::V)
    requires
        T::fits(v),
    ensures
        exactly::<T>(T::wire(v)) == Ok::<T::V, DecodeError>(v),
{
    T::round_trip(v, Seq::empty());
    assert(T::wire(v) + Seq::<u8>::empty() =~= T::wire(v));
}

} // verus!
