//! Ordered collections: maps and sets kept as ascending vectors.
//!
//! Every decision that walks a collection walks it in key order, so the
//! outcome is a function of the contents and never of arrival order. The
//! mathematical model of a map is a `Map` from key views to value views.

use vstd::prelude::*;

verus! {

/// Outcome of comparing two keys.
pub enum Order {
    /// The first comes first.
    Before,
    /// They are the same key.
    Same,
    /// The second comes first.
    After,
}

/// A type whose views are totally ordered.
pub trait Key: View + Sized {
    /// Strict order on key views.
    spec fn before(a: Self::V, b: Self::V) -> bool;

    /// No key comes before itself.
    proof fn irreflexive(a: Self::V)
        ensures
            !Self::before(a, a),
    ;

    /// The order chains.
    proof fn transitive(a: Self::V, b: Self::V, c: Self::V)
        requires
            Self::before(a, b),
            Self::before(b, c),
        ensures
            Self::before(a, c),
    ;

    /// Any two different keys are ordered.
    proof fn total(a: Self::V, b: Self::V)
        ensures
            a == b || Self::before(a, b) || Self::before(b, a),
    ;

    /// Compare two keys.
    fn order(&self, other: &Self) -> (r: Order)
        ensures
            r is Before <==> Self::before(self@, other@),
            r is Same <==> self@ == other@,
            r is After <==> Self::before(other@, self@),
    ;

    /// A copy of the key.
    fn copy_key(&self) -> (r: Self)
        ensures
            r@ == self@,
    ;
}

/// The keys come in strictly ascending order.
pub open spec fn ascending<K: Key>(s: Seq<K::V>) -> bool {
    forall|i: int, j: int| 0 <= i < j < s.len() ==> K::before(#[trigger] s[i], #[trigger] s[j])
}

/// The one ascending sequence of the members of a finite set.
pub open spec fn in_order<K: Key>(set: Set<K::V>) -> Seq<K::V> {
    choose|s: Seq<K::V>| ascending::<K>(s) && s.to_set() == set
}

/// The views of a sequence's elements.
pub open spec fn views<T: View>(s: Seq<T>) -> Seq<T::V> {
    Seq::new(s.len(), |i: int| s[i]@)
}

/// In an ascending sequence no key occurs twice.
pub proof fn lemma_ascending_unique<K: Key>(s: Seq<K::V>)
    requires
        ascending::<K>(s),
    ensures
        s.no_duplicates(),
{
    assert forall|i: int, j: int| 0 <= i < s.len() && 0 <= j < s.len() && i != j implies s[i]
        != s[j] by {
        K::irreflexive(s[i]);
        if i < j {
            assert(K::before(s[i], s[j]));
        } else {
            assert(K::before(s[j], s[i]));
        }
    }
}

proof fn lemma_greatest<K: Key>(set: Set<K::V>) -> (m: K::V)
    requires
        set.finite(),
        set.len() > 0,
    ensures
        set.contains(m),
        forall|x: K::V| #[trigger] set.contains(x) ==> x == m || K::before(x, m),
    decreases set.len(),
{
    let a = set.choose();
    let rest = set.remove(a);
    if rest.len() == 0 {
        assert forall|x: K::V| #[trigger] set.contains(x) implies x == a || K::before(x, a) by {
            if x != a {
                assert(rest.contains(x));
                assert(false);
            }
        }
        a
    } else {
        let b = lemma_greatest::<K>(rest);
        K::total(a, b);
        let m = if K::before(b, a) {
            a
        } else {
            b
        };
        assert forall|x: K::V| #[trigger] set.contains(x) implies x == m || K::before(x, m) by {
            if x != a {
                assert(rest.contains(x));
                if x != b && K::before(b, a) {
                    K::transitive(x, b, a);
                }
            }
        }
        m
    }
}

proof fn lemma_ascending_exists<K: Key>(set: Set<K::V>) -> (s: Seq<K::V>)
    requires
        set.finite(),
    ensures
        ascending::<K>(s),
        s.to_set() == set,
    decreases set.len(),
{
    if set.len() == 0 {
        let s = Seq::<K::V>::empty();
        assert(s.to_set() =~= set);
        s
    } else {
        let m = lemma_greatest::<K>(set);
        let t = lemma_ascending_exists::<K>(set.remove(m));
        let s = t.push(m);
        assert forall|i: int, j: int| 0 <= i < j < s.len() implies K::before(
            #[trigger] s[i],
            #[trigger] s[j],
        ) by {
            assert(t.to_set().contains(t[i]));
            if j < t.len() {
                assert(K::before(t[i], t[j]));
            }
        }
        assert(s.to_set() =~= set) by {
            assert forall|x: K::V| set.contains(x) implies s.to_set().contains(x) by {
                if x == m {
                    assert(s[t.len() as int] == m);
                } else {
                    assert(t.to_set().contains(x));
                    let i = choose|i: int| 0 <= i < t.len() && t[i] == x;
                    assert(s[i] == x);
                }
            }
            assert forall|x: K::V| s.to_set().contains(x) implies set.contains(x) by {
                let i = choose|i: int| 0 <= i < s.len() && s[i] == x;
                if i < t.len() {
                    assert(t[i] == x);
                    assert(t.to_set().contains(x));
                }
            }
        }
        s
    }
}

/// `in_order` lists exactly the members of a finite set, each once.
pub proof fn lemma_in_order<K: Key>(set: Set<K::V>)
    requires
        set.finite(),
    ensures
        ascending::<K>(in_order::<K>(set)),
        in_order::<K>(set).to_set() == set,
        in_order::<K>(set).no_duplicates(),
        in_order::<K>(set).len() == set.len(),
        forall|x: K::V| #[trigger] in_order::<K>(set).contains(x) <==> set.contains(x),
{
    let s = lemma_ascending_exists::<K>(set);
    assert(ascending::<K>(s) && s.to_set() == set);
    let t = in_order::<K>(set);
    lemma_ascending_unique::<K>(t);
    t.unique_seq_to_set();
    assert forall|x: K::V| #[trigger] t.contains(x) <==> set.contains(x) by {
        assert(t.to_set().contains(x) <==> t.contains(x));
    }
}

/// Two ascending sequences of the same keys are the same sequence.
pub proof fn lemma_ascending_same<K: Key>(s: Seq<K::V>, t: Seq<K::V>)
    requires
        ascending::<K>(s),
        ascending::<K>(t),
        s.to_set() == t.to_set(),
    ensures
        s == t,
    decreases s.len(),
{
    lemma_ascending_unique::<K>(s);
    lemma_ascending_unique::<K>(t);
    s.unique_seq_to_set();
    t.unique_seq_to_set();
    assert(s.len() == t.len());
    if s.len() > 0 {
        let n = s.len() - 1;
        assert(s.to_set().contains(s[n]));
        assert(t.to_set().contains(t[n]));
        let i = choose|i: int| 0 <= i < t.len() && t[i] == s[n];
        let j = choose|j: int| 0 <= j < s.len() && s[j] == t[n];
        if s[n] != t[n] {
            assert(K::before(t[i], t[n]));
            assert(K::before(s[j], s[n]));
            K::transitive(s[n], t[n], s[n]);
            K::irreflexive(s[n]);
        }
        let s1 = s.drop_last();
        let t1 = t.drop_last();
        assert(s1.to_set() =~= s.to_set().remove(s[n])) by {
            assert forall|x: K::V| s1.to_set().contains(x) <==> s.to_set().remove(s[n]).contains(x) by {
                if s1.to_set().contains(x) {
                    let k = choose|k: int| 0 <= k < s1.len() && s1[k] == x;
                    assert(s[k] == x);
                }
                if s.to_set().remove(s[n]).contains(x) {
                    let k = choose|k: int| 0 <= k < s.len() && s[k] == x;
                    assert(s1[k] == x);
                }
            }
        }
        assert(t1.to_set() =~= t.to_set().remove(t[n])) by {
            assert forall|x: K::V| t1.to_set().contains(x) <==> t.to_set().remove(t[n]).contains(x) by {
                if t1.to_set().contains(x) {
                    let k = choose|k: int| 0 <= k < t1.len() && t1[k] == x;
                    assert(t[k] == x);
                }
                if t.to_set().remove(t[n]).contains(x) {
                    let k = choose|k: int| 0 <= k < t.len() && t[k] == x;
                    assert(t1[k] == x);
                }
            }
        }
        lemma_ascending_same::<K>(s1, t1);
        assert(s =~= s1.push(s[n]));
        assert(t =~= t1.push(t[n]));
    } else {
        assert(s =~= t);
    }
}

/// An ascending sequence is the ordered listing of its members.
pub proof fn lemma_is_in_order<K: Key>(s: Seq<K::V>, set: Set<K::V>)
    requires
        ascending::<K>(s),
        forall|x: K::V| #[trigger] s.contains(x) <==> set.contains(x),
    ensures
        s == in_order::<K>(set),
        set.finite(),
        set.len() == s.len(),
{
    assert(s.to_set() =~= set) by {
        assert forall|x: K::V| s.to_set().contains(x) <==> set.contains(x) by {
            assert(s.to_set().contains(x) <==> s.contains(x));
        }
    }
    lemma_ascending_unique::<K>(s);
    s.unique_seq_to_set();
    lemma_in_order::<K>(set);
    lemma_ascending_same::<K>(s, in_order::<K>(set));
}

/// A map kept as ascending entries.
#[derive(Debug)]
pub struct OrdMap<K: Key, V: View> {
    entries: Vec<(K, V)>,
}

impl<K: Key, V: View> View for OrdMap<K, V> {
    type V = Map<K::V, V::V>;

    closed spec fn view(&self) -> Map<K::V, V::V> {
        entries_map(self.entries@)
    }
}

spec fn entry_keys<K: Key, V: View>(s: Seq<(K, V)>) -> Seq<K::V> {
    Seq::new(s.len(), |i: int| s[i].0@)
}

spec fn position<K: Key, V: View>(s: Seq<(K, V)>, k: K::V) -> int {
    choose|i: int| 0 <= i < s.len() && s[i].0@ == k
}

spec fn entries_map<K: Key, V: View>(s: Seq<(K, V)>) -> Map<K::V, V::V> {
    Map::new(
        |k: K::V| exists|i: int| 0 <= i < s.len() && #[trigger] s[i].0@ == k,
        |k: K::V| s[position(s, k)].1@,
    )
}

proof fn lemma_entries<K: Key, V: View>(s: Seq<(K, V)>)
    requires
        ascending::<K>(entry_keys(s)),
    ensures
        forall|i: int|
            0 <= i < s.len() ==> entries_map(s).contains_key((#[trigger] s[i]).0@) && entries_map(
                s,
            )[s[i].0@] == s[i].1@,
        forall|k: K::V| #[trigger]
            entries_map(s).contains_key(k) ==> exists|i: int|
                0 <= i < s.len() && #[trigger] s[i].0@ == k,
        entries_map(s).dom().finite(),
        entries_map(s).dom().len() == s.len(),
        entry_keys(s) == in_order::<K>(entries_map(s).dom()),
{
    let ks = entry_keys(s);
    lemma_ascending_unique::<K>(ks);
    assert forall|i: int| 0 <= i < s.len() implies entries_map(s).contains_key(
        (#[trigger] s[i]).0@,
    ) && entries_map(s)[s[i].0@] == s[i].1@ by {
        let j = position(s, s[i].0@);
        assert(ks[i] == ks[j]);
        assert(i == j);
    }
    let dom = entries_map(s).dom();
    assert forall|x: K::V| #[trigger] ks.contains(x) <==> dom.contains(x) by {
        if ks.contains(x) {
            let i = choose|i: int| 0 <= i < ks.len() && ks[i] == x;
            assert(s[i].0@ == x);
        }
        if dom.contains(x) {
            let i = choose|i: int| 0 <= i < s.len() && #[trigger] s[i].0@ == x;
            assert(ks[i] == x);
        }
    }
    lemma_is_in_order::<K>(ks, dom);
}

proof fn lemma_entries_set<K: Key, V: View>(
    before: Seq<(K, V)>,
    after: Seq<(K, V)>,
    at: int,
    found: bool,
    k: K::V,
    v: V::V,
)
    requires
        ascending::<K>(entry_keys(before)),
        ascending::<K>(entry_keys(after)),
        0 <= at < after.len(),
        after[at].0@ == k,
        after[at].1@ == v,
        found ==> after.len() == before.len() && before[at].0@ == k,
        !found ==> after.len() == before.len() + 1,
        forall|i: int| 0 <= i < at ==> after[i] == before[i],
        forall|i: int|
            at < i < after.len() ==> after[i] == before[if found {
                i
            } else {
                i - 1
            }],
    ensures
        entries_map(after) == entries_map(before).insert(k, v),
{
    lemma_entries(before);
    lemma_entries(after);
    lemma_ascending_unique::<K>(entry_keys(after));
    let a = entries_map(after);
    let b = entries_map(before).insert(k, v);
    assert forall|x: K::V| #[trigger]
        a.contains_key(x) == b.contains_key(x) && (a.contains_key(x) ==> a[x] == b[x]) by {
        if a.contains_key(x) {
            let i = choose|i: int| 0 <= i < after.len() && #[trigger] after[i].0@ == x;
            if i != at {
                let j = if found || i < at {
                    i
                } else {
                    i - 1
                };
                assert(before[j] == after[i]);
                assert(entry_keys(after)[i] != entry_keys(after)[at]);
                assert(entries_map(before).contains_key(before[j].0@));
            }
        }
        if b.contains_key(x) && x != k {
            let j = choose|j: int| 0 <= j < before.len() && #[trigger] before[j].0@ == x;
            let i = if found || j < at {
                j
            } else {
                j + 1
            };
            assert(after[i] == before[j]);
            assert(entries_map(after).contains_key(after[i].0@));
        }
        assert(entries_map(after).contains_key(after[at].0@));
    }
    lemma_same_map(a, b);
}

proof fn lemma_entries_removed<K: Key, V: View>(
    before: Seq<(K, V)>,
    after: Seq<(K, V)>,
    at: int,
    k: K::V,
)
    requires
        ascending::<K>(entry_keys(before)),
        ascending::<K>(entry_keys(after)),
        0 <= at < before.len(),
        before[at].0@ == k,
        after.len() == before.len() - 1,
        forall|i: int| 0 <= i < at ==> after[i] == before[i],
        forall|i: int| at <= i < after.len() ==> after[i] == before[i + 1],
    ensures
        entries_map(after) == entries_map(before).remove(k),
{
    lemma_entries(before);
    lemma_entries(after);
    let bs = entry_keys(before);
    lemma_ascending_unique::<K>(bs);
    let a = entries_map(after);
    let b = entries_map(before).remove(k);
    assert forall|x: K::V| #[trigger]
        a.contains_key(x) == b.contains_key(x) && (a.contains_key(x) ==> a[x] == b[x]) by {
        if a.contains_key(x) {
            let i = choose|i: int| 0 <= i < after.len() && #[trigger] after[i].0@ == x;
            let p = if i < at {
                i
            } else {
                i + 1
            };
            assert(before[p] == after[i]);
            assert(bs[p] != bs[at]);
            assert(entries_map(before).contains_key(before[p].0@));
        }
        if b.contains_key(x) {
            let p = choose|p: int| 0 <= p < before.len() && #[trigger] before[p].0@ == x;
            let i = if p < at {
                p
            } else {
                p - 1
            };
            assert(after[i] == before[p]);
            assert(entries_map(after).contains_key(after[i].0@));
        }
    }
    lemma_same_map(a, b);
}

proof fn lemma_same_map<A, B>(a: Map<A, B>, b: Map<A, B>)
    requires
        forall|x: A| #[trigger]
            a.contains_key(x) == b.contains_key(x) && (a.contains_key(x) ==> a[x] == b[x]),
    ensures
        a == b,
{
    assert(a.dom() =~= b.dom()) by {
        assert forall|x: A| a.dom().contains(x) == b.dom().contains(x) by {
            assert(a.contains_key(x) == b.contains_key(x));
        }
    }
    assert forall|x: A| #[trigger] a.dom().contains(x) implies a[x] == b[x] by {
        assert(a.contains_key(x) == b.contains_key(x));
    }
    assert(a =~= b);
}

impl<K: Key, V: View> OrdMap<K, V> {
    #[verifier::type_invariant]
    spec fn inv(self) -> bool {
        ascending::<K>(entry_keys(self.entries@))
    }

    /// An empty map.
    pub fn new() -> (r: Self)
        ensures
            r@ == Map::<K::V, V::V>::empty(),
    {
        let r = OrdMap { entries: Vec::new() };
        assert(r@ =~= Map::<K::V, V::V>::empty());
        r
    }

    fn search(&self, key: &K) -> (r: (usize, bool))
        ensures
            r.0 <= self.entries@.len(),
            forall|i: int| 0 <= i < r.0 ==> K::before((#[trigger] self.entries@[i]).0@, key@),
            r.1 ==> r.0 < self.entries@.len() && self.entries@[r.0 as int].0@ == key@,
            !r.1 ==> forall|i: int|
                r.0 <= i < self.entries@.len() ==> K::before(
                    key@,
                    (#[trigger] self.entries@[i]).0@,
                ),
    {
        proof {
            use_type_invariant(self);
        }
        let ghost ks = entry_keys(self.entries@);
        let mut lo: usize = 0;
        let mut hi: usize = self.entries.len();
        while lo < hi
            invariant
                lo <= hi <= self.entries@.len(),
                ks == entry_keys(self.entries@),
                ascending::<K>(ks),
                forall|i: int| 0 <= i < lo ==> K::before((#[trigger] self.entries@[i]).0@, key@),
                forall|i: int|
                    hi <= i < self.entries@.len() ==> K::before(
                        key@,
                        (#[trigger] self.entries@[i]).0@,
                    ),
            decreases hi - lo,
        {
            let mid: usize = lo + (hi - lo) / 2;
            match key.order(&self.entries[mid].0) {
                Order::Same => {
                    assert forall|i: int| 0 <= i < mid implies K::before(
                        (#[trigger] self.entries@[i]).0@,
                        key@,
                    ) by {
                        assert(K::before(ks[i], ks[mid as int]));
                    }
                    return (mid, true);
                },
                Order::Before => {
                    assert forall|i: int| mid <= i < self.entries@.len() implies K::before(
                        key@,
                        (#[trigger] self.entries@[i]).0@,
                    ) by {
                        if i > mid {
                            assert(K::before(ks[mid as int], ks[i]));
                            K::transitive(key@, ks[mid as int], ks[i]);
                        }
                    }
                    hi = mid;
                },
                Order::After => {
                    assert forall|i: int| 0 <= i < mid + 1 implies K::before(
                        (#[trigger] self.entries@[i]).0@,
                        key@,
                    ) by {
                        if i < mid {
                            assert(K::before(ks[i], ks[mid as int]));
                            K::transitive(ks[i], ks[mid as int], key@);
                        }
                    }
                    lo = mid + 1;
                },
            }
        }
        (lo, false)
    }

    proof fn lemma_absent(&self, key: K::V, at: int)
        requires
            0 <= at <= self.entries@.len(),
            forall|i: int| 0 <= i < at ==> K::before((#[trigger] self.entries@[i]).0@, key),
            forall|i: int|
                at <= i < self.entries@.len() ==> K::before(key, (#[trigger] self.entries@[i]).0@),
        ensures
            !self@.contains_key(key),
    {
        K::irreflexive(key);
        if self@.contains_key(key) {
            let i = choose|i: int| 0 <= i < self.entries@.len() && #[trigger] self.entries@[i].0@ == key;
            assert(false);
        }
    }

    /// Number of entries.
    pub fn len(&self) -> (r: usize)
        ensures
            self@.dom().finite(),
            r == self@.dom().len(),
    {
        proof {
            use_type_invariant(self);
            lemma_entries(self.entries@);
        }
        self.entries.len()
    }

    /// Whether there is no entry.
    pub fn is_empty(&self) -> (r: bool)
        ensures
            r == (self@ == Map::<K::V, V::V>::empty()),
            r == (self@.dom().len() == 0),
            self@.dom().finite(),
    {
        proof {
            use_type_invariant(self);
            lemma_entries(self.entries@);
            if self.entries@.len() == 0 {
                assert(self@ =~= Map::<K::V, V::V>::empty());
            } else {
                assert(self@.contains_key(self.entries@[0].0@));
            }
        }
        self.entries.len() == 0
    }

    /// Whether `key` has an entry.
    pub fn contains_key(&self, key: &K) -> (r: bool)
        ensures
            r == self@.contains_key(key@),
    {
        let (at, found) = self.search(key);
        proof {
            use_type_invariant(self);
            lemma_entries(self.entries@);
            if !found {
                self.lemma_absent(key@, at as int);
            }
        }
        found
    }

    /// The value of `key`.
    pub fn get(&self, key: &K) -> (r: Option<&V>)
        ensures
            r is Some <==> self@.contains_key(key@),
            r is Some ==> r->0@ == self@[key@],
    {
        let (at, found) = self.search(key);
        proof {
            use_type_invariant(self);
            lemma_entries(self.entries@);
            if !found {
                self.lemma_absent(key@, at as int);
            }
        }
        if found {
            Some(&self.entries[at].1)
        } else {
            None
        }
    }

    /// The `i`-th key in order.
    pub fn key_at(&self, i: usize) -> (r: &K)
        requires
            i < self@.dom().len(),
        ensures
            r@ == in_order::<K>(self@.dom())[i as int],
            self@.contains_key(r@),
    {
        proof {
            use_type_invariant(self);
            lemma_entries(self.entries@);
            assert(entry_keys(self.entries@)[i as int] == self.entries@[i as int].0@);
        }
        &self.entries[i].0
    }

    /// The value of the `i`-th key in order.
    pub fn value_at(&self, i: usize) -> (r: &V)
        requires
            i < self@.dom().len(),
        ensures
            r@ == self@[in_order::<K>(self@.dom())[i as int]],
    {
        proof {
            use_type_invariant(self);
            lemma_entries(self.entries@);
            assert(entry_keys(self.entries@)[i as int] == self.entries@[i as int].0@);
        }
        &self.entries[i].1
    }

    /// Bind `key` to `value`, replacing what it was bound to.
    pub fn insert(&mut self, key: K, value: V)
        ensures
            final(self)@ == old(self)@.insert(key@, value@),
    {
        let (at, found) = self.search(&key);
        proof {
            use_type_invariant(&*self);
        }
        let mut entries: Vec<(K, V)> = Vec::new();
        std::mem::swap(&mut entries, &mut self.entries);
        let ghost before = entries@;
        let ghost k = key@;
        let ghost v = value@;
        proof {
            lemma_entries(before);
        }
        if found {
            entries.set(at, (key, value));
            proof {
                assert(entry_keys(entries@) =~= entry_keys(before));
            }
        } else {
            entries.insert(at, (key, value));
            proof {
                let ks = entry_keys(entries@);
                assert forall|i: int, j: int| 0 <= i < j < ks.len() implies K::before(
                    #[trigger] ks[i],
                    #[trigger] ks[j],
                ) by {
                    let bs = entry_keys(before);
                    if j < at {
                        assert(K::before(bs[i], bs[j]));
                    } else if j == at {
                        assert(K::before(before[i].0@, k));
                    } else if i < at {
                        assert(K::before(bs[i], bs[j - 1]));
                    } else if i == at {
                        assert(K::before(k, before[j - 1].0@));
                    } else {
                        assert(K::before(bs[i - 1], bs[j - 1]));
                    }
                }
            }
        }
        proof {
            lemma_entries_set(before, entries@, at as int, found, k, v);
        }
        self.entries = entries;
    }

    /// Drop the entry of `key` and hand back its value.
    pub fn remove(&mut self, key: &K) -> (r: Option<V>)
        ensures
            final(self)@ == old(self)@.remove(key@),
            r is Some <==> old(self)@.contains_key(key@),
            r is Some ==> r->0@ == old(self)@[key@],
    {
        let (at, found) = self.search(key);
        proof {
            use_type_invariant(&*self);
        }
        if !found {
            proof {
                self.lemma_absent(key@, at as int);
                assert(self@.remove(key@) =~= self@);
            }
            return None;
        }
        let mut entries: Vec<(K, V)> = Vec::new();
        std::mem::swap(&mut entries, &mut self.entries);
        let ghost before = entries@;
        proof {
            lemma_entries(before);
        }
        let (_, value) = entries.remove(at);
        proof {
            let ks = entry_keys(entries@);
            let bs = entry_keys(before);
            assert forall|i: int, j: int| 0 <= i < j < ks.len() implies K::before(
                #[trigger] ks[i],
                #[trigger] ks[j],
            ) by {
                let p = if i < at {
                    i
                } else {
                    i + 1
                };
                let q = if j < at {
                    j
                } else {
                    j + 1
                };
                assert(K::before(bs[p], bs[q]));
            }
            lemma_entries_removed(before, entries@, at as int, key@);
        }
        self.entries = entries;
        Some(value)
    }

    /// The keys in order.
    pub fn keys(&self) -> (r: Vec<K>)
        ensures
            views(r@) == in_order::<K>(self@.dom()),
            ascending::<K>(views(r@)),
            self@.dom().finite(),
            r@.len() == self@.dom().len(),
            forall|i: int| 0 <= i < r@.len() ==> self@.contains_key((#[trigger] r@[i])@),
    {
        proof {
            use_type_invariant(self);
            lemma_entries(self.entries@);
        }
        let mut out: Vec<K> = Vec::new();
        let mut i: usize = 0;
        while i < self.entries.len()
            invariant
                i <= self.entries@.len(),
                out@.len() == i,
                forall|j: int| 0 <= j < i ==> (#[trigger] out@[j])@ == self.entries@[j].0@,
            decreases self.entries@.len() - i,
        {
            out.push(self.entries[i].0.copy_key());
            i = i + 1;
        }
        proof {
            assert(views(out@) =~= entry_keys(self.entries@));
        }
        out
    }
}

/// A value that can be copied out without changing what it stands for.
pub trait Dup: View + Sized {
    /// A copy.
    fn dup(&self) -> (r: Self)
        ensures
            r@ == self@,
    ;
}

impl<K: Key, V: Dup> Dup for OrdMap<K, V> {
    fn dup(&self) -> (r: Self) {
        proof {
            use_type_invariant(self);
            lemma_entries(self.entries@);
        }
        let mut entries: Vec<(K, V)> = Vec::new();
        let mut i: usize = 0;
        while i < self.entries.len()
            invariant
                i <= self.entries@.len(),
                entries@.len() == i,
                forall|j: int|
                    0 <= j < i ==> (#[trigger] entries@[j]).0@ == self.entries@[j].0@
                        && entries@[j].1@ == self.entries@[j].1@,
            decreases self.entries@.len() - i,
        {
            entries.push((self.entries[i].0.copy_key(), self.entries[i].1.dup()));
            i = i + 1;
        }
        proof {
            assert(entry_keys(entries@) =~= entry_keys(self.entries@));
            lemma_entries(entries@);
            let a = entries_map(entries@);
            let b = entries_map(self.entries@);
            assert forall|x: K::V| #[trigger]
                a.contains_key(x) == b.contains_key(x) && (a.contains_key(x) ==> a[x] == b[x]) by {
                if a.contains_key(x) {
                    let i = choose|i: int| 0 <= i < entries@.len() && #[trigger] entries@[i].0@ == x;
                    assert(self.entries@[i].0@ == x);
                }
                if b.contains_key(x) {
                    let i = choose|i: int|
                        0 <= i < self.entries@.len() && #[trigger] self.entries@[i].0@ == x;
                    assert(entries@[i].0@ == x);
                }
            }
            lemma_same_map(a, b);
        }
        OrdMap { entries }
    }
}

/// A set kept in ascending order.
#[derive(Debug)]
pub struct OrdSet<K: Key> {
    members: OrdMap<K, ()>,
}

impl<K: Key> View for OrdSet<K> {
    type V = Set<K::V>;

    closed spec fn view(&self) -> Set<K::V> {
        self.members@.dom()
    }
}

impl<K: Key> OrdSet<K> {
    /// An empty set.
    pub fn new() -> (r: Self)
        ensures
            r@ == Set::<K::V>::empty(),
    {
        let r = OrdSet { members: OrdMap::new() };
        assert(r@ =~= Set::<K::V>::empty());
        r
    }

    /// Number of members.
    pub fn len(&self) -> (r: usize)
        ensures
            self@.finite(),
            r == self@.len(),
    {
        self.members.len()
    }

    /// Whether there is no member.
    pub fn is_empty(&self) -> (r: bool)
        ensures
            r == (self@ == Set::<K::V>::empty()),
            r == (self@.len() == 0),
            self@.finite(),
    {
        let r = self.members.is_empty();
        proof {
            if r {
                assert(self@ =~= Set::<K::V>::empty());
            } else {
                assert(self@.len() != 0);
            }
        }
        r
    }

    /// Whether `key` is a member.
    pub fn contains(&self, key: &K) -> (r: bool)
        ensures
            r == self@.contains(key@),
    {
        self.members.contains_key(key)
    }

    /// Add `key`; whether it was absent.
    pub fn insert(&mut self, key: K) -> (r: bool)
        ensures
            final(self)@ == old(self)@.insert(key@),
            r == !old(self)@.contains(key@),
    {
        let absent = !self.members.contains_key(&key);
        self.members.insert(key, ());
        proof {
            assert(self@ =~= old(self)@.insert(key@));
        }
        absent
    }

    /// Drop `key`; whether it was a member.
    pub fn remove(&mut self, key: &K) -> (r: bool)
        ensures
            final(self)@ == old(self)@.remove(key@),
            r == old(self)@.contains(key@),
    {
        let r = self.members.remove(key);
        proof {
            assert(self@ =~= old(self)@.remove(key@));
        }
        r.is_some()
    }

    /// The `i`-th member in order.
    pub fn at(&self, i: usize) -> (r: &K)
        requires
            i < self@.len(),
        ensures
            r@ == in_order::<K>(self@)[i as int],
            self@.contains(r@),
    {
        self.members.key_at(i)
    }

    /// The members in order.
    pub fn to_vec(&self) -> (r: Vec<K>)
        ensures
            views(r@) == in_order::<K>(self@),
            ascending::<K>(views(r@)),
            self@.finite(),
            r@.len() == self@.len(),
            forall|i: int| 0 <= i < r@.len() ==> self@.contains((#[trigger] r@[i])@),
    {
        self.members.keys()
    }

    /// Whether every member is a member of `other`.
    pub fn is_subset(&self, other: &Self) -> (r: bool)
        ensures
            r == self@.subset_of(other@),
    {
        let n: usize = self.len();
        let mut i: usize = 0;
        while i < n
            invariant
                i <= n == self@.len(),
                self@.finite(),
                forall|j: int| 0 <= j < i ==> other@.contains(#[trigger] in_order::<K>(self@)[j]),
            decreases n - i,
        {
            let k = self.at(i);
            if !other.contains(k) {
                return false;
            }
            i = i + 1;
        }
        proof {
            lemma_in_order::<K>(self@);
            assert forall|x: K::V| self@.contains(x) implies other@.contains(x) by {
                assert(in_order::<K>(self@).contains(x));
                let j = choose|j: int|
                    0 <= j < in_order::<K>(self@).len() && in_order::<K>(self@)[j] == x;
                assert(other@.contains(in_order::<K>(self@)[j]));
            }
        }
        true
    }

    /// Whether two sets have the same members.
    pub fn same(&self, other: &Self) -> (r: bool)
        ensures
            r == (self@ == other@),
    {
        let r = self.is_subset(other) && other.is_subset(self);
        proof {
            if r {
                assert(self@ =~= other@);
            }
        }
        r
    }

    /// Add every member of `other`.
    pub fn extend(&mut self, other: &Self)
        ensures
            final(self)@ == old(self)@.union(other@),
    {
        let n: usize = other.len();
        let ghost order = in_order::<K>(other@);
        let mut i: usize = 0;
        proof {
            assert(self@ =~= old(self)@.union(order.take(0).to_set()));
            lemma_in_order::<K>(other@);
        }
        while i < n
            invariant
                i <= n == other@.len(),
                order == in_order::<K>(other@),
                order.len() == n,
                self@ == old(self)@.union(order.take(i as int).to_set()),
            decreases n - i,
        {
            let k = other.at(i).copy_key();
            self.insert(k);
            proof {
                lemma_take_set(order, i as int);
                assert(self@ =~= old(self)@.union(order.take(i + 1).to_set()));
            }
            i = i + 1;
        }
        proof {
            assert(order.take(n as int) =~= order);
        }
    }
}

impl<K: Key> OrdSet<K> {
    /// Drop every member that is a key of `map`.
    pub fn remove_keys<V: View>(&mut self, map: &OrdMap<K, V>)
        ensures
            final(self)@ == old(self)@.difference(map@.dom()),
    {
        let n: usize = map.len();
        let ghost order = in_order::<K>(map@.dom());
        let mut i: usize = 0;
        proof {
            assert(self@ =~= old(self)@.difference(order.take(0).to_set()));
            lemma_in_order::<K>(map@.dom());
        }
        while i < n
            invariant
                i <= n == map@.dom().len(),
                order == in_order::<K>(map@.dom()),
                order.len() == n,
                self@ == old(self)@.difference(order.take(i as int).to_set()),
            decreases n - i,
        {
            self.remove(map.key_at(i));
            proof {
                lemma_take_set(order, i as int);
                assert(self@ =~= old(self)@.difference(order.take(i + 1).to_set()));
            }
            i = i + 1;
        }
        proof {
            assert(order.take(n as int) =~= order);
        }
    }
}

/// One more element of a sequence's front.
pub proof fn lemma_take_set<T>(s: Seq<T>, i: int)
    requires
        0 <= i < s.len(),
    ensures
        s.take(i + 1).to_set() == s.take(i).to_set().insert(s[i]),
{
    let a = s.take(i);
    let b = s.take(i + 1);
    assert forall|x: T| b.to_set().contains(x) <==> a.to_set().insert(s[i]).contains(x) by {
        if b.to_set().contains(x) {
            let j = choose|j: int| 0 <= j < b.len() && b[j] == x;
            if j < i {
                assert(a[j] == x);
            }
        }
        if a.to_set().contains(x) {
            let j = choose|j: int| 0 <= j < a.len() && a[j] == x;
            assert(b[j] == x);
        }
        assert(b[i] == s[i]);
    }
    assert(b.to_set() =~= a.to_set().insert(s[i]));
}

impl<K: Key> Dup for OrdSet<K> {
    fn dup(&self) -> (r: Self) {
        OrdSet { members: self.members.dup() }
    }
}

impl Dup for () {
    fn dup(&self) -> (r: Self) {
    }
}

/// The members named by a list.
pub fn set_of<K: Key>(items: &Vec<K>) -> (r: OrdSet<K>)
    ensures
        r@ == views(items@).to_set(),
{
    let mut out: OrdSet<K> = OrdSet::new();
    let mut i: usize = 0;
    proof {
        assert(out@ =~= views(items@).take(0).to_set());
    }
    while i < items.len()
        invariant
            i <= items@.len(),
            forall|x: K::V|
                out@.contains(x) <==> exists|j: int| 0 <= j < i && #[trigger] views(items@)[j] == x,
        decreases items@.len() - i,
    {
        let ghost before = out@;
        out.insert(items[i].copy_key());
        proof {
            assert(views(items@)[i as int] == items@[i as int]@);
            assert forall|x: K::V|
                out@.contains(x) <==> exists|j: int|
                    0 <= j < i + 1 && #[trigger] views(items@)[j] == x by {
                if before.contains(x) {
                    let j = choose|j: int| 0 <= j < i && #[trigger] views(items@)[j] == x;
                    assert(views(items@)[j] == x);
                }
            }
        }
        i = i + 1;
    }
    proof {
        assert(out@ =~= views(items@).to_set()) by {
            assert forall|x: K::V| out@.contains(x) <==> views(items@).to_set().contains(x) by {
                if views(items@).to_set().contains(x) {
                    let j = choose|j: int| 0 <= j < views(items@).len() && views(items@)[j] == x;
                    assert(views(items@)[j] == x);
                }
            }
        }
    }
    out
}

/// Copy a list element by element.
pub fn dup_all<T: Dup>(items: &Vec<T>) -> (r: Vec<T>)
    ensures
        views(r@) == views(items@),
        r@.len() == items@.len(),
{
    let mut out: Vec<T> = Vec::new();
    let mut i: usize = 0;
    while i < items.len()
        invariant
            i <= items@.len(),
            out@.len() == i,
            forall|j: int| 0 <= j < i ==> (#[trigger] out@[j])@ == items@[j]@,
        decreases items@.len() - i,
    {
        out.push(items[i].dup());
        i = i + 1;
    }
    proof {
        assert(views(out@) =~= views(items@));
    }
    out
}

impl<A: Key, B: Key> Key for (A, B) {
    open spec fn before(a: (A::V, B::V), b: (A::V, B::V)) -> bool {
        A::before(a.0, b.0) || a.0 == b.0 && B::before(a.1, b.1)
    }

    proof fn irreflexive(a: (A::V, B::V)) {
        A::irreflexive(a.0);
        B::irreflexive(a.1);
    }

    proof fn transitive(a: (A::V, B::V), b: (A::V, B::V), c: (A::V, B::V)) {
        if A::before(a.0, b.0) && A::before(b.0, c.0) {
            A::transitive(a.0, b.0, c.0);
        }
        if B::before(a.1, b.1) && B::before(b.1, c.1) {
            B::transitive(a.1, b.1, c.1);
        }
    }

    proof fn total(a: (A::V, B::V), b: (A::V, B::V)) {
        A::total(a.0, b.0);
        B::total(a.1, b.1);
    }

    fn order(&self, other: &Self) -> (r: Order) {
        proof {
            A::irreflexive(self.0@);
            B::irreflexive(self.1@);
            if A::before(self.0@, other.0@) && A::before(other.0@, self.0@) {
                A::transitive(self.0@, other.0@, self.0@);
            }
        }
        match self.0.order(&other.0) {
            Order::Before => Order::Before,
            Order::After => Order::After,
            Order::Same => self.1.order(&other.1),
        }
    }

    fn copy_key(&self) -> (r: Self) {
        (self.0.copy_key(), self.1.copy_key())
    }
}

} // verus!
