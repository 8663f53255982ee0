//! Lists of command identities.

use vstd::prelude::*;

use crate::ids::CommandId;
use crate::ordered::{Dup, OrdSet, views};

verus! {

/// The list without any occurrence of `c`.
pub open spec fn without(s: Seq<CommandId>, c: CommandId) -> Seq<CommandId>
    decreases s.len(),
{
    if s.len() == 0 {
        Seq::empty()
    } else {
        let rest = without(s.drop_last(), c);
        if s.last() == c {
            rest
        } else {
            rest.push(s.last())
        }
    }
}

/// `without` drops `c` and nothing else.
pub proof fn lemma_without(s: Seq<CommandId>, c: CommandId)
    ensures
        forall|x: CommandId| #[trigger] without(s, c).contains(x) <==> s.contains(x) && x != c,
        !s.contains(c) ==> without(s, c) == s,
    decreases s.len(),
{
    if s.len() > 0 {
        let t = s.drop_last();
        lemma_without(t, c);
        let rest = without(t, c);
        assert forall|x: CommandId| #[trigger] without(s, c).contains(x) <==> s.contains(x) && x
            != c by {
            if s.contains(x) && x != c {
                let i = choose|i: int| 0 <= i < s.len() && s[i] == x;
                if i < t.len() {
                    assert(t[i] == x);
                    assert(t.contains(x));
                    assert(rest.contains(x));
                    let j = choose|j: int| 0 <= j < rest.len() && rest[j] == x;
                    if s.last() != c {
                        assert(rest.push(s.last())[j] == x);
                    }
                } else {
                    assert(rest.push(s.last())[rest.len() as int] == x);
                }
            }
            if without(s, c).contains(x) {
                let j = choose|j: int| 0 <= j < without(s, c).len() && without(s, c)[j] == x;
                if s.last() != c && j == rest.len() {
                    assert(s[s.len() - 1] == x);
                } else {
                    assert(rest[j] == x);
                    assert(rest.contains(x));
                    let i = choose|i: int| 0 <= i < t.len() && t[i] == x;
                    assert(s[i] == x);
                }
            }
        }
        if !s.contains(c) {
            assert(s[s.len() - 1] != c);
            assert(!t.contains(c)) by {
                if t.contains(c) {
                    let i = choose|i: int| 0 <= i < t.len() && t[i] == c;
                    assert(s[i] == c);
                }
            }
            assert(rest.push(s.last()) =~= s);
        }
    }
}

/// Whether `c` is on the list.
pub fn listed(list: &Vec<CommandId>, c: &CommandId) -> (r: bool)
    ensures
        r == list@.contains(*c),
{
    let mut i: usize = 0;
    while i < list.len()
        invariant
            i <= list@.len(),
            forall|j: int| 0 <= j < i ==> #[trigger] list@[j] != *c,
        decreases list@.len() - i,
    {
        if list[i] == *c {
            assert(list@[i as int] == *c);
            return true;
        }
        i = i + 1;
    }
    false
}

/// The list without any occurrence of `c`.
pub fn drop_all(list: &Vec<CommandId>, c: &CommandId) -> (r: Vec<CommandId>)
    ensures
        r@ == without(list@, *c),
{
    let mut out: Vec<CommandId> = Vec::new();
    let mut i: usize = 0;
    while i < list.len()
        invariant
            i <= list@.len(),
            out@ == without(list@.take(i as int), *c),
        decreases list@.len() - i,
    {
        proof {
            assert(list@.take(i + 1).drop_last() =~= list@.take(i as int));
        }
        if list[i] != *c {
            out.push(list[i]);
        }
        i = i + 1;
    }
    assert(list@.take(list@.len() as int) =~= list@);
    out
}

/// Copy a list.
pub fn copy_list(list: &Vec<CommandId>) -> (r: Vec<CommandId>)
    ensures
        r@ == list@,
{
    let r = list.clone();
    assert(r@ =~= list@);
    r
}

impl Dup for Vec<CommandId> {
    fn dup(&self) -> (r: Self) {
        copy_list(self)
    }
}

/// A list of identities is its own view.
pub proof fn lemma_id_views(s: Seq<CommandId>)
    ensures
        views(s) == s,
{
    assert(views(s) =~= s);
}

/// The members named by a list.
pub fn members(list: &Vec<CommandId>) -> (r: OrdSet<CommandId>)
    ensures
        r@ == list@.to_set(),
{
    proof {
        lemma_id_views(list@);
    }
    crate::ordered::set_of(list)
}

} // verus!
