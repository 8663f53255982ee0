//! What the operations of a command table come to: which order a command
//! ends up with, what a new command follows, and what a restart brings back.

use vstd::prelude::*;

use crate::commands::{
    KeyView, RecordView, TableView, anchor_of, bound_in_order, heads, rebuilt_key, set_anchor,
    set_anchors, synced_keys, touching, trimmed,
};
use crate::graph::AnchorSeq;
use crate::hash::HashDomain;
use crate::ids::{CommandId, Digest32};
use crate::ordered::{in_order, lemma_in_order};
use crate::phase::{GuardViolation, Phase, Phases, first_violation};

verus! {

/// Every command of `deps` is known here at `phase` or later.
pub open spec fn all_reached(table: TableView, deps: Seq<CommandId>, phase: Phase) -> bool {
    forall|i: int|
        0 <= i < deps.len() ==> table.phase_of(#[trigger] deps[i]) is Some && table.phase_of(
            deps[i],
        )->0.rank() >= phase.rank()
}

proof fn lemma_no_violation(table: TableView, deps: Seq<CommandId>, phase: Phase)
    requires
        all_reached(table, deps, phase),
    ensures
        first_violation(deps, table.phases(), phase) is None,
{
    crate::phase::lemma_guard_holds(deps, table.phases(), phase);
    assert forall|i: int| 0 <= i < deps.len() implies (table.phases())(#[trigger] deps[i]) is Some
        && (table.phases())(deps[i])->0.rank() >= phase.rank() by {
        assert(table.phase_of(deps[i]) is Some);
    }
}

/// Adopting an order: where the command is held with its payload, is not past
/// ACCEPT and every given dependency is at ACCEPT or later, it succeeds; the
/// record then holds exactly the given dependencies at ACCEPT, whatever it held
/// before, and nothing else of the table changes. Where the adoption brings the
/// leader's evidence, the record holds that too.
pub proof fn lemma_adoption_takes_the_given_order(
    table: TableView,
    c: CommandId,
    deps: Seq<CommandId>,
    paths: AnchorSeq,
    path: Digest32,
)
    requires
        table.records.contains_key(c),
        table.records[c].payload is Some,
        table.records[c].phase.rank() <= Phase::Accept.rank(),
        all_reached(table, deps, Phase::Accept),
    ensures
        table.accept_violation(c, deps) is None,
        table.adopt_violation(c, deps) is None,
        ({
            let next = table.accepted(c, deps);
            let was = table.records[c];
            &&& next.records[c].deps == deps
            &&& next.records[c].phase == Phase::Accept
            &&& next.records[c].keys == was.keys && next.records[c].payload == was.payload
            &&& next.records[c].paths == was.paths && next.records[c].path == was.path
            &&& next.records[c].synced_seq == was.synced_seq
            &&& untouched_but(table, next, c)
        }),
        ({
            let next = table.adopted(c, deps, Some(paths), path);
            let was = table.records[c];
            &&& next.records[c].deps == deps
            &&& next.records[c].phase == Phase::Accept
            &&& next.records[c].paths == paths && next.records[c].path == path
            &&& next.records[c].keys == was.keys && next.records[c].payload == was.payload
            &&& untouched_but(table, next, c)
        }),
        ({
            let next = table.adopted(c, deps, None, path);
            &&& next.records[c].deps == deps
            &&& next.records[c].phase == Phase::Accept
            &&& next.records[c].paths == table.records[c].paths && next.records[c].path == path
            &&& untouched_but(table, next, c)
        }),
{
    lemma_no_violation(table, deps, Phase::Accept);
    assert(table.accepted(c, deps).records.dom() =~= table.records.dom());
    assert(table.adopted(c, deps, Some(paths), path).records.dom() =~= table.records.dom());
    assert(table.adopted(c, deps, None, path).records.dom() =~= table.records.dom());
}

/// An order is not adopted where it cannot be: a command without a payload, or
/// one whose given dependencies are not all at ACCEPT, is refused and stays as
/// it is. A command past ACCEPT keeps the order it has.
pub proof fn lemma_orders_are_not_adopted_early(
    table: TableView,
    c: CommandId,
    deps: Seq<CommandId>,
)
    ensures
        table.phase_of(c) is None ==> table.accept_violation(c, deps) is Some,
        !table.past_accept(c) && !all_reached(table, deps, Phase::Accept)
            ==> table.accept_violation(c, deps) is Some,
        table.accept_violation(c, deps) is Some ==> table.accepted(c, deps) == table,
        table.phase_of(c) is Some && table.phase_of(c)->0.rank() >= Phase::Commit.rank()
            ==> table.accept_violation(c, deps) is None && table.accepted(c, deps) == table,
{
    crate::phase::lemma_guard_holds(deps, table.phases(), Phase::Accept);
    if !table.past_accept(c) && first_violation(deps, table.phases(), Phase::Accept) is None {
        assert forall|i: int| 0 <= i < deps.len() implies table.phase_of(
            #[trigger] deps[i],
        ) is Some && table.phase_of(deps[i])->0.rank() >= Phase::Accept.rank() by {
            assert((table.phases())(deps[i]) == table.phase_of(deps[i]));
        }
    }
}

/// Two tables agree on everything but the record of `c`.
pub open spec fn untouched_but(a: TableView, b: TableView, c: CommandId) -> bool {
    &&& b.records.dom() == a.records.dom()
    &&& forall|x: CommandId|
        a.records.contains_key(x) && x != c ==> #[trigger] b.records[x] == a.records[x]
    &&& b.keys == a.keys
    &&& b.executed == a.executed
    &&& b.retired == a.retired
    &&& b.capacity == a.capacity
}

/// Committing and executing move one command: where it is held with its payload
/// below the phase and every dependency of it has reached the phase, it
/// reaches the phase with the dependencies it has; where a dependency has not,
/// it is refused and stays.
pub proof fn lemma_advancing_moves_one_command(table: TableView, c: CommandId, phase: Phase)
    requires
        table.records.contains_key(c),
        table.records[c].payload is Some,
        table.records[c].phase.rank() < phase.rank(),
    ensures
        table.advance_violation(c, phase) is None <==> all_reached(
            table,
            table.records[c].deps,
            phase,
        ),
        all_reached(table, table.records[c].deps, phase) ==> {
            let next = table.advanced(c, phase);
            let was = table.records[c];
            &&& next.phase_of(c) == Some(phase)
            &&& next.records[c].deps == was.deps && next.records[c].keys == was.keys
            &&& next.records[c].payload == was.payload && next.records[c].path == was.path
            &&& next.records[c].paths == was.paths
            &&& untouched_but(table, next, c)
        },
        !all_reached(table, table.records[c].deps, phase) ==> table.advanced(c, phase) == table,
{
    let deps = table.records[c].deps;
    if all_reached(table, deps, phase) {
        lemma_no_violation(table, deps, phase);
        assert(table.advanced(c, phase).records.dom() =~= table.records.dom());
    }
    crate::phase::lemma_guard_holds(deps, table.phases(), phase);
    if first_violation(deps, table.phases(), phase) is None {
        assert forall|i: int| 0 <= i < deps.len() implies table.phase_of(
            #[trigger] deps[i],
        ) is Some && table.phase_of(deps[i])->0.rank() >= phase.rank() by {
            assert((table.phases())(deps[i]) == table.phase_of(deps[i]));
        }
    }
}

/// `x` is the last command of one of these keys.
pub open spec fn last_of_some(table: TableView, keys: Seq<Seq<u8>>, x: CommandId) -> bool {
    exists|i: int|
        0 <= i < keys.len() && table.keys.contains_key(#[trigger] keys[i])
            && table.keys[keys[i]].last == Some(x)
}

/// What the lookup of conflicts finds: exactly the last commands of the keys,
/// each once.
pub proof fn lemma_conflicts_are_the_last_commands(table: TableView, keys: Seq<Seq<u8>>)
    ensures
        table.conflicts(keys).no_duplicates(),
        forall|x: CommandId| #[trigger]
            table.conflicts(keys).contains(x) <==> last_of_some(table, keys, x),
    decreases keys.len(),
{
    if keys.len() > 0 {
        let rest = keys.drop_last();
        lemma_conflicts_are_the_last_commands(table, rest);
        let before = table.conflicts(rest);
        let all = table.conflicts(keys);
        let key = keys.last();
        assert forall|x: CommandId| #[trigger] all.contains(x) <==> last_of_some(table, keys, x) by {
            assert(before.contains(x) <==> last_of_some(table, rest, x));
            if all.contains(x) {
                if before.contains(x) {
                    let i = choose|i: int|
                        0 <= i < rest.len() && table.keys.contains_key(#[trigger] rest[i])
                            && table.keys[rest[i]].last == Some(x);
                    assert(keys[i] == rest[i]);
                } else {
                    let j = choose|j: int| 0 <= j < all.len() && all[j] == x;
                    if j < before.len() {
                        assert(before[j] == x);
                    }
                    assert(keys[keys.len() - 1] == key);
                }
            }
            if last_of_some(table, keys, x) {
                let i = choose|i: int|
                    0 <= i < keys.len() && table.keys.contains_key(#[trigger] keys[i])
                        && table.keys[keys[i]].last == Some(x);
                if i < rest.len() {
                    assert(rest[i] == keys[i]);
                    let j = choose|j: int| 0 <= j < before.len() && before[j] == x;
                    assert(all[j] == x);
                } else if before.contains(x) {
                    let j = choose|j: int| 0 <= j < before.len() && before[j] == x;
                    assert(all[j] == x);
                } else {
                    assert(all[all.len() - 1] == x);
                }
            }
        }
    }
}

proof fn lemma_entered<H: Fn(HashDomain, Vec<Vec<u8>>) -> Digest32>(
    table: TableView,
    hash: H,
    c: CommandId,
    keys: Seq<Seq<u8>>,
)
    ensures
        ({
            let done = table.indexing(hash, c, keys);
            &&& done.deps.no_duplicates()
            &&& !done.deps.contains(c)
            &&& forall|x: CommandId| #[trigger]
                done.deps.contains(x) <==> x != c && last_of_some(table, keys, x)
            &&& done.paths.len() == keys.len()
            &&& forall|i: int| 0 <= i < keys.len() ==> (#[trigger] done.paths[i]).0 == keys[i]
            &&& forall|k: Seq<u8>| #[trigger]
                done.keys.contains_key(k) <==> table.keys.contains_key(k) || keys.contains(k)
            &&& forall|k: Seq<u8>|
                #![trigger done.keys[k]]
                keys.contains(k) ==> done.keys[k].last == Some(c)
            &&& forall|k: Seq<u8>|
                #![trigger done.keys[k]]
                table.keys.contains_key(k) && !keys.contains(k) ==> done.keys[k] == table.keys[k]
        }),
    decreases keys.len(),
{
    if keys.len() > 0 {
        let rest = keys.drop_last();
        let key = keys.last();
        lemma_entered(table, hash, c, rest);
        let mid = table.indexing(hash, c, rest);
        let done = table.indexing(hash, c, keys);
        assert(done == mid.entered(hash, c, key));
        assert forall|k: Seq<u8>| #[trigger] keys.contains(k) <==> rest.contains(k) || k == key by {
            if keys.contains(k) {
                let i = choose|i: int| 0 <= i < keys.len() && keys[i] == k;
                if i < rest.len() {
                    assert(rest[i] == k);
                }
            }
            if rest.contains(k) {
                let i = choose|i: int| 0 <= i < rest.len() && rest[i] == k;
                assert(keys[i] == k);
            }
            assert(keys[keys.len() - 1] == key);
        }
        let found = mid.keys.contains_key(key) && mid.keys[key].last is Some
            && mid.keys[key].last->0 != c && !mid.deps.contains(mid.keys[key].last->0);
        assert forall|x: CommandId| #[trigger] done.deps.contains(x) <==> x != c && last_of_some(
            table,
            keys,
            x,
        ) by {
            assert(mid.deps.contains(x) <==> x != c && last_of_some(table, rest, x));
            if done.deps.contains(x) {
                let j = choose|j: int| 0 <= j < done.deps.len() && done.deps[j] == x;
                if j < mid.deps.len() {
                    assert(mid.deps[j] == x);
                    assert(mid.deps.contains(x));
                    let i = choose|i: int|
                        0 <= i < rest.len() && table.keys.contains_key(#[trigger] rest[i])
                            && table.keys[rest[i]].last == Some(x);
                    assert(keys[i] == rest[i]);
                } else {
                    assert(found);
                    assert(x == mid.keys[key].last->0);
                    assert(!rest.contains(key));
                    assert(keys[keys.len() - 1] == key);
                    assert(table.keys.contains_key(key));
                    assert(mid.keys[key] == table.keys[key]);
                }
            }
            if x != c && last_of_some(table, keys, x) {
                let i = choose|i: int|
                    0 <= i < keys.len() && table.keys.contains_key(#[trigger] keys[i])
                        && table.keys[keys[i]].last == Some(x);
                if i < rest.len() {
                    assert(rest[i] == keys[i]);
                    assert(mid.deps.contains(x));
                    let j = choose|j: int| 0 <= j < mid.deps.len() && mid.deps[j] == x;
                    assert(done.deps[j] == x);
                } else if rest.contains(key) {
                    let h = choose|h: int| 0 <= h < rest.len() && rest[h] == key;
                    assert(table.keys.contains_key(rest[h]));
                    assert(mid.deps.contains(x));
                    let j = choose|j: int| 0 <= j < mid.deps.len() && mid.deps[j] == x;
                    assert(done.deps[j] == x);
                } else {
                    assert(mid.keys[key] == table.keys[key]);
                    if mid.deps.contains(x) {
                        let j = choose|j: int| 0 <= j < mid.deps.len() && mid.deps[j] == x;
                        assert(done.deps[j] == x);
                    } else {
                        assert(done.deps[done.deps.len() - 1] == x);
                    }
                }
            }
        }
        assert(!done.deps.contains(c));
        assert forall|i: int| 0 <= i < keys.len() implies (#[trigger] done.paths[i]).0
            == keys[i] by {
            if i < rest.len() {
                assert(done.paths[i] == mid.paths[i]);
                assert(keys[i] == rest[i]);
            }
        }
    } else {
        assert(table.indexing(hash, c, keys).deps =~= Seq::<CommandId>::empty());
    }
}

/// A new command follows what its keys saw last: it is recorded at PRE-ACCEPT
/// with its payload and keys, depends on exactly the commands that were last on
/// those keys, and is from there on the last one of each of them. No other key,
/// and no other command, is touched.
pub proof fn lemma_new_commands_follow_the_last_ones<
    H: Fn(HashDomain, Vec<Vec<u8>>) -> Digest32,
>(table: TableView, hash: H, c: CommandId, payload: Digest32, keys: Seq<Seq<u8>>)
    ensures
        ({
            let next = table.with_initialized(hash, c, payload, keys);
            let record = next.records[c];
            &&& next.records.dom() == table.records.dom().insert(c)
            &&& record.phase == Phase::PreAccept
            &&& record.payload == Some(payload)
            &&& record.keys == keys
            &&& record.synced_seq is None
            &&& record.deps.no_duplicates()
            &&& forall|x: CommandId| #[trigger]
                record.deps.contains(x) <==> x != c && last_of_some(table, keys, x)
            &&& record.paths.len() == keys.len()
            &&& forall|i: int| 0 <= i < keys.len() ==> (#[trigger] record.paths[i]).0 == keys[i]
            &&& forall|k: Seq<u8>|
                #![trigger next.keys[k]]
                keys.contains(k) ==> next.keys.contains_key(k) && next.keys[k].last == Some(c)
            &&& forall|k: Seq<u8>|
                #![trigger next.keys[k]]
                table.keys.contains_key(k) && !keys.contains(k) ==> next.keys.contains_key(k)
                    && next.keys[k] == table.keys[k]
            &&& forall|x: CommandId|
                #![trigger next.records[x]]
                table.records.contains_key(x) && x != c ==> next.records[x] == table.records[x]
            &&& next.executed == table.executed && next.retired == table.retired && next.capacity
                == table.capacity
        }),
{
    lemma_entered(table, hash, c, keys);
    let next = table.with_initialized(hash, c, payload, keys);
    assert(next.records.dom() =~= table.records.dom().insert(c));
    assert forall|k: Seq<u8>|
        #![trigger next.keys[k]]
        keys.contains(k) implies next.keys.contains_key(k) && next.keys[k].last == Some(c) by {
        assert(table.indexing(hash, c, keys).keys.contains_key(k));
    }
    assert forall|k: Seq<u8>|
        #![trigger next.keys[k]]
        table.keys.contains_key(k) && !keys.contains(k) implies next.keys.contains_key(k)
        && next.keys[k] == table.keys[k] by {
        assert(table.indexing(hash, c, keys).keys.contains_key(k));
    }
}

/// Two commands that share a key are never left without an order: of two
/// initialized in turn the second depends on the first.
pub proof fn lemma_conflicting_commands_are_ordered<
    H: Fn(HashDomain, Vec<Vec<u8>>) -> Digest32,
>(
    table: TableView,
    hash: H,
    a: CommandId,
    b: CommandId,
    first: Digest32,
    second: Digest32,
    keys: Seq<Seq<u8>>,
    more: Seq<Seq<u8>>,
    shared: Seq<u8>,
)
    requires
        a != b,
        keys.contains(shared),
        more.contains(shared),
    ensures
        table.with_initialized(hash, a, first, keys).with_initialized(
            hash,
            b,
            second,
            more,
        ).records[b].deps.contains(a),
{
    let mid = table.with_initialized(hash, a, first, keys);
    lemma_new_commands_follow_the_last_ones(table, hash, a, first, keys);
    lemma_new_commands_follow_the_last_ones(mid, hash, b, second, more);
    let i = choose|i: int| 0 <= i < more.len() && more[i] == shared;
    assert(mid.keys[shared].last == Some(a));
    assert(mid.keys.contains_key(more[i]));
    assert(last_of_some(mid, more, a));
}

/// `h` is an initialized row of the key that no initialized row of the key
/// depends on.
pub open spec fn leads_key(
    records: Map<CommandId, RecordView>,
    key: Seq<u8>,
    h: CommandId,
) -> bool {
    &&& records.contains_key(h)
    &&& records[h].payload is Some
    &&& records[h].keys.contains(key)
    &&& forall|m: CommandId|
        records.contains_key(m) && (#[trigger] records[m]).payload is Some
            && records[m].keys.contains(key) ==> !records[m].deps.contains(h)
}

/// A table rebuilt from its rows holds the rows, the later of two for one
/// command, and remembers nothing else as executed.
pub proof fn lemma_rows_come_back<H: Fn(HashDomain, Vec<Vec<u8>>) -> Digest32>(
    hash: H,
    capacity: Option<usize>,
    rows: Seq<(CommandId, RecordView)>,
    i: int,
)
    requires
        0 <= i < rows.len(),
        forall|j: int| i < j < rows.len() ==> (#[trigger] rows[j]).0 != rows[i].0,
    ensures
        ({
            let table = TableView::restored(hash, capacity, rows);
            &&& table.records.contains_key(rows[i].0)
            &&& table.records[rows[i].0] == rows[i].1
            &&& table.capacity == capacity
            &&& table.executed == Set::<CommandId>::empty()
        }),
    decreases rows.len(),
{
    if i < rows.len() - 1 {
        let before = rows.drop_last();
        assert forall|j: int| i < j < before.len() implies (#[trigger] before[j]).0
            != before[i].0 by {
            assert(before[j] == rows[j]);
        }
        lemma_rows_come_back(hash, capacity, before, i);
        assert(rows[rows.len() - 1].0 != rows[i].0);
    }
}

proof fn lemma_bound_finite(rows: Seq<(CommandId, RecordView)>)
    ensures
        bound_in_order(rows).dom().finite(),
        forall|c: CommandId| #[trigger]
            bound_in_order(rows).contains_key(c) ==> exists|i: int|
                0 <= i < rows.len() && (#[trigger] rows[i]).0 == c && bound_in_order(rows)[c]
                    == rows[i].1,
    decreases rows.len(),
{
    if rows.len() > 0 {
        let before = rows.drop_last();
        lemma_bound_finite(before);
        let all = bound_in_order(rows);
        assert(all.dom() =~= bound_in_order(before).dom().insert(rows.last().0));
        assert forall|c: CommandId| #[trigger] all.contains_key(c) implies exists|i: int|
            0 <= i < rows.len() && (#[trigger] rows[i]).0 == c && all[c] == rows[i].1 by {
            if c == rows.last().0 {
                assert(rows[rows.len() - 1].0 == c);
            } else {
                assert(bound_in_order(before).contains_key(c));
                let i = choose|i: int|
                    0 <= i < before.len() && (#[trigger] before[i]).0 == c && bound_in_order(
                        before,
                    )[c] == before[i].1;
                assert(rows[i].0 == c);
            }
        }
    }
}

/// A restart loses no order: in a table rebuilt from rows, wherever some row of
/// a key is depended on by no other row of the key, the lookup of that key finds
/// such a row, and the next command initialized on the key depends on it.
pub proof fn lemma_restored_keys_name_what_leads<H: Fn(HashDomain, Vec<Vec<u8>>) -> Digest32>(
    hash: H,
    capacity: Option<usize>,
    rows: Seq<(CommandId, RecordView)>,
    key: Seq<u8>,
    known: CommandId,
    c: CommandId,
    payload: Digest32,
    keys: Seq<Seq<u8>>,
)
    requires
        leads_key(TableView::restored(hash, capacity, rows).records, key, known),
    ensures
        ({
            let table = TableView::restored(hash, capacity, rows);
            let h = table.keys[key].last->0;
            &&& table.keys.contains_key(key)
            &&& table.keys[key].last is Some
            &&& leads_key(table.records, key, h)
            &&& table.conflicts(seq![key]) == seq![h]
            &&& keys.contains(key) && c != h ==> table.with_initialized(
                hash,
                c,
                payload,
                keys,
            ).records[c].deps.contains(h)
        }),
{
    let table = TableView::restored(hash, capacity, rows);
    let records = table.records;
    lemma_bound_finite(rows);
    let set = heads(records, key);
    assert(touching(records, key).contains(known));
    assert(set.contains(known));
    assert(touching(records, key).subset_of(records.dom()));
    assert(set.subset_of(records.dom()));
    vstd::set_lib::lemma_len_subset(set, records.dom());
    let order = in_order::<CommandId>(set);
    lemma_in_order::<CommandId>(set);
    assert(order.contains(known));
    assert(records[known].keys.contains(key));
    assert(table.keys.contains_key(key));
    assert(table.keys[key] == rebuilt_key(hash, records, key));
    let h = order.last();
    assert(order.contains(order[order.len() - 1]));
    assert(set.contains(h));
    assert(leads_key(records, key, h)) by {
        assert forall|m: CommandId|
            records.contains_key(m) && (#[trigger] records[m]).payload is Some
                && records[m].keys.contains(key) implies !records[m].deps.contains(h) by {
            assert(touching(records, key).contains(m));
        }
    }
    assert(seq![key].drop_last() =~= Seq::<Seq<u8>>::empty());
    assert(table.conflicts(Seq::<Seq<u8>>::empty()) =~= Seq::<CommandId>::empty());
    assert(table.conflicts(seq![key]) =~= seq![h]);
    if keys.contains(key) && c != h {
        lemma_new_commands_follow_the_last_ones(table, hash, c, payload, keys);
        let i = choose|i: int| 0 <= i < keys.len() && keys[i] == key;
        assert(table.keys.contains_key(keys[i]));
        assert(last_of_some(table, keys, h));
    }
}

/// A path log resumed at a restart starts where the row that leads the key left
/// off.
pub proof fn lemma_restored_paths_resume<H: Fn(HashDomain, Vec<Vec<u8>>) -> Digest32>(
    hash: H,
    capacity: Option<usize>,
    rows: Seq<(CommandId, RecordView)>,
    key: Seq<u8>,
    known: CommandId,
    i: int,
)
    requires
        leads_key(TableView::restored(hash, capacity, rows).records, key, known),
        ({
            let table = TableView::restored(hash, capacity, rows);
            let paths = table.records[table.keys[key].last->0].paths;
            &&& 0 <= i < paths.len()
            &&& paths[i].0 == key
            &&& forall|j: int| 0 <= j < i ==> (#[trigger] paths[j]).0 != key
        }),
    ensures
        ({
            let table = TableView::restored(hash, capacity, rows);
            let paths = table.records[table.keys[key].last->0].paths;
            &&& table.keys[key].log.head == paths[i].1
            &&& table.keys[key].log.synced_hash == paths[i].1
            &&& table.keys[key].log.pending.len() == 0
        }),
{
    let table = TableView::restored(hash, capacity, rows);
    lemma_restored_keys_name_what_leads(
        hash,
        capacity,
        rows,
        key,
        known,
        known,
        arbitrary(),
        Seq::empty(),
    );
    lemma_anchor_at(table.records[table.keys[key].last->0].paths, key, i);
    lemma_bound_finite(rows);
    let order = in_order::<CommandId>(heads(table.records, key));
    if order.len() == 0 {
        assert(table.keys[key].last is None);
    }
}

proof fn lemma_anchor_at(s: AnchorSeq, key: Seq<u8>, i: int)
    requires
        0 <= i < s.len(),
        s[i].0 == key,
        forall|j: int| 0 <= j < i ==> (#[trigger] s[j]).0 != key,
    ensures
        anchor_of(s, key) == Some(s[i].1),
    decreases s.len(),
{
    if i > 0 {
        assert(s[0].0 != key);
        let t = s.drop_first();
        assert forall|j: int| 0 <= j < i - 1 implies (#[trigger] t[j]).0 != key by {
            assert(t[j] == s[j + 1]);
        }
        lemma_anchor_at(t, key, i - 1);
    }
}

/// Retiring an executed command takes its record away and nothing else: it
/// still counts as executed where the memory has room for one, no key names it
/// any more, and every key that named another command still does.
pub proof fn lemma_retiring_forgets_one_record(table: TableView, c: CommandId)
    requires
        table.records.contains_key(c),
        table.records[c].phase == Phase::Executed,
        table.sound(),
        table.capacity matches Some(bound) ==> bound > 0,
    ensures
        ({
            let next = table.retired_one(c);
            &&& table.retire_refusal(c) is None
            &&& next.records == table.records.remove(c)
            &&& next.phase_of(c) == Some(Phase::Executed)
            &&& next.keys.dom() == table.keys.dom()
            &&& forall|k: Seq<u8>|
                #![trigger next.keys[k]]
                table.keys.contains_key(k) ==> next.keys[k].last != Some(c) && (
                table.keys[k].last != Some(c) ==> next.keys[k].last == table.keys[k].last)
            &&& next.capacity == table.capacity
        }),
{
    let next = table.retired_one(c);
    let order = if table.executed.contains(c) {
        table.retired
    } else {
        table.retired.push(c)
    };
    assert(next.keys.dom() =~= table.keys.dom());
    assert forall|k: Seq<u8>|
        #![trigger next.keys[k]]
        table.keys.contains_key(k) implies next.keys[k].last != Some(c) && (table.keys[k].last
        != Some(c) ==> next.keys[k].last == table.keys[k].last) by {
        if table.keys[k].last == Some(c) {
            assert(table.records[c].keys.contains(k));
        }
    }
    match table.capacity {
        Some(bound) => {
            if !table.executed.contains(c) {
                assert(order.last() == c);
                assert(!table.retired.contains(c)) by {
                    assert(table.retired.to_set().contains(c) <==> table.retired.contains(c));
                }
                lemma_newest_stays(order, table.executed.insert(c), bound as nat);
            } else {
                assert(order.len() <= bound);
            }
        },
        None => {},
    }
}

proof fn lemma_newest_stays(retired: Seq<CommandId>, executed: Set<CommandId>, bound: nat)
    requires
        bound > 0,
        retired.len() > 0,
        retired.no_duplicates(),
        executed.contains(retired.last()),
    ensures
        trimmed(retired, executed, bound).1.contains(retired.last()),
    decreases retired.len(),
{
    if retired.len() > bound {
        let rest = retired.drop_first();
        assert(rest.last() == retired.last());
        assert(retired[0] != retired[retired.len() - 1]);
        assert(rest.no_duplicates());
        lemma_newest_stays(rest, executed.remove(retired[0]), bound);
    }
}

/// A command expected before it arrives is known by identity only: it is
/// recorded without payload, dependencies or keys, where there is room; a
/// command known already is left as it is.
pub proof fn lemma_expected_commands_have_no_payload<
    H: Fn(HashDomain, Vec<Vec<u8>>) -> Digest32,
>(table: TableView, hash: H, c: CommandId)
    ensures
        table.records.contains_key(c) ==> table.expected(hash, c) == table,
        !table.records.contains_key(c) && !table.full() ==> {
            let next = table.expected(hash, c);
            &&& next.records.dom() == table.records.dom().insert(c)
            &&& next.records[c].payload is None
            &&& next.records[c].deps.len() == 0 && next.records[c].keys.len() == 0
            &&& next.records[c].phase == Phase::Start
            &&& next.keys == table.keys && next.executed == table.executed
            &&& forall|x: CommandId|
                #![trigger next.records[x]]
                table.records.contains_key(x) ==> next.records[x] == table.records[x]
        },
{
    if !table.records.contains_key(c) && !table.full() {
        assert(table.expected(hash, c).records.dom() =~= table.records.dom().insert(c));
    }
}

/// Initialization is refused for a reason: a command held with the same facts
/// is initialized already, one held under others conflicts, and one that is new
/// is pushed back only where making room leaves none.
pub proof fn lemma_initialization_refusals(table: TableView, c: CommandId, payload: Digest32)
    ensures
        table.init_refusal(c, payload) == Some(crate::commands::InitError::AlreadyInitialized)
            <==> table.records.contains_key(c) && table.records[c].payload == Some(payload),
        table.init_refusal(c, payload) == Some(crate::commands::InitError::PayloadConflict)
            <==> table.records.contains_key(c) && table.records[c].payload is Some
            && table.records[c].payload != Some(payload),
        table.init_refusal(c, payload) == Some(crate::commands::InitError::Backpressure) ==> {
            let room = if table.full() {
                table.reclaimed()
            } else {
                table
            };
            &&& !table.records.contains_key(c)
            &&& table.capacity matches Some(bound)
            &&& room.records.dom().len() >= room.capacity->0
        },
        !table.records.contains_key(c) && table.capacity is None ==> table.init_refusal(c, payload)
            is None,
        !table.records.contains_key(c) && table.records.dom().len() < table.capacity->0
            ==> table.init_refusal(c, payload) is None,
{
}

/// The leader's order of a command is kept with it: where its number is not
/// older than the one recorded, the record has that number and the leader's
/// digest for each key it named last, and keeps everything else; an older one
/// changes no record. No key loses the command that is last on it.
pub proof fn lemma_leader_paths_are_recorded<H: Fn(HashDomain, Vec<Vec<u8>>) -> Digest32>(
    table: TableView,
    hash: H,
    c: CommandId,
    seqnum: u64,
    paths: AnchorSeq,
    i: int,
    k: Seq<u8>,
)
    ensures
        ({
            let next = table.with_leader_path(hash, c, seqnum, paths);
            let was = table.records[c];
            &&& table.records.contains_key(c) && (was.synced_seq matches Some(s) ==> seqnum >= s)
                ==> {
                &&& next.records[c].synced_seq == Some(seqnum)
                &&& next.records[c].deps == was.deps && next.records[c].phase == was.phase
                &&& next.records[c].payload == was.payload && next.records[c].keys == was.keys
                &&& next.records[c].path == was.path
                &&& 0 <= i < paths.len() && (forall|j: int|
                    i < j < paths.len() ==> (#[trigger] paths[j]).0 != paths[i].0) ==> anchor_of(
                    next.records[c].paths,
                    paths[i].0,
                ) == Some(paths[i].1)
            }
            &&& !table.records.contains_key(c) || (was.synced_seq matches Some(s) && seqnum < s)
                ==> next.records == table.records
            &&& forall|x: CommandId|
                #![trigger next.records[x]]
                x != c && table.records.contains_key(x) ==> next.records[x] == table.records[x]
            &&& table.keys.contains_key(k) ==> next.keys.contains_key(k) && next.keys[k].last
                == table.keys[k].last
            &&& !table.keys.contains_key(k) && next.keys.contains_key(k) ==> next.keys[k].last
                is None
        }),
{
    lemma_synced_last(hash, table.keys, c, seqnum, paths, k);
    if 0 <= i < paths.len() && (forall|j: int|
        i < j < paths.len() ==> (#[trigger] paths[j]).0 != paths[i].0) {
        lemma_anchors_set(table.records[c].paths, paths, i);
    }
}

proof fn lemma_synced_last<H: Fn(HashDomain, Vec<Vec<u8>>) -> Digest32>(
    hash: H,
    keys: Map<Seq<u8>, KeyView>,
    c: CommandId,
    seqnum: u64,
    paths: AnchorSeq,
    k: Seq<u8>,
)
    ensures
        ({
            let done = synced_keys(hash, keys, c, seqnum, paths);
            &&& keys.contains_key(k) ==> done.contains_key(k) && done[k].last == keys[k].last
            &&& !keys.contains_key(k) && done.contains_key(k) ==> done[k].last is None
        }),
    decreases paths.len(),
{
    if paths.len() > 0 {
        lemma_synced_last(hash, keys, c, seqnum, paths.drop_last(), k);
    }
}

proof fn lemma_set_then_read(s: AnchorSeq, key: Seq<u8>, digest: Digest32, other: Seq<u8>)
    ensures
        anchor_of(set_anchor(s, key, digest), key) == Some(digest),
        other != key ==> anchor_of(set_anchor(s, key, digest), other) == anchor_of(s, other),
    decreases s.len(),
{
    let done = set_anchor(s, key, digest);
    if s.len() == 0 {
        assert(done.drop_first() =~= s);
        assert(anchor_of(done.drop_first(), other) == anchor_of(s, other));
    } else if s[0].0 == key {
        assert(done.drop_first() =~= s.drop_first());
    } else {
        lemma_set_then_read(s.drop_first(), key, digest, other);
        assert(done.drop_first() =~= set_anchor(s.drop_first(), key, digest));
        assert(done[0] == s[0]);
    }
}

proof fn lemma_anchors_set(s: AnchorSeq, with: AnchorSeq, i: int)
    requires
        0 <= i < with.len(),
        forall|j: int| i < j < with.len() ==> (#[trigger] with[j]).0 != with[i].0,
    ensures
        anchor_of(set_anchors(s, with), with[i].0) == Some(with[i].1),
    decreases with.len(),
{
    let rest = with.drop_last();
    lemma_set_then_read(set_anchors(s, rest), with.last().0, with.last().1, with[i].0);
    if i < rest.len() {
        assert forall|j: int| i < j < rest.len() implies (#[trigger] rest[j]).0 != rest[i].0 by {
            assert(rest[j] == with[j]);
        }
        lemma_anchors_set(s, rest, i);
        assert(with[with.len() - 1].0 != with[i].0);
    }
}

/// A command is refused a place only where it has none, the table is full, and
/// letting go of all that can be let go of leaves it full.
pub proof fn lemma_places_are_refused_for_want_of_room(table: TableView, c: CommandId)
    ensures
        table.expect_refused(c) <==> !table.records.contains_key(c) && table.full()
            && table.reclaimed().full(),
        table.full() <==> (table.capacity matches Some(n) && table.records.dom().len() >= n),
{
}

/// A guard that fails names the first dependency that fails it, and what that
/// dependency lacks.
pub proof fn lemma_guards_name_the_first_failure(
    deps: Seq<CommandId>,
    phases: Phases,
    minimum: Phase,
    i: int,
)
    requires
        0 <= i < deps.len(),
        forall|j: int|
            0 <= j < i ==> phases(#[trigger] deps[j]) is Some && phases(deps[j])->0.rank()
                >= minimum.rank(),
        phases(deps[i]) is None || phases(deps[i])->0.rank() < minimum.rank(),
    ensures
        ({
            let v = first_violation(deps, phases, minimum);
            let dep = deps[i];
            &&& phases(dep) is None ==> v == Some(GuardViolation::DependencyUnknown { dep })
            &&& phases(dep) is Some && minimum == Phase::Accept ==> v == Some(
                GuardViolation::DependencyNotAccepted { dep },
            )
            &&& phases(dep) is Some && minimum == Phase::Commit ==> v == Some(
                GuardViolation::DependencyNotCommitted { dep },
            )
            &&& phases(dep) is Some && minimum == Phase::Executed ==> v == Some(
                GuardViolation::DependencyNotExecuted { dep },
            )
        }),
    decreases deps.len(),
{
    let t = deps.drop_last();
    if i < t.len() {
        assert(t[i] == deps[i]);
        lemma_guards_name_the_first_failure(t, phases, minimum, i);
        crate::phase::lemma_guard_holds(t, phases, minimum);
    } else {
        assert forall|j: int| 0 <= j < t.len() implies phases(#[trigger] t[j]) is Some && phases(
            t[j],
        )->0.rank() >= minimum.rank() by {
            assert(t[j] == deps[j]);
        }
        crate::phase::lemma_guard_holds(t, phases, minimum);
    }
}

} // verus!
