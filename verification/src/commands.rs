//! Command descriptors with atomic initialization, path evidence, bounded
//! capacity and closure traversal.
//!
//! Installing a command's initialized state (payload binding, phase,
//! dependencies, per-key path digests) and exposing it through the
//! conflict index is one transition of [`CommandTable::initialize`]. A
//! descriptor created by early leader evidence ([`CommandTable::expect`])
//! is a placeholder: it is not in the conflict index and reports no
//! phase, so a conflicting command initialized meanwhile cannot see it as
//! processed state and the dependency-phase guards treat it as unknown.
//!
//! Capacity bounds new work: when the table is full, initialization is
//! refused with [`InitError::Backpressure`]; records in ACCEPT or COMMIT
//! are never evicted to make room, only executed records can be retired.
//! [`CommandTable::reclaim`] runs when the table is full and before
//! anything is refused, so backpressure afterwards means that this much
//! work really is outstanding.

use vstd::prelude::*;

use crate::graph::{
    AnchorSeq, ClosureCursor, ClosureProgress, CursorView, Dependencies, PathAnchors, PathLog,
    PathLogView, Walk, answers, combined, combined_path, empty_path, listed_view, no_path,
};
use crate::hash::{HashDomain, is_hash};
use crate::ids::{CommandId, Digest32};
use crate::lists::{copy_list, listed};
use crate::ordered::{Dup, Key, OrdMap, OrdSet, dup_all, in_order, lemma_in_order, views};
use crate::phase::{
    GuardViolation, Phase, Phases, first_violation, guard_accept, guard_commit, guard_execute,
    guard_result, reports,
};

verus! {

/// A command as this replica knows it.
#[derive(Debug, PartialEq, Eq)]
pub struct CommandRecord {
    /// Phase.
    pub phase: Phase,
    /// Direct dependencies (local order until the leader's is adopted).
    pub deps: Vec<CommandId>,
    /// Conflict keys of the payload.
    pub keys: Vec<Vec<u8>>,
    /// Digest of what was bound beside the command identity: the admission
    /// this replica accepted the command under. `None` for a placeholder,
    /// which has bound nothing yet.
    pub payload: Option<Digest32>,
    /// Per-key path digests through this command: the local ones at
    /// initialization, replaced by the leader's once its order is
    /// recorded.
    pub paths: PathAnchors,
    /// Leader sequence number the paths were synchronized at, if the
    /// leader's order has been recorded for this command.
    pub synced_seq: Option<u64>,
    /// Combined path evidence (what a fast acknowledgement carries).
    pub path: Digest32,
}

/// What a record states.
#[verifier::ext_equal]
pub struct RecordView {
    /// Phase.
    pub phase: Phase,
    /// Direct dependencies.
    pub deps: Seq<CommandId>,
    /// Conflict keys of the payload.
    pub keys: Seq<Seq<u8>>,
    /// What was bound beside the identity.
    pub payload: Option<Digest32>,
    /// Per-key path digests through this command.
    pub paths: AnchorSeq,
    /// Leader sequence number the paths were synchronized at.
    pub synced_seq: Option<u64>,
    /// Combined path evidence.
    pub path: Digest32,
}

impl View for CommandRecord {
    type V = RecordView;

    open spec fn view(&self) -> RecordView {
        RecordView {
            phase: self.phase,
            deps: self.deps@,
            keys: views(self.keys@),
            payload: self.payload,
            paths: views(self.paths@),
            synced_seq: self.synced_seq,
            path: self.path,
        }
    }
}

impl Dup for CommandRecord {
    fn dup(&self) -> (r: Self) {
        CommandRecord {
            phase: self.phase,
            deps: copy_list(&self.deps),
            keys: dup_all(&self.keys),
            payload: self.payload,
            paths: dup_all(&self.paths),
            synced_seq: self.synced_seq,
            path: self.path,
        }
    }
}

/// Why initialization did not happen.
#[derive(Clone, Copy, Debug, PartialEq, Eq, Structural)]
pub enum InitError {
    /// The command is already initialized (a duplicate or reordered
    /// message); nothing changed.
    AlreadyInitialized,
    /// A different payload was presented for an initialized command.
    PayloadConflict,
    /// The table is full; new work is refused, nothing is evicted.
    Backpressure,
}

/// Why a record was not retired.
#[derive(Clone, Copy, Debug, PartialEq, Eq, Structural)]
pub enum RetireError {
    /// Unknown command.
    Unknown,
    /// Only executed commands may be retired; unresolved acceptance is
    /// never deleted.
    NotExecuted(Phase),
}

/// What initialization produced.
#[derive(Debug, PartialEq, Eq)]
pub struct Initialized {
    /// Local direct dependencies.
    pub deps: Vec<CommandId>,
    /// Per-key path digests.
    pub paths: PathAnchors,
    /// Combined path evidence.
    pub path: Digest32,
    /// The payload digest that was bound (what this replica's
    /// acknowledgements carry).
    pub payload: Digest32,
}

/// Per-key conflict information.
#[derive(Debug)]
struct KeyState {
    last: Option<CommandId>,
    log: PathLog,
}

/// What the conflict index holds of a key.
#[verifier::ext_equal]
pub struct KeyView {
    /// The last command of the key, unless it was retired.
    pub last: Option<CommandId>,
    /// The key's path log.
    pub log: PathLogView,
}

impl View for KeyState {
    type V = KeyView;

    closed spec fn view(&self) -> KeyView {
        KeyView { last: self.last, log: self.log@ }
    }
}

impl Dup for KeyState {
    fn dup(&self) -> (r: Self) {
        KeyState { last: self.last, log: self.log.dup() }
    }
}

impl KeyView {
    /// A key no command has touched.
    pub open spec fn fresh<H: Fn(HashDomain, Vec<Vec<u8>>) -> Digest32>(hash: H) -> Self {
        KeyView { last: None, log: PathLogView::at(no_path(hash)) }
    }

    /// The key once `c` is retired.
    pub open spec fn without(self, c: CommandId) -> Self {
        KeyView {
            last: if self.last == Some(c) {
                None
            } else {
                self.last
            },
            log: self.log.forgotten(c),
        }
    }
}

/// The command table of one replica in one domain.
#[derive(Debug)]
pub struct CommandTable {
    records: OrdMap<CommandId, CommandRecord>,
    keys: OrdMap<Vec<u8>, KeyState>,
    /// Commands retired after executing: what this replica still
    /// remembers having executed, for the dependency guards.
    executed: OrdSet<CommandId>,
    /// The same commands in the order they were retired, so the oldest
    /// is the one dropped when the memory reaches its bound.
    retired: Vec<CommandId>,
    capacity: Option<usize>,
}

/// What a command table holds.
#[verifier::ext_equal]
pub struct TableView {
    /// Records by command, placeholders included.
    pub records: Map<CommandId, RecordView>,
    /// The conflict index.
    pub keys: Map<Seq<u8>, KeyView>,
    /// Commands remembered as executed and retired.
    pub executed: Set<CommandId>,
    /// The same commands, oldest first.
    pub retired: Seq<CommandId>,
    /// Records the table has room for, if it is bounded.
    pub capacity: Option<usize>,
}

impl View for CommandTable {
    type V = TableView;

    closed spec fn view(&self) -> TableView {
        TableView {
            records: self.records@,
            keys: self.keys@,
            executed: self.executed@,
            retired: self.retired@,
            capacity: self.capacity,
        }
    }
}

/// A step of initialization over a command's keys.
#[verifier::ext_equal]
pub struct Indexing {
    /// The conflict index.
    pub keys: Map<Seq<u8>, KeyView>,
    /// Dependencies found so far.
    pub deps: Seq<CommandId>,
    /// Path digests so far.
    pub paths: AnchorSeq,
}

impl Indexing {
    /// One more key of `c`.
    pub open spec fn entered<H: Fn(HashDomain, Vec<Vec<u8>>) -> Digest32>(
        self,
        hash: H,
        c: CommandId,
        key: Seq<u8>,
    ) -> Self {
        let state = if self.keys.contains_key(key) {
            self.keys[key]
        } else {
            KeyView::fresh(hash)
        };
        let found = state.last is Some && state.last->0 != c && !self.deps.contains(state.last->0);
        Indexing {
            keys: self.keys.insert(
                key,
                KeyView { last: Some(c), log: state.log.appended(hash, c) },
            ),
            deps: if found {
                self.deps.push(state.last->0)
            } else {
                self.deps
            },
            paths: self.paths.push((key, state.log.digest_through(hash, c))),
        }
    }

    /// The keys of `c`, in order.
    pub open spec fn entered_all<H: Fn(HashDomain, Vec<Vec<u8>>) -> Digest32>(
        self,
        hash: H,
        c: CommandId,
        keys: Seq<Seq<u8>>,
    ) -> Self
        decreases keys.len(),
    {
        if keys.len() == 0 {
            self
        } else {
            self.entered_all(hash, c, keys.drop_last()).entered(hash, c, keys.last())
        }
    }
}

/// The anchor of `key` set to `digest`: in place, or at the end.
pub open spec fn set_anchor(s: AnchorSeq, key: Seq<u8>, digest: Digest32) -> AnchorSeq
    decreases s.len(),
{
    if s.len() == 0 {
        seq![(key, digest)]
    } else if s[0].0 == key {
        s.update(0, (key, digest))
    } else {
        seq![s[0]] + set_anchor(s.drop_first(), key, digest)
    }
}

/// Several anchors set, in order.
pub open spec fn set_anchors(s: AnchorSeq, with: AnchorSeq) -> AnchorSeq
    decreases with.len(),
{
    if with.len() == 0 {
        s
    } else {
        set_anchor(set_anchors(s, with.drop_last()), with.last().0, with.last().1)
    }
}

/// The digest of `key`, where it has one.
pub open spec fn anchor_of(s: AnchorSeq, key: Seq<u8>) -> Option<Digest32>
    decreases s.len(),
{
    if s.len() == 0 {
        None
    } else if s[0].0 == key {
        Some(s[0].1)
    } else {
        anchor_of(s.drop_first(), key)
    }
}

/// The conflict index once the leader's order of `c` is known per key.
pub open spec fn synced_keys<H: Fn(HashDomain, Vec<Vec<u8>>) -> Digest32>(
    hash: H,
    keys: Map<Seq<u8>, KeyView>,
    c: CommandId,
    seqnum: u64,
    paths: AnchorSeq,
) -> Map<Seq<u8>, KeyView>
    decreases paths.len(),
{
    if paths.len() == 0 {
        keys
    } else {
        let before = synced_keys(hash, keys, c, seqnum, paths.drop_last());
        let (key, digest) = paths.last();
        let state = if before.contains_key(key) {
            before[key]
        } else {
            KeyView::fresh(hash)
        };
        before.insert(
            key,
            KeyView { last: state.last, log: state.log.synced(hash, c, seqnum, digest) },
        )
    }
}

/// Tombstones within their bound: the oldest go first.
pub open spec fn trimmed(
    retired: Seq<CommandId>,
    executed: Set<CommandId>,
    bound: nat,
) -> (Seq<CommandId>, Set<CommandId>)
    decreases retired.len(),
{
    if retired.len() <= bound {
        (retired, executed)
    } else {
        trimmed(retired.drop_first(), executed.remove(retired[0]), bound)
    }
}

/// Records bound in order, later ones replacing earlier ones.
pub open spec fn bound_in_order(rows: Seq<(CommandId, RecordView)>) -> Map<CommandId, RecordView>
    decreases rows.len(),
{
    if rows.len() == 0 {
        Map::empty()
    } else {
        bound_in_order(rows.drop_last()).insert(rows.last().0, rows.last().1)
    }
}

/// Initialized commands that touch `key`.
pub open spec fn touching(records: Map<CommandId, RecordView>, key: Seq<u8>) -> Set<CommandId> {
    records.dom().filter(
        |c: CommandId| records[c].payload is Some && records[c].keys.contains(key),
    )
}

/// Of those, the ones no other depends on.
pub open spec fn heads(records: Map<CommandId, RecordView>, key: Seq<u8>) -> Set<CommandId> {
    touching(records, key).filter(
        |c: CommandId|
            !exists|m: CommandId|
                touching(records, key).contains(m) && (#[trigger] records[m]).deps.contains(c),
    )
}

/// What the index holds of a key rebuilt from the records: the last head in
/// identity order, and a log resumed at its digest.
pub open spec fn rebuilt_key<H: Fn(HashDomain, Vec<Vec<u8>>) -> Digest32>(
    hash: H,
    records: Map<CommandId, RecordView>,
    key: Seq<u8>,
) -> KeyView {
    let order = in_order::<CommandId>(heads(records, key));
    if order.len() == 0 {
        KeyView::fresh(hash)
    } else {
        let last = order.last();
        let digest = match anchor_of(records[last].paths, key) {
            Some(d) => d,
            None => no_path(hash),
        };
        KeyView { last: Some(last), log: PathLogView::at(digest) }
    }
}

/// The conflict index of a set of records.
pub open spec fn rebuilt_index<H: Fn(HashDomain, Vec<Vec<u8>>) -> Digest32>(
    hash: H,
    records: Map<CommandId, RecordView>,
) -> Map<Seq<u8>, KeyView> {
    Map::new(
        |key: Seq<u8>|
            exists|c: CommandId|
                records.contains_key(c) && (#[trigger] records[c]).payload is Some
                    && records[c].keys.contains(key),
        |key: Seq<u8>| rebuilt_key(hash, records, key),
    )
}

impl TableView {
    /// A table that holds nothing.
    pub open spec fn empty(capacity: Option<usize>) -> Self {
        TableView {
            records: Map::empty(),
            keys: Map::empty(),
            executed: Set::empty(),
            retired: Seq::empty(),
            capacity,
        }
    }

    /// A table rebuilt from rows.
    pub open spec fn restored<H: Fn(HashDomain, Vec<Vec<u8>>) -> Digest32>(
        hash: H,
        capacity: Option<usize>,
        rows: Seq<(CommandId, RecordView)>,
    ) -> Self {
        TableView {
            records: bound_in_order(rows),
            keys: rebuilt_index(hash, bound_in_order(rows)),
            ..TableView::empty(capacity)
        }
    }

    /// `c` is held with its payload.
    pub open spec fn initialized(self, c: CommandId) -> bool {
        self.records.contains_key(c) && self.records[c].payload is Some
    }

    /// Phase of an initialized command; a retired one reports `Executed`.
    pub open spec fn phase_of(self, c: CommandId) -> Option<Phase> {
        if self.records.contains_key(c) {
            if self.records[c].payload is Some {
                Some(self.records[c].phase)
            } else {
                None
            }
        } else if self.executed.contains(c) {
            Some(Phase::Executed)
        } else {
            None
        }
    }

    /// The phases the guards see.
    pub open spec fn phases(self) -> Phases {
        |c: CommandId| self.phase_of(c)
    }

    /// Dependencies as a traversal sees them: a retired command has none
    /// left.
    pub open spec fn dependencies(self) -> Dependencies {
        |c: CommandId|
            if self.records.contains_key(c) {
                if self.records[c].payload is Some {
                    Some(self.records[c].deps)
                } else {
                    None
                }
            } else if self.executed.contains(c) {
                Some(Seq::empty())
            } else {
                None
            }
    }

    /// No room for another record.
    pub open spec fn full(self) -> bool {
        self.capacity is Some && self.records.dom().len() >= self.capacity->0
    }

    /// Commands that executed and are still recorded.
    pub open spec fn retirable(self) -> Set<CommandId> {
        self.records.dom().filter(|c: CommandId| self.records[c].phase == Phase::Executed)
    }

    /// The table once the executed command `c` is retired.
    pub open spec fn retired_one(self, c: CommandId) -> Self {
        let touched = self.records[c].keys;
        let order = if self.executed.contains(c) {
            self.retired
        } else {
            self.retired.push(c)
        };
        let kept = match self.capacity {
            Some(bound) => trimmed(order, self.executed.insert(c), bound as nat),
            None => (order, self.executed.insert(c)),
        };
        TableView {
            records: self.records.remove(c),
            keys: Map::new(
                |k: Seq<u8>| self.keys.contains_key(k),
                |k: Seq<u8>|
                    if touched.contains(k) {
                        self.keys[k].without(c)
                    } else {
                        self.keys[k]
                    },
            ),
            executed: kept.1,
            retired: kept.0,
            capacity: self.capacity,
        }
    }

    /// The table once these commands are retired in turn.
    pub open spec fn retired_all(self, commands: Seq<CommandId>) -> Self
        decreases commands.len(),
    {
        if commands.len() == 0 {
            self
        } else {
            self.retired_all(commands.drop_last()).retired_one(commands.last())
        }
    }

    /// The table once everything that executed is retired.
    pub open spec fn reclaimed(self) -> Self {
        self.retired_all(in_order::<CommandId>(self.retirable()))
    }

    /// The table about to take a new record: reclaimed where it is full.
    pub open spec fn with_room(self) -> Self {
        if self.full() {
            self.reclaimed()
        } else {
            self
        }
    }

    /// A command known by identity only.
    pub open spec fn placeholder<H: Fn(HashDomain, Vec<Vec<u8>>) -> Digest32>(
        hash: H,
    ) -> RecordView {
        RecordView {
            phase: Phase::Start,
            deps: Seq::empty(),
            keys: Seq::empty(),
            payload: None,
            paths: Seq::empty(),
            synced_seq: None,
            path: no_path(hash),
        }
    }

    /// There is no room for a placeholder of `c`.
    pub open spec fn expect_refused(self, c: CommandId) -> bool {
        !self.records.contains_key(c) && self.with_room().full()
    }

    /// The table that knows `c` at least by identity, where there is room.
    pub open spec fn expected<H: Fn(HashDomain, Vec<Vec<u8>>) -> Digest32>(
        self,
        hash: H,
        c: CommandId,
    ) -> Self {
        let room = self.with_room();
        if self.records.contains_key(c) {
            self
        } else if room.full() {
            room
        } else {
            TableView {
                records: room.records.insert(c, TableView::placeholder(hash)),
                ..room
            }
        }
    }

    /// Why `c` cannot be initialized, and the table that is left.
    pub open spec fn init_refusal(self, c: CommandId, payload: Digest32) -> Option<InitError> {
        if self.records.contains_key(c) {
            if self.records[c].payload is None {
                None
            } else if self.records[c].payload == Some(payload) {
                Some(InitError::AlreadyInitialized)
            } else {
                Some(InitError::PayloadConflict)
            }
        } else if self.with_room().full() {
            Some(InitError::Backpressure)
        } else {
            None
        }
    }

    /// The table a new record of `c` goes into.
    pub open spec fn opened(self, c: CommandId) -> Self {
        if self.records.contains_key(c) {
            self
        } else {
            self.with_room()
        }
    }

    /// Dependencies, digests and index of `c` over its keys.
    pub open spec fn indexing<H: Fn(HashDomain, Vec<Vec<u8>>) -> Digest32>(
        self,
        hash: H,
        c: CommandId,
        keys: Seq<Seq<u8>>,
    ) -> Indexing {
        Indexing { keys: self.keys, deps: Seq::empty(), paths: Seq::empty() }.entered_all(
            hash,
            c,
            keys,
        )
    }

    /// The record of `c` when it is initialized.
    pub open spec fn initial_record<H: Fn(HashDomain, Vec<Vec<u8>>) -> Digest32>(
        self,
        hash: H,
        c: CommandId,
        payload: Digest32,
        keys: Seq<Seq<u8>>,
    ) -> RecordView {
        let found = self.indexing(hash, c, keys);
        RecordView {
            phase: Phase::PreAccept,
            deps: found.deps,
            keys,
            payload: Some(payload),
            paths: found.paths,
            synced_seq: None,
            path: combined(hash, found.paths),
        }
    }

    /// The table once `c` is initialized.
    pub open spec fn with_initialized<H: Fn(HashDomain, Vec<Vec<u8>>) -> Digest32>(
        self,
        hash: H,
        c: CommandId,
        payload: Digest32,
        keys: Seq<Seq<u8>>,
    ) -> Self {
        TableView {
            records: self.records.insert(c, self.initial_record(hash, c, payload, keys)),
            keys: self.indexing(hash, c, keys).keys,
            ..self
        }
    }

    /// The table once the leader's order of `c` is recorded.
    pub open spec fn with_leader_path<H: Fn(HashDomain, Vec<Vec<u8>>) -> Digest32>(
        self,
        hash: H,
        c: CommandId,
        seqnum: u64,
        paths: AnchorSeq,
    ) -> Self {
        let newest = self.records.contains_key(c) && (self.records[c].synced_seq is None || seqnum
            >= self.records[c].synced_seq->0);
        TableView {
            keys: synced_keys(hash, self.keys, c, seqnum, paths),
            records: if newest {
                self.records.insert(
                    c,
                    RecordView {
                        synced_seq: Some(seqnum),
                        paths: set_anchors(self.records[c].paths, paths),
                        ..self.records[c]
                    },
                )
            } else {
                self.records
            },
            ..self
        }
    }

    /// `c` is past ACCEPT.
    pub open spec fn past_accept(self, c: CommandId) -> bool {
        self.phase_of(c) is Some && self.phase_of(c)->0.rank() > Phase::Accept.rank()
    }

    /// Why the leader's order of `c` cannot be adopted.
    pub open spec fn accept_violation(self, c: CommandId, deps: Seq<CommandId>) -> Option<
        GuardViolation,
    > {
        if self.past_accept(c) {
            None
        } else {
            let guard = first_violation(deps, self.phases(), Phase::Accept);
            if guard is Some {
                guard
            } else if !self.initialized(c) {
                Some(GuardViolation::DependencyUnknown { dep: c })
            } else {
                None
            }
        }
    }

    /// The table once the leader's order of `c` is adopted.
    pub open spec fn accepted(self, c: CommandId, deps: Seq<CommandId>) -> Self {
        if self.past_accept(c) || self.accept_violation(c, deps) is Some {
            self
        } else {
            TableView {
                records: self.records.insert(
                    c,
                    RecordView { deps, phase: Phase::Accept, ..self.records[c] },
                ),
                ..self
            }
        }
    }

    /// Why the leader's order and evidence of `c` cannot be adopted.
    pub open spec fn adopt_violation(self, c: CommandId, deps: Seq<CommandId>) -> Option<
        GuardViolation,
    > {
        if self.accept_violation(c, deps) is Some {
            self.accept_violation(c, deps)
        } else if !self.initialized(c) {
            Some(GuardViolation::DependencyUnknown { dep: c })
        } else {
            None
        }
    }

    /// The table once the leader's order and evidence of `c` are adopted.
    pub open spec fn adopted(
        self,
        c: CommandId,
        deps: Seq<CommandId>,
        paths: Option<AnchorSeq>,
        path: Digest32,
    ) -> Self {
        if self.adopt_violation(c, deps) is Some {
            self.accepted(c, deps)
        } else {
            let t = self.accepted(c, deps);
            TableView {
                records: t.records.insert(
                    c,
                    RecordView {
                        paths: match paths {
                            Some(p) => p,
                            None => t.records[c].paths,
                        },
                        path,
                        ..t.records[c]
                    },
                ),
                ..t
            }
        }
    }

    /// Why `c` cannot advance to `phase`.
    pub open spec fn advance_violation(self, c: CommandId, phase: Phase) -> Option<
        GuardViolation,
    > {
        if !self.initialized(c) {
            Some(GuardViolation::DependencyUnknown { dep: c })
        } else if self.records[c].phase.rank() >= phase.rank() {
            None
        } else {
            first_violation(self.records[c].deps, self.phases(), phase)
        }
    }

    /// The table once `c` advanced to `phase`.
    pub open spec fn advanced(self, c: CommandId, phase: Phase) -> Self {
        if self.advance_violation(c, phase) is Some || self.records[c].phase.rank()
            >= phase.rank() {
            self
        } else {
            TableView {
                records: self.records.insert(c, RecordView { phase, ..self.records[c] }),
                ..self
            }
        }
    }

    /// The table once `c` is known to have executed.
    pub open spec fn marked_executed(self, c: CommandId) -> Self {
        if self.initialized(c) {
            TableView {
                records: self.records.insert(
                    c,
                    RecordView { phase: Phase::Executed, ..self.records[c] },
                ),
                ..self
            }
        } else {
            self
        }
    }

    /// Why `c` cannot be retired.
    pub open spec fn retire_refusal(self, c: CommandId) -> Option<RetireError> {
        if !self.records.contains_key(c) {
            Some(RetireError::Unknown)
        } else if self.records[c].phase != Phase::Executed {
            Some(RetireError::NotExecuted(self.records[c].phase))
        } else {
            None
        }
    }

    /// The last commands of `keys`, each once, in key order.
    pub open spec fn conflicts(self, keys: Seq<Seq<u8>>) -> Seq<CommandId>
        decreases keys.len(),
    {
        if keys.len() == 0 {
            Seq::empty()
        } else {
            let before = self.conflicts(keys.drop_last());
            let key = keys.last();
            if self.keys.contains_key(key) && self.keys[key].last is Some && !before.contains(
                self.keys[key].last->0,
            ) {
                before.push(self.keys[key].last->0)
            } else {
                before
            }
        }
    }

    /// The records and what they are indexed by agree, and the memory of
    /// retired commands is exact and within its bound.
    pub open spec fn sound(self) -> bool {
        &&& forall|k: Seq<u8>| #[trigger]
            self.keys.contains_key(k) && self.keys[k].last is Some ==> self.initialized(
                self.keys[k].last->0,
            ) && self.records[self.keys[k].last->0].keys.contains(k)
        &&& self.retired.no_duplicates()
        &&& self.executed == self.retired.to_set()
        &&& self.capacity is Some ==> self.retired.len() <= self.capacity->0
    }
}

fn key_index(paths: &PathAnchors, key: &Vec<u8>) -> (r: Option<usize>)
    ensures
        match r {
            Some(i) => i < paths@.len() && views(paths@)[i as int].0 == key@ && forall|j: int|
                0 <= j < i ==> (#[trigger] views(paths@)[j]).0 != key@,
            None => forall|j: int| 0 <= j < paths@.len() ==> (#[trigger] views(paths@)[j]).0
                != key@,
        },
{
    let mut i: usize = 0;
    while i < paths.len()
        invariant
            i <= paths@.len(),
            forall|j: int| 0 <= j < i ==> (#[trigger] views(paths@)[j]).0 != key@,
        decreases paths@.len() - i,
    {
        if crate::bytes::same_bytes(paths[i].0.as_slice(), key.as_slice()) {
            return Some(i);
        }
        i = i + 1;
    }
    None
}

proof fn lemma_set_anchor_at(s: AnchorSeq, key: Seq<u8>, digest: Digest32, i: int)
    requires
        0 <= i < s.len(),
        s[i].0 == key,
        forall|j: int| 0 <= j < i ==> (#[trigger] s[j]).0 != key,
    ensures
        set_anchor(s, key, digest) == s.update(i, (key, digest)),
        anchor_of(s, key) == Some(s[i].1),
    decreases s.len(),
{
    if i > 0 {
        assert(s[0].0 != key);
        let t = s.drop_first();
        assert forall|j: int| 0 <= j < i - 1 implies (#[trigger] t[j]).0 != key by {
            assert(t[j] == s[j + 1]);
        }
        lemma_set_anchor_at(t, key, digest, i - 1);
        assert(s.update(i, (key, digest)) =~= seq![s[0]] + t.update(i - 1, (key, digest)));
    }
}

proof fn lemma_set_anchor_absent(s: AnchorSeq, key: Seq<u8>, digest: Digest32)
    requires
        forall|j: int| 0 <= j < s.len() ==> (#[trigger] s[j]).0 != key,
    ensures
        set_anchor(s, key, digest) == s.push((key, digest)),
        anchor_of(s, key) is None,
    decreases s.len(),
{
    if s.len() > 0 {
        assert(s[0].0 != key);
        let t = s.drop_first();
        assert forall|j: int| 0 <= j < t.len() implies (#[trigger] t[j]).0 != key by {
            assert(t[j] == s[j + 1]);
        }
        lemma_set_anchor_absent(t, key, digest);
        assert(s.push((key, digest)) =~= seq![s[0]] + t.push((key, digest)));
    } else {
        assert(s.push((key, digest)) =~= seq![(key, digest)]);
    }
}

fn put_anchor(paths: &mut PathAnchors, key: &Vec<u8>, digest: Digest32)
    ensures
        views(final(paths)@) == set_anchor(views(old(paths)@), key@, digest),
{
    let ghost before = views(paths@);
    match key_index(paths, key) {
        Some(i) => {
            paths.set(i, (key.dup(), digest));
            proof {
                lemma_set_anchor_at(before, key@, digest, i as int);
                assert(views(paths@) =~= before.update(i as int, (key@, digest)));
            }
        },
        None => {
            paths.push((key.dup(), digest));
            proof {
                lemma_set_anchor_absent(before, key@, digest);
                assert(views(paths@) =~= before.push((key@, digest)));
            }
        },
    }
}

fn find_anchor(paths: &PathAnchors, key: &Vec<u8>) -> (r: Option<Digest32>)
    ensures
        r == anchor_of(views(paths@), key@),
{
    match key_index(paths, key) {
        Some(i) => {
            proof {
                lemma_set_anchor_at(views(paths@), key@, paths@[i as int].1, i as int);
            }
            Some(paths[i].1)
        },
        None => {
            proof {
                lemma_set_anchor_absent(views(paths@), key@, Digest32 { high: 0, low: 0 });
            }
            None
        },
    }
}

fn has_key(keys: &Vec<Vec<u8>>, key: &Vec<u8>) -> (r: bool)
    ensures
        r == views(keys@).contains(key@),
{
    let mut i: usize = 0;
    while i < keys.len()
        invariant
            i <= keys@.len(),
            forall|j: int| 0 <= j < i ==> #[trigger] views(keys@)[j] != key@,
        decreases keys@.len() - i,
    {
        if crate::bytes::same_bytes(keys[i].as_slice(), key.as_slice()) {
            assert(views(keys@)[i as int] == key@);
            return true;
        }
        i = i + 1;
    }
    false
}

impl CommandTable {
    /// Unbounded table.
    pub fn new() -> (r: Self)
        ensures
            r@ == TableView::empty(None),
    {
        CommandTable {
            records: OrdMap::new(),
            keys: OrdMap::new(),
            executed: OrdSet::new(),
            retired: Vec::new(),
            capacity: None,
        }
    }

    /// A table admitting at most `capacity` records (placeholders included).
    pub fn with_capacity(capacity: usize) -> (r: Self)
        ensures
            r@ == TableView::empty(Some(capacity)),
    {
        CommandTable {
            records: OrdMap::new(),
            keys: OrdMap::new(),
            executed: OrdSet::new(),
            retired: Vec::new(),
            capacity: Some(capacity),
        }
    }

    fn full(&self) -> (r: bool)
        ensures
            r == self@.full(),
    {
        match self.capacity {
            Some(c) => self.records.len() >= c,
            None => false,
        }
    }

    /// The record, placeholder included.
    pub fn record(&self, command: &CommandId) -> (r: Option<&CommandRecord>)
        ensures
            r is Some <==> self@.records.contains_key(*command),
            r is Some ==> r->0@ == self@.records[*command],
    {
        self.records.get(command)
    }

    /// Phase of an initialized command; a placeholder reports none. A
    /// retired command still remembered reports `Executed`.
    pub fn phase_of(&self, command: &CommandId) -> (r: Option<Phase>)
        ensures
            r == self@.phase_of(*command),
    {
        match self.records.get(command) {
            Some(record) => match record.payload {
                Some(_) => Some(record.phase),
                None => None,
            },
            None => {
                if self.executed.contains(command) {
                    Some(Phase::Executed)
                } else {
                    None
                }
            },
        }
    }

    /// Whether this table holds `command`'s payload, not merely its
    /// identity.
    pub fn is_initialized(&self, command: &CommandId) -> (r: bool)
        ensures
            r == self@.initialized(*command),
    {
        match self.records.get(command) {
            Some(record) => record.payload.is_some(),
            None => false,
        }
    }

    /// Whether `command` executed here and nothing but that is remembered
    /// of it.
    pub fn forgotten(&self, command: &CommandId) -> (r: bool)
        ensures
            r == (!self@.records.contains_key(*command) && self@.executed.contains(*command)),
    {
        !self.records.contains_key(command) && self.executed.contains(command)
    }

    /// Number of records (placeholders included).
    pub fn len(&self) -> (r: usize)
        ensures
            r == self@.records.dom().len(),
            self@.records.dom().finite(),
    {
        self.records.len()
    }

    /// Whether the table is empty.
    pub fn is_empty(&self) -> (r: bool)
        ensures
            r == (self@.records == Map::<CommandId, RecordView>::empty()),
    {
        self.records.is_empty()
    }

    /// Commands this replica executed and retired, and still remembers
    /// having executed.
    pub fn tombstones(&self) -> (r: &OrdSet<CommandId>)
        ensures
            r@ == self@.executed,
    {
        &self.executed
    }

    /// The path log of `key`, if any command touched it.
    pub fn log(&self, key: &Vec<u8>) -> (r: Option<&PathLog>)
        ensures
            r is Some <==> self@.keys.contains_key(key@),
            r is Some ==> r->0@ == self@.keys[key@].log,
    {
        match self.keys.get(key) {
            Some(state) => Some(&state.log),
            None => None,
        }
    }

    /// Current path head of a key (evidence the next command would carry).
    pub fn path_head<H: Fn(HashDomain, Vec<Vec<u8>>) -> Digest32>(
        &self,
        hash: &H,
        key: &Vec<u8>,
    ) -> (r: Digest32)
        requires
            is_hash(*hash),
        ensures
            r == (if self@.keys.contains_key(key@) {
                self@.keys[key@].log.head
            } else {
                no_path(*hash)
            }),
    {
        match self.keys.get(key) {
            Some(state) => state.log.head(),
            None => empty_path(hash),
        }
    }

    /// The commands with an initialized record, in identity order; `record`
    /// gives each.
    pub fn records(&self) -> (r: Vec<CommandId>)
        ensures
            r@ == in_order::<CommandId>(
                self@.records.dom().filter(|c: CommandId| self@.initialized(c)),
            ),
    {
        let f = |c: CommandId| -> (b: bool)
            ensures
                b == self@.initialized(c),
            { self.is_initialized(&c) };
        self.select(&f, Ghost(|c: CommandId| self@.initialized(c)))
    }

    /// The recorded commands for which `keep` holds, in identity order.
    #[verifier::rlimit(40)]
    fn select<F: Fn(CommandId) -> bool>(
        &self,
        keep: &F,
        Ghost(kept): Ghost<spec_fn(CommandId) -> bool>,
    ) -> (r: Vec<CommandId>)
        requires
            forall|c: CommandId| #[trigger] call_requires(*keep, (c,)),
            forall|c: CommandId, b: bool| #[trigger] call_ensures(*keep, (c,), b) ==> b == kept(c),
        ensures
            r@ == in_order::<CommandId>(self@.records.dom().filter(kept)),
            forall|i: int|
                0 <= i < r@.len() ==> self@.records.contains_key(#[trigger] r@[i]) && kept(r@[i]),
    {
        let n: usize = self.records.len();
        let ghost order = in_order::<CommandId>(self.records@.dom());
        proof {
            lemma_in_order::<CommandId>(self.records@.dom());
        }
        let mut out: Vec<CommandId> = Vec::new();
        let mut i: usize = 0;
        while i < n
            invariant
                i <= n == self.records@.dom().len(),
                order == in_order::<CommandId>(self.records@.dom()),
                order.len() == n,
                crate::ordered::ascending::<CommandId>(order),
                forall|c: CommandId| #[trigger] call_requires(*keep, (c,)),
                forall|c: CommandId, b: bool| #[trigger]
                    call_ensures(*keep, (c,), b) ==> b == kept(c),
                forall|c: CommandId| #[trigger]
                    order.contains(c) <==> self.records@.dom().contains(c),
                crate::ordered::ascending::<CommandId>(out@),
                forall|j: int|
                    0 <= j < out@.len() ==> kept(#[trigger] out@[j]) && exists|k: int|
                        0 <= k < i && #[trigger] order[k] == out@[j],
                forall|k: int| 0 <= k < i && kept(#[trigger] order[k]) ==> out@.contains(order[k]),
            decreases n - i,
        {
            let c = *self.records.key_at(i);
            let ghost before = out@;
            if keep(c) {
                out.push(c);
                proof {
                    assert forall|a: int, b: int| 0 <= a < b < out@.len() implies CommandId::before(
                        #[trigger] out@[a],
                        #[trigger] out@[b],
                    ) by {
                        if b < before.len() {
                            assert(CommandId::before(before[a], before[b]));
                        } else {
                            let k = choose|k: int| 0 <= k < i && #[trigger] order[k] == before[a];
                            assert(CommandId::before(order[k], order[i as int]));
                        }
                    }
                }
            }
            proof {
                assert forall|j: int| 0 <= j < out@.len() implies kept(#[trigger] out@[j])
                    && exists|k: int| 0 <= k < i + 1 && #[trigger] order[k] == out@[j] by {
                    if j < before.len() {
                        let k = choose|k: int| 0 <= k < i && #[trigger] order[k] == before[j];
                        assert(order[k] == out@[j]);
                    } else {
                        assert(order[i as int] == out@[j]);
                    }
                }
                assert forall|k: int| 0 <= k < i + 1 && kept(#[trigger] order[k]) implies out@.contains(
                    order[k],
                ) by {
                    if k < i {
                        let j = choose|j: int| 0 <= j < before.len() && before[j] == order[k];
                        assert(out@[j] == order[k]);
                    } else {
                        assert(out@[before.len() as int] == order[k]);
                    }
                }
            }
            i = i + 1;
        }
        proof {
            let set = self@.records.dom().filter(kept);
            assert forall|x: CommandId| #[trigger] out@.contains(x) <==> set.contains(x) by {
                if out@.contains(x) {
                    let j = choose|j: int| 0 <= j < out@.len() && out@[j] == x;
                    let k = choose|k: int| 0 <= k < n && #[trigger] order[k] == out@[j];
                    assert(order.contains(x));
                }
                if set.contains(x) {
                    assert(order.contains(x));
                    let k = choose|k: int| 0 <= k < order.len() && order[k] == x;
                    assert(kept(order[k]));
                }
            }
            crate::ordered::lemma_is_in_order::<CommandId>(out@, set);
            assert forall|i: int| 0 <= i < out@.len() implies self@.records.contains_key(
                #[trigger] out@[i],
            ) && kept(out@[i]) by {
                assert(out@.contains(out@[i]));
            }
        }
        out
    }

    /// Forget an executed command. Unresolved acceptance is never deleted
    /// for capacity. An executed command needs no successor to order after
    /// it (its effects are complete), so the conflict index stops naming
    /// it; what the table keeps is a tombstone saying that it executed,
    /// so the guards can still answer for it.
    ///
    /// What bounds the memory is recency: the oldest tombstone goes once
    /// there are more of them than the table has room for records. An
    /// unbounded table keeps them all.
    #[verifier::rlimit(40)]
    pub fn retire(&mut self, command: &CommandId) -> (r: Result<(), RetireError>)
        ensures
            match old(self)@.retire_refusal(*command) {
                Some(e) => r == Err::<(), RetireError>(e) && final(self)@ == old(self)@,
                None => r is Ok && final(self)@ == old(self)@.retired_one(*command),
            },
    {
        let touched = match self.records.get(command) {
            None => {
                return Err(RetireError::Unknown);
            },
            Some(record) => {
                if record.phase != Phase::Executed {
                    return Err(RetireError::NotExecuted(record.phase));
                }
                dup_all(&record.keys)
            },
        };
        let ghost before = self@;
        let _ = self.records.remove(command);
        let mut i: usize = 0;
        proof {
            assert(forall|k: Seq<u8>| #[trigger]
                self.keys@.contains_key(k) <==> before.keys.contains_key(k));
        }
        while i < touched.len()
            invariant
                i <= touched@.len(),
                self.executed@ == before.executed,
                self.retired@ == before.retired,
                self.capacity == before.capacity,
                self.records@ == before.records.remove(*command),
                forall|k: Seq<u8>| #[trigger]
                    self.keys@.contains_key(k) <==> before.keys.contains_key(k),
                forall|k: Seq<u8>| #[trigger]
                    self.keys@.contains_key(k) ==> self.keys@[k] == (if exists|j: int|
                        0 <= j < i && #[trigger] views(touched@)[j] == k {
                        before.keys[k].without(*command)
                    } else {
                        before.keys[k]
                    }),
            decreases touched@.len() - i,
        {
            let ghost mid = self.keys@;
            let ghost key = touched@[i as int]@;
            match self.keys.remove(&touched[i]) {
                Some(mut state) => {
                    if let Some(last) = state.last {
                        if last == *command {
                            state.last = None;
                        }
                    }
                    state.log.forget(command);
                    self.keys.insert(touched[i].dup(), state);
                    proof {
                        assert(self.keys@[key] == mid[key].without(*command));
                    }
                },
                None => {},
            }
            proof {
                assert(views(touched@)[i as int] == key);
                assert forall|k: Seq<u8>| #[trigger] self.keys@.contains_key(k) implies self.keys@[k]
                    == (if exists|j: int| 0 <= j < i + 1 && #[trigger] views(touched@)[j] == k {
                    before.keys[k].without(*command)
                } else {
                    before.keys[k]
                }) by {
                    assert(mid.contains_key(k));
                    if k == key {
                        assert(before.keys[k].without(*command).without(*command)
                            =~= before.keys[k].without(*command));
                    } else if exists|j: int| 0 <= j < i && #[trigger] views(touched@)[j] == k {
                        let j = choose|j: int| 0 <= j < i && #[trigger] views(touched@)[j] == k;
                        assert(views(touched@)[j] == k);
                    }
                }
            }
            i = i + 1;
        }
        if self.executed.insert(*command) {
            self.retired.push(*command);
        }
        let ghost order = self.retired@;
        let ghost memory = self.executed@;
        if let Some(bound) = self.capacity {
            while self.retired.len() > bound
                invariant
                    self.capacity == Some(bound),
                    self.capacity == before.capacity,
                    self.records@ == before.records.remove(*command),
                    forall|k: Seq<u8>| #[trigger]
                        self.keys@.contains_key(k) <==> before.keys.contains_key(k),
                    forall|k: Seq<u8>| #[trigger]
                        self.keys@.contains_key(k) ==> self.keys@[k] == (if exists|j: int|
                            0 <= j < touched@.len() && #[trigger] views(touched@)[j] == k {
                            before.keys[k].without(*command)
                        } else {
                            before.keys[k]
                        }),
                    trimmed(self.retired@, self.executed@, bound as nat) == trimmed(
                        order,
                        memory,
                        bound as nat,
                    ),
                decreases self.retired@.len(),
            {
                let ghost r = self.retired@;
                let oldest = self.retired.remove(0);
                self.executed.remove(&oldest);
                proof {
                    assert(self.retired@ =~= r.drop_first());
                }
            }
        }
        proof {
            let goal = before.retired_one(*command);
            assert forall|k: Seq<u8>| #[trigger] self.keys@.contains_key(k) implies self.keys@[k]
                == goal.keys[k] by {
                let all = views(touched@);
                if exists|j: int| 0 <= j < touched@.len() && #[trigger] all[j] == k {
                    let j = choose|j: int| 0 <= j < touched@.len() && #[trigger] all[j] == k;
                    assert(all.contains(k));
                } else {
                    assert(!all.contains(k)) by {
                        if all.contains(k) {
                            let j = choose|j: int| 0 <= j < all.len() && all[j] == k;
                            assert(all[j] == k);
                        }
                    }
                }
            }
            assert(self.keys@ =~= goal.keys);
        }
        Ok(())
    }

    fn in_phase(&self, c: &CommandId, phase: Phase) -> (r: bool)
        ensures
            r == (self@.records.contains_key(*c) && self@.records[*c].phase == phase),
    {
        match self.records.get(c) {
            Some(record) => record.phase == phase,
            None => false,
        }
    }

    /// Recorded commands that executed, in identity order.
    fn executed_commands(&self) -> (r: Vec<CommandId>)
        ensures
            r@ == in_order::<CommandId>(self@.retirable()),
            self@.retirable().finite(),
    {
        let f = |c: CommandId| -> (b: bool)
            ensures
                b == (self@.records.contains_key(c) && self@.records[c].phase == Phase::Executed),
            { self.in_phase(&c, Phase::Executed) };
        let ghost kept = |c: CommandId|
            self@.records.contains_key(c) && self@.records[c].phase == Phase::Executed;
        let r = self.select(&f, Ghost(kept));
        let _ = self.records.len();
        proof {
            assert(self@.records.dom().filter(kept) =~= self@.retirable());
        }
        r
    }

    /// Retire every executed record, and say how many went.
    ///
    /// This is the only thing that ever makes room. Nothing unresolved is
    /// touched: a record in START, PRE-ACCEPT, ACCEPT or COMMIT is work
    /// this replica still owes, and evicting one to serve a newer command
    /// would lose an obligation rather than shed load.
    pub fn reclaim(&mut self) -> (r: usize)
        ensures
            final(self)@ == old(self)@.reclaimed(),
            r == old(self)@.retirable().len(),
    {
        let ghost before = self@;
        let commands = self.executed_commands();
        proof {
            lemma_in_order::<CommandId>(before.retirable());
            assert forall|k: int| 0 <= k < commands@.len() implies before.retirable().contains(
                #[trigger] commands@[k],
            ) by {
                assert(commands@.contains(commands@[k]));
            }
        }
        let mut i: usize = 0;
        while i < commands.len()
            invariant
                i <= commands@.len(),
                commands@ == in_order::<CommandId>(before.retirable()),
                commands@.no_duplicates(),
                forall|k: int|
                    0 <= k < commands@.len() ==> before.retirable().contains(
                        #[trigger] commands@[k],
                    ),
                self@ == before.retired_all(commands@.take(i as int)),
                forall|k: int|
                    i <= k < commands@.len() ==> self@.retire_refusal(#[trigger] commands@[k])
                        is None,
            decreases commands@.len() - i,
        {
            let ghost mid = self@;
            let _ = self.retire(&commands[i]);
            proof {
                assert(commands@.take(i + 1).drop_last() =~= commands@.take(i as int));
                assert forall|k: int| i + 1 <= k < commands@.len() implies self@.retire_refusal(
                    #[trigger] commands@[k],
                ) is None by {
                    assert(mid.retire_refusal(commands@[k]) is None);
                    assert(commands@[k] != commands@[i as int]);
                }
            }
            i = i + 1;
        }
        proof {
            assert(commands@.take(commands@.len() as int) =~= commands@);
        }
        commands.len()
    }

    /// Whether the table is full after reclaiming what it may.
    fn full_after_reclaim(&mut self) -> (r: bool)
        ensures
            final(self)@ == old(self)@.with_room(),
            r == old(self)@.with_room().full(),
    {
        if !self.full() {
            return false;
        }
        let _ = self.reclaim();
        self.full()
    }

    /// Make room for a record of `command`, and say whether there is none.
    pub(crate) fn open_for(&mut self, command: &CommandId) -> (r: bool)
        ensures
            final(self)@ == old(self)@.opened(*command),
            r == (!old(self)@.records.contains_key(*command) && old(self)@.with_room().full()),
    {
        if self.records.contains_key(command) {
            return false;
        }
        self.full_after_reclaim()
    }

    /// Create a placeholder for a command known by identity only (leader
    /// evidence arrived before the payload). Idempotent; never changes an
    /// initialized record. Refused under backpressure.
    pub fn expect<H: Fn(HashDomain, Vec<Vec<u8>>) -> Digest32>(
        &mut self,
        hash: &H,
        command: CommandId,
    ) -> (r: Result<(), InitError>)
        requires
            is_hash(*hash),
        ensures
            final(self)@ == old(self)@.expected(*hash, command),
            r == (if old(self)@.expect_refused(command) {
                Err::<(), InitError>(InitError::Backpressure)
            } else {
                Ok(())
            }),
    {
        if self.records.contains_key(&command) {
            return Ok(());
        }
        if self.full_after_reclaim() {
            return Err(InitError::Backpressure);
        }
        let record = CommandRecord {
            phase: Phase::Start,
            deps: Vec::new(),
            keys: Vec::new(),
            payload: None,
            paths: Vec::new(),
            synced_seq: None,
            path: empty_path(hash),
        };
        proof {
            assert(record@ =~= TableView::placeholder(*hash));
        }
        self.records.insert(command, record);
        Ok(())
    }

    /// Bind the payload, compute the local dependencies and path digests
    /// from the conflict index and publish the command in the index,
    /// atomically. A repeated initialization with the same payload is
    /// `AlreadyInitialized` and changes nothing.
    #[verifier::rlimit(40)]
    pub fn initialize<H: Fn(HashDomain, Vec<Vec<u8>>) -> Digest32>(
        &mut self,
        hash: &H,
        command: CommandId,
        payload: Digest32,
        keys: Vec<Vec<u8>>,
    ) -> (r: Result<Initialized, InitError>)
        requires
            is_hash(*hash),
        ensures
            match old(self)@.init_refusal(command, payload) {
                Some(e) => r == Err::<Initialized, InitError>(e) && final(self)@ == old(
                    self,
                )@.opened(command),
                None => {
                    let room = old(self)@.opened(command);
                    let record = room.initial_record(*hash, command, payload, views(keys@));
                    &&& final(self)@ == room.with_initialized(*hash, command, payload, views(keys@))
                    &&& r matches Ok(done)
                    &&& done.deps@ == record.deps
                    &&& views(done.paths@) == record.paths
                    &&& done.path == record.path
                    &&& done.payload == payload
                },
            },
    {
        match self.records.get(&command) {
            Some(existing) => {
                if let Some(held) = existing.payload {
                    return Err(
                        if held == payload {
                            InitError::AlreadyInitialized
                        } else {
                            InitError::PayloadConflict
                        },
                    );
                }
            },
            None => {
                if self.full_after_reclaim() {
                    return Err(InitError::Backpressure);
                }
            },
        }
        let ghost room = self@;
        let ghost start = Indexing { keys: room.keys, deps: Seq::empty(), paths: Seq::empty() };
        let mut deps: Vec<CommandId> = Vec::new();
        let mut paths: PathAnchors = Vec::new();
        let mut i: usize = 0;
        proof {
            assert(views(paths@) =~= Seq::<(Seq<u8>, Digest32)>::empty());
        }
        while i < keys.len()
            invariant
                i <= keys@.len(),
                is_hash(*hash),
                self.records@ == room.records,
                self.executed@ == room.executed,
                self.retired@ == room.retired,
                self.capacity == room.capacity,
                (Indexing { keys: self.keys@, deps: deps@, paths: views(paths@) })
                    == start.entered_all(*hash, command, views(keys@).take(i as int)),
            decreases keys@.len() - i,
        {
            let ghost here = Indexing { keys: self.keys@, deps: deps@, paths: views(paths@) };
            let ghost key = keys@[i as int]@;
            let state = match self.keys.remove(&keys[i]) {
                Some(state) => state,
                None => KeyState { last: None, log: PathLog::new(hash) },
            };
            let KeyState { last, mut log } = state;
            if let Some(last) = last {
                if last != command && !listed(&deps, &last) {
                    deps.push(last);
                }
            }
            let digest = log.append(hash, command);
            self.keys.insert(keys[i].dup(), KeyState { last: Some(command), log });
            let ghost done = paths@;
            paths.push((keys[i].dup(), digest));
            proof {
                assert(views(keys@).take(i + 1).drop_last() =~= views(keys@).take(i as int));
                assert(views(keys@).take(i + 1).last() == key);
                assert(views(paths@) =~= views(done).push((key, digest)));
                let goal = here.entered(*hash, command, key);
                assert(self.keys@ =~= goal.keys);
                assert(deps@ =~= goal.deps);
                assert(views(paths@) =~= goal.paths);
            }
            i = i + 1;
        }
        proof {
            assert(views(keys@).take(keys@.len() as int) =~= views(keys@));
        }
        let path = combined_path(hash, &paths);
        let record = CommandRecord {
            phase: Phase::PreAccept,
            deps: copy_list(&deps),
            keys,
            payload: Some(payload),
            paths: dup_all(&paths),
            synced_seq: None,
            path,
        };
        self.records.insert(command, record);
        Ok(Initialized { deps, paths, path, payload })
    }

    /// The leader ordered `command` at `seqnum` with these per-key path
    /// digests: align this replica's logs so later commands' paths follow
    /// the leader's order.
    #[verifier::rlimit(40)]
    pub fn record_leader_path<H: Fn(HashDomain, Vec<Vec<u8>>) -> Digest32>(
        &mut self,
        hash: &H,
        command: CommandId,
        seqnum: u64,
        paths: &PathAnchors,
    )
        requires
            is_hash(*hash),
        ensures
            final(self)@ == old(self)@.with_leader_path(*hash, command, seqnum, views(paths@)),
    {
        let ghost before = self@;
        let ghost all = views(paths@);
        let mut i: usize = 0;
        while i < paths.len()
            invariant
                i <= paths@.len(),
                is_hash(*hash),
                all == views(paths@),
                self.records@ == before.records,
                self.executed@ == before.executed,
                self.retired@ == before.retired,
                self.capacity == before.capacity,
                self.keys@ == synced_keys(
                    *hash,
                    before.keys,
                    command,
                    seqnum,
                    all.take(i as int),
                ),
            decreases paths@.len() - i,
        {
            let state = match self.keys.remove(&paths[i].0) {
                Some(state) => state,
                None => KeyState { last: None, log: PathLog::new(hash) },
            };
            let KeyState { last, mut log } = state;
            log.sync(hash, command, seqnum, paths[i].1);
            self.keys.insert(paths[i].0.dup(), KeyState { last, log });
            proof {
                assert(all.take(i + 1).drop_last() =~= all.take(i as int));
                assert(all.take(i + 1).last() == paths@[i as int]@);
                assert(self.keys@ =~= synced_keys(
                    *hash,
                    before.keys,
                    command,
                    seqnum,
                    all.take(i + 1),
                ));
            }
            i = i + 1;
        }
        proof {
            assert(all.take(all.len() as int) =~= all);
        }
        // Record the synchronized anchors so the durable row written when
        // the order is adopted carries them.
        let newest = match self.records.get(&command) {
            Some(record) => match record.synced_seq {
                None => true,
                Some(s) => seqnum >= s,
            },
            None => false,
        };
        if newest {
            if let Some(mut record) = self.records.remove(&command) {
                record.synced_seq = Some(seqnum);
                let mut j: usize = 0;
                let ghost held = before.records[command];
                while j < paths.len()
                    invariant
                        j <= paths@.len(),
                        all == views(paths@),
                        record@ == (RecordView {
                            synced_seq: Some(seqnum),
                            paths: set_anchors(held.paths, all.take(j as int)),
                            ..held
                        }),
                    decreases paths@.len() - j,
                {
                    put_anchor(&mut record.paths, &paths[j].0, paths[j].1);
                    proof {
                        assert(all.take(j + 1).drop_last() =~= all.take(j as int));
                        assert(all.take(j + 1).last() == paths@[j as int]@);
                    }
                    j = j + 1;
                }
                self.records.insert(command, record);
                proof {
                    assert(self.records@ =~= before.with_leader_path(
                        *hash,
                        command,
                        seqnum,
                        all,
                    ).records);
                }
            }
        }
    }

    /// Conflicting commands for `keys` as the index sees them now.
    pub fn conflicts(&self, keys: &Vec<Vec<u8>>) -> (r: Vec<CommandId>)
        ensures
            r@ == self@.conflicts(views(keys@)),
    {
        let ghost all = views(keys@);
        let mut out: Vec<CommandId> = Vec::new();
        let mut i: usize = 0;
        while i < keys.len()
            invariant
                i <= keys@.len(),
                all == views(keys@),
                out@ == self@.conflicts(all.take(i as int)),
            decreases keys@.len() - i,
        {
            proof {
                assert(all.take(i + 1).drop_last() =~= all.take(i as int));
                assert(all.take(i + 1).last() == keys@[i as int]@);
            }
            if let Some(state) = self.keys.get(&keys[i]) {
                if let Some(last) = state.last {
                    if !listed(&out, &last) {
                        out.push(last);
                    }
                }
            }
            i = i + 1;
        }
        proof {
            assert(all.take(all.len() as int) =~= all);
        }
        out
    }

    pub(crate) fn check_accept(&self, deps: &Vec<CommandId>) -> (r: Result<(), GuardViolation>)
        ensures
            r == guard_result(first_violation(deps@, self@.phases(), Phase::Accept)),
    {
        let f = |c: CommandId| -> (p: Option<Phase>)
            ensures
                p == self@.phase_of(c),
            { self.phase_of(&c) };
        proof {
            assert(reports(f, self@.phases()));
        }
        guard_accept(deps, &f)
    }

    pub(crate) fn check_commit(&self, deps: &Vec<CommandId>) -> (r: Result<(), GuardViolation>)
        ensures
            r == guard_result(first_violation(deps@, self@.phases(), Phase::Commit)),
    {
        let f = |c: CommandId| -> (p: Option<Phase>)
            ensures
                p == self@.phase_of(c),
            { self.phase_of(&c) };
        proof {
            assert(reports(f, self@.phases()));
        }
        guard_commit(deps, &f)
    }

    pub(crate) fn check_execute(&self, deps: &Vec<CommandId>) -> (r: Result<(), GuardViolation>)
        ensures
            r == guard_result(first_violation(deps@, self@.phases(), Phase::Executed)),
    {
        let f = |c: CommandId| -> (p: Option<Phase>)
            ensures
                p == self@.phase_of(c),
            { self.phase_of(&c) };
        proof {
            assert(reports(f, self@.phases()));
        }
        guard_execute(deps, &f)
    }

    /// Adopt the leader's order for an initialized command (ACCEPT), under
    /// the guard.
    ///
    /// Phases only advance: a delayed or duplicate ACCEPT for a command
    /// already committed or executed is idempotent and changes neither
    /// the phase nor the dependencies the later phase was reached with.
    pub fn accept(&mut self, command: CommandId, deps: Vec<CommandId>) -> (r: Result<
        (),
        GuardViolation,
    >)
        ensures
            r == guard_result(old(self)@.accept_violation(command, deps@)),
            final(self)@ == old(self)@.accepted(command, deps@),
    {
        if let Some(p) = self.phase_of(&command) {
            if p.step() > Phase::Accept.step() {
                return Ok(());
            }
        }
        match self.check_accept(&deps) {
            Err(v) => {
                return Err(v);
            },
            Ok(()) => {},
        }
        if !self.is_initialized(&command) {
            return Err(GuardViolation::DependencyUnknown { dep: command });
        }
        if let Some(mut record) = self.records.remove(&command) {
            record.deps = deps;
            record.phase = Phase::Accept;
            self.records.insert(command, record);
        }
        proof {
            assert(self.records@ =~= old(self)@.accepted(command, deps@).records);
        }
        Ok(())
    }

    /// Adopt the leader's order and path evidence for a command
    /// ([`CommandTable::accept`] plus the evidence the proposal or Sync
    /// entry carried): from then on the record reports the leader's path,
    /// which a later recovery compares fast-set evidence against.
    pub fn adopt(
        &mut self,
        command: CommandId,
        deps: Vec<CommandId>,
        paths: Option<&PathAnchors>,
        path: Digest32,
    ) -> (r: Result<(), GuardViolation>)
        ensures
            r == guard_result(old(self)@.adopt_violation(command, deps@)),
            final(self)@ == old(self)@.adopted(
                command,
                deps@,
                match paths {
                    Some(p) => Some(views(p@)),
                    None => None,
                },
                path,
            ),
    {
        match self.accept(command, deps) {
            Err(v) => {
                return Err(v);
            },
            Ok(()) => {},
        }
        if !self.is_initialized(&command) {
            return Err(GuardViolation::DependencyUnknown { dep: command });
        }
        if let Some(mut record) = self.records.remove(&command) {
            if let Some(p) = paths {
                record.paths = dup_all(p);
            }
            record.path = path;
            self.records.insert(command, record);
        }
        proof {
            let goal = old(self)@.adopted(
                command,
                deps@,
                match paths {
                    Some(p) => Some(views(p@)),
                    None => None,
                },
                path,
            );
            assert(self.records@ =~= goal.records);
        }
        Ok(())
    }

    /// Mark a learned command (COMMIT), under the guard. Idempotent for a
    /// command already committed or executed.
    pub fn commit(&mut self, command: CommandId) -> (r: Result<(), GuardViolation>)
        ensures
            r == guard_result(old(self)@.advance_violation(command, Phase::Commit)),
            final(self)@ == old(self)@.advanced(command, Phase::Commit),
    {
        match self.records.get(&command) {
            Some(record) => {
                if record.payload.is_none() {
                    return Err(GuardViolation::DependencyUnknown { dep: command });
                }
                if record.phase.at_least(Phase::Commit) {
                    return Ok(());
                }
                match self.check_commit(&record.deps) {
                    Err(v) => {
                        return Err(v);
                    },
                    Ok(()) => {},
                }
            },
            None => {
                return Err(GuardViolation::DependencyUnknown { dep: command });
            },
        }
        if let Some(mut record) = self.records.remove(&command) {
            record.phase = Phase::Commit;
            self.records.insert(command, record);
        }
        proof {
            assert(self.records@ =~= old(self)@.advanced(command, Phase::Commit).records);
        }
        Ok(())
    }

    /// Mark an executed command, under the guard. Idempotent for a command
    /// already executed.
    pub fn execute(&mut self, command: CommandId) -> (r: Result<(), GuardViolation>)
        ensures
            r == guard_result(old(self)@.advance_violation(command, Phase::Executed)),
            final(self)@ == old(self)@.advanced(command, Phase::Executed),
    {
        match self.records.get(&command) {
            Some(record) => {
                if record.payload.is_none() {
                    return Err(GuardViolation::DependencyUnknown { dep: command });
                }
                if record.phase.at_least(Phase::Executed) {
                    return Ok(());
                }
                match self.check_execute(&record.deps) {
                    Err(v) => {
                        return Err(v);
                    },
                    Ok(()) => {},
                }
            },
            None => {
                return Err(GuardViolation::DependencyUnknown { dep: command });
            },
        }
        if let Some(mut record) = self.records.remove(&command) {
            record.phase = Phase::Executed;
            self.records.insert(command, record);
        }
        proof {
            assert(self.records@ =~= old(self)@.advanced(command, Phase::Executed).records);
        }
        Ok(())
    }

    /// Mark a command executed from durable evidence (its executed identity
    /// row) without consulting the guards: the materializer already applied
    /// it at its position. Unknown commands are ignored.
    pub fn restore_executed(&mut self, command: &CommandId)
        ensures
            final(self)@ == old(self)@.marked_executed(*command),
    {
        if self.is_initialized(command) {
            if let Some(mut record) = self.records.remove(command) {
                record.phase = Phase::Executed;
                self.records.insert(*command, record);
            }
            proof {
                assert(self.records@ =~= old(self)@.marked_executed(*command).records);
            }
        }
    }

    /// Start an exact closure traversal from an initialized command.
    pub fn closure_start(&self, root: CommandId) -> (r: Result<ClosureCursor, GuardViolation>)
        ensures
            match r {
                Ok(cursor) => self@.initialized(root) && cursor.wf() && cursor@
                    == CursorView::starting(root, self@.records[root].deps),
                Err(v) => !self@.initialized(root) && v == (GuardViolation::DependencyUnknown {
                    dep: root,
                }),
            },
    {
        match self.records.get(&root) {
            Some(record) => {
                if record.payload.is_some() {
                    Ok(ClosureCursor::start(root, &record.deps))
                } else {
                    Err(GuardViolation::DependencyUnknown { dep: root })
                }
            },
            None => Err(GuardViolation::DependencyUnknown { dep: root }),
        }
    }

    fn dependencies(&self, c: &CommandId) -> (r: Option<Vec<CommandId>>)
        ensures
            listed_view(r) == (self@.dependencies())(*c),
    {
        match self.records.get(c) {
            Some(record) => {
                if record.payload.is_some() {
                    Some(copy_list(&record.deps))
                } else {
                    None
                }
            },
            None => {
                if self.executed.contains(c) {
                    let none: Vec<CommandId> = Vec::new();
                    Some(none)
                } else {
                    None
                }
            },
        }
    }

    /// Advance a traversal by at most `budget` visits; a placeholder or
    /// unknown dependency stops it as `DependencyUnknown`.
    pub fn closure_step(&self, cursor: ClosureCursor, budget: usize) -> (r: Result<
        ClosureProgress,
        GuardViolation,
    >)
        requires
            cursor.wf(),
        ensures
            match r {
                Ok(ClosureProgress::Continue(next)) => next.wf() && cursor@.walk(
                    budget as nat,
                    self@.dependencies(),
                ) == Walk::Continue(next@),
                Ok(ClosureProgress::Complete(closure)) => cursor@.walk(
                    budget as nat,
                    self@.dependencies(),
                ) == Walk::Complete(closure@),
                Err(v) => v is DependencyUnknown && cursor@.walk(
                    budget as nat,
                    self@.dependencies(),
                ) == Walk::Missing(v->DependencyUnknown_dep),
            },
    {
        let f = |c: CommandId| -> (v: Option<Vec<CommandId>>)
            ensures
                listed_view(v) == (self@.dependencies())(c),
            { self.dependencies(&c) };
        proof {
            assert(answers(f, self@.dependencies()));
        }
        match cursor.step(budget, &f) {
            Ok(progress) => Ok(progress),
            Err(dep) => Err(GuardViolation::DependencyUnknown { dep }),
        }
    }
}

fn touching_set(records: &OrdMap<CommandId, CommandRecord>, key: &Vec<u8>) -> (r: OrdSet<CommandId>)
    ensures
        r@ == touching(records@, key@),
        r@.finite(),
{
    let n: usize = records.len();
    let ghost order = in_order::<CommandId>(records@.dom());
    let ghost goal = touching(records@, key@);
    proof {
        lemma_in_order::<CommandId>(records@.dom());
    }
    let mut out: OrdSet<CommandId> = OrdSet::new();
    let mut i: usize = 0;
    proof {
        assert(out@ =~= goal.intersect(order.take(0).to_set()));
    }
    while i < n
        invariant
            i <= n == records@.dom().len(),
            order == in_order::<CommandId>(records@.dom()),
            order.len() == n,
            goal == touching(records@, key@),
            out@ == goal.intersect(order.take(i as int).to_set()),
        decreases n - i,
    {
        let c = *records.key_at(i);
        let record = records.value_at(i);
        if record.payload.is_some() && has_key(&record.keys, key) {
            out.insert(c);
        }
        proof {
            crate::ordered::lemma_take_set(order, i as int);
            assert(out@ =~= goal.intersect(order.take(i + 1).to_set()));
        }
        i = i + 1;
    }
    proof {
        assert(order.take(n as int) =~= order);
        assert(out@ =~= goal) by {
            assert forall|c: CommandId| goal.contains(c) implies order.to_set().contains(c) by {
                assert(order.contains(c));
            }
        }
    }
    let _ = out.len();
    out
}

/// A command some member depends on.
spec fn depended(records: Map<CommandId, RecordView>, members: Set<CommandId>, d: CommandId) -> bool {
    exists|m: CommandId| members.contains(m) && (#[trigger] records[m]).deps.contains(d)
}

fn is_depended(
    records: &OrdMap<CommandId, CommandRecord>,
    members: &OrdSet<CommandId>,
    d: &CommandId,
) -> (r: bool)
    requires
        members@.subset_of(records@.dom()),
    ensures
        r == depended(records@, members@, *d),
{
    let n: usize = members.len();
    let ghost order = in_order::<CommandId>(members@);
    proof {
        lemma_in_order::<CommandId>(members@);
    }
    let mut i: usize = 0;
    while i < n
        invariant
            i <= n == members@.len(),
            order == in_order::<CommandId>(members@),
            order.len() == n,
            members@.subset_of(records@.dom()),
            forall|j: int| 0 <= j < i ==> !records@[#[trigger] order[j]].deps.contains(*d),
        decreases n - i,
    {
        let m = members.at(i);
        if let Some(record) = records.get(m) {
            if listed(&record.deps, d) {
                proof {
                    assert(records@[*m].deps.contains(*d));
                }
                return true;
            }
        }
        i = i + 1;
    }
    proof {
        if depended(records@, members@, *d) {
            let m = choose|m: CommandId|
                members@.contains(m) && (#[trigger] records@[m]).deps.contains(*d);
            assert(order.contains(m));
            let j = choose|j: int| 0 <= j < order.len() && order[j] == m;
            assert(!records@[order[j]].deps.contains(*d));
        }
    }
    false
}

/// The last head of `key` in identity order.
#[verifier::rlimit(40)]
fn last_head(records: &OrdMap<CommandId, CommandRecord>, key: &Vec<u8>) -> (r: Option<CommandId>)
    ensures
        ({
            let order = in_order::<CommandId>(heads(records@, key@));
            match r {
                Some(c) => order.len() > 0 && order.last() == c && records@.contains_key(c),
                None => order.len() == 0,
            }
        }),
{
    let members = touching_set(records, key);
    let ghost goal = heads(records@, key@);
    let n: usize = members.len();
    let ghost order = in_order::<CommandId>(members@);
    proof {
        lemma_in_order::<CommandId>(members@);
        assert(goal.finite());
        lemma_in_order::<CommandId>(goal);
    }
    let mut last: Option<CommandId> = None;
    let mut i: usize = 0;
    while i < n
        invariant
            i <= n == members@.len(),
            order == in_order::<CommandId>(members@),
            order.len() == n,
            crate::ordered::ascending::<CommandId>(order),
            members@ == touching(records@, key@),
            goal == heads(records@, key@),
            last is None ==> forall|j: int| 0 <= j < i ==> !goal.contains(#[trigger] order[j]),
            last is Some ==> goal.contains(last->0) && exists|k: int|
                0 <= k < i && #[trigger] order[k] == last->0 && forall|j: int|
                    k < j < i ==> !goal.contains(#[trigger] order[j]),
        decreases n - i,
    {
        let c = *members.at(i);
        if !is_depended(records, &members, &c) {
            last = Some(c);
            proof {
                assert(goal.contains(c));
                assert(order[i as int] == c);
            }
        } else {
            proof {
                assert(!goal.contains(c));
                if last is Some {
                    let k = choose|k: int|
                        0 <= k < i && #[trigger] order[k] == last->0 && forall|j: int|
                            k < j < i ==> !goal.contains(#[trigger] order[j]);
                    assert(order[k] == last->0);
                    assert forall|j: int| k < j < i + 1 implies !goal.contains(
                        #[trigger] order[j],
                    ) by {}
                }
            }
        }
        i = i + 1;
    }
    proof {
        let heads_order = in_order::<CommandId>(goal);
        match last {
            None => {
                if heads_order.len() > 0 {
                    let x = heads_order[0];
                    assert(heads_order.contains(x));
                    assert(order.contains(x));
                    let j = choose|j: int| 0 <= j < order.len() && order[j] == x;
                    assert(!goal.contains(order[j]));
                }
            },
            Some(c) => {
                assert(heads_order.contains(c));
                let x = heads_order.last();
                let m = heads_order.len() - 1;
                assert(heads_order[m] == x);
                assert(heads_order.contains(x));
                if x != c {
                    let p = choose|p: int| 0 <= p < heads_order.len() && heads_order[p] == c;
                    assert(CommandId::before(heads_order[p], heads_order[m]));
                    let k = choose|k: int|
                        0 <= k < n && #[trigger] order[k] == c && forall|j: int|
                            k < j < n ==> !goal.contains(#[trigger] order[j]);
                    assert(order.contains(x));
                    let j = choose|j: int| 0 <= j < order.len() && order[j] == x;
                    if j > k {
                        assert(!goal.contains(order[j]));
                    } else if j < k {
                        assert(CommandId::before(order[j], order[k]));
                        CommandId::transitive(c, x, c);
                        CommandId::irreflexive(c);
                    }
                }
            },
        }
    }
    last
}

fn rebuild_key<H: Fn(HashDomain, Vec<Vec<u8>>) -> Digest32>(
    hash: &H,
    records: &OrdMap<CommandId, CommandRecord>,
    key: &Vec<u8>,
) -> (r: KeyState)
    requires
        is_hash(*hash),
    ensures
        r@ == rebuilt_key(*hash, records@, key@),
{
    match last_head(records, key) {
        Some(last) => {
            let digest = match records.get(&last) {
                Some(record) => match find_anchor(&record.paths, key) {
                    Some(d) => d,
                    None => empty_path(hash),
                },
                None => empty_path(hash),
            };
            KeyState { last: Some(last), log: PathLog::resumed(digest) }
        },
        None => KeyState { last: None, log: PathLog::new(hash) },
    }
}

/// Keys touched by initialized commands.
spec fn touched_by(records: Map<CommandId, RecordView>, c: CommandId, key: Seq<u8>) -> bool {
    records.contains_key(c) && records[c].payload is Some && records[c].keys.contains(key)
}

fn touched_keys(records: &OrdMap<CommandId, CommandRecord>) -> (r: OrdSet<Vec<u8>>)
    ensures
        forall|key: Seq<u8>|
            r@.contains(key) <==> exists|c: CommandId| #[trigger] touched_by(records@, c, key),
{
    let n: usize = records.len();
    let ghost order = in_order::<CommandId>(records@.dom());
    proof {
        lemma_in_order::<CommandId>(records@.dom());
    }
    let mut out: OrdSet<Vec<u8>> = OrdSet::new();
    let mut i: usize = 0;
    while i < n
        invariant
            i <= n == records@.dom().len(),
            order == in_order::<CommandId>(records@.dom()),
            order.len() == n,
            forall|key: Seq<u8>|
                out@.contains(key) <==> exists|j: int|
                    0 <= j < i && touched_by(records@, #[trigger] order[j], key),
        decreases n - i,
    {
        let c = *records.key_at(i);
        let record = records.value_at(i);
        let ghost before = out@;
        let ghost keys = records@[c].keys;
        if record.payload.is_some() {
            let more = crate::ordered::set_of(&record.keys);
            out.extend(&more);
        }
        proof {
            assert(order[i as int] == c);
            assert forall|key: Seq<u8>|
                out@.contains(key) <==> exists|j: int|
                    0 <= j < i + 1 && touched_by(records@, #[trigger] order[j], key) by {
                if before.contains(key) {
                    let j = choose|j: int|
                        0 <= j < i && touched_by(records@, #[trigger] order[j], key);
                    assert(touched_by(records@, order[j], key));
                }
                if touched_by(records@, c, key) {
                    assert(keys.to_set().contains(key));
                }
                if out@.contains(key) && !before.contains(key) {
                    assert(keys.to_set().contains(key));
                    assert(keys.contains(key));
                    assert(touched_by(records@, order[i as int], key));
                }
            }
        }
        i = i + 1;
    }
    proof {
        assert forall|key: Seq<u8>|
            out@.contains(key) <==> exists|c: CommandId| #[trigger] touched_by(records@, c, key) by {
            if exists|c: CommandId| #[trigger] touched_by(records@, c, key) {
                let c = choose|c: CommandId| #[trigger] touched_by(records@, c, key);
                assert(order.contains(c));
                let j = choose|j: int| 0 <= j < order.len() && order[j] == c;
                assert(touched_by(records@, order[j], key));
            }
        }
    }
    out
}

impl CommandTable {
    /// Rebuild a table from complete authoritative dependency rows: derived
    /// indexes come from the records, never from receipt order. The
    /// conflict index names, per key, the record no other record of that
    /// key depends on; path logs resume at that record's digest.
    #[verifier::rlimit(40)]
    pub fn restore<H: Fn(HashDomain, Vec<Vec<u8>>) -> Digest32>(
        hash: &H,
        capacity: Option<usize>,
        rows: Vec<(CommandId, CommandRecord)>,
    ) -> (r: Self)
        requires
            is_hash(*hash),
        ensures
            r@ == TableView::restored(*hash, capacity, views(rows@)),
    {
        let ghost all = views(rows@);
        let mut records: OrdMap<CommandId, CommandRecord> = OrdMap::new();
        let mut i: usize = 0;
        while i < rows.len()
            invariant
                i <= rows@.len(),
                all == views(rows@),
                records@ == bound_in_order(all.take(i as int)),
            decreases rows@.len() - i,
        {
            let (c, record) = &rows[i];
            records.insert(*c, record.dup());
            proof {
                assert(all.take(i + 1).drop_last() =~= all.take(i as int));
                assert(all.take(i + 1).last() == rows@[i as int]@);
            }
            i = i + 1;
        }
        proof {
            assert(all.take(all.len() as int) =~= all);
        }
        let names = touched_keys(&records);
        let n: usize = names.len();
        let ghost order = in_order::<Vec<u8>>(names@);
        proof {
            lemma_in_order::<Vec<u8>>(names@);
        }
        let mut keys: OrdMap<Vec<u8>, KeyState> = OrdMap::new();
        let mut j: usize = 0;
        while j < n
            invariant
                j <= n == names@.len(),
                is_hash(*hash),
                order == in_order::<Vec<u8>>(names@),
                order.len() == n,
                forall|key: Seq<u8>| #[trigger]
                    keys@.contains_key(key) <==> exists|k: int|
                        0 <= k < j && #[trigger] order[k] == key,
                forall|key: Seq<u8>| #[trigger]
                    keys@.contains_key(key) ==> keys@[key] == rebuilt_key(*hash, records@, key),
            decreases n - j,
        {
            let name = names.at(j);
            let ghost before = keys@;
            let state = rebuild_key(hash, &records, name);
            keys.insert(name.dup(), state);
            proof {
                assert forall|key: Seq<u8>| #[trigger]
                    keys@.contains_key(key) <==> exists|k: int|
                        0 <= k < j + 1 && #[trigger] order[k] == key by {
                    if before.contains_key(key) {
                        let k = choose|k: int| 0 <= k < j && #[trigger] order[k] == key;
                        assert(order[k] == key);
                    }
                    assert(order[j as int] == name@);
                }
            }
            j = j + 1;
        }
        proof {
            let goal = rebuilt_index(*hash, records@);
            assert forall|key: Seq<u8>| #[trigger]
                keys@.contains_key(key) <==> goal.contains_key(key) by {
                if keys@.contains_key(key) {
                    let k = choose|k: int| 0 <= k < n && #[trigger] order[k] == key;
                    assert(order.contains(key));
                    let c = choose|c: CommandId| #[trigger] touched_by(records@, c, key);
                    assert(records@[c].payload is Some);
                }
                if goal.contains_key(key) {
                    let c = choose|c: CommandId|
                        records@.contains_key(c) && (#[trigger] records@[c]).payload is Some
                            && records@[c].keys.contains(key);
                    assert(touched_by(records@, c, key));
                    assert(order.contains(key));
                    let k = choose|k: int| 0 <= k < order.len() && order[k] == key;
                    assert(order[k] == key);
                }
            }
            assert(keys@ =~= goal);
        }
        CommandTable {
            records,
            keys,
            executed: OrdSet::new(),
            retired: Vec::new(),
            capacity,
        }
    }
}

proof fn lemma_entered_all<H: Fn(HashDomain, Vec<Vec<u8>>) -> Digest32>(
    start: Indexing,
    hash: H,
    c: CommandId,
    keys: Seq<Seq<u8>>,
)
    ensures
        ({
            let done = start.entered_all(hash, c, keys);
            forall|k: Seq<u8>| #[trigger]
                done.keys.contains_key(k) ==> if keys.contains(k) {
                    done.keys[k].last == Some(c)
                } else {
                    start.keys.contains_key(k) && done.keys[k] == start.keys[k]
                }
        }),
    decreases keys.len(),
{
    if keys.len() > 0 {
        let before = keys.drop_last();
        lemma_entered_all(start, hash, c, before);
        let mid = start.entered_all(hash, c, before);
        let done = start.entered_all(hash, c, keys);
        assert forall|k: Seq<u8>| #[trigger] done.keys.contains_key(k) implies if keys.contains(k) {
            done.keys[k].last == Some(c)
        } else {
            start.keys.contains_key(k) && done.keys[k] == start.keys[k]
        } by {
            if k == keys.last() {
                assert(keys[keys.len() - 1] == k);
                assert(keys.contains(k));
            } else {
                assert(mid.keys.contains_key(k));
                if keys.contains(k) {
                    let i = choose|i: int| 0 <= i < keys.len() && keys[i] == k;
                    assert(before[i] == k);
                    assert(before.contains(k));
                } else {
                    assert(!before.contains(k)) by {
                        if before.contains(k) {
                            let i = choose|i: int| 0 <= i < before.len() && before[i] == k;
                            assert(keys[i] == k);
                        }
                    }
                }
            }
        }
    }
}

proof fn lemma_synced_keys_last<H: Fn(HashDomain, Vec<Vec<u8>>) -> Digest32>(
    hash: H,
    keys: Map<Seq<u8>, KeyView>,
    c: CommandId,
    seqnum: u64,
    paths: AnchorSeq,
)
    ensures
        ({
            let done = synced_keys(hash, keys, c, seqnum, paths);
            forall|k: Seq<u8>| #[trigger]
                done.contains_key(k) && done[k].last is Some ==> keys.contains_key(k)
                    && keys[k].last == done[k].last
        }),
    decreases paths.len(),
{
    if paths.len() > 0 {
        lemma_synced_keys_last(hash, keys, c, seqnum, paths.drop_last());
    }
}

proof fn lemma_trimmed(retired: Seq<CommandId>, executed: Set<CommandId>, bound: nat)
    requires
        retired.no_duplicates(),
        executed == retired.to_set(),
    ensures
        ({
            let (r, e) = trimmed(retired, executed, bound);
            r.no_duplicates() && e == r.to_set() && r.len() <= bound
        }),
    decreases retired.len(),
{
    if retired.len() > bound {
        let rest = retired.drop_first();
        assert(rest.no_duplicates());
        assert(executed.remove(retired[0]) =~= rest.to_set()) by {
            assert forall|x: CommandId| executed.remove(retired[0]).contains(x)
                <==> rest.to_set().contains(x) by {
                if rest.to_set().contains(x) {
                    let i = choose|i: int| 0 <= i < rest.len() && rest[i] == x;
                    assert(retired[i + 1] == x);
                }
                if executed.remove(retired[0]).contains(x) {
                    let i = choose|i: int| 0 <= i < retired.len() && retired[i] == x;
                    assert(rest[i - 1] == x);
                }
            }
        }
        lemma_trimmed(rest, executed.remove(retired[0]), bound);
    }
}

/// Retiring an executed command keeps a table sound: no key names it any
/// more, and the memory of what executed stays exact and within its bound.
pub proof fn lemma_retire_keeps_sound(table: TableView, c: CommandId)
    requires
        table.sound(),
        table.retire_refusal(c) is None,
    ensures
        table.retired_one(c).sound(),
{
    let next = table.retired_one(c);
    let order = if table.executed.contains(c) {
        table.retired
    } else {
        table.retired.push(c)
    };
    let memory = table.executed.insert(c);
    assert(order.no_duplicates()) by {
        if !table.executed.contains(c) {
            assert(!table.retired.contains(c)) by {
                assert(table.retired.to_set().contains(c) <==> table.retired.contains(c));
            }
        }
    }
    assert(memory =~= order.to_set()) by {
        assert forall|x: CommandId| memory.contains(x) <==> order.to_set().contains(x) by {
            if table.executed.contains(x) {
                let i = choose|i: int| 0 <= i < table.retired.len() && table.retired[i] == x;
                assert(order[i] == x);
            }
            if x == c && !table.executed.contains(c) {
                assert(order[table.retired.len() as int] == c);
            }
            if order.to_set().contains(x) {
                let i = choose|i: int| 0 <= i < order.len() && order[i] == x;
                if i < table.retired.len() {
                    assert(table.retired[i] == x);
                    assert(table.retired.to_set().contains(x));
                }
            }
        }
    }
    match table.capacity {
        Some(bound) => {
            lemma_trimmed(order, memory, bound as nat);
        },
        None => {},
    }
    assert forall|k: Seq<u8>| #[trigger]
        next.keys.contains_key(k) && next.keys[k].last is Some implies next.initialized(
        next.keys[k].last->0,
    ) && next.records[next.keys[k].last->0].keys.contains(k) by {
        assert(table.keys.contains_key(k));
        if table.keys[k].last == Some(c) {
            assert(table.records[c].keys.contains(k));
        }
    }
}

proof fn lemma_retire_all_sound(table: TableView, commands: Seq<CommandId>)
    requires
        table.sound(),
        commands.no_duplicates(),
        forall|i: int| 0 <= i < commands.len() ==> table.retire_refusal(#[trigger] commands[i]) is None,
    ensures
        table.retired_all(commands).sound(),
        table.retired_all(commands).capacity == table.capacity,
        forall|c: CommandId| #[trigger]
            table.retired_all(commands).records.contains_key(c) <==> table.records.contains_key(c)
                && !commands.contains(c),
        forall|c: CommandId| #[trigger]
            table.retired_all(commands).records.contains_key(c) ==> table.retired_all(
                commands,
            ).records[c] == table.records[c],
    decreases commands.len(),
{
    if commands.len() > 0 {
        let before = commands.drop_last();
        let last = commands.last();
        assert forall|i: int| 0 <= i < before.len() implies table.retire_refusal(
            #[trigger] before[i],
        ) is None by {
            assert(before[i] == commands[i]);
        }
        lemma_retire_all_sound(table, before);
        let mid = table.retired_all(before);
        assert(!before.contains(last)) by {
            if before.contains(last) {
                let i = choose|i: int| 0 <= i < before.len() && before[i] == last;
                assert(commands[i] == commands[commands.len() - 1]);
            }
        }
        assert(table.retire_refusal(commands[commands.len() - 1]) is None);
        assert(mid.records.contains_key(last));
        lemma_retire_keeps_sound(mid, last);
        assert forall|c: CommandId| commands.contains(c) <==> before.contains(c) || c == last by {
            if commands.contains(c) {
                let i = choose|i: int| 0 <= i < commands.len() && commands[i] == c;
                if i < before.len() {
                    assert(before[i] == c);
                }
            }
            if before.contains(c) {
                let i = choose|i: int| 0 <= i < before.len() && before[i] == c;
                assert(commands[i] == c);
            }
            assert(commands[commands.len() - 1] == last);
        }
    }
}

/// Making room keeps a table sound, touches nothing that has not executed,
/// and leaves no executed record behind where it ran.
pub proof fn lemma_making_room_sheds_no_obligation(table: TableView)
    requires
        table.sound(),
        table.records.dom().finite(),
    ensures
        table.with_room().sound(),
        table.reclaimed().sound(),
        forall|c: CommandId| #[trigger]
            table.reclaimed().records.contains_key(c) <==> table.records.contains_key(c)
                && table.records[c].phase != Phase::Executed,
        forall|c: CommandId| #[trigger]
            table.with_room().records.contains_key(c) ==> table.records.contains_key(c)
                && table.with_room().records[c] == table.records[c],
        forall|c: CommandId| #[trigger]
            table.records.contains_key(c) && table.records[c].phase != Phase::Executed
                ==> table.with_room().records.contains_key(c),
{
    let set = table.retirable();
    lemma_in_order::<CommandId>(set);
    let order = in_order::<CommandId>(set);
    assert forall|i: int| 0 <= i < order.len() implies table.retire_refusal(
        #[trigger] order[i],
    ) is None by {
        assert(order.contains(order[i]));
    }
    lemma_retire_all_sound(table, order);
}

/// Every transition keeps a table sound.
pub proof fn lemma_table_stays_sound<H: Fn(HashDomain, Vec<Vec<u8>>) -> Digest32>(
    hash: H,
    table: TableView,
    c: CommandId,
    payload: Digest32,
    keys: Seq<Seq<u8>>,
    deps: Seq<CommandId>,
    paths: AnchorSeq,
    seqnum: u64,
    path: Digest32,
    phase: Phase,
)
    requires
        table.sound(),
    ensures
        TableView::empty(table.capacity).sound(),
        !table.initialized(c) ==> table.with_initialized(hash, c, payload, keys).sound(),
        !table.records.contains_key(c) ==> (TableView {
            records: table.records.insert(c, TableView::placeholder(hash)),
            ..table
        }).sound(),
        table.with_leader_path(hash, c, seqnum, paths).sound(),
        table.accepted(c, deps).sound(),
        table.adopted(c, deps, Some(paths), path).sound(),
        table.adopted(c, deps, None, path).sound(),
        table.advanced(c, phase).sound(),
        table.marked_executed(c).sound(),
{
    assert(TableView::empty(table.capacity).executed =~= Seq::<CommandId>::empty().to_set());
    if !table.initialized(c) {
        let next = table.with_initialized(hash, c, payload, keys);
        let start = Indexing { keys: table.keys, deps: Seq::empty(), paths: Seq::empty() };
        lemma_entered_all(start, hash, c, keys);
        assert forall|k: Seq<u8>| #[trigger]
            next.keys.contains_key(k) && next.keys[k].last is Some implies next.initialized(
            next.keys[k].last->0,
        ) && next.records[next.keys[k].last->0].keys.contains(k) by {
            if !keys.contains(k) {
                assert(table.keys.contains_key(k));
                assert(table.initialized(table.keys[k].last->0));
            }
        }
    }
    if !table.records.contains_key(c) {
        let next = TableView {
            records: table.records.insert(c, TableView::placeholder(hash)),
            ..table
        };
        assert forall|k: Seq<u8>| #[trigger]
            next.keys.contains_key(k) && next.keys[k].last is Some implies next.initialized(
            next.keys[k].last->0,
        ) && next.records[next.keys[k].last->0].keys.contains(k) by {
            assert(table.keys.contains_key(k));
            assert(table.initialized(table.keys[k].last->0));
        }
    }
    lemma_synced_keys_last(hash, table.keys, c, seqnum, paths);
    let next = table.with_leader_path(hash, c, seqnum, paths);
    assert forall|k: Seq<u8>| #[trigger]
        next.keys.contains_key(k) && next.keys[k].last is Some implies next.initialized(
        next.keys[k].last->0,
    ) && next.records[next.keys[k].last->0].keys.contains(k) by {
        assert(table.keys.contains_key(k));
    }
}

/// A command's phase never goes back: adopting, committing and executing
/// leave every command where it was or further along, and a retired
/// command still counts as executed.
pub proof fn lemma_phases_only_advance(
    table: TableView,
    c: CommandId,
    deps: Seq<CommandId>,
    paths: Option<AnchorSeq>,
    path: Digest32,
    phase: Phase,
    other: CommandId,
)
    requires
        table.initialized(other),
        phase.rank() >= Phase::Commit.rank(),
    ensures
        table.accepted(c, deps).phase_of(other)->0.rank() >= table.phase_of(other)->0.rank(),
        table.adopted(c, deps, paths, path).phase_of(other)->0.rank() >= table.phase_of(
            other,
        )->0.rank(),
        table.advanced(c, phase).phase_of(other)->0.rank() >= table.phase_of(other)->0.rank(),
        table.marked_executed(c).phase_of(other)->0.rank() >= table.phase_of(other)->0.rank(),
{
}

/// A command enters ACCEPT only over dependencies that are at ACCEPT or
/// later, COMMIT only over committed ones and execution only over executed
/// ones.
pub proof fn lemma_guards_hold(table: TableView, c: CommandId, deps: Seq<CommandId>, phase: Phase)
    ensures
        table.accepted(c, deps) != table ==> forall|i: int|
            0 <= i < deps.len() ==> table.phase_of(#[trigger] deps[i]) is Some && table.phase_of(
                deps[i],
            )->0.rank() >= Phase::Accept.rank(),
        table.advanced(c, phase) != table ==> forall|i: int|
            0 <= i < table.records[c].deps.len() ==> table.phase_of(
                #[trigger] table.records[c].deps[i],
            ) is Some && table.phase_of(table.records[c].deps[i])->0.rank() >= phase.rank(),
{
    crate::phase::lemma_guard_holds(deps, table.phases(), Phase::Accept);
    crate::phase::lemma_guard_holds(table.records[c].deps, table.phases(), phase);
}

/// A placeholder is invisible: it has no phase, so it satisfies no guard, and
/// no lookup of conflicts finds it.
pub proof fn lemma_placeholder_invisible<H: Fn(HashDomain, Vec<Vec<u8>>) -> Digest32>(
    hash: H,
    table: TableView,
    c: CommandId,
    keys: Seq<Seq<u8>>,
)
    requires
        !table.records.contains_key(c),
    ensures
        ({
            let next = TableView {
                records: table.records.insert(c, TableView::placeholder(hash)),
                ..table
            };
            next.phase_of(c) is None && next.conflicts(keys) == table.conflicts(keys)
        }),
    decreases keys.len(),
{
    if keys.len() > 0 {
        lemma_placeholder_invisible(hash, table, c, keys.drop_last());
    }
}

} // verus!
