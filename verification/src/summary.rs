//! Durable recovery summaries and bounded transfer.
//!
//! A replica's report for a new ballot is built from its *durable ledger*:
//! the command records whose batches became durable, never from in-memory
//! phases or from a projection that may lag behind the journal. A vote
//! whose batch has not completed is not a stable vote and is absent from
//! the report; a placeholder without payload is never a report entry. The
//! report travels in bounded pages that bind the transfer (replica,
//! ballot), the page number, the total and a digest; an assembler counts a
//! report only when every page arrived intact, and refuses advertised
//! totals beyond the bound.

use vstd::prelude::*;

use crate::bytes::same_bytes;
use crate::codec::{List, Wire, lemma_wire_round_trip, to_wire};
use crate::commands::{CommandRecord, RecordView, bound_in_order};
use crate::hash::{HashDomain, digest, digest_of, is_hash};
use crate::ids::{Ballot, BarrierId, CommandId, Digest32, LocalJournalSeq, ReplicaId};
use crate::lists::copy_list;
use crate::ordered::{
    Dup, Key, OrdMap, OrdSet, dup_all, in_order, lemma_in_order, lemma_is_in_order, views,
};
use crate::recovery::{RecoveryReport, ReportEntry, ReportEntryView, ReportView};

verus! {

/// Maximum pages one report may announce.
pub const MAX_REPORT_PAGES: u32 = 4096;

/// Maximum entries per page.
pub const MAX_PAGE_ENTRIES: usize = 256;

/// Command records as they are durable, tracked by the actor itself.
#[derive(Debug)]
pub struct DurableLedger {
    records: OrdMap<CommandId, CommandRecord>,
    /// Journal sequence each durable record was written at.
    sequences: OrdMap<CommandId, LocalJournalSeq>,
    staged: OrdMap<BarrierId, (CommandId, CommandRecord)>,
}

/// What a ledger holds.
#[verifier::ext_equal]
pub struct LedgerView {
    /// Durable records.
    pub records: Map<CommandId, RecordView>,
    /// Journal sequence each durable record was written at.
    pub sequences: Map<CommandId, LocalJournalSeq>,
    /// Records submitted and not yet durable, by batch.
    pub staged: Map<BarrierId, (CommandId, RecordView)>,
}

impl View for DurableLedger {
    type V = LedgerView;

    closed spec fn view(&self) -> LedgerView {
        LedgerView {
            records: self.records@,
            sequences: self.sequences@,
            staged: self.staged@,
        }
    }
}

impl Dup for DurableLedger {
    fn dup(&self) -> (r: Self) {
        DurableLedger {
            records: self.records.dup(),
            sequences: self.sequences.dup(),
            staged: self.staged.dup(),
        }
    }
}

impl LedgerView {
    /// A ledger of these durable records.
    pub open spec fn of(records: Map<CommandId, RecordView>) -> Self {
        LedgerView { records, sequences: Map::empty(), staged: Map::empty() }
    }

    /// The ledger once the batch under `barrier` is durable at `seq`.
    pub open spec fn settled(self, barrier: BarrierId, seq: LocalJournalSeq) -> Self {
        if !self.staged.contains_key(barrier) {
            self
        } else {
            let (command, record) = self.staged[barrier];
            let rest = self.staged.remove(barrier);
            if self.sequences.contains_key(command) && self.sequences[command].0 > seq.0 {
                LedgerView { staged: rest, ..self }
            } else {
                LedgerView {
                    records: self.records.insert(command, record),
                    sequences: self.sequences.insert(command, seq),
                    staged: rest,
                }
            }
        }
    }

    /// The entry the report carries for `c`.
    pub open spec fn entry(self, c: CommandId) -> ReportEntryView {
        let r = self.records[c];
        ReportEntryView {
            command: c,
            phase: r.phase,
            deps: r.deps,
            path: r.path,
            paths: r.paths,
            seqnum: match r.synced_seq {
                Some(s) => s,
                None => 0,
            },
            keys: r.keys,
            payload_present: true,
        }
    }

    /// Commands whose durable record has a payload.
    pub open spec fn reported(self) -> Set<CommandId> {
        self.records.dom().filter(|c: CommandId| self.records[c].payload is Some)
    }

    /// The report of the durable records.
    pub open spec fn report(self, replica: ReplicaId, ballot: Ballot, committed: Ballot) -> ReportView {
        let order = in_order::<CommandId>(self.reported());
        ReportView {
            replica,
            ballot,
            committed_ballot: committed,
            entries: Seq::new(order.len(), |i: int| self.entry(order[i])),
        }
    }
}

/// Whatever order two completions arrive in, the ledger ends with the record
/// of the later journal sequence.
pub proof fn lemma_newer_record_wins(
    ledger: LedgerView,
    a: BarrierId,
    at: LocalJournalSeq,
    b: BarrierId,
    bt: LocalJournalSeq,
)
    requires
        ledger.staged.contains_key(a),
        ledger.staged.contains_key(b),
        a != b,
        ledger.staged[a].0 == ledger.staged[b].0,
        at.0 < bt.0,
        !(ledger.sequences.contains_key(ledger.staged[a].0)
            && ledger.sequences[ledger.staged[a].0].0 > bt.0),
    ensures
        ledger.settled(a, at).settled(b, bt).records[ledger.staged[a].0] == ledger.staged[b].1,
        ledger.settled(b, bt).settled(a, at).records[ledger.staged[a].0] == ledger.staged[b].1,
{
}

/// What an optional record says.
pub open spec fn record_of(r: Option<CommandRecord>) -> Option<RecordView> {
    match r {
        Some(x) => Some(x@),
        None => None,
    }
}

impl DurableLedger {
    /// Empty ledger.
    pub fn new() -> (r: Self)
        ensures
            r@ == LedgerView::of(Map::empty()),
    {
        DurableLedger { records: OrdMap::new(), sequences: OrdMap::new(), staged: OrdMap::new() }
    }

    /// A ledger seeded from durable rows (after a crash).
    pub fn restore(rows: Vec<(CommandId, CommandRecord)>) -> (r: Self)
        ensures
            r@ == LedgerView::of(bound_in_order(views(rows@))),
    {
        let ghost all = views(rows@);
        let mut records: OrdMap<CommandId, CommandRecord> = OrdMap::new();
        let mut i: usize = 0;
        while i < rows.len()
            invariant
                i <= rows@.len(),
                all == views(rows@),
                records@ == bound_in_order(all.take(i as int)),
            decreases rows@.len() - i,
        {
            let (c, record) = &rows[i];
            records.insert(*c, record.dup());
            proof {
                assert(all.take(i + 1).drop_last() =~= all.take(i as int));
                assert(all.take(i + 1).last() == rows@[i as int]@);
            }
            i = i + 1;
        }
        proof {
            assert(all.take(all.len() as int) =~= all);
        }
        DurableLedger { records, sequences: OrdMap::new(), staged: OrdMap::new() }
    }

    /// A batch writing `record` for `command` was submitted under `barrier`.
    pub fn stage(&mut self, barrier: BarrierId, command: CommandId, record: CommandRecord)
        ensures
            final(self)@ == (LedgerView {
                staged: old(self)@.staged.insert(barrier, (command, record@)),
                ..old(self)@
            }),
    {
        self.staged.insert(barrier, (command, record));
    }

    /// The batch under `barrier` is durable at `journal_seq`: its record is
    /// now a fact. Completions may arrive in any order, so an older one
    /// never replaces what a newer batch already wrote; the journal
    /// sequence, not the callback order, says which record is newer.
    pub fn durable(&mut self, barrier: BarrierId, journal_seq: LocalJournalSeq) -> (r: Option<
        CommandId,
    >)
        ensures
            final(self)@ == old(self)@.settled(barrier, journal_seq),
            r == (if old(self)@.staged.contains_key(barrier) {
                Some(old(self)@.staged[barrier].0)
            } else {
                None
            }),
    {
        match self.staged.remove(&barrier) {
            None => {
                proof {
                    assert(self.staged@ =~= old(self)@.staged);
                }
                None
            },
            Some((command, record)) => {
                // Strictly older completions are ignored.
                let older = match self.sequences.get(&command) {
                    Some(seen) => seen.0 > journal_seq.0,
                    None => false,
                };
                if !older {
                    self.sequences.insert(command, journal_seq);
                    self.records.insert(command, record);
                }
                Some(command)
            },
        }
    }

    /// The batch under `barrier` failed: nothing became durable.
    pub fn failed(&mut self, barrier: BarrierId) -> (r: Option<CommandId>)
        ensures
            final(self)@ == (LedgerView { staged: old(self)@.staged.remove(barrier), ..old(self)@ }),
            r == (if old(self)@.staged.contains_key(barrier) {
                Some(old(self)@.staged[barrier].0)
            } else {
                None
            }),
    {
        match self.staged.remove(&barrier) {
            Some((command, _)) => Some(command),
            None => None,
        }
    }

    /// What the batch under `barrier` writes, while it is in flight.
    pub fn staged_record(&self, barrier: &BarrierId) -> (r: Option<CommandRecord>)
        ensures
            record_of(r) == (if self@.staged.contains_key(*barrier) {
                Some(self@.staged[*barrier].1)
            } else {
                None
            }),
    {
        match self.staged.get(barrier) {
            Some(entry) => Some(entry.1.dup()),
            None => None,
        }
    }

    /// Durable record of a command.
    pub fn record(&self, command: &CommandId) -> (r: Option<&CommandRecord>)
        ensures
            r is Some <==> self@.records.contains_key(*command),
            r is Some ==> r->0@ == self@.records[*command],
    {
        self.records.get(command)
    }

    /// Number of durable records.
    pub fn len(&self) -> (r: usize)
        ensures
            r == self@.records.dom().len(),
            self@.records.dom().finite(),
    {
        self.records.len()
    }

    /// The commands with a durable record, in identity order; `record` gives
    /// each.
    pub fn records(&self) -> (r: Vec<CommandId>)
        ensures
            r@ == in_order::<CommandId>(self@.records.dom()),
    {
        let r = self.records.keys();
        proof {
            crate::lists::lemma_id_views(r@);
        }
        r
    }

    /// Drop the durable record of `command`.
    pub fn forget(&mut self, command: &CommandId)
        ensures
            final(self)@ == (LedgerView {
                records: old(self)@.records.remove(*command),
                sequences: old(self)@.sequences.remove(*command),
                ..old(self)@
            }),
    {
        let _ = self.records.remove(command);
        let _ = self.sequences.remove(command);
    }

    /// Batches still outstanding (the cut must wait for them).
    pub fn outstanding(&self) -> (r: Vec<BarrierId>)
        ensures
            r@ == in_order::<BarrierId>(self@.staged.dom()),
            self@.staged.dom().finite(),
    {
        let r = self.staged.keys();
        proof {
            assert(views(r@) =~= r@);
        }
        r
    }

    /// The report for `ballot` from durable state only.
    #[verifier::rlimit(40)]
    pub fn report(&self, replica: ReplicaId, ballot: Ballot, committed_ballot: Ballot) -> (r:
        RecoveryReport)
        ensures
            r@ == self@.report(replica, ballot, committed_ballot),
    {
        let n: usize = self.records.len();
        let ghost order = in_order::<CommandId>(self.records@.dom());
        let ghost goal = self@.reported();
        proof {
            lemma_in_order::<CommandId>(self.records@.dom());
        }
        let mut entries: Vec<ReportEntry> = Vec::new();
        let ghost mut named: Seq<CommandId> = Seq::empty();
        let mut i: usize = 0;
        while i < n
            invariant
                i <= n == self.records@.dom().len(),
                order == in_order::<CommandId>(self.records@.dom()),
                order.len() == n,
                goal == self@.reported(),
                crate::ordered::ascending::<CommandId>(order),
                crate::ordered::ascending::<CommandId>(named),
                named.len() == entries@.len(),
                forall|j: int|
                    0 <= j < named.len() ==> goal.contains(#[trigger] named[j]) && entries@[j]@
                        == self@.entry(named[j]) && exists|k: int|
                        0 <= k < i && #[trigger] order[k] == named[j],
                forall|k: int|
                    0 <= k < i && goal.contains(#[trigger] order[k]) ==> named.contains(order[k]),
            decreases n - i,
        {
            let c = *self.records.key_at(i);
            let record = self.records.value_at(i);
            let ghost before = named;
            if record.payload.is_some() {
                let entry = ReportEntry {
                    command: c,
                    phase: record.phase,
                    deps: copy_list(&record.deps),
                    path: record.path,
                    paths: dup_all(&record.paths),
                    seqnum: match record.synced_seq {
                        Some(s) => s,
                        None => 0,
                    },
                    keys: dup_all(&record.keys),
                    payload_present: true,
                };
                entries.push(entry);
                proof {
                    named = named.push(c);
                    assert forall|a: int, b: int| 0 <= a < b < named.len() implies CommandId::before(
                        #[trigger] named[a],
                        #[trigger] named[b],
                    ) by {
                        if b < before.len() {
                            assert(CommandId::before(before[a], before[b]));
                        } else {
                            let k = choose|k: int| 0 <= k < i && #[trigger] order[k] == before[a];
                            assert(CommandId::before(order[k], order[i as int]));
                        }
                    }
                }
            }
            proof {
                assert forall|j: int| 0 <= j < named.len() implies goal.contains(
                    #[trigger] named[j],
                ) && entries@[j]@ == self@.entry(named[j]) && exists|k: int|
                    0 <= k < i + 1 && #[trigger] order[k] == named[j] by {
                    if j < before.len() {
                        assert(named[j] == before[j]);
                        let k = choose|k: int| 0 <= k < i && #[trigger] order[k] == before[j];
                        assert(order[k] == named[j]);
                    } else {
                        assert(order[i as int] == named[j]);
                    }
                }
                assert forall|k: int|
                    0 <= k < i + 1 && goal.contains(#[trigger] order[k]) implies named.contains(
                    order[k],
                ) by {
                    if k < i {
                        let j = choose|j: int| 0 <= j < before.len() && before[j] == order[k];
                        assert(named[j] == order[k]);
                    } else {
                        assert(named[before.len() as int] == order[k]);
                    }
                }
            }
            i = i + 1;
        }
        proof {
            assert forall|x: CommandId| #[trigger] named.contains(x) <==> goal.contains(x) by {
                if goal.contains(x) {
                    assert(order.contains(x));
                    let k = choose|k: int| 0 <= k < order.len() && order[k] == x;
                    assert(goal.contains(order[k]));
                }
            }
            lemma_is_in_order::<CommandId>(named, goal);
            assert(views(entries@) =~= self@.report(replica, ballot, committed_ballot).entries);
        }
        RecoveryReport { replica, ballot, committed_ballot, entries }
    }
}

/// One page of a report transfer.
#[derive(Debug, PartialEq, Eq)]
pub struct ReportPage {
    /// Reporting replica.
    pub replica: ReplicaId,
    /// New ballot.
    pub ballot: Ballot,
    /// Synchronized ballot.
    pub committed_ballot: Ballot,
    /// Page number (0-based).
    pub page: u32,
    /// Total pages.
    pub total: u32,
    /// Entries of this page.
    pub entries: Vec<ReportEntry>,
    /// Digest of the whole report this page belongs to. Pages of one
    /// transfer all carry it, so a delayed page of an earlier report of
    /// the same ballot cannot be assembled together with pages of a later
    /// one into a report the replica never produced.
    pub snapshot: Digest32,
    /// Digest binding replica, ballots, page, total, snapshot and entries.
    pub digest: Digest32,
}

/// What a page says.
#[verifier::ext_equal]
pub struct PageView {
    /// Reporting replica.
    pub replica: ReplicaId,
    /// New ballot.
    pub ballot: Ballot,
    /// Synchronized ballot.
    pub committed_ballot: Ballot,
    /// Page number (0-based).
    pub page: u32,
    /// Total pages.
    pub total: u32,
    /// Entries of this page.
    pub entries: Seq<ReportEntryView>,
    /// Digest of the whole report this page belongs to.
    pub snapshot: Digest32,
    /// Digest of the page.
    pub digest: Digest32,
}

impl View for ReportPage {
    type V = PageView;

    open spec fn view(&self) -> PageView {
        PageView {
            replica: self.replica,
            ballot: self.ballot,
            committed_ballot: self.committed_ballot,
            page: self.page,
            total: self.total,
            entries: views(self.entries@),
            snapshot: self.snapshot,
            digest: self.digest,
        }
    }
}

impl Dup for ReportPage {
    fn dup(&self) -> (r: Self) {
        ReportPage {
            replica: self.replica,
            ballot: self.ballot,
            committed_ballot: self.committed_ballot,
            page: self.page,
            total: self.total,
            entries: dup_all(&self.entries),
            snapshot: self.snapshot,
            digest: self.digest,
        }
    }
}

/// What a report digest is tagged with.
pub open spec fn report_tag() -> Seq<u8> {
    seq![114u8, 101u8, 99u8, 111u8, 118u8, 101u8, 114u8, 121u8, 45u8, 114u8, 101u8, 112u8, 111u8, 114u8, 116u8]
}

fn report_tag_bytes() -> (r: Vec<u8>)
    ensures
        r@ == report_tag(),
{
    let mut out: Vec<u8> = Vec::new();
    out.push(114);
    out.push(101);
    out.push(99);
    out.push(111);
    out.push(118);
    out.push(101);
    out.push(114);
    out.push(121);
    out.push(45);
    out.push(114);
    out.push(101);
    out.push(112);
    out.push(111);
    out.push(114);
    out.push(116);
    assert(out@ =~= report_tag());
    out
}

/// What a page digest is tagged with.
pub open spec fn page_tag() -> Seq<u8> {
    seq![114u8, 101u8, 99u8, 111u8, 118u8, 101u8, 114u8, 121u8, 45u8, 112u8, 97u8, 103u8, 101u8]
}

fn page_tag_bytes() -> (r: Vec<u8>)
    ensures
        r@ == page_tag(),
{
    let mut out: Vec<u8> = Vec::new();
    out.push(114);
    out.push(101);
    out.push(99);
    out.push(111);
    out.push(118);
    out.push(101);
    out.push(114);
    out.push(121);
    out.push(45);
    out.push(112);
    out.push(97);
    out.push(103);
    out.push(101);
    assert(out@ =~= page_tag());
    out
}

/// What a report digest covers.
pub type ReportBody = (ReplicaId, (Ballot, (Ballot, List<ReportEntry>)));

/// What a page digest covers.
pub type PageBody = (
    ReplicaId,
    (Ballot, (Ballot, (u32, (u32, (Digest32, List<ReportEntry>))))),
);

/// Digest of a complete report: what every one of its pages carries.
pub open spec fn snapshot_of<H: Fn(HashDomain, Vec<Vec<u8>>) -> Digest32>(
    hash: H,
    report: ReportView,
) -> Digest32 {
    digest_of(
        hash,
        HashDomain::JournalBatch,
        seq![
            report_tag(),
            ReportBody::wire(
                (report.replica, (report.ballot, (report.committed_ballot, report.entries))),
            ),
        ],
    )
}

/// Digest that binds what a page says to it.
pub open spec fn seal_of<H: Fn(HashDomain, Vec<Vec<u8>>) -> Digest32>(
    hash: H,
    page: PageView,
) -> Digest32 {
    digest_of(
        hash,
        HashDomain::JournalBatch,
        seq![
            page_tag(),
            PageBody::wire(
                (
                    page.replica,
                    (
                        page.ballot,
                        (
                            page.committed_ballot,
                            (page.page, (page.total, (page.snapshot, page.entries))),
                        ),
                    ),
                ),
            ),
        ],
    )
}

fn report_digest<H: Fn(HashDomain, Vec<Vec<u8>>) -> Digest32>(
    hash: &H,
    report: &RecoveryReport,
) -> (r: Digest32)
    requires
        is_hash(*hash),
    ensures
        r == snapshot_of(*hash, report@),
{
    let body: ReportBody = (
        report.replica,
        (report.ballot, (report.committed_ballot, List(dup_all(&report.entries)))),
    );
    let mut parts: Vec<Vec<u8>> = Vec::new();
    parts.push(report_tag_bytes());
    parts.push(to_wire(&body));
    proof {
        assert(views(parts@) =~= seq![report_tag(), ReportBody::wire(body@)]);
    }
    digest(hash, HashDomain::JournalBatch, parts)
}

fn page_digest<H: Fn(HashDomain, Vec<Vec<u8>>) -> Digest32>(
    hash: &H,
    page: &ReportPage,
) -> (r: Digest32)
    requires
        is_hash(*hash),
    ensures
        r == seal_of(*hash, page@),
{
    let body: PageBody = (
        page.replica,
        (
            page.ballot,
            (
                page.committed_ballot,
                (page.page, (page.total, (page.snapshot, List(dup_all(&page.entries))))),
            ),
        ),
    );
    let mut parts: Vec<Vec<u8>> = Vec::new();
    parts.push(page_tag_bytes());
    parts.push(to_wire(&body));
    proof {
        assert(views(parts@) =~= seq![page_tag(), PageBody::wire(body@)]);
    }
    digest(hash, HashDomain::JournalBatch, parts)
}

/// Why a page was refused.
#[derive(Clone, Copy, Debug, PartialEq, Eq, Structural)]
pub enum PageError {
    /// The digest does not match the page contents.
    Corrupt,
    /// The total exceeds the bound, or the page number is beyond it.
    OutOfBounds,
    /// Pages of one transfer disagree on the total or the ballots.
    Inconsistent,
    /// Page for another ballot.
    WrongBallot,
}

/// Entries per page: at least one, at most the bound.
pub open spec fn page_size(per_page: int) -> int {
    if per_page < 1 {
        1
    } else if per_page > MAX_PAGE_ENTRIES {
        MAX_PAGE_ENTRIES as int
    } else {
        per_page
    }
}

/// How many pages `n` entries take: an empty report takes one.
pub open spec fn page_count(n: int, per: int) -> int {
    if n == 0 {
        1
    } else {
        (n + per - 1) / per
    }
}

/// Where page `i` ends.
pub open spec fn page_end(n: int, per: int, i: int) -> int {
    if (i + 1) * per > n {
        n
    } else {
        (i + 1) * per
    }
}

/// Page `i` of a report.
pub open spec fn page_of<H: Fn(HashDomain, Vec<Vec<u8>>) -> Digest32>(
    hash: H,
    report: ReportView,
    per: int,
    i: int,
) -> PageView {
    let n = report.entries.len() as int;
    let plain = PageView {
        replica: report.replica,
        ballot: report.ballot,
        committed_ballot: report.committed_ballot,
        page: i as u32,
        total: page_count(n, per) as u32,
        entries: report.entries.subrange(i * per, page_end(n, per, i)),
        snapshot: snapshot_of(hash, report),
        digest: Digest32 { high: 0, low: 0 },
    };
    PageView { digest: seal_of(hash, plain), ..plain }
}

proof fn lemma_page_count(n: int, per: int)
    requires
        n >= 0,
        per >= 1,
    ensures
        page_count(n, per) >= 1,
{
    if n > 0 {
        assert((n + per - 1) / per >= 1) by (nonlinear_arith)
            requires
                n >= 1,
                per >= 1,
        ;
    }
}

proof fn lemma_page_range(n: int, per: int, i: int)
    requires
        n >= 0,
        per >= 1,
        0 <= i < page_count(n, per),
    ensures
        0 <= i * per <= page_end(n, per, i) <= n,
        page_end(n, per, i) - i * per <= per,
        i + 1 < page_count(n, per) ==> page_end(n, per, i) == (i + 1) * per,
        i + 1 == page_count(n, per) ==> page_end(n, per, i) == n,
        page_count(n, per) <= n || n == 0 && page_count(n, per) == 1,
{
    if n == 0 {
        assert(i == 0);
        assert(i * per == 0) by (nonlinear_arith)
            requires
                i == 0,
        ;
        assert((i + 1) * per == per) by (nonlinear_arith)
            requires
                i == 0,
        ;
    } else {
        let c = (n + per - 1) / per;
        assert(c * per <= n + per - 1 && n + per - 1 < (c + 1) * per) by (nonlinear_arith)
            requires
                c == (n + per - 1) / per,
                per >= 1,
                n >= 1,
        ;
        assert((i + 1) * per == i * per + per) by (nonlinear_arith);
        assert((c + 1) * per == c * per + per) by (nonlinear_arith);
        assert(0 <= i * per) by (nonlinear_arith)
            requires
                0 <= i,
                per >= 1,
        ;
        assert((i + 1) * per <= c * per) by (nonlinear_arith)
            requires
                i + 1 <= c,
                per >= 1,
        ;
        if i + 1 < c {
            assert((i + 2) * per <= c * per) by (nonlinear_arith)
                requires
                    i + 2 <= c,
                    per >= 1,
            ;
            assert((i + 2) * per == (i + 1) * per + per) by (nonlinear_arith);
        }
        assert(c <= n) by (nonlinear_arith)
            requires
                c * per <= n + per - 1,
                per >= 1,
                n >= 1,
        ;
    }
}

/// Split a report into verified pages.
#[verifier::rlimit(40)]
pub fn paginate<H: Fn(HashDomain, Vec<Vec<u8>>) -> Digest32>(
    hash: &H,
    report: &RecoveryReport,
    per_page: usize,
) -> (r: Vec<ReportPage>)
    requires
        is_hash(*hash),
    ensures
        r@.len() == page_count(report@.entries.len() as int, page_size(per_page as int)),
        forall|i: int|
            0 <= i < r@.len() ==> (#[trigger] r@[i])@ == page_of(
                *hash,
                report@,
                page_size(per_page as int),
                i,
            ),
{
    let per: usize = if per_page < 1 {
        1
    } else if per_page > MAX_PAGE_ENTRIES {
        MAX_PAGE_ENTRIES
    } else {
        per_page
    };
    let n: usize = report.entries.len();
    let total: usize = if n == 0 {
        1
    } else {
        (n - 1) / per + 1
    };
    proof {
        if n > 0 {
            assert((n + per - 1) / (per as int) == (n - 1) / (per as int) + 1) by (nonlinear_arith)
                requires
                    per >= 1,
                    n >= 1,
            ;
        }
        lemma_page_range(n as int, per as int, 0);
    }
    let snapshot = report_digest(hash, report);
    let mut out: Vec<ReportPage> = Vec::new();
    let mut i: usize = 0;
    while i < total
        invariant
            i <= total,
            is_hash(*hash),
            n == report.entries@.len(),
            1 <= per <= MAX_PAGE_ENTRIES,
            per == page_size(per_page as int),
            total == page_count(n as int, per as int),
            snapshot == snapshot_of(*hash, report@),
            out@.len() == i,
            forall|j: int|
                0 <= j < i ==> (#[trigger] out@[j])@ == page_of(*hash, report@, per as int, j),
        decreases total - i,
    {
        proof {
            lemma_page_range(n as int, per as int, i as int);
        }
        let start: usize = i * per;
        let mut entries: Vec<ReportEntry> = Vec::new();
        let mut k: usize = start;
        while k < n && k - start < per
            invariant
                start <= k <= n,
                k - start <= per,
                n == report.entries@.len(),
                entries@.len() == k - start,
                forall|j: int|
                    0 <= j < entries@.len() ==> (#[trigger] entries@[j])@ == report.entries@[start
                        + j]@,
            decreases n - k,
        {
            entries.push(report.entries[k].dup());
            k = k + 1;
        }
        proof {
            assert((i + 1) * per == i * per + per) by (nonlinear_arith);
            assert(views(entries@) =~= report@.entries.subrange(
                i * per,
                page_end(n as int, per as int, i as int),
            ));
        }
        let mut page = ReportPage {
            replica: report.replica,
            ballot: report.ballot,
            committed_ballot: report.committed_ballot,
            page: i as u32,
            total: total as u32,
            entries,
            snapshot,
            digest: Digest32 { high: 0, low: 0 },
        };
        page.digest = page_digest(hash, &page);
        out.push(page);
        i = i + 1;
    }
    out
}

/// What the pages of one transfer agree on.
#[derive(Clone, Copy, Debug, PartialEq, Eq, Structural)]
pub struct Transfer {
    /// Page total.
    pub total: u32,
    /// Synchronized ballot.
    pub committed: Ballot,
    /// Digest of the report.
    pub snapshot: Digest32,
}

impl View for Transfer {
    type V = Transfer;

    open spec fn view(&self) -> Transfer {
        *self
    }
}

impl Dup for Transfer {
    fn dup(&self) -> (r: Self) {
        *self
    }
}

/// Per-replica page collector for one new ballot.
#[derive(Debug)]
pub struct ReportAssembler {
    ballot: Ballot,
    pages: OrdMap<ReplicaId, OrdMap<u32, ReportPage>>,
    /// Per replica: page total, synchronized ballot and report digest.
    totals: OrdMap<ReplicaId, Transfer>,
}

/// What an assembler holds.
#[verifier::ext_equal]
pub struct AssemblerView {
    /// The ballot the reports are for.
    pub ballot: Ballot,
    /// Pages by replica and number.
    pub pages: Map<ReplicaId, Map<u32, PageView>>,
    /// What each replica's pages agree on.
    pub totals: Map<ReplicaId, Transfer>,
}

impl View for ReportAssembler {
    type V = AssemblerView;

    closed spec fn view(&self) -> AssemblerView {
        AssemblerView { ballot: self.ballot, pages: self.pages@, totals: self.totals@ }
    }
}

impl Dup for ReportAssembler {
    fn dup(&self) -> (r: Self) {
        ReportAssembler {
            ballot: self.ballot,
            pages: self.pages.dup(),
            totals: self.totals.dup(),
        }
    }
}

/// The transfer a page belongs to.
pub open spec fn transfer_of(page: PageView) -> Transfer {
    Transfer { total: page.total, committed: page.committed_ballot, snapshot: page.snapshot }
}

/// The entries of the first `n` pages, in order.
pub open spec fn gathered(pages: Map<u32, PageView>, n: nat) -> Seq<ReportEntryView>
    decreases n,
{
    if n == 0 {
        Seq::empty()
    } else {
        gathered(pages, (n - 1) as nat) + pages[(n - 1) as u32].entries
    }
}

/// Every page of the transfer is there.
pub open spec fn all_there(pages: Map<u32, PageView>, total: u32) -> bool {
    forall|i: u32| i < total ==> #[trigger] pages.contains_key(i)
}

impl AssemblerView {
    /// Nothing collected.
    pub open spec fn empty(ballot: Ballot) -> Self {
        AssemblerView { ballot, pages: Map::empty(), totals: Map::empty() }
    }

    /// The pages of a replica.
    pub open spec fn pages_of(self, replica: ReplicaId) -> Map<u32, PageView> {
        if self.pages.contains_key(replica) {
            self.pages[replica]
        } else {
            Map::empty()
        }
    }

    /// Why a page is refused, if it is.
    pub open spec fn refusal<H: Fn(HashDomain, Vec<Vec<u8>>) -> Digest32>(
        self,
        hash: H,
        page: PageView,
    ) -> Option<PageError> {
        let held = self.pages_of(page.replica);
        if page.ballot != self.ballot {
            Some(PageError::WrongBallot)
        } else if page.total == 0 || page.total > MAX_REPORT_PAGES || page.page >= page.total
            || page.entries.len() > MAX_PAGE_ENTRIES {
            Some(PageError::OutOfBounds)
        } else if seal_of(hash, page) != page.digest {
            Some(PageError::Corrupt)
        } else if self.totals.contains_key(page.replica) && self.totals[page.replica]
            != transfer_of(page) {
            Some(PageError::Inconsistent)
        } else if held.contains_key(page.page) && held[page.page] != page {
            Some(PageError::Inconsistent)
        } else {
            None
        }
    }

    /// The collection with `page`.
    pub open spec fn with_page(self, page: PageView) -> Self {
        AssemblerView {
            pages: self.pages.insert(
                page.replica,
                self.pages_of(page.replica).insert(page.page, page),
            ),
            totals: self.totals.insert(page.replica, transfer_of(page)),
            ..self
        }
    }

    /// The report the pages of `replica` make up.
    pub open spec fn assembled(self, replica: ReplicaId) -> ReportView {
        ReportView {
            replica,
            ballot: self.ballot,
            committed_ballot: self.totals[replica].committed,
            entries: gathered(self.pages[replica], self.totals[replica].total as nat),
        }
    }

    /// Every page of `replica`'s report arrived, and they make up the report
    /// they claim to.
    pub open spec fn whole<H: Fn(HashDomain, Vec<Vec<u8>>) -> Digest32>(
        self,
        hash: H,
        replica: ReplicaId,
    ) -> bool {
        &&& self.pages.contains_key(replica)
        &&& self.totals.contains_key(replica)
        &&& all_there(self.pages[replica], self.totals[replica].total)
        &&& snapshot_of(hash, self.assembled(replica)) == self.totals[replica].snapshot
    }

    /// Replicas whose report is whole.
    pub open spec fn finished<H: Fn(HashDomain, Vec<Vec<u8>>) -> Digest32>(
        self,
        hash: H,
    ) -> Set<ReplicaId> {
        self.pages.dom().filter(|r: ReplicaId| self.whole(hash, r))
    }

    /// Replicas with some page and not all.
    pub open spec fn partial(self) -> Set<ReplicaId> {
        self.pages.dom().filter(
            |r: ReplicaId|
                self.totals.contains_key(r) && !all_there(self.pages[r], self.totals[r].total),
        )
    }
}

fn same_page(a: &ReportPage, b: &ReportPage) -> (r: bool)
    ensures
        r == (a@ == b@),
{
    let x = to_wire(a);
    let y = to_wire(b);
    let r = same_bytes(x.as_slice(), y.as_slice());
    proof {
        if r {
            lemma_wire_round_trip::<ReportPage>(a@);
            lemma_wire_round_trip::<ReportPage>(b@);
        }
    }
    r
}

impl ReportAssembler {
    /// Collect pages for `ballot`.
    pub fn new(ballot: Ballot) -> (r: Self)
        ensures
            r@ == AssemblerView::empty(ballot),
    {
        ReportAssembler { ballot, pages: OrdMap::new(), totals: OrdMap::new() }
    }

    /// Accept a page after verification. Duplicates are idempotent; two
    /// different pages with the same number are a conflict, never an
    /// arrival-order decision.
    pub fn accept<H: Fn(HashDomain, Vec<Vec<u8>>) -> Digest32>(
        &mut self,
        hash: &H,
        page: ReportPage,
    ) -> (r: Result<(), PageError>)
        requires
            is_hash(*hash),
        ensures
            match old(self)@.refusal(*hash, page@) {
                Some(e) => r == Err::<(), PageError>(e) && final(self)@ == old(self)@,
                None => r is Ok && final(self)@ == old(self)@.with_page(page@),
            },
    {
        if page.ballot != self.ballot {
            return Err(PageError::WrongBallot);
        }
        if page.total == 0 || page.total > MAX_REPORT_PAGES || page.page >= page.total {
            return Err(PageError::OutOfBounds);
        }
        if page.entries.len() > MAX_PAGE_ENTRIES {
            return Err(PageError::OutOfBounds);
        }
        if page_digest(hash, &page) != page.digest {
            return Err(PageError::Corrupt);
        }
        let transfer = Transfer {
            total: page.total,
            committed: page.committed_ballot,
            snapshot: page.snapshot,
        };
        // Every page of one replica's transfer must name the same report.
        if let Some(held) = self.totals.get(&page.replica) {
            if *held != transfer {
                return Err(PageError::Inconsistent);
            }
        }
        let ghost before = self@;
        if let Some(pages) = self.pages.get(&page.replica) {
            if let Some(held) = pages.get(&page.page) {
                if !same_page(held, &page) {
                    return Err(PageError::Inconsistent);
                }
            }
        }
        let mut pages = match self.pages.remove(&page.replica) {
            Some(pages) => pages,
            None => OrdMap::new(),
        };
        let replica = page.replica;
        pages.insert(page.page, page);
        self.pages.insert(replica, pages);
        self.totals.insert(replica, transfer);
        proof {
            assert(self.pages@ =~= before.with_page(page@).pages);
        }
        Ok(())
    }

    fn gather(&self, pages: &OrdMap<u32, ReportPage>, total: u32) -> (r: Option<Vec<ReportEntry>>)
        ensures
            match r {
                Some(entries) => all_there(pages@, total) && views(entries@) == gathered(
                    pages@,
                    total as nat,
                ),
                None => !all_there(pages@, total),
            },
    {
        let mut out: Vec<ReportEntry> = Vec::new();
        let mut i: u32 = 0;
        proof {
            assert(views(out@) =~= Seq::<ReportEntryView>::empty());
        }
        while i < total
            invariant
                i <= total,
                views(out@) == gathered(pages@, i as nat),
                forall|j: u32| j < i ==> #[trigger] pages@.contains_key(j),
            decreases total - i,
        {
            match pages.get(&i) {
                None => {
                    return None;
                },
                Some(page) => {
                    let ghost before = out@;
                    let mut more = dup_all(&page.entries);
                    let ghost added = more@;
                    out.append(&mut more);
                    proof {
                        assert(views(out@) =~= views(before) + views(added));
                    }
                },
            }
            i = i + 1;
        }
        Some(out)
    }

    fn finish<H: Fn(HashDomain, Vec<Vec<u8>>) -> Digest32>(
        &self,
        hash: &H,
        replica: &ReplicaId,
    ) -> (r: Option<RecoveryReport>)
        requires
            is_hash(*hash),
        ensures
            r is Some <==> self@.whole(*hash, *replica),
            r is Some ==> r->0@ == self@.assembled(*replica),
    {
        let pages = match self.pages.get(replica) {
            Some(pages) => pages,
            None => {
                return None;
            },
        };
        let transfer = match self.totals.get(replica) {
            Some(transfer) => transfer,
            None => {
                return None;
            },
        };
        match self.gather(pages, transfer.total) {
            None => None,
            Some(entries) => {
                let report = RecoveryReport {
                    replica: *replica,
                    ballot: self.ballot,
                    committed_ballot: transfer.committed,
                    entries,
                };
                // The assembled report is the one the pages claimed.
                if report_digest(hash, &report) != transfer.snapshot {
                    return None;
                }
                Some(report)
            },
        }
    }

    /// The complete, verified reports; a replica with any page missing is
    /// absent and never counts.
    #[verifier::rlimit(40)]
    pub fn complete<H: Fn(HashDomain, Vec<Vec<u8>>) -> Digest32>(&self, hash: &H) -> (r: Vec<
        RecoveryReport,
    >)
        requires
            is_hash(*hash),
        ensures
            ({
                let order = in_order::<ReplicaId>(self@.finished(*hash));
                views(r@) == Seq::new(order.len(), |i: int| self@.assembled(order[i]))
            }),
    {
        let n: usize = self.pages.len();
        let ghost order = in_order::<ReplicaId>(self.pages@.dom());
        let ghost goal = self@.finished(*hash);
        proof {
            lemma_in_order::<ReplicaId>(self.pages@.dom());
        }
        let mut out: Vec<RecoveryReport> = Vec::new();
        let ghost mut named: Seq<ReplicaId> = Seq::empty();
        let mut i: usize = 0;
        while i < n
            invariant
                i <= n == self.pages@.dom().len(),
                is_hash(*hash),
                order == in_order::<ReplicaId>(self.pages@.dom()),
                order.len() == n,
                goal == self@.finished(*hash),
                crate::ordered::ascending::<ReplicaId>(order),
                crate::ordered::ascending::<ReplicaId>(named),
                named.len() == out@.len(),
                forall|j: int|
                    0 <= j < named.len() ==> goal.contains(#[trigger] named[j]) && out@[j]@
                        == self@.assembled(named[j]) && exists|k: int|
                        0 <= k < i && #[trigger] order[k] == named[j],
                forall|k: int|
                    0 <= k < i && goal.contains(#[trigger] order[k]) ==> named.contains(order[k]),
            decreases n - i,
        {
            let replica = *self.pages.key_at(i);
            let ghost before = named;
            if let Some(report) = self.finish(hash, &replica) {
                out.push(report);
                proof {
                    named = named.push(replica);
                    assert forall|a: int, b: int| 0 <= a < b < named.len() implies ReplicaId::before(
                        #[trigger] named[a],
                        #[trigger] named[b],
                    ) by {
                        if b < before.len() {
                            assert(ReplicaId::before(before[a], before[b]));
                        } else {
                            let k = choose|k: int| 0 <= k < i && #[trigger] order[k] == before[a];
                            assert(ReplicaId::before(order[k], order[i as int]));
                        }
                    }
                }
            }
            proof {
                assert forall|j: int| 0 <= j < named.len() implies goal.contains(
                    #[trigger] named[j],
                ) && out@[j]@ == self@.assembled(named[j]) && exists|k: int|
                    0 <= k < i + 1 && #[trigger] order[k] == named[j] by {
                    if j < before.len() {
                        assert(named[j] == before[j]);
                        let k = choose|k: int| 0 <= k < i && #[trigger] order[k] == before[j];
                        assert(order[k] == named[j]);
                    } else {
                        assert(order[i as int] == named[j]);
                    }
                }
                assert forall|k: int|
                    0 <= k < i + 1 && goal.contains(#[trigger] order[k]) implies named.contains(
                    order[k],
                ) by {
                    if k < i {
                        let j = choose|j: int| 0 <= j < before.len() && before[j] == order[k];
                        assert(named[j] == order[k]);
                    } else {
                        assert(named[before.len() as int] == order[k]);
                    }
                }
            }
            i = i + 1;
        }
        proof {
            assert forall|x: ReplicaId| #[trigger] named.contains(x) <==> goal.contains(x) by {
                if goal.contains(x) {
                    assert(order.contains(x));
                    let k = choose|k: int| 0 <= k < order.len() && order[k] == x;
                    assert(goal.contains(order[k]));
                }
            }
            lemma_is_in_order::<ReplicaId>(named, goal);
            assert(views(out@) =~= Seq::new(named.len(), |i: int| self@.assembled(named[i])));
        }
        out
    }

    /// Replicas with at least one page but not all.
    pub fn incomplete(&self) -> (r: Vec<ReplicaId>)
        ensures
            r@ == in_order::<ReplicaId>(self@.partial()),
    {
        let n: usize = self.pages.len();
        let ghost order = in_order::<ReplicaId>(self.pages@.dom());
        let ghost goal = self@.partial();
        proof {
            lemma_in_order::<ReplicaId>(self.pages@.dom());
        }
        let mut out: OrdSet<ReplicaId> = OrdSet::new();
        let mut i: usize = 0;
        proof {
            assert(out@ =~= goal.intersect(order.take(0).to_set()));
        }
        while i < n
            invariant
                i <= n == self.pages@.dom().len(),
                order == in_order::<ReplicaId>(self.pages@.dom()),
                order.len() == n,
                goal == self@.partial(),
                out@ == goal.intersect(order.take(i as int).to_set()),
            decreases n - i,
        {
            let replica = *self.pages.key_at(i);
            if let Some(transfer) = self.totals.get(&replica) {
                if self.gather(self.pages.value_at(i), transfer.total).is_none() {
                    out.insert(replica);
                }
            }
            proof {
                crate::ordered::lemma_take_set(order, i as int);
                assert(out@ =~= goal.intersect(order.take(i + 1).to_set()));
            }
            i = i + 1;
        }
        proof {
            assert(order.take(n as int) =~= order);
            assert(out@ =~= goal) by {
                assert forall|c: ReplicaId| goal.contains(c) implies order.to_set().contains(c) by {
                    assert(order.contains(c));
                }
            }
        }
        let r = out.to_vec();
        proof {
            assert(views(r@) =~= r@);
        }
        r
    }
}

/// What an assembler holds of one replica are pages of `report`.
pub open spec fn holds_only<H: Fn(HashDomain, Vec<Vec<u8>>) -> Digest32>(
    hash: H,
    assembler: AssemblerView,
    report: ReportView,
    per: int,
) -> bool {
    let n = page_count(report.entries.len() as int, per);
    let first = page_of(hash, report, per, 0);
    &&& assembler.ballot == report.ballot
    &&& assembler.totals.contains_key(report.replica) ==> assembler.totals[report.replica]
        == transfer_of(first)
    &&& forall|i: u32| #[trigger]
        assembler.pages_of(report.replica).contains_key(i) ==> i < n && assembler.pages_of(
            report.replica,
        )[i] == page_of(hash, report, per, i as int)
}

/// Whichever pages of a report arrived so far, in whatever order, the next
/// one is accepted.
pub proof fn lemma_pages_accepted_in_any_order<H: Fn(HashDomain, Vec<Vec<u8>>) -> Digest32>(
    hash: H,
    assembler: AssemblerView,
    report: ReportView,
    per: int,
    i: int,
)
    requires
        1 <= per <= MAX_PAGE_ENTRIES,
        page_count(report.entries.len() as int, per) <= MAX_REPORT_PAGES,
        0 <= i < page_count(report.entries.len() as int, per),
        holds_only(hash, assembler, report, per),
    ensures
        assembler.refusal(hash, page_of(hash, report, per, i)) is None,
        holds_only(hash, assembler.with_page(page_of(hash, report, per, i)), report, per),
        assembler.with_page(page_of(hash, report, per, i)).pages_of(report.replica)
            == assembler.pages_of(report.replica).insert(i as u32, page_of(hash, report, per, i)),
{
    let n = report.entries.len() as int;
    lemma_page_range(n, per, i);
    let page = page_of(hash, report, per, i);
    let next = assembler.with_page(page);
    assert(seal_of(hash, page) == page.digest);
    assert(next.pages_of(report.replica) =~= assembler.pages_of(report.replica).insert(
        i as u32,
        page,
    ));
}

proof fn lemma_gathered<H: Fn(HashDomain, Vec<Vec<u8>>) -> Digest32>(
    hash: H,
    pages: Map<u32, PageView>,
    report: ReportView,
    per: int,
    k: nat,
)
    requires
        1 <= per,
        page_count(report.entries.len() as int, per) <= u32::MAX,
        k <= page_count(report.entries.len() as int, per),
        forall|i: u32|
            i < page_count(report.entries.len() as int, per) ==> #[trigger] pages.contains_key(i)
                && pages[i] == page_of(hash, report, per, i as int),
    ensures
        gathered(pages, k) == report.entries.take(
            if k == 0 {
                0
            } else {
                page_end(report.entries.len() as int, per, k - 1)
            },
        ),
    decreases k,
{
    let n = report.entries.len() as int;
    if k == 0 {
        assert(report.entries.take(0) =~= Seq::<ReportEntryView>::empty());
    } else {
        lemma_gathered(hash, pages, report, per, (k - 1) as nat);
        lemma_page_range(n, per, k - 1);
        let i = (k - 1) as u32;
        assert(pages.contains_key(i));
        let start = (k - 1) * per;
        if k >= 2 {
            lemma_page_range(n, per, k - 2);
            assert((k - 2 + 1) * per == (k - 1) * per);
        } else {
            assert((k - 1) * per == 0) by (nonlinear_arith)
                requires
                    k == 1,
            ;
        }
        assert(report.entries.take(start) + report.entries.subrange(
            start,
            page_end(n, per, k - 1),
        ) =~= report.entries.take(page_end(n, per, k - 1)));
    }
}

/// A report cut into pages and put together again is the same report.
pub proof fn lemma_pages_reassemble<H: Fn(HashDomain, Vec<Vec<u8>>) -> Digest32>(
    hash: H,
    assembler: AssemblerView,
    report: ReportView,
    per: int,
)
    requires
        1 <= per <= MAX_PAGE_ENTRIES,
        page_count(report.entries.len() as int, per) <= MAX_REPORT_PAGES,
        holds_only(hash, assembler, report, per),
        assembler.pages.contains_key(report.replica),
        assembler.totals.contains_key(report.replica),
        all_there(
            assembler.pages[report.replica],
            page_count(report.entries.len() as int, per) as u32,
        ),
    ensures
        assembler.whole(hash, report.replica),
        assembler.assembled(report.replica) == report,
{
    let n = report.entries.len() as int;
    let c = page_count(n, per);
    lemma_page_count(n, per);
    lemma_page_range(n, per, 0);
    let pages = assembler.pages[report.replica];
    assert forall|i: u32| i < c implies #[trigger] pages.contains_key(i) && pages[i] == page_of(
        hash,
        report,
        per,
        i as int,
    ) by {
        assert(assembler.pages_of(report.replica).contains_key(i));
    }
    lemma_gathered(hash, pages, report, per, c as nat);
    lemma_page_range(n, per, c - 1);
    assert(report.entries.take(n) =~= report.entries);
    assert(assembler.assembled(report.replica) =~= report);
}

} // verus!
