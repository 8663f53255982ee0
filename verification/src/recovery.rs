//! Recovery reports and Sync selection.
//!
//! A report summarizes one replica's protocol state at its durable cut for
//! the new ballot: the ballot it last synchronized and, per command, phase
//! and dependencies. The new leader selects, among a majority of reports,
//! those with the highest synchronized ballot and adopts every ACCEPT or
//! COMMIT command they carry. Selection is a function of the set of
//! reports, never of their arrival order, and it never merges by highest
//! phase across ballots. Eligible accepted candidates must agree; an
//! incompatible pair stops recovery with the evidence. Commands only
//! pre-accepted are re-proposed, never fabricated as accepted no-ops.

use vstd::prelude::*;

use crate::graph::{AnchorSeq, PathAnchors};
use crate::ids::{Ballot, CommandId, Digest32, ReplicaId, ballot_below};
use crate::lists::copy_list;
use crate::ordered::{Dup, OrdMap, OrdSet, dup_all, in_order, lemma_in_order, views};
use crate::phase::Phase;
use crate::quorum::{BallotConfiguration, ConfigView, lemma_majorities_intersect};
use crate::vote::same_set;

verus! {

/// One command in a recovery report.
#[derive(Debug, PartialEq, Eq)]
pub struct ReportEntry {
    /// Command.
    pub command: CommandId,
    /// Phase at the cut.
    pub phase: Phase,
    /// Dependencies at the cut.
    pub deps: Vec<CommandId>,
    /// Combined path evidence.
    pub path: Digest32,
    /// Per-key path digests.
    pub paths: PathAnchors,
    /// Leader sequence number the paths were synchronized at.
    pub seqnum: u64,
    /// Conflict keys of the command.
    pub keys: Vec<Vec<u8>>,
    /// Whether the payload is durably known (a placeholder is not).
    pub payload_present: bool,
}

/// What a report says of one command.
#[verifier::ext_equal]
pub struct ReportEntryView {
    /// Command.
    pub command: CommandId,
    /// Phase at the cut.
    pub phase: Phase,
    /// Dependencies at the cut.
    pub deps: Seq<CommandId>,
    /// Combined path evidence.
    pub path: Digest32,
    /// Per-key path digests.
    pub paths: AnchorSeq,
    /// Leader sequence number the paths were synchronized at.
    pub seqnum: u64,
    /// Conflict keys of the command.
    pub keys: Seq<Seq<u8>>,
    /// Whether the payload is durably known.
    pub payload_present: bool,
}

impl View for ReportEntry {
    type V = ReportEntryView;

    open spec fn view(&self) -> ReportEntryView {
        ReportEntryView {
            command: self.command,
            phase: self.phase,
            deps: self.deps@,
            path: self.path,
            paths: views(self.paths@),
            seqnum: self.seqnum,
            keys: views(self.keys@),
            payload_present: self.payload_present,
        }
    }
}

impl Dup for ReportEntry {
    fn dup(&self) -> (r: Self) {
        ReportEntry {
            command: self.command,
            phase: self.phase,
            deps: copy_list(&self.deps),
            path: self.path,
            paths: dup_all(&self.paths),
            seqnum: self.seqnum,
            keys: dup_all(&self.keys),
            payload_present: self.payload_present,
        }
    }
}

/// A replica's report for a new ballot.
#[derive(Debug, PartialEq, Eq)]
pub struct RecoveryReport {
    /// Reporting replica.
    pub replica: ReplicaId,
    /// The new ballot being promised.
    pub ballot: Ballot,
    /// Ballot last synchronized by the replica.
    pub committed_ballot: Ballot,
    /// Commands at the cut.
    pub entries: Vec<ReportEntry>,
}

/// What a report says.
#[verifier::ext_equal]
pub struct ReportView {
    /// Reporting replica.
    pub replica: ReplicaId,
    /// The new ballot being promised.
    pub ballot: Ballot,
    /// Ballot last synchronized by the replica.
    pub committed_ballot: Ballot,
    /// Commands at the cut.
    pub entries: Seq<ReportEntryView>,
}

impl View for RecoveryReport {
    type V = ReportView;

    open spec fn view(&self) -> ReportView {
        ReportView {
            replica: self.replica,
            ballot: self.ballot,
            committed_ballot: self.committed_ballot,
            entries: views(self.entries@),
        }
    }
}

impl Dup for RecoveryReport {
    fn dup(&self) -> (r: Self) {
        RecoveryReport {
            replica: self.replica,
            ballot: self.ballot,
            committed_ballot: self.committed_ballot,
            entries: dup_all(&self.entries),
        }
    }
}

/// One command of a Sync decision.
#[derive(Debug, PartialEq, Eq)]
pub struct SyncEntry {
    /// Command.
    pub command: CommandId,
    /// ACCEPT or COMMIT.
    pub phase: Phase,
    /// Dependencies.
    pub deps: Vec<CommandId>,
    /// Combined path evidence.
    pub path: Digest32,
    /// Per-key path digests.
    pub paths: PathAnchors,
    /// Leader sequence number the paths were synchronized at.
    pub seqnum: u64,
}

/// What a Sync decision says of one command.
#[verifier::ext_equal]
pub struct SyncEntryView {
    /// Command.
    pub command: CommandId,
    /// ACCEPT or COMMIT.
    pub phase: Phase,
    /// Dependencies.
    pub deps: Seq<CommandId>,
    /// Combined path evidence.
    pub path: Digest32,
    /// Per-key path digests.
    pub paths: AnchorSeq,
    /// Leader sequence number the paths were synchronized at.
    pub seqnum: u64,
}

impl View for SyncEntry {
    type V = SyncEntryView;

    open spec fn view(&self) -> SyncEntryView {
        SyncEntryView {
            command: self.command,
            phase: self.phase,
            deps: self.deps@,
            path: self.path,
            paths: views(self.paths@),
            seqnum: self.seqnum,
        }
    }
}

impl Dup for SyncEntry {
    fn dup(&self) -> (r: Self) {
        SyncEntry {
            command: self.command,
            phase: self.phase,
            deps: copy_list(&self.deps),
            path: self.path,
            paths: dup_all(&self.paths),
            seqnum: self.seqnum,
        }
    }
}

/// The selected recovery result.
#[derive(Debug)]
pub struct SyncDecision {
    /// New ballot.
    pub ballot: Ballot,
    /// Highest synchronized ballot among the reports (the source of state).
    pub source_ballot: Ballot,
    /// Adopted commands, keyed by identity.
    pub entries: OrdMap<CommandId, SyncEntry>,
    /// Commands seen only below ACCEPT or only in lower-ballot reports:
    /// re-proposed under the new ballot.
    pub reproposed: OrdSet<CommandId>,
}

/// What a recovery result says.
#[verifier::ext_equal]
pub struct SyncView {
    /// New ballot.
    pub ballot: Ballot,
    /// The source of state.
    pub source_ballot: Ballot,
    /// Adopted commands, keyed by identity.
    pub entries: Map<CommandId, SyncEntryView>,
    /// Commands re-proposed under the new ballot.
    pub reproposed: Set<CommandId>,
}

impl View for SyncDecision {
    type V = SyncView;

    open spec fn view(&self) -> SyncView {
        SyncView {
            ballot: self.ballot,
            source_ballot: self.source_ballot,
            entries: self.entries@,
            reproposed: self.reproposed@,
        }
    }
}

impl Dup for SyncDecision {
    fn dup(&self) -> (r: Self) {
        SyncDecision {
            ballot: self.ballot,
            source_ballot: self.source_ballot,
            entries: self.entries.dup(),
            reproposed: self.reproposed.dup(),
        }
    }
}

/// Why no Sync was selected.
#[derive(Debug, PartialEq, Eq)]
pub enum RecoveryError {
    /// A report from a non-voter.
    NotAVoter {
        /// Reporter.
        replica: ReplicaId,
    },
    /// Two reports from one replica.
    DuplicateReport {
        /// Reporter.
        replica: ReplicaId,
    },
    /// A report for another ballot.
    WrongBallot {
        /// Reporter.
        replica: ReplicaId,
    },
    /// A synchronized ballot from another epoch.
    EpochMismatch {
        /// Reporter.
        replica: ReplicaId,
    },
    /// Fewer than a majority of reports.
    InsufficientReports {
        /// Reports.
        have: usize,
        /// Majority.
        need: usize,
    },
    /// An ACCEPT/COMMIT entry without a durable payload.
    HalfInitialized {
        /// Reporter.
        replica: ReplicaId,
        /// Command.
        command: CommandId,
    },
    /// Two eligible accepted (or committed) candidates disagree.
    IncompatibleAccepted {
        /// Command.
        command: CommandId,
        /// One candidate's dependencies.
        first: Vec<CommandId>,
        /// The other's.
        second: Vec<CommandId>,
    },
}

/// Why no Sync was selected.
#[verifier::ext_equal]
pub enum RecoveryErrorView {
    /// A report from a non-voter.
    NotAVoter(ReplicaId),
    /// Two reports from one replica.
    DuplicateReport(ReplicaId),
    /// A report for another ballot.
    WrongBallot(ReplicaId),
    /// A synchronized ballot from another epoch.
    EpochMismatch(ReplicaId),
    /// Fewer than a majority of reports.
    InsufficientReports(nat, nat),
    /// An ACCEPT/COMMIT entry without a durable payload.
    HalfInitialized(ReplicaId, CommandId),
    /// Two eligible accepted (or committed) candidates disagree.
    IncompatibleAccepted(CommandId, Seq<CommandId>, Seq<CommandId>),
}

impl View for RecoveryError {
    type V = RecoveryErrorView;

    open spec fn view(&self) -> RecoveryErrorView {
        match self {
            RecoveryError::NotAVoter { replica } => RecoveryErrorView::NotAVoter(*replica),
            RecoveryError::DuplicateReport { replica } => RecoveryErrorView::DuplicateReport(
                *replica,
            ),
            RecoveryError::WrongBallot { replica } => RecoveryErrorView::WrongBallot(*replica),
            RecoveryError::EpochMismatch { replica } => RecoveryErrorView::EpochMismatch(*replica),
            RecoveryError::InsufficientReports { have, need } =>
                RecoveryErrorView::InsufficientReports(*have as nat, *need as nat),
            RecoveryError::HalfInitialized { replica, command } =>
                RecoveryErrorView::HalfInitialized(*replica, *command),
            RecoveryError::IncompatibleAccepted { command, first, second } =>
                RecoveryErrorView::IncompatibleAccepted(*command, first@, second@),
        }
    }
}

/// The first entry at ACCEPT or later whose payload is not durable.
pub open spec fn half_initialized(entries: Seq<ReportEntryView>) -> Option<CommandId>
    decreases entries.len(),
{
    if entries.len() == 0 {
        None
    } else {
        let earlier = half_initialized(entries.drop_last());
        if earlier is Some {
            earlier
        } else if entries.last().phase.rank() >= Phase::Accept.rank()
            && !entries.last().payload_present {
            Some(entries.last().command)
        } else {
            None
        }
    }
}

/// What is wrong with a report, given the reporters before it.
pub open spec fn report_defect(
    config: ConfigView,
    seen: Set<ReplicaId>,
    report: ReportView,
) -> Option<RecoveryErrorView> {
    if !config.voters.contains(report.replica) {
        Some(RecoveryErrorView::NotAVoter(report.replica))
    } else if seen.contains(report.replica) {
        Some(RecoveryErrorView::DuplicateReport(report.replica))
    } else if report.ballot != config.ballot {
        Some(RecoveryErrorView::WrongBallot(report.replica))
    } else if report.committed_ballot.epoch != config.epoch {
        Some(RecoveryErrorView::EpochMismatch(report.replica))
    } else {
        match half_initialized(report.entries) {
            Some(c) => Some(RecoveryErrorView::HalfInitialized(report.replica, c)),
            None => None,
        }
    }
}

/// The reporting replicas.
pub open spec fn reporters(reports: Seq<ReportView>) -> Set<ReplicaId> {
    reports.map_values(|r: ReportView| r.replica).to_set()
}

/// The first thing wrong with the reports, in the order presented.
pub open spec fn first_defect(config: ConfigView, reports: Seq<ReportView>) -> Option<
    RecoveryErrorView,
>
    decreases reports.len(),
{
    if reports.len() == 0 {
        None
    } else {
        let before = reports.drop_last();
        let earlier = first_defect(config, before);
        if earlier is Some {
            earlier
        } else {
            report_defect(config, reporters(before), reports.last())
        }
    }
}

/// The highest synchronized ballot reported.
pub open spec fn highest_synced(reports: Seq<ReportView>) -> Ballot
    decreases reports.len(),
{
    if reports.len() <= 1 {
        reports[0].committed_ballot
    } else {
        let before = highest_synced(reports.drop_last());
        let last = reports.last().committed_ballot;
        if ballot_below(last, before) {
            before
        } else {
            last
        }
    }
}

/// The report of `replica`.
pub open spec fn report_by(reports: Seq<ReportView>, replica: ReplicaId) -> ReportView {
    reports[choose|i: int| 0 <= i < reports.len() && (#[trigger] reports[i]).replica == replica]
}

/// The reports by reporter identity.
pub open spec fn by_reporter(reports: Seq<ReportView>) -> Seq<ReportView> {
    let order = in_order::<ReplicaId>(reporters(reports));
    Seq::new(order.len(), |i: int| report_by(reports, order[i]))
}

/// A selection under way.
#[verifier::ext_equal]
pub struct Selecting {
    /// Adopted commands so far.
    pub entries: Map<CommandId, SyncEntryView>,
    /// Commands to re-propose so far.
    pub reproposed: Set<CommandId>,
}

/// ACCEPT or COMMIT, whichever the phase amounts to.
pub open spec fn phase_class(phase: Phase) -> Phase {
    if phase.rank() >= Phase::Commit.rank() {
        Phase::Commit
    } else {
        Phase::Accept
    }
}

/// The selection with one more entry.
pub open spec fn merge_entry(
    state: Selecting,
    at_source: bool,
    e: ReportEntryView,
) -> Result<Selecting, RecoveryErrorView> {
    if !at_source || e.phase.rank() < Phase::Accept.rank() {
        Ok(Selecting { reproposed: state.reproposed.insert(e.command), ..state })
    } else if !state.entries.contains_key(e.command) {
        Ok(
            Selecting {
                entries: state.entries.insert(
                    e.command,
                    SyncEntryView {
                        command: e.command,
                        phase: phase_class(e.phase),
                        deps: e.deps,
                        path: e.path,
                        paths: e.paths,
                        seqnum: e.seqnum,
                    },
                ),
                ..state
            },
        )
    } else {
        let held = state.entries[e.command];
        if held.deps.to_set() != e.deps.to_set() {
            Err(RecoveryErrorView::IncompatibleAccepted(e.command, held.deps, e.deps))
        } else if phase_class(e.phase).rank() > held.phase.rank() {
            Ok(
                Selecting {
                    entries: state.entries.insert(
                        e.command,
                        SyncEntryView { phase: phase_class(e.phase), ..held },
                    ),
                    ..state
                },
            )
        } else {
            Ok(state)
        }
    }
}

/// The selection with the entries of one report.
pub open spec fn merge_entries(
    state: Selecting,
    at_source: bool,
    entries: Seq<ReportEntryView>,
) -> Result<Selecting, RecoveryErrorView>
    decreases entries.len(),
{
    if entries.len() == 0 {
        Ok(state)
    } else {
        match merge_entries(state, at_source, entries.drop_last()) {
            Err(e) => Err(e),
            Ok(s) => merge_entry(s, at_source, entries.last()),
        }
    }
}

/// The selection over reports, in order.
pub open spec fn merge_reports(source: Ballot, reports: Seq<ReportView>) -> Result<
    Selecting,
    RecoveryErrorView,
>
    decreases reports.len(),
{
    if reports.len() == 0 {
        Ok(Selecting { entries: Map::empty(), reproposed: Set::empty() })
    } else {
        match merge_reports(source, reports.drop_last()) {
            Err(e) => Err(e),
            Ok(s) => merge_entries(
                s,
                reports.last().committed_ballot == source,
                reports.last().entries,
            ),
        }
    }
}

/// The Sync result the reports select, or why there is none.
pub open spec fn selection(config: ConfigView, reports: Seq<ReportView>) -> Result<
    SyncView,
    RecoveryErrorView,
> {
    match first_defect(config, reports) {
        Some(e) => Err(e),
        None => if reports.len() < config.slow_size() {
            Err(RecoveryErrorView::InsufficientReports(reports.len(), config.slow_size()))
        } else {
            let source = highest_synced(reports);
            match merge_reports(source, by_reporter(reports)) {
                Err(e) => Err(e),
                Ok(s) => Ok(
                    SyncView {
                        ballot: config.ballot,
                        source_ballot: source,
                        entries: s.entries,
                        reproposed: s.reproposed.difference(s.entries.dom()),
                    },
                ),
            }
        },
    }
}

/// What a selection gives back.
pub open spec fn sync_result(r: Result<SyncDecision, RecoveryError>) -> Result<
    SyncView,
    RecoveryErrorView,
> {
    match r {
        Ok(d) => Ok(d@),
        Err(e) => Err(e@),
    }
}

proof fn lemma_half_prefix(entries: Seq<ReportEntryView>, n: int)
    requires
        0 <= n <= entries.len(),
    ensures
        half_initialized(entries.take(n)) is Some ==> half_initialized(entries)
            == half_initialized(entries.take(n)),
    decreases entries.len() - n,
{
    if n < entries.len() {
        lemma_half_prefix(entries, n + 1);
        assert(entries.take(n + 1).drop_last() =~= entries.take(n));
    } else {
        assert(entries.take(n) =~= entries);
    }
}

proof fn lemma_defect_prefix(config: ConfigView, reports: Seq<ReportView>, n: int)
    requires
        0 <= n <= reports.len(),
    ensures
        first_defect(config, reports.take(n)) is Some ==> first_defect(config, reports)
            == first_defect(config, reports.take(n)),
    decreases reports.len() - n,
{
    if n < reports.len() {
        lemma_defect_prefix(config, reports, n + 1);
        assert(reports.take(n + 1).drop_last() =~= reports.take(n));
    } else {
        assert(reports.take(n) =~= reports);
    }
}

fn find_half_initialized(entries: &Vec<ReportEntry>) -> (r: Option<CommandId>)
    ensures
        r == half_initialized(views(entries@)),
{
    let ghost all = views(entries@);
    let mut i: usize = 0;
    while i < entries.len()
        invariant
            i <= entries@.len(),
            all == views(entries@),
            half_initialized(all.take(i as int)) is None,
        decreases entries@.len() - i,
    {
        let e = &entries[i];
        proof {
            assert(all.take(i + 1).drop_last() =~= all.take(i as int));
            assert(all[i as int] == e@);
            lemma_half_prefix(all, i + 1);
        }
        if e.phase.at_least(Phase::Accept) && !e.payload_present {
            return Some(e.command);
        }
        i = i + 1;
    }
    assert(all.take(all.len() as int) =~= all);
    None
}

/// Each reporter's position in the list, if nothing is wrong with it.
#[verifier::rlimit(40)]
fn validate_reports(config: &BallotConfiguration, reports: &Vec<RecoveryReport>) -> (r: Result<
    OrdMap<ReplicaId, usize>,
    RecoveryError,
>)
    ensures
        match r {
            Err(e) => first_defect(config@, views(reports@)) == Some(e@),
            Ok(at) => {
                &&& first_defect(config@, views(reports@)) is None
                &&& at@.dom() == reporters(views(reports@))
                &&& at@.dom().len() == reports@.len()
                &&& forall|x: ReplicaId| #[trigger]
                    at@.contains_key(x) ==> at@[x] < reports@.len() && views(
                        reports@,
                    )[at@[x] as int].replica == x && views(reports@)[at@[x] as int] == report_by(
                        views(reports@),
                        x,
                    )
            },
        },
{
    let ghost all = views(reports@);
    let mut at: OrdMap<ReplicaId, usize> = OrdMap::new();
    let mut i: usize = 0;
    proof {
        assert(reporters(all.take(0)) =~= Set::<ReplicaId>::empty());
        assert(at@.dom() =~= Set::<ReplicaId>::empty());
    }
    while i < reports.len()
        invariant
            i <= reports@.len(),
            all == views(reports@),
            first_defect(config@, all.take(i as int)) is None,
            at@.dom() == reporters(all.take(i as int)),
            at@.dom().finite(),
            at@.dom().len() == i,
            forall|x: ReplicaId| #[trigger]
                at@.contains_key(x) ==> at@[x] < i && all[at@[x] as int].replica == x,
            forall|j: int| 0 <= j < i ==> at@.contains_key((#[trigger] all[j]).replica)
                && at@[all[j].replica] == j,
        decreases reports@.len() - i,
    {
        let report = &reports[i];
        let ghost prefix = all.take(i as int);
        proof {
            assert(all.take(i + 1).drop_last() =~= prefix);
            assert(all[i as int] == report@);
            lemma_defect_prefix(config@, all, i + 1);
        }
        if !config.is_voter(&report.replica) {
            return Err(RecoveryError::NotAVoter { replica: report.replica });
        }
        if at.contains_key(&report.replica) {
            return Err(RecoveryError::DuplicateReport { replica: report.replica });
        }
        if report.ballot != config.ballot() {
            return Err(RecoveryError::WrongBallot { replica: report.replica });
        }
        if report.committed_ballot.epoch != config.epoch() {
            return Err(RecoveryError::EpochMismatch { replica: report.replica });
        }
        if let Some(command) = find_half_initialized(&report.entries) {
            return Err(RecoveryError::HalfInitialized { replica: report.replica, command });
        }
        let ghost before = at@;
        at.insert(report.replica, i);
        proof {
            let next = all.take(i + 1);
            assert(reporters(next) =~= reporters(prefix).insert(report.replica)) by {
                let f = |r: ReportView| r.replica;
                assert(next.map_values(f) =~= prefix.map_values(f).push(report.replica));
                assert forall|x: ReplicaId| reporters(next).contains(x) <==> reporters(
                    prefix,
                ).insert(report.replica).contains(x) by {
                    let a = next.map_values(f);
                    let b = prefix.map_values(f);
                    if a.to_set().contains(x) {
                        let j = choose|j: int| 0 <= j < a.len() && a[j] == x;
                        if j < b.len() {
                            assert(b[j] == x);
                        }
                    }
                    if b.to_set().contains(x) {
                        let j = choose|j: int| 0 <= j < b.len() && b[j] == x;
                        assert(a[j] == x);
                    }
                    assert(a[i as int] == report.replica);
                }
            }
            assert(at@.dom() =~= before.dom().insert(report.replica));
        }
        i = i + 1;
    }
    proof {
        assert(all.take(all.len() as int) =~= all);
        assert forall|x: ReplicaId| #[trigger] at@.contains_key(x) implies at@[x] < reports@.len()
            && all[at@[x] as int].replica == x && all[at@[x] as int] == report_by(all, x) by {
            let j = choose|j: int| 0 <= j < all.len() && (#[trigger] all[j]).replica == x;
            assert(all[at@[x] as int].replica == x);
            assert(at@[all[j].replica] == j);
        }
    }
    Ok(at)
}

fn find_highest(reports: &Vec<RecoveryReport>) -> (r: Ballot)
    requires
        reports@.len() > 0,
    ensures
        r == highest_synced(views(reports@)),
{
    let ghost all = views(reports@);
    let mut best = reports[0].committed_ballot;
    let mut i: usize = 1;
    while i < reports.len()
        invariant
            1 <= i <= reports@.len(),
            all == views(reports@),
            best == highest_synced(all.take(i as int)),
        decreases reports@.len() - i,
    {
        let next = reports[i].committed_ballot;
        proof {
            assert(all.take(i + 1).drop_last() =~= all.take(i as int));
            assert(all.take(i + 1).last() == reports@[i as int]@);
        }
        if !next.below(&best) {
            best = next;
        }
        i = i + 1;
    }
    assert(all.take(all.len() as int) =~= all);
    best
}

#[verifier::rlimit(40)]
fn merge_report(
    entries: &mut OrdMap<CommandId, SyncEntry>,
    reproposed: &mut OrdSet<CommandId>,
    at_source: bool,
    report: &RecoveryReport,
) -> (r: Result<(), RecoveryError>)
    ensures
        match r {
            Err(e) => merge_entries(
                Selecting { entries: old(entries)@, reproposed: old(reproposed)@ },
                at_source,
                report@.entries,
            ) == Err::<Selecting, RecoveryErrorView>(e@),
            Ok(()) => merge_entries(
                Selecting { entries: old(entries)@, reproposed: old(reproposed)@ },
                at_source,
                report@.entries,
            ) == Ok::<Selecting, RecoveryErrorView>(
                Selecting { entries: final(entries)@, reproposed: final(reproposed)@ },
            ),
        },
{
    let ghost start = Selecting { entries: entries@, reproposed: reproposed@ };
    let ghost all = report@.entries;
    let mut i: usize = 0;
    while i < report.entries.len()
        invariant
            i <= report.entries@.len(),
            all == report@.entries,
            start == (Selecting { entries: old(entries)@, reproposed: old(reproposed)@ }),
            merge_entries(start, at_source, all.take(i as int)) == Ok::<
                Selecting,
                RecoveryErrorView,
            >(Selecting { entries: entries@, reproposed: reproposed@ }),
        decreases report.entries@.len() - i,
    {
        let e = &report.entries[i];
        proof {
            assert(all.take(i + 1).drop_last() =~= all.take(i as int));
            assert(all.take(i + 1).last() == e@);
            lemma_merge_prefix(start, at_source, all, i + 1);
        }
        if !at_source || !e.phase.at_least(Phase::Accept) {
            reproposed.insert(e.command);
            i = i + 1;
            continue ;
        }
        let phase = if e.phase.at_least(Phase::Commit) {
            Phase::Commit
        } else {
            Phase::Accept
        };
        match entries.remove(&e.command) {
            None => {
                proof {
                    assert(entries@.insert(e.command, SyncEntryView {
                        command: e.command,
                        phase,
                        deps: e.deps@,
                        path: e.path,
                        paths: views(e.paths@),
                        seqnum: e.seqnum,
                    }) =~= entries@.remove(e.command).insert(e.command, SyncEntryView {
                        command: e.command,
                        phase,
                        deps: e.deps@,
                        path: e.path,
                        paths: views(e.paths@),
                        seqnum: e.seqnum,
                    }));
                }
                entries.insert(
                    e.command,
                    SyncEntry {
                        command: e.command,
                        phase,
                        deps: copy_list(&e.deps),
                        path: e.path,
                        paths: dup_all(&e.paths),
                        seqnum: e.seqnum,
                    },
                );
            },
            Some(mut held) => {
                if !same_set(&held.deps, &e.deps) {
                    return Err(
                        RecoveryError::IncompatibleAccepted {
                            command: e.command,
                            first: held.deps,
                            second: copy_list(&e.deps),
                        },
                    );
                }
                if phase.step() > held.phase.step() {
                    held.phase = phase;
                }
                entries.insert(e.command, held);
            },
        }
        proof {
            let got = merge_entries(start, at_source, all.take(i + 1));
            assert(got is Ok);
            assert(got->Ok_0.entries =~= entries@);
        }
        i = i + 1;
    }
    assert(all.take(all.len() as int) =~= all);
    Ok(())
}

proof fn lemma_merge_prefix(
    state: Selecting,
    at_source: bool,
    entries: Seq<ReportEntryView>,
    n: int,
)
    requires
        0 <= n <= entries.len(),
    ensures
        merge_entries(state, at_source, entries.take(n)) is Err ==> merge_entries(
            state,
            at_source,
            entries,
        ) == merge_entries(state, at_source, entries.take(n)),
    decreases entries.len() - n,
{
    if n < entries.len() {
        lemma_merge_prefix(state, at_source, entries, n + 1);
        assert(entries.take(n + 1).drop_last() =~= entries.take(n));
    } else {
        assert(entries.take(n) =~= entries);
    }
}

proof fn lemma_merge_reports_prefix(source: Ballot, reports: Seq<ReportView>, n: int)
    requires
        0 <= n <= reports.len(),
    ensures
        merge_reports(source, reports.take(n)) is Err ==> merge_reports(source, reports)
            == merge_reports(source, reports.take(n)),
    decreases reports.len() - n,
{
    if n < reports.len() {
        lemma_merge_reports_prefix(source, reports, n + 1);
        assert(reports.take(n + 1).drop_last() =~= reports.take(n));
    } else {
        assert(reports.take(n) =~= reports);
    }
}

/// Select the Sync result from `reports` for the ballot of `config`.
pub fn select(config: &BallotConfiguration, reports: &Vec<RecoveryReport>) -> (r: Result<
    SyncDecision,
    RecoveryError,
>)
    ensures
        sync_result(r) == selection(config@, views(reports@)),
{
    let at = match validate_reports(config, reports) {
        Err(e) => {
            return Err(e);
        },
        Ok(at) => at,
    };
    let need: usize = config.slow_size();
    if reports.len() < need {
        return Err(RecoveryError::InsufficientReports { have: reports.len(), need });
    }
    let ghost all = views(reports@);
    // Only the reports at the highest synchronized ballot supply state.
    let source_ballot = find_highest(reports);
    let mut entries: OrdMap<CommandId, SyncEntry> = OrdMap::new();
    let mut reproposed: OrdSet<CommandId> = OrdSet::new();
    let n: usize = at.len();
    let ghost sorted = by_reporter(all);
    proof {
        lemma_in_order::<ReplicaId>(at@.dom());
    }
    // By reporter identity: the result does not depend on arrival order.
    let mut i: usize = 0;
    while i < n
        invariant
            i <= n == at@.dom().len(),
            all == views(reports@),
            at@.dom() == reporters(all),
            sorted == by_reporter(all),
            sorted.len() == n,
            in_order::<ReplicaId>(at@.dom()).len() == n,
            source_ballot == highest_synced(all),
            first_defect(config@, all) is None,
            all.len() >= config@.slow_size(),
            forall|x: ReplicaId| #[trigger]
                at@.contains_key(x) ==> at@[x] < reports@.len() && all[at@[x] as int]
                    == report_by(all, x),
            merge_reports(source_ballot, sorted.take(i as int)) == Ok::<
                Selecting,
                RecoveryErrorView,
            >(Selecting { entries: entries@, reproposed: reproposed@ }),
        decreases n - i,
    {
        let replica = *at.key_at(i);
        let index = *at.value_at(i);
        let report = &reports[index];
        proof {
            assert(at@.contains_key(replica));
            assert(sorted[i as int] == report@);
            assert(sorted.take(i + 1).drop_last() =~= sorted.take(i as int));
            assert(sorted.take(i + 1).last() == report@);
            lemma_merge_reports_prefix(source_ballot, sorted, i + 1);
        }
        let at_source = report.committed_ballot == source_ballot;
        match merge_report(&mut entries, &mut reproposed, at_source, report) {
            Err(e) => {
                return Err(e);
            },
            Ok(()) => {},
        }
        i = i + 1;
    }
    proof {
        assert(sorted.take(n as int) =~= sorted);
    }
    reproposed.remove_keys(&entries);
    Ok(SyncDecision { ballot: config.ballot(), source_ballot, entries, reproposed })
}

/// A report with nothing wrong in itself.
pub open spec fn fit(config: ConfigView, report: ReportView) -> bool {
    report_defect(config, Set::empty(), report) is None
}

/// No two reports are of one replica.
pub open spec fn one_each(reports: Seq<ReportView>) -> bool {
    forall|i: int, j: int|
        0 <= i < j < reports.len() ==> (#[trigger] reports[i]).replica != (
        #[trigger] reports[j]).replica
}

proof fn lemma_reporters(reports: Seq<ReportView>)
    ensures
        forall|x: ReplicaId| #[trigger]
            reporters(reports).contains(x) <==> exists|i: int|
                0 <= i < reports.len() && (#[trigger] reports[i]).replica == x,
{
    let f = |r: ReportView| r.replica;
    let a = reports.map_values(f);
    assert forall|x: ReplicaId| #[trigger]
        reporters(reports).contains(x) <==> exists|i: int|
            0 <= i < reports.len() && (#[trigger] reports[i]).replica == x by {
        if reporters(reports).contains(x) {
            let i = choose|i: int| 0 <= i < a.len() && a[i] == x;
            assert(reports[i].replica == x);
        }
        if exists|i: int| 0 <= i < reports.len() && (#[trigger] reports[i]).replica == x {
            let i = choose|i: int| 0 <= i < reports.len() && (#[trigger] reports[i]).replica == x;
            assert(a[i] == x);
        }
    }
}

proof fn lemma_clean(config: ConfigView, reports: Seq<ReportView>)
    ensures
        first_defect(config, reports) is None <==> one_each(reports) && (forall|i: int|
            0 <= i < reports.len() ==> fit(config, #[trigger] reports[i])),
    decreases reports.len(),
{
    if reports.len() > 0 {
        let before = reports.drop_last();
        let last = reports.last();
        lemma_clean(config, before);
        lemma_reporters(before);
        if first_defect(config, reports) is None {
            assert(!reporters(before).contains(last.replica));
            assert forall|i: int, j: int| 0 <= i < j < reports.len() implies (
            #[trigger] reports[i]).replica != (#[trigger] reports[j]).replica by {
                if j < before.len() {
                    assert(before[i].replica != before[j].replica);
                } else {
                    assert(before[i].replica != last.replica);
                }
            }
            assert forall|i: int| 0 <= i < reports.len() implies fit(
                config,
                #[trigger] reports[i],
            ) by {
                if i < before.len() {
                    assert(fit(config, before[i]));
                }
            }
        }
        if one_each(reports) && (forall|i: int|
            0 <= i < reports.len() ==> fit(config, #[trigger] reports[i])) {
            assert forall|i: int, j: int| 0 <= i < j < before.len() implies (
            #[trigger] before[i]).replica != (#[trigger] before[j]).replica by {
                assert(reports[i].replica != reports[j].replica);
            }
            assert forall|i: int| 0 <= i < before.len() implies fit(
                config,
                #[trigger] before[i],
            ) by {
                assert(fit(config, reports[i]));
            }
            assert(fit(config, reports[reports.len() - 1]));
            assert(!reporters(before).contains(last.replica)) by {
                if reporters(before).contains(last.replica) {
                    let i = choose|i: int|
                        0 <= i < before.len() && (#[trigger] before[i]).replica == last.replica;
                    assert(reports[i].replica != reports[reports.len() - 1].replica);
                }
            }
        }
    }
}

proof fn lemma_highest(reports: Seq<ReportView>)
    requires
        reports.len() > 0,
    ensures
        exists|i: int|
            0 <= i < reports.len() && (#[trigger] reports[i]).committed_ballot == highest_synced(
                reports,
            ),
        forall|i: int|
            0 <= i < reports.len() ==> !ballot_below(
                highest_synced(reports),
                (#[trigger] reports[i]).committed_ballot,
            ),
    decreases reports.len(),
{
    if reports.len() == 1 {
        assert(reports[0].committed_ballot == highest_synced(reports));
    } else {
        let before = reports.drop_last();
        lemma_highest(before);
        let h = highest_synced(before);
        let last = reports.last().committed_ballot;
        if ballot_below(last, h) {
            let i = choose|i: int|
                0 <= i < before.len() && (#[trigger] before[i]).committed_ballot == h;
            assert(reports[i].committed_ballot == highest_synced(reports));
        } else {
            assert(reports[reports.len() - 1].committed_ballot == last);
        }
        assert forall|i: int| 0 <= i < reports.len() implies !ballot_below(
            highest_synced(reports),
            (#[trigger] reports[i]).committed_ballot,
        ) by {
            if i < before.len() {
                assert(!ballot_below(h, before[i].committed_ballot));
            }
        }
    }
}

/// Selection is a function of the set of reports: presented in another
/// order, the same reports select the same result.
#[verifier::rlimit(40)]
pub proof fn lemma_selection_ignores_arrival(
    config: ConfigView,
    reports: Seq<ReportView>,
    others: Seq<ReportView>,
)
    requires
        first_defect(config, reports) is None,
        others.no_duplicates(),
        reports.to_set() == others.to_set(),
    ensures
        selection(config, reports) == selection(config, others),
{
    lemma_clean(config, reports);
    lemma_clean(config, others);
    lemma_reporters(reports);
    lemma_reporters(others);
    assert forall|x: ReportView| reports.contains(x) <==> others.contains(x) by {
        assert(reports.to_set().contains(x) <==> reports.contains(x));
        assert(others.to_set().contains(x) <==> others.contains(x));
    }
    assert(reports.no_duplicates()) by {
        assert forall|i: int, j: int|
            0 <= i < reports.len() && 0 <= j < reports.len() && i != j implies reports[i]
            != reports[j] by {
            if i < j {
                assert(reports[i].replica != reports[j].replica);
            } else {
                assert(reports[j].replica != reports[i].replica);
            }
        }
    }
    reports.unique_seq_to_set();
    others.unique_seq_to_set();
    assert(reports.len() == others.len());
    assert forall|i: int| 0 <= i < others.len() implies fit(config, #[trigger] others[i]) by {
        assert(others.contains(others[i]));
        let k = choose|k: int| 0 <= k < reports.len() && reports[k] == others[i];
        assert(fit(config, reports[k]));
    }
    assert forall|i: int, j: int| 0 <= i < j < others.len() implies (
    #[trigger] others[i]).replica != (#[trigger] others[j]).replica by {
        assert(others.contains(others[i]) && others.contains(others[j]));
        let k = choose|k: int| 0 <= k < reports.len() && reports[k] == others[i];
        let m = choose|m: int| 0 <= m < reports.len() && reports[m] == others[j];
        assert(k != m);
        if k < m {
            assert(reports[k].replica != reports[m].replica);
        } else {
            assert(reports[m].replica != reports[k].replica);
        }
    }
    assert(first_defect(config, others) is None);
    if reports.len() >= config.slow_size() {
        lemma_highest(reports);
        lemma_highest(others);
        let h1 = highest_synced(reports);
        let h2 = highest_synced(others);
        let i = choose|i: int| 0 <= i < reports.len() && (#[trigger] reports[i]).committed_ballot == h1;
        let j = choose|j: int| 0 <= j < others.len() && (#[trigger] others[j]).committed_ballot == h2;
        assert(reports.contains(reports[i]));
        assert(others.contains(others[j]));
        let i2 = choose|i2: int| 0 <= i2 < others.len() && others[i2] == reports[i];
        let j2 = choose|j2: int| 0 <= j2 < reports.len() && reports[j2] == others[j];
        assert(!ballot_below(h2, others[i2].committed_ballot));
        assert(!ballot_below(h1, reports[j2].committed_ballot));
        assert(fit(config, reports[i]) && fit(config, reports[j2]));
        assert(h1.epoch == h2.epoch);
        assert(h1 == h2);
        assert(reporters(reports) =~= reporters(others)) by {
            assert forall|x: ReplicaId| reporters(reports).contains(x) <==> reporters(
                others,
            ).contains(x) by {
                if reporters(reports).contains(x) {
                    let a = choose|a: int|
                        0 <= a < reports.len() && (#[trigger] reports[a]).replica == x;
                    assert(reports.contains(reports[a]));
                    let b = choose|b: int| 0 <= b < others.len() && others[b] == reports[a];
                    assert(others[b].replica == x);
                }
                if reporters(others).contains(x) {
                    let a = choose|a: int|
                        0 <= a < others.len() && (#[trigger] others[a]).replica == x;
                    assert(others.contains(others[a]));
                    let b = choose|b: int| 0 <= b < reports.len() && reports[b] == others[a];
                    assert(reports[b].replica == x);
                }
            }
        }
        let order = in_order::<ReplicaId>(reporters(reports));
        assert(reporters(reports).finite());
        lemma_in_order::<ReplicaId>(reporters(reports));
        assert forall|n: int| 0 <= n < order.len() implies report_by(reports, order[n])
            == report_by(others, order[n]) by {
            let x = order[n];
            assert(order.contains(x));
            let a = choose|a: int| 0 <= a < reports.len() && (#[trigger] reports[a]).replica == x;
            let b = choose|b: int| 0 <= b < others.len() && (#[trigger] others[b]).replica == x;
            assert(others.contains(others[b]));
            let c = choose|c: int| 0 <= c < reports.len() && reports[c] == others[b];
            if a < c {
                assert(reports[a].replica != reports[c].replica);
            } else if c < a {
                assert(reports[c].replica != reports[a].replica);
            }
        }
        assert(by_reporter(reports) =~= by_reporter(others));
    }
}

/// A report at the source ballot names `c` at ACCEPT or later.
pub open spec fn candidate(
    reports: Seq<ReportView>,
    source: Ballot,
    c: CommandId,
    i: int,
    k: int,
) -> bool {
    &&& 0 <= i < reports.len()
    &&& 0 <= k < reports[i].entries.len()
    &&& reports[i].committed_ballot == source
    &&& reports[i].entries[k].command == c
    &&& reports[i].entries[k].phase.rank() >= Phase::Accept.rank()
}

/// Some report names `c`.
pub open spec fn named(reports: Seq<ReportView>, c: CommandId, i: int, k: int) -> bool {
    &&& 0 <= i < reports.len()
    &&& 0 <= k < reports[i].entries.len()
    &&& reports[i].entries[k].command == c
}

/// What the entries merged so far amount to.
spec fn tracks(
    state: Selecting,
    base: Selecting,
    at_source: bool,
    entries: Seq<ReportEntryView>,
) -> bool {
    &&& forall|c: CommandId| #[trigger]
        state.entries.contains_key(c) <==> base.entries.contains_key(c) || at_source && exists|
            k: int,
        |
            0 <= k < entries.len() && (#[trigger] entries[k]).command == c
                && entries[k].phase.rank() >= Phase::Accept.rank()
    &&& forall|c: CommandId| #[trigger]
        base.entries.contains_key(c) ==> state.entries[c].deps == base.entries[c].deps
            && state.entries[c].phase.rank() >= base.entries[c].phase.rank()
    &&& forall|k: int|
        0 <= k < entries.len() && at_source && (#[trigger] entries[k]).phase.rank()
            >= Phase::Accept.rank() ==> {
            let held = state.entries[entries[k].command];
            held.deps.to_set() == entries[k].deps.to_set() && held.phase.rank() >= phase_class(
                entries[k].phase,
            ).rank()
        }
    &&& forall|c: CommandId|
        state.reproposed.contains(c) || state.entries.contains_key(c)
            <==> base.reproposed.contains(c) || base.entries.contains_key(c) || exists|k: int|
            0 <= k < entries.len() && (#[trigger] entries[k]).command == c
}

proof fn lemma_merge_entries_tracks(
    base: Selecting,
    at_source: bool,
    entries: Seq<ReportEntryView>,
)
    requires
        merge_entries(base, at_source, entries) is Ok,
    ensures
        tracks(merge_entries(base, at_source, entries)->Ok_0, base, at_source, entries),
    decreases entries.len(),
{
    if entries.len() > 0 {
        let before = entries.drop_last();
        let e = entries.last();
        let n = entries.len() - 1;
        lemma_merge_entries_tracks(base, at_source, before);
        let s = merge_entries(base, at_source, before)->Ok_0;
        let t = merge_entries(base, at_source, entries)->Ok_0;
        assert(entries[n] == e);
        assert forall|k: int| 0 <= k < n implies before[k] == entries[k] by {}
        assert forall|c: CommandId| #[trigger]
            t.entries.contains_key(c) <==> base.entries.contains_key(c) || at_source && exists|
                k: int,
            |
                0 <= k < entries.len() && (#[trigger] entries[k]).command == c
                    && entries[k].phase.rank() >= Phase::Accept.rank() by {
            if s.entries.contains_key(c) && !base.entries.contains_key(c) {
                let k = choose|k: int|
                    0 <= k < before.len() && (#[trigger] before[k]).command == c
                        && before[k].phase.rank() >= Phase::Accept.rank();
                assert(entries[k].command == c);
            }
            if at_source && exists|k: int|
                0 <= k < entries.len() && (#[trigger] entries[k]).command == c
                    && entries[k].phase.rank() >= Phase::Accept.rank() {
                let k = choose|k: int|
                    0 <= k < entries.len() && (#[trigger] entries[k]).command == c
                        && entries[k].phase.rank() >= Phase::Accept.rank();
                if k < n {
                    assert(before[k].command == c);
                }
            }
        }
        assert forall|c: CommandId|
            t.reproposed.contains(c) || t.entries.contains_key(c) <==> base.reproposed.contains(c)
                || base.entries.contains_key(c) || exists|k: int|
                0 <= k < entries.len() && (#[trigger] entries[k]).command == c by {
            if (s.reproposed.contains(c) || s.entries.contains_key(c)) && !(
            base.reproposed.contains(c) || base.entries.contains_key(c)) {
                let k = choose|k: int| 0 <= k < before.len() && (#[trigger] before[k]).command == c;
                assert(entries[k].command == c);
            }
            if exists|k: int| 0 <= k < entries.len() && (#[trigger] entries[k]).command == c {
                let k = choose|k: int| 0 <= k < entries.len() && (#[trigger] entries[k]).command == c;
                if k < n {
                    assert(before[k].command == c);
                }
            }
        }
        assert forall|k: int|
            0 <= k < entries.len() && at_source && (#[trigger] entries[k]).phase.rank()
                >= Phase::Accept.rank() implies ({
            let held = t.entries[entries[k].command];
            held.deps.to_set() == entries[k].deps.to_set() && held.phase.rank() >= phase_class(
                entries[k].phase,
            ).rank()
        }) by {
            if k < n {
                assert(before[k].phase.rank() >= Phase::Accept.rank());
                assert(s.entries.contains_key(before[k].command));
            }
        }
    }
}

#[verifier::rlimit(40)]
proof fn lemma_merge_reports_selects(source: Ballot, reports: Seq<ReportView>)
    requires
        merge_reports(source, reports) is Ok,
    ensures
        ({
            let s = merge_reports(source, reports)->Ok_0;
            &&& forall|c: CommandId| #[trigger]
                s.entries.contains_key(c) <==> exists|i: int, k: int| #[trigger]
                    candidate(reports, source, c, i, k)
            &&& forall|c: CommandId, i: int, k: int| #[trigger]
                candidate(reports, source, c, i, k) ==> s.entries[c].deps.to_set()
                    == reports[i].entries[k].deps.to_set() && s.entries[c].phase.rank()
                    >= phase_class(reports[i].entries[k].phase).rank()
            &&& forall|c: CommandId|
                s.reproposed.contains(c) || s.entries.contains_key(c) <==> exists|i: int, k: int|
                 #[trigger] named(reports, c, i, k)
        }),
    decreases reports.len(),
{
    if reports.len() > 0 {
        let before = reports.drop_last();
        let last = reports.last();
        let n = reports.len() - 1;
        lemma_merge_reports_selects(source, before);
        let b = merge_reports(source, before)->Ok_0;
        let s = merge_reports(source, reports)->Ok_0;
        let at_source = last.committed_ballot == source;
        lemma_merge_entries_tracks(b, at_source, last.entries);
        assert(reports[n] == last);
        assert forall|c: CommandId| #[trigger]
            s.entries.contains_key(c) <==> exists|i: int, k: int| #[trigger]
                candidate(reports, source, c, i, k) by {
            if b.entries.contains_key(c) {
                let (i, k) = choose|i: int, k: int| #[trigger] candidate(before, source, c, i, k);
                assert(candidate(reports, source, c, i, k));
            } else if s.entries.contains_key(c) {
                let k = choose|k: int|
                    0 <= k < last.entries.len() && (#[trigger] last.entries[k]).command == c
                        && last.entries[k].phase.rank() >= Phase::Accept.rank();
                assert(candidate(reports, source, c, n, k));
            }
            if exists|i: int, k: int| #[trigger] candidate(reports, source, c, i, k) {
                let (i, k) = choose|i: int, k: int| #[trigger] candidate(reports, source, c, i, k);
                if i < n {
                    assert(candidate(before, source, c, i, k));
                } else {
                    assert(last.entries[k].command == c);
                }
            }
        }
        assert forall|c: CommandId, i: int, k: int| #[trigger]
            candidate(reports, source, c, i, k) implies s.entries[c].deps.to_set()
            == reports[i].entries[k].deps.to_set() && s.entries[c].phase.rank() >= phase_class(
            reports[i].entries[k].phase,
        ).rank() by {
            if i < n {
                assert(candidate(before, source, c, i, k));
                assert(b.entries.contains_key(c));
            } else {
                assert(last.entries[k].command == c);
            }
        }
        assert forall|c: CommandId|
            s.reproposed.contains(c) || s.entries.contains_key(c) <==> exists|i: int, k: int|
             #[trigger] named(reports, c, i, k) by {
            if b.reproposed.contains(c) || b.entries.contains_key(c) {
                let (i, k) = choose|i: int, k: int| #[trigger] named(before, c, i, k);
                assert(named(reports, c, i, k));
            } else if s.reproposed.contains(c) || s.entries.contains_key(c) {
                let k = choose|k: int|
                    0 <= k < last.entries.len() && (#[trigger] last.entries[k]).command == c;
                assert(named(reports, c, n, k));
            }
            if exists|i: int, k: int| #[trigger] named(reports, c, i, k) {
                let (i, k) = choose|i: int, k: int| #[trigger] named(reports, c, i, k);
                if i < n {
                    assert(named(before, c, i, k));
                } else {
                    assert(last.entries[k].command == c);
                }
            }
        }
    } else {
        assert forall|c: CommandId, i: int, k: int| !(#[trigger] candidate(
            reports,
            source,
            c,
            i,
            k,
        )) by {}
        assert forall|c: CommandId, i: int, k: int| !(#[trigger] named(reports, c, i, k)) by {}
    }
}

/// One of the entries has `c` committed.
pub open spec fn has_committed(entries: Seq<ReportEntryView>, c: CommandId, k: int) -> bool {
    &&& 0 <= k < entries.len()
    &&& entries[k].command == c
    &&& entries[k].phase.rank() >= Phase::Commit.rank()
}

/// A selection under way takes `c` for committed.
spec fn commits(state: Selecting, c: CommandId) -> bool {
    state.entries.contains_key(c) && state.entries[c].phase.rank() >= Phase::Commit.rank()
}

/// A report at the source ballot has `c` committed.
pub open spec fn commitment(
    reports: Seq<ReportView>,
    source: Ballot,
    c: CommandId,
    i: int,
    k: int,
) -> bool {
    &&& 0 <= i < reports.len()
    &&& reports[i].committed_ballot == source
    &&& has_committed(reports[i].entries, c, k)
}

proof fn lemma_merge_entries_commits(
    base: Selecting,
    at_source: bool,
    entries: Seq<ReportEntryView>,
    c: CommandId,
)
    requires
        merge_entries(base, at_source, entries) is Ok,
        commits(merge_entries(base, at_source, entries)->Ok_0, c),
    ensures
        commits(base, c) || at_source && exists|k: int| #[trigger] has_committed(entries, c, k),
    decreases entries.len(),
{
    if entries.len() > 0 {
        let before = entries.drop_last();
        let s = merge_entries(base, at_source, before)->Ok_0;
        if commits(s, c) {
            lemma_merge_entries_commits(base, at_source, before, c);
            if !commits(base, c) {
                let k = choose|k: int| #[trigger] has_committed(before, c, k);
                assert(has_committed(entries, c, k));
            }
        } else {
            assert(has_committed(entries, c, entries.len() - 1));
        }
    }
}

proof fn lemma_merge_reports_commits(source: Ballot, reports: Seq<ReportView>, c: CommandId)
    requires
        merge_reports(source, reports) is Ok,
        commits(merge_reports(source, reports)->Ok_0, c),
    ensures
        exists|i: int, k: int| #[trigger] commitment(reports, source, c, i, k),
    decreases reports.len(),
{
    if reports.len() > 0 {
        let before = reports.drop_last();
        let last = reports.last();
        let b = merge_reports(source, before)->Ok_0;
        lemma_merge_entries_commits(b, last.committed_ballot == source, last.entries, c);
        if commits(b, c) {
            lemma_merge_reports_commits(source, before, c);
            let (i, k) = choose|i: int, k: int| #[trigger] commitment(before, source, c, i, k);
            assert(commitment(reports, source, c, i, k));
        } else {
            let k = choose|k: int| #[trigger] has_committed(last.entries, c, k);
            assert(commitment(reports, source, c, reports.len() - 1, k));
        }
    }
}

/// A selected result adopts exactly what the reports at the highest
/// synchronized ballot accepted, takes a command for committed exactly where
/// one of them does, and re-proposes everything else that was reported.
pub proof fn lemma_selection_adopts_the_source(config: ConfigView, reports: Seq<ReportView>)
    requires
        selection(config, reports) is Ok,
    ensures
        ({
            let sync = selection(config, reports)->Ok_0;
            let source = highest_synced(reports);
            &&& sync.ballot == config.ballot
            &&& sync.source_ballot == source
            &&& forall|c: CommandId| #[trigger]
                sync.entries.contains_key(c) <==> exists|i: int, k: int| #[trigger]
                    candidate(by_reporter(reports), source, c, i, k)
            &&& forall|c: CommandId, i: int, k: int| #[trigger]
                candidate(by_reporter(reports), source, c, i, k) ==> sync.entries[c].deps.to_set()
                    == by_reporter(reports)[i].entries[k].deps.to_set()
                    && sync.entries[c].phase.rank() >= phase_class(
                    by_reporter(reports)[i].entries[k].phase,
                ).rank()
            &&& forall|c: CommandId| #[trigger]
                sync.entries.contains_key(c) ==> (sync.entries[c].phase.rank()
                    >= Phase::Commit.rank() <==> exists|i: int, k: int| #[trigger]
                    commitment(by_reporter(reports), source, c, i, k))
            &&& forall|c: CommandId| #[trigger]
                sync.reproposed.contains(c) <==> !sync.entries.contains_key(c) && exists|
                    i: int,
                    k: int,
                | #[trigger] named(by_reporter(reports), c, i, k)
        }),
{
    lemma_merge_reports_selects(highest_synced(reports), by_reporter(reports));
    let s = merge_reports(highest_synced(reports), by_reporter(reports))->Ok_0;
    let sync = selection(config, reports)->Ok_0;
    let by = by_reporter(reports);
    let source = highest_synced(reports);
    assert forall|c: CommandId| #[trigger] sync.entries.contains_key(c) implies (
    sync.entries[c].phase.rank() >= Phase::Commit.rank() <==> exists|i: int, k: int| #[trigger]
        commitment(by, source, c, i, k)) by {
        if commits(s, c) {
            lemma_merge_reports_commits(source, by, c);
        }
        if exists|i: int, k: int| #[trigger] commitment(by, source, c, i, k) {
            let (i, k) = choose|i: int, k: int| #[trigger] commitment(by, source, c, i, k);
            assert(candidate(by, source, c, i, k));
        }
    }
    assert forall|c: CommandId| #[trigger]
        sync.reproposed.contains(c) <==> !sync.entries.contains_key(c) && exists|i: int, k: int|
         #[trigger] named(by_reporter(reports), c, i, k) by {
        assert(s.reproposed.contains(c) || s.entries.contains_key(c) <==> exists|i: int, k: int|
         #[trigger] named(by_reporter(reports), c, i, k));
    }
}

/// A report synchronized at `source` names `c` at ACCEPT or later, after
/// exactly these dependencies.
pub open spec fn accepted_under(
    report: ReportView,
    source: Ballot,
    c: CommandId,
    deps: Set<CommandId>,
) -> bool {
    &&& report.committed_ballot == source
    &&& exists|k: int|
        0 <= k < report.entries.len() && (#[trigger] report.entries[k]).command == c
            && report.entries[k].phase.rank() >= Phase::Accept.rank()
            && report.entries[k].deps.to_set() == deps
}

proof fn lemma_reporters_len(reports: Seq<ReportView>)
    requires
        one_each(reports),
    ensures
        reporters(reports).len() == reports.len(),
        reporters(reports).finite(),
{
    let ids = reports.map_values(|r: ReportView| r.replica);
    assert forall|i: int, j: int| 0 <= i < ids.len() && 0 <= j < ids.len() && i != j implies ids[i]
        != ids[j] by {
        if i < j {
            assert(reports[i].replica != reports[j].replica);
        } else {
            assert(reports[j].replica != reports[i].replica);
        }
    }
    ids.unique_seq_to_set();
}

/// What a majority accepted survives recovery: where a majority of the voters
/// accepted a command after the same dependencies in the ballot a recovery
/// takes its state from, whichever majority reports, the selection adopts the
/// command with those dependencies.
pub proof fn lemma_majority_acceptance_survives(
    config: ConfigView,
    reports: Seq<ReportView>,
    accepters: Set<ReplicaId>,
    c: CommandId,
    deps: Set<CommandId>,
)
    requires
        config.voters.finite(),
        accepters.subset_of(config.voters),
        accepters.len() >= config.slow_size(),
        selection(config, reports) is Ok,
        forall|i: int|
            0 <= i < reports.len() && accepters.contains((#[trigger] reports[i]).replica)
                ==> accepted_under(reports[i], highest_synced(reports), c, deps),
    ensures
        selection(config, reports)->Ok_0.entries.contains_key(c),
        selection(config, reports)->Ok_0.entries[c].deps.to_set() == deps,
{
    let source = highest_synced(reports);
    let all = reporters(reports);
    lemma_clean(config, reports);
    lemma_reporters(reports);
    lemma_reporters_len(reports);
    assert(all.subset_of(config.voters)) by {
        assert forall|x: ReplicaId| all.contains(x) implies config.voters.contains(x) by {
            let i = choose|i: int| 0 <= i < reports.len() && (#[trigger] reports[i]).replica == x;
            assert(fit(config, reports[i]));
        }
    }
    let x = lemma_majorities_intersect(config.voters, accepters, all);
    let order = in_order::<ReplicaId>(all);
    lemma_in_order::<ReplicaId>(all);
    assert(order.contains(x));
    let n = choose|n: int| 0 <= n < order.len() && order[n] == x;
    let by = by_reporter(reports);
    let i = choose|i: int| 0 <= i < reports.len() && (#[trigger] reports[i]).replica == x;
    assert(by[n] == reports[i]);
    assert(accepted_under(reports[i], source, c, deps));
    let k = choose|k: int|
        0 <= k < reports[i].entries.len() && (#[trigger] reports[i].entries[k]).command == c
            && reports[i].entries[k].phase.rank() >= Phase::Accept.rank()
            && reports[i].entries[k].deps.to_set() == deps;
    lemma_selection_adopts_the_source(config, reports);
    assert(candidate(by, source, c, n, k));
}

} // verus!
