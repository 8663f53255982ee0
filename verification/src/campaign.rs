//! A candidate's recovery campaign.
//!
//! The candidate promises itself first, asks the other voters for promises,
//! and collects their reports page by page. Once a majority of promising
//! voters have complete reports, the source selection runs on that set; the
//! result is bound durably to the ballot before any Sync message is
//! produced, so a crash after binding republishes the same result and never
//! selects again under the same identity.

use vstd::prelude::*;

use crate::commands::{CommandTable, TableView};
use crate::hash::{HashDomain, is_hash};
use crate::ids::{Ballot, BarrierId, CommandId, Digest32, ReplicaId};
use crate::lists::copy_list;
use crate::ordered::{
    Dup, OrdMap, OrdSet, in_order, lemma_in_order, lemma_take_set, set_of, views,
};
use crate::phase::Phase;
use crate::quorum::{BallotConfiguration, ConfigView};
use crate::recovery::{
    RecoveryError, RecoveryErrorView, RecoveryReport, ReportView, SyncDecision, SyncEntry,
    SyncEntryView, SyncView, select, selection,
};
use crate::summary::{AssemblerView, PageError, PageView, ReportAssembler, ReportPage};

verus! {

/// The campaign for one ballot.
#[derive(Debug)]
pub struct Campaign {
    config: BallotConfiguration,
    assembler: ReportAssembler,
    promised: OrdSet<ReplicaId>,
    own: Option<RecoveryReport>,
    decision: Option<SyncDecision>,
    bound: Option<BarrierId>,
    durable: bool,
    published: bool,
    /// Voters asked for the payloads the selection needs.
    asked: OrdSet<ReplicaId>,
}

/// What a campaign holds.
#[verifier::ext_equal]
pub struct CampaignView {
    /// The ballot's configuration.
    pub config: ConfigView,
    /// Reports arriving page by page.
    pub assembler: AssemblerView,
    /// Voters that promised.
    pub promised: Set<ReplicaId>,
    /// The candidate's own report.
    pub own: Option<ReportView>,
    /// The selection.
    pub decision: Option<SyncView>,
    /// Barrier of the binding.
    pub bound: Option<BarrierId>,
    /// The binding is durable.
    pub durable: bool,
    /// The Sync was published.
    pub published: bool,
    /// Voters asked for payloads.
    pub asked: Set<ReplicaId>,
}

/// What an optional report says.
pub open spec fn report_view(r: Option<RecoveryReport>) -> Option<ReportView> {
    match r {
        Some(r) => Some(r@),
        None => None,
    }
}

/// What an optional decision says.
pub open spec fn decision_view(d: Option<SyncDecision>) -> Option<SyncView> {
    match d {
        Some(d) => Some(d@),
        None => None,
    }
}

impl View for Campaign {
    type V = CampaignView;

    closed spec fn view(&self) -> CampaignView {
        CampaignView {
            config: self.config@,
            assembler: self.assembler@,
            promised: self.promised@,
            own: report_view(self.own),
            decision: decision_view(self.decision),
            bound: self.bound,
            durable: self.durable,
            published: self.published,
            asked: self.asked@,
        }
    }
}

/// The reports of the voters that promised, in order.
pub open spec fn promised_reports(
    assembler: AssemblerView,
    order: Seq<ReplicaId>,
    promised: Set<ReplicaId>,
) -> Seq<ReportView>
    decreases order.len(),
{
    if order.len() == 0 {
        Seq::empty()
    } else {
        let before = promised_reports(assembler, order.drop_last(), promised);
        let report = assembler.assembled(order.last());
        if promised.contains(report.replica) {
            before.push(report)
        } else {
            before
        }
    }
}

/// An entry of a command that executed here: committed, under the
/// dependencies its record holds.
pub open spec fn executed_entry(table: TableView, e: SyncEntryView, c: CommandId) -> SyncEntryView {
    if table.phase_of(c) == Some(Phase::Executed) {
        SyncEntryView {
            phase: Phase::Commit,
            deps: if table.records.contains_key(c) {
                table.records[c].deps
            } else {
                e.deps
            },
            ..e
        }
    } else {
        e
    }
}

/// The decision with what executed here committed.
pub open spec fn executed_decision(table: TableView, d: SyncView) -> SyncView {
    SyncView {
        entries: Map::new(
            |c: CommandId| d.entries.contains_key(c),
            |c: CommandId| executed_entry(table, d.entries[c], c),
        ),
        ..d
    }
}

impl CampaignView {
    /// A campaign that just began.
    pub open spec fn begun(config: ConfigView) -> Self {
        CampaignView {
            config,
            assembler: AssemblerView::empty(config.ballot),
            promised: Set::empty(),
            own: None,
            decision: None,
            bound: None,
            durable: false,
            published: false,
            asked: Set::empty(),
        }
    }

    /// A campaign whose selection was bound before a crash.
    pub open spec fn resumed(config: ConfigView, decision: SyncView) -> Self {
        CampaignView { decision: Some(decision), durable: true, ..CampaignView::begun(config) }
    }

    /// With a voter's promise.
    pub open spec fn with_promise(self, replica: ReplicaId) -> Self {
        if self.config.voters.contains(replica) {
            CampaignView { promised: self.promised.insert(replica), ..self }
        } else {
            self
        }
    }

    /// With the candidate's own report.
    pub open spec fn with_own(self, report: ReportView) -> Self {
        CampaignView {
            promised: self.promised.insert(report.replica),
            own: Some(report),
            ..self
        }
    }

    /// Complete reports from promising voters, own included.
    pub open spec fn reports<H: Fn(HashDomain, Vec<Vec<u8>>) -> Digest32>(self, hash: H) -> Seq<
        ReportView,
    > {
        let others = promised_reports(
            self.assembler,
            in_order::<ReplicaId>(self.assembler.finished(hash)),
            self.promised,
        );
        match self.own {
            Some(own) => others.push(own),
            None => others,
        }
    }

    /// What the selection comes to: nothing yet, the decision, or the error
    /// that stops the campaign.
    pub open spec fn selected<H: Fn(HashDomain, Vec<Vec<u8>>) -> Digest32>(self, hash: H) -> Result<
        Option<SyncView>,
        RecoveryErrorView,
    > {
        if self.decision is Some {
            Ok(self.decision)
        } else if self.reports(hash).len() < self.config.slow_size() {
            Ok(None)
        } else {
            match selection(self.config, self.reports(hash)) {
                Ok(d) => Ok(Some(d)),
                Err(e) => Err(e),
            }
        }
    }

    /// After the selection was tried.
    pub open spec fn after_selection<H: Fn(HashDomain, Vec<Vec<u8>>) -> Digest32>(
        self,
        hash: H,
    ) -> Self {
        match self.selected(hash) {
            Ok(d) => CampaignView { decision: d, ..self },
            Err(_) => self,
        }
    }

    /// Promising voters other than `me` not asked for payloads yet.
    pub open spec fn due(self, me: ReplicaId) -> Set<ReplicaId> {
        self.promised.remove(me).difference(self.asked)
    }

    /// With what executed here committed.
    pub open spec fn with_executed(self, table: TableView) -> Self {
        match self.decision {
            Some(d) => CampaignView { decision: Some(executed_decision(table, d)), ..self },
            None => self,
        }
    }
}

/// A selection once made is never made again: whatever arrives, the campaign
/// keeps it.
pub proof fn lemma_selection_is_final<H: Fn(HashDomain, Vec<Vec<u8>>) -> Digest32>(
    campaign: CampaignView,
    hash: H,
    replica: ReplicaId,
    report: ReportView,
    page: PageView,
)
    requires
        campaign.decision is Some,
    ensures
        campaign.after_selection(hash).decision == campaign.decision,
        campaign.with_promise(replica).after_selection(hash).decision == campaign.decision,
        campaign.with_own(report).after_selection(hash).decision == campaign.decision,
        (CampaignView {
            assembler: campaign.assembler.with_page(page),
            ..campaign
        }).after_selection(hash).decision == campaign.decision,
{
}

/// A selection rests on at least a majority of the voters' reports.
pub proof fn lemma_selection_needs_a_majority<H: Fn(HashDomain, Vec<Vec<u8>>) -> Digest32>(
    campaign: CampaignView,
    hash: H,
)
    requires
        campaign.decision is None,
        campaign.after_selection(hash).decision is Some,
    ensures
        campaign.reports(hash).len() >= campaign.config.slow_size(),
        selection(campaign.config, campaign.reports(hash)) == Ok::<SyncView, RecoveryErrorView>(
            campaign.after_selection(hash).decision->0,
        ),
{
}

impl Campaign {
    /// A campaign for the ballot of `config`.
    pub fn new(config: BallotConfiguration) -> (r: Self)
        ensures
            r@ == CampaignView::begun(config@),
    {
        let ballot = config.ballot();
        Campaign {
            config,
            assembler: ReportAssembler::new(ballot),
            promised: OrdSet::new(),
            own: None,
            decision: None,
            bound: None,
            durable: false,
            published: false,
            asked: OrdSet::new(),
        }
    }

    /// Voters whose promise for this ballot arrived (the candidate included
    /// once it promised itself).
    pub fn promised(&self) -> (r: &OrdSet<ReplicaId>)
        ensures
            r@ == self@.promised,
    {
        &self.promised
    }

    /// Whether any voter was asked for the payloads the selection needs.
    pub fn payloads_requested(&self) -> (r: bool)
        ensures
            r == (self@.asked != Set::<ReplicaId>::empty()),
    {
        !self.asked.is_empty()
    }

    /// Promising voters other than `me` that were not asked for payloads
    /// yet.
    pub fn payload_requests_due(&self, me: ReplicaId) -> (r: Vec<ReplicaId>)
        ensures
            r@ == in_order::<ReplicaId>(self@.due(me)),
            (r@.len() == 0) == (self@.due(me) == Set::<ReplicaId>::empty()),
    {
        let n: usize = self.promised.len();
        let ghost order = in_order::<ReplicaId>(self.promised@);
        let ghost goal = self@.due(me);
        proof {
            lemma_in_order::<ReplicaId>(self.promised@);
        }
        let mut out: OrdSet<ReplicaId> = OrdSet::new();
        let mut i: usize = 0;
        proof {
            assert(out@ =~= goal.intersect(order.take(0).to_set()));
        }
        while i < n
            invariant
                i <= n == self.promised@.len(),
                order == in_order::<ReplicaId>(self.promised@),
                order.len() == n,
                goal == self@.due(me),
                out@ == goal.intersect(order.take(i as int).to_set()),
            decreases n - i,
        {
            let v = *self.promised.at(i);
            if v != me && !self.asked.contains(&v) {
                out.insert(v);
            }
            proof {
                lemma_take_set(order, i as int);
                assert(out@ =~= goal.intersect(order.take(i + 1).to_set()));
            }
            i = i + 1;
        }
        proof {
            assert(order.take(n as int) =~= order);
            assert(out@ =~= goal) by {
                assert forall|v: ReplicaId| goal.contains(v) implies order.to_set().contains(v) by {
                    assert(order.contains(v));
                }
            }
        }
        let none = out.is_empty();
        let r = out.to_vec();
        proof {
            assert(views(r@) =~= r@);
        }
        r
    }

    /// Record that the missing payloads were requested from `voters`.
    pub fn mark_payloads_requested(&mut self, voters: &Vec<ReplicaId>)
        ensures
            final(self)@ == (CampaignView {
                asked: old(self)@.asked.union(voters@.to_set()),
                ..old(self)@
            }),
    {
        self.asked.extend(&set_of(voters));
        proof {
            assert(views(voters@) =~= voters@);
        }
    }

    /// A campaign resumed from a durably bound selection (after a crash):
    /// the decision is fixed and only needs publishing.
    pub fn resumed(config: BallotConfiguration, decision: SyncDecision) -> (r: Self)
        ensures
            r@ == CampaignView::resumed(config@, decision@),
    {
        let mut c = Campaign::new(config);
        c.decision = Some(decision);
        c.durable = true;
        c
    }

    /// Ballot.
    pub fn ballot(&self) -> (r: Ballot)
        ensures
            r == self@.config.ballot,
    {
        self.config.ballot()
    }

    /// The new ballot's configuration.
    pub fn config(&self) -> (r: &BallotConfiguration)
        ensures
            r@ == self@.config,
    {
        &self.config
    }

    /// A voter promised.
    pub fn promise(&mut self, replica: ReplicaId)
        ensures
            final(self)@ == old(self)@.with_promise(replica),
    {
        if self.config.is_voter(&replica) {
            self.promised.insert(replica);
        }
    }

    /// The candidate's own report (its promise to itself).
    pub fn own_report(&mut self, report: RecoveryReport)
        ensures
            final(self)@ == old(self)@.with_own(report@),
    {
        self.promised.insert(report.replica);
        self.own = Some(report);
    }

    /// A report page from a voter.
    pub fn page<H: Fn(HashDomain, Vec<Vec<u8>>) -> Digest32>(&mut self, hash: &H, page: ReportPage) -> (r:
        Result<(), PageError>)
        requires
            is_hash(*hash),
        ensures
            match old(self)@.assembler.refusal(*hash, page@) {
                Some(e) => r == Err::<(), PageError>(e) && final(self)@ == old(self)@,
                None => r is Ok && final(self)@ == (CampaignView {
                    assembler: old(self)@.assembler.with_page(page@),
                    ..old(self)@
                }),
            },
    {
        self.assembler.accept(hash, page)
    }

    /// Complete reports from promising voters, own included.
    pub fn reports<H: Fn(HashDomain, Vec<Vec<u8>>) -> Digest32>(&self, hash: &H) -> (r: Vec<
        RecoveryReport,
    >)
        requires
            is_hash(*hash),
        ensures
            views(r@) == self@.reports(*hash),
    {
        let whole = self.assembler.complete(hash);
        let ghost order = in_order::<ReplicaId>(self@.assembler.finished(*hash));
        let mut out: Vec<RecoveryReport> = Vec::new();
        let mut i: usize = 0;
        proof {
            let shown = Seq::new(order.len(), |i: int| self@.assembler.assembled(order[i]));
            assert(views(whole@) == shown);
            assert(views(whole@).len() == shown.len());
            assert forall|j: int| 0 <= j < whole@.len() implies (#[trigger] whole@[j])@
                == self@.assembler.assembled(order[j]) by {
                assert(views(whole@)[j] == shown[j]);
            }
            assert(order.take(0) =~= Seq::<ReplicaId>::empty());
            assert(views(out@) =~= Seq::<ReportView>::empty());
        }
        while i < whole.len()
            invariant
                i <= whole@.len(),
                whole@.len() == order.len(),
                forall|j: int|
                    0 <= j < whole@.len() ==> (#[trigger] whole@[j])@ == self@.assembler.assembled(
                        order[j],
                    ),
                views(out@) == promised_reports(
                    self@.assembler,
                    order.take(i as int),
                    self@.promised,
                ),
            decreases whole@.len() - i,
        {
            let ghost before = views(out@);
            proof {
                assert(order.take(i + 1).drop_last() =~= order.take(i as int));
                assert(order.take(i + 1).last() == order[i as int]);
                assert(whole@[i as int]@ == self@.assembler.assembled(order[i as int]));
            }
            if self.promised.contains(&whole[i].replica) {
                out.push(whole[i].dup());
                proof {
                    assert(views(out@) =~= before.push(whole@[i as int]@));
                }
            }
            i = i + 1;
        }
        proof {
            assert(order.take(order.len() as int) =~= order);
        }
        let ghost others = views(out@);
        if let Some(own) = &self.own {
            out.push(own.dup());
            proof {
                assert(views(out@) =~= others.push(own@));
            }
        }
        out
    }

    /// Run the selection once a majority of complete reports is present.
    /// `Ok(false)` means not yet; an error stops the campaign with the
    /// evidence.
    pub fn try_select<H: Fn(HashDomain, Vec<Vec<u8>>) -> Digest32>(&mut self, hash: &H) -> (r:
        Result<bool, RecoveryError>)
        requires
            is_hash(*hash),
        ensures
            final(self)@ == old(self)@.after_selection(*hash),
            match old(self)@.selected(*hash) {
                Ok(d) => r == Ok::<bool, RecoveryError>(d is Some),
                Err(e) => r is Err && r->Err_0@ == e,
            },
    {
        if self.decision.is_some() {
            return Ok(true);
        }
        let reports = self.reports(hash);
        if reports.len() < self.config.slow_size() {
            return Ok(false);
        }
        match select(&self.config, &reports) {
            Ok(decision) => {
                self.decision = Some(decision);
                Ok(true)
            },
            Err(e) => Err(e),
        }
    }

    /// The selection, once made.
    pub fn decision(&self) -> (r: Option<&SyncDecision>)
        ensures
            r is Some <==> self@.decision is Some,
            r is Some ==> r->0@ == self@.decision->0,
    {
        match &self.decision {
            Some(d) => Some(d),
            None => None,
        }
    }

    /// Every selected command that executed here is committed, under the
    /// dependencies its record holds.
    #[verifier::rlimit(40)]
    pub fn commit_executed(&mut self, table: &CommandTable)
        ensures
            final(self)@ == old(self)@.with_executed(table@),
    {
        let decision = match &self.decision {
            Some(d) => d,
            None => {
                return ;
            },
        };
        let ghost before = decision@;
        let ghost goal = executed_decision(table@, before).entries;
        let n: usize = decision.entries.len();
        let ghost order = in_order::<CommandId>(before.entries.dom());
        proof {
            lemma_in_order::<CommandId>(before.entries.dom());
        }
        let mut entries: OrdMap<CommandId, SyncEntry> = OrdMap::new();
        let mut i: usize = 0;
        proof {
            assert(entries@ =~= goal.restrict(order.take(0).to_set()));
        }
        while i < n
            invariant
                i <= n == before.entries.dom().len(),
                before == decision@,
                order == in_order::<CommandId>(before.entries.dom()),
                order.len() == n,
                goal == executed_decision(table@, before).entries,
                entries@ == goal.restrict(order.take(i as int).to_set()),
            decreases n - i,
        {
            let c = *decision.entries.key_at(i);
            let mut e = decision.entries.value_at(i).dup();
            let ghost was = e@;
            let executed = match table.phase_of(&c) {
                Some(p) => p == Phase::Executed,
                None => false,
            };
            if executed {
                e.phase = Phase::Commit;
                if let Some(record) = table.record(&c) {
                    e.deps = copy_list(&record.deps);
                }
            }
            proof {
                assert(e@ =~= executed_entry(table@, was, c));
                lemma_take_set(order, i as int);
            }
            entries.insert(c, e);
            proof {
                assert(entries@ =~= goal.restrict(order.take(i + 1).to_set()));
            }
            i = i + 1;
        }
        proof {
            assert(order.take(n as int) =~= order);
            assert(entries@ =~= goal) by {
                assert forall|c: CommandId| goal.contains_key(c) implies order.to_set().contains(
                    c,
                ) by {
                    assert(order.contains(c));
                }
            }
        }
        let next = SyncDecision {
            ballot: decision.ballot,
            source_ballot: decision.source_ballot,
            entries,
            reproposed: decision.reproposed.dup(),
        };
        proof {
            assert(next@ =~= executed_decision(table@, before));
        }
        self.decision = Some(next);
    }

    /// The selection was submitted for durable binding under `barrier`.
    pub fn bound(&mut self, barrier: BarrierId)
        ensures
            final(self)@ == (CampaignView { bound: Some(barrier), ..old(self)@ }),
    {
        self.bound = Some(barrier);
    }

    /// Barrier of the binding, if submitted.
    pub fn binding(&self) -> (r: Option<BarrierId>)
        ensures
            r == self@.bound,
    {
        self.bound
    }

    /// The binding became durable.
    pub fn on_durable(&mut self, barrier: BarrierId) -> (r: bool)
        ensures
            final(self)@ == (CampaignView {
                durable: old(self)@.durable || old(self)@.bound == Some(barrier),
                ..old(self)@
            }),
            r == final(self)@.durable,
    {
        if let Some(b) = self.bound {
            if b == barrier {
                self.durable = true;
            }
        }
        self.durable
    }

    /// Whether the selection is durably bound.
    pub fn is_durable(&self) -> (r: bool)
        ensures
            r == self@.durable,
    {
        self.durable
    }

    /// Whether the Sync was published.
    pub fn is_published(&self) -> (r: bool)
        ensures
            r == self@.published,
    {
        self.published
    }

    /// Mark the Sync published.
    pub fn mark_published(&mut self)
        ensures
            final(self)@ == (CampaignView { published: true, ..old(self)@ }),
    {
        self.published = true;
    }
}

} // verus!
