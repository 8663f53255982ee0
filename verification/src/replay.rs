//! Repairing delivery of evidence a replica already produced.
//!
//! A replica acknowledges a command once and publishes that acknowledgement
//! to its peers and to the frontend. The peers count it and are done with
//! it. The frontend may not be: it routes evidence to the collector that
//! submitted the command, and a command a replica learned from a peer is
//! acknowledged before any submission has told the frontend which collector
//! that is. The frontend holds such evidence for a while and then lets it
//! go.
//!
//! So a replica keeps what it published, and an *exact* duplicate submission
//! publishes it again, to the frontend only, under the same gates as the
//! first time. Nothing is recomputed, nothing is voted again, nothing is
//! executed again.
//!
//! What is kept is bounded by what the command table remembers -- its live
//! records and the tombstones of the records it retired. Nothing here
//! survives a boot: the barriers the evidence rests on are this boot's.

use vstd::prelude::*;

use crate::bytes::{copy_bytes, same_bytes};
use crate::commands::{CommandTable, TableView};
use crate::effects::{EffectContext, PendingSend, SendView, SettledView, Settlements, copy_barriers};
use crate::ids::{Ballot, BarrierId, CommandId, PeerId};
use crate::ordered::{OrdMap, in_order, lemma_in_order, lemma_take_set, views};

verus! {

/// Why an exact duplicate submission did not repair delivery of the evidence
/// this replica already produced for the command.
///
/// None of these is a fault of the command: it stays wherever it was,
/// ordered, executed or waiting. They say only that the shortcut is not
/// available here.
#[derive(Clone, Copy, Debug, PartialEq, Eq, Structural)]
pub enum ReplayRefusal {
    /// This replica may not act in the configured ballot now: a higher
    /// promise is durable or in flight, the role is not one that produces
    /// evidence, or the replica is not booted.
    Fenced,
    /// The retained evidence was produced under another ballot. Old evidence
    /// is never relabelled; the new ballot collects its own.
    BallotMoved,
    /// The batch behind the evidence is not durable yet, so the original
    /// publication is still queued and will go by itself when it is.
    NotYetDurable,
    /// The batch behind the evidence failed. That evidence was never a fact,
    /// and the original publication was dropped for the same reason.
    BatchFailed,
    /// This boot has published nothing for the command.
    NothingToReplay,
    /// This replica no longer remembers the command at all: it executed and
    /// was retired long enough ago that its tombstone is gone too.
    Forgotten,
    /// This command's evidence has been repaired as often as one boot will
    /// repair it.
    TooMany,
}

/// How many times one boot repairs one command's evidence.
///
/// A bound on rate, not on obligation: the collector re-offers on a schedule
/// with a floor and a ceiling, and this is more repeats than that schedule
/// produces before the command is either settled or under recovery.
pub const MAX_EVIDENCE_REPAIRS: u32 = 8;

/// One publication to the frontend, kept exactly as it was made: the context
/// (boot and ballot), the barriers the publication required, and the bytes.
/// A repeat is not a new message that happens to say the same thing; it is
/// the same message.
#[derive(Debug)]
pub struct RetainedEvidence {
    /// The batch the evidence rests on.
    pub barrier: BarrierId,
    /// The ballot it was produced under.
    pub ballot: Ballot,
    /// The context it was published under.
    pub context: EffectContext,
    /// The barriers the publication required.
    pub requires_durable: Vec<BarrierId>,
    /// The frame, exactly as published.
    pub frame: Vec<u8>,
}

/// What is kept of a publication.
#[verifier::ext_equal]
pub struct EvidenceView {
    /// The batch the evidence rests on.
    pub barrier: BarrierId,
    /// The ballot it was produced under.
    pub ballot: Ballot,
    /// The context it was published under.
    pub context: EffectContext,
    /// The barriers the publication required.
    pub requires_durable: Seq<BarrierId>,
    /// The frame, exactly as published.
    pub frame: Seq<u8>,
}

impl View for RetainedEvidence {
    type V = EvidenceView;

    open spec fn view(&self) -> EvidenceView {
        EvidenceView {
            barrier: self.barrier,
            ballot: self.ballot,
            context: self.context,
            requires_durable: self.requires_durable@,
            frame: self.frame@,
        }
    }
}

impl EvidenceView {
    /// The same publication, to `to`.
    pub open spec fn again(self, to: PeerId) -> SendView {
        SendView {
            context: self.context,
            requires_durable: self.requires_durable,
            to,
            frame: self.frame,
        }
    }

    /// Why it is not published again.
    pub open spec fn refusal(self, settled: SettledView, ballot: Ballot) -> Option<ReplayRefusal> {
        if self.ballot != ballot {
            Some(ReplayRefusal::BallotMoved)
        } else if settled.failed.contains(self.barrier) {
            Some(ReplayRefusal::BatchFailed)
        } else if !settled.durable.contains(self.barrier) {
            Some(ReplayRefusal::NotYetDurable)
        } else {
            None
        }
    }
}

impl RetainedEvidence {
    /// The same publication, to `to`.
    pub fn again(&self, to: PeerId) -> (r: PendingSend)
        ensures
            r@ == self@.again(to),
    {
        PendingSend {
            context: self.context,
            requires_durable: copy_barriers(&self.requires_durable),
            to,
            frame: copy_bytes(&self.frame),
        }
    }

    fn refusal(&self, settled: &Settlements, ballot: Ballot) -> (r: Option<ReplayRefusal>)
        ensures
            r == self@.refusal(settled@, ballot),
    {
        if self.ballot != ballot {
            Some(ReplayRefusal::BallotMoved)
        } else if settled.is_failed(&self.barrier) {
            Some(ReplayRefusal::BatchFailed)
        } else if !settled.is_durable(&self.barrier) {
            Some(ReplayRefusal::NotYetDurable)
        } else {
            None
        }
    }
}

/// A list of publications.
#[derive(Debug)]
pub struct EvidenceList(pub Vec<RetainedEvidence>);

impl View for EvidenceList {
    type V = Seq<EvidenceView>;

    open spec fn view(&self) -> Seq<EvidenceView> {
        views(self.0@)
    }
}

/// What one replica has published to the frontend for the commands it still
/// remembers, and how often each has been published again.
#[derive(Debug)]
pub struct EvidenceStore {
    own: OrdMap<CommandId, EvidenceList>,
    repairs: OrdMap<CommandId, u32>,
    /// The command table's capacity, which bounds this twice over.
    capacity: usize,
}

/// What a store keeps.
#[verifier::ext_equal]
pub struct StoreView {
    /// Publications by command.
    pub own: Map<CommandId, Seq<EvidenceView>>,
    /// Repeats by command.
    pub repairs: Map<CommandId, u32>,
    /// The command table's capacity.
    pub capacity: usize,
}

impl View for EvidenceStore {
    type V = StoreView;

    closed spec fn view(&self) -> StoreView {
        StoreView { own: self.own@, repairs: self.repairs@, capacity: self.capacity }
    }
}

/// One of the publications has this frame.
pub open spec fn has_frame(kept: Seq<EvidenceView>, frame: Seq<u8>) -> bool {
    exists|i: int| 0 <= i < kept.len() && (#[trigger] kept[i]).frame == frame
}

/// The publications with one more, at most two; the same bytes twice are one.
pub open spec fn kept_with(kept: Seq<EvidenceView>, e: EvidenceView) -> Seq<EvidenceView> {
    if has_frame(kept, e.frame) {
        kept
    } else if kept.len() >= 2 {
        kept.push(e).drop_first()
    } else {
        kept.push(e)
    }
}

/// The repeats of the publications that pass, in order.
pub open spec fn repeats(
    kept: Seq<EvidenceView>,
    settled: SettledView,
    ballot: Ballot,
    to: PeerId,
) -> Seq<SendView>
    decreases kept.len(),
{
    if kept.len() == 0 {
        Seq::empty()
    } else {
        let before = repeats(kept.drop_last(), settled, ballot, to);
        if kept.last().refusal(settled, ballot) is None {
            before.push(kept.last().again(to))
        } else {
            before
        }
    }
}

/// Why the first publication that does not pass does not.
pub open spec fn first_refusal(
    kept: Seq<EvidenceView>,
    settled: SettledView,
    ballot: Ballot,
) -> Option<ReplayRefusal>
    decreases kept.len(),
{
    if kept.len() == 0 {
        None
    } else {
        let before = first_refusal(kept.drop_last(), settled, ballot);
        if before is Some {
            before
        } else {
            kept.last().refusal(settled, ballot)
        }
    }
}

/// The table remembers `c`.
pub open spec fn remembered(table: TableView, c: CommandId) -> bool {
    table.records.contains_key(c) || table.executed.contains(c)
}

/// Twice the capacity, as far as numbers go.
pub open spec fn store_bound(capacity: usize) -> int {
    if 2 * capacity > usize::MAX {
        usize::MAX as int
    } else {
        2 * capacity
    }
}

impl StoreView {
    /// Nothing kept.
    pub open spec fn empty(capacity: usize) -> Self {
        StoreView { own: Map::empty(), repairs: Map::empty(), capacity }
    }

    /// What is kept for a command.
    pub open spec fn kept(self, c: CommandId) -> Seq<EvidenceView> {
        if self.own.contains_key(c) {
            self.own[c]
        } else {
            Seq::empty()
        }
    }

    /// Repeats made for a command.
    pub open spec fn repairs_of(self, c: CommandId) -> u32 {
        if self.repairs.contains_key(c) {
            self.repairs[c]
        } else {
            0
        }
    }

    /// Without the commands the table no longer remembers.
    pub open spec fn swept(self, table: TableView) -> Self {
        let own = self.own.restrict(Set::new(|c: CommandId| remembered(table, c)));
        StoreView { own, repairs: self.repairs.restrict(own.dom()), ..self }
    }

    /// With one more publication of `c`.
    pub open spec fn retaining(self, c: CommandId, e: EvidenceView, table: TableView) -> Self {
        let grown = StoreView { own: self.own.insert(c, kept_with(self.kept(c), e)), ..self };
        if grown.own.dom().len() > store_bound(self.capacity) {
            grown.swept(table)
        } else {
            grown
        }
    }

    /// Why the evidence of `c` is not published again.
    pub open spec fn plan_refusal(
        self,
        c: CommandId,
        settled: SettledView,
        ballot: Ballot,
        table: TableView,
    ) -> Option<ReplayRefusal> {
        if !self.own.contains_key(c) {
            Some(
                if remembered(table, c) {
                    ReplayRefusal::NothingToReplay
                } else {
                    ReplayRefusal::Forgotten
                },
            )
        } else if self.repairs_of(c) >= MAX_EVIDENCE_REPAIRS {
            Some(ReplayRefusal::TooMany)
        } else if none_passes(self.own[c], settled, ballot) {
            match first_refusal(self.own[c], settled, ballot) {
                Some(why) => Some(why),
                None => Some(ReplayRefusal::NothingToReplay),
            }
        } else {
            None
        }
    }

    /// With one more repeat of `c`.
    pub open spec fn repaired(self, c: CommandId) -> Self {
        StoreView { repairs: self.repairs.insert(c, (self.repairs_of(c) + 1) as u32), ..self }
    }

    /// At most two publications for a command, and at least one.
    pub open spec fn sound(self) -> bool {
        &&& forall|c: CommandId| #[trigger]
            self.own.contains_key(c) ==> 1 <= self.own[c].len() <= 2
        &&& forall|c: CommandId| #[trigger]
            self.repairs.contains_key(c) ==> self.repairs[c] <= MAX_EVIDENCE_REPAIRS
    }
}

/// No publication may be repeated.
pub open spec fn none_passes(kept: Seq<EvidenceView>, settled: SettledView, ballot: Ballot) -> bool {
    forall|i: int| 0 <= i < kept.len() ==> (#[trigger] kept[i]).refusal(settled, ballot) is Some
}

proof fn lemma_none_passes(
    kept: Seq<EvidenceView>,
    settled: SettledView,
    ballot: Ballot,
    to: PeerId,
)
    ensures
        none_passes(kept, settled, ballot) == (repeats(kept, settled, ballot, to).len() == 0),
    decreases kept.len(),
{
    if kept.len() > 0 {
        let before = kept.drop_last();
        lemma_none_passes(before, settled, ballot, to);
        assert(kept[kept.len() - 1] == kept.last());
        if none_passes(before, settled, ballot) && kept.last().refusal(settled, ballot) is Some {
            assert forall|i: int| 0 <= i < kept.len() implies (#[trigger] kept[i]).refusal(
                settled,
                ballot,
            ) is Some by {
                if i < before.len() {
                    assert(before[i] == kept[i]);
                }
            }
        }
        if none_passes(kept, settled, ballot) {
            assert forall|i: int| 0 <= i < before.len() implies (#[trigger] before[i]).refusal(
                settled,
                ballot,
            ) is Some by {
                assert(before[i] == kept[i]);
            }
        }
    }
}

/// What is kept for a command is at most two publications, and one command's
/// evidence is repeated at most the fixed number of times.
pub proof fn lemma_store_stays_bounded(
    store: StoreView,
    c: CommandId,
    e: EvidenceView,
    table: TableView,
    settled: SettledView,
    ballot: Ballot,
)
    requires
        store.sound(),
    ensures
        StoreView::empty(store.capacity).sound(),
        store.retaining(c, e, table).sound(),
        store.swept(table).sound(),
        store.plan_refusal(c, settled, ballot, table) is None ==> store.repaired(c).sound(),
{
    let grown = StoreView { own: store.own.insert(c, kept_with(store.kept(c), e)), ..store };
    assert(1 <= kept_with(store.kept(c), e).len() <= 2) by {
        if has_frame(store.kept(c), e.frame) {
            let i = choose|i: int|
                0 <= i < store.kept(c).len() && (#[trigger] store.kept(c)[i]).frame == e.frame;
        }
    }
    assert(grown.sound());
    assert forall|s: StoreView| s.sound() implies (#[trigger] s.swept(table)).sound() by {
        let n = s.swept(table);
        assert forall|x: CommandId| #[trigger] n.own.contains_key(x) implies 1 <= n.own[x].len()
            <= 2 by {
            assert(s.own.contains_key(x));
        }
        assert forall|x: CommandId| #[trigger] n.repairs.contains_key(x) implies n.repairs[x]
            <= MAX_EVIDENCE_REPAIRS by {
            assert(s.repairs.contains_key(x));
        }
    }
}

/// A repeat goes to the frontend as it was first published: what passes is
/// durable and of the current ballot, and nothing else is sent.
pub proof fn lemma_repeats_are_durable(
    kept: Seq<EvidenceView>,
    settled: SettledView,
    ballot: Ballot,
    to: PeerId,
    i: int,
)
    requires
        0 <= i < repeats(kept, settled, ballot, to).len(),
    ensures
        exists|k: int|
            0 <= k < kept.len() && repeats(kept, settled, ballot, to)[i] == (
            #[trigger] kept[k]).again(to) && kept[k].ballot == ballot && settled.durable.contains(
                kept[k].barrier,
            ) && !settled.failed.contains(kept[k].barrier),
    decreases kept.len(),
{
    let before = kept.drop_last();
    let sends = repeats(before, settled, ballot, to);
    if i < sends.len() {
        lemma_repeats_are_durable(before, settled, ballot, to, i);
        let k = choose|k: int|
            0 <= k < before.len() && sends[i] == (#[trigger] before[k]).again(to)
                && before[k].ballot == ballot && settled.durable.contains(before[k].barrier)
                && !settled.failed.contains(before[k].barrier);
        assert(kept[k] == before[k]);
    } else {
        assert(kept[kept.len() - 1] == kept.last());
    }
}

fn find_frame(kept: &Vec<RetainedEvidence>, frame: &Vec<u8>) -> (r: bool)
    ensures
        r == has_frame(views(kept@), frame@),
{
    let mut i: usize = 0;
    while i < kept.len()
        invariant
            i <= kept@.len(),
            forall|j: int| 0 <= j < i ==> (#[trigger] views(kept@)[j]).frame != frame@,
        decreases kept@.len() - i,
    {
        if same_bytes(&kept[i].frame, frame) {
            proof {
                assert(views(kept@)[i as int].frame == frame@);
            }
            return true;
        }
        proof {
            assert(views(kept@)[i as int] == kept@[i as int]@);
        }
        i = i + 1;
    }
    false
}

fn knows(table: &CommandTable, c: &CommandId) -> (r: bool)
    ensures
        r == remembered(table@, *c),
{
    table.record(c).is_some() || table.tombstones().contains(c)
}

impl EvidenceStore {
    /// An empty store for a table of `capacity` records.
    pub fn new(capacity: usize) -> (r: Self)
        ensures
            r@ == StoreView::empty(capacity),
    {
        EvidenceStore { own: OrdMap::new(), repairs: OrdMap::new(), capacity }
    }

    /// Keep `evidence` for `command`.
    ///
    /// A command has at most one fast and one adoption acknowledgement from
    /// one replica, so at most two are kept; the same bytes twice are one
    /// publication. Swept when it has outgrown what the table remembers
    /// rather than on every insert.
    pub fn retain(&mut self, command: CommandId, evidence: RetainedEvidence, table: &CommandTable)
        ensures
            final(self)@ == old(self)@.retaining(command, evidence@, table@),
    {
        let ghost before = self@.kept(command);
        let ghost e = evidence@;
        let mut kept = match self.own.remove(&command) {
            Some(list) => list.0,
            None => Vec::new(),
        };
        proof {
            assert(views(kept@) =~= before);
        }
        if !find_frame(&kept, &evidence.frame) {
            kept.push(evidence);
            proof {
                assert(views(kept@) =~= before.push(e));
            }
            if kept.len() > 2 {
                kept.remove(0);
                proof {
                    assert(views(kept@) =~= before.push(e).drop_first());
                }
            }
        }
        proof {
            assert(views(kept@) == kept_with(before, e));
        }
        self.own.insert(command, EvidenceList(kept));
        let ghost grown = StoreView {
            own: old(self)@.own.insert(command, kept_with(before, e)),
            ..old(self)@
        };
        proof {
            assert(self@.own =~= grown.own);
        }
        let bound: usize = if self.capacity > usize::MAX / 2 {
            usize::MAX
        } else {
            self.capacity * 2
        };
        if self.own.len() > bound {
            self.sweep(table);
        }
    }

    /// Forget every command the table no longer remembers either.
    #[verifier::rlimit(40)]
    fn sweep(&mut self, table: &CommandTable)
        ensures
            final(self)@ == old(self)@.swept(table@),
    {
        let keys = self.own.keys();
        let ghost all = keys@;
        let ghost start = self@;
        let ghost goal = start.own.restrict(Set::new(|c: CommandId| remembered(table@, c)));
        proof {
            crate::lists::lemma_id_views(keys@);
            lemma_in_order::<CommandId>(start.own.dom());
        }
        let mut i: usize = 0;
        proof {
            assert(self.own@ =~= start.own.remove_keys(
                all.take(0).to_set().difference(goal.dom()),
            ));
        }
        while i < keys.len()
            invariant
                i <= keys@.len(),
                all == keys@,
                all == in_order::<CommandId>(start.own.dom()),
                goal == start.own.restrict(Set::new(|c: CommandId| remembered(table@, c))),
                self.own@ == start.own.remove_keys(
                    all.take(i as int).to_set().difference(goal.dom()),
                ),
                self.repairs@ == start.repairs,
                self.capacity == start.capacity,
                forall|j: int| 0 <= j < all.len() ==> start.own.contains_key(#[trigger] all[j]),
            decreases keys@.len() - i,
        {
            let c = keys[i];
            proof {
                lemma_take_set(all, i as int);
                assert(start.own.contains_key(all[i as int]));
            }
            if !knows(table, &c) {
                self.own.remove(&c);
            }
            proof {
                assert(self.own@ =~= start.own.remove_keys(
                    all.take(i + 1).to_set().difference(goal.dom()),
                ));
            }
            i = i + 1;
        }
        proof {
            assert(all.take(all.len() as int) =~= all);
            assert forall|c: CommandId| start.own.contains_key(c) implies all.to_set().contains(
                c,
            ) by {
                assert(all.contains(c));
            }
            assert(self.own@ =~= goal);
        }
        let counted = self.repairs.keys();
        let ghost rs = counted@;
        let ghost rgoal = start.repairs.restrict(goal.dom());
        proof {
            crate::lists::lemma_id_views(counted@);
            lemma_in_order::<CommandId>(start.repairs.dom());
        }
        let mut j: usize = 0;
        proof {
            assert(self.repairs@ =~= start.repairs.remove_keys(
                rs.take(0).to_set().difference(goal.dom()),
            ));
        }
        while j < counted.len()
            invariant
                j <= counted@.len(),
                rs == counted@,
                rs == in_order::<CommandId>(start.repairs.dom()),
                self.own@ == goal,
                self.capacity == start.capacity,
                self.repairs@ == start.repairs.remove_keys(
                    rs.take(j as int).to_set().difference(goal.dom()),
                ),
            decreases counted@.len() - j,
        {
            let c = counted[j];
            proof {
                lemma_take_set(rs, j as int);
            }
            if !self.own.contains_key(&c) {
                self.repairs.remove(&c);
            }
            proof {
                assert(self.repairs@ =~= start.repairs.remove_keys(
                    rs.take(j + 1).to_set().difference(goal.dom()),
                ));
            }
            j = j + 1;
        }
        proof {
            assert(rs.take(rs.len() as int) =~= rs);
            assert forall|c: CommandId| start.repairs.contains_key(c) implies rs.to_set().contains(
                c,
            ) by {
                assert(rs.contains(c));
            }
            assert(self.repairs@ =~= rgoal);
        }
    }

    /// What is kept for `command`, as sends to `to` that pass `ballot`.
    pub fn acknowledged(&self, command: &CommandId, ballot: Ballot, to: PeerId) -> (r: Vec<
        PendingSend,
    >)
        ensures
            views(r@) == acknowledgements(self@.kept(*command), ballot, to),
    {
        let mut out: Vec<PendingSend> = Vec::new();
        match self.own.get(command) {
            None => {
                proof {
                    assert(views(out@) =~= Seq::<SendView>::empty());
                }
                out
            },
            Some(list) => {
                let ghost kept = views(list.0@);
                let mut i: usize = 0;
                proof {
                    assert(kept.take(0) =~= Seq::<EvidenceView>::empty());
                    assert(views(out@) =~= Seq::<SendView>::empty());
                }
                while i < list.0.len()
                    invariant
                        i <= list.0@.len(),
                        kept == views(list.0@),
                        views(out@) == acknowledgements(kept.take(i as int), ballot, to),
                    decreases list.0@.len() - i,
                {
                    let ghost before = views(out@);
                    proof {
                        assert(kept.take(i + 1).drop_last() =~= kept.take(i as int));
                        assert(kept.take(i + 1).last() == list.0@[i as int]@);
                    }
                    if list.0[i].ballot == ballot {
                        out.push(list.0[i].again(to));
                        proof {
                            assert(views(out@) =~= before.push(list.0@[i as int]@.again(to)));
                        }
                    }
                    i = i + 1;
                }
                proof {
                    assert(kept.take(kept.len() as int) =~= kept);
                }
                out
            },
        }
    }

    /// The sends that publish `command`'s evidence again, or why there are
    /// none.
    ///
    /// Each retained publication is judged on its own: one whose batch is
    /// not durable yet still has its original send queued, one whose batch
    /// failed had that send dropped, and one from another ballot is not this
    /// ballot's evidence. What passes is offered to `frontend` under the
    /// context and barriers it was first published with. If nothing passes,
    /// the first refusal says why.
    ///
    /// The caller has already decided this replica may act at all.
    #[verifier::rlimit(40)]
    pub fn plan(
        &mut self,
        command: CommandId,
        settled: &Settlements,
        ballot: Ballot,
        frontend: PeerId,
        table: &CommandTable,
    ) -> (r: Result<Vec<PendingSend>, ReplayRefusal>)
        ensures
            match old(self)@.plan_refusal(command, settled@, ballot, table@) {
                Some(why) => r == Err::<Vec<PendingSend>, ReplayRefusal>(why) && final(self)@
                    == old(self)@,
                None => r is Ok && views(r->Ok_0@) == repeats(
                    old(self)@.own[command],
                    settled@,
                    ballot,
                    frontend,
                ) && final(self)@ == old(self)@.repaired(command),
            },
    {
        let count: u32 = self.repairs_of(&command);
        let sends = match self.own.get(&command) {
            None => {
                return Err(
                    if knows(table, &command) {
                        ReplayRefusal::NothingToReplay
                    } else {
                        ReplayRefusal::Forgotten
                    },
                );
            },
            Some(list) => {
                if count >= MAX_EVIDENCE_REPAIRS {
                    return Err(ReplayRefusal::TooMany);
                }
                let ghost kept = views(list.0@);
                let mut sends: Vec<PendingSend> = Vec::new();
                let mut refused: Option<ReplayRefusal> = None;
                let mut i: usize = 0;
                proof {
                    assert(kept.take(0) =~= Seq::<EvidenceView>::empty());
                    assert(views(sends@) =~= Seq::<SendView>::empty());
                }
                while i < list.0.len()
                    invariant
                        i <= list.0@.len(),
                        kept == views(list.0@),
                        views(sends@) == repeats(kept.take(i as int), settled@, ballot, frontend),
                        refused == first_refusal(kept.take(i as int), settled@, ballot),
                    decreases list.0@.len() - i,
                {
                    let ghost before = views(sends@);
                    proof {
                        assert(kept.take(i + 1).drop_last() =~= kept.take(i as int));
                        assert(kept.take(i + 1).last() == list.0@[i as int]@);
                    }
                    match list.0[i].refusal(settled, ballot) {
                        Some(why) => {
                            if refused.is_none() {
                                refused = Some(why);
                            }
                        },
                        None => {
                            sends.push(list.0[i].again(frontend));
                            proof {
                                assert(views(sends@) =~= before.push(
                                    list.0@[i as int]@.again(frontend),
                                ));
                            }
                        },
                    }
                    i = i + 1;
                }
                proof {
                    assert(kept.take(kept.len() as int) =~= kept);
                    lemma_none_passes(kept, settled@, ballot, frontend);
                }
                if sends.len() == 0 {
                    return Err(
                        match refused {
                            Some(why) => why,
                            None => ReplayRefusal::NothingToReplay,
                        },
                    );
                }
                sends
            },
        };
        self.repairs.insert(command, count + 1);
        Ok(sends)
    }

    /// How often `command`'s evidence has been published again this boot.
    pub fn repairs_of(&self, command: &CommandId) -> (r: u32)
        ensures
            r == self@.repairs_of(*command),
    {
        match self.repairs.get(command) {
            Some(n) => *n,
            None => 0,
        }
    }
}

/// The publications of a ballot, as sends to `to`.
pub open spec fn acknowledgements(kept: Seq<EvidenceView>, ballot: Ballot, to: PeerId) -> Seq<
    SendView,
>
    decreases kept.len(),
{
    if kept.len() == 0 {
        Seq::empty()
    } else {
        let before = acknowledgements(kept.drop_last(), ballot, to);
        if kept.last().ballot == ballot {
            before.push(kept.last().again(to))
        } else {
            before
        }
    }
}

} // verus!
