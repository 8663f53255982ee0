//! What a collector owes the voters of a command by way of handing them its
//! submission.
//!
//! Delivery is not consensus. A destination whose queue is full or whose
//! link is down has said something about itself and nothing about whether
//! the command will be established, so nothing here can fail a command. The
//! obligation is bound to the command: it ends when every voter took the
//! submission or when the command settles, never because a destination has
//! been difficult enough times.

use vstd::prelude::*;

use crate::client::{Frame, FrameView};
use crate::clock::{MonotonicMillis, later};
use crate::ids::ReplicaId;
use crate::ordered::{
    Dup, Key, OrdMap, OrdSet, ascending, in_order, lemma_in_order, lemma_is_in_order,
    lemma_take_set, views,
};

verus! {

/// What a submission envelope may carry beyond its request's own bytes: the
/// admission facts, the retry key, deadline and acknowledged floor, the
/// encoding's own tags and lengths, and the frame header.
pub const SUBMIT_ENVELOPE_ALLOWANCE: usize = 128 * 1024;

/// A value no larger than a machine word holds.
pub open spec fn word(n: int) -> int {
    if n > usize::MAX {
        usize::MAX as int
    } else {
        n
    }
}

/// The undelivered-bytes budget of a collector that may hold `max_pending`
/// commands of requests up to `max_request_bytes`: one whole submission
/// envelope for each, request and allowance together.
pub open spec fn budget_of(max_pending: int, max_request_bytes: int) -> int {
    word(max_pending * word(max_request_bytes + SUBMIT_ENVELOPE_ALLOWANCE))
}

/// The undelivered-bytes budget of a collector that may hold `max_pending`
/// commands of requests up to `max_request_bytes`: one whole submission
/// envelope for each, request and allowance together.
pub fn undelivered_budget(max_pending: usize, max_request_bytes: usize) -> (r: usize)
    ensures
        r == budget_of(max_pending as int, max_request_bytes as int),
{
    let envelope: usize = match max_request_bytes.checked_add(SUBMIT_ENVELOPE_ALLOWANCE) {
        Some(n) => n,
        None => usize::MAX,
    };
    match max_pending.checked_mul(envelope) {
        Some(n) => n,
        None => usize::MAX,
    }
}

/// A budget sized for `max_pending` envelopes takes a request at the limit
/// for each of them: the envelope around it is what is held.
pub proof fn lemma_budget_fits_its_requests(
    max_pending: int,
    max_request_bytes: int,
    held: int,
    envelope: int,
)
    requires
        0 <= held < max_pending,
        0 <= envelope <= max_request_bytes + SUBMIT_ENVELOPE_ALLOWANCE,
        max_pending * (max_request_bytes + SUBMIT_ENVELOPE_ALLOWANCE) <= usize::MAX,
    ensures
        held * (max_request_bytes + SUBMIT_ENVELOPE_ALLOWANCE) + envelope <= budget_of(
            max_pending,
            max_request_bytes,
        ),
{
    let each = max_request_bytes + SUBMIT_ENVELOPE_ALLOWANCE;
    assert(each <= max_pending * each) by (nonlinear_arith)
        requires
            0 < max_pending,
            0 <= each,
    ;
    assert(held * each + each <= max_pending * each) by (nonlinear_arith)
        requires
            held + 1 <= max_pending,
            0 <= each,
    ;
}

/// How long a destination waits before the first repeat, in milliseconds of
/// a monotonic reading. A floor, not a rate: a queue that was full a moment
/// ago is often free a moment later.
pub const OFFER_FLOOR_MILLIS: u64 = 25;

/// The longest a destination waits between repeats, in milliseconds.
/// Doubling stops here. A voter that holds evidence for a submission to
/// place it has to outlast this schedule.
pub const OFFER_CEILING_MILLIS: u64 = 1_000;

/// The floor doubled `times` times.
pub open spec fn doubled(times: nat) -> int
    decreases times,
{
    if times == 0 {
        OFFER_FLOOR_MILLIS as int
    } else {
        2 * doubled((times - 1) as nat)
    }
}

proof fn lemma_doubled_grows(a: nat, b: nat)
    requires
        a <= b,
    ensures
        OFFER_FLOOR_MILLIS <= doubled(a) <= doubled(b),
    decreases b,
{
    if a < b {
        lemma_doubled_grows(a, (b - 1) as nat);
    } else if a > 0 {
        lemma_doubled_grows((a - 1) as nat, (a - 1) as nat);
    }
}

/// How long the `attempts`-th repeat waits: exponential from the floor to
/// the ceiling.
pub open spec fn wait_of(attempts: int) -> int {
    if doubled((attempts - 1) as nat) > OFFER_CEILING_MILLIS {
        OFFER_CEILING_MILLIS as int
    } else {
        doubled((attempts - 1) as nat)
    }
}

/// A destination that keeps refusing costs less and less: the wait never
/// shrinks, starts at the floor and stops at the ceiling.
pub proof fn lemma_backoff_is_bounded(attempts: int, more: int)
    requires
        1 <= attempts <= more,
    ensures
        OFFER_FLOOR_MILLIS <= wait_of(attempts) <= wait_of(more) <= OFFER_CEILING_MILLIS,
        wait_of(1) == OFFER_FLOOR_MILLIS,
        more >= 7 ==> wait_of(more) == OFFER_CEILING_MILLIS,
{
    lemma_doubled_grows((attempts - 1) as nat, (more - 1) as nat);
    if more >= 7 {
        reveal_with_fuel(doubled, 8);
        assert(doubled(6) == 1600);
        lemma_doubled_grows(6, (more - 1) as nat);
    }
}

/// How long the `attempts`-th repeat waits, in milliseconds.
///
/// Exponential from the floor to the ceiling, so sustained congestion cannot
/// be turned into sustained retry traffic by the retries themselves.
pub fn backoff_millis(attempts: u32) -> (r: u64)
    requires
        attempts >= 1,
    ensures
        r == wait_of(attempts as int),
{
    let mut wait: u64 = OFFER_FLOOR_MILLIS;
    let mut made: u32 = 1;
    while made < attempts && wait < OFFER_CEILING_MILLIS
        invariant
            1 <= made <= attempts,
            wait == doubled((made - 1) as nat),
            wait < 2 * OFFER_CEILING_MILLIS,
        decreases attempts - made,
    {
        wait = wait * 2;
        made = made + 1;
    }
    proof {
        lemma_doubled_grows((made - 1) as nat, (attempts - 1) as nat);
    }
    if wait > OFFER_CEILING_MILLIS {
        OFFER_CEILING_MILLIS
    } else {
        wait
    }
}

/// The reading at which a request presented at `now` expires.
pub open spec fn expiry(now: int, deadline_ms: u32) -> Option<int> {
    if deadline_ms > 0 {
        Some(later(now, deadline_ms as int))
    } else {
        None
    }
}

/// What an optional reading is.
pub open spec fn reading_view(r: Option<MonotonicMillis>) -> Option<int> {
    match r {
        Some(m) => Some(m@),
        None => None,
    }
}

/// The reading at which a request presented at `now` with `deadline_ms`
/// expires; none for a request that named no deadline.
pub fn deadline(now: MonotonicMillis, deadline_ms: u32) -> (r: Option<MonotonicMillis>)
    ensures
        reading_view(r) == expiry(now@, deadline_ms),
{
    if deadline_ms > 0 {
        Some(now.plus(deadline_ms as u64))
    } else {
        None
    }
}

/// What one destination did with one offer of a submission.
///
/// `Queued` says an ingress accepted responsibility for the frame; it is not
/// a vote, not durability and not application. The reasons are kept apart
/// because they need different treatment.
#[derive(Clone, Copy, Debug, PartialEq, Eq, Structural)]
pub enum OfferOutcome {
    /// The destination's ingress took the frame.
    Queued,
    /// The destination is a live voter with no room right now. Delivery
    /// backpressure: offer it again.
    Saturated,
    /// There is no route to the destination at the moment. A network fact,
    /// and also transient: offer it again.
    Unreachable,
    /// The committed configuration does not name this replica as a voter of
    /// this domain. Repeating cannot fix it; only a reconfiguration revisits
    /// it.
    NotACommittedVoter,
    /// The frame can never reach this destination as it stands. Permanent
    /// for this envelope.
    Undeliverable,
}

impl OfferOutcome {
    /// Offering again could plausibly differ.
    pub open spec fn transient(self) -> bool {
        self == OfferOutcome::Saturated || self == OfferOutcome::Unreachable
    }

    /// Whether offering this destination again could plausibly differ.
    pub fn worth_repeating(self) -> (r: bool)
        ensures
            r == self.transient(),
    {
        match self {
            OfferOutcome::Saturated => true,
            OfferOutcome::Unreachable => true,
            _ => false,
        }
    }
}

/// What one destination still owes a command.
#[allow(inconsistent_fields)]
#[derive(Clone, Copy, Debug)]
pub enum Owed {
    /// The ingress took it. Nothing further is owed by delivery.
    Queued,
    /// Not taken, and worth offering again.
    Missed {
        /// Offers behind it.
        attempts: u32,
        /// When it is due again.
        next: MonotonicMillis,
        /// What the last offer met.
        why: OfferOutcome,
    },
    /// Not taken, and not on the congestion schedule: a configuration
    /// disagreement, an envelope this route can never carry, or a first
    /// offer that is still to be answered.
    Stalled(OfferOutcome),
}

/// What one destination owes.
pub enum OwedView {
    /// Nothing.
    Queued,
    /// Another offer, at `next`.
    Missed {
        /// Offers behind it.
        attempts: u32,
        /// When it is due again.
        next: int,
        /// What the last offer met.
        why: OfferOutcome,
    },
    /// Held off the schedule.
    Stalled(OfferOutcome),
}

impl View for Owed {
    type V = OwedView;

    open spec fn view(&self) -> OwedView {
        match self {
            Owed::Queued => OwedView::Queued,
            Owed::Missed { attempts, next, why } => OwedView::Missed {
                attempts: *attempts,
                next: next@,
                why: *why,
            },
            Owed::Stalled(why) => OwedView::Stalled(*why),
        }
    }
}

impl Dup for Owed {
    fn dup(&self) -> (r: Self) {
        *self
    }
}

impl OwedView {
    /// Offers behind this destination after one more missed.
    pub open spec fn attempts_after(self) -> u32 {
        match self {
            OwedView::Missed { attempts, .. } => if attempts == u32::MAX {
                u32::MAX
            } else {
                (attempts + 1) as u32
            },
            _ => 1,
        }
    }

    /// What is owed after an offer met `outcome` at `now`.
    pub open spec fn after(self, now: int, outcome: OfferOutcome) -> Self {
        if outcome == OfferOutcome::Queued {
            OwedView::Queued
        } else if outcome.transient() {
            OwedView::Missed {
                attempts: self.attempts_after(),
                next: later(now, wait_of(self.attempts_after() as int)),
                why: outcome,
            }
        } else {
            OwedView::Stalled(outcome)
        }
    }

    /// The destination has not taken the frame; with a reading, it also is
    /// due another offer then.
    pub open spec fn waits(self, due: Option<int>) -> bool {
        match due {
            None => self !is Queued,
            Some(now) => self matches OwedView::Missed { next, .. } && next <= now,
        }
    }
}

/// The delivery state of one pending command's submission.
///
/// It has no `Debug`: the envelope is a caller's request.
pub struct Dissemination {
    /// The exact envelope that was submitted, kept while anything is owed.
    envelope: Option<Frame>,
    /// Bytes reserved against the byte budget.
    reserved: usize,
    /// What each planned destination owes, in replica order.
    owed: OrdMap<ReplicaId, Owed>,
}

/// What an optional envelope is.
pub open spec fn envelope_view(e: Option<Frame>) -> Option<FrameView> {
    match e {
        Some(f) => Some(f@),
        None => None,
    }
}

/// A copy of an optional envelope.
fn dup_envelope(e: &Option<Frame>) -> (r: Option<Frame>)
    ensures
        envelope_view(r) == envelope_view(*e),
{
    match e {
        Some(f) => Some(f.dup()),
        None => None,
    }
}

/// What is owed by way of delivery.
#[verifier::ext_equal]
pub struct DeliveryView {
    /// The exact envelope that was submitted.
    pub envelope: Option<FrameView>,
    /// Bytes reserved for it.
    pub reserved: usize,
    /// What each planned destination owes.
    pub owed: Map<ReplicaId, OwedView>,
}

impl View for Dissemination {
    type V = DeliveryView;

    closed spec fn view(&self) -> DeliveryView {
        DeliveryView {
            envelope: envelope_view(self.envelope),
            reserved: self.reserved,
            owed: self.owed@,
        }
    }
}

/// What each destination owes after the answers to one offer. Only planned
/// destinations: an answer naming another replica is not permission to start
/// owing it one.
pub open spec fn answered(
    owed: Map<ReplicaId, OwedView>,
    now: int,
    outcomes: Seq<(ReplicaId, OfferOutcome)>,
) -> Map<ReplicaId, OwedView>
    decreases outcomes.len(),
{
    if outcomes.len() == 0 {
        owed
    } else {
        let before = answered(owed, now, outcomes.drop_last());
        let (replica, outcome) = outcomes.last();
        if before.contains_key(replica) {
            before.insert(replica, before[replica].after(now, outcome))
        } else {
            before
        }
    }
}

impl DeliveryView {
    /// A submission about to be offered for the first time: every voter is a
    /// planned destination, and none is on the repeat schedule yet.
    pub open spec fn planned(envelope: FrameView, reserved: usize, targets: Set<ReplicaId>) -> Self {
        DeliveryView {
            envelope: Some(envelope),
            reserved,
            owed: Map::new(
                |r: ReplicaId| targets.contains(r),
                |r: ReplicaId| OwedView::Stalled(OfferOutcome::Unreachable),
            ),
        }
    }

    /// Destinations that wait (for the frame, or for an offer due now).
    pub open spec fn waiting(self, due: Option<int>) -> Set<ReplicaId> {
        self.owed.dom().filter(|r: ReplicaId| self.owed[r].waits(due))
    }

    /// Destinations that have not taken the frame, in replica order.
    pub open spec fn missing(self) -> Seq<ReplicaId> {
        in_order::<ReplicaId>(self.waiting(None))
    }

    /// Something is still owed and worth another offer.
    pub open spec fn outstanding(self) -> bool {
        exists|r: ReplicaId| #[trigger]
            self.owed.contains_key(r) && self.owed[r] is Missed
    }

    /// Every destination took it: the envelope is not needed again and its
    /// bytes go back.
    pub open spec fn delivered(self) -> bool {
        self.waiting(None) == Set::<ReplicaId>::empty()
    }

    /// The bytes that go back where every destination took it.
    pub open spec fn given_back(self) -> usize {
        if self.delivered() {
            self.reserved
        } else {
            0
        }
    }

    /// The delivery state with its envelope given back where every
    /// destination took it.
    pub open spec fn trimmed(self) -> Self {
        if self.delivered() {
            DeliveryView { envelope: None, reserved: 0, ..self }
        } else {
            self
        }
    }

    /// The destinations of the next repeat at `now`, no more than `room`.
    pub open spec fn targets(self, now: int, room: int) -> Seq<ReplicaId> {
        let due = in_order::<ReplicaId>(self.waiting(Some(now)));
        if self.envelope is None {
            Seq::empty()
        } else if due.len() > room {
            due.take(room)
        } else {
            due
        }
    }

    /// The delivery state with a repeat under way: until it is answered its
    /// destinations are not picked again.
    pub open spec fn reoffered(self, now: int, room: int) -> Self {
        DeliveryView {
            owed: Map::new(
                |r: ReplicaId| self.owed.contains_key(r),
                |r: ReplicaId|
                    match self.owed[r] {
                        OwedView::Missed { attempts, next, why } if self.targets(
                            now,
                            room,
                        ).contains(r) => OwedView::Missed {
                            attempts,
                            next: later(now, OFFER_CEILING_MILLIS as int),
                            why,
                        },
                        o => o,
                    },
            ),
            ..self
        }
    }

    /// What a voter owes after the committed configuration changed.
    pub open spec fn revisited_voter(self, voter: ReplicaId) -> OwedView {
        let owed = if self.owed.contains_key(voter) {
            self.owed[voter]
        } else {
            OwedView::Stalled(OfferOutcome::Unreachable)
        };
        if owed is Stalled && self.envelope is Some {
            OwedView::Missed { attempts: 1, next: 0, why: OfferOutcome::Unreachable }
        } else {
            owed
        }
    }

    /// Delivery follows the committed configuration: a replica that is no
    /// longer a voter stops being owed anything, one that has become a voter
    /// is owed the submission and is due it now, while there is something to
    /// offer.
    pub open spec fn revisited(self, voters: Set<ReplicaId>) -> Self {
        DeliveryView {
            owed: Map::new(
                |r: ReplicaId| voters.contains(r),
                |r: ReplicaId| self.revisited_voter(r),
            ),
            ..self
        }
    }

    /// An envelope that is gone holds no bytes, and while it is there some
    /// destination waits for it.
    pub open spec fn sound(self) -> bool {
        &&& self.owed.dom().finite()
        &&& self.envelope is None ==> self.reserved == 0
        &&& self.envelope is Some ==> !self.delivered()
    }
}

proof fn lemma_waiting(delivery: DeliveryView, due: Option<int>)
    requires
        delivery.owed.dom().finite(),
    ensures
        delivery.waiting(due).finite(),
        delivery.waiting(due).subset_of(delivery.owed.dom()),
        in_order::<ReplicaId>(delivery.waiting(due)).to_set() == delivery.waiting(due),
        in_order::<ReplicaId>(delivery.waiting(due)).no_duplicates(),
{
    delivery.owed.dom().lemma_len_filter(|r: ReplicaId| delivery.owed[r].waits(due));
    lemma_in_order::<ReplicaId>(delivery.waiting(due));
}

/// A repeat offers the envelope only to planned destinations that are due it
/// now, each once, no more than there is room for; after it none of them is
/// due again until the ceiling has passed, unless an answer says otherwise.
pub proof fn lemma_repeats_are_due(delivery: DeliveryView, now: int, room: int, r: ReplicaId)
    requires
        delivery.owed.dom().finite(),
        0 <= room,
    ensures
        delivery.targets(now, room).len() <= room,
        delivery.targets(now, room).no_duplicates(),
        delivery.targets(now, room).contains(r) ==> delivery.envelope is Some
            && delivery.owed.contains_key(r) && delivery.owed[r].waits(Some(now))
            && delivery.reoffered(now, room).owed[r]->next == later(
            now,
            OFFER_CEILING_MILLIS as int,
        ),
        !delivery.targets(now, room).contains(r) && delivery.owed.contains_key(r)
            ==> delivery.reoffered(now, room).owed[r] == delivery.owed[r],
        delivery.reoffered(now, room).owed.dom() == delivery.owed.dom(),
        delivery.reoffered(now, room).waiting(None) == delivery.waiting(None),
{
    lemma_waiting(delivery, Some(now));
    let due = in_order::<ReplicaId>(delivery.waiting(Some(now)));
    let next = delivery.reoffered(now, room);
    assert(next.owed.dom() =~= delivery.owed.dom());
    if delivery.targets(now, room).contains(r) {
        assert(due.contains(r));
        assert(due.to_set().contains(r));
    }
    assert(next.waiting(None) =~= delivery.waiting(None));
}

/// Delivery never forgets: an answer changes what planned destinations owe
/// and never who is planned, and a destination that took the frame is the
/// only one that stops waiting.
pub proof fn lemma_answers_keep_the_plan(
    owed: Map<ReplicaId, OwedView>,
    now: int,
    outcomes: Seq<(ReplicaId, OfferOutcome)>,
    r: ReplicaId,
)
    ensures
        answered(owed, now, outcomes).dom() == owed.dom(),
        owed.contains_key(r) && owed[r] !is Queued && answered(owed, now, outcomes)[r] is Queued
            ==> outcomes.contains((r, OfferOutcome::Queued)),
    decreases outcomes.len(),
{
    if outcomes.len() > 0 {
        lemma_answers_keep_the_plan(owed, now, outcomes.drop_last(), r);
        let before = answered(owed, now, outcomes.drop_last());
        assert(answered(owed, now, outcomes).dom() =~= owed.dom());
        if owed.contains_key(r) && owed[r] !is Queued && answered(owed, now, outcomes)[r]
            is Queued {
            if outcomes.drop_last().contains((r, OfferOutcome::Queued)) {
                let i = choose|i: int|
                    0 <= i < outcomes.drop_last().len() && outcomes.drop_last()[i] == (
                        r,
                        OfferOutcome::Queued,
                    );
                assert(outcomes[i] == (r, OfferOutcome::Queued));
            } else {
                assert(outcomes[outcomes.len() - 1] == (r, OfferOutcome::Queued));
            }
        }
    }
}

impl Dissemination {
    /// The delivery state of a submission about to be offered to `targets`.
    pub fn planned(envelope: Frame, reserved: usize, targets: &OrdSet<ReplicaId>) -> (r: Self)
        ensures
            r@ == DeliveryView::planned(envelope@, reserved, targets@),
    {
        let mut owed: OrdMap<ReplicaId, Owed> = OrdMap::new();
        let order = targets.to_vec();
        let mut i: usize = 0;
        proof {
            assert(views(order@) =~= order@);
            lemma_in_order::<ReplicaId>(targets@);
        }
        while i < order.len()
            invariant
                i <= order@.len(),
                forall|r: ReplicaId| #[trigger] owed@.contains_key(r) <==> order@.take(i as int).to_set().contains(r),
                forall|r: ReplicaId| #[trigger] owed@.contains_key(r) ==> owed@[r] == OwedView::Stalled(OfferOutcome::Unreachable),
            decreases order@.len() - i,
        {
            proof {
                lemma_take_set(order@, i as int);
            }
            owed.insert(order[i], Owed::Stalled(OfferOutcome::Unreachable));
            i = i + 1;
        }
        let r = Dissemination { envelope: Some(envelope), reserved, owed };
        proof {
            assert(order@.take(order@.len() as int) =~= order@);
            assert(order@.to_set() == targets@);
            assert(r@ =~= DeliveryView::planned(envelope@, reserved, targets@));
        }
        r
    }

    /// Destinations that wait: for the frame, or, with a reading, for an
    /// offer due then.
    #[verifier::rlimit(40)]
    fn waiting(&self, due: Option<MonotonicMillis>) -> (r: Vec<ReplicaId>)
        ensures
            r@ == in_order::<ReplicaId>(self@.waiting(reading_view(due))),
            self@.owed.dom().finite(),
    {
        let keys = self.owed.keys();
        let mut out: Vec<ReplicaId> = Vec::new();
        let mut i: usize = 0;
        let ghost wanted = self@.waiting(reading_view(due));
        proof {
            assert(views(keys@) =~= keys@);
            lemma_in_order::<ReplicaId>(self@.owed.dom());
        }
        while i < keys.len()
            invariant
                i <= keys@.len(),
                keys@ == in_order::<ReplicaId>(self.owed@.dom()),
                keys@.len() == self.owed@.dom().len(),
                ascending::<ReplicaId>(keys@),
                ascending::<ReplicaId>(out@),
                wanted == self@.waiting(reading_view(due)),
                forall|j: int| 0 <= j < keys@.len() ==> self.owed@.contains_key(#[trigger] keys@[j]),
                forall|j: int| 0 <= j < out@.len() ==> keys@.take(i as int).contains(#[trigger] out@[j]),
                forall|r: ReplicaId|
                    #![trigger out@.contains(r)]
                    out@.contains(r) <==> keys@.take(i as int).contains(r) && wanted.contains(r),
            decreases keys@.len() - i,
        {
            let ghost before = out@;
            let ghost seen = keys@.take(i as int);
            let ghost more = keys@.take(i + 1);
            let owed = self.owed.value_at(i);
            let waits = match (owed, due) {
                (Owed::Queued, _) => false,
                (Owed::Missed { next, .. }, Some(now)) => now.reached(*next),
                (Owed::Missed { .. }, None) => true,
                (Owed::Stalled(_), Some(_)) => false,
                (Owed::Stalled(_), None) => true,
            };
            proof {
                let k = keys@[i as int];
                assert(waits == wanted.contains(k));
                assert(more =~= seen.push(k));
                assert(more[i as int] == k);
                assert forall|r: ReplicaId| seen.contains(r) implies more.contains(r) by {
                    let j = choose|j: int| 0 <= j < seen.len() && seen[j] == r;
                    assert(more[j] == r);
                }
                assert forall|r: ReplicaId| more.contains(r) implies seen.contains(r) || r == k by {
                    let j = choose|j: int| 0 <= j < more.len() && more[j] == r;
                    if j < i {
                        assert(seen[j] == r);
                    }
                }
                assert forall|j: int| 0 <= j < out@.len() implies ReplicaId::before(
                    #[trigger] out@[j],
                    k,
                ) by {
                    assert(seen.contains(out@[j]));
                    let m = choose|m: int| 0 <= m < seen.len() && seen[m] == out@[j];
                    assert(keys@[m] == out@[j]);
                }
            }
            if waits {
                out.push(keys[i]);
            }
            i = i + 1;
            proof {
                let k = keys@[i - 1];
                assert forall|r: ReplicaId| #![trigger out@.contains(r)] out@.contains(r) <==> more.contains(r) && wanted.contains(r) by {
                    if waits {
                        assert(out@ =~= before.push(k));
                        if before.contains(r) {
                            let j = choose|j: int| 0 <= j < before.len() && before[j] == r;
                            assert(out@[j] == r);
                        }
                        assert(out@[out@.len() - 1] == k);
                        if out@.contains(r) && r != k {
                            let j = choose|j: int| 0 <= j < out@.len() && out@[j] == r;
                            assert(before[j] == r);
                        }
                    }
                }
                assert forall|j: int| 0 <= j < out@.len() implies more.contains(#[trigger] out@[j]) by {
                    if j < before.len() {
                        assert(out@[j] == before[j]);
                        assert(seen.contains(before[j]));
                    }
                }
            }
        }
        proof {
            assert(keys@.take(keys@.len() as int) =~= keys@);
            assert forall|r: ReplicaId| #[trigger] out@.contains(r) <==> wanted.contains(r) by {
                if wanted.contains(r) {
                    assert(keys@.contains(r));
                }
            }
            lemma_is_in_order::<ReplicaId>(out@, wanted);
        }
        out
    }

    /// Destinations that have not taken the frame, for any reason.
    pub fn missing(&self) -> (r: Vec<ReplicaId>)
        ensures
            r@ == self@.missing(),
            r@.len() == 0 <==> self@.delivered(),
            self@.owed.dom().finite(),
    {
        let r = self.waiting(None);
        proof {
            lemma_waiting(self@, None);
            lemma_in_order::<ReplicaId>(self@.waiting(None));
            if self@.delivered() {
                assert(Set::<ReplicaId>::empty().len() == 0);
            }
            if r@.len() == 0 {
                assert(self@.waiting(None) =~= Set::<ReplicaId>::empty());
            }
        }
        r
    }

    /// Whether anything is still owed and worth another offer.
    pub fn outstanding(&self) -> (r: bool)
        ensures
            r == self@.outstanding(),
    {
        let size: usize = self.owed.len();
        let mut i: usize = 0;
        proof {
            lemma_in_order::<ReplicaId>(self.owed@.dom());
        }
        while i < size
            invariant
                i <= size == self.owed@.dom().len(),
                forall|j: int| 0 <= j < i ==> self.owed@[#[trigger] in_order::<ReplicaId>(self.owed@.dom())[j]] !is Missed,
            decreases size - i,
        {
            if let Owed::Missed { .. } = self.owed.value_at(i) {
                let key = self.owed.key_at(i);
                proof {
                    assert(self@.owed.contains_key(key@));
                }
                return true;
            }
            i = i + 1;
        }
        proof {
            let order = in_order::<ReplicaId>(self.owed@.dom());
            assert forall|r: ReplicaId| #[trigger] self@.owed.contains_key(r) implies self@.owed[r] !is Missed by {
                assert(order.contains(r));
                let j = choose|j: int| 0 <= j < order.len() && order[j] == r;
                assert(self.owed@[order[j]] !is Missed);
            }
        }
        false
    }

    /// Record what an offer achieved, destination by destination.
    pub fn record(&mut self, now: MonotonicMillis, outcomes: &Vec<(ReplicaId, OfferOutcome)>)
        ensures
            final(self)@ == (DeliveryView {
                owed: answered(old(self)@.owed, now@, outcomes@),
                ..old(self)@
            }),
    {
        let ghost start = self@;
        let mut i: usize = 0;
        proof {
            assert(outcomes@.take(0) =~= Seq::<(ReplicaId, OfferOutcome)>::empty());
        }
        while i < outcomes.len()
            invariant
                i <= outcomes@.len(),
                self@ == (DeliveryView {
                    owed: answered(start.owed, now@, outcomes@.take(i as int)),
                    ..start
                }),
            decreases outcomes@.len() - i,
        {
            proof {
                assert(outcomes@.take(i + 1).drop_last() =~= outcomes@.take(i as int));
            }
            let replica = outcomes[i].0;
            let outcome = outcomes[i].1;
            let ghost before = self.owed@;
            if let Some(owed) = self.owed.remove(&replica) {
                let next = match outcome {
                    OfferOutcome::Queued => Owed::Queued,
                    why => {
                        if why.worth_repeating() {
                            let attempts: u32 = match owed {
                                Owed::Missed { attempts, .. } => {
                                    if attempts == u32::MAX {
                                        u32::MAX
                                    } else {
                                        attempts + 1
                                    }
                                },
                                _ => 1,
                            };
                            Owed::Missed { attempts, next: now.plus(backoff_millis(attempts)), why }
                        } else {
                            Owed::Stalled(why)
                        }
                    },
                };
                self.owed.insert(replica, next);
                proof {
                    assert(next@ == before[replica].after(now@, outcome));
                    assert(self.owed@ =~= before.insert(
                        replica,
                        before[replica].after(now@, outcome),
                    ));
                }
            } else {
                proof {
                    assert(self.owed@ =~= before);
                }
            }
            i = i + 1;
        }
        proof {
            assert(outcomes@.take(outcomes@.len() as int) =~= outcomes@);
        }
    }

    /// Give the envelope and its bytes back where every destination took
    /// it.
    pub fn release(&mut self) -> (r: usize)
        ensures
            final(self)@ == old(self)@.trimmed(),
            r == old(self)@.given_back(),
            old(self)@.owed.dom().finite(),
    {
        if self.missing().len() == 0 {
            let bytes: usize = self.reserved;
            self.reserved = 0;
            self.envelope = None;
            bytes
        } else {
            0
        }
    }

    /// Bytes reserved.
    pub fn reserved(&self) -> (r: usize)
        ensures
            r == self@.reserved,
    {
        self.reserved
    }

    /// The envelope, while anything is owed.
    pub fn envelope(&self) -> (r: Option<Frame>)
        ensures
            envelope_view(r) == self@.envelope,
    {
        dup_envelope(&self.envelope)
    }

    /// Pick the destinations of a repeat due at `now`, no more than `room`,
    /// and put each out of reach until the offer is answered.
    #[verifier::rlimit(40)]
    pub fn reoffer(&mut self, now: MonotonicMillis, room: usize) -> (r: Vec<ReplicaId>)
        ensures
            final(self)@ == old(self)@.reoffered(now@, room as int),
            r@ == old(self)@.targets(now@, room as int),
            old(self)@.owed.dom().finite(),
    {
        let ghost start = self@;
        let mut targets = self.waiting(Some(now));
        proof {
            lemma_waiting(start, Some(now@));
        }
        let ghost due = targets@;
        if self.envelope.is_none() {
            targets = Vec::new();
        }
        if targets.len() > room {
            targets.truncate(room);
        }
        proof {
            assert(targets@ =~= start.targets(now@, room as int));
            assert forall|j: int| 0 <= j < targets@.len() implies #[trigger] start.waiting(Some(now@)).contains(targets@[j]) by {
                assert(due[j] == targets@[j]);
                assert(due.to_set().contains(due[j]));
            }
            assert(targets@.no_duplicates());
        }
        let mut i: usize = 0;
        while i < targets.len()
            invariant
                i <= targets@.len(),
                targets@ == start.targets(now@, room as int),
                targets@.no_duplicates(),
                forall|j: int| 0 <= j < targets@.len() ==> #[trigger] start.waiting(Some(now@)).contains(targets@[j]),
                self.envelope == old(self).envelope,
                self.reserved == old(self).reserved,
                start == old(self)@,
                self.owed@.dom() == start.owed.dom(),
                forall|r: ReplicaId| #[trigger] start.owed.contains_key(r) ==> self.owed@[r] == if targets@.take(i as int).contains(r) {
                    start.reoffered(now@, room as int).owed[r]
                } else {
                    start.owed[r]
                },
            decreases targets@.len() - i,
        {
            let target = targets[i];
            let ghost seen = targets@.take(i as int);
            let ghost more = targets@.take(i + 1);
            proof {
                assert(start.waiting(Some(now@)).contains(targets@[i as int]));
                assert(start.owed.contains_key(target));
                if seen.contains(target) {
                    let j = choose|j: int| 0 <= j < seen.len() && seen[j] == target;
                    assert(targets@[j] == targets@[i as int]);
                }
                assert(targets@.contains(target));
            }
            if let Some(Owed::Missed { attempts, next: _, why }) = self.owed.remove(&target) {
                self.owed.insert(
                    target,
                    Owed::Missed { attempts, next: now.plus(OFFER_CEILING_MILLIS), why },
                );
            }
            i = i + 1;
            proof {
                assert(self.owed@.dom() =~= start.owed.dom());
                assert forall|r: ReplicaId| #[trigger] start.owed.contains_key(r) implies self.owed@[r] == if more.contains(r) {
                    start.reoffered(now@, room as int).owed[r]
                } else {
                    start.owed[r]
                } by {
                    if r == target {
                        assert(more[i - 1] == target);
                    } else {
                        if more.contains(r) {
                            let j = choose|j: int| 0 <= j < more.len() && more[j] == r;
                            assert(seen[j] == r);
                        }
                        if seen.contains(r) {
                            let j = choose|j: int| 0 <= j < seen.len() && seen[j] == r;
                            assert(more[j] == r);
                        }
                    }
                }
            }
        }
        proof {
            assert(targets@.take(targets@.len() as int) =~= targets@);
            assert(self.owed@ =~= start.reoffered(now@, room as int).owed);
        }
        targets
    }

    /// When the next repeat of this command falls due.
    pub fn next_due(&self) -> (r: Option<MonotonicMillis>)
        ensures
            match r {
                None => self@.envelope is None || !self@.outstanding(),
                Some(m) => self@.envelope is Some && (exists|v: ReplicaId| #[trigger]
                    self@.owed.contains_key(v) && self@.owed[v] is Missed && self@.owed[v]->next
                        == m@) && forall|v: ReplicaId| #[trigger]
                    self@.owed.contains_key(v) && self@.owed[v] is Missed ==> m@
                        <= self@.owed[v]->next,
            },
    {
        if self.envelope.is_none() {
            return None;
        }
        let size: usize = self.owed.len();
        let mut best: Option<MonotonicMillis> = None;
        let mut i: usize = 0;
        let ghost order = in_order::<ReplicaId>(self.owed@.dom());
        proof {
            lemma_in_order::<ReplicaId>(self.owed@.dom());
        }
        while i < size
            invariant
                i <= size == self.owed@.dom().len(),
                self@.owed == self.owed@,
                order == in_order::<ReplicaId>(self.owed@.dom()),
                order.len() == size,
                best is None ==> forall|j: int|
                    0 <= j < i ==> self.owed@[#[trigger] order[j]] !is Missed,
                best matches Some(m) ==> (exists|v: ReplicaId| #[trigger]
                    self@.owed.contains_key(v) && self@.owed[v] is Missed && self@.owed[v]->next
                        == m@) && forall|j: int|
                    0 <= j < i && self.owed@[#[trigger] order[j]] is Missed ==> m@
                        <= self.owed@[order[j]]->next,
            decreases size - i,
        {
            if let Owed::Missed { next, .. } = self.owed.value_at(i) {
                let key = self.owed.key_at(i);
                let earlier = match best {
                    None => true,
                    Some(m) => !next.reached(m),
                };
                proof {
                    assert(self@.owed.contains_key(key@));
                }
                if earlier {
                    best = Some(*next);
                }
            }
            i = i + 1;
        }
        proof {
            assert forall|v: ReplicaId| #[trigger] self@.owed.contains_key(v) && self@.owed[v] is Missed implies best is Some && best->0@ <= self@.owed[v]->next by {
                assert(order.contains(v));
                let j = choose|j: int| 0 <= j < order.len() && order[j] == v;
                assert(self.owed@[order[j]] is Missed);
            }
        }
        best
    }

    /// The committed configuration changed: delivery follows it.
    pub fn revisit(&mut self, voters: &OrdSet<ReplicaId>)
        ensures
            final(self)@ == old(self)@.revisited(voters@),
    {
        let ghost start = self@;
        let held = self.envelope.is_some();
        let mut owed: OrdMap<ReplicaId, Owed> = OrdMap::new();
        let order = voters.to_vec();
        let mut i: usize = 0;
        proof {
            assert(views(order@) =~= order@);
            lemma_in_order::<ReplicaId>(voters@);
        }
        while i < order.len()
            invariant
                i <= order@.len(),
                self@ == start,
                held == (start.envelope is Some),
                forall|r: ReplicaId| #[trigger] owed@.contains_key(r) <==> order@.take(i as int).to_set().contains(r),
                forall|r: ReplicaId| #[trigger] owed@.contains_key(r) ==> owed@[r] == start.revisited_voter(r),
            decreases order@.len() - i,
        {
            proof {
                lemma_take_set(order@, i as int);
            }
            let voter = order[i];
            let mut state = match self.owed.get(&voter) {
                Some(o) => *o,
                None => Owed::Stalled(OfferOutcome::Unreachable),
            };
            if held {
                if let Owed::Stalled(_) = state {
                    state = Owed::Missed {
                        attempts: 1,
                        next: MonotonicMillis::new(0),
                        why: OfferOutcome::Unreachable,
                    };
                }
            }
            proof {
                assert(state@ == start.revisited_voter(voter));
            }
            owed.insert(voter, state);
            i = i + 1;
        }
        self.owed = owed;
        proof {
            assert(order@.take(order@.len() as int) =~= order@);
            assert(order@.to_set() == voters@);
            assert(self@ =~= start.revisited(voters@));
        }
    }
}

} // verus!
