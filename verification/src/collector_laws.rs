//! What holds of a collector over any sequence of calls: its bounds, what a
//! release rests on, and what cancellation, deadlines and reconfiguration
//! leave alone.

use vstd::prelude::*;

use crate::client::{PeerProvenance, ReceiptView, RequestBody, ResolveRequestV1, ResponseView};
use crate::collector::{
    CollectorView, EntryView, EvidenceError, FanOutView, HoldReason, ProgressView, ResolutionView,
    SetupView, SubmittedView, answer, drained, round, rotated,
};
use crate::delivery::{
    DeliveryView, OfferOutcome, answered, lemma_answers_keep_the_plan, lemma_repeats_are_due,
};
use crate::effects::ReleasedView;
use crate::ids::{CommandId, Digest32, KvRevision, ReplicaId, RetryKey};
use crate::ordered::{in_order, lemma_in_order};
use crate::quorum::ConfigView;
use crate::trace::EventView;
use crate::vote::{
    VoteError, VoteSetView, VoteView, lemma_learning_is_the_count, lemma_votes_stay_sound,
};
use crate::wire::framed;

verus! {

/// The bytes a set of pending commands has reserved.
pub open spec fn total(pending: Map<CommandId, EntryView>) -> int
    decreases pending.dom().len(),
    when pending.dom().finite()
{
    if pending.dom().len() == 0 {
        0
    } else {
        let c = pending.dom().choose();
        pending[c].dissemination.reserved + total(pending.remove(c))
    }
}

proof fn lemma_total_remove(pending: Map<CommandId, EntryView>, c: CommandId)
    requires
        pending.dom().finite(),
        pending.contains_key(c),
    ensures
        total(pending) == pending[c].dissemination.reserved + total(pending.remove(c)),
        0 <= total(pending.remove(c)),
    decreases pending.dom().len(),
{
    let d = pending.dom().choose();
    lemma_total_positive(pending.remove(c));
    if d != c {
        lemma_total_remove(pending.remove(d), c);
        lemma_total_remove(pending.remove(c), d);
        assert(pending.remove(d).remove(c) =~= pending.remove(c).remove(d));
    }
}

proof fn lemma_total_positive(pending: Map<CommandId, EntryView>)
    requires
        pending.dom().finite(),
    ensures
        0 <= total(pending),
    decreases pending.dom().len(),
{
    if pending.dom().len() != 0 {
        lemma_total_positive(pending.remove(pending.dom().choose()));
    }
}

proof fn lemma_total_insert(pending: Map<CommandId, EntryView>, c: CommandId, entry: EntryView)
    requires
        pending.dom().finite(),
    ensures
        total(pending.insert(c, entry)) == total(pending) + entry.dissemination.reserved
            - if pending.contains_key(c) {
            pending[c].dissemination.reserved as int
        } else {
            0
        },
{
    let next = pending.insert(c, entry);
    lemma_total_remove(next, c);
    assert(next.remove(c) =~= pending.remove(c));
    if pending.contains_key(c) {
        lemma_total_remove(pending, c);
    } else {
        assert(pending.remove(c) =~= pending);
    }
}

/// A pending command is collected under its own identity and the current
/// configuration, counts only acknowledgements of the facts it was submitted
/// under, holds only a release of this ballot, plans exactly the current voters
/// as destinations, and holds bytes only while it owes one of them.
pub open spec fn entry_sound(collector: CollectorView, c: CommandId, entry: EntryView) -> bool {
    &&& entry.votes.command == c
    &&& entry.votes.config == collector.config.quorum
    &&& entry.votes.sound()
    &&& entry.votes.under(entry.admission)
    &&& entry.released matches Some(r) ==> r.evidence.command == c && r.evidence.epoch
        == collector.config.quorum.epoch && r.evidence.ballot == collector.config.quorum.ballot
    &&& entry.dissemination.sound()
    &&& entry.dissemination.owed.dom() == collector.config.quorum.voters
}

/// The bounds of a collector and how its records hang together:
///
/// * no more commands are pending than may be, and the bytes held are the
///   sum of what they reserved, within the byte budget;
/// * every pending command is bound to its retry key, and its outcome is not
///   retained;
/// * no more outcomes are retained than may be, each under the identity its
///   retry key is bound to;
/// * nothing else is bound.
pub open spec fn sound(collector: CollectorView) -> bool {
    &&& collector.config.quorum.defect() is None
    &&& collector.config.quorum.voters.finite()
    &&& collector.pending.dom().finite()
    &&& collector.load() <= collector.config.max_pending
    &&& collector.undelivered_bytes == total(collector.pending)
    &&& collector.undelivered_bytes <= collector.config.max_undelivered_bytes
    &&& collector.resolved_order.len() <= collector.config.max_resolved
    &&& linked(collector)
}

/// How the records of a collector hang together.
pub open spec fn linked(collector: CollectorView) -> bool {
    &&& forall|c: CommandId| #[trigger]
        collector.pending.contains_key(c) ==> entry_sound(collector, c, collector.pending[c])
            && collector.bindings.contains_key(collector.pending[c].retry_key)
            && collector.bindings[collector.pending[c].retry_key] == c
            && !collector.resolved.contains_key(collector.pending[c].retry_key)
    &&& collector.resolved_order.no_duplicates()
    &&& collector.resolved_order.to_set() == collector.resolved.dom()
    &&& forall|k: RetryKey| #[trigger]
        collector.resolved.contains_key(k) ==> collector.bindings.contains_key(k)
            && collector.bindings[k] == collector.resolved[k].0
            && !collector.pending.contains_key(collector.resolved[k].0)
    &&& forall|k: RetryKey| #[trigger]
        collector.bindings.contains_key(k) ==> collector.resolved.contains_key(k) || (
        collector.pending.contains_key(collector.bindings[k])
            && collector.pending[collector.bindings[k]].retry_key == k)
}

/// The same collector but for what does not bear on its bounds.
spec fn same_records(a: CollectorView, b: CollectorView) -> bool {
    &&& a.config == b.config
    &&& a.pending == b.pending
    &&& a.bindings == b.bindings
    &&& a.resolved == b.resolved
    &&& a.resolved_order == b.resolved_order
    &&& a.undelivered_bytes == b.undelivered_bytes
}

proof fn lemma_same_records(a: CollectorView, b: CollectorView)
    requires
        sound(a),
        same_records(a, b),
    ensures
        sound(b),
{
    assert forall|c: CommandId| #[trigger] b.pending.contains_key(c) implies entry_sound(
        b,
        c,
        b.pending[c],
    ) && b.bindings.contains_key(b.pending[c].retry_key) && b.bindings[b.pending[c].retry_key] == c
        && !b.resolved.contains_key(b.pending[c].retry_key) by {
        assert(a.pending.contains_key(c));
    }
}

/// What a pending command reserved is among the bytes held.
pub proof fn lemma_reserved_is_held(collector: CollectorView, c: CommandId)
    requires
        sound(collector),
        collector.pending.contains_key(c),
    ensures
        collector.pending[c].dissemination.reserved <= collector.undelivered_bytes,
{
    lemma_total_remove(collector.pending, c);
}

/// One pending command takes another state under the same key.
proof fn lemma_entry_changes(a: CollectorView, b: CollectorView, c: CommandId, entry: EntryView)
    requires
        sound(a),
        a.pending.contains_key(c),
        b.config == a.config,
        b.bindings == a.bindings,
        b.resolved == a.resolved,
        b.resolved_order == a.resolved_order,
        b.pending == a.pending.insert(c, entry),
        entry.retry_key == a.pending[c].retry_key,
        entry_sound(a, c, entry),
        entry.dissemination.reserved <= a.pending[c].dissemination.reserved,
        b.undelivered_bytes == drained(
            a.undelivered_bytes,
            (a.pending[c].dissemination.reserved - entry.dissemination.reserved) as usize,
        ),
    ensures
        sound(b),
{
    lemma_total_insert(a.pending, c, entry);
    lemma_total_remove(a.pending, c);
    assert(b.pending.dom() =~= a.pending.dom());
    assert forall|d: CommandId| #[trigger] b.pending.contains_key(d) implies entry_sound(
        b,
        d,
        b.pending[d],
    ) && b.bindings.contains_key(b.pending[d].retry_key) && b.bindings[b.pending[d].retry_key] == d
        && !b.resolved.contains_key(b.pending[d].retry_key) by {
        assert(a.pending.contains_key(d));
    }
    assert forall|k: RetryKey| #[trigger] b.bindings.contains_key(k) implies b.resolved.contains_key(
        k,
    ) || (b.pending.contains_key(b.bindings[k]) && b.pending[b.bindings[k]].retry_key == k) by {
        assert(a.bindings.contains_key(k));
    }
}

/// A collector starts within its bounds.
pub proof fn lemma_start_is_sound(config: SetupView)
    requires
        config.quorum.defect() is None,
        config.quorum.voters.finite(),
    ensures
        sound(CollectorView::start(config)),
{
    let start = CollectorView::start(config);
    assert(start.resolved_order.to_set() =~= start.resolved.dom());
    assert(start.pending.dom() =~= Set::<CommandId>::empty());
}

/// Delivery owes something right after a submission: a configuration has a
/// voter.
proof fn lemma_planned_waits(delivery: DeliveryView, voters: Set<ReplicaId>, v: ReplicaId)
    requires
        voters.finite(),
        voters.contains(v),
        delivery.owed.dom() == voters,
        delivery.owed[v] !is Queued,
    ensures
        !delivery.delivered(),
        delivery.owed.dom().finite(),
{
    assert(delivery.waiting(None).contains(v));
}

/// Submitting keeps every bound: a command is taken on only where a slot and
/// the bytes of its envelope are free. Two retry keys never name one command
/// (the identity of a command covers its retry key).
pub proof fn lemma_submissions_keep_the_bounds(
    collector: CollectorView,
    now: int,
    receipt: ReceiptView,
    request: RequestBody,
    command: CommandId,
    admission: Digest32,
)
    requires
        sound(collector),
        forall|k: RetryKey| #[trigger]
            collector.bindings.contains_key(k) && collector.bindings[k] == command ==> k
                == request.retry_key,
    ensures
        sound(collector.placed(now, receipt, request, command, admission).0),
{
    let (next, result) = collector.placed(now, receipt, request, command, admission);
    let key = request.retry_key;
    if result is Err {
        lemma_same_records(collector, next);
    } else if result->Ok_0 is Resolved {
        lemma_same_records(collector, next);
    } else if result->Ok_0 is Attached {
        lemma_entry_changes(collector, next, command, next.pending[command]);
    } else {
        let frame = result->Ok_0->FanOut_0.frame;
        let entry = next.pending[command];
        let leader = collector.config.quorum.ballot.leader;
        if collector.pending.contains_key(command) {
            assert(collector.bindings.contains_key(collector.pending[command].retry_key));
        }
        assert(!collector.pending.contains_key(command));
        assert(!collector.resolved.contains_key(key));
        lemma_total_insert(collector.pending, command, entry);
        lemma_votes_stay_sound(
            entry.votes,
            VoteView::Slow(crate::vote::SlowAck { replica: leader, ballot: collector.config.quorum.ballot, command, admission }),
        );
        assert(entry.dissemination.owed.dom() =~= collector.config.quorum.voters);
        lemma_planned_waits(entry.dissemination, collector.config.quorum.voters, leader);
        assert(next.pending.dom() =~= collector.pending.dom().insert(command));
        assert forall|c: CommandId| #[trigger] next.pending.contains_key(c) implies entry_sound(
            next,
            c,
            next.pending[c],
        ) && next.bindings.contains_key(next.pending[c].retry_key)
            && next.bindings[next.pending[c].retry_key] == c && !next.resolved.contains_key(
            next.pending[c].retry_key,
        ) by {
            if c != command {
                assert(collector.pending.contains_key(c));
                if collector.pending[c].retry_key == key {
                    assert(collector.bindings[key] == c);
                }
            }
        }
        assert forall|k: RetryKey| #[trigger] next.bindings.contains_key(k) implies next.resolved.contains_key(
            k,
        ) || (next.pending.contains_key(next.bindings[k]) && next.pending[next.bindings[k]].retry_key
            == k) by {
            if k != key {
                assert(collector.bindings.contains_key(k));
            }
        }
        assert forall|k: RetryKey| #[trigger] next.resolved.contains_key(k) implies next.bindings.contains_key(
            k,
        ) && next.bindings[k] == next.resolved[k].0
            && !next.pending.contains_key(next.resolved[k].0) by {
            assert(collector.resolved.contains_key(k));
        }
    }
}

/// A refused submission sends nothing and takes nothing: only the trace
/// shows it.
pub proof fn lemma_refusals_take_nothing(
    collector: CollectorView,
    now: int,
    receipt: ReceiptView,
    request: RequestBody,
    command: CommandId,
    admission: Digest32,
)
    requires
        collector.placed(now, receipt, request, command, admission).1 is Err,
    ensures
        ({
            let next = collector.placed(now, receipt, request, command, admission).0;
            next == (CollectorView { trace: next.trace, ..collector })
        }),
{
}

/// Every accepted submission goes to every voter of the configuration at
/// once, in an envelope that carries exactly the admission and request that
/// were submitted.
pub proof fn lemma_submissions_reach_every_voter(
    collector: CollectorView,
    now: int,
    receipt: ReceiptView,
    request: RequestBody,
    command: CommandId,
    admission: Digest32,
    voter: ReplicaId,
)
    requires
        collector.config.quorum.voters.finite(),
        collector.placed(now, receipt, request, command, admission).1 matches Ok(
            SubmittedView::FanOut(_),
        ),
    ensures
        ({
            let (next, result) = collector.placed(now, receipt, request, command, admission);
            let offer = result->Ok_0->FanOut_0;
            &&& offer.targets.no_duplicates()
            &&& offer.targets.contains(voter) <==> collector.config.quorum.voters.contains(voter)
            &&& next.pending[command].dissemination.envelope == Some(offer.frame)
            &&& Ok::<_, crate::wire::CollectorWireError>(offer.frame) == framed(
                collector.config.limits,
                crate::wire::KIND_SUBMIT,
                <crate::wire::SubmitV1 as crate::codec::Wire>::wire(
                    crate::wire::SubmitView { receipt, request },
                ),
            )
        }),
{
    lemma_in_order::<ReplicaId>(collector.config.quorum.voters);
}

proof fn lemma_trimmed_sound(delivery: DeliveryView)
    requires
        delivery.owed.dom().finite(),
        delivery.envelope is None ==> delivery.reserved == 0,
    ensures
        delivery.trimmed().sound(),
        delivery.trimmed().reserved + delivery.given_back() == delivery.reserved,
{
    if delivery.delivered() {
        assert(delivery.trimmed().waiting(None) =~= delivery.waiting(None));
    }
}

/// What destinations answer keeps every bound, and never takes a command
/// away.
pub proof fn lemma_answers_keep_the_bounds(
    collector: CollectorView,
    now: int,
    command: CommandId,
    outcomes: Seq<(ReplicaId, OfferOutcome)>,
)
    requires
        sound(collector),
    ensures
        sound(collector.offered(now, command, outcomes)),
        collector.offered(now, command, outcomes).pending.dom() == collector.pending.dom(),
{
    let next = collector.offered(now, command, outcomes);
    if collector.pending.contains_key(command) {
        let entry = collector.pending[command];
        let delivery = DeliveryView {
            owed: answered(entry.dissemination.owed, now, outcomes),
            ..entry.dissemination
        };
        lemma_answers_keep_the_plan(entry.dissemination.owed, now, outcomes, arbitrary());
        lemma_trimmed_sound(delivery);
        assert(next.pending[command].dissemination.owed.dom() =~= entry.dissemination.owed.dom());
        lemma_entry_changes(collector, next, command, next.pending[command]);
        assert(next.pending.dom() =~= collector.pending.dom());
    } else {
        lemma_same_records(collector, next);
    }
}

/// Destinations an offer list names in all.
pub open spec fn destinations(offers: Seq<FanOutView>) -> int
    decreases offers.len(),
{
    if offers.len() == 0 {
        0
    } else {
        destinations(offers.drop_last()) + offers.last().targets.len()
    }
}

/// What a round of repeats leaves of `before`: every command still pending,
/// with nothing but its schedule moved.
pub open spec fn only_rescheduled(
    before: Map<CommandId, EntryView>,
    after: Map<CommandId, EntryView>,
) -> bool {
    &&& after.dom() == before.dom()
    &&& forall|c: CommandId| #[trigger]
        before.contains_key(c) ==> after[c] == (EntryView {
            dissemination: after[c].dissemination,
            ..before[c]
        }) && after[c].dissemination.envelope == before[c].dissemination.envelope
            && after[c].dissemination.reserved == before[c].dissemination.reserved
            && after[c].dissemination.owed.dom() == before[c].dissemination.owed.dom()
            && after[c].dissemination.waiting(None) == before[c].dissemination.waiting(None)
}

proof fn lemma_round(
    pending: Map<CommandId, EntryView>,
    order: Seq<CommandId>,
    now: int,
    budget: int,
)
    requires
        0 <= budget,
        pending.dom().finite(),
        forall|c: CommandId| #[trigger]
            pending.contains_key(c) ==> pending[c].dissemination.owed.dom().finite(),
    ensures
        ({
            let made = round(pending, order, now, budget);
            &&& only_rescheduled(pending, made.pending)
            &&& made.spent == destinations(made.offers)
            &&& 0 <= made.spent <= budget
            &&& 0 <= made.examined <= order.len()
            &&& forall|i: int|
                0 <= i < made.offers.len() ==> {
                    let offer = #[trigger] made.offers[i];
                    &&& pending.contains_key(offer.command)
                    &&& pending[offer.command].dissemination.envelope == Some(offer.frame)
                    &&& pending[offer.command].retry_key == offer.retry_key
                }
        }),
    decreases order.len(),
{
    let made = round(pending, order, now, budget);
    if order.len() > 0 {
        lemma_round(pending, order.drop_last(), now, budget);
        let before = round(pending, order.drop_last(), now, budget);
        if before.spent < budget {
            let command = order.last();
            let entry = before.pending[command];
            let room = budget - before.spent;
            if before.pending.contains_key(command) {
                assert(pending.contains_key(command));
                lemma_repeats_are_due(entry.dissemination, now, room, arbitrary());
                let targets = entry.dissemination.targets(now, room);
                if targets.len() > 0 {
                    assert(targets.contains(targets[0]));
                    assert(made.offers.drop_last() =~= before.offers);
                    assert(made.pending.dom() =~= pending.dom());
                    assert forall|c: CommandId| #[trigger] pending.contains_key(c) implies made.pending[c]
                        == (EntryView { dissemination: made.pending[c].dissemination, ..pending[c] })
                        && made.pending[c].dissemination.envelope
                        == pending[c].dissemination.envelope
                        && made.pending[c].dissemination.reserved
                        == pending[c].dissemination.reserved
                        && made.pending[c].dissemination.owed.dom()
                        == pending[c].dissemination.owed.dom()
                        && made.pending[c].dissemination.waiting(None)
                        == pending[c].dissemination.waiting(None) by {
                        lemma_repeats_are_due(entry.dissemination, now, room, arbitrary());
                    }
                    assert forall|i: int| 0 <= i < made.offers.len() implies {
                        let offer = #[trigger] made.offers[i];
                        &&& pending.contains_key(offer.command)
                        &&& pending[offer.command].dissemination.envelope == Some(offer.frame)
                        &&& pending[offer.command].retry_key == offer.retry_key
                    } by {
                        if i < before.offers.len() {
                            assert(made.offers[i] == before.offers[i]);
                        }
                    }
                }
            }
        }
    }
}

proof fn lemma_totals_agree(a: Map<CommandId, EntryView>, b: Map<CommandId, EntryView>)
    requires
        a.dom().finite(),
        a.dom() == b.dom(),
        forall|c: CommandId| #[trigger]
            a.contains_key(c) ==> a[c].dissemination.reserved == b[c].dissemination.reserved,
    ensures
        total(a) == total(b),
    decreases a.dom().len(),
{
    if a.dom().len() != 0 {
        let c = a.dom().choose();
        assert(a.remove(c).dom() =~= b.remove(c).dom());
        assert(a.contains_key(c));
        lemma_totals_agree(a.remove(c), b.remove(c));
    }
}

/// A round of repeats is bounded in what it does, never in what it owes: it
/// names no more destinations than its budget, offers each command in the
/// exact envelope it was submitted in, forgets no command, and keeps every
/// bound.
pub proof fn lemma_repeats_keep_the_bounds(collector: CollectorView, now: int, budget: int)
    requires
        sound(collector),
        0 <= budget,
    ensures
        ({
            let (next, offers) = collector.reoffered(now, budget);
            &&& sound(next)
            &&& destinations(offers) <= budget
            &&& only_rescheduled(collector.pending, next.pending)
            &&& forall|i: int|
                0 <= i < offers.len() ==> {
                    let offer = #[trigger] offers[i];
                    &&& collector.pending.contains_key(offer.command)
                    &&& collector.pending[offer.command].dissemination.envelope == Some(
                        offer.frame,
                    )
                    &&& collector.pending[offer.command].retry_key == offer.retry_key
                }
        }),
{
    let (next, offers) = collector.reoffered(now, budget);
    if budget == 0 || collector.load() == 0 {
        lemma_same_records(collector, next);
        assert(collector.pending =~= next.pending);
    } else {
        let order = rotated(
            in_order::<CommandId>(collector.pending.dom()),
            collector.first_offer(),
        );
        lemma_round(collector.pending, order, now, budget);
        lemma_totals_agree(collector.pending, next.pending);
        assert forall|c: CommandId| #[trigger] next.pending.contains_key(c) implies entry_sound(
            next,
            c,
            next.pending[c],
        ) && next.bindings.contains_key(next.pending[c].retry_key)
            && next.bindings[next.pending[c].retry_key] == c && !next.resolved.contains_key(
            next.pending[c].retry_key,
        ) by {
            assert(collector.pending.contains_key(c));
        }
        assert forall|k: RetryKey| #[trigger] next.bindings.contains_key(k) implies next.resolved.contains_key(
            k,
        ) || (next.pending.contains_key(next.bindings[k]) && next.pending[next.bindings[k]].retry_key
            == k) by {
            assert(collector.bindings.contains_key(k));
            assert(next.resolved.contains_key(k) || collector.pending.contains_key(
                collector.bindings[k],
            ));
        }
    }
}

/// A command leaves the pending set for the retained window.
#[verifier::rlimit(40)]
proof fn lemma_finish(
    collector: CollectorView,
    command: CommandId,
    response: ResponseView,
    speculative: bool,
    fast: bool,
    event: Option<EventView>,
)
    requires
        sound(collector),
        collector.pending.contains_key(command),
    ensures
        ({
            let entry = collector.pending[command];
            let retired = collector.retired(command);
            let noted = match event {
                Some(e) => retired.noted(e),
                None => retired,
            };
            let next = noted.finished(command, entry, response, speculative, fast).0;
            &&& sound(next)
            &&& next.pending == collector.pending.remove(command)
            &&& collector.config.max_resolved > 0 ==> next.resolved.contains_key(entry.retry_key)
                && next.resolved[entry.retry_key] == (command, response)
            &&& next.config == collector.config
        }),
{
    let entry = collector.pending[command];
    let key = entry.retry_key;
    let retired = collector.retired(command);
    let noted = match event {
        Some(e) => retired.noted(e),
        None => retired,
    };
    let next = noted.finished(command, entry, response, speculative, fast).0;
    lemma_total_remove(collector.pending, command);
    let pushed = CollectorView {
        resolved: noted.resolved.insert(key, (command, response)),
        resolved_order: noted.resolved_order.push(key),
        ..noted
    };
    assert(!collector.resolved_order.contains(key)) by {
        assert(!collector.resolved.contains_key(key));
        if collector.resolved_order.contains(key) {
            assert(collector.resolved_order.to_set().contains(key));
        }
    }
    assert(pushed.resolved_order.to_set() =~= pushed.resolved.dom()) by {
        assert forall|k: RetryKey| pushed.resolved.dom().contains(k) implies pushed.resolved_order.to_set().contains(k) by {
            if k == key {
                assert(pushed.resolved_order[noted.resolved_order.len() as int] == key);
            } else {
                assert(collector.resolved_order.to_set().contains(k));
                let j = choose|j: int| 0 <= j < collector.resolved_order.len() && collector.resolved_order[j] == k;
                assert(pushed.resolved_order[j] == k);
            }
        }
        assert forall|k: RetryKey| pushed.resolved_order.to_set().contains(k) implies pushed.resolved.dom().contains(k) by {
            let j = choose|j: int| 0 <= j < pushed.resolved_order.len() && pushed.resolved_order[j] == k;
            if j < collector.resolved_order.len() {
                assert(collector.resolved_order[j] == k);
                assert(collector.resolved_order.to_set().contains(k));
            }
        }
    }
    assert(linked(pushed)) by {
        assert forall|c: CommandId| #[trigger] pushed.pending.contains_key(c) implies entry_sound(
            pushed,
            c,
            pushed.pending[c],
        ) && pushed.bindings.contains_key(pushed.pending[c].retry_key)
            && pushed.bindings[pushed.pending[c].retry_key] == c && !pushed.resolved.contains_key(
            pushed.pending[c].retry_key,
        ) by {
            assert(collector.pending.contains_key(c));
            if pushed.pending[c].retry_key == key {
                assert(collector.bindings[key] == command);
            }
        }
        assert forall|k: RetryKey| #[trigger] pushed.bindings.contains_key(k) implies pushed.resolved.contains_key(
            k,
        ) || (pushed.pending.contains_key(pushed.bindings[k])
            && pushed.pending[pushed.bindings[k]].retry_key == k) by {
            assert(collector.bindings.contains_key(k));
        }
        assert forall|k: RetryKey| #[trigger] pushed.resolved.contains_key(k) implies pushed.bindings.contains_key(
            k,
        ) && pushed.bindings[k] == pushed.resolved[k].0
            && !pushed.pending.contains_key(pushed.resolved[k].0) by {
            if k != key {
                assert(collector.resolved.contains_key(k));
            } else {
                assert(collector.pending.contains_key(command));
            }
        }
    }
    lemma_windowed(pushed, key);
    let kept = pushed.windowed();
    assert(same_records(kept, next));
    assert(next.pending.dom() =~= collector.pending.dom().remove(command));
    assert(forall|c: CommandId| #[trigger] next.pending.contains_key(c) ==> kept.pending.contains_key(c));
}

proof fn lemma_windowed(collector: CollectorView, newest: RetryKey)
    requires
        linked(collector),
        collector.resolved_order.len() > 0,
        collector.resolved_order.last() == newest,
    ensures
        linked(collector.windowed()),
        collector.windowed().resolved_order.len() <= collector.config.max_resolved,
        collector.windowed().pending == collector.pending,
        collector.windowed().config == collector.config,
        collector.windowed().undelivered_bytes == collector.undelivered_bytes,
        collector.config.max_resolved > 0 ==> collector.windowed().resolved.contains_key(newest)
            && collector.windowed().resolved[newest] == collector.resolved[newest],
    decreases collector.resolved_order.len(),
{
    let order = collector.resolved_order;
    assert(order.to_set().contains(newest)) by {
        assert(order[order.len() - 1] == newest);
    }
    if order.len() > collector.config.max_resolved {
        let oldest = order.first();
        let next = CollectorView {
            resolved: collector.resolved.remove(oldest),
            bindings: collector.bindings.remove(oldest),
            resolved_order: order.drop_first(),
            ..collector
        };
        assert(order.to_set().contains(oldest)) by {
            assert(order[0] == oldest);
        }
        assert(next.resolved_order.to_set() =~= next.resolved.dom()) by {
            assert forall|k: RetryKey| next.resolved.dom().contains(k) implies next.resolved_order.to_set().contains(k) by {
                assert(order.to_set().contains(k));
                let j = choose|j: int| 0 <= j < order.len() && order[j] == k;
                assert(next.resolved_order[j - 1] == k);
            }
            assert forall|k: RetryKey| next.resolved_order.to_set().contains(k) implies next.resolved.dom().contains(k) by {
                let j = choose|j: int| 0 <= j < next.resolved_order.len() && next.resolved_order[j] == k;
                assert(order[j + 1] == k);
                assert(order.to_set().contains(k));
                assert(order[0] != order[j + 1]);
            }
        }
        assert forall|c: CommandId| #[trigger] next.pending.contains_key(c) implies entry_sound(
            next,
            c,
            next.pending[c],
        ) && next.bindings.contains_key(next.pending[c].retry_key)
            && next.bindings[next.pending[c].retry_key] == c && !next.resolved.contains_key(
            next.pending[c].retry_key,
        ) by {
            assert(collector.pending.contains_key(c));
            assert(collector.resolved.contains_key(oldest));
        }
        assert forall|k: RetryKey| #[trigger] next.bindings.contains_key(k) implies next.resolved.contains_key(
            k,
        ) || (next.pending.contains_key(next.bindings[k]) && next.pending[next.bindings[k]].retry_key
            == k) by {
            assert(collector.bindings.contains_key(k));
        }
        assert forall|k: RetryKey| #[trigger] next.resolved.contains_key(k) implies next.bindings.contains_key(
            k,
        ) && next.bindings[k] == next.resolved[k].0
            && !next.pending.contains_key(next.resolved[k].0) by {
            assert(collector.resolved.contains_key(k));
        }
        if order.len() > 1 {
            assert(next.resolved_order.last() == newest);
            assert(order[0] != order[order.len() - 1]);
            lemma_windowed(next, newest);
        } else {
            assert(next.windowed() == next);
        }
    }
}

/// The release rule keeps every bound; where it releases, both halves were
/// there, and the answer is the leader's result.
proof fn lemma_released(collector: CollectorView, command: CommandId)
    requires
        sound(collector),
        collector.pending.contains_key(command),
    ensures
        ({
            let (next, progress) = collector.released(command);
            let entry = collector.pending[command];
            &&& sound(next)
            &&& progress matches ProgressView::Released(r) ==> {
                &&& entry.votes.learned() is Some
                &&& entry.released is Some
                &&& r.command == command
                &&& r.retry_key == entry.retry_key
                &&& r.response == answer(
                    collector.config.limits,
                    command,
                    entry.released->0.evidence.revision,
                    entry.released->0.response,
                )
                &&& next.pending == collector.pending.remove(command)
                &&& collector.config.max_resolved > 0 ==> next.resolved.contains_key(r.retry_key)
                    && next.resolved[r.retry_key] == (command, r.response)
            }
            &&& progress !is Released ==> next.pending == collector.pending
            &&& progress !is Settled
        }),
{
    let (next, progress) = collector.released(command);
    let entry = collector.pending[command];
    if entry.votes.learned() is Some && entry.released is Some {
        let released = entry.released->0;
        let response = answer(
            collector.config.limits,
            command,
            released.evidence.revision,
            released.response,
        );
        lemma_finish(
            collector,
            command,
            response,
            released.speculative,
            entry.votes.learned()->0 is Fast,
            None,
        );
    } else {
        lemma_same_records(collector, next);
    }
}

/// A vote keeps every bound. Where it releases, the learning predicate holds
/// over the votes counted with it *and* the leader's release is held: a lone
/// leader reply, a lone release or a majority without the leader never
/// releases. It disturbs no other command.
pub proof fn lemma_votes_release_only_with_both_halves(
    collector: CollectorView,
    sender: ReplicaId,
    kind: Seq<char>,
    vote: VoteView,
    other: CommandId,
)
    requires
        sound(collector),
    ensures
        ({
            let (next, result) = collector.counted(sender, kind, vote);
            let command = vote.command();
            let entry = collector.pending[command];
            &&& sound(next)
            &&& result matches Ok(ProgressView::Released(r)) ==> {
                &&& collector.pending.contains_key(command)
                &&& entry.votes.presented(vote).learned() is Some
                &&& entry.released is Some
                &&& vote.replica() == sender
                &&& r.command == command
                &&& r.retry_key == entry.retry_key
                &&& !next.pending.contains_key(command)
            }
            &&& other != command && collector.pending.contains_key(other)
                ==> next.pending.contains_key(other) && next.pending[other]
                == collector.pending[other]
            &&& !(result matches Ok(ProgressView::Released(_))) && collector.pending.contains_key(
                other,
            ) ==> next.pending.contains_key(other)
            &&& result is Err ==> next.pending == collector.pending
        }),
{
    let (next, result) = collector.counted(sender, kind, vote);
    let command = vote.command();
    let refusal = collector.vote_refusal(sender, vote);
    let event = crate::collector::evidence_event(command, sender, kind, refusal);
    if refusal is None && collector.pending.contains_key(command) {
        let entry = collector.pending[command];
        lemma_votes_stay_sound(entry.votes, vote);
        let voted = collector.with_vote(vote);
        lemma_entry_changes(collector, voted, command, voted.pending[command]);
        lemma_same_records(voted, voted.noted(event));
        lemma_released(voted.noted(event), command);
    } else {
        lemma_same_records(collector, next);
    }
}

/// The leader's release keeps every bound. It is taken only from the
/// ballot's leader, for the current epoch and ballot, and releases only where
/// the learning predicate holds over counted votes.
pub proof fn lemma_releases_need_the_votes(
    collector: CollectorView,
    from: PeerProvenance,
    released: ReleasedView,
    other: CommandId,
)
    requires
        sound(collector),
    ensures
        ({
            let (next, result) = collector.release_taken(from, released);
            let command = released.evidence.command;
            let quorum = collector.config.quorum;
            &&& sound(next)
            &&& result is Ok ==> from.from == quorum.ballot.leader && released.evidence.epoch
                == quorum.epoch && released.evidence.ballot == quorum.ballot
            &&& result matches Ok(ProgressView::Released(r)) ==> {
                &&& collector.pending.contains_key(command)
                &&& collector.pending[command].votes.learned() is Some
                &&& r.response == answer(
                    collector.config.limits,
                    command,
                    released.evidence.revision,
                    released.response,
                )
                &&& !next.pending.contains_key(command)
            }
            &&& other != command && collector.pending.contains_key(other)
                ==> next.pending.contains_key(other) && next.pending[other]
                == collector.pending[other]
            &&& result is Err ==> next.pending == collector.pending
        }),
{
    let (next, result) = collector.release_taken(from, released);
    let command = released.evidence.command;
    let refusal = collector.release_refusal(from.from, released);
    let event = crate::collector::evidence_event(command, from.from, "release"@, refusal);
    if refusal is None && collector.pending.contains_key(command) {
        let held = collector.with_release(released);
        lemma_entry_changes(collector, held, command, held.pending[command]);
        lemma_same_records(held, held.noted(event));
        lemma_released(held.noted(event), command);
    } else {
        lemma_same_records(collector, next);
    }
}

/// The durable record settles only what the collector half holds: it is
/// never enough alone, and it never settles against the release that is
/// held. It keeps every bound.
pub proof fn lemma_record_alone_settles_nothing(
    collector: CollectorView,
    command: CommandId,
    result_digest: Digest32,
    revision: Option<KvRevision>,
    response: Seq<u8>,
)
    requires
        sound(collector),
    ensures
        ({
            let (next, result) = collector.settled_from_record(
                command,
                result_digest,
                revision,
                response,
            );
            let entry = collector.pending[command];
            &&& sound(next)
            &&& result matches Ok(ProgressView::Released(r)) ==> {
                &&& collector.pending.contains_key(command)
                &&& entry.votes.learned() is Some || entry.released is Some
                &&& entry.released matches Some(held) ==> held.evidence.result_digest
                    == result_digest && held.response == response
                &&& !r.speculative
            }
            &&& result is Err ==> next == collector
        }),
{
    let (next, result) = collector.settled_from_record(command, result_digest, revision, response);
    if collector.record_refusal(command, result_digest, response) is None
        && collector.pending.contains_key(command) {
        let entry = collector.pending[command];
        let event = EventView::SettledFromRecord {
            command: crate::trace::hex_of(command.bytes()),
            corroborated: if entry.released is Some {
                "release"@
            } else {
                "votes"@
            },
        };
        lemma_finish(
            collector,
            command,
            answer(collector.config.limits, command, revision, response),
            false,
            entry.votes.learned() matches Some(crate::vote::LearnedView::Fast(_)),
            Some(event),
        );
    }
}

/// An established outcome is resolvable and answers retries: after a command
/// settles, resolving its identity gives the response the caller was
/// released, and so does submitting it again, while the window holds it.
pub proof fn lemma_outcomes_are_resolvable(
    collector: CollectorView,
    command: CommandId,
    now: int,
    receipt: ReceiptView,
    request: RequestBody,
    admission: Digest32,
)
    requires
        sound(collector),
        collector.config.max_resolved > 0,
        collector.pending.contains_key(command),
        collector.released(command).1 is Released,
        request.retry_key == collector.pending[command].retry_key,
    ensures
        ({
            let (next, progress) = collector.released(command);
            let release = progress->Released_0;
            &&& next.resolution(ResolveRequestV1 { retry_key: request.retry_key, command_id: command })
                == ResolutionView::Outcome(release.response)
            &&& next.placed(now, receipt, request, command, admission).1 == Ok::<
                SubmittedView,
                crate::collector::SubmitRefusal,
            >(SubmittedView::Resolved(release.response))
        }),
{
    lemma_released(collector, command);
    let next = collector.released(command).0;
    assert(next.resolved.contains_key(request.retry_key));
}

/// Cancellation detaches the caller and nothing else: the command keeps
/// collecting, its identity stays bound, its delivery stays owed, and the
/// outcome stays resolvable.
pub proof fn lemma_cancellation_detaches_only(collector: CollectorView, key: RetryKey)
    requires
        sound(collector),
    ensures
        ({
            let (next, command) = collector.cancelled(key);
            &&& sound(next)
            &&& next.pending.dom() == collector.pending.dom()
            &&& next.bindings == collector.bindings
            &&& next.resolved == collector.resolved
            &&& command matches Some(c) ==> {
                &&& next.pending[c] == (EntryView { attached: false, ..collector.pending[c] })
                &&& next.resolution(ResolveRequestV1 { retry_key: key, command_id: c })
                    is Pending
            }
            &&& forall|c: CommandId| #[trigger]
                collector.pending.contains_key(c) && Some(c) != command ==> next.pending[c]
                    == collector.pending[c]
        }),
{
    let (next, command) = collector.cancelled(key);
    if let Some(c) = command {
        lemma_entry_changes(collector, next, c, next.pending[c]);
        assert(next.pending.dom() =~= collector.pending.dom());
        assert(collector.bindings.contains_key(key));
        if collector.resolved.contains_key(key) {
            assert(collector.resolved[key].0 == c);
        }
    } else {
        lemma_same_records(collector, next);
    }
}

/// A passed deadline is reported once and changes nothing else: the command
/// stays pending for resolution, still collecting and still owed delivery.
pub proof fn lemma_deadlines_end_no_command(collector: CollectorView, now: int)
    requires
        sound(collector),
    ensures
        ({
            let next = collector.expired(now);
            &&& sound(next)
            &&& next.pending.dom() == collector.pending.dom()
            &&& next.overdue(now).len() == 0
            &&& forall|c: CommandId| #[trigger]
                collector.pending.contains_key(c) ==> next.pending[c] == (EntryView {
                    timed_out: next.pending[c].timed_out,
                    ..collector.pending[c]
                })
        }),
{
    let next = collector.expired(now);
    assert(next.pending.dom() =~= collector.pending.dom());
    lemma_totals_agree(collector.pending, next.pending);
    assert forall|c: CommandId| #[trigger] next.pending.contains_key(c) implies entry_sound(
        next,
        c,
        next.pending[c],
    ) && next.bindings.contains_key(next.pending[c].retry_key)
        && next.bindings[next.pending[c].retry_key] == c && !next.resolved.contains_key(
        next.pending[c].retry_key,
    ) by {
        assert(collector.pending.contains_key(c));
    }
    assert forall|k: RetryKey| #[trigger] next.bindings.contains_key(k) implies next.resolved.contains_key(
        k,
    ) || (next.pending.contains_key(next.bindings[k]) && next.pending[next.bindings[k]].retry_key
        == k) by {
        assert(collector.bindings.contains_key(k));
    }
    assert forall|k: RetryKey| #[trigger] next.resolved.contains_key(k) implies next.bindings.contains_key(
        k,
    ) && next.bindings[k] == next.resolved[k].0 && !next.pending.contains_key(next.resolved[k].0) by {
        assert(collector.resolved.contains_key(k));
    }
    let late = next.pending.dom().filter(|c: CommandId| next.pending[c].overdue(now));
    assert(late =~= Set::<CommandId>::empty());
    lemma_in_order::<CommandId>(late);
}

/// Resolving an identity changes nothing but the trace.
pub proof fn lemma_resolution_changes_nothing(collector: CollectorView, request: ResolveRequestV1)
    requires
        sound(collector),
    ensures
        sound(collector.resolved_query(request)),
        collector.resolved_query(request) == (CollectorView {
            trace: collector.resolved_query(request).trace,
            ..collector
        }),
{
    lemma_same_records(collector, collector.resolved_query(request));
}

/// `pending` with the commands of `done` under a new configuration.
spec fn moved(
    pending: Map<CommandId, EntryView>,
    quorum: ConfigView,
    done: Seq<CommandId>,
) -> Map<CommandId, EntryView> {
    Map::new(
        |c: CommandId| pending.contains_key(c),
        |c: CommandId|
            if done.contains(c) {
                pending[c].reset(quorum, c)
            } else {
                pending[c]
            },
    )
}

proof fn lemma_left_after(collector: CollectorView, quorum: ConfigView, order: Seq<CommandId>)
    requires
        collector.pending.dom().finite(),
        collector.undelivered_bytes == total(collector.pending),
        quorum.voters.finite(),
        order.no_duplicates(),
        forall|i: int|
            0 <= i < order.len() ==> collector.pending.contains_key(#[trigger] order[i]),
        forall|c: CommandId| #[trigger]
            collector.pending.contains_key(c) ==> collector.pending[c].dissemination.sound(),
    ensures
        collector.left_after(quorum, order) == total(moved(collector.pending, quorum, order)),
        collector.left_after(quorum, order) <= collector.undelivered_bytes,
    decreases order.len(),
{
    let after = moved(collector.pending, quorum, order);
    if order.len() == 0 {
        assert(after =~= collector.pending);
    } else {
        let rest = order.drop_last();
        let c = order.last();
        lemma_left_after(collector, quorum, rest);
        let before = moved(collector.pending, quorum, rest);
        let entry = collector.pending[c];
        assert(collector.pending.contains_key(order[order.len() - 1]));
        assert forall|d: CommandId| #![trigger order.contains(d)] order.contains(d) <==> rest.contains(d) || d == c by {
            if rest.contains(d) {
                let j = choose|j: int| 0 <= j < rest.len() && rest[j] == d;
                assert(order[j] == d);
            }
            assert(order[order.len() - 1] == c);
            if order.contains(d) && d != c {
                let j = choose|j: int| 0 <= j < order.len() && order[j] == d;
                assert(rest[j] == d);
            }
        }
        assert(!rest.contains(c)) by {
            if rest.contains(c) {
                let j = choose|j: int| 0 <= j < rest.len() && rest[j] == c;
                assert(order[j] == order[order.len() - 1]);
            }
        }
        assert(after =~= before.insert(c, entry.reset(quorum, c)));
        assert(before.dom() =~= collector.pending.dom());
        lemma_total_insert(before, c, entry.reset(quorum, c));
        lemma_total_remove(before, c);
        let revisited = entry.dissemination.revisited(quorum.voters);
        assert(revisited.owed.dom() =~= quorum.voters);
        lemma_trimmed_sound(revisited);
    }
}

/// After the ballot changed no command is lost, nothing counted or released
/// under the old ballot is left, exactly the new voters are owed the
/// submission, and every bound is kept.
pub proof fn lemma_reconfiguration_starts_afresh(collector: CollectorView, quorum: ConfigView)
    requires
        sound(collector),
        quorum.defect() is None,
        quorum.voters.finite(),
    ensures
        ({
            let next = collector.reconfigured(quorum);
            &&& sound(next)
            &&& next.config.quorum == quorum
            &&& next.pending.dom() == collector.pending.dom()
            &&& next.bindings == collector.bindings
            &&& next.resolved == collector.resolved
            &&& forall|c: CommandId| #[trigger]
                collector.pending.contains_key(c) ==> {
                    let entry = next.pending[c];
                    &&& entry.votes == VoteSetView::empty(quorum, c)
                    &&& entry.released is None
                    &&& entry.dissemination.owed.dom() == quorum.voters
                    &&& entry.attached == collector.pending[c].attached
                    &&& entry.deadline == collector.pending[c].deadline
                }
        }),
{
    let next = collector.reconfigured(quorum);
    let order = in_order::<CommandId>(collector.pending.dom());
    lemma_in_order::<CommandId>(collector.pending.dom());
    assert forall|i: int| 0 <= i < order.len() implies collector.pending.contains_key(
        #[trigger] order[i],
    ) by {
        assert(order.contains(order[i]));
    }
    lemma_left_after(collector, quorum, order);
    assert(moved(collector.pending, quorum, order) =~= next.pending);
    assert(next.pending.dom() =~= collector.pending.dom());
    assert forall|c: CommandId| #[trigger] next.pending.contains_key(c) implies entry_sound(
        next,
        c,
        next.pending[c],
    ) && next.bindings.contains_key(next.pending[c].retry_key)
        && next.bindings[next.pending[c].retry_key] == c && !next.resolved.contains_key(
        next.pending[c].retry_key,
    ) && next.pending[c].dissemination.owed.dom() == quorum.voters by {
        assert(collector.pending.contains_key(c));
        let entry = collector.pending[c];
        let revisited = entry.dissemination.revisited(quorum.voters);
        assert(revisited.owed.dom() =~= quorum.voters);
        lemma_trimmed_sound(revisited);
        lemma_empty_votes(quorum, c);
    }
    assert forall|k: RetryKey| #[trigger] next.bindings.contains_key(k) implies next.resolved.contains_key(
        k,
    ) || (next.pending.contains_key(next.bindings[k]) && next.pending[next.bindings[k]].retry_key
        == k) by {
        assert(collector.bindings.contains_key(k));
    }
    assert forall|k: RetryKey| #[trigger] next.resolved.contains_key(k) implies next.bindings.contains_key(
        k,
    ) && next.bindings[k] == next.resolved[k].0 && !next.pending.contains_key(next.resolved[k].0) by {
        assert(collector.resolved.contains_key(k));
    }
    assert forall|c: CommandId| #[trigger] collector.pending.contains_key(c) implies {
        let entry = next.pending[c];
        &&& entry.votes == VoteSetView::empty(quorum, c)
        &&& entry.released is None
        &&& entry.dissemination.owed.dom() == quorum.voters
        &&& entry.attached == collector.pending[c].attached
        &&& entry.deadline == collector.pending[c].deadline
    } by {
        assert(next.pending.contains_key(c));
    }
}

proof fn lemma_empty_votes(quorum: ConfigView, c: CommandId)
    ensures
        VoteSetView::empty(quorum, c).sound(),
{
}

/// What a counted vote leads to, by plain count: with `L` the leader's proposal
/// counted and either a fast quorum on its path or a majority after its
/// dependencies, the collector waits for votes exactly where not `L`, for the
/// release exactly where `L` and no release of this ballot was taken from the
/// leader, and releases exactly where `L` and one was.
pub proof fn lemma_outcomes_go_by_count(
    collector: CollectorView,
    sender: ReplicaId,
    kind: Seq<char>,
    vote: VoteView,
)
    requires
        sound(collector),
        collector.pending.contains_key(vote.command()),
        collector.counted(sender, kind, vote).1 is Ok,
    ensures
        ({
            let progress = collector.counted(sender, kind, vote).1->Ok_0;
            let entry = collector.pending[vote.command()];
            let votes = entry.votes.presented(vote);
            let learned = votes.fast_by_count() || votes.slow_by_count();
            &&& progress == ProgressView::Held(HoldReason::AwaitingVotes) <==> !learned
            &&& progress == ProgressView::Held(HoldReason::AwaitingRelease) <==> learned
                && entry.released is None
            &&& progress is Released <==> learned && entry.released is Some
            &&& progress matches ProgressView::Released(r) ==> r.fast == votes.fast_by_count()
        }),
{
    let entry = collector.pending[vote.command()];
    assert(entry_sound(collector, vote.command(), entry));
    assert(collector.vote_refusal(sender, vote) is None);
    lemma_learning_is_the_count(entry.votes.presented(vote), entry.admission);
}

/// The same of everything pending: what was learned was learned by plain
/// count.
pub proof fn lemma_pending_learns_by_count(collector: CollectorView, c: CommandId)
    requires
        sound(collector),
        collector.pending.contains_key(c),
    ensures
        collector.pending[c].votes.learned() is Some <==> collector.pending[c].votes.fast_by_count()
            || collector.pending[c].votes.slow_by_count(),
{
    lemma_learning_is_the_count(collector.pending[c].votes, collector.pending[c].admission);
}

/// One voter counts once: a vote that was counted is refused when the same
/// identity presents it again, over whatever connection, and changes
/// nothing.
pub proof fn lemma_votes_count_once(
    collector: CollectorView,
    sender: ReplicaId,
    kind: Seq<char>,
    vote: VoteView,
    again: Seq<char>,
)
    requires
        sound(collector),
        collector.pending.contains_key(vote.command()),
        collector.counted(sender, kind, vote).1 is Ok,
        !(collector.counted(sender, kind, vote).1 matches Ok(ProgressView::Released(_))),
    ensures
        ({
            let next = collector.counted(sender, kind, vote).0;
            let (last, result) = next.counted(sender, again, vote);
            &&& result == Err::<ProgressView, EvidenceError>(
                EvidenceError::Vote(VoteError::Duplicate),
            )
            &&& last.pending == next.pending
        }),
{
    let command = vote.command();
    let entry = collector.pending[command];
    let refusal = collector.vote_refusal(sender, vote);
    let event = crate::collector::evidence_event(command, sender, kind, refusal);
    let voted = collector.with_vote(vote);
    lemma_votes_stay_sound(entry.votes, vote);
    lemma_entry_changes(collector, voted, command, voted.pending[command]);
    lemma_same_records(voted, voted.noted(event));
    lemma_released(voted.noted(event), command);
    let next = collector.counted(sender, kind, vote).0;
    assert(next.pending == voted.pending);
    assert(next.pending[command].votes == entry.votes.counted(vote));
}

} // verus!
