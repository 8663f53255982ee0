//! What holds of a collector's delivery schedule: what a byte budget takes,
//! what answers and reconfigurations do to what is owed, and what a round of
//! repeats offers and when.

use vstd::prelude::*;

use crate::client::{PeerProvenance, ReceiptView, RequestBody, ResolveRequestV1, ResponseView};
use crate::clock::later;
use crate::codec::Wire;
use crate::collector::{
    CollectorView, EntryView, EvidenceError, FanOutView, HoldReason, ProgressView, SubmitRefusal,
    answer, rotated, round,
};
use crate::collector_laws::{lemma_reconfiguration_starts_afresh, sound, total};
use crate::delivery::{
    DeliveryView, OFFER_CEILING_MILLIS, OfferOutcome, OwedView, SUBMIT_ENVELOPE_ALLOWANCE, answered,
    budget_of, lemma_answers_keep_the_plan, lemma_repeats_are_due,
};
use crate::effects::ReleasedView;
use crate::ids::{CommandId, Digest32, KvRevision, ReplicaId, RetryKey};
use crate::ordered::{ascending, in_order, lemma_in_order};
use crate::quorum::ConfigView;
use crate::trace::{EventView, hex_of};
use crate::vote::{LearnedView, VoteView};
use crate::wire::{KIND_SUBMIT, SubmitV1, SubmitView, frame_bytes, framed};

verus! {

/// No pending command has reserved more than `envelope` bytes.
pub open spec fn fitting(pending: Map<CommandId, EntryView>, envelope: int) -> bool {
    forall|c: CommandId| #[trigger]
        pending.contains_key(c) ==> pending[c].dissemination.reserved <= envelope
}

/// Every command of `after` was pending before, with no fewer bytes reserved
/// and no caller it did not have.
pub open spec fn no_larger(
    before: Map<CommandId, EntryView>,
    after: Map<CommandId, EntryView>,
) -> bool {
    forall|c: CommandId| #[trigger]
        after.contains_key(c) ==> before.contains_key(c) && after[c].dissemination.reserved
            <= before[c].dissemination.reserved && (after[c].attached ==> before[c].attached)
}

proof fn lemma_total_fits(pending: Map<CommandId, EntryView>, envelope: int)
    requires
        pending.dom().finite(),
        0 <= envelope,
        fitting(pending, envelope),
    ensures
        total(pending) <= pending.dom().len() * envelope,
    decreases pending.dom().len(),
{
    if pending.dom().len() == 0 {
        assert(0 * envelope == 0) by (nonlinear_arith);
    } else {
        let c = pending.dom().choose();
        let rest = pending.remove(c);
        assert(pending.contains_key(c));
        assert forall|d: CommandId| #[trigger] rest.contains_key(d) implies rest[d].dissemination.reserved
            <= envelope by {
            assert(pending.contains_key(d));
        }
        lemma_total_fits(rest, envelope);
        let n = rest.dom().len() as int;
        assert(pending.dom().len() == n + 1);
        assert(n * envelope + envelope == (n + 1) * envelope) by (nonlinear_arith);
    }
}

/// A request at the limit always fits the slot it was admitted into: with a
/// budget sized for the pending bound, envelopes within the size it was made
/// for and a free slot, no submission is pushed back.
pub proof fn lemma_a_free_slot_is_enough(
    collector: CollectorView,
    max_request_bytes: int,
    now: int,
    receipt: ReceiptView,
    request: RequestBody,
    command: CommandId,
    admission: Digest32,
)
    requires
        sound(collector),
        0 <= max_request_bytes,
        collector.config.max_pending * (max_request_bytes + SUBMIT_ENVELOPE_ALLOWANCE)
            <= usize::MAX,
        collector.config.max_undelivered_bytes == budget_of(
            collector.config.max_pending as int,
            max_request_bytes,
        ),
        fitting(collector.pending, max_request_bytes + SUBMIT_ENVELOPE_ALLOWANCE),
        collector.load() < collector.config.max_pending,
        framed(
            collector.config.limits,
            KIND_SUBMIT,
            SubmitV1::wire(SubmitView { receipt, request }),
        ) matches Ok(frame) ==> frame_bytes(collector.config.limits, frame) <= max_request_bytes
            + SUBMIT_ENVELOPE_ALLOWANCE,
    ensures
        !(collector.placed(now, receipt, request, command, admission).1 matches Err(
            SubmitRefusal::Backpressure { .. },
        )),
        fitting(
            collector.placed(now, receipt, request, command, admission).0.pending,
            max_request_bytes + SUBMIT_ENVELOPE_ALLOWANCE,
        ),
{
    let envelope = max_request_bytes + SUBMIT_ENVELOPE_ALLOWANCE;
    let slots = collector.config.max_pending as int;
    let load = collector.load() as int;
    lemma_total_fits(collector.pending, envelope);
    assert(envelope <= slots * envelope) by (nonlinear_arith)
        requires
            slots >= 1,
            envelope >= 0,
    ;
    assert(load * envelope + envelope <= slots * envelope) by (nonlinear_arith)
        requires
            load + 1 <= slots,
            envelope >= 0,
    ;
}

proof fn lemma_window_keeps_pending(state: CollectorView)
    ensures
        state.windowed().pending == state.pending,
    decreases state.resolved_order.len(),
{
    if state.resolved_order.len() > state.config.max_resolved {
        let oldest = state.resolved_order.first();
        lemma_window_keeps_pending(
            CollectorView {
                resolved: state.resolved.remove(oldest),
                bindings: state.bindings.remove(oldest),
                resolved_order: state.resolved_order.drop_first(),
                ..state
            },
        );
    }
}

proof fn lemma_finish_keeps_pending(
    state: CollectorView,
    command: CommandId,
    entry: EntryView,
    response: ResponseView,
    speculative: bool,
    fast: bool,
)
    ensures
        state.finished(command, entry, response, speculative, fast).0.pending == state.pending,
{
    lemma_window_keeps_pending(
        CollectorView {
            resolved: state.resolved.insert(entry.retry_key, (command, response)),
            resolved_order: state.resolved_order.push(entry.retry_key),
            ..state
        },
    );
}

proof fn lemma_release_keeps_or_removes(state: CollectorView, command: CommandId)
    ensures
        state.released(command).0.pending == state.pending || state.released(command).0.pending
            == state.pending.remove(command),
{
    if state.pending.contains_key(command) {
        let entry = state.pending[command];
        if let (Some(learned), Some(released)) = (entry.votes.learned(), entry.released) {
            lemma_finish_keeps_pending(
                state.retired(command),
                command,
                entry,
                answer(
                    state.config.limits,
                    command,
                    released.evidence.revision,
                    released.response,
                ),
                released.speculative,
                learned is Fast,
            );
        }
    }
}

/// Nothing but a submission makes a pending command hold more bytes or gives
/// it a caller: answers, repeats, votes, releases, records, cancellations,
/// deadlines and reconfigurations leave each as it was or smaller.
pub proof fn lemma_only_submissions_grow(
    collector: CollectorView,
    now: int,
    command: CommandId,
    outcomes: Seq<(ReplicaId, OfferOutcome)>,
    budget: int,
    from: PeerProvenance,
    kind: Seq<char>,
    vote: VoteView,
    released: ReleasedView,
    digest: Digest32,
    revision: Option<KvRevision>,
    response: Seq<u8>,
    key: RetryKey,
    quorum: ConfigView,
)
    requires
        sound(collector),
        0 <= budget,
    ensures
        no_larger(collector.pending, collector.offered(now, command, outcomes).pending),
        no_larger(collector.pending, collector.reoffered(now, budget).0.pending),
        no_larger(collector.pending, collector.counted(from.from, kind, vote).0.pending),
        no_larger(collector.pending, collector.release_taken(from, released).0.pending),
        no_larger(
            collector.pending,
            collector.settled_from_record(command, digest, revision, response).0.pending,
        ),
        no_larger(collector.pending, collector.cancelled(key).0.pending),
        no_larger(collector.pending, collector.expired(now).pending),
        no_larger(collector.pending, collector.reconfigured(quorum).pending),
{
    crate::collector_laws::lemma_repeats_keep_the_bounds(collector, now, budget);
    let refusal = collector.vote_refusal(from.from, vote);
    lemma_release_keeps_or_removes(
        collector.with_vote(vote).noted(
            crate::collector::evidence_event(vote.command(), from.from, kind, refusal),
        ),
        vote.command(),
    );
    let refused = collector.release_refusal(from.from, released);
    let named = released.evidence.command;
    lemma_release_keeps_or_removes(
        collector.with_release(released).noted(
            crate::collector::evidence_event(named, from.from, "release"@, refused),
        ),
        named,
    );
    let entry = collector.pending[command];
    lemma_finish_keeps_pending(
        collector.retired(command).noted(
            EventView::SettledFromRecord {
                command: hex_of(command.bytes()),
                corroborated: if entry.released is Some {
                    "release"@
                } else {
                    "votes"@
                },
            },
        ),
        command,
        entry,
        answer(collector.config.limits, command, revision, response),
        false,
        entry.votes.learned() matches Some(LearnedView::Fast(_)),
    );
    let next = collector.reoffered(now, budget).0;
    assert forall|c: CommandId| #[trigger] next.pending.contains_key(c) implies collector.pending.contains_key(
        c,
    ) && next.pending[c].dissemination.reserved <= collector.pending[c].dissemination.reserved && (
    next.pending[c].attached ==> collector.pending[c].attached) by {
        assert(collector.pending.dom().contains(c));
    }
}

/// What an answer does is confined: a report of a command that is not pending
/// changes nothing, no identity resolves differently, no deadline moves, no
/// command comes or goes, and the bytes of a submission that every destination
/// took go back, once.
pub proof fn lemma_answers_are_confined(
    collector: CollectorView,
    now: int,
    command: CommandId,
    outcomes: Seq<(ReplicaId, OfferOutcome)>,
    request: ResolveRequestV1,
    later_now: int,
    again: Seq<(ReplicaId, OfferOutcome)>,
)
    requires
        sound(collector),
    ensures
        ({
            let next = collector.offered(now, command, outcomes);
            let entry = next.pending[command].dissemination;
            &&& !collector.pending.contains_key(command) ==> next == collector
            &&& next.pending.dom() == collector.pending.dom()
            &&& next.resolution(request) == collector.resolution(request)
            &&& next.overdue(later_now) == collector.overdue(later_now)
            &&& forall|c: CommandId| #[trigger]
                collector.pending.contains_key(c) && c != command ==> next.pending[c]
                    == collector.pending[c]
            &&& collector.pending.contains_key(command) && entry.delivered()
                ==> next.undelivered_bytes == collector.undelivered_bytes
                - collector.pending[command].dissemination.reserved && entry.reserved == 0
                && entry.envelope is None
            &&& collector.pending.contains_key(command) && !entry.delivered()
                ==> next.undelivered_bytes == collector.undelivered_bytes
            &&& collector.pending.contains_key(command) && entry.delivered() ==> next.offered(
                later_now,
                command,
                again,
            ).undelivered_bytes == next.undelivered_bytes
        }),
{
    let next = collector.offered(now, command, outcomes);
    assert(next.pending.dom() =~= collector.pending.dom());
    let before = collector.pending.dom().filter(
        |c: CommandId| collector.pending[c].overdue(later_now),
    );
    let after = next.pending.dom().filter(|c: CommandId| next.pending[c].overdue(later_now));
    assert(before =~= after);
    if collector.pending.contains_key(command) {
        let delivery = DeliveryView {
            owed: answered(collector.pending[command].dissemination.owed, now, outcomes),
            ..collector.pending[command].dissemination
        };
        assert(delivery.trimmed().waiting(None) =~= delivery.waiting(None));
        crate::collector_laws::lemma_reserved_is_held(collector, command);
    }
}

/// A replica that is not a planned destination is ignored: leaving its answers
/// out changes nothing.
pub proof fn lemma_strangers_are_ignored(
    collector: CollectorView,
    now: int,
    command: CommandId,
    outcomes: Seq<(ReplicaId, OfferOutcome)>,
)
    requires
        collector.pending.contains_key(command),
    ensures
        ({
            let owed = collector.pending[command].dissemination.owed;
            let known = outcomes.filter(|o: (ReplicaId, OfferOutcome)| owed.contains_key(o.0));
            collector.offered(now, command, known) == collector.offered(now, command, outcomes)
        }),
{
    lemma_answers_of_strangers(collector.pending[command].dissemination.owed, now, outcomes);
}

proof fn lemma_answers_of_strangers(
    owed: Map<ReplicaId, OwedView>,
    now: int,
    outcomes: Seq<(ReplicaId, OfferOutcome)>,
)
    ensures
        answered(
            owed,
            now,
            outcomes.filter(|o: (ReplicaId, OfferOutcome)| owed.contains_key(o.0)),
        ) == answered(owed, now, outcomes),
    decreases outcomes.len(),
{
    reveal(Seq::filter);
    let planned = |o: (ReplicaId, OfferOutcome)| owed.contains_key(o.0);
    if outcomes.len() > 0 {
        let before = outcomes.drop_last();
        lemma_answers_of_strangers(owed, now, before);
        lemma_answers_keep_the_plan(owed, now, before, arbitrary());
        if planned(outcomes.last()) {
            let known = outcomes.filter(planned);
            assert(known == before.filter(planned).push(outcomes.last()));
            assert(known.drop_last() =~= before.filter(planned));
        }
    }
}

/// What a round of repeats makes of what was pending: at most one repeat for a
/// command, each with the destinations that are due it, and everything else as
/// it was.
spec fn round_made(
    pending: Map<CommandId, EntryView>,
    order: Seq<CommandId>,
    now: int,
    budget: int,
) -> bool {
    let made = round(pending, order, now, budget);
    &&& made.pending.dom() == pending.dom()
    &&& forall|i: int|
        0 <= i < made.offers.len() ==> offer_made(
            pending,
            made.pending,
            order,
            now,
            #[trigger] made.offers[i],
        )
    &&& forall|i: int, j: int|
        0 <= i < j < made.offers.len() ==> (#[trigger] made.offers[i]).command != (
        #[trigger] made.offers[j]).command
    &&& forall|c: CommandId| #[trigger]
        pending.contains_key(c) && !order.contains(c) ==> made.pending[c] == pending[c]
}

/// A repeat of a command in `order`, to destinations due it.
spec fn offer_made(
    before: Map<CommandId, EntryView>,
    after: Map<CommandId, EntryView>,
    order: Seq<CommandId>,
    now: int,
    offer: FanOutView,
) -> bool {
    &&& before.contains_key(offer.command)
    &&& order.contains(offer.command)
    &&& exists|room: int|
        0 <= room && offer.targets == #[trigger] before[offer.command].dissemination.targets(
            now,
            room,
        ) && offer.targets.len() > 0 && after[offer.command].dissemination
            == before[offer.command].dissemination.reoffered(now, room)
}

proof fn lemma_round_made(
    pending: Map<CommandId, EntryView>,
    order: Seq<CommandId>,
    now: int,
    budget: int,
)
    requires
        0 <= budget,
        order.no_duplicates(),
        forall|c: CommandId| #[trigger]
            pending.contains_key(c) ==> pending[c].dissemination.owed.dom().finite(),
    ensures
        round_made(pending, order, now, budget),
        0 <= round(pending, order, now, budget).spent <= budget,
    decreases order.len(),
{
    if order.len() > 0 {
        let prefix = order.drop_last();
        let c = order.last();
        assert(prefix.no_duplicates());
        lemma_round_made(pending, prefix, now, budget);
        let before = round(pending, prefix, now, budget);
        let made = round(pending, order, now, budget);
        assert(!prefix.contains(c)) by {
            if prefix.contains(c) {
                let i = choose|i: int| 0 <= i < prefix.len() && prefix[i] == c;
                assert(order[i] == order[order.len() - 1]);
            }
        }
        assert forall|x: CommandId| #[trigger] prefix.contains(x) implies order.contains(x) by {
            let i = choose|i: int| 0 <= i < prefix.len() && prefix[i] == x;
            assert(order[i] == x);
        }
        assert(order[order.len() - 1] == c);
        assert(order.contains(c));
        let room = budget - before.spent;
        if pending.contains_key(c) {
            assert(before.pending[c] == pending[c]);
            lemma_repeats_are_due(pending[c].dissemination, now, if room >= 0 {
                room
            } else {
                0
            }, arbitrary());
        }
        assert(made.pending.dom() =~= pending.dom());
        let entry = pending[c];
        let fresh = before.spent < budget && pending.contains_key(c)
            && entry.dissemination.targets(now, room).len() > 0;
        assert forall|i: int| 0 <= i < made.offers.len() implies offer_made(
            pending,
            made.pending,
            order,
            now,
            #[trigger] made.offers[i],
        ) by {
            if i < before.offers.len() {
                assert(made.offers[i] == before.offers[i]);
                assert(offer_made(pending, before.pending, prefix, now, before.offers[i]));
                assert(prefix.contains(made.offers[i].command));
                assert(made.pending[made.offers[i].command]
                    == before.pending[made.offers[i].command]);
            } else {
                assert(fresh);
                assert(made.offers[i].targets == pending[c].dissemination.targets(now, room));
            }
        }
        assert forall|i: int, j: int| 0 <= i < j < made.offers.len() implies (
        #[trigger] made.offers[i]).command != (#[trigger] made.offers[j]).command by {
            assert(made.offers[i] == before.offers[i]);
            assert(offer_made(pending, before.pending, prefix, now, before.offers[i]));
            if j < before.offers.len() {
                assert(made.offers[j] == before.offers[j]);
            }
        }
        assert forall|x: CommandId| #[trigger]
            pending.contains_key(x) && !order.contains(x) implies made.pending[x] == pending[x] by {
            assert(!prefix.contains(x));
        }
    }
}

proof fn lemma_rotated(order: Seq<CommandId>, start: int)
    requires
        0 <= start <= order.len(),
        order.no_duplicates(),
    ensures
        rotated(order, start).no_duplicates(),
        forall|c: CommandId| #[trigger] rotated(order, start).contains(c) <==> order.contains(c),
{
    let turned = rotated(order, start);
    let n = order.len();
    assert forall|i: int| 0 <= i < turned.len() implies #[trigger] turned[i] == order[if i < n
        - start {
        i + start
    } else {
        i - (n - start)
    }] by {}
    assert forall|c: CommandId| #[trigger] turned.contains(c) <==> order.contains(c) by {
        if order.contains(c) {
            let i = choose|i: int| 0 <= i < order.len() && order[i] == c;
            if i >= start {
                assert(turned[i - start] == c);
            } else {
                assert(turned[i + (n - start)] == c);
            }
        }
    }
}

proof fn lemma_order_of(collector: CollectorView)
    requires
        sound(collector),
        collector.load() > 0,
    ensures
        ({
            let order = rotated(
                in_order::<CommandId>(collector.pending.dom()),
                collector.first_offer(),
            );
            &&& order.no_duplicates()
            &&& forall|c: CommandId| #[trigger]
                order.contains(c) <==> collector.pending.contains_key(c)
        }),
{
    let all = in_order::<CommandId>(collector.pending.dom());
    lemma_in_order::<CommandId>(collector.pending.dom());
    assert(0 <= collector.first_offer() < collector.load()) by (nonlinear_arith)
        requires
            collector.load() > 0,
            collector.first_offer() == collector.offer_cursor as int % collector.load() as int,
    ;
    assert(all.len() == collector.load());
    lemma_rotated(all, collector.first_offer());
}

/// What a repeat offers: one pending command is repeated at most once in a
/// round, to one or more current voters in ascending order that have not taken
/// the submission and are due it, and none of them is offered it again within
/// the ceiling unless an answer is reported in between.
pub proof fn lemma_repeats_are_spaced(
    collector: CollectorView,
    now: int,
    budget: int,
    soon: int,
    more: int,
    i: int,
    j: int,
    r: ReplicaId,
)
    requires
        sound(collector),
        0 <= budget,
        0 <= more,
        soon < later(now, OFFER_CEILING_MILLIS as int),
    ensures
        ({
            let (next, offers) = collector.reoffered(now, budget);
            let again = next.reoffered(soon, more).1;
            &&& 0 <= i < j < offers.len() ==> offers[i].command != offers[j].command
            &&& 0 <= i < offers.len() ==> collector.pending.contains_key(offers[i].command)
                && offers[i].targets.len() > 0 && ascending::<ReplicaId>(offers[i].targets)
            &&& 0 <= i < offers.len() && offers[i].targets.contains(r) ==> {
                let owed = collector.pending[offers[i].command].dissemination.owed;
                &&& collector.config.quorum.voters.contains(r)
                &&& owed.contains_key(r)
                &&& owed[r] is Missed
                &&& owed[r]->next <= now
            }
            &&& 0 <= i < offers.len() && offers[i].targets.contains(r) && 0 <= j < again.len()
                && again[j].command == offers[i].command ==> !again[j].targets.contains(r)
        }),
{
    let (next, offers) = collector.reoffered(now, budget);
    let again = next.reoffered(soon, more).1;
    crate::collector_laws::lemma_repeats_keep_the_bounds(collector, now, budget);
    assert forall|c: CommandId| #[trigger]
        collector.pending.contains_key(c) implies collector.pending[c].dissemination.owed.dom().finite() by {}
    if budget != 0 && collector.load() != 0 {
        let order = rotated(
            in_order::<CommandId>(collector.pending.dom()),
            collector.first_offer(),
        );
        lemma_order_of(collector);
        lemma_round_made(collector.pending, order, now, budget);
        if 0 <= i < offers.len() {
            let c = offers[i].command;
            assert(offer_made(collector.pending, next.pending, order, now, offers[i]));
            let entry = collector.pending[c].dissemination;
            let room = choose|room: int|
                0 <= room && offers[i].targets == #[trigger] entry.targets(now, room)
                    && offers[i].targets.len() > 0 && next.pending[c].dissemination
                    == entry.reoffered(now, room);
            lemma_targets(entry, now, room);
            lemma_repeats_are_due(entry, now, room, r);
            if 0 <= j < again.len() && again[j].command == c {
                assert(next.load() == collector.load());
                assert(next.load() != 0 && more != 0);
                let second = rotated(
                    in_order::<CommandId>(next.pending.dom()),
                    next.first_offer(),
                );
                lemma_order_of(next);
                assert forall|x: CommandId| #[trigger]
                    next.pending.contains_key(x) implies next.pending[x].dissemination.owed.dom().finite() by {}
                lemma_round_made(next.pending, second, soon, more);
                let last = next.reoffered(soon, more).0;
                assert(offer_made(next.pending, last.pending, second, soon, again[j]));
                let left = choose|left: int|
                    0 <= left && again[j].targets
                        == #[trigger] next.pending[c].dissemination.targets(soon, left)
                        && again[j].targets.len() > 0 && last.pending[c].dissemination
                        == next.pending[c].dissemination.reoffered(soon, left);
                lemma_repeats_are_due(next.pending[c].dissemination, soon, left, r);
            }
        }
    }
}

proof fn lemma_targets(delivery: DeliveryView, now: int, room: int)
    requires
        delivery.owed.dom().finite(),
        0 <= room,
    ensures
        ascending::<ReplicaId>(delivery.targets(now, room)),
{
    let due = delivery.waiting(Some(now));
    delivery.owed.dom().lemma_len_filter(|r: ReplicaId| delivery.owed[r].waits(Some(now)));
    lemma_in_order::<ReplicaId>(due);
}

proof fn lemma_quiet_round(
    pending: Map<CommandId, EntryView>,
    order: Seq<CommandId>,
    now: int,
    budget: int,
    c: CommandId,
)
    requires
        1 <= budget,
        order.contains(c),
        pending.contains_key(c),
        round(pending, order, now, budget).offers.len() == 0,
    ensures
        round(pending, order, now, budget).spent == 0,
        round(pending, order, now, budget).pending == pending,
        pending[c].dissemination.targets(now, budget).len() == 0,
    decreases order.len(),
{
    let prefix = order.drop_last();
    let before = round(pending, prefix, now, budget);
    lemma_quiet(pending, order, now, budget);
    lemma_quiet(pending, prefix, now, budget);
    if order.last() != c {
        let i = choose|i: int| 0 <= i < order.len() && order[i] == c;
        assert(prefix[i] == c);
        assert(before.offers.len() == 0);
        lemma_quiet_round(pending, prefix, now, budget, c);
    }
}

proof fn lemma_quiet(
    pending: Map<CommandId, EntryView>,
    order: Seq<CommandId>,
    now: int,
    budget: int,
)
    requires
        1 <= budget,
    ensures
        round(pending, order, now, budget).offers.len() == 0 ==> round(
            pending,
            order,
            now,
            budget,
        ).spent == 0 && round(pending, order, now, budget).pending == pending,
        order.len() > 0 && round(pending, order, now, budget).offers.len() == 0 ==> round(
            pending,
            order.drop_last(),
            now,
            budget,
        ).offers.len() == 0,
    decreases order.len(),
{
    if order.len() > 0 {
        lemma_quiet(pending, order.drop_last(), now, budget);
    }
}

/// There is a repeat to make exactly when one has fallen due: a round with any
/// budget offers something if and only if the next due reading has come.
pub proof fn lemma_rounds_offer_what_is_due(
    collector: CollectorView,
    next_due: Option<int>,
    now: int,
    budget: int,
)
    requires
        sound(collector),
        collector.next_due_is(next_due),
        1 <= budget,
    ensures
        collector.reoffered(now, budget).1.len() > 0 <==> (next_due matches Some(m) && m <= now),
{
    let offers = collector.reoffered(now, budget).1;
    if collector.load() > 0 {
        let order = rotated(
            in_order::<CommandId>(collector.pending.dom()),
            collector.first_offer(),
        );
        lemma_order_of(collector);
        assert forall|c: CommandId| #[trigger]
            collector.pending.contains_key(c) implies collector.pending[c].dissemination.owed.dom().finite() by {}
        lemma_round_made(collector.pending, order, now, budget);
        if offers.len() > 0 {
            let next = collector.reoffered(now, budget).0;
            let c = offers[0].command;
            assert(offer_made(collector.pending, next.pending, order, now, offers[0]));
            let entry = collector.pending[c].dissemination;
            let room = choose|room: int|
                0 <= room && offers[0].targets == #[trigger] entry.targets(now, room)
                    && offers[0].targets.len() > 0 && next.pending[c].dissemination
                    == entry.reoffered(now, room);
            let v = offers[0].targets[0];
            assert(offers[0].targets.contains(v));
            lemma_repeats_are_due(entry, now, room, v);
            assert(collector.scheduled(c, v) && collector.due_at(c, v) <= now);
        }
        if next_due is Some && next_due->0 <= now {
            let (c, v) = choose|c: CommandId, v: ReplicaId| #[trigger]
                collector.scheduled(c, v) && collector.due_at(c, v) == next_due->0;
            let entry = collector.pending[c].dissemination;
            let due = entry.waiting(Some(now));
            entry.owed.dom().lemma_len_filter(|r: ReplicaId| entry.owed[r].waits(Some(now)));
            lemma_in_order::<ReplicaId>(due);
            assert(due.contains(v));
            assert(in_order::<ReplicaId>(due).contains(v));
            if offers.len() == 0 {
                lemma_quiet_round(collector.pending, order, now, budget, c);
            }
        }
    } else {
        assert(collector.pending.dom() =~= Set::<CommandId>::empty());
        assert forall|c: CommandId, v: ReplicaId| !#[trigger] collector.scheduled(c, v) by {
            assert(!collector.pending.dom().contains(c));
        }
    }
}

/// A submission every destination took is never offered again: whatever is
/// answered about it afterwards and whoever votes, no round names the command.
pub proof fn lemma_taken_is_never_offered(
    collector: CollectorView,
    command: CommandId,
    now: int,
    outcomes: Seq<(ReplicaId, OfferOutcome)>,
    budget: int,
    i: int,
    quorum: ConfigView,
)
    requires
        sound(collector),
        collector.pending.contains_key(command),
        collector.pending[command].dissemination.envelope is None,
        0 <= budget,
    ensures
        collector.offered(now, command, outcomes).pending[command].dissemination.envelope is None,
        collector.reoffered(now, budget).0.pending[command].dissemination.envelope is None,
        collector.reconfigured(quorum).pending[command].dissemination.envelope is None,
        0 <= i < collector.reoffered(now, budget).1.len() ==> collector.reoffered(
            now,
            budget,
        ).1[i].command != command,
{
    crate::collector_laws::lemma_repeats_keep_the_bounds(collector, now, budget);
}

/// What a vote leads to. It fails exactly where something refuses it, with
/// that refusal; it finds the command settled exactly where its outcome is
/// retained and it is pending no more; it releases exactly where the learning
/// predicate holds with it and the leader's release is held; it waits for votes
/// exactly where the predicate does not hold, and for the release exactly where
/// only that is missing.
pub proof fn lemma_evidence_outcomes(
    collector: CollectorView,
    sender: ReplicaId,
    kind: Seq<char>,
    vote: VoteView,
)
    ensures
        ({
            let result = collector.counted(sender, kind, vote).1;
            let refusal = collector.vote_refusal(sender, vote);
            let pending = collector.pending.contains_key(vote.command());
            let entry = collector.pending[vote.command()];
            let learned = entry.votes.presented(vote).learned() is Some;
            &&& match refusal {
                Some(e) => result == Err::<ProgressView, EvidenceError>(e),
                None => result is Ok,
            }
            &&& refusal is None ==> {
                &&& result->Ok_0 == ProgressView::Settled <==> !pending && collector.is_resolved(
                    vote.command(),
                )
                &&& result->Ok_0 is Released <==> pending && learned && entry.released is Some
                &&& result->Ok_0 == ProgressView::Held(HoldReason::AwaitingVotes) <==> pending
                    && !learned
                &&& result->Ok_0 == ProgressView::Held(HoldReason::AwaitingRelease) <==> pending
                    && learned && entry.released is None
            }
        }),
{
}

/// An acknowledgement under other attested facts than the ones submitted is
/// refused and takes nothing: the same voter's acknowledgement of this request
/// is answered as if the other had never come.
pub proof fn lemma_other_facts_do_not_count(
    collector: CollectorView,
    sender: ReplicaId,
    kind: Seq<char>,
    vote: VoteView,
    next_kind: Seq<char>,
    right: VoteView,
)
    requires
        collector.pending.contains_key(vote.command()),
        vote.replica() == sender,
        vote.admission() != collector.pending[vote.command()].admission,
    ensures
        ({
            let (next, result) = collector.counted(sender, kind, vote);
            &&& result is Err
            &&& next == (CollectorView { trace: next.trace, ..collector })
            &&& next.vote_refusal(sender, right) == collector.vote_refusal(sender, right)
            &&& next.counted(sender, next_kind, right).1 == collector.counted(
                sender,
                next_kind,
                right,
            ).1
        }),
{
    let next = collector.counted(sender, kind, vote).0;
    assert(next.is_resolved(right.command()) == collector.is_resolved(right.command())) by {
        if collector.is_resolved(right.command()) {
            let k = choose|k: RetryKey| #[trigger]
                collector.resolved.contains_key(k) && collector.resolved[k].0 == right.command();
            assert(next.resolved.contains_key(k));
        }
        if next.is_resolved(right.command()) {
            let k = choose|k: RetryKey| #[trigger]
                next.resolved.contains_key(k) && next.resolved[k].0 == right.command();
            assert(collector.resolved.contains_key(k));
        }
    }
}

/// A cancelled caller is not told: whatever settles the command afterwards
/// finds no caller attached, until the request is submitted again.
pub proof fn lemma_cancelled_callers_are_not_told(
    collector: CollectorView,
    key: RetryKey,
    from: PeerProvenance,
    kind: Seq<char>,
    vote: VoteView,
    released: ReleasedView,
    digest: Digest32,
    revision: Option<KvRevision>,
    response: Seq<u8>,
    now: int,
    receipt: ReceiptView,
    request: RequestBody,
    admission: Digest32,
)
    requires
        sound(collector),
        collector.cancelled(key).1 is Some,
    ensures
        ({
            let (next, command) = collector.cancelled(key);
            let c = command->0;
            &&& !next.pending[c].attached
            &&& vote.command() == c ==> (next.counted(from.from, kind, vote).1 matches Ok(
                ProgressView::Released(r),
            ) ==> !r.attached)
            &&& released.evidence.command == c ==> (next.release_taken(from, released).1 matches Ok(
                ProgressView::Released(r),
            ) ==> !r.attached)
            &&& next.settled_from_record(c, digest, revision, response).1 matches Ok(
                ProgressView::Released(r),
            ) ==> !r.attached
            &&& request.retry_key == key ==> next.placed(
                now,
                receipt,
                request,
                c,
                admission,
            ).0.pending[c].attached
        }),
{
    let c = collector.cancelled(key).1->0;
    assert(collector.bindings.contains_key(key));
    if collector.resolved.contains_key(key) {
        assert(collector.resolved[key].0 == c);
    }
}

/// Reconfiguration follows the voters: one that took the submission is not
/// offered it again, one that joined is due it at once while there is an
/// envelope to offer, one that left is owed nothing, and where nobody is owed
/// it any more its bytes go back.
pub proof fn lemma_reconfiguration_follows_the_voters(
    collector: CollectorView,
    quorum: ConfigView,
    c: CommandId,
    voter: ReplicaId,
    now: int,
)
    requires
        sound(collector),
        quorum.defect() is None,
        quorum.voters.finite(),
        collector.pending.contains_key(c),
        0 <= now,
    ensures
        ({
            let before = collector.pending[c].dissemination;
            let after = collector.reconfigured(quorum).pending[c].dissemination;
            &&& after.owed.contains_key(voter) <==> quorum.voters.contains(voter)
            &&& quorum.voters.contains(voter) && before.owed.contains_key(voter)
                && before.owed[voter] is Queued ==> after.owed[voter] is Queued
            &&& quorum.voters.contains(voter) && !before.owed.contains_key(voter)
                && before.envelope is Some ==> after.envelope == before.envelope
                && after.owed[voter].waits(Some(now))
            &&& after.delivered() ==> after.reserved == 0 && after.envelope is None
            &&& !after.delivered() ==> after.reserved == before.reserved && after.envelope
                == before.envelope
            &&& collector.reconfigured(quorum).undelivered_bytes == total(
                collector.reconfigured(quorum).pending,
            )
        }),
{
    lemma_reconfiguration_starts_afresh(collector, quorum);
    let before = collector.pending[c].dissemination;
    let revisited = before.revisited(quorum.voters);
    assert(revisited.trimmed().waiting(None) =~= revisited.waiting(None));
    if quorum.voters.contains(voter) && !before.owed.contains_key(voter) && before.envelope is Some {
        assert(revisited.waiting(None).contains(voter));
    }
}

} // verus!
