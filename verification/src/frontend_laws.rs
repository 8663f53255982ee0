//! What a frontend's turns come to: who is admitted and under what, what a
//! submission leaves behind, when and with what a caller is answered, what is
//! offered again and when, and what a watch is sent.

use vstd::prelude::*;

use crate::admission::{AdmissionRefusal, GateView};
use crate::client::{
    AdmissionPurpose, ErrorCode, OutcomeBody, PeerRole, ReceiptView, RequestBody, ResolveRequestV1,
    ResponseView, WireLimits,
};
use crate::clock::later;
use crate::codes::{error_body, pending_body, unknown_body};
use crate::collector::{
    CollectorView, EntryView, EvidenceError, FanOutView, HoldReason, ProgressView, ReleaseView,
    ResolutionView, SettleError, SubmitRefusal, SubmittedView, answer, rotated, round, vote_in,
};
use crate::delivery::{
    DeliveryView, OfferOutcome, OwedView, answered, doubled, expiry, wait_of,
};
use crate::dispatch::{
    ActionView, ClientView, DeliveryOut, DispatchView, ServerView, WatchKey, WatchOpenView,
    resolution_answer,
};
use crate::effects::{EffectView, ReleasedView};
use crate::hash::HashDomain;
use crate::ids::{
    CommandId, Digest32, KvRevision, PeerId, ReplicaId, RetryKey, SessionId,
};
use crate::ingress::{admission_in, frame_for};
use crate::machine::Derived;
use crate::messages::MessageView;
use crate::ordered::{in_order, lemma_in_order};
use crate::publication::{DurableRecord, Publication, obligations};
use crate::trace::{EventView, digit, hex_of};
use crate::vote::{VoteSetView, VoteView};
use crate::watch::{CloseReason, ItemView, WatchCloseReasonV1, reason_told};
use crate::wire::submission_in;

verus! {

// Readings and texts.

/// A later reading is exactly that much later, up to the last one there is.
pub proof fn lemma_readings_saturate(reading: int, millis: int)
    requires
        0 <= reading <= u64::MAX,
        0 <= millis,
    ensures
        reading <= later(reading, millis) <= u64::MAX,
        reading + millis <= u64::MAX ==> later(reading, millis) == reading + millis,
        reading + millis > u64::MAX ==> later(reading, millis) == u64::MAX,
{
}

/// A deadline is its length after the reading it is counted from, and a length
/// of nothing is no deadline.
pub proof fn lemma_deadlines_count_from_now(now: int, deadline_ms: u32)
    requires
        0 <= now <= u64::MAX,
    ensures
        deadline_ms == 0 <==> expiry(now, deadline_ms) is None,
        deadline_ms > 0 && now + deadline_ms <= u64::MAX ==> expiry(now, deadline_ms) == Some(
            now + deadline_ms,
        ),
{
}

/// An error says its code and as much of its reason as fits, for the command.
pub proof fn lemma_errors_say_why(
    limits: WireLimits,
    command: CommandId,
    code: ErrorCode,
    detail: Seq<char>,
)
    ensures
        ({
            let body = error_body(limits, command, code, detail);
            let text = vstd::utf8::encode_utf8(detail);
            &&& body.command_id == command
            &&& body.outcome matches OutcomeBody::Refused { code: c, detail: d } && c == code
                && d.len() <= limits.reason && (text.len() <= limits.reason ==> d == text) && (
            text.len() > limits.reason ==> d == text.take(limits.reason as int))
            &&& pending_body(command).command_id == command && pending_body(
                command,
            ).outcome is Pending
            &&& unknown_body(command).command_id == command && unknown_body(
                command,
            ).outcome is Unknown
        }),
{
}

/// Bytes are told as two digits each, the high one first.
pub proof fn lemma_hex_digits(bytes: Seq<u8>, i: int)
    requires
        0 <= i < bytes.len(),
    ensures
        hex_of(bytes).len() == 2 * bytes.len(),
        hex_of(bytes)[2 * i] == digit(bytes[i] as int / 16),
        hex_of(bytes)[2 * i + 1] == digit(bytes[i] as int % 16),
    decreases bytes.len(),
{
    let rest = bytes.drop_last();
    if i < rest.len() {
        lemma_hex_digits(rest, i);
        assert(rest[i] == bytes[i]);
    } else {
        lemma_hex_len(rest);
    }
    lemma_hex_len(bytes);
}

proof fn lemma_hex_len(bytes: Seq<u8>)
    ensures
        hex_of(bytes).len() == 2 * bytes.len(),
    decreases bytes.len(),
{
    if bytes.len() > 0 {
        lemma_hex_len(bytes.drop_last());
    }
}

// Admission.

/// A request is admitted exactly from a client, whole and within the size, for
/// this cluster and domain and under its own session, while the session has room
/// or the request has its place already.
pub proof fn lemma_who_is_admitted(
    gate: GateView,
    caller: crate::admission::Caller,
    key: RetryKey,
    cost: Option<usize>,
)
    ensures
        gate.refusal(caller, key, cost) is None <==> {
            let mine = if gate.pending.contains_key(caller.session) {
                gate.pending[caller.session]
            } else {
                Set::<RetryKey>::empty()
            };
            &&& caller.role == PeerRole::Client
            &&& cost is Some && cost->0 <= gate.limits.max_request_bytes
            &&& key.cluster_id == gate.cluster && key.domain_id == gate.domain
            &&& key.session_id == caller.session
            &&& mine.contains(key) || mine.len() < gate.limits.max_pending_per_session
        },
{
}

/// Admitting a request takes one place of its session, refusing one takes none,
/// and settling it gives that place back; no other session's places change.
pub proof fn lemma_places_are_taken_and_given_back(
    gate: GateView,
    caller: crate::admission::Caller,
    key: RetryKey,
    cost: Option<usize>,
    session: SessionId,
    other: RetryKey,
)
    ensures
        gate.refusal(caller, key, cost) is None ==> (gate.presented(caller, key, cost).of(
            session,
        ).contains(other) <==> gate.of(session).contains(other) || session == caller.session
            && other == key),
        gate.refusal(caller, key, cost) is Some ==> (gate.presented(caller, key, cost).of(
            session,
        ).contains(other) <==> gate.of(session).contains(other)),
        gate.settled(key).of(session).contains(other) <==> gate.of(session).contains(other) && !(
        session == key.session_id && other == key),
{
    let left = gate.of(key.session_id).remove(key);
    if left == Set::<RetryKey>::empty() && session == key.session_id {
        assert(!left.contains(other));
    }
}

/// An admission says who was admitted, where, under which rules, when, and the
/// request as it came.
pub proof fn lemma_receipts_say_who_was_admitted<H: Fn(HashDomain, Vec<Vec<u8>>) -> Digest32>(
    gate: GateView,
    hash: H,
    now_ticks: u64,
    caller: crate::admission::Caller,
    request: RequestBody,
)
    ensures
        ({
            let admitted = gate.admission(hash, now_ticks, caller, request);
            let a = admitted.receipt.attested;
            &&& admitted.request == Some(request)
            &&& a.cluster == gate.cluster && a.domain == gate.domain && a.session == caller.session
            &&& a.rule_generation == caller.rule_generation && a.scope_ceiling
                == caller.scope_ceiling
            &&& a.admitted_at_ticks == now_ticks
            &&& admitted.receipt.purpose == AdmissionPurpose::Submit
        }),
{
}

/// A relayed submission is taken as it was framed, exactly from a role that may
/// relay it, for this cluster and domain.
pub proof fn lemma_relayed_submissions(
    role: PeerRole,
    issues_sessions: bool,
    frame: crate::client::FrameView,
    cluster: crate::ids::ClusterId,
    domain: crate::ids::DomainId,
)
    ensures
        admission_in(role, issues_sessions, frame, cluster, domain) is Ok <==> (submission_in(frame)
            matches Ok(s) && s.receipt.attested.cluster == cluster && s.receipt.attested.domain
            == domain && (s.receipt.purpose == AdmissionPurpose::Submit ==> role
            == PeerRole::Frontend || role == PeerRole::KineCollector) && (s.receipt.purpose
            == AdmissionPurpose::Establish ==> issues_sessions)),
        admission_in(role, issues_sessions, frame, cluster, domain) matches Ok(a) ==> a.receipt
            == submission_in(frame)->Ok_0.receipt && a.request == Some(
            submission_in(frame)->Ok_0.request,
        ),
{
}

/// A replica tells its frontend what it publishes to it and what it releases,
/// and nothing else.
pub proof fn lemma_what_a_frontend_is_told(
    limits: WireLimits,
    effect: EffectView,
    frontend: PeerId,
)
    ensures
        frame_for(limits, effect, frontend) is Some <==> (effect is Released || (effect matches
            EffectView::Publish(send) && send.to == frontend)),
        effect matches EffectView::Publish(send) ==> send.to == frontend ==> frame_for(
            limits,
            effect,
            frontend,
        ) == Some(crate::wire::framed(limits, crate::wire::KIND_EVIDENCE, send.frame)),
{
}

// Offers.

/// Waits double from the floor until they reach the ceiling.
pub proof fn lemma_waits_double(attempts: int)
    requires
        1 <= attempts,
    ensures
        wait_of(1) == 25,
        wait_of(attempts + 1) == (if 2 * wait_of(attempts) > 1000 {
            1000
        } else {
            2 * wait_of(attempts)
        }),
{
    assert((attempts + 1 - 1) as nat == (attempts - 1) as nat + 1);
    lemma_doubled(((attempts - 1) as nat));
}

proof fn lemma_doubled(times: nat)
    ensures
        doubled(times) >= 25,
    decreases times,
{
    if times > 0 {
        lemma_doubled((times - 1) as nat);
    }
}

/// What an offer leaves owed: nothing where it was taken, another try after one
/// more wait where it could not be taken now, and no try by itself where it was
/// refused.
pub proof fn lemma_offers_are_answered(owed: OwedView, now: int, outcome: OfferOutcome)
    requires
        0 <= now <= u64::MAX,
    ensures
        ({
            let tries = match owed {
                OwedView::Missed { attempts, .. } => if attempts == u32::MAX {
                    attempts as int
                } else {
                    attempts + 1
                },
                _ => 1,
            };
            let next = owed.after(now, outcome);
            &&& outcome == OfferOutcome::Queued <==> next is Queued
            &&& outcome == OfferOutcome::Saturated || outcome == OfferOutcome::Unreachable
                <==> next is Missed
            &&& next matches OwedView::Missed { attempts, next: at, why } ==> attempts == tries
                && at == later(now, wait_of(tries)) && why == outcome
            &&& next matches OwedView::Stalled(why) ==> why == outcome
        }),
{
}

/// A round of answers: the last answer of a planned destination decides what it
/// is owed, and one that was not asked changes nothing.
pub proof fn lemma_answers_apply_in_turn(
    owed: Map<ReplicaId, OwedView>,
    now: int,
    outcomes: Seq<(ReplicaId, OfferOutcome)>,
    r: ReplicaId,
    outcome: OfferOutcome,
    x: ReplicaId,
)
    ensures
        ({
            let before = answered(owed, now, outcomes);
            let after = answered(owed, now, outcomes.push((r, outcome)));
            &&& owed.contains_key(r) ==> after[r] == before[r].after(now, outcome)
            &&& x != r ==> after.contains_key(x) == before.contains_key(x) && after[x] == before[x]
            &&& !owed.contains_key(r) ==> after == before
        }),
{
    assert(outcomes.push((r, outcome)).drop_last() =~= outcomes);
    crate::delivery::lemma_answers_keep_the_plan(owed, now, outcomes, r);
    assert(answered(owed, now, outcomes).dom().contains(r) == owed.dom().contains(r));
}

/// A submission starts owed to every target and to nobody else, with its
/// envelope and its bytes held until all have taken it.
pub proof fn lemma_submissions_start_owed(
    envelope: crate::client::FrameView,
    reserved: usize,
    targets: Set<ReplicaId>,
    r: ReplicaId,
)
    ensures
        ({
            let plan = DeliveryView::planned(envelope, reserved, targets);
            &&& plan.envelope == Some(envelope) && plan.reserved == reserved
            &&& plan.owed.contains_key(r) <==> targets.contains(r)
            &&& targets.contains(r) ==> plan.waiting(None).contains(r)
            &&& targets.contains(r) ==> plan.trimmed() == plan && plan.given_back() == 0
        }),
{
    let plan = DeliveryView::planned(envelope, reserved, targets);
    if targets.contains(r) {
        assert(plan.waiting(None).contains(r));
    }
}

/// Once every destination has taken a submission its envelope is dropped and its
/// bytes are given back, and not before.
pub proof fn lemma_taken_submissions_give_back(delivery: DeliveryView, r: ReplicaId)
    ensures
        (forall|x: ReplicaId| #[trigger]
            delivery.owed.contains_key(x) ==> delivery.owed[x] is Queued)
            ==> delivery.trimmed().envelope is None && delivery.trimmed().reserved == 0
            && delivery.given_back() == delivery.reserved,
        delivery.owed.contains_key(r) && !(delivery.owed[r] is Queued) ==> delivery.trimmed()
            == delivery && delivery.given_back() == 0,
        delivery.trimmed().owed == delivery.owed,
{
    if forall|x: ReplicaId| #[trigger]
        delivery.owed.contains_key(x) ==> delivery.owed[x] is Queued {
        assert(delivery.waiting(None) =~= Set::<ReplicaId>::empty());
    }
    if delivery.owed.contains_key(r) && !(delivery.owed[r] is Queued) {
        assert(delivery.waiting(None).contains(r));
    }
}

// Submissions.

/// What a new submission leaves: the command pending under its key, session,
/// facts and deadline, with no votes and no release, its caller attached, owed
/// to every voter of the ballot.
pub proof fn lemma_submissions_are_pending(
    collector: CollectorView,
    now: int,
    receipt: ReceiptView,
    request: RequestBody,
    command: CommandId,
    admission: Digest32,
    x: CommandId,
)
    requires
        collector.placed(now, receipt, request, command, admission).1 matches Ok(
            SubmittedView::FanOut(_),
        ),
    ensures
        ({
            let (next, result) = collector.placed(now, receipt, request, command, admission);
            let offer = result->Ok_0->FanOut_0;
            let entry = next.pending[command];
            &&& offer.command == command && offer.retry_key == request.retry_key
            &&& next.bindings == collector.bindings.insert(request.retry_key, command)
            &&& next.pending.contains_key(command)
            &&& entry.retry_key == request.retry_key && entry.session == receipt.attested.session
            &&& entry.admission == admission && entry.attached && !entry.timed_out
            &&& entry.released is None && entry.votes == VoteSetView::empty(
                collector.config.quorum,
                command,
            )
            &&& entry.deadline == expiry(now, request.deadline_ms)
            &&& entry.dissemination.owed.dom() == collector.config.quorum.voters
            &&& x != command ==> next.pending.contains_key(x) == collector.pending.contains_key(x)
                && next.pending[x] == collector.pending[x]
            &&& next.resolved == collector.resolved
        }),
{
    let (next, result) = collector.placed(now, receipt, request, command, admission);
    assert(next.pending[command].dissemination.owed.dom() =~= collector.config.quorum.voters);
}

/// A request submitted again: attached to the pending command with the new
/// deadline, answered with the outcome kept, or refused where its key is bound to
/// another command.
pub proof fn lemma_repeated_submissions(
    collector: CollectorView,
    now: int,
    receipt: ReceiptView,
    request: RequestBody,
    command: CommandId,
    admission: Digest32,
)
    requires
        collector.bindings.contains_key(request.retry_key),
    ensures
        ({
            let key = request.retry_key;
            let (next, result) = collector.placed(now, receipt, request, command, admission);
            &&& collector.bindings[key] != command ==> result == Err::<
                SubmittedView,
                SubmitRefusal,
            >(SubmitRefusal::RequestIdentityConflict { bound: collector.bindings[key] })
                && next.pending == collector.pending
            &&& collector.bindings[key] == command && collector.resolved.contains_key(key)
                ==> result == Ok::<SubmittedView, SubmitRefusal>(
                SubmittedView::Resolved(collector.resolved[key].1),
            ) && next.pending == collector.pending
            &&& collector.bindings[key] == command && !collector.resolved.contains_key(key)
                && collector.pending.contains_key(command) ==> {
                let was = collector.pending[command];
                let entry = next.pending[command];
                &&& result == Ok::<SubmittedView, SubmitRefusal>(
                    SubmittedView::Attached { command },
                )
                &&& entry.attached && !entry.timed_out && entry.deadline == expiry(
                    now,
                    request.deadline_ms,
                )
                &&& entry.votes == was.votes && entry.released == was.released && entry.admission
                    == was.admission && entry.dissemination == was.dissemination
            }
        }),
{
}

/// Where there is room a new request is taken: below the bound on commands and
/// with its bytes within the budget it is fanned out, and refused for want of
/// room otherwise.
pub proof fn lemma_room_decides_submissions(
    collector: CollectorView,
    now: int,
    receipt: ReceiptView,
    request: RequestBody,
    command: CommandId,
    admission: Digest32,
    frame: crate::client::FrameView,
)
    requires
        !collector.bindings.contains_key(request.retry_key),
        crate::wire::framed(
            collector.config.limits,
            crate::wire::KIND_SUBMIT,
            <crate::wire::SubmitV1 as crate::codec::Wire>::wire(
                crate::wire::SubmitView { receipt, request },
            ),
        ) == Ok::<crate::client::FrameView, crate::wire::CollectorWireError>(frame),
    ensures
        ({
            let result = collector.placed(now, receipt, request, command, admission).1;
            let room = collector.pending.dom().len() < collector.config.max_pending
                && collector.undelivered_bytes + crate::wire::frame_bytes(
                collector.config.limits,
                frame,
            ) <= collector.config.max_undelivered_bytes;
            &&& room ==> (result matches Ok(SubmittedView::FanOut(_)))
            &&& !room ==> (result matches Err(SubmitRefusal::Backpressure { .. }))
        }),
{
}

// Evidence and answers.

/// Evidence is one replica's vote: a leader's reply is the leader's fast vote
/// under the facts submitted, with the place, order and path it says; an
/// acknowledgement is the vote it is.
pub proof fn lemma_evidence_is_a_vote(
    message: MessageView,
    sender: ReplicaId,
    admission: Digest32,
)
    ensures
        message matches MessageView::LeaderReply { ballot, command, seqnum, deps, path } ==> (
        vote_in(message, sender, admission) matches Some((_, VoteView::Fast(a))) && a.replica
            == sender && a.ballot == ballot && a.command == command && a.deps == deps && a.path
            == path && a.seqnum == Some(seqnum) && a.admission == admission),
        message matches MessageView::FastAck(a) ==> (vote_in(message, sender, admission) matches
            Some((_, v)) && v == VoteView::Fast(a)),
        message matches MessageView::SlowAck(a) ==> (vote_in(message, sender, admission) matches
            Some((_, v)) && v == VoteView::Slow(a)),
        vote_in(message, sender, admission) is Some <==> message is LeaderReply
            || message is FastAck || message is SlowAck,
{
}

/// A vote for a pending command counts exactly from its own sender, under the
/// facts submitted, where the votes take it.
pub proof fn lemma_which_evidence_counts(
    collector: CollectorView,
    sender: ReplicaId,
    vote: VoteView,
)
    requires
        collector.pending.contains_key(vote.command()),
    ensures
        collector.vote_refusal(sender, vote) is None <==> vote.replica() == sender
            && vote.admission() == collector.pending[vote.command()].admission
            && collector.pending[vote.command()].votes.refusal(vote) is None,
        collector.with_vote(vote).pending[vote.command()].votes
            == collector.pending[vote.command()].votes.presented(vote),
        collector.with_vote(vote).pending[vote.command()].released
            == collector.pending[vote.command()].released,
{
}

/// A release of a pending command counts exactly from the leader of the ballot,
/// for that ballot and epoch, where it says what an earlier one said.
pub proof fn lemma_which_releases_count(
    collector: CollectorView,
    sender: ReplicaId,
    released: ReleasedView,
)
    requires
        collector.pending.contains_key(released.evidence.command),
    ensures
        collector.release_refusal(sender, released) is None <==> {
            &&& sender == collector.config.quorum.ballot.leader
            &&& released.evidence.epoch == collector.config.quorum.epoch
            &&& released.evidence.ballot == collector.config.quorum.ballot
            &&& collector.pending[released.evidence.command].released matches Some(was)
                ==> was.evidence.result_digest == released.evidence.result_digest
                && was.evidence.position == released.evidence.position && was.evidence.revision
                == released.evidence.revision && was.response == released.response
        },
        collector.with_release(released).pending[released.evidence.command].released == Some(
            released,
        ),
{
}

/// What a caller is answered: the released response and revision, under the
/// command, whole where it fits and as too large where it does not; with whether
/// it was fast and ahead of execution, to the session that asked.
pub proof fn lemma_callers_get_the_released_response(collector: CollectorView, command: CommandId)
    requires
        collector.pending.contains_key(command),
        collector.pending[command].votes.learned() is Some,
        collector.pending[command].released is Some,
    ensures
        ({
            let entry = collector.pending[command];
            let released = entry.released->0;
            let (next, progress) = collector.released(command);
            let r = progress->Released_0;
            &&& progress is Released
            &&& r.command == command && r.retry_key == entry.retry_key && r.session
                == entry.session && r.attached == entry.attached
            &&& r.speculative == released.speculative
            &&& r.fast <==> entry.votes.learned()->0 is Fast
            &&& r.response.command_id == command
            &&& released.response.len() <= collector.config.limits.result
                && released.response.len() + 65536 <= collector.config.limits.api_frame
                ==> r.response.outcome == (OutcomeBody::Established {
                revision: released.evidence.revision,
                result: released.response,
            })
            &&& released.response.len() > collector.config.limits.result ==> (r.response.outcome
                matches OutcomeBody::Refused { code, .. } && code == ErrorCode::ResultTooLarge)
            &&& !next.pending.contains_key(command)
        }),
{
    let entry = collector.pending[command];
    let base = collector.retired(command);
    let response = answer(
        collector.config.limits,
        command,
        entry.released->0.evidence.revision,
        entry.released->0.response,
    );
    lemma_window_keeps_pending(
        CollectorView {
            resolved: base.resolved.insert(entry.retry_key, (command, response)),
            resolved_order: base.resolved_order.push(entry.retry_key),
            ..base
        },
    );
}

proof fn lemma_window_keeps_pending(collector: CollectorView)
    ensures
        collector.windowed().pending == collector.pending,
    decreases collector.resolved_order.len(),
{
    if collector.resolved_order.len() > collector.config.max_resolved {
        let oldest = collector.resolved_order.first();
        lemma_window_keeps_pending(
            CollectorView {
                resolved: collector.resolved.remove(oldest),
                bindings: collector.bindings.remove(oldest),
                resolved_order: collector.resolved_order.drop_first(),
                ..collector
            },
        );
    }
}

/// Outcomes kept: beyond the bound the oldest go first, and only those.
pub proof fn lemma_the_oldest_outcomes_go_first(collector: CollectorView, i: int)
    requires
        collector.resolved_order.no_duplicates(),
        0 <= i < collector.resolved_order.len(),
    ensures
        ({
            let next = collector.windowed();
            let n = collector.resolved_order.len();
            let k = collector.resolved_order[i];
            let kept = n - i <= collector.config.max_resolved;
            &&& kept ==> next.resolved.contains_key(k) == collector.resolved.contains_key(k)
                && next.resolved[k] == collector.resolved[k] && next.bindings.contains_key(k)
                == collector.bindings.contains_key(k)
            &&& !kept ==> !next.resolved.contains_key(k) && !next.bindings.contains_key(k)
        }),
    decreases collector.resolved_order.len(),
{
    if collector.resolved_order.len() > collector.config.max_resolved {
        let oldest = collector.resolved_order.first();
        let rest = CollectorView {
            resolved: collector.resolved.remove(oldest),
            bindings: collector.bindings.remove(oldest),
            resolved_order: collector.resolved_order.drop_first(),
            ..collector
        };
        if i > 0 {
            assert(rest.resolved_order[i - 1] == collector.resolved_order[i]);
            assert(collector.resolved_order[0] != collector.resolved_order[i]);
            assert(rest.resolved_order.no_duplicates()) by {
                assert forall|a: int, b: int|
                    0 <= a < rest.resolved_order.len() && 0 <= b < rest.resolved_order.len() && a
                        != b implies rest.resolved_order[a] != rest.resolved_order[b] by {
                    assert(rest.resolved_order[a] == collector.resolved_order[a + 1]);
                    assert(rest.resolved_order[b] == collector.resolved_order[b + 1]);
                }
            }
            lemma_the_oldest_outcomes_go_first(rest, i - 1);
        } else {
            lemma_gone_stay_gone(rest, oldest);
        }
    }
}

proof fn lemma_gone_stay_gone(collector: CollectorView, k: RetryKey)
    requires
        !collector.resolved.contains_key(k),
        !collector.bindings.contains_key(k),
    ensures
        !collector.windowed().resolved.contains_key(k),
        !collector.windowed().bindings.contains_key(k),
    decreases collector.resolved_order.len(),
{
    if collector.resolved_order.len() > collector.config.max_resolved {
        let oldest = collector.resolved_order.first();
        lemma_gone_stay_gone(
            CollectorView {
                resolved: collector.resolved.remove(oldest),
                bindings: collector.bindings.remove(oldest),
                resolved_order: collector.resolved_order.drop_first(),
                ..collector
            },
            k,
        );
    }
}

/// What a durable record settles: a pending command that the votes or a release
/// vouch for, with what the record says where no release says otherwise.
pub proof fn lemma_records_settle_vouched_commands(
    collector: CollectorView,
    command: CommandId,
    result_digest: Digest32,
    revision: Option<KvRevision>,
    response: Seq<u8>,
)
    requires
        collector.pending.contains_key(command),
    ensures
        ({
            let entry = collector.pending[command];
            let result = collector.settled_from_record(
                command,
                result_digest,
                revision,
                response,
            ).1;
            let same = match entry.released {
                Some(r) => r.evidence.result_digest == result_digest && r.response == response,
                None => true,
            };
            &&& entry.released is None && entry.votes.learned() is None ==> result == Err::<
                ProgressView,
                SettleError,
            >(SettleError::Uncorroborated)
            &&& entry.released is Some && !same ==> result == Err::<ProgressView, SettleError>(
                SettleError::Mismatch,
            )
            &&& same && (entry.released is Some || entry.votes.learned() is Some) ==> (result
                matches Ok(ProgressView::Released(r)) && r.command == command && r.retry_key
                == entry.retry_key && !r.speculative && r.response == answer(
                collector.config.limits,
                command,
                revision,
                response,
            ) && r.attached == entry.attached)
        }),
{
}

/// What a resolve is told: the outcome kept, pending, the command its key is
/// bound to, or that nothing is known of it.
pub proof fn lemma_what_a_resolve_is_told(collector: CollectorView, request: ResolveRequestV1)
    ensures
        ({
            let key = request.retry_key;
            let told = collector.resolution(request);
            &&& !collector.bindings.contains_key(key) ==> told is Unknown
            &&& collector.bindings.contains_key(key) && collector.bindings[key]
                != request.command_id ==> told == (ResolutionView::Conflict {
                bound: collector.bindings[key],
            })
            &&& collector.bindings.contains_key(key) && collector.bindings[key]
                == request.command_id && collector.resolved.contains_key(key) ==> told
                == ResolutionView::Outcome(collector.resolved[key].1)
            &&& collector.bindings.contains_key(key) && collector.bindings[key]
                == request.command_id && !collector.resolved.contains_key(key)
                && collector.pending.contains_key(request.command_id) ==> told is Pending
        }),
{
}

/// Commands past their deadline are exactly those pending with one that has come
/// and that were not told yet; those that wait for one half of their evidence are
/// exactly those with the other.
pub proof fn lemma_which_commands_wait(collector: CollectorView, now: int, c: CommandId)
    requires
        collector.pending.dom().finite(),
    ensures
        collector.overdue(now).contains(c) <==> collector.pending.contains_key(c)
            && !collector.pending[c].timed_out && (collector.pending[c].deadline matches Some(d)
            && d <= now),
        collector.halves().contains(c) <==> collector.pending.contains_key(c) && ((
        collector.pending[c].votes.learned() is Some && collector.pending[c].released is None) || (
        collector.pending[c].votes.learned() is None && collector.pending[c].released is Some)),
        collector.pending.contains_key(c) ==> (collector.expired(now).pending[c].timed_out <==> (
        collector.pending[c].timed_out || collector.overdue(now).contains(c))),
{
    let late = collector.pending.dom().filter(|x: CommandId| collector.pending[x].overdue(now));
    let half = collector.pending.dom().filter(|x: CommandId| collector.pending[x].half());
    lemma_in_order::<CommandId>(late);
    lemma_in_order::<CommandId>(half);
}

// Dispatch.

/// A settled command is answered to the connection that waits for it, with the
/// released response, where its caller is attached; its place is given back and
/// nobody waits for it any more.
pub proof fn lemma_answers_go_to_who_waits(dispatcher: DispatchView, release: ReleaseView)
    ensures
        ({
            let key = release.retry_key;
            let (next, told) = dispatcher.settled(release);
            &&& told is Some <==> release.attached && dispatcher.owner.contains_key(key)
            &&& told matches Some(d) ==> d.connection == dispatcher.owner[key] && d.retry_key == key
                && d.message == ServerView::Response(release.response)
            &&& !next.owner.contains_key(key)
            &&& next.gate == dispatcher.gate.settled(key)
            &&& next.collector == dispatcher.collector && next.watches == dispatcher.watches
        }),
{
}

/// Who waits for a request: the connection that presented it last.
pub proof fn lemma_the_last_connection_waits(
    dispatcher: DispatchView,
    connection: u64,
    key: RetryKey,
    other: RetryKey,
)
    ensures
        ({
            let next = dispatcher.attached(connection, key);
            &&& next.owner == dispatcher.owner.insert(key, connection)
            &&& next.waits_on(connection).contains(key)
            &&& dispatcher.owner.contains_key(key) && dispatcher.owner[key] != connection
                ==> !next.waits_on(dispatcher.owner[key]).contains(key)
            &&& other != key && dispatcher.waits_on(connection).contains(other) ==> next.waits_on(
                connection,
            ).contains(other)
        }),
{
}

/// What presenting a request leads to: fanned out or attached, the connection
/// waits for it; resolved, it is answered at once and its place is given back.
pub proof fn lemma_presented_requests<H: Fn(HashDomain, Vec<Vec<u8>>) -> Digest32>(
    dispatcher: DispatchView,
    hash: H,
    connection: u64,
    key: RetryKey,
    reserved: bool,
    collector: CollectorView,
    f: FanOutView,
    command: CommandId,
    response: ResponseView,
)
    ensures
        ({
            let base = DispatchView { collector, ..dispatcher };
            let fanned = dispatcher.collected(
                hash,
                connection,
                key,
                reserved,
                collector,
                Ok::<SubmittedView, SubmitRefusal>(SubmittedView::FanOut(f)),
            );
            let joined = dispatcher.collected(
                hash,
                connection,
                key,
                reserved,
                collector,
                Ok::<SubmittedView, SubmitRefusal>(SubmittedView::Attached { command }),
            );
            let known = dispatcher.collected(
                hash,
                connection,
                key,
                reserved,
                collector,
                Ok::<SubmittedView, SubmitRefusal>(SubmittedView::Resolved(response)),
            );
            &&& fanned.1 == ActionView::FanOut(f) && fanned.0.owner[key] == connection
                && fanned.0.gate == dispatcher.gate && fanned.0.collector == collector
            &&& joined.1 == (ActionView::Pending { command }) && joined.0.owner[key] == connection
                && joined.0.gate == dispatcher.gate
            &&& known.1 == ActionView::Respond(
                DeliveryOut {
                    connection,
                    retry_key: key,
                    message: ServerView::Response(response),
                },
            ) && known.0.owner == dispatcher.owner && known.0.gate == dispatcher.gate.settled(key)
        }),
{
}

/// A refused request is answered on its connection with the code that fits, and
/// gives back the place it took, and only that.
pub proof fn lemma_refused_requests<H: Fn(HashDomain, Vec<Vec<u8>>) -> Digest32>(
    dispatcher: DispatchView,
    hash: H,
    connection: u64,
    key: RetryKey,
    reserved: bool,
    collector: CollectorView,
    refusal: SubmitRefusal,
)
    ensures
        ({
            let (next, action) = dispatcher.collected(
                hash,
                connection,
                key,
                reserved,
                collector,
                Err::<SubmittedView, SubmitRefusal>(refusal),
            );
            &&& next.gate == (if reserved {
                dispatcher.gate.settled(key)
            } else {
                dispatcher.gate
            })
            &&& next.owner == dispatcher.owner
            &&& action matches ActionView::Respond(d) && d.connection == connection && d.retry_key
                == key && (d.message matches ServerView::Response(r) && (r.outcome matches
                OutcomeBody::Refused { code, .. } && code == (match refusal {
                SubmitRefusal::Malformed => ErrorCode::MalformedRequest,
                SubmitRefusal::RequestIdentityConflict { .. } =>
                    ErrorCode::RequestIdentityConflict,
                SubmitRefusal::Backpressure { .. } => ErrorCode::Backpressure,
            })))
        }),
{
}

/// A request that is not admitted is answered with the code that fits and
/// reaches no collector.
pub proof fn lemma_unadmitted_requests<
    H: Fn(HashDomain, Vec<Vec<u8>>) -> Digest32,
    D: Fn(RetryKey, Vec<u8>) -> Option<Derived>,
>(
    dispatcher: DispatchView,
    hash: H,
    derive: D,
    now_ticks: u64,
    now: int,
    connection: u64,
    caller: crate::admission::Caller,
    request: RequestBody,
    cost: Option<usize>,
)
    requires
        dispatcher.gate.refusal(caller, request.retry_key, cost) is Some,
    ensures
        ({
            let refusal = dispatcher.gate.refusal(caller, request.retry_key, cost)->0;
            let (next, action) = dispatcher.requested(
                hash,
                derive,
                now_ticks,
                now,
                connection,
                caller,
                request,
                cost,
            );
            &&& next.collector == dispatcher.collector && next.owner == dispatcher.owner
            &&& action matches ActionView::Respond(d) && d.connection == connection && d.retry_key
                == request.retry_key && (d.message matches ServerView::Response(r) && (r.outcome
                matches OutcomeBody::Refused { code, .. } && code == (match refusal {
                AdmissionRefusal::Malformed => ErrorCode::MalformedRequest,
                AdmissionRefusal::SessionBusy { .. } => ErrorCode::Backpressure,
                _ => ErrorCode::NotAdmitted,
            })))
        }),
{
}

/// What a resolve is answered on its connection.
pub proof fn lemma_resolves_are_answered(
    limits: WireLimits,
    command: CommandId,
    outcome: ResponseView,
    bound: CommandId,
)
    ensures
        resolution_answer(limits, command, ResolutionView::Outcome(outcome)) == outcome,
        resolution_answer(limits, command, ResolutionView::Pending).outcome is Pending,
        resolution_answer(limits, command, ResolutionView::Unknown).outcome is Unknown,
        resolution_answer(
            limits,
            command,
            ResolutionView::Conflict { bound },
        ).outcome matches OutcomeBody::Refused { code, .. } && code
            == ErrorCode::RequestIdentityConflict,
{
}

/// A watch is opened as asked and once: with the namespace, range, start and
/// options asked for, and a second one under its number is a violation. Closing
/// it drops the subscription it had and tells the client so.
pub proof fn lemma_watches_open_and_close<
    H: Fn(HashDomain, Vec<Vec<u8>>) -> Digest32,
    D: Fn(RetryKey, Vec<u8>) -> Option<Derived>,
>(
    dispatcher: DispatchView,
    hash: H,
    derive: D,
    now_ticks: u64,
    now: int,
    connection: u64,
    caller: crate::admission::Caller,
    kind: u16,
    open: WatchOpenView,
    watch_id: u64,
)
    ensures
        ({
            let (same, opened) = dispatcher.received(
                hash,
                derive,
                now_ticks,
                now,
                connection,
                caller,
                kind,
                Some(ClientView::WatchOpen(open)),
            );
            let taken = dispatcher.watches.contains_key(
                WatchKey { connection, watch_id: open.watch_id },
            );
            &&& same == dispatcher
            &&& taken ==> opened == (ActionView::Violation { connection, kind })
            &&& !taken ==> (opened matches ActionView::RegisterWatch {
                connection: c,
                watch_id: w,
                spec,
            } && c == connection && w == open.watch_id && spec.namespace == open.namespace
                && spec.key == open.key && spec.range_end == open.range_end && spec.start_revision
                == open.start_revision && spec.prev_kv == open.prev_kv && spec.progress_notify
                == open.progress_notify && spec.queue_capacity == dispatcher.watch_queue)
        }),
        ({
            let (next, closed) = dispatcher.received(
                hash,
                derive,
                now_ticks,
                now,
                connection,
                caller,
                kind,
                Some(ClientView::WatchClose { watch_id }),
            );
            let key = WatchKey { connection, watch_id };
            &&& next.watches == dispatcher.watches.remove(key)
            &&& closed matches ActionView::WatchClosed { dropped, delivery } && dropped == (
            if dispatcher.watches.contains_key(key) {
                Some(dispatcher.watches[key])
            } else {
                None
            }) && delivery.connection == connection && (delivery.message matches
                ServerView::WatchClose(w) && w.watch_id == watch_id && w.reason
                == WatchCloseReasonV1::Cancelled)
        }),
        dispatcher.received(
            hash,
            derive,
            now_ticks,
            now,
            connection,
            caller,
            kind,
            None,
        ) == (dispatcher, ActionView::Violation { connection, kind }),
{
}

/// What a watch is sent is in the order it came, and nothing after its end: a
/// batch as its frames, progress as its revision, and an end once.
pub proof fn lemma_watches_are_sent_in_order(
    dispatcher: DispatchView,
    connection: u64,
    watch_id: u64,
    items: Seq<ItemView>,
    item: ItemView,
)
    ensures
        ({
            let key = WatchKey { connection, watch_id };
            let (before, sent) = dispatcher.pumped(connection, watch_id, items);
            let (after, all) = dispatcher.pumped(connection, watch_id, items.push(item));
            &&& !before.watches.contains_key(key) ==> after == before && all == sent
            &&& before.watches.contains_key(key) ==> {
                &&& all.len() >= sent.len() && all.take(sent.len() as int) == sent
                &&& item matches ItemView::Progress(revision) ==> after == before && all
                    == sent.push(
                    ServerView::WatchProgress(
                        crate::watch::WatchProgressV1 { watch_id, revision },
                    ),
                )
                &&& item is Closed ==> !after.watches.contains_key(key) && all.len() == sent.len()
                    + 1 && (all.last() matches ServerView::WatchClose(c) && c.watch_id == watch_id)
                &&& item matches ItemView::Batch(batch) ==> {
                    let frames = crate::watch::framed_batch(before.limits, watch_id, batch);
                    &&& frames is Some ==> after == before && all.len() == sent.len()
                        + frames->0.len() && forall|i: int|
                        0 <= i < frames->0.len() ==> #[trigger] all[sent.len() + i]
                            == ServerView::WatchEvents(frames->0[i])
                    &&& frames is None ==> !after.watches.contains_key(key) && all.len()
                        == sent.len() + 1 && (all.last() matches ServerView::WatchClose(c)
                        && c.watch_id == watch_id && c.reason == WatchCloseReasonV1::SourceLost
                        && (batch.revision.0 > 1 ==> c.last_complete_revision == Some(
                        KvRevision((batch.revision.0 - 1) as u64),
                    )))
                }
            }
        }),
{
    assert(items.push(item).drop_last() =~= items);
    let (before, sent) = dispatcher.pumped(connection, watch_id, items);
    let more = before.item_messages(watch_id, item).0;
    assert((sent + more).take(sent.len() as int) =~= sent);
    if let ItemView::Progress(revision) = item {
        assert(sent + more =~= sent.push(more[0]));
    }
}

/// A closed connection drops its own watches and no other's: the subscriptions
/// named are exactly those.
pub proof fn lemma_closed_connections_drop_their_watches(
    dispatcher: DispatchView,
    connection: u64,
    w: WatchKey,
)
    requires
        dispatcher.watches.dom().finite(),
    ensures
        ({
            let (next, _, dropped) = dispatcher.closed(connection);
            &&& next.watches.contains_key(w) <==> dispatcher.watches.contains_key(w)
                && w.connection != connection
            &&& dispatcher.watches.contains_key(w) && w.connection == connection
                ==> dropped.contains(dispatcher.watches[w])
            &&& next.watches.contains_key(w) ==> next.watches[w] == dispatcher.watches[w]
        }),
{
    let own = dispatcher.watches.dom().filter(|k: WatchKey| k.connection == connection);
    lemma_in_order::<WatchKey>(own);
    let list = dispatcher.watches_of(connection);
    let dropped = dispatcher.closed(connection).2;
    assert(list.to_set() == own);
    if dispatcher.watches.contains_key(w) && w.connection == connection {
        assert(list.contains(w));
        let i = choose|i: int| 0 <= i < list.len() && list[i] == w;
        assert(dropped[i] == dispatcher.watches[w]);
    }
}

/// Deadlines tell who waits that the command is pending, once each: the
/// connection of a request past its deadline is told, and waits no more.
pub proof fn lemma_deadlines_tell_who_waits(
    dispatcher: DispatchView,
    commands: Seq<(RetryKey, CommandId)>,
    key: RetryKey,
    command: CommandId,
)
    ensures
        ({
            let (before, sent) = dispatcher.told_pending(commands);
            let (after, all) = dispatcher.told_pending(commands.push((key, command)));
            &&& before.owner.contains_key(key) ==> {
                &&& all.len() == sent.len() + 1
                &&& all.last().connection == before.owner[key] && all.last().retry_key == key
                &&& all.last().message matches ServerView::Response(r) && r.command_id == command
                    && r.outcome is Pending
                &&& !after.owner.contains_key(key)
                &&& after.gate == before.gate.settled(key)
            }
            &&& !before.owner.contains_key(key) ==> after == before && all == sent
        }),
{
    assert(commands.push((key, command)).drop_last() =~= commands);
}

/// Progress is told exactly where it releases a result; evidence that only
/// advances a command tells nobody.
pub proof fn lemma_only_releases_are_told(
    dispatcher: DispatchView,
    release: ReleaseView,
    reason: HoldReason,
)
    ensures
        dispatcher.delivered(ProgressView::Released(release)) == dispatcher.settled(release),
        dispatcher.delivered(ProgressView::Held(reason)) == (dispatcher, None::<DeliveryOut>),
        dispatcher.delivered(ProgressView::Settled) == (dispatcher, None::<DeliveryOut>),
{
}

/// Who is told at a deadline: the key and command of each command past it, in
/// order.
pub proof fn lemma_who_is_told_at_a_deadline(dispatcher: DispatchView, now: int, i: int)
    ensures
        ({
            let late = dispatcher.collector.overdue(now);
            let told = dispatcher.overdue(now);
            &&& told.len() == late.len()
            &&& 0 <= i < told.len() ==> told[i].1 == late[i] && told[i].0
                == dispatcher.collector.pending[late[i]].retry_key
        }),
{
}

/// Every admission counts: the receipts of a gate are numbered on.
pub proof fn lemma_receipts_are_numbered(
    gate: GateView,
    caller: crate::admission::Caller,
    key: RetryKey,
    cost: Option<usize>,
)
    requires
        gate.minted < u64::MAX,
    ensures
        gate.presented(caller, key, cost).minted == (if gate.refusal(caller, key, cost) is None {
            gate.minted + 1
        } else {
            gate.minted as int
        }),
{
}

/// What must be durable before each thing is told.
pub proof fn lemma_what_is_durable_first(record: crate::publication::DurableRecord)
    ensures
        obligations(Publication::FastAck).contains(record) <==> record == DurableRecord::Payload
            || record == DurableRecord::Vote || record == DurableRecord::PathEvidence || record
            == DurableRecord::PrerequisiteDependencies,
        obligations(Publication::SlowAck).contains(record) <==> record
            == DurableRecord::AdoptedLeaderOrder || record == DurableRecord::PrerequisiteAcceptance,
        obligations(Publication::LeaderReply).contains(record) <==> record
            == DurableRecord::ProposalState,
        obligations(Publication::PromiseOrRecoveryResponse).contains(record) <==> record
            == DurableRecord::PromisedBallot || record == DurableRecord::RecoveryStateAtCut,
        obligations(Publication::FinalizedResult).contains(record) <==> record
            == DurableRecord::EstablishedCommand || record == DurableRecord::ApplicationOutcome,
        obligations(Publication::CheckpointReady).contains(record) <==> record
            == DurableRecord::Checkpoint || record == DurableRecord::CheckpointIdentity || record
            == DurableRecord::RecoveryFloor,
{
    let fast = obligations(Publication::FastAck);
    let slow = obligations(Publication::SlowAck);
    let reply = obligations(Publication::LeaderReply);
    let promise = obligations(Publication::PromiseOrRecoveryResponse);
    let result = obligations(Publication::FinalizedResult);
    let ready = obligations(Publication::CheckpointReady);
    assert(fast.contains(fast[0]) && fast.contains(fast[1]) && fast.contains(fast[2])
        && fast.contains(fast[3]));
    assert(slow.contains(slow[0]) && slow.contains(slow[1]));
    assert(reply.contains(reply[0]));
    assert(promise.contains(promise[0]) && promise.contains(promise[1]));
    assert(result.contains(result[0]) && result.contains(result[1]));
    assert(ready.contains(ready[0]) && ready.contains(ready[1]) && ready.contains(ready[2]));
}

/// An admitted request reaches the collector as it was admitted, and an
/// unreadable one does not.
pub proof fn lemma_admitted_requests_are_submitted<
    H: Fn(HashDomain, Vec<Vec<u8>>) -> Digest32,
    D: Fn(RetryKey, Vec<u8>) -> Option<Derived>,
>(
    dispatcher: DispatchView,
    hash: H,
    derive: D,
    now_ticks: u64,
    now: int,
    connection: u64,
    caller: crate::admission::Caller,
    request: RequestBody,
    cost: Option<usize>,
)
    requires
        dispatcher.gate.refusal(caller, request.retry_key, cost) is None,
    ensures
        ({
            let key = request.retry_key;
            let admitted = dispatcher.gate.admission(hash, now_ticks, caller, request);
            let (collector, result) = dispatcher.collector.submitted(hash, derive, now, admitted);
            let (next, action) = dispatcher.requested(
                hash,
                derive,
                now_ticks,
                now,
                connection,
                caller,
                request,
                cost,
            );
            &&& next.collector == collector
            &&& result matches Ok(SubmittedView::FanOut(f)) ==> action == ActionView::FanOut(f)
                && next.owner[key] == connection && next.gate.of(caller.session).contains(key)
            &&& result is Err && dispatcher.gate.of(caller.session).contains(key) ==> next.gate.of(
                caller.session,
            ).contains(key)
        }),
{
}

/// A submission is for the command its key and request derive to, under the
/// digest of what it was admitted under and the acknowledged floor; one that
/// derives to none exactly is refused.
pub proof fn lemma_submissions_are_named<
    H: Fn(HashDomain, Vec<Vec<u8>>) -> Digest32,
    D: Fn(RetryKey, Vec<u8>) -> Option<Derived>,
>(
    collector: CollectorView,
    hash: H,
    derive: D,
    now: int,
    receipt: ReceiptView,
    request: RequestBody,
)
    ensures
        ({
            let admitted = crate::client::AdmittedView { receipt, request: Some(request) };
            let turn = collector.submitted(hash, derive, now, admitted);
            let name = crate::machine::identity_of(derive, request.retry_key, request.logical);
            &&& name matches Some(command) ==> turn == collector.placed(
                now,
                receipt,
                request,
                command,
                crate::rows::admission_of(
                    hash,
                    Some(crate::wire::facts_of(receipt)),
                    request.ack_through,
                ),
            )
            &&& name is None ==> turn.0 == collector && (turn.1 matches Err(
                SubmitRefusal::Malformed,
            ))
        }),
{
}

/// Evidence is counted as the vote it is, under the facts the command was
/// submitted with; anything else is no evidence and changes nothing.
pub proof fn lemma_evidence_is_counted<H: Fn(HashDomain, Vec<Vec<u8>>) -> Digest32>(
    collector: CollectorView,
    hash: H,
    from: crate::client::PeerProvenance,
    message: MessageView,
)
    ensures
        ({
            let turn = collector.evidenced(hash, from, message);
            &&& message matches MessageView::FastAck(a) ==> (exists|kind: Seq<char>|
                turn == #[trigger] collector.counted(from.from, kind, VoteView::Fast(a)))
            &&& message matches MessageView::SlowAck(a) ==> (exists|kind: Seq<char>|
                turn == #[trigger] collector.counted(from.from, kind, VoteView::Slow(a)))
            &&& message matches MessageView::LeaderReply { ballot, command, seqnum, deps, path }
                ==> collector.pending.contains_key(command) ==> (exists|kind: Seq<char>|
                turn == #[trigger] collector.counted(
                    from.from,
                    kind,
                    VoteView::Fast(
                        crate::vote::FastAckView {
                            replica: from.from,
                            ballot,
                            command,
                            deps,
                            paths: Seq::empty(),
                            path,
                            admission: collector.pending[command].admission,
                            seqnum: Some(seqnum),
                        },
                    ),
                ))
            &&& !(message is FastAck || message is SlowAck || message is LeaderReply) ==> turn == (
                collector,
                Err::<ProgressView, EvidenceError>(EvidenceError::NotEvidence),
            )
        }),
{
    let named = vote_in(message, from.from, crate::rows::admission_of(hash, None, 0));
    if named is Some {
        let (kind, vote) = vote_in(
            message,
            from.from,
            collector.admission_for(hash, (named->0).1.command()),
        )->0;
        assert(collector.evidenced(hash, from, message) == collector.counted(
            from.from,
            kind,
            vote,
        ));
    }
}

/// What is traced of a submission: that it was fanned out and to whom, joined,
/// answered from what is kept, or refused and why; each under its sequence.
pub proof fn lemma_submissions_are_traced(
    collector: CollectorView,
    now: int,
    receipt: ReceiptView,
    request: RequestBody,
    command: CommandId,
    admission: Digest32,
)
    ensures
        ({
            let (next, result) = collector.placed(now, receipt, request, command, admission);
            let sequence = request.retry_key.request_sequence.0;
            let name = hex_of(command.bytes());
            &&& result matches Ok(SubmittedView::FanOut(f)) ==> next.trace == collector.trace.push(
                EventView::Submitted {
                    command: name,
                    sequence,
                    targets: f.targets.map_values(|r: ReplicaId| hex_of(r.bytes())),
                },
            )
            &&& result matches Ok(SubmittedView::Attached { .. }) ==> next.trace
                == collector.trace.push(EventView::Attached { command: name, sequence })
            &&& result matches Ok(SubmittedView::Resolved(_)) ==> next.trace
                == collector.trace.push(EventView::Retained { command: name, sequence })
            &&& result matches Err(SubmitRefusal::RequestIdentityConflict { .. }) ==> next.trace
                == collector.trace.push(
                EventView::Refused { sequence, reason: "request-identity-conflict"@ },
            )
        }),
{
}

/// What is traced of an ending: a release with how it came about and who voted,
/// a cancellation, and each deadline that passed.
pub proof fn lemma_endings_are_traced(collector: CollectorView, key: RetryKey, now: int, i: int)
    ensures
        collector.cancelled(key).1 matches Some(c) ==> collector.cancelled(key).0.trace
            == collector.trace.push(EventView::Cancelled { command: hex_of(c.bytes()) }),
        ({
            let late = collector.overdue(now);
            let next = collector.expired(now).trace;
            &&& next.len() == collector.trace.len() + late.len()
            &&& 0 <= i < late.len() ==> next[collector.trace.len() + i] == (EventView::TimedOut {
                command: hex_of(late[i].bytes()),
            })
        }),
{
}

/// How many destinations a round's repeats name in all.
pub open spec fn destinations(offers: Seq<FanOutView>) -> nat
    decreases offers.len(),
{
    if offers.len() == 0 {
        0
    } else {
        destinations(offers.drop_last()) + offers.last().targets.len()
    }
}

/// A round stays within its budget, spends one on each destination it names, and
/// begins with the first command in turn.
pub proof fn lemma_rounds_stay_within_budget(
    pending: Map<CommandId, EntryView>,
    order: Seq<CommandId>,
    now: int,
    budget: int,
)
    requires
        1 <= budget,
    ensures
        ({
            let made = round(pending, order, now, budget);
            &&& made.spent == destinations(made.offers) && made.spent <= budget
            &&& 0 <= made.examined <= order.len()
            &&& order.len() > 0 ==> made.examined > 0
            &&& order.len() > 0 && pending.contains_key(order[0])
                && pending[order[0]].dissemination.targets(now, budget).len() > 0
                ==> made.offers.len() > 0 && made.offers[0].command == order[0]
                && made.offers[0].targets == pending[order[0]].dissemination.targets(now, budget)
        }),
    decreases order.len(),
{
    if order.len() > 0 {
        let t = order.drop_last();
        lemma_rounds_stay_within_budget(pending, t, now, budget);
        let before = round(pending, t, now, budget);
        let made = round(pending, order, now, budget);
        if made.offers.len() > before.offers.len() {
            assert(made.offers.drop_last() =~= before.offers);
        }
        if t.len() > 0 {
            assert(t[0] == order[0]);
        }
    }
}

/// Rounds take turns: one begins where the last one left off, so that no command
/// is passed over for another that comes before it.
pub proof fn lemma_rounds_take_turns(collector: CollectorView, now: int, budget: int)
    requires
        collector.pending.dom().finite(),
        collector.load() > 0,
        1 <= budget,
    ensures
        ({
            let order = in_order::<CommandId>(collector.pending.dom());
            let first = collector.offer_cursor as int % order.len() as int;
            let (next, offers) = collector.reoffered(now, budget);
            let entry = collector.pending[order[first]].dissemination;
            &&& destinations(offers) <= budget
            &&& entry.targets(now, budget).len() > 0 ==> offers.len() > 0 && offers[0].command
                == order[first] && offers[0].targets == entry.targets(now, budget)
        }),
{
    let order = in_order::<CommandId>(collector.pending.dom());
    lemma_in_order::<CommandId>(collector.pending.dom());
    let first = collector.first_offer();
    let turned = rotated(order, first);
    assert(turned[0] == order[first]);
    assert(order.contains(order[first]));
    lemma_rounds_stay_within_budget(collector.pending, turned, now, budget);
}

/// A voter that is owed a submission nobody would offer it is owed it afresh
/// when the voters change: due at once, as after one attempt.
pub proof fn lemma_stalled_voters_are_offered_afresh(
    delivery: DeliveryView,
    voters: Set<ReplicaId>,
    r: ReplicaId,
)
    requires
        voters.contains(r),
    ensures
        ({
            let owed = delivery.revisited(voters).owed;
            &&& owed.contains_key(r)
            &&& delivery.envelope is Some && (!delivery.owed.contains_key(r)
                || delivery.owed[r] is Stalled) ==> owed[r] == (OwedView::Missed {
                attempts: 1,
                next: 0,
                why: OfferOutcome::Unreachable,
            })
            &&& delivery.owed.contains_key(r) && !(delivery.owed[r] is Stalled) ==> owed[r]
                == delivery.owed[r]
            &&& delivery.envelope is None && delivery.owed.contains_key(r) ==> owed[r]
                == delivery.owed[r]
        }),
{
}

/// A change that cannot be framed ends the watch as a lost source, complete up
/// to the revision before it where there is one.
pub proof fn lemma_unframable_changes_end_the_watch(
    dispatcher: DispatchView,
    watch_id: u64,
    batch: crate::watch::BatchView,
)
    requires
        crate::watch::framed_batch(dispatcher.limits, watch_id, batch) is None,
    ensures
        ({
            let (messages, ended) = dispatcher.item_messages(watch_id, ItemView::Batch(batch));
            &&& ended && messages.len() == 1 && messages[0] is WatchClose
            &&& messages[0]->WatchClose_0.watch_id == watch_id
            &&& messages[0]->WatchClose_0.reason == WatchCloseReasonV1::SourceLost
            &&& batch.revision.0 > 1 ==> (
                messages[0]->WatchClose_0.last_complete_revision matches Some(last) && last.0 + 1
                    == batch.revision.0)
            &&& batch.revision.0 <= 1 ==> messages[0]->WatchClose_0.last_complete_revision is None
        }),
{
}

/// What is traced of a question: its sequence and what was found.
pub proof fn lemma_questions_are_traced(collector: CollectorView, request: ResolveRequestV1)
    ensures
        ({
            let found = collector.resolution(request);
            let next = collector.resolved_query(request);
            let event = next.trace.last();
            &&& next == (CollectorView { trace: next.trace, ..collector })
            &&& next.trace.drop_last() == collector.trace
            &&& event is Resolved && event->Resolved_sequence
                == request.retry_key.request_sequence.0
            &&& found is Outcome ==> event->Resolved_result == "outcome"@
            &&& found is Pending ==> event->Resolved_result == "pending"@
            &&& found is Conflict ==> event->Resolved_result == "conflict"@
            &&& found is Unknown ==> event->Resolved_result == "unknown"@
        }),
{
    assert(collector.resolved_query(request).trace.drop_last() =~= collector.trace);
}

/// A watcher is told why its watch ended, and each reason is its own.
pub proof fn lemma_endings_say_why(reason: CloseReason)
    ensures
        ({
            let told = reason_told(reason);
            &&& reason is Cancelled <==> told == WatchCloseReasonV1::Cancelled
            &&& reason is Compacted <==> told == WatchCloseReasonV1::Compacted
            &&& reason is SlowConsumer <==> told == WatchCloseReasonV1::SlowConsumer
            &&& reason is Unauthorized <==> told == WatchCloseReasonV1::Unauthorized
            &&& reason is HubClosed <==> told == WatchCloseReasonV1::SourceLost
        }),
{
}

/// A change costs its key, both values it carries, and a fixed amount, so that a
/// longer one never costs less.
pub proof fn lemma_changes_cost_what_they_carry(event: crate::watch::KvEventView)
    ensures
        ({
            let now = match event.entry {
                Some(e) => e.value.len() as int,
                None => 0,
            };
            let was = match event.prev {
                Some(p) => p.value.len() as int,
                None => 0,
            };
            crate::watch::cost_of(event) == event.key.len() + now + was
                + crate::watch::EVENT_OVERHEAD
        }),
{
}

} // verus!
