//! The collector owns re-offering a submission a destination could not take,
//! under a bounded budget: all-voter targeting is required; all-voter
//! acceptance is not.

use std::collections::BTreeSet;

use coord_consensus::client::{
    AdmissionPurpose, AdmissionReceipt, AdmittedRequest, AttestedAdmission, PeerProvenance,
    RequestV1, WireLimits,
};
use coord_consensus::clock::MonotonicMillis;
use coord_consensus::collector::{
    Collector, CollectorConfig, FanOut, Offered, SubmitRefusal, Submitted,
};
use coord_consensus::delivery::{OfferOutcome, OFFER_CEILING_MILLIS};
use coord_consensus::effects::{EstablishmentEvidence, ReleasedResult};
use coord_consensus::hash::HashDomain;
use coord_consensus::ids::{
    Ballot, ClientInstanceId, ClusterId, CommandId, ConfigurationEpoch, Digest32, DomainId,
    ExecutionPosition, KvRevision, ReplicaId, RequestSequence, RetryKey, SessionId,
};
use coord_consensus::machine::Derived;
use coord_consensus::messages::ProtocolMessage;
use coord_consensus::ordered::set_of;
use coord_consensus::quorum::BallotConfiguration;
use coord_consensus::trace::CollectorEvent;
use coord_consensus::vote::SlowAck;

const LIMITS: WireLimits = WireLimits {
    header: 12,
    api_frame: 4 * 1024 * 1024,
    evidence_frame: 64 * 1024 * 1024,
    watch_frame: 16 * 1024 * 1024,
    result: 16 * 1024 * 1024,
    reason: 256,
    events: 1000,
};

fn fold(mut state: u128, bytes: &[u8]) -> u128 {
    for b in bytes {
        state ^= *b as u128;
        state = state.wrapping_mul(0x0000_0000_0100_0000_0000_0000_0000_013b);
    }
    state
}

fn hash(domain: HashDomain, parts: Vec<Vec<u8>>) -> Digest32 {
    let tag = [match domain {
        HashDomain::DependencyPath => 1u8,
        HashDomain::JournalBatch => 2,
        HashDomain::CommandId => 3,
        HashDomain::AdmissionReceipt => 4,
    }];
    let mut high = fold(0x6c62_272e_07bb_0142_62b8_2175_6295_c58d, &tag);
    let mut low = fold(!high, &tag);
    for p in &parts {
        let n = (p.len() as u64).to_be_bytes();
        high = fold(fold(high, &n), p);
        low = fold(fold(low, &n), p);
    }
    Digest32 { high, low }
}

fn derive(key: RetryKey, logical: Vec<u8>) -> Option<Derived> {
    command_identity(key, logical).map(|command| Derived { command, exact: true })
}

fn command_identity(key: RetryKey, logical: Vec<u8>) -> Option<CommandId> {
    if logical.is_empty() {
        return None;
    }
    Some(CommandId(hash(
        HashDomain::CommandId,
        vec![
            key.session_id.to_bytes(),
            key.client_instance_id.to_bytes(),
            key.request_sequence.0.to_be_bytes().to_vec(),
            logical,
        ],
    )))
}

fn r(i: u8) -> ReplicaId {
    ReplicaId::from_bytes([i; 16])
}

fn ms(millis: u64) -> MonotonicMillis {
    MonotonicMillis::new(millis)
}

fn epoch() -> ConfigurationEpoch {
    ConfigurationEpoch(1)
}

fn ballot() -> Ballot {
    Ballot {
        epoch: epoch(),
        number: 0,
        leader: r(0),
    }
}

fn configuration(voters: Vec<ReplicaId>, fast: Vec<ReplicaId>) -> BallotConfiguration {
    BallotConfiguration::c2(epoch(), ballot(), set_of(&voters), set_of(&fast)).expect("valid")
}

fn quorum(n: u8) -> BallotConfiguration {
    configuration((0..n).map(r).collect(), (0..(n / 2 + 1)).map(r).collect())
}

fn retry_key(seq: u64) -> RetryKey {
    RetryKey {
        cluster_id: ClusterId::from_bytes([1; 16]),
        domain_id: DomainId::from_bytes([2; 16]),
        session_id: SessionId::from_bytes([3; 16]),
        client_instance_id: ClientInstanceId::from_bytes([4; 16]),
        request_sequence: RequestSequence(seq),
    }
}

fn put(k: &[u8], v: &[u8]) -> Vec<u8> {
    let mut logical = vec![1, k.len() as u8];
    logical.extend_from_slice(k);
    logical.push(v.len() as u8);
    logical.extend_from_slice(v);
    logical
}

fn admitted(seq: u64, logical: Vec<u8>) -> (CommandId, AdmittedRequest) {
    let key = retry_key(seq);
    let command = command_identity(key, logical.clone()).expect("canonical");
    (
        command,
        AdmittedRequest {
            receipt: AdmissionReceipt {
                attested: AttestedAdmission {
                    cluster: key.cluster_id,
                    domain: key.domain_id,
                    session: key.session_id,
                    rule_generation: 1,
                    scope_ceiling: u32::MAX,
                    receipt_id: Digest32::from_halves([7; 16], [7; 16]),
                    admitted_at_ticks: 0,
                },
                purpose: AdmissionPurpose::Submit,
                claims: Vec::new(),
            },
            request: Some(RequestV1 {
                retry_key: key,
                logical,
                deadline_ms: 0,
                ack_through: 0,
            }),
        },
    )
}

fn collector(max_pending: usize, max_undelivered_bytes: usize) -> Collector {
    Collector::new(CollectorConfig {
        quorum: quorum(3),
        max_pending,
        max_resolved: 16,
        max_undelivered_bytes,
        limits: LIMITS,
    })
}

fn submit(c: &mut Collector, request: &AdmittedRequest) -> Result<Submitted, SubmitRefusal> {
    c.submit(&hash, &derive, ms(0), request)
}

fn fan_out(c: &mut Collector, seq: u64) -> (CommandId, FanOut) {
    let (command, request) = admitted(seq, put(b"k", b"v"));
    let Submitted::FanOut(plan) = submit(c, &request).expect("admitted") else {
        panic!("a first presentation fans out");
    };
    (command, plan)
}

/// Report one outcome for every target of `plan`.
fn report(c: &mut Collector, now: u64, plan: &FanOut, outcome: OfferOutcome) {
    let outcomes = plan.targets.iter().map(|t| (*t, outcome)).collect();
    c.offered(
        ms(now),
        &Offered {
            command: plan.command,
            outcomes,
        },
    );
}

/// Report `outcome` for one destination and `Queued` for the rest.
fn report_one(c: &mut Collector, now: u64, plan: &FanOut, who: ReplicaId, outcome: OfferOutcome) {
    let outcomes = plan
        .targets
        .iter()
        .map(|t| {
            (
                *t,
                if *t == who {
                    outcome
                } else {
                    OfferOutcome::Queued
                },
            )
        })
        .collect();
    c.offered(
        ms(now),
        &Offered {
            command: plan.command,
            outcomes,
        },
    );
}

fn from(replica: ReplicaId, connection: u64) -> PeerProvenance {
    PeerProvenance {
        from: replica,
        incarnation: 1,
        connection,
    }
}

/// Establish `command` over `voters` and release it.
fn settle(c: &mut Collector, command: CommandId, voters: &[ReplicaId]) {
    for v in voters {
        let message = if *v == ballot().leader {
            ProtocolMessage::LeaderReply {
                ballot: ballot(),
                command,
                seqnum: 1,
                deps: Vec::new(),
                path: Digest32::from_halves([9; 16], [9; 16]),
            }
        } else {
            ProtocolMessage::SlowAck(SlowAck {
                replica: *v,
                ballot: ballot(),
                command,
                admission: c.admission(&command).expect("pending"),
            })
        };
        let _ = c.on_evidence(&hash, from(*v, 1), message);
    }
    let released = ReleasedResult {
        evidence: EstablishmentEvidence {
            command,
            epoch: epoch(),
            ballot: ballot(),
            position: ExecutionPosition(1),
            closed_predecessors: vec![],
            result_digest: Digest32::from_halves([2; 16], [2; 16]),
            revision: Some(KvRevision(1)),
            fast_path: false,
        },
        response: vec![0xaa],
        speculative: true,
    };
    let _ = c.on_release(from(ballot().leader, 1), released);
}

fn undisseminated(c: &Collector) -> usize {
    c.trace()
        .iter()
        .filter(|e| matches!(e, CollectorEvent::Undisseminated { .. }))
        .count()
}

#[test]
fn a_full_queue_costs_that_destination_and_is_offered_again_by_itself() {
    let mut c = collector(8, usize::MAX);
    let (command, plan) = fan_out(&mut c, 1);
    assert_eq!(plan.targets.len(), 3, "every voter is a target");

    // Two took it; one was full. The other two are not re-offered.
    report_one(&mut c, 0, &plan, r(2), OfferOutcome::Saturated);
    assert_eq!(c.undelivered(), 1);

    assert!(c.due_offers(ms(0), 16).is_empty(), "the floor has not passed");

    let due = c.due_offers(ms(1_000), 16);
    assert_eq!(due.len(), 1);
    assert_eq!(due[0].command, command);
    assert_eq!(due[0].targets, vec![r(2)], "only what is still owed");

    // The queue drained, so the obligation ends -- and with it the capacity
    // the envelope was holding.
    report_one(&mut c, 1_000, &due[0], r(2), OfferOutcome::Queued);
    assert_eq!(c.undelivered(), 0);
    assert_eq!(c.undelivered_bytes(), 0);
    assert!(c.due_offers(ms(u64::MAX), 16).is_empty());
}

#[test]
fn an_unreachable_destination_is_offered_again_like_a_busy_one() {
    let mut c = collector(8, usize::MAX);
    let (_, plan) = fan_out(&mut c, 1);
    report_one(&mut c, 0, &plan, r(1), OfferOutcome::Unreachable);
    let due = c.due_offers(ms(1_000), 16);
    assert_eq!(due.len(), 1);
    assert_eq!(due[0].targets, vec![r(1)]);
}

#[test]
fn a_repeat_is_the_same_envelope_and_the_same_identity() {
    let mut c = collector(8, usize::MAX);
    let (command, plan) = fan_out(&mut c, 1);
    report_one(&mut c, 0, &plan, r(2), OfferOutcome::Saturated);
    let due = c.due_offers(ms(1_000), 16);
    assert_eq!(due[0].command, command);
    assert_eq!(due[0].retry_key, plan.retry_key);
    assert_eq!(
        (due[0].frame.kind, due[0].frame.version, &due[0].frame.payload),
        (plan.frame.kind, plan.frame.version, &plan.frame.payload),
        "the repeat is the submission, not a new one"
    );
}

#[test]
fn an_outstanding_offer_is_not_a_free_slot() {
    let mut c = collector(8, usize::MAX);
    let (_, plan) = fan_out(&mut c, 1);
    report_one(&mut c, 0, &plan, r(2), OfferOutcome::Saturated);
    assert_eq!(c.due_offers(ms(1_000), 16).len(), 1);
    assert!(
        c.due_offers(ms(1_001), 16).is_empty(),
        "the answer to the last offer has not come back"
    );
}

#[test]
fn capacity_is_reserved_before_a_single_destination_is_offered() {
    // One command's worth of bytes, and the second command wants its own.
    let (_, probe) = admitted(1, put(b"k", b"v"));
    let mut sizer = collector(64, usize::MAX);
    let Submitted::FanOut(plan) = submit(&mut sizer, &probe).unwrap() else {
        panic!()
    };
    let one = plan.frame.payload.len() + LIMITS.header;

    let mut c = collector(64, one);
    let (_, first) = fan_out(&mut c, 1);
    assert_eq!(c.undelivered_bytes(), one);
    // Nothing has been offered yet, so the first command is still owing
    // every destination and still holding its envelope.
    let (_, second) = admitted(2, put(b"j", b"w"));
    assert!(
        matches!(
            submit(&mut c, &second),
            Err(SubmitRefusal::Backpressure { .. })
        ),
        "the envelope budget refuses before dispatch"
    );

    // Once the first command owes nobody, the capacity is back.
    report(&mut c, 0, &first, OfferOutcome::Queued);
    assert_eq!(c.undelivered_bytes(), 0);
    assert!(matches!(submit(&mut c, &second), Ok(Submitted::FanOut(_))));
}

#[test]
fn saturation_after_dispatch_never_becomes_a_refusal() {
    let mut c = collector(8, usize::MAX);
    let (command, plan) = fan_out(&mut c, 1);
    // Every destination refused: still not a failure.
    report(&mut c, 0, &plan, OfferOutcome::Saturated);
    assert!(c.is_pending(&command));
    assert_eq!(c.undelivered(), 1);

    // A retry of the same request attaches.
    let (_, same) = admitted(1, put(b"k", b"v"));
    assert!(matches!(
        submit(&mut c, &same),
        Ok(Submitted::Attached { .. })
    ));
}

#[test]
fn a_callers_deadline_does_not_discard_the_delivery_obligation() {
    let mut c = collector(8, usize::MAX);
    let (command, request) = admitted(1, put(b"k", b"v"));
    let Submitted::FanOut(plan) = submit(&mut c, &request).unwrap() else {
        panic!()
    };
    report_one(&mut c, 0, &plan, r(2), OfferOutcome::Saturated);

    // The caller goes away.
    c.cancel(&retry_key(1));
    assert!(c.is_pending(&command), "the command keeps collecting");
    assert_eq!(c.undelivered(), 1, "and keeps owing the destination");
    let due = c.due_offers(ms(1_000), 16);
    assert_eq!(due.len(), 1);
    assert_eq!(due[0].targets, vec![r(2)]);
}

#[test]
fn a_settled_command_does_not_wait_for_a_minority_that_never_took_it() {
    let mut c = collector(8, usize::MAX);
    let (command, plan) = fan_out(&mut c, 1);
    // Two voters took it; the third never will.
    report_one(&mut c, 0, &plan, r(2), OfferOutcome::Unreachable);

    settle(&mut c, command, &[r(0), r(1)]);

    assert!(!c.is_pending(&command), "the quorum answered");
    assert_eq!(c.undelivered(), 0, "the obligation retired with it");
    assert_eq!(c.undelivered_bytes(), 0, "and so did its capacity");
    assert!(
        c.due_offers(ms(u64::MAX), 16).is_empty(),
        "a settled command is not offered again"
    );
    assert_eq!(
        undisseminated(&c),
        1,
        "settlement records what was missed"
    );
}

#[test]
fn the_offer_budget_is_spread_across_commands() {
    let mut c = collector(8, usize::MAX);
    for seq in 1..=4 {
        let (_, plan) = fan_out(&mut c, seq);
        report(&mut c, 0, &plan, OfferOutcome::Saturated);
    }
    let mut served: Vec<CommandId> = Vec::new();
    let mut now = 0u64;
    for _ in 0..4 {
        // Far enough forward that every destination is due again.
        now += 10_000;
        let due = c.due_offers(ms(now), 2);
        for plan in &due {
            served.push(plan.command);
            report(&mut c, now, plan, OfferOutcome::Saturated);
        }
    }
    let distinct: BTreeSet<Vec<u8>> = served.iter().map(|s| s.to_bytes()).collect();
    assert_eq!(
        distinct.len(),
        4,
        "every command got a turn, not just the ones at the front: {served:?}"
    );
}

#[test]
fn the_offer_budget_bounds_destinations_and_not_commands() {
    let mut c = collector(8, usize::MAX);
    for seq in 1..=4 {
        let (_, plan) = fan_out(&mut c, seq);
        report(&mut c, 0, &plan, OfferOutcome::Saturated);
    }
    for budget in [0usize, 1, 2, 5, 7] {
        let due = c.due_offers(ms(1_000), budget);
        let destinations: usize = due.iter().map(|d| d.targets.len()).sum();
        assert!(
            destinations <= budget,
            "budget {budget} produced {destinations} destinations"
        );
        // Put them back on the schedule for the next round.
        for plan in &due {
            report(&mut c, 1_000, plan, OfferOutcome::Saturated);
        }
    }
}

#[test]
fn a_destination_that_keeps_refusing_is_asked_less_often() {
    let mut c = collector(8, usize::MAX);
    let (_, plan) = fan_out(&mut c, 1);
    report_one(&mut c, 0, &plan, r(2), OfferOutcome::Saturated);

    let mut now = 0u64;
    let mut waits = Vec::new();
    for _ in 0..6 {
        // Walk time forward to whenever the next offer is due.
        let mut waited = 0u64;
        loop {
            let due = c.due_offers(ms(now), 16);
            if let Some(plan) = due.first() {
                report_one(&mut c, now, plan, r(2), OfferOutcome::Saturated);
                break;
            }
            now += 1;
            waited += 1;
            assert!(waited < 10_000, "the destination stopped being offered");
        }
        waits.push(waited);
    }
    assert!(
        waits.windows(2).all(|w| w[1] >= w[0]),
        "the wait never shortens while it keeps refusing: {waits:?}"
    );
    assert!(
        waits.last().unwrap() > waits.first().unwrap(),
        "and it does grow: {waits:?}"
    );
    assert!(
        *waits.last().unwrap() <= 1_001,
        "the wait is capped: {waits:?}"
    );
}

#[test]
fn a_configuration_disagreement_is_not_retried_as_congestion() {
    for permanent in [
        OfferOutcome::NotACommittedVoter,
        OfferOutcome::Undeliverable,
    ] {
        let mut c = collector(8, usize::MAX);
        let (_, plan) = fan_out(&mut c, 1);
        report_one(&mut c, 0, &plan, r(2), permanent);
        assert!(
            c.due_offers(ms(u64::MAX), 16).is_empty(),
            "{permanent:?} must not enter the congestion loop"
        );
        assert_eq!(
            c.undelivered(),
            0,
            "{permanent:?} is not an outstanding repeat"
        );
    }
}

#[test]
fn a_reconfiguration_reconciles_the_destinations_it_still_owes() {
    let mut c = collector(8, usize::MAX);
    let (_, plan) = fan_out(&mut c, 1);
    report_one(&mut c, 0, &plan, r(2), OfferOutcome::NotACommittedVoter);

    // Five voters now: r(2) is one again, and r(3) and r(4) are new.
    c.reconfigure(quorum(5));

    let due = c.due_offers(ms(0), 16);
    assert_eq!(due.len(), 1);
    let targets: BTreeSet<u128> = due[0].targets.iter().map(|t| t.0).collect();
    assert_eq!(
        targets,
        [r(2).0, r(3).0, r(4).0].into_iter().collect::<BTreeSet<_>>(),
        "the voters that have not taken it, old and new"
    );
}

#[test]
fn a_voter_that_leaves_the_configuration_is_no_longer_a_destination() {
    let mut c = collector(8, usize::MAX);
    let (_, plan) = fan_out(&mut c, 1);
    // r(0) and r(1) took it; r(2) did not, and is about to stop being a
    // voter at all.
    report_one(&mut c, 0, &plan, r(2), OfferOutcome::Saturated);
    assert_eq!(c.undelivered(), 1);
    assert!(c.undelivered_bytes() > 0);

    c.reconfigure(configuration(vec![r(0), r(1)], vec![r(0), r(1)]));

    assert_eq!(c.undelivered(), 0, "nobody is owed the submission now");
    assert_eq!(c.undelivered_bytes(), 0, "so nothing holds its bytes");
    assert!(c.due_offers(ms(u64::MAX), 16).is_empty());
}

#[test]
fn a_late_submission_cannot_be_counted_twice() {
    let mut c = collector(8, usize::MAX);
    let (command, plan) = fan_out(&mut c, 1);
    report_one(&mut c, 0, &plan, r(2), OfferOutcome::Saturated);

    let admission = c.admission(&command).expect("pending");
    let vote = |replica: ReplicaId| {
        ProtocolMessage::SlowAck(SlowAck {
            replica,
            ballot: ballot(),
            command,
            admission,
        })
    };

    // r(1) voted off the leader's proposal, before the submission ever
    // reached it.
    assert!(c.on_evidence(&hash, from(r(1), 1), vote(r(1))).is_ok());

    // The repeat lands, and r(1) answers it too, on another connection.
    assert!(
        c.on_evidence(&hash, from(r(1), 2), vote(r(1))).is_err(),
        "the same voter's second answer is a duplicate, not a second vote"
    );

    // And the command is still one command.
    assert!(c.is_pending(&command));
    let (_, same) = admitted(1, put(b"k", b"v"));
    assert!(matches!(
        submit(&mut c, &same),
        Ok(Submitted::Attached { .. })
    ));
}

#[test]
fn the_repeat_schedule_is_something_a_voters_hold_must_outlast() {
    assert!(
        (100..=5_000).contains(&OFFER_CEILING_MILLIS),
        "a ceiling outside this range makes the derived hold wrong at one end or the other"
    );
}

#[test]
fn a_voter_joining_after_the_envelope_was_released_is_not_left_owed() {
    let mut c = collector(8, usize::MAX);
    let (command, plan) = fan_out(&mut c, 1);
    report(&mut c, 0, &plan, OfferOutcome::Queued);
    assert_eq!(
        c.undelivered_bytes(),
        0,
        "nobody is owed, so nothing is held"
    );

    c.reconfigure(quorum(5));

    assert!(
        c.due_offers(ms(u64::MAX), 16).is_empty(),
        "there is no envelope to offer the new voters"
    );
    assert_eq!(
        c.undelivered(),
        0,
        "and they are not counted as an outstanding repeat"
    );
    // Recorded rather than forgotten: settlement says who missed it.
    settle(&mut c, command, &[r(0), r(1), r(2)]);
    assert_eq!(
        undisseminated(&c),
        1,
        "the voters that joined too late are reported"
    );
}

#[test]
fn the_next_due_reading_is_the_earliest_repeat() {
    let mut c = collector(8, usize::MAX);
    assert!(c.next_due().is_none());
    let (_, first) = fan_out(&mut c, 1);
    let (_, second) = fan_out(&mut c, 2);
    assert!(c.next_due().is_none(), "nothing is scheduled before an answer");
    report(&mut c, 100, &first, OfferOutcome::Saturated);
    report(&mut c, 40, &second, OfferOutcome::Unreachable);
    assert_eq!(c.next_due().map(|m| m.get()), Some(65));
    report(&mut c, 70, &second, OfferOutcome::Saturated);
    assert_eq!(c.next_due().map(|m| m.get()), Some(120), "fifty after the second miss");
}

#[test]
fn the_byte_budget_is_the_sum_of_what_is_owed() {
    let mut c = collector(8, usize::MAX);
    let (_, first) = fan_out(&mut c, 1);
    let (_, second) = fan_out(&mut c, 2);
    let size = |p: &FanOut| p.frame.payload.len() + LIMITS.header;
    assert_eq!(c.undelivered_bytes(), size(&first) + size(&second));
    report(&mut c, 0, &first, OfferOutcome::Queued);
    assert_eq!(c.undelivered_bytes(), size(&second));
}

#[test]
fn a_record_completes_a_half_and_gives_its_bytes_back() {
    let mut c = collector(8, usize::MAX);
    let (command, _) = fan_out(&mut c, 1);
    let digest = Digest32::from_halves([2; 16], [2; 16]);
    assert!(c
        .settle_from_record(command, digest, None, &vec![1])
        .is_err());
    for v in [r(0), r(1)] {
        let message = if v == r(0) {
            ProtocolMessage::LeaderReply {
                ballot: ballot(),
                command,
                seqnum: 1,
                deps: Vec::new(),
                path: digest,
            }
        } else {
            ProtocolMessage::SlowAck(SlowAck {
                replica: v,
                ballot: ballot(),
                command,
                admission: c.admission(&command).expect("pending"),
            })
        };
        assert!(c.on_evidence(&hash, from(v, 1), message).is_ok());
    }
    assert_eq!(c.half_established(), vec![(command, retry_key(1))]);
    assert!(c
        .settle_from_record(command, digest, Some(KvRevision(4)), &vec![1])
        .is_ok());
    assert!(!c.is_pending(&command));
    assert_eq!(c.undelivered_bytes(), 0);
    assert_eq!(undisseminated(&c), 1);
}

#[test]
fn a_free_slot_is_enough_under_the_budget_of_its_bound() {
    let (_, probe) = admitted(1, put(b"k", b"v"));
    let mut measure = collector(1, usize::MAX);
    assert!(submit(&mut measure, &probe).is_ok());
    let envelope = measure.undelivered_bytes();
    let mut c = collector(3, envelope * 3);
    for seq in 1..=3 {
        fan_out(&mut c, seq);
    }
    let (_, more) = admitted(4, put(b"k", b"v"));
    assert!(matches!(
        submit(&mut c, &more),
        Err(SubmitRefusal::Backpressure { .. })
    ));
}

#[test]
fn repeats_of_one_destination_are_spaced() {
    let mut c = collector(8, usize::MAX);
    let (command, plan) = fan_out(&mut c, 1);
    report(&mut c, 0, &plan, OfferOutcome::Saturated);
    let mut at = 0;
    let mut offers = Vec::new();
    for _ in 0..6 {
        let due = c.next_due().expect("owed").get();
        assert!(c.due_offers(ms(due - 1), 16).is_empty(), "not before it is due");
        let round = c.due_offers(ms(due), 16);
        assert_eq!(round.len(), 1);
        assert_eq!(round[0].command, command);
        assert_eq!(round[0].targets, vec![r(0), r(1), r(2)], "each once, in order");
        assert!(c.due_offers(ms(due), 16).is_empty(), "not again in the same reading");
        offers.push(due - at);
        at = due;
        report(&mut c, at, &round[0], OfferOutcome::Saturated);
    }
    assert!(offers.windows(2).all(|w| w[0] <= w[1]), "the gaps do not shrink: {offers:?}");
}

#[test]
fn a_cancelled_caller_is_not_told_until_it_asks_again() {
    for asks_again in [false, true] {
        let mut c = collector(8, usize::MAX);
        let (command, _) = fan_out(&mut c, 1);
        assert_eq!(c.cancel(&retry_key(1)), Some(command));
        assert!(c.is_pending(&command), "the work goes on");
        if asks_again {
            let (_, same) = admitted(1, put(b"k", b"v"));
            assert!(matches!(submit(&mut c, &same), Ok(Submitted::Attached { .. })));
        }
        settle(&mut c, command, &[r(0), r(1), r(2)]);
        assert!(!c.is_pending(&command));
        let told = c.trace().iter().any(|e| {
            matches!(e, CollectorEvent::Released { delivered: true, .. })
        });
        assert_eq!(told, asks_again);
    }
}

#[test]
fn strangers_answers_change_nothing() {
    let mut c = collector(8, usize::MAX);
    let (command, _) = fan_out(&mut c, 1);
    let before = c.undelivered_bytes();
    c.offered(
        ms(0),
        &Offered {
            command,
            outcomes: vec![(r(9), OfferOutcome::Queued), (r(9), OfferOutcome::Saturated)],
        },
    );
    assert_eq!(c.undelivered_bytes(), before);
    assert!(c.next_due().is_none());
}
