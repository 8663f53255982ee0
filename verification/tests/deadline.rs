//! Request deadlines on the collector boundary's own clock: a deadline is
//! measured on the monotonic reading the caller supplies, at millisecond
//! resolution, and the wall clock the admission gate stamps a receipt with
//! has no say in it.

use coord_consensus::admission::{Admission, AdmissionLimits, Caller};
use coord_consensus::client::{
    AdmissionPurpose, AdmissionReceipt, AdmittedRequest, AttestedAdmission, OutcomeV1, PeerRole,
    RequestV1, WireLimits,
};
use coord_consensus::clock::MonotonicMillis;
use coord_consensus::collector::{Collector, CollectorConfig, Offered, Submitted};
use coord_consensus::delivery::OfferOutcome;
use coord_consensus::dispatch::{Action, ClientMessage, Dispatcher, ServerMessage};
use coord_consensus::hash::HashDomain;
use coord_consensus::ids::{
    Ballot, ClientInstanceId, ClusterId, CommandId, ConfigurationEpoch, Digest32, DomainId,
    ReplicaId, RequestSequence, RetryKey, SessionId,
};
use coord_consensus::machine::Derived;
use coord_consensus::ordered::set_of;
use coord_consensus::quorum::BallotConfiguration;

const LIMITS: WireLimits = WireLimits {
    header: 12,
    api_frame: 4 * 1024 * 1024,
    evidence_frame: 64 * 1024 * 1024,
    watch_frame: 16 * 1024 * 1024,
    result: 16 * 1024 * 1024,
    reason: 256,
    events: 1000,
};

/// A wall-clock reading, Unix seconds: what the admission gate takes.
const WALL: u64 = 1_700_000_000;

/// The kind a request frame carries.
const REQUEST: u16 = 0x0100;

fn fold(mut state: u128, bytes: &[u8]) -> u128 {
    for b in bytes {
        state ^= *b as u128;
        state = state.wrapping_mul(0x0000_0000_0100_0000_0000_0000_0000_013b);
    }
    state
}

fn hash(domain: HashDomain, parts: Vec<Vec<u8>>) -> Digest32 {
    let tag = [match domain {
        HashDomain::DependencyPath => 1u8,
        HashDomain::JournalBatch => 2,
        HashDomain::CommandId => 3,
        HashDomain::AdmissionReceipt => 4,
    }];
    let mut high = fold(0x6c62_272e_07bb_0142_62b8_2175_6295_c58d, &tag);
    let mut low = fold(!high, &tag);
    for p in &parts {
        let n = (p.len() as u64).to_be_bytes();
        high = fold(fold(high, &n), p);
        low = fold(fold(low, &n), p);
    }
    Digest32 { high, low }
}

fn derive(key: RetryKey, logical: Vec<u8>) -> Option<Derived> {
    command_identity(key, logical).map(|command| Derived { command, exact: true })
}

fn command_identity(key: RetryKey, logical: Vec<u8>) -> Option<CommandId> {
    if logical.is_empty() {
        return None;
    }
    Some(CommandId(hash(
        HashDomain::CommandId,
        vec![
            key.session_id.to_bytes(),
            key.client_instance_id.to_bytes(),
            key.request_sequence.0.to_be_bytes().to_vec(),
            logical,
        ],
    )))
}

fn cluster() -> ClusterId {
    ClusterId::from_bytes([1; 16])
}

fn domain() -> DomainId {
    DomainId::from_bytes([2; 16])
}

fn session() -> SessionId {
    SessionId::from_bytes([3; 16])
}

fn r(i: u8) -> ReplicaId {
    ReplicaId::from_bytes([i; 16])
}

fn quorum() -> BallotConfiguration {
    let epoch = ConfigurationEpoch(1);
    BallotConfiguration::c2(
        epoch,
        Ballot {
            epoch,
            number: 0,
            leader: r(0),
        },
        set_of(&vec![r(0), r(1), r(2)]),
        set_of(&vec![r(0), r(1)]),
    )
    .unwrap()
}

fn collector() -> Collector {
    Collector::new(CollectorConfig {
        quorum: quorum(),
        max_pending: 16,
        max_resolved: 16,
        max_undelivered_bytes: usize::MAX,
        limits: LIMITS,
    })
}

fn dispatcher() -> Dispatcher {
    Dispatcher::new(
        Admission::new(cluster(), domain(), AdmissionLimits::for_requests(1 << 20)),
        collector(),
        16,
        LIMITS,
    )
}

fn caller() -> Caller {
    Caller {
        role: PeerRole::Client,
        session: session(),
        rule_generation: 1,
        scope_ceiling: u32::MAX,
    }
}

fn retry_key(seq: u64) -> RetryKey {
    RetryKey {
        cluster_id: cluster(),
        domain_id: domain(),
        session_id: session(),
        client_instance_id: ClientInstanceId::from_bytes([4; 16]),
        request_sequence: RequestSequence(seq),
    }
}

fn request(seq: u64, deadline_ms: u32) -> (CommandId, RequestV1) {
    let logical = format!("put k{seq} v").into_bytes();
    let key = retry_key(seq);
    let command = command_identity(key, logical.clone()).unwrap();
    (
        command,
        RequestV1 {
            retry_key: key,
            logical,
            deadline_ms,
            ack_through: 0,
        },
    )
}

/// The request as the admission gate hands it to the collector.
fn admitted(seq: u64, deadline_ms: u32) -> (CommandId, AdmittedRequest) {
    let (command, request) = request(seq, deadline_ms);
    let admitted = AdmittedRequest {
        receipt: AdmissionReceipt {
            attested: AttestedAdmission {
                cluster: cluster(),
                domain: domain(),
                session: session(),
                rule_generation: 1,
                scope_ceiling: u32::MAX,
                receipt_id: Digest32::from_halves([7; 16], [7; 16]),
                admitted_at_ticks: 0,
            },
            purpose: AdmissionPurpose::Submit,
            claims: Vec::new(),
        },
        request: Some(request),
    };
    (command, admitted)
}

fn submit(c: &mut Collector, now: u64, request: &AdmittedRequest) -> Submitted {
    c.submit(&hash, &derive, ms(now), request).expect("admitted")
}

fn present(d: &mut Dispatcher, wall: u64, now: u64, request: RequestV1) -> Action {
    let cost = Some(request.logical.len());
    d.on_frame(
        &hash,
        &derive,
        wall,
        ms(now),
        1,
        &caller(),
        REQUEST,
        Some(ClientMessage::Request { request, cost }),
    )
}

fn ms(millis: u64) -> MonotonicMillis {
    MonotonicMillis::new(millis)
}

#[test]
fn a_1500_ms_deadline_expires_at_1500_ms_and_not_before() {
    let mut c = collector();
    let (command, request) = admitted(1, 1_500);
    submit(&mut c, 0, &request);

    assert!(
        c.expire(ms(1_499)).is_empty(),
        "expired before its deadline"
    );
    let expired = c.expire(ms(1_500));
    assert_eq!(expired.len(), 1);
    assert_eq!(expired[0].command, command);
    assert_eq!(expired[0].retry_key, retry_key(1));
    // Reported once; still pending, resolvable by identity.
    assert!(c.expire(ms(10_000)).is_empty());
    assert!(c.is_pending(&command));
}

#[test]
fn a_deadline_is_measured_from_the_presentation() {
    let mut c = collector();
    let (_, request) = admitted(1, 1_500);
    submit(&mut c, 40_000, &request);

    assert!(c.expire(ms(41_499)).is_empty());
    assert_eq!(c.expire(ms(41_500)).len(), 1);
}

#[test]
fn a_subsecond_deadline_works_at_millisecond_resolution() {
    let mut c = collector();
    let (_, request) = admitted(1, 250);
    submit(&mut c, 0, &request);

    assert!(c.expire(ms(249)).is_empty());
    assert_eq!(c.expire(ms(250)).len(), 1);
}

#[test]
fn a_zero_deadline_never_expires() {
    let mut c = collector();
    let (command, request) = admitted(1, 0);
    submit(&mut c, 0, &request);

    assert!(c.expire(ms(u64::MAX)).is_empty());
    assert!(c.is_pending(&command));
}

#[test]
fn a_retry_restarts_the_deadline_from_its_own_presentation() {
    let mut c = collector();
    let (_, request) = admitted(1, 1_000);
    submit(&mut c, 0, &request);
    // Presented again at 800 ms with the same deadline: due at 1,800.
    submit(&mut c, 800, &request);

    assert!(
        c.expire(ms(1_000)).is_empty(),
        "the first presentation's deadline still counted"
    );
    assert!(c.expire(ms(1_799)).is_empty());
    assert_eq!(c.expire(ms(1_800)).len(), 1);
}

#[test]
fn a_wall_clock_jump_with_no_monotonic_progress_expires_nothing() {
    let mut d = dispatcher();
    let (c1, first) = request(1, 1_500);
    let Action::FanOut(_) = present(&mut d, WALL, 0, first) else {
        panic!("not fanned out");
    };

    // A day later by the wall, ten milliseconds later by the loop.
    let (c2, second) = request(2, 1_500);
    let Action::FanOut(_) = present(&mut d, WALL + 86_400, 10, second) else {
        panic!("not fanned out");
    };
    assert!(
        d.expire(ms(10)).is_empty(),
        "a wall-clock step expired a request whose local time had not run"
    );
    assert!(d.collector().is_pending(&c1));
    assert!(d.collector().is_pending(&c2));

    // Local time runs: the first expires at its 1,500 ms, the second at its
    // own.
    let expired = d.expire(ms(1_500));
    assert_eq!(expired.len(), 1);
    assert_eq!(expired[0].retry_key, retry_key(1));
    let response = match &expired[0].message {
        ServerMessage::Response(r) => r,
        other => panic!("not a response: {other:?}"),
    };
    assert_eq!(response.command_id, c1);
    assert!(matches!(response.outcome, OutcomeV1::Pending));
    assert_eq!(d.expire(ms(1_509)).len(), 0);
    assert_eq!(d.expire(ms(1_510)).len(), 1);
    // Expiration reports and retains: the commands stay pending.
    assert!(d.collector().is_pending(&c1));
    assert!(d.collector().is_pending(&c2));
}

#[test]
fn repeats_and_deadlines_share_one_time_base() {
    let mut c = collector();
    let (command, request) = admitted(1, 30);
    let Submitted::FanOut(plan) = submit(&mut c, 0, &request) else {
        panic!("not fanned out");
    };
    c.offered(
        ms(0),
        &Offered {
            command,
            outcomes: plan
                .targets
                .iter()
                .map(|t| (*t, OfferOutcome::Saturated))
                .collect(),
        },
    );
    // The first repeat waits the 25 ms floor; the deadline is 30 ms.
    assert!(c.due_offers(ms(24), 16).is_empty());
    assert!(c.expire(ms(24)).is_empty());
    assert_eq!(c.due_offers(ms(25), 16).len(), 1);
    assert!(c.expire(ms(29)).is_empty());
    assert_eq!(c.expire(ms(30)).len(), 1);
    // The obligation to offer outlives the caller's deadline.
    assert!(c.is_pending(&command));
}
