//! The edges of the frontend: every refusal, every bound, and what the trace
//! and the wire show of them.

use coord_consensus::admission::{Admission, AdmissionLimits, AdmissionRefusal, Caller};
use coord_consensus::client::{
    AdmissionPurpose, AdmissionReceipt, AttestedAdmission, ErrorCode, Frame, OutcomeV1, PeerRole,
    RequestV1, ResolveRequestV1, WireLimits,
};
use coord_consensus::clock::MonotonicMillis;
use coord_consensus::codes::{error_response, pending_response, unknown_response};
use coord_consensus::collector::{Collector, CollectorConfig};
use coord_consensus::delivery::{
    backoff_millis, deadline, undelivered_budget, OfferOutcome, OFFER_CEILING_MILLIS,
    SUBMIT_ENVELOPE_ALLOWANCE,
};
use coord_consensus::dispatch::{
    command_of, Action, ClientMessage, Dispatcher, NamespaceId, ServerMessage, WatchId, WatchOpenV1,
};
use coord_consensus::hash::HashDomain;
use coord_consensus::ids::{
    Ballot, ClientInstanceId, ClusterId, CommandId, ConfigurationEpoch, Digest32, DomainId,
    KvRevision, ReplicaId, RequestSequence, RetryKey, SessionId,
};
use coord_consensus::ingress::{admitted_from_submit, is_collector, IngressError};
use coord_consensus::machine::Derived;
use coord_consensus::messages::ProtocolMessage;
use coord_consensus::ordered::set_of;
use coord_consensus::quorum::BallotConfiguration;
use coord_consensus::trace::{hex, replica_hex};
use coord_consensus::watch::{CloseReason, WatchBatch, WatchCloseReasonV1, WatchItem};
use coord_consensus::wire::{
    decode_evidence, decode_submit, evidence_frame, evidence_frame_from_bytes, submit_frame,
    CollectorWireError, SubmitV1, KIND_EVIDENCE, KIND_SUBMIT, VERSION,
};

const LIMITS: WireLimits = WireLimits {
    header: 12,
    api_frame: 4 * 1024 * 1024,
    evidence_frame: 64 * 1024 * 1024,
    watch_frame: 16 * 1024 * 1024,
    result: 16 * 1024 * 1024,
    reason: 8,
    events: 1000,
};

fn hash(domain: HashDomain, parts: Vec<Vec<u8>>) -> Digest32 {
    let mut high: u128 = match domain {
        HashDomain::DependencyPath => 1,
        HashDomain::JournalBatch => 2,
        HashDomain::CommandId => 3,
        HashDomain::AdmissionReceipt => 4,
    };
    for p in &parts {
        for b in (p.len() as u64).to_be_bytes().iter().chain(p) {
            high = (high ^ *b as u128).wrapping_mul(0x0000_0000_0100_0000_0000_0000_0000_013b);
        }
    }
    Digest32 { high, low: !high }
}

fn derive(key: RetryKey, logical: Vec<u8>) -> Option<Derived> {
    command_identity(key, logical).map(|command| Derived { command, exact: true })
}

fn command_identity(key: RetryKey, logical: Vec<u8>) -> Option<CommandId> {
    if logical.is_empty() {
        return None;
    }
    Some(CommandId(hash(
        HashDomain::CommandId,
        vec![key.request_sequence.0.to_be_bytes().to_vec(), logical],
    )))
}

fn cluster() -> ClusterId {
    ClusterId::from_bytes([1; 16])
}

fn domain() -> DomainId {
    DomainId::from_bytes([2; 16])
}

fn session() -> SessionId {
    SessionId::from_bytes([3; 16])
}

fn r(i: u8) -> ReplicaId {
    ReplicaId::from_bytes([i; 16])
}

fn key(seq: u64) -> RetryKey {
    RetryKey {
        cluster_id: cluster(),
        domain_id: domain(),
        session_id: session(),
        client_instance_id: ClientInstanceId::from_bytes([4; 16]),
        request_sequence: RequestSequence(seq),
    }
}

fn request(key: RetryKey) -> RequestV1 {
    RequestV1 {
        retry_key: key,
        logical: vec![1, 2, 3],
        deadline_ms: 0,
        ack_through: 0,
    }
}

fn caller() -> Caller {
    Caller {
        role: PeerRole::Client,
        session: session(),
        rule_generation: 1,
        scope_ceiling: 9,
    }
}

fn collector() -> Collector {
    let epoch = ConfigurationEpoch(1);
    Collector::new(CollectorConfig {
        quorum: BallotConfiguration::c2(
            epoch,
            Ballot {
                epoch,
                number: 0,
                leader: r(0),
            },
            set_of(&vec![r(0), r(1), r(2)]),
            set_of(&vec![r(0), r(1)]),
        )
        .unwrap(),
        max_pending: 4,
        max_resolved: 4,
        max_undelivered_bytes: usize::MAX,
        limits: LIMITS,
    })
}

fn dispatcher() -> Dispatcher {
    Dispatcher::new(
        Admission::new(cluster(), domain(), AdmissionLimits::for_requests(64)),
        collector(),
        16,
        LIMITS,
    )
}

fn present(d: &mut Dispatcher, connection: u64, message: Option<ClientMessage>) -> Action {
    d.on_frame(
        &hash,
        &derive,
        7,
        MonotonicMillis::new(0),
        connection,
        &caller(),
        0x0100,
        message,
    )
}

fn refused(action: Action) -> (ErrorCode, Vec<u8>, CommandId) {
    match action {
        Action::Respond(d) => match d.message {
            ServerMessage::Response(r) => match r.outcome {
                OutcomeV1::Refused { code, detail } => (code, detail, r.command_id),
                other => panic!("{other:?}"),
            },
            other => panic!("{other:?}"),
        },
        _ => panic!("not a response"),
    }
}

#[test]
fn every_admission_refusal_has_its_input() {
    let mut gate = Admission::new(
        cluster(),
        domain(),
        AdmissionLimits {
            max_pending_per_session: 1,
            max_request_bytes: 10,
        },
    );
    let mut take = |c: Caller, k: RetryKey, cost: Option<usize>| {
        gate.admit_request(&hash, 7, &c, &request(k), cost).err()
    };
    let voter = Caller {
        role: PeerRole::Voter,
        ..caller()
    };
    assert_eq!(
        take(voter, key(1), Some(3)),
        Some(AdmissionRefusal::RoleNotAdmitted(PeerRole::Voter))
    );
    assert_eq!(take(caller(), key(1), None), Some(AdmissionRefusal::Malformed));
    assert_eq!(
        take(caller(), key(1), Some(11)),
        Some(AdmissionRefusal::RequestTooLarge { bytes: 11, limit: 10 })
    );
    let elsewhere = RetryKey {
        cluster_id: ClusterId::from_bytes([9; 16]),
        ..key(1)
    };
    assert_eq!(
        take(caller(), elsewhere, Some(3)),
        Some(AdmissionRefusal::WrongCluster)
    );
    let elsewhere = RetryKey {
        domain_id: DomainId::from_bytes([9; 16]),
        ..key(1)
    };
    assert_eq!(
        take(caller(), elsewhere, Some(3)),
        Some(AdmissionRefusal::WrongDomain)
    );
    let another = RetryKey {
        session_id: SessionId::from_bytes([9; 16]),
        ..key(1)
    };
    assert_eq!(
        take(caller(), another, Some(3)),
        Some(AdmissionRefusal::SessionMismatch)
    );
    assert_eq!(take(caller(), key(1), Some(10)), None);
    assert_eq!(
        take(caller(), key(2), Some(3)),
        Some(AdmissionRefusal::SessionBusy { pending: 1 })
    );
}

#[test]
fn a_receipt_names_what_it_was_minted_for() {
    let mut gate = Admission::new(cluster(), domain(), AdmissionLimits::for_requests(64));
    let a = gate
        .admit_request(&hash, 7, &caller(), &request(key(1)), Some(3))
        .unwrap();
    let b = gate
        .admit_request(&hash, 7, &caller(), &request(key(1)), Some(3))
        .unwrap();
    let attested = &a.request.receipt.attested;
    assert_eq!(attested.session, session());
    assert_eq!((attested.rule_generation, attested.scope_ceiling), (1, 9));
    assert_eq!(attested.admitted_at_ticks, 7);
    assert_eq!(a.request.receipt.purpose, AdmissionPurpose::Submit);
    assert_ne!(
        attested.receipt_id, b.request.receipt.attested.receipt_id,
        "each presentation has its own receipt"
    );
}

#[test]
fn refusals_name_the_invocation_with_a_bounded_detail() {
    let mut d = dispatcher();
    let big = ClientMessage::Request {
        request: request(key(1)),
        cost: Some(65),
    };
    let (code, detail, command) = refused(present(&mut d, 1, Some(big)));
    assert_eq!(code, ErrorCode::NotAdmitted);
    assert_eq!(detail, b"request ".to_vec(), "eight bytes of the detail");
    assert_eq!(command, command_of(&hash, &key(1)));
    let broken = ClientMessage::Request {
        request: request(key(1)),
        cost: None,
    };
    assert_eq!(
        refused(present(&mut d, 1, Some(broken))).0,
        ErrorCode::MalformedRequest
    );
    let empty = ClientMessage::Request {
        request: RequestV1 {
            logical: vec![],
            ..request(key(1))
        },
        cost: Some(0),
    };
    assert_eq!(
        refused(present(&mut d, 1, Some(empty))).0,
        ErrorCode::MalformedRequest,
        "no identity derives"
    );
    assert_eq!(d.admission().pending(&session()), 0, "its slot went back");
    assert!(matches!(
        present(&mut d, 1, None),
        Action::Violation {
            connection: 1,
            kind: 0x0100
        }
    ));
}

#[test]
fn another_session_learns_nothing() {
    let mut d = dispatcher();
    let ask = ResolveRequestV1 {
        retry_key: RetryKey {
            session_id: SessionId::from_bytes([9; 16]),
            ..key(1)
        },
        command_id: CommandId(hash(HashDomain::CommandId, vec![])),
    };
    let (code, _, command) = refused(present(&mut d, 1, Some(ClientMessage::ResolveRequest(ask))));
    assert_eq!(code, ErrorCode::NotAdmitted);
    assert_eq!(command, ask.command_id);
}

#[test]
fn responses_without_a_result_say_only_that() {
    let command = CommandId(hash(HashDomain::CommandId, vec![]));
    assert!(matches!(pending_response(command).outcome, OutcomeV1::Pending));
    assert!(matches!(unknown_response(command).outcome, OutcomeV1::Unknown));
    let error = error_response(&LIMITS, command, ErrorCode::Backpressure, "abc");
    assert!(matches!(
        error.outcome,
        OutcomeV1::Refused { code: ErrorCode::Backpressure, detail } if detail == b"abc"
    ));
}

#[test]
fn an_unframable_revision_closes_the_watch_at_the_one_before() {
    let limits = WireLimits {
        watch_frame: 64 * 1024 + 1,
        ..LIMITS
    };
    let mut d = Dispatcher::new(
        Admission::new(cluster(), domain(), AdmissionLimits::for_requests(64)),
        collector(),
        16,
        limits,
    );
    let open = |id| {
        ClientMessage::WatchOpen(WatchOpenV1 {
            watch_id: id,
            namespace: NamespaceId(5),
            key: vec![1],
            range_end: Some(vec![2]),
            start_revision: None,
            prev_kv: false,
            progress_notify: true,
        })
    };
    assert!(matches!(
        present(&mut d, 1, Some(open(4))),
        Action::RegisterWatch { watch_id: 4, .. }
    ));
    assert!(matches!(
        d.watch_registered(1, 4, Ok(WatchId(8))),
        Action::WatchOpened { .. }
    ));
    assert!(
        matches!(
            present(&mut d, 1, Some(open(4))),
            Action::Violation { connection: 1, .. }
        ),
        "one identifier, one watch"
    );
    match d.watch_registered(1, 5, Err(CloseReason::Compacted)) {
        Action::Respond(d) => assert!(matches!(
            d.message,
            ServerMessage::WatchClose(c)
                if c.watch_id == 5 && c.reason == WatchCloseReasonV1::Compacted
        )),
        _ => panic!("not a response"),
    }
    let items = vec![
        WatchItem::Progress(KvRevision(6)),
        WatchItem::Batch(WatchBatch {
            revision: KvRevision(7),
            events: vec![coord_consensus::watch::KvEvent {
                kind: coord_consensus::watch::KvEventKind::Put,
                key: vec![1],
                entry: None,
                prev: None,
            }],
        }),
        WatchItem::Progress(KvRevision(9)),
    ];
    let sent = d.pump_watch(1, 4, &items);
    assert_eq!(sent.len(), 2);
    assert!(matches!(
        sent[1],
        ServerMessage::WatchClose(c)
            if c.reason == WatchCloseReasonV1::SourceLost
                && c.last_complete_revision == Some(KvRevision(6))
    ));
    assert!(d.watch(1, 4).is_none());
}

#[test]
fn a_closed_connection_hands_out_its_watches_only() {
    let mut d = dispatcher();
    d.watch_registered(1, 4, Ok(WatchId(8)));
    d.watch_registered(1, 5, Ok(WatchId(9)));
    d.watch_registered(2, 4, Ok(WatchId(10)));
    let (cancelled, dropped) = d.on_connection_closed(1);
    assert!(cancelled.is_empty());
    assert_eq!(dropped, vec![WatchId(8), WatchId(9)]);
    assert_eq!(d.cancel_watch(2, 4), Some(WatchId(10)));
    assert_eq!(d.cancel_watch(2, 4), None);
}

#[test]
fn only_collectors_submit_and_only_for_this_domain() {
    for (role, may) in [
        (PeerRole::Voter, false),
        (PeerRole::Observer, false),
        (PeerRole::Client, false),
        (PeerRole::Frontend, true),
        (PeerRole::KineCollector, true),
    ] {
        assert_eq!(is_collector(role), may);
    }
    let submit = |purpose| {
        submit_frame(
            &LIMITS,
            &SubmitV1 {
                receipt: AdmissionReceipt {
                    attested: AttestedAdmission {
                        cluster: cluster(),
                        domain: domain(),
                        session: session(),
                        rule_generation: 1,
                        scope_ceiling: 2,
                        receipt_id: hash(HashDomain::CommandId, vec![]),
                        admitted_at_ticks: 3,
                    },
                    purpose,
                    claims: vec![],
                },
                request: request(key(1)),
            },
        )
        .unwrap()
    };
    let frame = submit(AdmissionPurpose::Submit);
    assert_eq!((frame.kind, frame.version), (KIND_SUBMIT, VERSION));
    let establish = submit(AdmissionPurpose::Establish);
    let enter = |f: &Frame, role, issues, c: ClusterId| {
        admitted_from_submit(role, issues, f, c, domain()).err()
    };
    assert_eq!(enter(&frame, PeerRole::Frontend, false, cluster()), None);
    assert_eq!(
        enter(&frame, PeerRole::Client, true, cluster()),
        Some(IngressError::RoleNotAuthorized(PeerRole::Client))
    );
    assert_eq!(
        enter(&establish, PeerRole::Frontend, false, cluster()),
        Some(IngressError::NotASessionIssuer(PeerRole::Frontend))
    );
    assert_eq!(enter(&establish, PeerRole::Frontend, true, cluster()), None);
    assert!(matches!(
        enter(&frame, PeerRole::Frontend, false, ClusterId::from_bytes([8; 16])),
        Some(IngressError::WrongOrigin { .. })
    ));
    let mut wrong = submit(AdmissionPurpose::Submit);
    wrong.kind = KIND_EVIDENCE;
    assert!(matches!(
        enter(&wrong, PeerRole::Frontend, false, cluster()),
        Some(IngressError::Wire(CollectorWireError::UnexpectedKind { .. }))
    ));
    wrong.kind = KIND_SUBMIT;
    wrong.version = 2;
    assert!(matches!(
        decode_submit(&wrong),
        Err(CollectorWireError::UnsupportedVersion { version: 2 })
    ));
    wrong.version = VERSION;
    wrong.payload.push(0);
    assert!(matches!(
        decode_submit(&wrong),
        Err(CollectorWireError::Trailing)
    ));
    wrong.payload.truncate(5);
    assert!(matches!(
        decode_submit(&wrong),
        Err(CollectorWireError::Malformed)
    ));
}

#[test]
fn evidence_is_framed_as_it_was_published() {
    let message = ProtocolMessage::NewLeader {
        ballot: Ballot {
            epoch: ConfigurationEpoch(1),
            number: 2,
            leader: r(1),
        },
    };
    let framed = evidence_frame(&LIMITS, &message).unwrap();
    let from_bytes = evidence_frame_from_bytes(&LIMITS, &message.encode()).unwrap();
    assert_eq!(framed.payload, from_bytes.payload);
    assert!(matches!(
        decode_evidence(&framed),
        Ok(ProtocolMessage::NewLeader { ballot }) if ballot.number == 2
    ));
    let small = WireLimits {
        evidence_frame: 20,
        ..LIMITS
    };
    assert!(matches!(
        evidence_frame_from_bytes(&small, &[0; 9]),
        Err(CollectorWireError::TooLarge)
    ));
    assert!(evidence_frame_from_bytes(&small, &[0; 8]).is_ok());
}

#[test]
fn the_repeat_schedule_doubles_to_its_ceiling() {
    let waits: Vec<u64> = (1..=9).map(backoff_millis).collect();
    assert_eq!(waits, vec![25, 50, 100, 200, 400, 800, 1000, 1000, 1000]);
    assert_eq!(backoff_millis(u32::MAX), OFFER_CEILING_MILLIS);
    assert!(OfferOutcome::Saturated.worth_repeating());
    assert!(OfferOutcome::Unreachable.worth_repeating());
    assert!(!OfferOutcome::Queued.worth_repeating());
    assert!(!OfferOutcome::NotACommittedVoter.worth_repeating());
    assert!(!OfferOutcome::Undeliverable.worth_repeating());
}

#[test]
fn budgets_and_deadlines_saturate() {
    assert_eq!(undelivered_budget(2, 100), 2 * (100 + SUBMIT_ENVELOPE_ALLOWANCE));
    assert_eq!(undelivered_budget(1, usize::MAX), usize::MAX);
    assert_eq!(undelivered_budget(usize::MAX, 2), usize::MAX);
    let end = MonotonicMillis::new(u64::MAX);
    assert_eq!(deadline(end, 5).map(|m| m.get()), Some(u64::MAX));
    assert_eq!(deadline(MonotonicMillis::new(3), 5).map(|m| m.get()), Some(8));
    assert!(deadline(end, 0).is_none());
    assert_eq!(end.plus(1).get(), u64::MAX);
}

#[test]
fn identities_are_lowercase_hex() {
    assert_eq!(hex(&[0x00, 0x0f, 0xa0, 0xff]), "000fa0ff");
    assert_eq!(replica_hex(&r(0xab)), "ab".repeat(16));
}

/// A link with one fixed delay: what is sent at a tick arrives at another.
struct Link {
    now: u64,
    flying: Vec<(u64, usize, PeerRole, Frame)>,
}

impl Link {
    fn send(&mut self, role: PeerRole, to: usize, frame: &Frame) {
        let copy = Frame {
            kind: frame.kind,
            version: frame.version,
            payload: frame.payload.clone(),
        };
        self.flying.push((self.now + 10, to, role, copy));
    }
}

#[test]
fn the_fan_out_reaches_every_voter_at_once_and_nobody_relays_it() {
    let mut d = dispatcher();
    let message = ClientMessage::Request {
        request: request(key(1)),
        cost: Some(3),
    };
    let plan = match present(&mut d, 1, Some(message)) {
        Action::FanOut(plan) => plan,
        _ => panic!("not fanned out"),
    };
    let mut link = Link {
        now: 5,
        flying: Vec::new(),
    };
    // The fan-out: one frame to each voter, in the same tick.
    for target in &plan.targets {
        link.send(PeerRole::Frontend, target.to_bytes()[0] as usize, &plan.frame);
    }
    // A client presents the same frame to the first voter.
    link.send(PeerRole::Client, 0, &plan.frame);

    let arrivals = link.flying;
    assert_eq!(
        arrivals.len(),
        4,
        "three collector submissions and the client's copy"
    );
    let from_frontend: Vec<_> = arrivals
        .iter()
        .filter(|(_, _, role, _)| *role == PeerRole::Frontend)
        .collect();
    let voters: Vec<usize> = from_frontend.iter().map(|(_, v, _, _)| *v).collect();
    assert_eq!(voters, vec![0, 1, 2], "every voter heard the frontend directly");
    assert!(from_frontend.iter().all(|(at, _, _, _)| *at == 15));
    // Ingress admits the collector's frame and refuses the client's identical
    // bytes; a voter's answer never carries a submission.
    for (_, _, role, frame) in &arrivals {
        assert_eq!(frame.kind, KIND_SUBMIT);
        let admitted = admitted_from_submit(*role, false, frame, cluster(), domain());
        match role {
            PeerRole::Frontend => {
                assert_eq!(admitted.unwrap().receipt.attested.session, session())
            }
            PeerRole::Client => assert_eq!(
                admitted.map(|_| ()),
                Err(IngressError::RoleNotAuthorized(PeerRole::Client))
            ),
            other => panic!("{other:?}"),
        }
    }
    let answer = evidence_frame_from_bytes(&LIMITS, &[1]).unwrap();
    assert_ne!(answer.kind, KIND_SUBMIT);
}
