//! The machines across an election, and what each refuses.

use std::collections::BTreeSet;

use coord_consensus::ballot::{ConfigurationIdentity, ReplicaRole};
use coord_consensus::commands::CommandRecord;
use coord_consensus::effects::{
    Effect, EstablishmentEvidence, PendingSend, StorageError, StorageEvent,
};
use coord_consensus::follower::{Follower, FollowerConfig, FollowerRejection};
use coord_consensus::graph::PathLog;
use coord_consensus::hash::HashDomain;
use coord_consensus::ids::{
    Ballot, BarrierId, BootId, ClientInstanceId, ClusterId, CommandId, ConfigurationEpoch, Digest32, DomainId,
    ExecutionPosition, LocalJournalSeq, PeerId, ReplicaId, RequestSequence, RetryKey, SessionId,
};
use coord_consensus::leader::{Leader, LeaderConfig, Rejection};
use coord_consensus::learner::{AppliedOutcome, LearnError};
use coord_consensus::machine::{Derived, Event, OperationKind, Request};
use coord_consensus::messages::ProtocolMessage;
use coord_consensus::ordered::{set_of, Dup, OrdMap, OrdSet};
use coord_consensus::phase::Phase;
use coord_consensus::quorum::BallotConfiguration;
use coord_consensus::recovery::SyncDecision;
use coord_consensus::rows::{AdmissionFacts, PayloadRecordV1};
use coord_consensus::speculation::{ReleaseGate, Speculation, TentativeOutcome};
use coord_consensus::vote::{FastAck, SlowAck};

fn fold(mut state: u128, bytes: &[u8]) -> u128 {
    for b in bytes {
        state ^= *b as u128;
        state = state.wrapping_mul(0x0000_0000_0100_0000_0000_0000_0000_013b);
    }
    state
}

fn hash(domain: HashDomain, parts: Vec<Vec<u8>>) -> Digest32 {
    let tag = [match domain {
        HashDomain::DependencyPath => 1u8,
        HashDomain::JournalBatch => 2,
        HashDomain::CommandId => 3,
        HashDomain::AdmissionReceipt => 4,
    }];
    let mut high = fold(0x6c62_272e_07bb_0142_62b8_2175_6295_c58d, &tag);
    let mut low = fold(!high, &tag);
    for p in &parts {
        let n = (p.len() as u64).to_be_bytes();
        high = fold(fold(high, &n), p);
        low = fold(fold(low, &n), p);
    }
    Digest32 { high, low }
}

fn derive(key: RetryKey, logical: Vec<u8>) -> Option<Derived> {
    command_identity(key, logical).map(|command| Derived { command, exact: true })
}

fn seal(_: EstablishmentEvidence) -> bool {
    true
}

fn command_identity(key: RetryKey, logical: Vec<u8>) -> Option<CommandId> {
    if logical.is_empty() {
        return None;
    }
    Some(CommandId(hash(
        HashDomain::CommandId,
        vec![key.request_sequence.0.to_be_bytes().to_vec(), logical],
    )))
}

fn r(i: u8) -> ReplicaId {
    ReplicaId::from_bytes([i; 16])
}

fn peer(i: u8) -> PeerId {
    PeerId {
        replica: r(i),
        incarnation: 1,
    }
}

fn epoch() -> ConfigurationEpoch {
    ConfigurationEpoch(1)
}

fn ballot(number: u64, leader: u8) -> Ballot {
    Ballot {
        epoch: epoch(),
        number,
        leader: r(leader),
    }
}

fn replicas() -> Vec<ReplicaId> {
    (0..3).map(r).collect()
}

fn frontend() -> PeerId {
    PeerId {
        replica: r(0xf0),
        incarnation: 0,
    }
}

fn identity(me: u8) -> ConfigurationIdentity {
    ConfigurationIdentity {
        cluster: ClusterId::from_bytes([1; 16]),
        domain: DomainId::from_bytes([2; 16]),
        epoch: epoch(),
        voters: set_of(&replicas()),
        replica: r(me),
        incarnation: 1,
        role: ReplicaRole::Voter,
    }
}

fn quorum() -> BallotConfiguration {
    BallotConfiguration::c2_default(epoch(), ballot(0, 0), set_of(&replicas())).unwrap()
}

fn key(seq: u64) -> RetryKey {
    RetryKey {
        cluster_id: ClusterId::from_bytes([1; 16]),
        domain_id: DomainId::from_bytes([2; 16]),
        session_id: SessionId::from_bytes([3; 16]),
        client_instance_id: ClientInstanceId::from_bytes([4; 16]),
        request_sequence: RequestSequence(seq),
    }
}

fn command(seq: u64) -> CommandId {
    command_identity(key(seq), vec![seq as u8]).unwrap()
}

fn submission(seq: u64) -> Event {
    Event::Admitted {
        request: Some(Request {
            retry_key: key(seq),
            logical: vec![seq as u8],
            operation: OperationKind::Other,
            command: command(seq),
            ack_through: 0,
        }),
        admission: AdmissionFacts(vec![7]),
    }
}

enum Machine {
    Leader(Leader),
    Follower(Follower),
    Gone,
}

struct Node {
    machine: Machine,
    durable: BTreeSet<u64>,
    outbox: Vec<PendingSend>,
}

impl Node {
    fn new(me: u8) -> Node {
        let machine = if me == 0 {
            Machine::Leader(Leader::new(
                LeaderConfig {
                    identity: identity(me),
                    quorum: quorum(),
                    genesis: ballot(0, 0),
                    frontend: frontend(),
                    capacity: 64,
                },
                None,
                ExecutionPosition(0),
            ))
        } else {
            Machine::Follower(
                Follower::new(
                    &hash,
                    FollowerConfig {
                        identity: identity(me),
                        quorum: quorum(),
                        genesis: ballot(0, 0),
                        frontend: frontend(),
                        capacity: 64,
                    },
                )
                .restore_execution(ExecutionPosition(0), &vec![]),
            )
        };
        let mut node = Node {
            machine,
            durable: BTreeSet::new(),
            outbox: Vec::new(),
        };
        node.step(Event::Boot {
            boot_id: BootId(me as u128 + 1),
            first_barrier: 1,
        });
        node
    }

    fn follower(&mut self) -> &mut Follower {
        match &mut self.machine {
            Machine::Follower(f) => f,
            _ => panic!("not a follower"),
        }
    }

    fn leader(&mut self) -> &mut Leader {
        match &mut self.machine {
            Machine::Leader(l) => l,
            _ => panic!("not a leader"),
        }
    }

    fn step(&mut self, event: Event) {
        let effects = match &mut self.machine {
            Machine::Leader(l) => l.step(&hash, &seal, event),
            Machine::Follower(f) => f.step(&hash, &derive, event),
            Machine::Gone => Vec::new(),
        };
        self.perform(effects);
    }

    /// Batches are durable at once; sends wait in the outbox.
    fn perform(&mut self, effects: Vec<Effect>) {
        for effect in effects {
            match effect {
                Effect::Persist(batch) => {
                    self.durable.insert(batch.barrier.0);
                    self.step(Event::Storage(StorageEvent::JournalDurable {
                        barrier: batch.barrier,
                        journal_seq: LocalJournalSeq(batch.barrier.0),
                    }));
                }
                Effect::Publish(send) => self.outbox.push(send),
                Effect::Established(_) | Effect::Released(_) => {}
            }
        }
    }
}

/// Deliver what may leave until nothing is left; frames to `cut` are lost.
fn settle(nodes: &mut Vec<Node>, cut: &[u8]) {
    for _ in 0..1000 {
        let mut moved = Vec::new();
        for (i, node) in nodes.iter_mut().enumerate() {
            let (ready, held): (Vec<_>, Vec<_>) = node
                .outbox
                .drain(..)
                .partition(|s| s.requires_durable.iter().all(|b| node.durable.contains(&b.0)));
            node.outbox = held;
            for send in ready {
                moved.push((i as u8, send));
            }
        }
        if moved.is_empty() {
            return;
        }
        for (from, send) in moved {
            let to = send.to.replica.to_bytes()[0];
            if to < 3 && !cut.contains(&to) && !cut.contains(&from) {
                nodes[to as usize].step(Event::Peer {
                    from: peer(from),
                    frame: send.frame,
                });
            }
        }
    }
    panic!("did not settle");
}

fn world() -> Vec<Node> {
    (0..3).map(Node::new).collect()
}

#[test]
fn a_new_leader_carries_over_what_was_accepted() {
    let mut nodes = world();
    for n in nodes.iter_mut() {
        n.step(submission(1));
    }
    settle(&mut nodes, &[]);
    assert!(nodes[0]
        .leader()
        .table()
        .phase_of(&command(1))
        .unwrap()
        .at_least(Phase::Accept));

    // The leader is cut off; a follower campaigns for the next ballot.
    let effects = nodes[1].follower().campaign(ballot(1, 1));
    nodes[1].perform(effects);
    settle(&mut nodes, &[0]);
    assert_eq!(nodes[1].follower().ballots().promised(), ballot(1, 1));
    assert_eq!(nodes[2].follower().ballots().promised(), ballot(1, 1));
    let decision = nodes[1].follower().won().expect("won");
    assert!(decision.entries.get(&command(1)).is_some());
    let decision = decision.dup();
    let chosen =
        BallotConfiguration::c2_default(epoch(), ballot(1, 1), set_of(&replicas())).unwrap();
    let old = std::mem::replace(&mut nodes[1].machine, Machine::Gone);
    let Machine::Follower(follower) = old else {
        panic!("not a follower")
    };
    let state = follower.into_recovered();
    assert_eq!(state.bindings.get(&key(1)), Some(&command(1)));
    let (leader, effects) = Leader::from_recovered(&hash, state, chosen, &decision);
    nodes[1].machine = Machine::Leader(leader);
    nodes[1].perform(effects);
    settle(&mut nodes, &[0]);
    assert!(nodes[1].leader().is_leading());
    assert!(nodes[1].leader().payload(&command(1)).is_some());
    assert_eq!(nodes[1].leader().executed_through(), ExecutionPosition(0));

    // The old leader learns of the ballot and proposes nothing more.
    let frame = ProtocolMessage::NewLeader {
        ballot: ballot(1, 1),
    }
    .encode();
    nodes[0].step(Event::Peer {
        from: peer(1),
        frame,
    });
    assert!(nodes[0].leader().deposed());
    nodes[0].leader().take_rejections();
    nodes[0].step(submission(2));
    assert!(!nodes[0].leader().is_leading());
    assert!(nodes[0].leader().proposal(&command(2)).is_none());
    assert!(matches!(
        nodes[0].leader().take_rejections().last(),
        Some(Rejection::NotLeading { .. })
    ));

    // The new leader proposes under its ballot, and the follower adopts.
    nodes[1].step(submission(2));
    nodes[2].step(submission(2));
    settle(&mut nodes, &[0]);
    assert!(nodes[2]
        .follower()
        .table()
        .phase_of(&command(2))
        .unwrap()
        .at_least(Phase::Accept));
}

#[test]
fn a_proposal_leaves_only_with_its_batch() {
    let mut leader = Leader::new(
        LeaderConfig {
            identity: identity(0),
            quorum: quorum(),
            genesis: ballot(0, 0),
            frontend: frontend(),
            capacity: 64,
        },
        None,
        ExecutionPosition(0),
    );
    leader.step(
        &hash,
        &seal,
        Event::Boot {
            boot_id: BootId(1),
            first_barrier: 9,
        },
    );
    let effects = leader.step(&hash, &seal, submission(1));
    let mut barrier = None;
    for effect in &effects {
        match effect {
            Effect::Persist(batch) => barrier = Some(batch.barrier),
            Effect::Publish(send) => assert_eq!(send.requires_durable, vec![barrier.unwrap()]),
            _ => panic!("neither"),
        }
    }
    assert_eq!(effects.len(), 4, "a batch, two voters and the frontend");
    assert_eq!(leader.table().phase_of(&command(1)), Some(Phase::PreAccept));
    leader.step(
        &hash,
        &seal,
        Event::Storage(StorageEvent::JournalDurable {
            barrier: barrier.unwrap(),
            journal_seq: LocalJournalSeq(1),
        }),
    );
    assert_eq!(leader.table().phase_of(&command(1)), Some(Phase::Accept));
}

#[test]
fn a_payload_of_another_identity_is_refused() {
    let mut node = Node::new(1);
    let frame = |c: CommandId, logical: Vec<u8>| {
        ProtocolMessage::PayloadResponse {
            command: c,
            payload: PayloadRecordV1 {
                retry_key: key(1),
                logical,
                admission: Some(AdmissionFacts(vec![7])),
                ack_through: 0,
            },
        }
        .encode()
    };
    node.step(Event::Peer {
        from: peer(0),
        frame: frame(command(1), vec![9]),
    });
    assert!(node.follower().payload(&command(1)).is_none());
    assert!(matches!(
        node.follower().take_rejections().last(),
        Some(FollowerRejection::PayloadIdentityMismatch(c)) if *c == command(1)
    ));
    node.step(Event::Peer {
        from: peer(0),
        frame: frame(command(1), vec![1]),
    });
    assert_eq!(node.follower().payload(&command(1)).unwrap().logical, vec![1]);
}

#[test]
fn a_sync_of_another_ballot_adopts_nothing() {
    let mut node = Node::new(1);
    let decision = |b: Ballot| SyncDecision {
        ballot: b,
        source_ballot: ballot(0, 0),
        entries: OrdMap::new(),
        reproposed: OrdSet::new(),
    };
    let effects = node
        .follower()
        .on_sync(&hash, r(2), decision(ballot(0, 0)));
    assert!(effects.is_empty());
    assert!(matches!(
        node.follower().take_rejections().last(),
        Some(FollowerRejection::SyncRejected { .. })
    ));
    // One of a higher ballot waits for that ballot's promise.
    let effects = node.follower().on_sync(&hash, r(2), decision(ballot(3, 2)));
    assert!(effects.is_empty());
    assert!(node.follower().take_rejections().is_empty());
    assert_eq!(node.follower().quorum().ballot(), ballot(0, 0));
}

#[test]
fn a_payload_with_bytes_behind_it_is_malformed() {
    let mut node = Node::new(1);
    let lax = |key: RetryKey, logical: Vec<u8>| {
        command_identity(key, logical[..1].to_vec()).map(|command| Derived {
            command,
            exact: logical.len() == 1,
        })
    };
    let frame = |logical: Vec<u8>| {
        ProtocolMessage::PayloadResponse {
            command: command(1),
            payload: PayloadRecordV1 {
                retry_key: key(1),
                logical,
                admission: Some(AdmissionFacts(vec![7])),
                ack_through: 0,
            },
        }
        .encode()
    };
    let effects = node.follower().step(
        &hash,
        &lax,
        Event::Peer {
            from: peer(0),
            frame: frame(vec![1, 9]),
        },
    );
    assert!(effects.is_empty());
    assert!(matches!(
        node.follower().take_rejections().last(),
        Some(FollowerRejection::MalformedRequest)
    ));
}

fn persisted(effects: &[Effect]) -> Vec<BarrierId> {
    effects
        .iter()
        .filter_map(|e| match e {
            Effect::Persist(batch) => Some(batch.barrier),
            _ => None,
        })
        .collect()
}

fn served(effects: &[Effect]) -> usize {
    effects
        .iter()
        .filter(|e| match e {
            Effect::Publish(send) => matches!(
                ProtocolMessage::decode(&send.frame),
                Ok(ProtocolMessage::PayloadResponse { .. })
            ),
            _ => false,
        })
        .count()
}

#[test]
fn only_answers_to_an_ask_are_counted() {
    let mut node = Node::new(1);
    let answer = || ProtocolMessage::PayloadResponse {
        command: command(1),
        payload: PayloadRecordV1 {
            retry_key: key(1),
            logical: vec![1],
            admission: Some(AdmissionFacts(vec![7])),
            ack_through: 0,
        },
    };
    let digest = PayloadRecordV1 {
        retry_key: key(1),
        logical: vec![1],
        admission: Some(AdmissionFacts(vec![7])),
        ack_through: 0,
    }
    .admission_digest(&hash);
    let proposal = ProtocolMessage::Proposal(FastAck {
        replica: r(0),
        ballot: ballot(0, 0),
        command: command(1),
        deps: vec![],
        paths: vec![],
        path: hash(HashDomain::DependencyPath, vec![]),
        admission: digest,
        seqnum: Some(1),
    });
    let deliver = |node: &mut Node, m: ProtocolMessage| {
        node.step(Event::Peer {
            from: peer(0),
            frame: m.encode(),
        });
        node.follower().payloads_answered()
    };
    assert_eq!(deliver(&mut node, proposal), 0);
    assert_eq!(node.follower().missing_payloads(), vec![command(1)]);
    let request = || ProtocolMessage::PayloadRequest {
        commands: vec![command(1)],
    };
    let asked = node.follower().request_payloads(r(0));
    assert_eq!(asked.len(), 1);
    assert_eq!(deliver(&mut node, request()), 0, "a request is no answer");
    assert_eq!(deliver(&mut node, answer()), 1);
    assert_eq!(deliver(&mut node, answer()), 1, "the same answer counts once");
    assert_eq!(deliver(&mut node, ProtocolMessage::NewLeader { ballot: ballot(2, 0) }), 1);
}

#[test]
fn a_payload_is_served_once_its_batch_is_durable() {
    let ask = || Event::Peer {
        from: peer(2),
        frame: ProtocolMessage::PayloadRequest {
            commands: vec![command(1)],
        }
        .encode(),
    };
    for settles in [true, false] {
        let mut node = Node::new(1);
        let f = node.follower();
        let effects = f.step(&hash, &derive, submission(1));
        let barrier = persisted(&effects)[0];
        assert_eq!(served(&f.step(&hash, &derive, ask())), 0, "not durable yet");
        let event = if settles {
            StorageEvent::JournalDurable {
                barrier,
                journal_seq: LocalJournalSeq(1),
            }
        } else {
            StorageEvent::Failed {
                barrier,
                error: StorageError::DefinitelyNotCommitted,
            }
        };
        f.step(&hash, &derive, Event::Storage(event));
        let expected = if settles { 1 } else { 0 };
        assert_eq!(served(&f.step(&hash, &derive, ask())), expected);
    }
}

#[test]
fn a_payload_beside_its_record_is_served_once_durable() {
    let ask = || Event::Peer {
        from: peer(2),
        frame: ProtocolMessage::PayloadRequest {
            commands: vec![command(1)],
        }
        .encode(),
    };
    for settles in [true, false] {
        let record = CommandRecord {
            phase: Phase::PreAccept,
            deps: vec![],
            keys: vec![vec![1]],
            payload: None,
            paths: vec![],
            synced_seq: None,
            path: hash(HashDomain::DependencyPath, vec![]),
        };
        let mut f = Follower::recover(
            &hash,
            FollowerConfig {
                identity: identity(1),
                quorum: quorum(),
                genesis: ballot(0, 0),
                frontend: frontend(),
                capacity: 64,
            },
            None,
            vec![(command(1), record)],
            vec![],
            ExecutionPosition(0),
        );
        f.step(
            &hash,
            &derive,
            Event::Boot {
                boot_id: BootId(1),
                first_barrier: 9,
            },
        );
        let effects = f.step(
            &hash,
            &derive,
            Event::Peer {
                from: peer(0),
                frame: ProtocolMessage::PayloadResponse {
                    command: command(1),
                    payload: PayloadRecordV1 {
                        retry_key: key(1),
                        logical: vec![1],
                        admission: Some(AdmissionFacts(vec![7])),
                        ack_through: 0,
                    },
                }
                .encode(),
            },
        );
        let barrier = persisted(&effects)[0];
        assert!(f.payload(&command(1)).is_some());
        assert_eq!(served(&f.step(&hash, &derive, ask())), 0, "not durable yet");
        let event = if settles {
            StorageEvent::JournalDurable {
                barrier,
                journal_seq: LocalJournalSeq(1),
            }
        } else {
            StorageEvent::Failed {
                barrier,
                error: StorageError::Fatal,
            }
        };
        f.step(&hash, &derive, Event::Storage(event));
        let expected = if settles { 1 } else { 0 };
        assert_eq!(served(&f.step(&hash, &derive, ask())), expected);
    }
}

#[test]
fn a_retried_proposal_is_reported_once_durable() {
    let mut leader = Leader::new(
        LeaderConfig {
            identity: identity(0),
            quorum: quorum(),
            genesis: ballot(0, 0),
            frontend: frontend(),
            capacity: 64,
        },
        None,
        ExecutionPosition(0),
    );
    leader.step(
        &hash,
        &seal,
        Event::Boot {
            boot_id: BootId(1),
            first_barrier: 9,
        },
    );
    let first = persisted(&leader.step(&hash, &seal, submission(1)))[0];
    let again = leader.step(
        &hash,
        &seal,
        Event::Storage(StorageEvent::Failed {
            barrier: first,
            error: StorageError::DefinitelyNotCommitted,
        }),
    );
    let second = persisted(&again)[0];
    assert_ne!(first, second);
    assert!(leader.ledger().record(&command(1)).is_none());
    leader.step(
        &hash,
        &seal,
        Event::Storage(StorageEvent::JournalDurable {
            barrier: second,
            journal_seq: LocalJournalSeq(1),
        }),
    );
    assert!(leader.ledger().record(&command(1)).is_some());
    let report = leader.report(ballot(1, 1));
    assert!(report.entries.iter().any(|e| e.command == command(1)));
}

/// Commit `command(1)` at a lone leader of three: its proposal is durable and
/// one other voter adopts it.
fn committed() -> Node {
    let mut node = Node::new(0);
    node.step(submission(1));
    let payload = PayloadRecordV1 {
        retry_key: key(1),
        logical: vec![1],
        admission: Some(AdmissionFacts(vec![7])),
        ack_through: 0,
    };
    let frame = ProtocolMessage::SlowAck(SlowAck {
        replica: r(2),
        ballot: ballot(0, 0),
        command: command(1),
        admission: payload.admission_digest(&hash),
    })
    .encode();
    node.step(Event::Peer {
        from: peer(2),
        frame,
    });
    assert_eq!(node.leader().next_executable(), Some(command(1)));
    node
}

fn outcome() -> AppliedOutcome {
    AppliedOutcome {
        position: ExecutionPosition(1),
        revision: None,
        result_digest: hash(HashDomain::JournalBatch, vec![vec![5]]),
        response: vec![5],
    }
}

#[test]
fn a_result_that_is_not_sealed_is_not_established() {
    let refuse = |_: EstablishmentEvidence| false;
    let mut node = committed();
    assert!(matches!(
        node.leader().applied(&refuse, command(1), &outcome()),
        Err(LearnError::Establish(_))
    ));
    assert_eq!(
        node.leader().executed_through(),
        ExecutionPosition(1),
        "the command has executed all the same"
    );
    let mut node = committed();
    let effects = node.leader().applied(&seal, command(1), &outcome()).unwrap();
    assert!(matches!(&effects[0], Effect::Established(e) if e.command == command(1)));
    assert!(matches!(&effects[1], Effect::Released(r) if !r.speculative));
    assert_eq!(effects.len(), 2);
}

#[test]
fn the_gate_releases_nothing_past_a_refused_seal() {
    let tentative = || TentativeOutcome {
        command: command(1),
        position: ExecutionPosition(1),
        revision: None,
        result_digest: hash(HashDomain::JournalBatch, vec![vec![5]]),
        response: vec![5],
        prefix: vec![],
    };
    let refuse = |_: EstablishmentEvidence| false;
    let mut node = committed();
    assert!(node.leader().speculated(&refuse, tentative()).is_empty());
    let released = node.leader().speculated(&seal, tentative());
    assert!(matches!(&released[..], [Effect::Released(r)] if r.speculative));
    assert!(node.leader().speculated(&seal, tentative()).is_empty(), "once");

    // A walk that meets a refusal hands out nothing; what it had sealed stays
    // marked.
    let mut speculation = Speculation::new();
    for i in 1..=2 {
        speculation.record(TentativeOutcome {
            command: command(i),
            position: ExecutionPosition(i),
            ..tentative()
        });
    }
    let yes = |_: CommandId| true;
    let no = |_: CommandId| false;
    let gate = ReleaseGate {
        epoch: epoch(),
        ballot: ballot(0, 0),
        committed: &yes,
        fast: &no,
    };
    let order = vec![command(1), command(2)];
    let first_only = |e: EstablishmentEvidence| e.command == command(1);
    assert!(gate.release(&first_only, &mut speculation, &order).is_err());
    assert!(speculation.released(&command(1)));
    assert!(!speculation.released(&command(2)));
    let released = gate.release(&seal, &mut speculation, &order).unwrap();
    assert_eq!(released.len(), 1);
    assert_eq!(released[0].evidence.command, command(2));
}

#[test]
fn a_repeated_proposal_adds_only_a_rejection() {
    let mut node = Node::new(0);
    node.step(submission(1));
    let next = node.leader().seqnum();
    node.leader().take_rejections();
    let effects = node.leader().step(&hash, &seal, submission(1));
    assert!(effects.is_empty());
    assert_eq!(node.leader().seqnum(), next);
    assert_eq!(node.leader().take_rejections().len(), 1);
}

#[test]
fn a_second_payload_under_one_retry_key_conflicts() {
    let mut node = Node::new(1);
    node.step(submission(1));
    let other = command_identity(key(1), vec![5]).unwrap();
    node.step(Event::Admitted {
        request: Some(Request {
            retry_key: key(1),
            logical: vec![5],
            operation: OperationKind::Other,
            command: other,
            ack_through: 0,
        }),
        admission: AdmissionFacts(vec![7]),
    });
    assert!(matches!(
        node.follower().take_rejections().last(),
        Some(FollowerRejection::RequestIdentityConflict { bound, .. }) if *bound == command(1)
    ));
    assert!(node.follower().payload(&other).is_none());
}

#[test]
fn path_heads_tell_orders_apart() {
    let log = |order: [u64; 3]| {
        let mut log = PathLog::new(&hash);
        for c in order {
            log.append(&hash, command(c));
        }
        log.head()
    };
    assert_eq!(log([1, 2, 3]), log([1, 2, 3]));
    assert_ne!(log([1, 2, 3]), log([2, 1, 3]));
    // The leader's order of the first two leaves the third behind them.
    let mut a = PathLog::new(&hash);
    let mut b = PathLog::new(&hash);
    let first = a.append(&hash, command(1));
    a.append(&hash, command(2));
    b.append(&hash, command(2));
    b.append(&hash, command(1));
    assert_ne!(a.head(), b.head());
    a.sync(&hash, command(1), 1, first);
    b.sync(&hash, command(1), 1, first);
    assert_eq!(a.head(), b.head());
    assert_eq!(b.pending(), &vec![command(2)]);
}
