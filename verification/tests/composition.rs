//! A deterministic composition: a three-voter domain (leader plus two
//! followers, full learning, speculation at the leader) behind a trusted
//! frontend built from the admission gate, the collector and the dispatcher,
//! joined by a tick-timed wire that logs every hop.

use std::collections::{BTreeMap, BTreeSet};

use coord_consensus::admission::{Admission, AdmissionLimits, AdmissionRefusal, Admitted, Caller};
use coord_consensus::ballot::{ConfigurationIdentity, ReplicaRole};
use coord_consensus::client::{
    AdmissionPurpose, AdmissionReceipt, AdmittedRequest, AttestedAdmission, ErrorCode, Frame,
    OutcomeV1, PeerProvenance, PeerRole, RequestV1, ResolveRequestV1, ResponseV1, WireLimits,
};
use coord_consensus::clock::MonotonicMillis;
use coord_consensus::collector::{
    Collector, CollectorConfig, EvidenceError, HoldReason, Progress, SubmitRefusal, Submitted,
};
use coord_consensus::dispatch::{
    Action, ClientMessage, Delivery, Dispatcher, NamespaceId, ServerMessage, WatchId, WatchOpenV1,
};
use coord_consensus::effects::{
    Effect, EstablishmentEvidence, PendingSend, ReleasedResult, StorageEvent,
};
use coord_consensus::follower::{Follower, FollowerConfig};
use coord_consensus::hash::HashDomain;
use coord_consensus::ids::{
    Ballot, BootId, ClientInstanceId, ClusterId, CommandId, ConfigurationEpoch, Digest32, DomainId,
    ExecutionPosition, KvRevision, LocalJournalSeq, PeerId, ReplicaId, RequestSequence, RetryKey,
    SessionId,
};
use coord_consensus::ingress::{admitted_from_submit, frontend_frame, IngressError};
use coord_consensus::leader::{Leader, LeaderConfig};
use coord_consensus::learner::{AppliedOutcome, LearningMode};
use coord_consensus::machine::{Derived, Event, OperationKind, Request};
use coord_consensus::messages::ProtocolMessage;
use coord_consensus::ordered::set_of;
use coord_consensus::quorum::BallotConfiguration;
use coord_consensus::speculation::TentativeOutcome;
use coord_consensus::trace::CollectorEvent;
use coord_consensus::vote::{FastAck, SlowAck, VoteError};
use coord_consensus::watch::{
    CloseReason, KvEntry, KvEvent, KvEventKind, WatchBatch, WatchItem,
};
use coord_consensus::wire::{
    decode_evidence, decode_release, release_frame, KIND_EVIDENCE, KIND_RELEASE,
};

const LIMITS: WireLimits = WireLimits {
    header: 12,
    api_frame: 4 * 1024 * 1024,
    evidence_frame: 64 * 1024 * 1024,
    watch_frame: 16 * 1024 * 1024,
    result: 16 * 1024 * 1024,
    reason: 256,
    events: 1000,
};

const LATENCY: u64 = 1;
const REQUEST: u16 = 0x0100;
const RESOLVE: u16 = 0x0102;
const WATCH_OPEN: u16 = 0x0200;
const WATCH_CLOSE: u16 = 0x0201;

fn fold(mut state: u128, bytes: &[u8]) -> u128 {
    for b in bytes {
        state ^= *b as u128;
        state = state.wrapping_mul(0x0000_0000_0100_0000_0000_0000_0000_013b);
    }
    state
}

fn hash(domain: HashDomain, parts: Vec<Vec<u8>>) -> Digest32 {
    let tag = [match domain {
        HashDomain::DependencyPath => 1u8,
        HashDomain::JournalBatch => 2,
        HashDomain::CommandId => 3,
        HashDomain::AdmissionReceipt => 4,
    }];
    let mut high = fold(0x6c62_272e_07bb_0142_62b8_2175_6295_c58d, &tag);
    let mut low = fold(!high, &tag);
    for p in &parts {
        let n = (p.len() as u64).to_be_bytes();
        high = fold(fold(high, &n), p);
        low = fold(fold(low, &n), p);
    }
    Digest32 { high, low }
}

fn derive(key: RetryKey, logical: Vec<u8>) -> Option<Derived> {
    command_identity(key, logical).map(|command| Derived { command, exact: true })
}

fn seal(_: EstablishmentEvidence) -> bool {
    true
}

fn command_identity(key: RetryKey, logical: Vec<u8>) -> Option<CommandId> {
    if logical.is_empty() {
        return None;
    }
    Some(CommandId(hash(
        HashDomain::CommandId,
        vec![
            key.session_id.to_bytes(),
            key.client_instance_id.to_bytes(),
            key.request_sequence.0.to_be_bytes().to_vec(),
            logical,
        ],
    )))
}

fn d(i: u8) -> Digest32 {
    Digest32::from_halves([i; 16], [i; 16])
}

fn cluster() -> ClusterId {
    ClusterId::from_bytes([1; 16])
}

fn domain() -> DomainId {
    DomainId::from_bytes([2; 16])
}

fn session() -> SessionId {
    SessionId::from_bytes([3; 16])
}

fn frontend() -> PeerId {
    PeerId {
        replica: r(0xf0),
        incarnation: 0,
    }
}

fn r(i: u8) -> ReplicaId {
    ReplicaId::from_bytes([i; 16])
}

fn index_of(replica: ReplicaId) -> u8 {
    replica.to_bytes()[0]
}

fn epoch() -> ConfigurationEpoch {
    ConfigurationEpoch(1)
}

fn ballot() -> Ballot {
    Ballot {
        epoch: epoch(),
        number: 0,
        leader: r(0),
    }
}

fn replicas(n: u8) -> Vec<ReplicaId> {
    (0..n).map(r).collect()
}

fn identity(n: u8, me: u8) -> ConfigurationIdentity {
    ConfigurationIdentity {
        cluster: cluster(),
        domain: domain(),
        epoch: epoch(),
        voters: set_of(&replicas(n)),
        replica: r(me),
        incarnation: 1,
        role: ReplicaRole::Voter,
    }
}

fn quorum(n: u8) -> BallotConfiguration {
    BallotConfiguration::c2(
        epoch(),
        ballot(),
        set_of(&replicas(n)),
        set_of(&replicas(n / 2 + 1)),
    )
    .unwrap()
}

fn caller() -> Caller {
    Caller {
        role: PeerRole::Client,
        session: session(),
        rule_generation: 1,
        scope_ceiling: u32::MAX,
    }
}

fn retry_key(seq: u64) -> RetryKey {
    RetryKey {
        cluster_id: cluster(),
        domain_id: domain(),
        session_id: session(),
        client_instance_id: ClientInstanceId::from_bytes([4; 16]),
        request_sequence: RequestSequence(seq),
    }
}

fn put(k: &[u8], v: &[u8]) -> Vec<u8> {
    let mut logical = vec![1, k.len() as u8];
    logical.extend_from_slice(k);
    logical.extend_from_slice(v);
    logical
}

fn get(k: &[u8]) -> Vec<u8> {
    let mut logical = vec![2, k.len() as u8];
    logical.extend_from_slice(k);
    logical
}

fn key_of(logical: &[u8]) -> Vec<u8> {
    logical[2..2 + logical[1] as usize].to_vec()
}

fn request(seq: u64, logical: Vec<u8>, deadline_ms: u32) -> (CommandId, RequestV1) {
    let key = retry_key(seq);
    let command = command_identity(key, logical.clone()).unwrap();
    (
        command,
        RequestV1 {
            retry_key: key,
            logical,
            deadline_ms,
            ack_through: 0,
        },
    )
}

fn receipt() -> AdmissionReceipt {
    AdmissionReceipt {
        attested: AttestedAdmission {
            cluster: cluster(),
            domain: domain(),
            session: session(),
            rule_generation: 1,
            scope_ceiling: u32::MAX,
            receipt_id: d(7),
            admitted_at_ticks: 0,
        },
        purpose: AdmissionPurpose::Submit,
        claims: Vec::new(),
    }
}

fn admitted(seq: u64, logical: Vec<u8>) -> (CommandId, AdmittedRequest) {
    let (command, request) = request(seq, logical, 0);
    (
        command,
        AdmittedRequest {
            receipt: receipt(),
            request: Some(request),
        },
    )
}

fn response_of(delivery: &Delivery) -> &ResponseV1 {
    match &delivery.message {
        ServerMessage::Response(r) => r,
        other => panic!("not a response: {other:?}"),
    }
}

fn provenance(from: ReplicaId, connection: u64) -> PeerProvenance {
    PeerProvenance {
        from,
        incarnation: 1,
        connection,
    }
}

fn ms(millis: u64) -> MonotonicMillis {
    MonotonicMillis::new(millis)
}

fn take(gate: &mut Admission, caller: &Caller, request: &RequestV1) -> Result<Admitted, AdmissionRefusal> {
    gate.admit_request(&hash, 0, caller, request, Some(request.logical.len()))
}

fn submit_to(c: &mut Collector, request: &AdmittedRequest) -> Result<Submitted, SubmitRefusal> {
    c.submit(&hash, &derive, ms(0), request)
}

enum Machine {
    Leader(Leader),
    Follower(Follower),
}

impl Machine {
    fn step(&mut self, e: Event) -> Vec<Effect> {
        match self {
            Machine::Leader(m) => m.step(&hash, &seal, e),
            Machine::Follower(m) => m.step(&hash, &derive, e),
        }
    }
    fn next_executable(&self) -> Option<CommandId> {
        match self {
            Machine::Leader(m) => m.next_executable(),
            Machine::Follower(m) => m.next_executable(),
        }
    }
    fn logical(&self, c: &CommandId) -> Vec<u8> {
        let payload = match self {
            Machine::Leader(m) => m.payload(c),
            Machine::Follower(m) => m.payload(c),
        };
        payload.expect("payload known").logical.clone()
    }
    fn executed_through(&self) -> u64 {
        match self {
            Machine::Leader(m) => m.executed_through().0,
            Machine::Follower(m) => m.executed_through().0,
        }
    }
    fn applied(&mut self, c: CommandId, o: &AppliedOutcome) -> Vec<Effect> {
        match self {
            Machine::Leader(m) => m.applied(&seal, c, o).unwrap(),
            Machine::Follower(m) => m.applied(&seal, c, o).unwrap(),
        }
    }
}

/// What executing `logical` on a store at `revision` gives: the revision
/// after it, and the encoded result.
fn executed(logical: &[u8], revision: u64) -> (u64, Option<KvRevision>, Vec<u8>) {
    if logical[0] == 1 {
        let next = revision + 1;
        (next, Some(KvRevision(next)), next.to_be_bytes().to_vec())
    } else {
        (revision, None, revision.to_be_bytes().to_vec())
    }
}

struct Node {
    machine: Machine,
    durable: BTreeSet<u64>,
    outbox: Vec<PendingSend>,
    revision: u64,
    values: BTreeMap<Vec<u8>, (Vec<u8>, u64)>,
    executed: Vec<CommandId>,
    /// Watch hub: applied revisions no watch has taken yet.
    watching: Option<(WatchId, Vec<u8>)>,
    queue: Vec<WatchItem>,
}

fn node(n: u8, me: u8) -> Node {
    let mut machine = if me == 0 {
        Machine::Leader(Leader::new(
            LeaderConfig {
                identity: identity(n, me),
                quorum: quorum(n),
                genesis: ballot(),
                frontend: frontend(),
                capacity: 64,
            },
            None,
            ExecutionPosition(0),
        ))
    } else {
        Machine::Follower(
            Follower::new(
                &hash,
                FollowerConfig {
                    identity: identity(n, me),
                    quorum: quorum(n),
                    genesis: ballot(),
                    frontend: frontend(),
                    capacity: 64,
                },
            )
            .restore_execution(ExecutionPosition(0), &vec![]),
        )
    };
    match &mut machine {
        Machine::Leader(m) => m.set_learning(LearningMode::Full),
        Machine::Follower(m) => m.set_learning(LearningMode::Full),
    }
    let mut node = Node {
        machine,
        durable: BTreeSet::new(),
        outbox: Vec::new(),
        revision: 0,
        values: BTreeMap::new(),
        executed: Vec::new(),
        watching: None,
        queue: Vec::new(),
    };
    node.machine.step(Event::Boot {
        boot_id: BootId(me as u128 + 1),
        first_barrier: 1,
    });
    node
}

#[derive(Clone, Copy, Debug, PartialEq, Eq)]
enum Endpoint {
    Voter(u8),
    Frontend,
}

/// One logged transmission: queued at `tick`, delivered later.
struct Hop {
    tick: u64,
    from: Endpoint,
    to: Endpoint,
    kind: &'static str,
}

enum Item {
    Submit { to: u8, frame: Frame },
    Peer { from: u8, to: u8, frame: Vec<u8> },
    ToFrontend { from: u8, frame: Frame },
}

fn copy(frame: &Frame) -> Frame {
    Frame {
        kind: frame.kind,
        version: frame.version,
        payload: frame.payload.clone(),
    }
}

fn peer_kind(frame: &Vec<u8>) -> &'static str {
    match ProtocolMessage::decode(frame).unwrap() {
        ProtocolMessage::Proposal(_) => "proposal",
        ProtocolMessage::FastAck(_) => "fast-ack",
        ProtocolMessage::SlowAck(_) => "slow-ack",
        ProtocolMessage::LeaderReply { .. } => "leader-reply",
        _ => "other",
    }
}

struct World {
    nodes: Vec<Node>,
    frontend: Dispatcher,
    tick: u64,
    seed: u64,
    queue: Vec<(u64, Item)>,
    hops: Vec<Hop>,
    /// Ticks added to evidence and releases from these voters.
    delay_to_frontend: BTreeMap<u8, u64>,
    drop_releases: bool,
    deliveries: Vec<(u64, Delivery)>,
    progress: Vec<(u64, Progress)>,
    rejected: Vec<(u64, EvidenceError)>,
}

impl World {
    fn new(seed: u64) -> Self {
        Self::with_bound(seed, 64)
    }

    fn with_bound(seed: u64, max_pending: usize) -> Self {
        let collector = Collector::new(CollectorConfig {
            quorum: quorum(3),
            max_pending,
            max_resolved: 16,
            max_undelivered_bytes: usize::MAX,
            limits: LIMITS,
        });
        let admission =
            Admission::new(cluster(), domain(), AdmissionLimits::for_requests(1 << 20));
        World {
            nodes: (0..3).map(|i| node(3, i)).collect(),
            frontend: Dispatcher::new(admission, collector, 16, LIMITS),
            tick: 0,
            seed,
            queue: Vec::new(),
            hops: Vec::new(),
            delay_to_frontend: BTreeMap::new(),
            drop_releases: false,
            deliveries: Vec::new(),
            progress: Vec::new(),
            rejected: Vec::new(),
        }
    }

    fn rand(&mut self) -> u64 {
        self.seed ^= self.seed << 13;
        self.seed ^= self.seed >> 7;
        self.seed ^= self.seed << 17;
        self.seed
    }

    fn enqueue(&mut self, item: Item, extra: u64) {
        let (from, to, kind) = match &item {
            Item::Submit { to, .. } => (Endpoint::Frontend, Endpoint::Voter(*to), "submit"),
            Item::Peer { from, to, frame } => (
                Endpoint::Voter(*from),
                Endpoint::Voter(*to),
                peer_kind(frame),
            ),
            Item::ToFrontend { from, frame } => {
                let kind = match frame.kind {
                    KIND_EVIDENCE => peer_kind(&frame.payload),
                    KIND_RELEASE => "release",
                    _ => unreachable!(),
                };
                (Endpoint::Voter(*from), Endpoint::Frontend, kind)
            }
        };
        self.hops.push(Hop {
            tick: self.tick,
            from,
            to,
            kind,
        });
        self.queue.push((self.tick + LATENCY + extra, item));
    }

    fn to_frontend(&mut self, i: usize, frame: Frame) {
        let extra = self
            .delay_to_frontend
            .get(&(i as u8))
            .copied()
            .unwrap_or(0);
        self.enqueue(
            Item::ToFrontend {
                from: i as u8,
                frame,
            },
            extra,
        );
    }

    /// Handle a voter's effects: batches are durable at once, and a send
    /// leaves when everything it rests on is.
    fn handle(&mut self, i: usize, effects: Vec<Effect>) {
        for e in effects {
            match e {
                Effect::Persist(batch) => {
                    self.nodes[i].durable.insert(batch.barrier.0);
                    let more = self.nodes[i].machine.step(Event::Storage(
                        StorageEvent::JournalDurable {
                            barrier: batch.barrier,
                            journal_seq: LocalJournalSeq(1),
                        },
                    ));
                    self.handle(i, more);
                }
                Effect::Publish(send) => self.nodes[i].outbox.push(send),
                Effect::Established(_) => {}
                released @ Effect::Released(_) => {
                    if !self.drop_releases {
                        let frame = frontend_frame(&LIMITS, &released, frontend())
                            .expect("for the frontend")
                            .expect("framed");
                        self.to_frontend(i, frame);
                    }
                }
            }
        }
        let node = &mut self.nodes[i];
        let (ready, held): (Vec<_>, Vec<_>) = node
            .outbox
            .drain(..)
            .partition(|s| s.requires_durable.iter().all(|b| node.durable.contains(&b.0)));
        node.outbox = held;
        for send in ready {
            let to = send.to;
            let peer = send.frame.clone();
            match frontend_frame(&LIMITS, &Effect::Publish(send), frontend()) {
                Some(frame) => self.to_frontend(i, frame.expect("framed")),
                None => self.enqueue(
                    Item::Peer {
                        from: i as u8,
                        to: index_of(to.replica),
                        frame: peer,
                    },
                    0,
                ),
            }
        }
    }

    fn deliver(&mut self, item: Item) {
        match item {
            Item::Submit { to, frame } => {
                let admitted =
                    admitted_from_submit(PeerRole::Frontend, false, &frame, cluster(), domain())
                        .unwrap();
                let admission = admitted.receipt.facts();
                let body = admitted.request.unwrap();
                let request = Request {
                    retry_key: body.retry_key,
                    command: command_identity(body.retry_key, body.logical.clone()).unwrap(),
                    logical: body.logical,
                    operation: OperationKind::Other,
                    ack_through: body.ack_through,
                };
                let effects = self.nodes[to as usize].machine.step(Event::Admitted {
                    request: Some(request),
                    admission,
                });
                self.handle(to as usize, effects);
            }
            Item::Peer { from, to, frame } => {
                let effects = self.nodes[to as usize].machine.step(Event::Peer {
                    from: PeerId {
                        replica: r(from),
                        incarnation: 1,
                    },
                    frame,
                });
                self.handle(to as usize, effects);
            }
            Item::ToFrontend { from, frame } => {
                let prov = provenance(r(from), 100 + u64::from(from));
                let result = match frame.kind {
                    KIND_EVIDENCE => self.frontend.collector_mut().on_evidence(
                        &hash,
                        prov,
                        decode_evidence(&frame).unwrap(),
                    ),
                    KIND_RELEASE => self
                        .frontend
                        .collector_mut()
                        .on_release(prov, decode_release(&frame).unwrap()),
                    _ => unreachable!(),
                };
                match result {
                    Ok(progress) => {
                        if let Progress::Released(release) = &progress {
                            if let Some(d) = self.frontend.settle_release(release) {
                                self.deliveries.push((self.tick, d));
                            }
                        }
                        self.progress.push((self.tick, progress));
                    }
                    Err(e) => self.rejected.push((self.tick, e)),
                }
            }
        }
    }

    fn apply(&mut self, i: usize, c: CommandId) {
        let node = &mut self.nodes[i];
        let logical = node.machine.logical(&c);
        let (next, revision, response) = executed(&logical, node.revision);
        if let Some(revision) = revision {
            let key = key_of(&logical);
            let value = logical[2 + key.len()..].to_vec();
            let created = node.values.get(&key).map_or(revision.0, |v| v.1);
            if let Some((_, watched)) = &node.watching {
                if *watched == key {
                    node.queue.push(WatchItem::Batch(WatchBatch {
                        revision,
                        events: vec![KvEvent {
                            kind: KvEventKind::Put,
                            key: key.clone(),
                            entry: Some(KvEntry {
                                value: value.clone(),
                                create_revision: KvRevision(created),
                                mod_revision: revision,
                                version: 1,
                            }),
                            prev: None,
                        }],
                    }));
                }
            }
            node.values.insert(key, (value, created));
        }
        node.revision = next;
        let outcome = AppliedOutcome {
            position: ExecutionPosition(node.machine.executed_through() + 1),
            revision,
            result_digest: hash(HashDomain::JournalBatch, vec![response.clone()]),
            response,
        };
        let effects = node.machine.applied(c, &outcome);
        node.executed.push(c);
        self.handle(i, effects);
    }

    fn execute_and_speculate(&mut self) -> bool {
        let mut progressed = false;
        for i in 0..self.nodes.len() {
            while let Some(c) = self.nodes[i].machine.next_executable() {
                self.apply(i, c);
                progressed = true;
            }
            loop {
                let Machine::Leader(leader) = &self.nodes[i].machine else {
                    break;
                };
                let Some(request) = leader.next_speculable() else {
                    break;
                };
                let mut revision = self.nodes[i].revision;
                for earlier in &request.prefix {
                    revision = executed(&self.nodes[i].machine.logical(earlier), revision).0;
                }
                let logical = self.nodes[i].machine.logical(&request.command);
                let (_, produced, response) = executed(&logical, revision);
                let outcome = TentativeOutcome {
                    command: request.command,
                    position: request.position,
                    revision: produced,
                    result_digest: hash(HashDomain::JournalBatch, vec![response.clone()]),
                    response,
                    prefix: request.prefix,
                };
                let Machine::Leader(leader) = &mut self.nodes[i].machine else {
                    unreachable!()
                };
                let effects = leader.speculated(&seal, outcome);
                self.handle(i, effects);
                progressed = true;
            }
        }
        progressed
    }

    /// Advance one tick: deliver everything due, in seeded order, then
    /// execute and speculate.
    fn step(&mut self) {
        let now = self.tick;
        let (mut due, rest): (Vec<_>, Vec<_>) =
            self.queue.drain(..).partition(|entry| entry.0 <= now);
        self.queue = rest;
        while !due.is_empty() {
            let idx = (self.rand() % due.len() as u64) as usize;
            let (_, item) = due.remove(idx);
            self.deliver(item);
        }
        while self.execute_and_speculate() {}
        for d in self.frontend.expire(ms(self.tick)) {
            self.deliveries.push((self.tick, d));
        }
        self.tick += 1;
    }

    fn settle(&mut self) {
        let mut idle = 0;
        while idle < 4 {
            let before = self.queue.len();
            self.step();
            idle = if before == 0 && self.queue.is_empty() {
                idle + 1
            } else {
                0
            };
            assert!(self.tick < 10_000, "no quiescence");
        }
    }

    fn run_ticks(&mut self, n: u64) {
        for _ in 0..n {
            self.step();
        }
    }

    fn present(
        &mut self,
        connection: u64,
        caller: &Caller,
        kind: u16,
        message: Option<ClientMessage>,
    ) -> Action {
        self.frontend.on_frame(
            &hash,
            &derive,
            self.tick,
            ms(self.tick),
            connection,
            caller,
            kind,
            message,
        )
    }

    /// A client submits on `connection`; the fan-out goes out now.
    fn submit(&mut self, connection: u64, seq: u64, logical: Vec<u8>) -> (CommandId, Action) {
        self.submit_with_deadline(connection, seq, logical, 0)
    }

    fn submit_with_deadline(
        &mut self,
        connection: u64,
        seq: u64,
        logical: Vec<u8>,
        deadline_ms: u32,
    ) -> (CommandId, Action) {
        let (command, request) = request(seq, logical, deadline_ms);
        let cost = Some(request.logical.len());
        let action = self.present(
            connection,
            &caller(),
            REQUEST,
            Some(ClientMessage::Request { request, cost }),
        );
        if let Action::FanOut(fan_out) = &action {
            assert_eq!(fan_out.command, command);
            for target in &fan_out.targets {
                self.enqueue(
                    Item::Submit {
                        to: index_of(*target),
                        frame: copy(&fan_out.frame),
                    },
                    0,
                );
            }
        }
        (command, action)
    }

    fn resolve(&mut self, connection: u64, seq: u64, command: CommandId) -> ResponseV1 {
        let message = ClientMessage::ResolveRequest(ResolveRequestV1 {
            retry_key: retry_key(seq),
            command_id: command,
        });
        match self.present(connection, &caller(), RESOLVE, Some(message)) {
            Action::Respond(Delivery {
                message: ServerMessage::Response(r),
                ..
            }) => r,
            _ => panic!("resolve produced no response"),
        }
    }

    fn delivered(&self, command: &CommandId) -> Option<(u64, &ResponseV1)> {
        self.deliveries
            .iter()
            .map(|(t, d)| (*t, response_of(d)))
            .find(|(_, r)| r.command_id == *command)
    }

    fn hops(&self, from: Endpoint, to: Endpoint, kind: &str) -> Vec<u64> {
        self.hops
            .iter()
            .filter(|h| h.from == from && h.to == to && h.kind == kind)
            .map(|h| h.tick)
            .collect()
    }

    fn held(&self, reason: HoldReason) -> Vec<u64> {
        self.progress
            .iter()
            .filter(|(_, p)| matches!(p, Progress::Held(h) if *h == reason))
            .map(|(t, _)| *t)
            .collect()
    }

    /// What the hub of the second node has for a watch, as messages.
    fn pump(&mut self, connection: u64, watch_id: u64) -> Vec<ServerMessage> {
        let items: Vec<WatchItem> = self.nodes[1].queue.drain(..).collect();
        self.frontend.pump_watch(connection, watch_id, &items)
    }
}

fn ok_result(response: &ResponseV1) -> (Option<u64>, Vec<u8>) {
    match &response.outcome {
        OutcomeV1::Established { revision, result } => {
            (revision.map(|r| r.get()), result.clone())
        }
        other => panic!("not an established result: {other:?}"),
    }
}

fn err_code(response: &ResponseV1) -> ErrorCode {
    match &response.outcome {
        OutcomeV1::Refused { code, .. } => *code,
        other => panic!("not an error: {other:?}"),
    }
}

fn is_held(r: Result<Progress, EvidenceError>, reason: HoldReason) -> bool {
    matches!(r, Ok(Progress::Held(h)) if h == reason)
}

#[test]
fn fan_out_is_parallel_and_the_trace_has_no_serial_leader_hop() {
    let mut w = World::new(11);
    let t0 = w.tick;
    let (command, action) = w.submit(1, 1, put(b"a", b"1"));
    assert!(matches!(action, Action::FanOut(_)));
    w.settle();

    for v in 0..3 {
        assert_eq!(
            w.hops(Endpoint::Frontend, Endpoint::Voter(v), "submit"),
            vec![t0],
            "voter {v} hears the frontend directly"
        );
    }
    assert!(
        !w.hops
            .iter()
            .any(|h| matches!(h.from, Endpoint::Voter(_)) && h.kind == "submit"),
        "no voter forwards submissions"
    );
    // The fast-set follower's acknowledgement left before the leader's
    // proposal could have reached it.
    let ack = w.hops(Endpoint::Voter(1), Endpoint::Frontend, "fast-ack");
    let proposal = w.hops(Endpoint::Voter(0), Endpoint::Voter(1), "proposal");
    assert_eq!(
        ack,
        vec![t0 + LATENCY],
        "the fast-set follower votes on arrival"
    );
    assert_eq!(proposal, vec![t0 + LATENCY]);
    assert!(
        ack[0] < proposal[0] + LATENCY,
        "vote precedes proposal arrival"
    );
    assert!(w
        .hops(Endpoint::Voter(2), Endpoint::Frontend, "fast-ack")
        .is_empty());
    assert_eq!(
        w.hops(Endpoint::Voter(2), Endpoint::Frontend, "slow-ack"),
        vec![t0 + 2 * LATENCY],
        "the other follower adopts once the proposal arrives"
    );
    let learned_at = *w
        .held(HoldReason::AwaitingRelease)
        .first()
        .expect("votes complete before the release");
    assert_eq!(learned_at, t0 + 2 * LATENCY);
    let (released_at, response) = w.delivered(&command).expect("released");
    assert_eq!(released_at, t0 + 3 * LATENCY);
    let (revision, _) = ok_result(response);
    assert_eq!(revision, Some(1));
    let trace = w.frontend.collector().trace();
    assert!(trace.iter().any(|e| matches!(
        e,
        CollectorEvent::Released {
            fast: true,
            speculative: true,
            delivered: true,
            ..
        }
    )));
    // A second command on a conflicting key: same shape.
    let t1 = w.tick;
    let (c2, _) = w.submit(1, 2, put(b"a", b"2"));
    w.settle();
    let (at, r2) = w.delivered(&c2).unwrap();
    assert_eq!(at, t1 + 3 * LATENCY);
    assert_eq!(ok_result(r2).0, Some(2));
}

#[test]
fn a_lone_leader_release_never_releases_tentative_data() {
    let mut w = World::new(5);
    w.delay_to_frontend.insert(1, 20);
    w.delay_to_frontend.insert(2, 20);
    let t0 = w.tick;
    let (command, _) = w.submit(1, 1, put(b"k", b"v"));
    w.run_ticks(6);
    assert!(
        w.held(HoldReason::AwaitingVotes).contains(&(t0 + 3 * LATENCY)),
        "the release arrived and was held"
    );
    assert!(w.frontend.collector().trace().iter().any(|e| matches!(
        e,
        CollectorEvent::Evidence { kind, accepted: true, .. } if kind == "release"
    )));
    assert!(
        w.delivered(&command).is_none(),
        "nothing released on the leader alone"
    );
    assert!(w.frontend.collector().is_pending(&command));
    w.settle();
    let (at, _) = w.delivered(&command).expect("released once votes arrived");
    assert!(at >= t0 + 20, "released only after the acknowledgements");

    // Without the leader's release, complete votes release nothing.
    let mut w = World::new(6);
    w.drop_releases = true;
    let (command, _) = w.submit(1, 1, put(b"k", b"v"));
    w.settle();
    assert!(w.delivered(&command).is_none());
    assert!(!w.held(HoldReason::AwaitingRelease).is_empty());
    assert!(w.frontend.collector().is_pending(&command));
    // The command still executed everywhere: the collector is what holds.
    assert!(w.nodes.iter().all(|n| n.executed.contains(&command)));
    let resolved = w.resolve(2, 1, command);
    assert!(matches!(resolved.outcome, OutcomeV1::Pending));
}

#[test]
fn cancellation_preserves_identity_and_outcome_resolution() {
    let mut w = World::new(21);
    let hops_before = w.hops.len();
    let (command, _) = w.submit(7, 1, put(b"c", b"1"));
    // The caller goes away before any evidence.
    let (cancelled, _) = w.frontend.on_connection_closed(7);
    assert_eq!(cancelled, vec![command]);
    w.settle();
    assert!(w.delivered(&command).is_none(), "no caller to deliver to");
    assert!(w.frontend.collector().trace().iter().any(|e| matches!(
        e,
        CollectorEvent::Released {
            delivered: false,
            ..
        }
    )));
    // Resolution by identity on a new connection.
    let resolved = w.resolve(8, 1, command);
    assert_eq!(resolved.command_id, command);
    assert_eq!(ok_result(&resolved).0, Some(1));
    // A different command identity under the same retry key conflicts.
    let other = CommandId(d(0xee));
    assert_eq!(
        err_code(&w.resolve(8, 1, other)),
        ErrorCode::RequestIdentityConflict
    );
    // A retry with the same payload returns the retained outcome without a
    // second fan-out.
    let fanned = w.hops.len();
    let (_, action) = w.submit(8, 1, put(b"c", b"1"));
    match action {
        Action::Respond(d) => assert_eq!(ok_result(response_of(&d)).0, Some(1)),
        _ => panic!("not a response"),
    }
    assert_eq!(w.hops.len(), fanned, "no second fan-out");
    // The same retry key with another payload is an identity conflict.
    let (_, action) = w.submit(8, 1, put(b"c", b"2"));
    match action {
        Action::Respond(d) => assert_eq!(
            err_code(response_of(&d)),
            ErrorCode::RequestIdentityConflict
        ),
        _ => panic!("not a response"),
    }
    // An unknown identity is unknown, not failed.
    assert!(matches!(
        w.resolve(8, 99, command).outcome,
        OutcomeV1::Unknown
    ));
    assert!(w.hops.len() > hops_before);

    // A client deadline: the caller hears "unknown", the command keeps
    // collecting and resolves later.
    let mut w = World::new(22);
    w.delay_to_frontend.insert(0, 30);
    w.delay_to_frontend.insert(1, 30);
    w.delay_to_frontend.insert(2, 30);
    let (command, _) = w.submit_with_deadline(9, 1, put(b"d", b"1"), 5);
    w.run_ticks(8);
    let (at, response) = w.delivered(&command).expect("deadline reported");
    assert!(
        matches!(response.outcome, OutcomeV1::Pending),
        "unknown, not failed"
    );
    assert!(at >= 5);
    assert!(w.frontend.collector().is_pending(&command));
    assert!(matches!(
        w.resolve(9, 1, command).outcome,
        OutcomeV1::Pending
    ));
    w.settle();
    assert_eq!(ok_result(&w.resolve(9, 1, command)).0, Some(1));
    // The deadline delivery was the only one.
    assert_eq!(w.deliveries.len(), 1);
}

fn released(command: CommandId, at: Ballot, n: u64, digest: u8, fast: bool, response: u8) -> ReleasedResult {
    ReleasedResult {
        evidence: EstablishmentEvidence {
            command,
            epoch: epoch(),
            ballot: at,
            position: ExecutionPosition(n),
            closed_predecessors: vec![],
            result_digest: d(digest),
            revision: Some(KvRevision(n)),
            fast_path: fast,
        },
        response: vec![response],
        speculative: fast,
    }
}

#[test]
fn voter_identities_are_counted_rather_than_connections() {
    let mut c = Collector::new(CollectorConfig {
        quorum: quorum(3),
        max_pending: 8,
        max_resolved: 8,
        max_undelivered_bytes: usize::MAX,
        limits: LIMITS,
    });
    let (command, request) = admitted(1, put(b"x", b"1"));
    let Submitted::FanOut(fan_out) = submit_to(&mut c, &request).unwrap() else {
        panic!()
    };
    assert_eq!(
        fan_out.targets,
        vec![r(0), r(1), r(2)],
        "every voter, at once"
    );
    let path = d(1);
    let admission = c.admission(&command).unwrap();
    let reply = ProtocolMessage::LeaderReply {
        ballot: ballot(),
        command,
        seqnum: 1,
        deps: vec![],
        path,
    };
    // The leader's release, before any vote: held.
    assert!(matches!(
        c.on_release(provenance(r(1), 5), released(command, ballot(), 1, 2, true, 0xaa)),
        Err(EvidenceError::NotLeader { sender }) if sender == r(1)
    ));
    assert!(is_held(
        c.on_release(provenance(r(0), 1), released(command, ballot(), 1, 2, true, 0xaa)),
        HoldReason::AwaitingVotes
    ));
    // The leader's proposal plus one adopter is the slow majority of three.
    let slow = |replica: u8| {
        ProtocolMessage::SlowAck(SlowAck {
            replica: r(replica),
            ballot: ballot(),
            command,
            admission,
        })
    };
    assert!(is_held(
        c.on_evidence(&hash, provenance(r(0), 1), reply),
        HoldReason::AwaitingVotes
    ));
    match c.on_evidence(&hash, provenance(r(2), 20), slow(2)) {
        Ok(Progress::Released(release)) => {
            assert!(!release.fast);
            assert_eq!(ok_result(&release.response), (Some(1), vec![0xaa]));
        }
        other => panic!("{other:?}"),
    }
    assert!(!c.is_pending(&command));
    for connection in [21, 22] {
        assert!(
            matches!(
                c.on_evidence(&hash, provenance(r(2), connection), slow(2)),
                Ok(Progress::Settled)
            ),
            "late duplicates over other connections change nothing"
        );
    }
    // A fresh command: identities, not connections.
    let (command, request) = admitted(2, put(b"y", b"1"));
    submit_to(&mut c, &request).unwrap();
    let admission = c.admission(&command).unwrap();
    let reply = ProtocolMessage::LeaderReply {
        ballot: ballot(),
        command,
        seqnum: 2,
        deps: vec![],
        path,
    };
    let fast = |replica: u8, path: Digest32, deps: Vec<CommandId>| {
        ProtocolMessage::FastAck(FastAck {
            replica: r(replica),
            ballot: ballot(),
            command,
            deps,
            paths: vec![],
            path,
            admission,
            seqnum: None,
        })
    };
    assert!(
        matches!(
            c.on_evidence(&hash, provenance(r(2), 3), fast(1, path, vec![])),
            Err(EvidenceError::SenderMismatch { sender, claimed })
                if sender == r(2) && claimed == r(1)
        ),
        "a connection bound to r2 cannot speak for r1"
    );
    assert!(matches!(
        c.on_evidence(&hash, provenance(r(9), 4), fast(9, path, vec![])),
        Err(EvidenceError::Vote(VoteError::NotAVoter))
    ));
    assert!(matches!(
        c.on_evidence(&hash, provenance(r(2), 3), fast(2, path, vec![])),
        Err(EvidenceError::Vote(VoteError::NotInFastSet))
    ));
    let elsewhere = CommandId(d(0x33));
    assert!(
        is_held(
            c.on_evidence(&hash, provenance(r(1), 5), fast(1, d(9), vec![elsewhere])),
            HoldReason::AwaitingVotes
        ),
        "a path and order disagreement is counted but learns nothing"
    );
    assert!(
        matches!(
            c.on_evidence(&hash, provenance(r(1), 6), fast(1, path, vec![])),
            Err(EvidenceError::Vote(VoteError::Duplicate))
        ),
        "the same identity over another connection is a duplicate"
    );
    assert!(
        is_held(
            c.on_evidence(&hash, provenance(r(0), 1), reply),
            HoldReason::AwaitingVotes
        ),
        "leader plus one disagreeing fast member: neither fast nor slow"
    );
    // A release for another ballot is refused; the right one is held until
    // the slow majority adopts.
    let another = Ballot {
        number: 1,
        ..ballot()
    };
    assert!(matches!(
        c.on_release(provenance(r(0), 1), released(command, another, 2, 3, false, 0xbb)),
        Err(EvidenceError::WrongBallot)
    ));
    assert!(is_held(
        c.on_release(provenance(r(0), 1), released(command, ballot(), 2, 3, false, 0xbb)),
        HoldReason::AwaitingVotes
    ));
    let slow = |replica: u8| {
        ProtocolMessage::SlowAck(SlowAck {
            replica: r(replica),
            ballot: ballot(),
            command,
            admission,
        })
    };
    match c.on_evidence(&hash, provenance(r(2), 3), slow(2)) {
        Ok(Progress::Released(release)) => {
            assert!(!release.fast);
            assert_eq!(release.command, command);
            assert_eq!(ok_result(&release.response), (Some(2), vec![0xbb]));
        }
        other => panic!("{other:?}"),
    }
    // Evidence after release is harmless.
    assert!(matches!(
        c.on_evidence(&hash, provenance(r(1), 5), slow(1)),
        Ok(Progress::Settled)
    ));
}

fn only_collector() -> Collector {
    Collector::new(CollectorConfig {
        quorum: quorum(3),
        max_pending: 8,
        max_resolved: 8,
        max_undelivered_bytes: usize::MAX,
        limits: LIMITS,
    })
}

#[test]
fn an_acknowledgement_under_other_facts_takes_no_slot() {
    let mut c = only_collector();
    let (command, request) = admitted(1, put(b"x", b"1"));
    submit_to(&mut c, &request).unwrap();
    let admission = c.admission(&command).unwrap();
    let slow = |admission: Digest32| {
        ProtocolMessage::SlowAck(SlowAck {
            replica: r(2),
            ballot: ballot(),
            command,
            admission,
        })
    };
    assert!(matches!(
        c.on_evidence(&hash, provenance(r(2), 1), slow(d(0x77))),
        Err(EvidenceError::AdmissionMismatch)
    ));
    assert!(
        is_held(
            c.on_evidence(&hash, provenance(r(2), 1), slow(admission)),
            HoldReason::AwaitingVotes
        ),
        "the voter may still acknowledge this request"
    );
    assert!(matches!(
        c.on_evidence(&hash, provenance(r(2), 1), slow(admission)),
        Err(EvidenceError::Vote(VoteError::Duplicate))
    ));
}

#[test]
fn each_missing_half_has_its_reason() {
    let mut c = only_collector();
    let (command, request) = admitted(1, put(b"x", b"1"));
    submit_to(&mut c, &request).unwrap();
    let admission = c.admission(&command).unwrap();
    let reply = ProtocolMessage::LeaderReply {
        ballot: ballot(),
        command,
        seqnum: 1,
        deps: vec![],
        path: d(1),
    };
    assert!(is_held(
        c.on_evidence(&hash, provenance(r(0), 1), reply),
        HoldReason::AwaitingVotes
    ));
    let slow = ProtocolMessage::SlowAck(SlowAck {
        replica: r(2),
        ballot: ballot(),
        command,
        admission,
    });
    assert!(is_held(
        c.on_evidence(&hash, provenance(r(2), 1), slow),
        HoldReason::AwaitingRelease
    ));
    assert!(matches!(
        c.on_release(provenance(r(0), 1), released(command, ballot(), 1, 2, true, 0xaa)),
        Ok(Progress::Released(_))
    ));
}

#[test]
fn a_second_release_agrees_in_its_revision_too() {
    let mut c = only_collector();
    let (command, request) = admitted(1, put(b"x", b"1"));
    submit_to(&mut c, &request).unwrap();
    let admission = c.admission(&command).unwrap();
    let first = || released(command, ballot(), 1, 2, true, 0xaa);
    assert!(is_held(
        c.on_release(provenance(r(0), 1), first()),
        HoldReason::AwaitingVotes
    ));
    let mut other = first();
    other.evidence.revision = Some(KvRevision(9));
    assert!(matches!(
        c.on_release(provenance(r(0), 1), other),
        Err(EvidenceError::ReleaseMismatch)
    ));
    let reply = ProtocolMessage::LeaderReply {
        ballot: ballot(),
        command,
        seqnum: 1,
        deps: vec![],
        path: d(1),
    };
    let _ = c.on_evidence(&hash, provenance(r(0), 1), reply);
    let slow = ProtocolMessage::SlowAck(SlowAck {
        replica: r(2),
        ballot: ballot(),
        command,
        admission,
    });
    match c.on_evidence(&hash, provenance(r(2), 1), slow) {
        Ok(Progress::Released(release)) => {
            assert_eq!(ok_result(&release.response), (Some(1), vec![0xaa]));
        }
        other => panic!("{other:?}"),
    }
}

#[test]
fn a_refusal_is_traced_with_the_identities_it_is_about() {
    let mut c = only_collector();
    let (command, request) = admitted(1, put(b"x", b"1"));
    submit_to(&mut c, &request).unwrap();
    let admission = c.admission(&command).unwrap();
    c.take_trace();
    let forged = ProtocolMessage::SlowAck(SlowAck {
        replica: r(1),
        ballot: ballot(),
        command,
        admission,
    });
    let _ = c.on_evidence(&hash, provenance(r(2), 1), forged);
    let _ = c.on_release(provenance(r(1), 1), released(command, ballot(), 1, 2, true, 0xaa));
    let reasons: Vec<String> = c
        .take_trace()
        .into_iter()
        .filter_map(|e| match e {
            CollectorEvent::Evidence { reason, .. } => reason,
            _ => None,
        })
        .collect();
    let one = "01".repeat(16);
    let two = "02".repeat(16);
    assert_eq!(
        reasons,
        vec![
            format!("SenderMismatch {{ sender: {two}, claimed: {one} }}"),
            format!("NotLeader {{ sender: {one} }}"),
        ]
    );
}

#[test]
fn collection_is_bounded_per_domain_without_evicting_unresolved_work() {
    let mut w = World::with_bound(31, 2);
    w.drop_releases = true;
    let (c1, a1) = w.submit(1, 1, put(b"a", b"1"));
    let (c2, a2) = w.submit(1, 2, put(b"b", b"1"));
    assert!(matches!(a1, Action::FanOut(_)));
    assert!(matches!(a2, Action::FanOut(_)));
    let (_, a3) = w.submit(1, 3, put(b"c", b"1"));
    match a3 {
        Action::Respond(d) => assert_eq!(err_code(response_of(&d)), ErrorCode::Backpressure),
        _ => panic!("not a response"),
    }
    w.settle();
    assert_eq!(w.frontend.collector().pending(), 2, "nothing evicted");
    assert!(w.frontend.collector().is_pending(&c1) && w.frontend.collector().is_pending(&c2));
    // Cancellation frees no slot either: unresolved work is never dropped.
    w.frontend.on_connection_closed(1);
    let (_, a4) = w.submit(2, 4, put(b"d", b"1"));
    assert!(matches!(a4, Action::Respond(_)));
    // Direct collector bound: same refusal.
    let mut c = Collector::new(CollectorConfig {
        quorum: quorum(3),
        max_pending: 1,
        max_resolved: 1,
        max_undelivered_bytes: usize::MAX,
        limits: LIMITS,
    });
    assert!(matches!(
        submit_to(&mut c, &admitted(1, get(b"q")).1),
        Ok(Submitted::FanOut(_))
    ));
    assert!(matches!(
        submit_to(&mut c, &admitted(2, get(b"q")).1),
        Err(SubmitRefusal::Backpressure { pending: 1 })
    ));
    assert!(matches!(
        submit_to(&mut c, &admitted(1, get(b"q")).1),
        Ok(Submitted::Attached { .. })
    ));
}

#[test]
fn unary_and_finalized_watch_dispatch() {
    let mut w = World::new(41);
    // A client opens a watch from revision 1 on the follower's hub.
    let open = ClientMessage::WatchOpen(WatchOpenV1 {
        watch_id: 9,
        namespace: NamespaceId(5),
        key: b"w".to_vec(),
        range_end: None,
        start_revision: Some(KvRevision(1)),
        prev_kv: true,
        progress_notify: false,
    });
    match w.present(5, &caller(), WATCH_OPEN, Some(open)) {
        Action::RegisterWatch {
            connection: 5,
            watch_id: 9,
            spec,
        } => {
            assert_eq!(spec.key, b"w");
            assert_eq!(spec.queue_capacity, 16);
            w.nodes[1].watching = Some((WatchId(77), spec.key));
        }
        _ => panic!("not a registration"),
    }
    match w.frontend.watch_registered(5, 9, Ok(WatchId(77))) {
        Action::WatchOpened {
            connection: 5,
            watch_id: 9,
            id,
        } => assert_eq!(id, WatchId(77)),
        _ => panic!("not opened"),
    }
    assert!(w.pump(5, 9).is_empty());

    // Hold the followers' evidence so the leader has a tentative outcome
    // while nothing is applied yet.
    w.delay_to_frontend.insert(1, 40);
    w.delay_to_frontend.insert(2, 40);
    let (c1, _) = w.submit(1, 1, put(b"w", b"1"));
    w.run_ticks(2);
    let Machine::Leader(leader) = &w.nodes[0].machine else {
        unreachable!()
    };
    assert!(
        leader.tentative(&c1).is_some(),
        "the leader computed a tentative value"
    );
    assert!(
        w.nodes[1].executed.is_empty(),
        "nothing applied at the follower"
    );
    assert!(
        w.pump(5, 9).is_empty(),
        "a tentative value never reaches a watch"
    );
    let (c2, _) = w.submit(1, 2, put(b"w", b"2"));
    w.settle();
    assert!(w.delivered(&c1).is_some() && w.delivered(&c2).is_some());
    let messages = w.pump(5, 9);
    let mut revisions = Vec::new();
    for m in &messages {
        match m {
            ServerMessage::WatchEvents(e) => {
                assert_eq!(e.watch_id, 9);
                assert!(e.complete);
                assert_eq!(e.events.len(), 1);
                assert_eq!(e.events[0].key, b"w");
                revisions.push(e.revision.get());
            }
            other => panic!("{other:?}"),
        }
    }
    assert_eq!(revisions, vec![1, 2]);
    // Each delivered revision is applied on the follower that served it.
    assert_eq!(w.nodes[1].executed.len(), 2);
    // Close: the client's cancel is acknowledged and the watch is gone.
    let close = ClientMessage::WatchClose { watch_id: 9 };
    match w.present(5, &caller(), WATCH_CLOSE, Some(close)) {
        Action::WatchClosed { dropped, delivery } => {
            assert_eq!(dropped, Some(WatchId(77)));
            assert!(matches!(
                delivery.message,
                ServerMessage::WatchClose(c) if c.watch_id == 9
            ));
        }
        _ => panic!("not closed"),
    }
    let late = vec![WatchItem::Closed {
        reason: CloseReason::Cancelled,
        last_complete_revision: KvRevision(2),
    }];
    assert!(w.frontend.pump_watch(5, 9, &late).is_empty());
    assert!(w.frontend.watch(5, 9).is_none());

    // Unary: a read after the writes sees the applied value; a frame the
    // client may not send is a violation; a peer role cannot submit.
    let (c3, _) = w.submit(1, 3, get(b"w"));
    w.settle();
    let (_, response) = w.delivered(&c3).unwrap();
    let (_, result) = ok_result(response);
    assert_eq!(result, 2u64.to_be_bytes().to_vec());
    assert!(matches!(
        w.present(1, &caller(), 0x0101, Some(ClientMessage::Other)),
        Action::Violation { connection: 1, .. }
    ));
    let voter = Caller {
        role: PeerRole::Voter,
        ..caller()
    };
    let (_, req) = request(4, get(b"w"), 0);
    let cost = Some(req.logical.len());
    match w.present(
        1,
        &voter,
        REQUEST,
        Some(ClientMessage::Request { request: req, cost }),
    ) {
        Action::Respond(d) => assert_eq!(err_code(response_of(&d)), ErrorCode::NotAdmitted),
        _ => panic!("not a response"),
    }
    // A voter never admits a submission from a non-collector role.
    let (_, req) = request(5, get(b"w"), 0);
    let mut gate = Admission::new(cluster(), domain(), AdmissionLimits::for_requests(1 << 20));
    let admitted = take(&mut gate, &caller(), &req).unwrap();
    let Submitted::FanOut(fan_out) =
        submit_to(w.frontend.collector_mut(), &admitted.request).unwrap()
    else {
        panic!()
    };
    let ingress = |role| admitted_from_submit(role, false, &fan_out.frame, cluster(), domain());
    assert!(matches!(
        ingress(PeerRole::Client),
        Err(IngressError::RoleNotAuthorized(PeerRole::Client))
    ));
    assert!(matches!(
        ingress(PeerRole::Observer),
        Err(IngressError::RoleNotAuthorized(PeerRole::Observer))
    ));
    assert!(ingress(PeerRole::KineCollector).is_ok());
}

#[test]
fn the_trace_covers_every_transition_of_a_run() {
    let mut w = World::new(51);
    let (c1, _) = w.submit(1, 1, put(b"t", b"1"));
    w.settle();
    let (c2, _) = w.submit(2, 2, put(b"t", b"2"));
    w.frontend.on_connection_closed(2);
    w.settle();
    let _ = w.resolve(3, 2, c2);
    let _ = w.resolve(3, 1, CommandId(d(0)));
    let _ = w.submit(3, 1, put(b"t", b"1"));
    let _ = w.submit(3, 1, put(b"t", b"9"));
    let (c3, _) = w.submit(3, 3, put(b"t", b"1"));
    let stranger = ProtocolMessage::SlowAck(SlowAck {
        replica: r(9),
        ballot: ballot(),
        command: c3,
        admission: d(0),
    });
    assert!(w
        .frontend
        .collector_mut()
        .on_evidence(&hash, provenance(r(9), 1), stranger)
        .is_err());
    assert_ne!(c1, c3);
    let trace = w.frontend.collector_mut().take_trace();
    let kinds: Vec<&str> = trace
        .iter()
        .map(|e| match e {
            CollectorEvent::Submitted { .. } => "submitted",
            CollectorEvent::Attached { .. } => "attached",
            CollectorEvent::Retained { .. } => "retained",
            CollectorEvent::Refused { .. } => "refused",
            CollectorEvent::Reoffered { .. } => "reoffered",
            CollectorEvent::Undisseminated { .. } => "undisseminated",
            CollectorEvent::Evidence { .. } => "evidence",
            CollectorEvent::Held { .. } => "held",
            CollectorEvent::Released { .. } => "released",
            CollectorEvent::SettledFromRecord { .. } => "settled-from-record",
            CollectorEvent::Cancelled { .. } => "cancelled",
            CollectorEvent::Resolved { .. } => "resolved",
            CollectorEvent::TimedOut { .. } => "timed-out",
            CollectorEvent::Reconfigured { .. } => "reconfigured",
        })
        .collect();
    for k in [
        "submitted",
        "evidence",
        "held",
        "released",
        "cancelled",
        "resolved",
        "retained",
        "refused",
    ] {
        assert!(kinds.contains(&k), "trace covers {k}");
    }
    assert!(trace.iter().any(|e| matches!(
        e,
        CollectorEvent::Evidence { accepted: false, reason: Some(r), .. } if r.contains("NotAVoter")
    )));
    assert!(w.frontend.collector().trace().is_empty());
}

#[test]
fn a_retry_of_an_unresolved_request_takes_no_second_admission_slot() {
    let mut gate = Admission::new(
        cluster(),
        domain(),
        AdmissionLimits {
            max_pending_per_session: 1,
            max_request_bytes: 1 << 20,
        },
    );
    let (_, first) = request(1, put(b"a", b"1"), 0);
    take(&mut gate, &caller(), &first).expect("admitted");
    assert_eq!(gate.pending(&session()), 1);
    for _ in 0..8 {
        take(&mut gate, &caller(), &first)
            .expect("a retry of the same request is the same request");
        assert_eq!(gate.pending(&session()), 1, "no slot was taken");
    }
    // A different request is refused while the one slot is occupied.
    let (_, other) = request(2, put(b"b", b"2"), 0);
    assert!(matches!(
        take(&mut gate, &caller(), &other),
        Err(AdmissionRefusal::SessionBusy { pending: 1 })
    ));
    // One settlement frees the request, however many times it was retried,
    // and settling it again frees nothing else.
    gate.settled(&first.retry_key);
    assert_eq!(gate.pending(&session()), 0);
    gate.settled(&first.retry_key);
    take(&mut gate, &caller(), &other).expect("the slot is free");
    assert_eq!(gate.pending(&session()), 1);
}

#[test]
fn a_request_retried_on_a_new_connection_survives_the_old_one_closing() {
    let mut w = World::new(23);
    let (command, first) = w.submit(7, 1, put(b"c", b"1"));
    assert!(matches!(first, Action::FanOut(_)));
    // The client reconnects and retries the same request.
    let (again, second) = w.submit(8, 1, put(b"c", b"1"));
    assert_eq!(again, command, "the same request, not a new one");
    assert!(matches!(second, Action::Pending { .. }));
    // The old connection goes away: it owns nothing now.
    assert!(
        w.frontend.on_connection_closed(7).0.is_empty(),
        "the reattached request is not the old connection's to cancel"
    );
    w.settle();
    let (_, response) = w
        .delivered(&command)
        .expect("the release reaches the connection now attached");
    assert_eq!(response.command_id, command);
    let to = w
        .deliveries
        .iter()
        .find(|(_, d)| response_of(d).command_id == command)
        .map(|(_, d)| d.connection)
        .expect("delivered");
    assert_eq!(to, 8, "delivered to the connection that retried");
}

#[test]
fn a_release_larger_than_an_api_frame_still_reaches_the_collector() {
    let big = vec![0u8; 6 * 1024 * 1024];
    let released = ReleasedResult {
        evidence: EstablishmentEvidence {
            command: CommandId(d(1)),
            epoch: epoch(),
            ballot: ballot(),
            position: ExecutionPosition(2),
            closed_predecessors: vec![],
            result_digest: d(2),
            revision: Some(KvRevision(3)),
            fast_path: false,
        },
        response: big.clone(),
        speculative: false,
    };
    let frame = release_frame(&LIMITS, &released).expect("a large result still frames");
    let decoded = decode_release(&frame).expect("round trip");
    assert_eq!(decoded.response.len(), big.len());
}

#[test]
fn a_conflicting_retry_never_frees_the_original_request_s_slot() {
    let mut gate = Admission::new(
        cluster(),
        domain(),
        AdmissionLimits {
            max_pending_per_session: 1,
            max_request_bytes: 1 << 20,
        },
    );
    let (_, first) = request(1, put(b"a", b"1"), 0);
    let admitted = take(&mut gate, &caller(), &first).expect("admitted");
    assert!(admitted.reserved, "the first presentation took the slot");
    assert_eq!(gate.pending(&session()), 1);

    // The same retry key with a different payload: the collector refuses it,
    // and the refusal must not release the original's reservation.
    let (_, conflicting) = request(1, put(b"a", b"different"), 0);
    assert_eq!(conflicting.retry_key, first.retry_key);
    let again = take(&mut gate, &caller(), &conflicting)
        .expect("admission is by identity; the conflict is the collector's to see");
    assert!(
        !again.reserved,
        "a re-presentation of an outstanding key takes no slot"
    );
    gate.settled_reservation(&conflicting.retry_key, again.reserved);
    assert_eq!(
        gate.pending(&session()),
        1,
        "the original is still outstanding and still holds its slot"
    );

    // So a second request is still refused.
    let (_, other) = request(2, put(b"b", b"2"), 0);
    assert!(matches!(
        take(&mut gate, &caller(), &other),
        Err(AdmissionRefusal::SessionBusy { pending: 1 })
    ));
    // Settling the original frees it, as before.
    gate.settled(&first.retry_key);
    assert_eq!(gate.pending(&session()), 0);
    take(&mut gate, &caller(), &other).expect("the slot is free");
}
