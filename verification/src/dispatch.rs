//! Native dispatch at the frontend: unary requests and resolution through
//! admission and the collector, watches through the storage watch hub, which
//! publishes applied revisions only.
//!
//! The runtime decodes every frame of an API-class connection, hands it to
//! [`Dispatcher::on_frame`] with the connection's verified caller, and takes
//! back an [`Action`]: a fan-out to perform, a response for that connection,
//! a watch to register with the hub, or a protocol violation to close on.
//! Evidence and releases from voters come through
//! [`Dispatcher::on_evidence`] and [`Dispatcher::on_release`] and yield the
//! delivery for the attached caller, if any. A closed connection cancels its
//! requests (identity and outcome resolution stay) and its watches.
//!
//! The hub is the runtime's: what it answers comes back as plain values, and
//! the subscriptions it has to forget are handed out by identifier.

use vstd::prelude::*;

use crate::admission::{Admission, AdmissionRefusal, Caller, GateView};
use crate::client::{
    AdmittedRequest, ErrorCode, PeerProvenance, PeerRole, RequestBody, RequestV1, ResolveRequestV1,
    ResponseV1, ResponseView, WireLimits,
};
use crate::clock::MonotonicMillis;
use crate::codec::{Wire, to_wire};
use crate::codes::{
    error_body, error_response, pending_body, pending_response, unknown_body, unknown_response,
};
use crate::collector::{
    Collector, CollectorView, EvidenceError, FanOut, FanOutView, Progress, ProgressView, Release,
    ReleaseView, Resolution, ResolutionView, SubmitRefusal, Submitted, SubmittedView,
};
use crate::effects::{ReleasedResult, ReleasedView};
use crate::hash::{HashDomain, digest, digest_of, is_hash};
use crate::ids::{
    ClientInstanceId, ClusterId, CommandId, Digest32, DomainId, KvRevision, RequestSequence,
    RetryKey, SessionId,
};
use crate::machine::{Derived, is_identity, lemma_views_push};
use crate::messages::{MessageView, ProtocolMessage};
use crate::ordered::{
    Dup, Key, OrdMap, OrdSet, Order, ascending, in_order, lemma_in_order, lemma_is_in_order, views,
};
use crate::watch::{
    EventsBody, ItemView, WatchCloseReasonV1, WatchCloseV1, WatchEventsV1, WatchItem,
    WatchProgressV1, close_reason, framed_batch, reason_told, watch_frames,
};

verus! {

/// A subscription at the watch hub.
#[derive(Clone, Copy, Debug, PartialEq, Eq, Structural)]
pub struct WatchId(pub u64);

impl View for WatchId {
    type V = WatchId;

    open spec fn view(&self) -> WatchId {
        *self
    }
}

/// A client's watch: its connection and the identifier the client chose.
#[derive(Clone, Copy, Debug, PartialEq, Eq, Structural)]
pub struct WatchKey {
    /// Connection.
    pub connection: u64,
    /// Client watch identifier.
    pub watch_id: u64,
}

impl View for WatchKey {
    type V = WatchKey;

    open spec fn view(&self) -> WatchKey {
        *self
    }
}

impl Key for WatchKey {
    open spec fn before(a: WatchKey, b: WatchKey) -> bool {
        a.connection < b.connection || a.connection == b.connection && a.watch_id < b.watch_id
    }

    proof fn irreflexive(a: WatchKey) {
    }

    proof fn transitive(a: WatchKey, b: WatchKey, c: WatchKey) {
    }

    proof fn total(a: WatchKey, b: WatchKey) {
    }

    fn order(&self, other: &Self) -> (r: Order) {
        if self.connection < other.connection || self.connection == other.connection
            && self.watch_id < other.watch_id {
            Order::Before
        } else if *self == *other {
            Order::Same
        } else {
            Order::After
        }
    }

    fn copy_key(&self) -> (r: Self) {
        *self
    }
}

/// A namespace of keys.
#[derive(Clone, Copy, Debug, PartialEq, Eq, Structural)]
pub struct NamespaceId(pub u128);

/// What a subscription selects and how it is served.
#[derive(Debug)]
pub struct WatchSpec {
    /// Namespace.
    pub namespace: NamespaceId,
    /// First key.
    pub key: Vec<u8>,
    /// End of the key range, where it is one.
    pub range_end: Option<Vec<u8>>,
    /// First revision, where the past is asked for.
    pub start_revision: Option<KvRevision>,
    /// Whether changes carry what was there before.
    pub prev_kv: bool,
    /// Whether progress is reported without a change.
    pub progress_notify: bool,
    /// Items queued at once.
    pub queue_capacity: usize,
}

/// What a subscription selects.
#[verifier::ext_equal]
pub struct WatchSpecView {
    /// Namespace.
    pub namespace: NamespaceId,
    /// First key.
    pub key: Seq<u8>,
    /// End of the key range.
    pub range_end: Option<Seq<u8>>,
    /// First revision.
    pub start_revision: Option<KvRevision>,
    /// Whether changes carry what was there before.
    pub prev_kv: bool,
    /// Whether progress is reported without a change.
    pub progress_notify: bool,
    /// Items queued at once.
    pub queue_capacity: usize,
}

/// What an optional key is.
pub open spec fn key_view(k: Option<Vec<u8>>) -> Option<Seq<u8>> {
    match k {
        Some(x) => Some(x@),
        None => None,
    }
}

impl View for WatchSpec {
    type V = WatchSpecView;

    open spec fn view(&self) -> WatchSpecView {
        WatchSpecView {
            namespace: self.namespace,
            key: self.key@,
            range_end: key_view(self.range_end),
            start_revision: self.start_revision,
            prev_kv: self.prev_kv,
            progress_notify: self.progress_notify,
            queue_capacity: self.queue_capacity,
        }
    }
}

/// A client asks for a watch.
#[derive(Debug)]
pub struct WatchOpenV1 {
    /// Client watch identifier.
    pub watch_id: u64,
    /// Namespace.
    pub namespace: NamespaceId,
    /// First key.
    pub key: Vec<u8>,
    /// End of the key range, where it is one.
    pub range_end: Option<Vec<u8>>,
    /// First revision, where the past is asked for.
    pub start_revision: Option<KvRevision>,
    /// Whether changes carry what was there before.
    pub prev_kv: bool,
    /// Whether progress is reported without a change.
    pub progress_notify: bool,
}

/// What a client asks to watch.
#[verifier::ext_equal]
pub struct WatchOpenView {
    /// Client watch identifier.
    pub watch_id: u64,
    /// Namespace.
    pub namespace: NamespaceId,
    /// First key.
    pub key: Seq<u8>,
    /// End of the key range.
    pub range_end: Option<Seq<u8>>,
    /// First revision.
    pub start_revision: Option<KvRevision>,
    /// Whether changes carry what was there before.
    pub prev_kv: bool,
    /// Whether progress is reported without a change.
    pub progress_notify: bool,
}

impl View for WatchOpenV1 {
    type V = WatchOpenView;

    open spec fn view(&self) -> WatchOpenView {
        WatchOpenView {
            watch_id: self.watch_id,
            namespace: self.namespace,
            key: self.key@,
            range_end: key_view(self.range_end),
            start_revision: self.start_revision,
            prev_kv: self.prev_kv,
            progress_notify: self.progress_notify,
        }
    }
}

/// The subscription a watch request asks the hub for.
pub open spec fn spec_of(open: WatchOpenView, queue_capacity: usize) -> WatchSpecView {
    WatchSpecView {
        namespace: open.namespace,
        key: open.key,
        range_end: open.range_end,
        start_revision: open.start_revision,
        prev_kv: open.prev_kv,
        progress_notify: open.progress_notify,
        queue_capacity,
    }
}

/// A decoded frame of a client connection.
#[derive(Debug)]
pub enum ClientMessage {
    /// A request, with what it costs as the protocol counts it; absent where
    /// its logical payload is not canonical.
    Request {
        /// The request.
        request: RequestV1,
        /// What it costs.
        cost: Option<usize>,
    },
    /// A question for an outcome.
    ResolveRequest(ResolveRequestV1),
    /// A watch is asked for.
    WatchOpen(WatchOpenV1),
    /// A watch is cancelled.
    WatchClose {
        /// Client watch identifier.
        watch_id: u64,
    },
    /// Any other message: none a client may send here.
    Other,
}

/// What a client sent.
#[verifier::ext_equal]
pub enum ClientView {
    /// A request.
    Request {
        /// The request.
        request: RequestBody,
        /// What it costs.
        cost: Option<usize>,
    },
    /// A question for an outcome.
    ResolveRequest(ResolveRequestV1),
    /// A watch is asked for.
    WatchOpen(WatchOpenView),
    /// A watch is cancelled.
    WatchClose {
        /// Client watch identifier.
        watch_id: u64,
    },
    /// Any other message.
    Other,
}

impl View for ClientMessage {
    type V = ClientView;

    open spec fn view(&self) -> ClientView {
        match self {
            ClientMessage::Request { request, cost } => ClientView::Request {
                request: request@,
                cost: *cost,
            },
            ClientMessage::ResolveRequest(r) => ClientView::ResolveRequest(*r),
            ClientMessage::WatchOpen(o) => ClientView::WatchOpen(o@),
            ClientMessage::WatchClose { watch_id } => ClientView::WatchClose {
                watch_id: *watch_id,
            },
            ClientMessage::Other => ClientView::Other,
        }
    }
}

/// A message for a client.
#[derive(Debug)]
pub enum ServerMessage {
    /// The answer to a request.
    Response(ResponseV1),
    /// A fragment of a revision.
    WatchEvents(WatchEventsV1),
    /// Progress without a change.
    WatchProgress(WatchProgressV1),
    /// The end of a watch.
    WatchClose(WatchCloseV1),
}

/// A message for a client.
#[verifier::ext_equal]
pub enum ServerView {
    /// The answer to a request.
    Response(ResponseView),
    /// A fragment of a revision.
    WatchEvents(EventsBody),
    /// Progress without a change.
    WatchProgress(WatchProgressV1),
    /// The end of a watch.
    WatchClose(WatchCloseV1),
}

impl View for ServerMessage {
    type V = ServerView;

    open spec fn view(&self) -> ServerView {
        match self {
            ServerMessage::Response(r) => ServerView::Response(r@),
            ServerMessage::WatchEvents(e) => ServerView::WatchEvents(e@),
            ServerMessage::WatchProgress(p) => ServerView::WatchProgress(*p),
            ServerMessage::WatchClose(c) => ServerView::WatchClose(*c),
        }
    }
}

/// A response for a connection.
#[derive(Debug)]
pub struct Delivery {
    /// Connection the caller is attached on.
    pub connection: u64,
    /// Retry key.
    pub retry_key: RetryKey,
    /// The message to frame.
    pub message: ServerMessage,
}

/// A response for a connection.
#[verifier::ext_equal]
pub struct DeliveryOut {
    /// Connection the caller is attached on.
    pub connection: u64,
    /// Retry key.
    pub retry_key: RetryKey,
    /// The message.
    pub message: ServerView,
}

impl View for Delivery {
    type V = DeliveryOut;

    open spec fn view(&self) -> DeliveryOut {
        DeliveryOut {
            connection: self.connection,
            retry_key: self.retry_key,
            message: self.message@,
        }
    }
}

/// What an optional delivery is.
pub open spec fn delivery_view(d: Option<Delivery>) -> Option<DeliveryOut> {
    match d {
        Some(x) => Some(x@),
        None => None,
    }
}

/// What the runtime does next.
#[allow(inconsistent_fields)]
pub enum Action {
    /// Fan the submission out to every target in parallel.
    FanOut(FanOut),
    /// Write this message back on the request's stream.
    Respond(Delivery),
    /// The request is pending; the stream stays open until a delivery.
    Pending {
        /// Command.
        command: CommandId,
    },
    /// Register this watch with the hub and report what it answered.
    RegisterWatch {
        /// Connection.
        connection: u64,
        /// Client watch identifier.
        watch_id: u64,
        /// What to register.
        spec: WatchSpec,
    },
    /// A watch was registered: replay it, then pump it.
    WatchOpened {
        /// Connection.
        connection: u64,
        /// Client watch identifier.
        watch_id: u64,
        /// Hub subscription.
        id: WatchId,
    },
    /// A watch was cancelled by its client: have the hub forget it, if it
    /// knew it, and write the message back.
    WatchClosed {
        /// Hub subscription to forget.
        dropped: Option<WatchId>,
        /// Acknowledgement.
        delivery: Delivery,
    },
    /// A frame the connection may not send: close with a protocol code.
    Violation {
        /// Connection.
        connection: u64,
        /// Kind seen.
        kind: u16,
    },
}

/// What the runtime does next.
#[allow(inconsistent_fields)]
#[verifier::ext_equal]
pub enum ActionView {
    /// Fan the submission out.
    FanOut(FanOutView),
    /// Write a message back.
    Respond(DeliveryOut),
    /// The request is pending.
    Pending {
        /// Command.
        command: CommandId,
    },
    /// Register a watch with the hub.
    RegisterWatch {
        /// Connection.
        connection: u64,
        /// Client watch identifier.
        watch_id: u64,
        /// What to register.
        spec: WatchSpecView,
    },
    /// A watch was registered.
    WatchOpened {
        /// Connection.
        connection: u64,
        /// Client watch identifier.
        watch_id: u64,
        /// Hub subscription.
        id: WatchId,
    },
    /// A watch was cancelled by its client.
    WatchClosed {
        /// Hub subscription to forget.
        dropped: Option<WatchId>,
        /// Acknowledgement.
        delivery: DeliveryOut,
    },
    /// A frame the connection may not send.
    Violation {
        /// Connection.
        connection: u64,
        /// Kind seen.
        kind: u16,
    },
}

impl View for Action {
    type V = ActionView;

    open spec fn view(&self) -> ActionView {
        match self {
            Action::FanOut(f) => ActionView::FanOut(f@),
            Action::Respond(d) => ActionView::Respond(d@),
            Action::Pending { command } => ActionView::Pending { command: *command },
            Action::RegisterWatch { connection, watch_id, spec } => ActionView::RegisterWatch {
                connection: *connection,
                watch_id: *watch_id,
                spec: spec@,
            },
            Action::WatchOpened { connection, watch_id, id } => ActionView::WatchOpened {
                connection: *connection,
                watch_id: *watch_id,
                id: *id,
            },
            Action::WatchClosed { dropped, delivery } => ActionView::WatchClosed {
                dropped: *dropped,
                delivery: delivery@,
            },
            Action::Violation { connection, kind } => ActionView::Violation {
                connection: *connection,
                kind: *kind,
            },
        }
    }
}

/// The frontend dispatcher of one domain.
pub struct Dispatcher {
    admission: Admission,
    collector: Collector,
    owner: OrdMap<RetryKey, u64>,
    by_connection: OrdMap<u64, OrdSet<RetryKey>>,
    watches: OrdMap<WatchKey, WatchId>,
    watch_queue: usize,
    limits: WireLimits,
}

/// What a dispatcher holds.
#[verifier::ext_equal]
pub struct DispatchView {
    /// The admission gate.
    pub gate: GateView,
    /// The collector.
    pub collector: CollectorView,
    /// The connection that waits for each request.
    pub owner: Map<RetryKey, u64>,
    /// The requests each connection waits for.
    pub by_connection: Map<u64, Set<RetryKey>>,
    /// Hub subscriptions by connection and client watch identifier.
    pub watches: Map<WatchKey, WatchId>,
    /// Items a watch may queue.
    pub watch_queue: usize,
    /// What the wire carries.
    pub limits: WireLimits,
}

impl View for Dispatcher {
    type V = DispatchView;

    closed spec fn view(&self) -> DispatchView {
        DispatchView {
            gate: self.admission@,
            collector: self.collector@,
            owner: self.owner@,
            by_connection: self.by_connection@,
            watches: self.watches@,
            watch_queue: self.watch_queue,
            limits: self.limits,
        }
    }
}

/// The identity a refusal names when no canonical command exists: the retry
/// key's own digest under the command domain, so a client can correlate the
/// refusal with its invocation.
pub open spec fn named_by_key<H: Fn(HashDomain, Vec<Vec<u8>>) -> Digest32>(
    hash: H,
    key: RetryKey,
) -> CommandId {
    CommandId(digest_of(hash, HashDomain::CommandId, seq![RetryKey::wire(key)]))
}

/// The identity a refusal names when no canonical command exists.
pub fn command_of<H: Fn(HashDomain, Vec<Vec<u8>>) -> Digest32>(hash: &H, key: &RetryKey) -> (r:
    CommandId)
    requires
        is_hash(*hash),
    ensures
        r == named_by_key(*hash, *key),
{
    let mut parts: Vec<Vec<u8>> = Vec::new();
    parts.push(to_wire(key));
    proof {
        assert(views(parts@) =~= seq![RetryKey::wire(*key)]);
    }
    CommandId(digest(hash, HashDomain::CommandId, parts))
}

/// The retry key of a message that answers no request.
pub open spec fn no_request() -> RetryKey {
    RetryKey {
        cluster_id: ClusterId(0),
        domain_id: DomainId(0),
        session_id: SessionId(0),
        client_instance_id: ClientInstanceId(0),
        request_sequence: RequestSequence(1),
    }
}

fn null_key() -> (r: RetryKey)
    ensures
        r == no_request(),
{
    RetryKey {
        cluster_id: ClusterId(0),
        domain_id: DomainId(0),
        session_id: SessionId(0),
        client_instance_id: ClientInstanceId(0),
        request_sequence: RequestSequence(1),
    }
}

/// What a client is told of an admission refusal.
pub open spec fn admission_error(refusal: AdmissionRefusal) -> (ErrorCode, Seq<char>) {
    match refusal {
        AdmissionRefusal::Malformed => (ErrorCode::MalformedRequest, "malformed"@),
        AdmissionRefusal::SessionBusy { .. } => (ErrorCode::Backpressure, "session busy"@),
        AdmissionRefusal::RequestTooLarge { .. } => (ErrorCode::NotAdmitted, "request too large"@),
        AdmissionRefusal::RoleNotAdmitted(_) => (ErrorCode::NotAdmitted, "not admitted"@),
        AdmissionRefusal::WrongCluster => (ErrorCode::NotAdmitted, "not admitted"@),
        AdmissionRefusal::WrongDomain => (ErrorCode::NotAdmitted, "not admitted"@),
        AdmissionRefusal::SessionMismatch => (ErrorCode::NotAdmitted, "not admitted"@),
    }
}

/// What a client is told of a submission refusal.
pub open spec fn submit_error(refusal: SubmitRefusal) -> (ErrorCode, Seq<char>) {
    match refusal {
        SubmitRefusal::Malformed => (ErrorCode::MalformedRequest, "malformed"@),
        SubmitRefusal::RequestIdentityConflict { .. } => (
            ErrorCode::RequestIdentityConflict,
            "retry key bound to another payload"@,
        ),
        SubmitRefusal::Backpressure { .. } => (
            ErrorCode::Backpressure,
            "domain at its collection bound"@,
        ),
    }
}

/// The answer to a question for an outcome.
pub open spec fn resolution_answer(
    limits: WireLimits,
    command: CommandId,
    resolution: ResolutionView,
) -> ResponseView {
    match resolution {
        ResolutionView::Outcome(r) => r,
        ResolutionView::Pending => pending_body(command),
        ResolutionView::Conflict { .. } => error_body(
            limits,
            command,
            ErrorCode::RequestIdentityConflict,
            "retry key bound to another payload"@,
        ),
        ResolutionView::Unknown => unknown_body(command),
    }
}

/// A response on a connection.
pub open spec fn answer_on(connection: u64, key: RetryKey, response: ResponseView) -> DeliveryOut {
    DeliveryOut { connection, retry_key: key, message: ServerView::Response(response) }
}

/// The end of a watch on a connection.
pub open spec fn close_on(
    connection: u64,
    watch_id: u64,
    reason: WatchCloseReasonV1,
    last: Option<KvRevision>,
) -> DeliveryOut {
    DeliveryOut {
        connection,
        retry_key: no_request(),
        message: ServerView::WatchClose(
            WatchCloseV1 { watch_id, reason, last_complete_revision: last },
        ),
    }
}

/// The revision before `revision`, where there is one.
pub open spec fn revision_before(revision: KvRevision) -> Option<KvRevision> {
    if revision.0 <= 1 {
        None
    } else {
        Some(KvRevision((revision.0 - 1) as u64))
    }
}

impl DispatchView {
    /// A dispatcher over a gate and a collector.
    pub open spec fn start(
        gate: GateView,
        collector: CollectorView,
        watch_queue: usize,
        limits: WireLimits,
    ) -> Self {
        DispatchView {
            gate,
            collector,
            owner: Map::empty(),
            by_connection: Map::empty(),
            watches: Map::empty(),
            watch_queue,
            limits,
        }
    }

    /// The requests a connection waits for.
    pub open spec fn waits_on(self, connection: u64) -> Set<RetryKey> {
        if self.by_connection.contains_key(connection) {
            self.by_connection[connection]
        } else {
            Set::empty()
        }
    }

    /// A connection becomes the one that waits for a request. A retry can
    /// arrive on a new connection: the one before no longer waits for it, so
    /// its close cancels nothing of the new owner's.
    pub open spec fn attached(self, connection: u64, key: RetryKey) -> Self {
        let kept = if self.owner.contains_key(key) && self.owner[key] != connection
            && self.by_connection.contains_key(self.owner[key]) {
            let left = self.by_connection[self.owner[key]].remove(key);
            if left == Set::<RetryKey>::empty() {
                self.by_connection.remove(self.owner[key])
            } else {
                self.by_connection.insert(self.owner[key], left)
            }
        } else {
            self.by_connection
        };
        DispatchView {
            owner: self.owner.insert(key, connection),
            by_connection: kept.insert(connection, self.waits_on(connection).insert(key)),
            ..self
        }
    }

    /// No connection waits for the request any more.
    pub open spec fn detached(self, key: RetryKey) -> Self {
        DispatchView {
            owner: self.owner.remove(key),
            by_connection: if self.owner.contains_key(key) && self.by_connection.contains_key(
                self.owner[key],
            ) {
                self.by_connection.insert(
                    self.owner[key],
                    self.by_connection[self.owner[key]].remove(key),
                )
            } else {
                self.by_connection
            },
            ..self
        }
    }

    /// A submission was answered: new and pending work attaches the
    /// connection, a retained outcome is the response.
    pub open spec fn attach_submitted(
        self,
        connection: u64,
        key: RetryKey,
        submitted: SubmittedView,
    ) -> (Self, ActionView) {
        match submitted {
            SubmittedView::FanOut(f) => (self.attached(connection, key), ActionView::FanOut(f)),
            SubmittedView::Attached { command } => (
                self.attached(connection, key),
                ActionView::Pending { command },
            ),
            SubmittedView::Resolved(response) => (
                self,
                ActionView::Respond(answer_on(connection, key, response)),
            ),
        }
    }

    /// A request of a client.
    pub open spec fn requested<
        H: Fn(HashDomain, Vec<Vec<u8>>) -> Digest32,
        D: Fn(RetryKey, Vec<u8>) -> Option<Derived>,
    >(
        self,
        hash: H,
        derive: D,
        now_ticks: u64,
        now: int,
        connection: u64,
        caller: Caller,
        request: RequestBody,
        cost: Option<usize>,
    ) -> (Self, ActionView) {
        let key = request.retry_key;
        let gated = DispatchView { gate: self.gate.presented(caller, key, cost), ..self };
        match self.gate.refusal(caller, key, cost) {
            Some(refusal) => (
                gated,
                ActionView::Respond(
                    answer_on(
                        connection,
                        key,
                        error_body(
                            self.limits,
                            named_by_key(hash, key),
                            admission_error(refusal).0,
                            admission_error(refusal).1,
                        ),
                    ),
                ),
            ),
            None => {
                let admitted = self.gate.admission(hash, now_ticks, caller, request);
                let reserved = !self.gate.of(caller.session).contains(key);
                let (collector, result) = self.collector.submitted(hash, derive, now, admitted);
                gated.collected(hash, connection, key, reserved, collector, result)
            },
        }
    }

    /// What the collector answered to an admitted request.
    pub open spec fn collected<H: Fn(HashDomain, Vec<Vec<u8>>) -> Digest32>(
        self,
        hash: H,
        connection: u64,
        key: RetryKey,
        reserved: bool,
        collector: CollectorView,
        result: Result<SubmittedView, SubmitRefusal>,
    ) -> (Self, ActionView) {
        let next = DispatchView { collector, ..self };
        match result {
            Ok(submitted) => if submitted is Resolved {
                // The invocation is finished, so its slot frees whoever
                // presented it.
                DispatchView { gate: next.gate.settled(key), ..next }.attach_submitted(
                    connection,
                    key,
                    submitted,
                )
            } else {
                next.attach_submitted(connection, key, submitted)
            },
            Err(refusal) => (
                // Only if this presentation took the slot: a conflicting
                // payload under a pending retry key is refused while the
                // original request still holds its reservation.
                DispatchView {
                    gate: if reserved {
                        next.gate.settled(key)
                    } else {
                        next.gate
                    },
                    ..next
                },
                ActionView::Respond(
                    answer_on(
                        connection,
                        key,
                        error_body(
                            self.limits,
                            named_by_key(hash, key),
                            submit_error(refusal).0,
                            submit_error(refusal).1,
                        ),
                    ),
                ),
            ),
        }
    }

    /// A client asks for an outcome: only its own session's.
    pub open spec fn asked(self, connection: u64, caller: Caller, resolve: ResolveRequestV1) -> (
        Self,
        ActionView,
    ) {
        if caller.role != PeerRole::Client || resolve.retry_key.session_id != caller.session {
            (
                self,
                ActionView::Respond(
                    answer_on(
                        connection,
                        resolve.retry_key,
                        error_body(
                            self.limits,
                            resolve.command_id,
                            ErrorCode::NotAdmitted,
                            "not admitted"@,
                        ),
                    ),
                ),
            )
        } else {
            (
                DispatchView { collector: self.collector.resolved_query(resolve), ..self },
                ActionView::Respond(
                    answer_on(
                        connection,
                        resolve.retry_key,
                        resolution_answer(
                            self.limits,
                            resolve.command_id,
                            self.collector.resolution(resolve),
                        ),
                    ),
                ),
            )
        }
    }

    /// The hub subscription of a watch.
    pub open spec fn subscription(self, connection: u64, watch_id: u64) -> Option<WatchId> {
        if self.watches.contains_key(WatchKey { connection, watch_id }) {
            Some(self.watches[WatchKey { connection, watch_id }])
        } else {
            None
        }
    }

    /// The dispatcher without a watch.
    pub open spec fn without_watch(self, connection: u64, watch_id: u64) -> Self {
        DispatchView { watches: self.watches.remove(WatchKey { connection, watch_id }), ..self }
    }

    /// One decoded frame of a connection.
    pub open spec fn received<
        H: Fn(HashDomain, Vec<Vec<u8>>) -> Digest32,
        D: Fn(RetryKey, Vec<u8>) -> Option<Derived>,
    >(
        self,
        hash: H,
        derive: D,
        now_ticks: u64,
        now: int,
        connection: u64,
        caller: Caller,
        kind: u16,
        message: Option<ClientView>,
    ) -> (Self, ActionView) {
        match message {
            None => (self, ActionView::Violation { connection, kind }),
            Some(ClientView::Request { request, cost }) => self.requested(
                hash,
                derive,
                now_ticks,
                now,
                connection,
                caller,
                request,
                cost,
            ),
            Some(ClientView::ResolveRequest(resolve)) => self.asked(connection, caller, resolve),
            Some(ClientView::WatchOpen(open)) => (
                self,
                if self.watches.contains_key(WatchKey { connection, watch_id: open.watch_id }) {
                    ActionView::Violation { connection, kind }
                } else {
                    ActionView::RegisterWatch {
                        connection,
                        watch_id: open.watch_id,
                        spec: spec_of(open, self.watch_queue),
                    }
                },
            ),
            Some(ClientView::WatchClose { watch_id }) => (
                self.without_watch(connection, watch_id),
                ActionView::WatchClosed {
                    dropped: self.subscription(connection, watch_id),
                    delivery: close_on(connection, watch_id, WatchCloseReasonV1::Cancelled, None),
                },
            ),
            Some(ClientView::Other) => (self, ActionView::Violation { connection, kind }),
        }
    }

    /// The messages of one item, and whether the watch ended with it.
    pub open spec fn item_messages(self, watch_id: u64, item: ItemView) -> (Seq<ServerView>, bool) {
        match item {
            ItemView::Batch(batch) => match framed_batch(self.limits, watch_id, batch) {
                Some(frames) => (
                    frames.map_values(|f: EventsBody| ServerView::WatchEvents(f)),
                    false,
                ),
                None => (
                    seq![
                        ServerView::WatchClose(
                            WatchCloseV1 {
                                watch_id,
                                reason: WatchCloseReasonV1::SourceLost,
                                last_complete_revision: revision_before(batch.revision),
                            },
                        ),
                    ],
                    true,
                ),
            },
            ItemView::Progress(revision) => (
                seq![ServerView::WatchProgress(WatchProgressV1 { watch_id, revision })],
                false,
            ),
            ItemView::Closed { reason, last_complete_revision } => (
                seq![
                    ServerView::WatchClose(
                        WatchCloseV1 {
                            watch_id,
                            reason: reason_told(reason),
                            last_complete_revision: if last_complete_revision.0 > 0 {
                                Some(last_complete_revision)
                            } else {
                                None
                            },
                        },
                    ),
                ],
                true,
            ),
        }
    }

    /// What the hub handed over for a watch, up to where the watch ended.
    pub open spec fn pumped(self, connection: u64, watch_id: u64, items: Seq<ItemView>) -> (
        Self,
        Seq<ServerView>,
    )
        decreases items.len(),
    {
        if items.len() == 0 {
            (self, Seq::empty())
        } else {
            let (before, sent) = self.pumped(connection, watch_id, items.drop_last());
            if !before.watches.contains_key(WatchKey { connection, watch_id }) {
                (before, sent)
            } else {
                let (more, ended) = before.item_messages(watch_id, items.last());
                (
                    if ended {
                        before.without_watch(connection, watch_id)
                    } else {
                        before
                    },
                    sent + more,
                )
            }
        }
    }

    /// A release is accounted: the session slot frees, nobody waits any
    /// more, and the attached caller gets its delivery.
    pub open spec fn settled(self, release: ReleaseView) -> (Self, Option<DeliveryOut>) {
        let key = release.retry_key;
        (
            DispatchView { gate: self.gate.settled(key), ..self }.detached(key),
            if release.attached && self.owner.contains_key(key) {
                Some(answer_on(self.owner[key], key, release.response))
            } else {
                None
            },
        )
    }

    /// Progress of a command reaches its caller.
    pub open spec fn delivered(self, progress: ProgressView) -> (Self, Option<DeliveryOut>) {
        match progress {
            ProgressView::Released(release) => self.settled(release),
            _ => (self, None),
        }
    }

    /// Evidence from a voter identity.
    pub open spec fn evidenced<H: Fn(HashDomain, Vec<Vec<u8>>) -> Digest32>(
        self,
        hash: H,
        from: PeerProvenance,
        message: MessageView,
    ) -> (Self, Result<Option<DeliveryOut>, EvidenceError>) {
        let (collector, result) = self.collector.evidenced(hash, from, message);
        let next = DispatchView { collector, ..self };
        match result {
            Ok(progress) => (next.delivered(progress).0, Ok(next.delivered(progress).1)),
            Err(e) => (next, Err(e)),
        }
    }

    /// A release from the leader.
    pub open spec fn release_taken(self, from: PeerProvenance, released: ReleasedView) -> (
        Self,
        Result<Option<DeliveryOut>, EvidenceError>,
    ) {
        let (collector, result) = self.collector.release_taken(from, released);
        let next = DispatchView { collector, ..self };
        match result {
            Ok(progress) => (next.delivered(progress).0, Ok(next.delivered(progress).1)),
            Err(e) => (next, Err(e)),
        }
    }

    /// The callers of these commands, if they wait, hear that the outcome is
    /// pending; the commands keep collecting.
    pub open spec fn told_pending(self, commands: Seq<(RetryKey, CommandId)>) -> (
        Self,
        Seq<DeliveryOut>,
    )
        decreases commands.len(),
    {
        if commands.len() == 0 {
            (self, Seq::empty())
        } else {
            let (before, sent) = self.told_pending(commands.drop_last());
            let (key, command) = commands.last();
            if before.owner.contains_key(key) {
                let freed = before.detached(key);
                (
                    DispatchView {
                        collector: freed.collector.cancelled(key).0,
                        gate: freed.gate.settled(key),
                        ..freed
                    },
                    sent.push(answer_on(before.owner[key], key, pending_body(command))),
                )
            } else {
                (before, sent)
            }
        }
    }

    /// The commands overdue at `now`, with their keys.
    pub open spec fn overdue(self, now: int) -> Seq<(RetryKey, CommandId)> {
        let late = self.collector.overdue(now);
        Seq::new(
            late.len(),
            |i: int| (self.collector.pending[late[i]].retry_key, late[i]),
        )
    }

    /// Client deadlines that passed.
    pub open spec fn expired(self, now: int) -> (Self, Seq<DeliveryOut>) {
        DispatchView { collector: self.collector.expired(now), ..self }.told_pending(
            self.overdue(now),
        )
    }

    /// The requests of `keys` lose their caller.
    pub open spec fn abandoned(self, keys: Seq<RetryKey>) -> (Self, Seq<CommandId>)
        decreases keys.len(),
    {
        if keys.len() == 0 {
            (self, Seq::empty())
        } else {
            let (before, cancelled) = self.abandoned(keys.drop_last());
            let key = keys.last();
            let (collector, command) = before.collector.cancelled(key);
            (
                DispatchView { owner: before.owner.remove(key), collector, ..before },
                match command {
                    Some(c) => cancelled.push(c),
                    None => cancelled,
                },
            )
        }
    }

    /// The watches of a connection, in order.
    pub open spec fn watches_of(self, connection: u64) -> Seq<WatchKey> {
        in_order::<WatchKey>(self.watches.dom().filter(|k: WatchKey| k.connection == connection))
    }

    /// A connection closed: its requests are cancelled (they keep collecting
    /// and stay resolvable), its watches are cancelled.
    pub open spec fn closed(self, connection: u64) -> (Self, Seq<CommandId>, Seq<WatchId>) {
        let (next, cancelled) = DispatchView {
            by_connection: self.by_connection.remove(connection),
            ..self
        }.abandoned(in_order::<RetryKey>(self.waits_on(connection)));
        (
            DispatchView {
                watches: self.watches.remove_keys(self.watches_of(connection).to_set()),
                ..next
            },
            cancelled,
            self.watches_of(connection).map_values(|k: WatchKey| self.watches[k]),
        )
    }
}

proof fn lemma_abandoned_keeps_watches(dispatcher: DispatchView, keys: Seq<RetryKey>)
    ensures
        dispatcher.abandoned(keys).0.watches == dispatcher.watches,
        dispatcher.abandoned(keys).0.by_connection == dispatcher.by_connection,
        dispatcher.abandoned(keys).0.gate == dispatcher.gate,
    decreases keys.len(),
{
    if keys.len() > 0 {
        lemma_abandoned_keeps_watches(dispatcher, keys.drop_last());
    }
}

/// `found` holds, in order, the members of `wanted` among `seen`.
spec fn chosen(found: Seq<WatchKey>, seen: Seq<WatchKey>, wanted: Set<WatchKey>) -> bool {
    &&& ascending::<WatchKey>(found)
    &&& forall|c: WatchKey|
        #![trigger found.contains(c)]
        found.contains(c) <==> seen.contains(c) && wanted.contains(c)
}

proof fn lemma_chosen_step(
    found: Seq<WatchKey>,
    order: Seq<WatchKey>,
    i: int,
    wanted: Set<WatchKey>,
)
    requires
        0 <= i < order.len(),
        ascending::<WatchKey>(order),
        chosen(found, order.take(i), wanted),
    ensures
        wanted.contains(order[i]) ==> chosen(found.push(order[i]), order.take(i + 1), wanted),
        !wanted.contains(order[i]) ==> chosen(found, order.take(i + 1), wanted),
{
    let k = order[i];
    let seen = order.take(i);
    let more = order.take(i + 1);
    let next = found.push(k);
    assert forall|c: WatchKey| #![trigger more.contains(c)] more.contains(c) <==> seen.contains(c) || c == k by {
        if seen.contains(c) {
            let j = choose|j: int| 0 <= j < seen.len() && seen[j] == c;
            assert(more[j] == c);
        }
        assert(more[i] == k);
        if more.contains(c) && c != k {
            let j = choose|j: int| 0 <= j < more.len() && more[j] == c;
            assert(seen[j] == c);
        }
    }
    assert forall|j: int| 0 <= j < found.len() implies WatchKey::before(#[trigger] found[j], k) by {
        assert(found.contains(found[j]));
        let m = choose|m: int| 0 <= m < seen.len() && seen[m] == found[j];
        assert(order[m] == found[j]);
    }
    assert forall|c: WatchKey| #![trigger next.contains(c)] next.contains(c) <==> found.contains(c) || c == k by {
        if found.contains(c) {
            let j = choose|j: int| 0 <= j < found.len() && found[j] == c;
            assert(next[j] == c);
        }
        assert(next[found.len() as int] == k);
        if next.contains(c) && c != k {
            let j = choose|j: int| 0 <= j < next.len() && next[j] == c;
            assert(found[j] == c);
        }
    }
}

proof fn lemma_chosen_all(
    found: Seq<WatchKey>,
    order: Seq<WatchKey>,
    all: Set<WatchKey>,
    wanted: Set<WatchKey>,
)
    requires
        all.finite(),
        order == in_order::<WatchKey>(all),
        wanted.subset_of(all),
        chosen(found, order, wanted),
    ensures
        found == in_order::<WatchKey>(wanted),
{
    lemma_in_order::<WatchKey>(all);
    assert forall|c: WatchKey| #[trigger] found.contains(c) <==> wanted.contains(c) by {
        if wanted.contains(c) {
            assert(order.contains(c));
        }
    }
    lemma_is_in_order::<WatchKey>(found, wanted);
}

fn respond(connection: u64, key: RetryKey, response: ResponseV1) -> (r: Delivery)
    ensures
        r@ == answer_on(connection, key, response@),
{
    Delivery { connection, retry_key: key, message: ServerMessage::Response(response) }
}

fn close_watch(
    connection: u64,
    watch_id: u64,
    reason: WatchCloseReasonV1,
    last: Option<KvRevision>,
) -> (r: Delivery)
    ensures
        r@ == close_on(connection, watch_id, reason, last),
{
    Delivery {
        connection,
        retry_key: null_key(),
        message: ServerMessage::WatchClose(
            WatchCloseV1 { watch_id, reason, last_complete_revision: last },
        ),
    }
}

fn admission_detail(refusal: &AdmissionRefusal) -> (r: (ErrorCode, &'static str))
    ensures
        (r.0, r.1@) == admission_error(*refusal),
{
    match refusal {
        AdmissionRefusal::Malformed => (ErrorCode::MalformedRequest, "malformed"),
        AdmissionRefusal::SessionBusy { .. } => (ErrorCode::Backpressure, "session busy"),
        AdmissionRefusal::RequestTooLarge { .. } => (ErrorCode::NotAdmitted, "request too large"),
        AdmissionRefusal::RoleNotAdmitted(_) => (ErrorCode::NotAdmitted, "not admitted"),
        AdmissionRefusal::WrongCluster => (ErrorCode::NotAdmitted, "not admitted"),
        AdmissionRefusal::WrongDomain => (ErrorCode::NotAdmitted, "not admitted"),
        AdmissionRefusal::SessionMismatch => (ErrorCode::NotAdmitted, "not admitted"),
    }
}

fn submit_detail(refusal: &SubmitRefusal) -> (r: (ErrorCode, &'static str))
    ensures
        (r.0, r.1@) == submit_error(*refusal),
{
    match refusal {
        SubmitRefusal::Malformed => (ErrorCode::MalformedRequest, "malformed"),
        SubmitRefusal::RequestIdentityConflict { .. } => (
            ErrorCode::RequestIdentityConflict,
            "retry key bound to another payload",
        ),
        SubmitRefusal::Backpressure { .. } => (
            ErrorCode::Backpressure,
            "domain at its collection bound",
        ),
    }
}

/// What a submission or a delivery attempt gave.
pub open spec fn action_result(r: Result<Action, SubmitRefusal>) -> Result<
    ActionView,
    SubmitRefusal,
> {
    match r {
        Ok(a) => Ok(a@),
        Err(e) => Err(e),
    }
}

/// What evidence gave.
pub open spec fn delivery_result(r: Result<Option<Delivery>, EvidenceError>) -> Result<
    Option<DeliveryOut>,
    EvidenceError,
> {
    match r {
        Ok(d) => Ok(delivery_view(d)),
        Err(e) => Err(e),
    }
}

/// What a decoded frame holds.
pub open spec fn message_view(m: Option<ClientMessage>) -> Option<ClientView> {
    match m {
        Some(x) => Some(x@),
        None => None,
    }
}

impl Dispatcher {
    /// A dispatcher over an admission gate and a collector.
    pub fn new(
        admission: Admission,
        collector: Collector,
        watch_queue: usize,
        limits: WireLimits,
    ) -> (r: Self)
        ensures
            r@ == DispatchView::start(admission@, collector@, watch_queue, limits),
    {
        Dispatcher {
            admission,
            collector,
            owner: OrdMap::new(),
            by_connection: OrdMap::new(),
            watches: OrdMap::new(),
            watch_queue,
            limits,
        }
    }

    /// The collector.
    pub fn collector(&self) -> (r: &Collector)
        ensures
            r@ == self@.collector,
    {
        &self.collector
    }

    /// The collector, mutably (reconfiguration, traces).
    pub fn collector_mut(&mut self) -> (r: &mut Collector)
        ensures
            r@ == old(self)@.collector,
            final(self)@ == (DispatchView { collector: final(r)@, ..old(self)@ }),
    {
        &mut self.collector
    }

    /// The admission gate.
    pub fn admission(&self) -> (r: &Admission)
        ensures
            r@ == self@.gate,
    {
        &self.admission
    }

    /// The hub subscription of a watch.
    pub fn watch(&self, connection: u64, watch_id: u64) -> (r: Option<WatchId>)
        ensures
            r == self@.subscription(connection, watch_id),
    {
        match self.watches.get(&WatchKey { connection, watch_id }) {
            Some(id) => Some(*id),
            None => None,
        }
    }

    fn attach(&mut self, connection: u64, key: RetryKey)
        ensures
            final(self)@ == old(self)@.attached(connection, key),
    {
        let ghost start = self@;
        let previous: Option<u64> = match self.owner.get(&key) {
            Some(c) => Some(*c),
            None => None,
        };
        self.owner.insert(key, connection);
        if let Some(p) = previous {
            if p != connection {
                if let Some(mut keys) = self.by_connection.remove(&p) {
                    keys.remove(&key);
                    if !keys.is_empty() {
                        self.by_connection.insert(p, keys);
                    }
                }
            }
        }
        let ghost kept = self.by_connection@;
        proof {
            let goal = if start.owner.contains_key(key) && start.owner[key] != connection
                && start.by_connection.contains_key(start.owner[key]) {
                let left = start.by_connection[start.owner[key]].remove(key);
                if left == Set::<RetryKey>::empty() {
                    start.by_connection.remove(start.owner[key])
                } else {
                    start.by_connection.insert(start.owner[key], left)
                }
            } else {
                start.by_connection
            };
            assert(kept =~= goal);
        }
        let mut keys = match self.by_connection.remove(&connection) {
            Some(k) => k,
            None => OrdSet::new(),
        };
        keys.insert(key);
        let ghost mine = keys@;
        self.by_connection.insert(connection, keys);
        proof {
            assert(mine =~= start.waits_on(connection).insert(key));
            assert(self.by_connection@ =~= kept.insert(connection, mine));
            assert(self@ =~= start.attached(connection, key));
        }
    }

    fn detach(&mut self, key: &RetryKey) -> (r: Option<u64>)
        ensures
            final(self)@ == old(self)@.detached(*key),
            r == (if old(self)@.owner.contains_key(*key) {
                Some(old(self)@.owner[*key])
            } else {
                None
            }),
    {
        let ghost start = self@;
        let connection = self.owner.remove(key);
        if let Some(c) = connection {
            if let Some(mut keys) = self.by_connection.remove(&c) {
                keys.remove(key);
                self.by_connection.insert(c, keys);
            }
        }
        proof {
            if start.owner.contains_key(*key) {
                let c = start.owner[*key];
                if start.by_connection.contains_key(c) {
                    assert(self.by_connection@ =~= start.by_connection.insert(
                        c,
                        start.by_connection[c].remove(*key),
                    ));
                } else {
                    assert(self.by_connection@ =~= start.by_connection);
                }
            }
            assert(self@ =~= start.detached(*key));
        }
        connection
    }

    fn attach_submitted(&mut self, connection: u64, key: RetryKey, submitted: Submitted) -> (r:
        Action)
        ensures
            (final(self)@, r@) == old(self)@.attach_submitted(connection, key, submitted@),
    {
        match submitted {
            Submitted::FanOut(fan_out) => {
                self.attach(connection, key);
                Action::FanOut(fan_out)
            },
            Submitted::Attached { command } => {
                self.attach(connection, key);
                Action::Pending { command }
            },
            Submitted::Resolved(response) => Action::Respond(respond(connection, key, response)),
        }
    }

    /// Submit an establishment the binding boundary admitted itself.
    ///
    /// It does not pass through the admission gate, and that is the point:
    /// admission asks what a caller's session admits, and this is the command
    /// that creates the session. What authorizes the submission is the
    /// receipt; what decides whether the session exists is replicated
    /// execution.
    ///
    /// The connection is attached to the invocation exactly as an ordinary
    /// request is.
    pub fn establish<
        H: Fn(HashDomain, Vec<Vec<u8>>) -> Digest32,
        D: Fn(RetryKey, Vec<u8>) -> Option<Derived>,
    >(
        &mut self,
        hash: &H,
        derive: &D,
        now: MonotonicMillis,
        connection: u64,
        admitted: &AdmittedRequest,
        retry_key: RetryKey,
    ) -> (r: Result<Action, SubmitRefusal>)
        requires
            is_hash(*hash),
            is_identity(*derive),
        ensures
            ({
                let (collector, result) = old(self)@.collector.submitted(
                    *hash,
                    *derive,
                    now@,
                    admitted@,
                );
                let next = DispatchView { collector, ..old(self)@ };
                match result {
                    Ok(submitted) => (final(self)@, action_result(r)) == (
                        next.attach_submitted(connection, retry_key, submitted).0,
                        Ok::<ActionView, SubmitRefusal>(
                            next.attach_submitted(connection, retry_key, submitted).1,
                        ),
                    ),
                    Err(e) => final(self)@ == next && r == Err::<Action, SubmitRefusal>(e),
                }
            }),
    {
        match self.collector.submit(hash, derive, now, admitted) {
            Ok(submitted) => Ok(self.attach_submitted(connection, retry_key, submitted)),
            Err(e) => Err(e),
        }
    }

    /// Dispatch one decoded frame of `connection` from `caller`: `kind` is
    /// the frame's, and `message` is absent where it did not decode.
    pub fn on_frame<
        H: Fn(HashDomain, Vec<Vec<u8>>) -> Digest32,
        D: Fn(RetryKey, Vec<u8>) -> Option<Derived>,
    >(
        &mut self,
        hash: &H,
        derive: &D,
        now_ticks: u64,
        now: MonotonicMillis,
        connection: u64,
        caller: &Caller,
        kind: u16,
        message: Option<ClientMessage>,
    ) -> (r: Action)
        requires
            is_hash(*hash),
            is_identity(*derive),
            old(self)@.gate.minted < u64::MAX,
        ensures
            (final(self)@, r@) == old(self)@.received(
                *hash,
                *derive,
                now_ticks,
                now@,
                connection,
                *caller,
                kind,
                message_view(message),
            ),
    {
        let ghost start = self@;
        match message {
            None => Action::Violation { connection, kind },
            Some(ClientMessage::Request { request, cost }) => self.on_request(
                hash,
                derive,
                now_ticks,
                now,
                connection,
                caller,
                &request,
                cost,
            ),
            Some(ClientMessage::ResolveRequest(resolve)) => {
                if caller.role != PeerRole::Client || resolve.retry_key.session_id
                    != caller.session {
                    return Action::Respond(
                        respond(
                            connection,
                            resolve.retry_key,
                            error_response(
                                &self.limits,
                                resolve.command_id,
                                ErrorCode::NotAdmitted,
                                "not admitted",
                            ),
                        ),
                    );
                }
                let response = match self.collector.resolve(&resolve) {
                    Resolution::Outcome(r) => r,
                    Resolution::Pending => pending_response(resolve.command_id),
                    Resolution::Conflict { .. } => error_response(
                        &self.limits,
                        resolve.command_id,
                        ErrorCode::RequestIdentityConflict,
                        "retry key bound to another payload",
                    ),
                    Resolution::Unknown => unknown_response(resolve.command_id),
                };
                Action::Respond(respond(connection, resolve.retry_key, response))
            },
            Some(ClientMessage::WatchOpen(open)) => self.open_watch(connection, kind, open),
            Some(ClientMessage::WatchClose { watch_id }) => {
                let dropped = self.watches.remove(&WatchKey { connection, watch_id });
                proof {
                    assert(self@ =~= start.without_watch(connection, watch_id));
                }
                Action::WatchClosed {
                    dropped,
                    delivery: close_watch(
                        connection,
                        watch_id,
                        WatchCloseReasonV1::Cancelled,
                        None,
                    ),
                }
            },
            Some(ClientMessage::Other) => Action::Violation { connection, kind },
        }
    }

    /// A request of a client: through the admission gate to the collector.
    fn on_request<
        H: Fn(HashDomain, Vec<Vec<u8>>) -> Digest32,
        D: Fn(RetryKey, Vec<u8>) -> Option<Derived>,
    >(
        &mut self,
        hash: &H,
        derive: &D,
        now_ticks: u64,
        now: MonotonicMillis,
        connection: u64,
        caller: &Caller,
        request: &RequestV1,
        cost: Option<usize>,
    ) -> (r: Action)
        requires
            is_hash(*hash),
            is_identity(*derive),
            old(self)@.gate.minted < u64::MAX,
        ensures
            (final(self)@, r@) == old(self)@.requested(
                *hash,
                *derive,
                now_ticks,
                now@,
                connection,
                *caller,
                request@,
                cost,
            ),
    {
        let key = request.retry_key;
        let admitted = match self.admission.admit_request(hash, now_ticks, caller, request, cost) {
            Ok(a) => a,
            Err(refusal) => {
                let (code, detail) = admission_detail(&refusal);
                return Action::Respond(
                    respond(
                        connection,
                        key,
                        error_response(&self.limits, command_of(hash, &key), code, detail),
                    ),
                );
            },
        };
        let reserved = admitted.reserved;
        match self.collector.submit(hash, derive, now, &admitted.request) {
            Ok(submitted) => {
                if let Submitted::Resolved(_) = &submitted {
                    self.admission.settled(&key);
                }
                self.attach_submitted(connection, key, submitted)
            },
            Err(refusal) => {
                self.admission.settled_reservation(&key, reserved);
                let (code, detail) = submit_detail(&refusal);
                Action::Respond(
                    respond(
                        connection,
                        key,
                        error_response(&self.limits, command_of(hash, &key), code, detail),
                    ),
                )
            },
        }
    }

    /// A client asks for a watch: one identifier names one watch of its
    /// connection.
    fn open_watch(&self, connection: u64, kind: u16, open: WatchOpenV1) -> (r: Action)
        ensures
            r@ == (if self@.watches.contains_key(
                WatchKey { connection, watch_id: open@.watch_id },
            ) {
                ActionView::Violation { connection, kind }
            } else {
                ActionView::RegisterWatch {
                    connection,
                    watch_id: open@.watch_id,
                    spec: spec_of(open@, self@.watch_queue),
                }
            }),
    {
        if self.watches.contains_key(&WatchKey { connection, watch_id: open.watch_id }) {
            return Action::Violation { connection, kind };
        }
        let WatchOpenV1 {
            watch_id,
            namespace,
            key,
            range_end,
            start_revision,
            prev_kv,
            progress_notify,
        } = open;
        let spec = WatchSpec {
            namespace,
            key,
            range_end,
            start_revision,
            prev_kv,
            progress_notify,
            queue_capacity: self.watch_queue,
        };
        Action::RegisterWatch { connection, watch_id, spec }
    }

    /// What the hub answered to a registration: the watch is opened, or its
    /// client is told why not.
    pub fn watch_registered(
        &mut self,
        connection: u64,
        watch_id: u64,
        registration: Result<WatchId, crate::watch::CloseReason>,
    ) -> (r: Action)
        ensures
            match registration {
                Ok(id) => final(self)@ == (DispatchView {
                    watches: old(self)@.watches.insert(WatchKey { connection, watch_id }, id),
                    ..old(self)@
                }) && r@ == (ActionView::WatchOpened { connection, watch_id, id }),
                Err(reason) => final(self)@ == old(self)@ && r@ == ActionView::Respond(
                    close_on(connection, watch_id, reason_told(reason), None),
                ),
            },
    {
        match registration {
            Ok(id) => {
                self.watches.insert(WatchKey { connection, watch_id }, id);
                proof {
                    assert(self@ =~= (DispatchView {
                        watches: old(self)@.watches.insert(WatchKey { connection, watch_id }, id),
                        ..old(self)@
                    }));
                }
                Action::WatchOpened { connection, watch_id, id }
            },
            Err(reason) => Action::Respond(
                close_watch(connection, watch_id, close_reason(reason), None),
            ),
        }
    }

    /// Turn the items the hub handed over for a watch into messages:
    /// complete-revision batches fragmented with `complete` on the last
    /// fragment, progress, and the close. Nothing that follows the end of
    /// the watch is delivered.
    pub fn pump_watch(&mut self, connection: u64, watch_id: u64, items: &Vec<WatchItem>) -> (r: Vec<
        ServerMessage,
    >)
        ensures
            (final(self)@, views(r@)) == old(self)@.pumped(connection, watch_id, views(items@)),
    {
        let ghost start = self@;
        let ghost all = views(items@);
        let mut out: Vec<ServerMessage> = Vec::new();
        let mut i: usize = 0;
        proof {
            assert(all.take(0) =~= Seq::<ItemView>::empty());
            assert(views(out@) =~= Seq::<ServerView>::empty());
        }
        while i < items.len()
            invariant
                i <= items@.len(),
                all == views(items@),
                (self@, views(out@)) == start.pumped(connection, watch_id, all.take(i as int)),
            decreases items@.len() - i,
        {
            proof {
                assert(all.take(i + 1).drop_last() =~= all.take(i as int));
                assert(all.take(i + 1).last() == items@[i as int]@);
            }
            if self.watches.contains_key(&WatchKey { connection, watch_id }) {
                self.pump_item(connection, watch_id, &items[i], &mut out);
            }
            i = i + 1;
        }
        proof {
            assert(all.take(all.len() as int) =~= all);
        }
        out
    }

    fn pump_item(
        &mut self,
        connection: u64,
        watch_id: u64,
        item: &WatchItem,
        out: &mut Vec<ServerMessage>,
    )
        ensures
            ({
                let (more, ended) = old(self)@.item_messages(watch_id, item@);
                &&& views(final(out)@) == views(old(out)@) + more
                &&& final(self)@ == if ended {
                    old(self)@.without_watch(connection, watch_id)
                } else {
                    old(self)@
                }
            }),
    {
        let ghost start = self@;
        let ghost before = out@;
        match item {
            WatchItem::Batch(batch) => {
                match watch_frames(&self.limits, watch_id, batch) {
                    Some(frames) => {
                        move_frames(frames, out);
                    },
                    None => {
                        // A revision that cannot be framed at all closes the
                        // watch at its last complete revision, and the client
                        // reopens from there.
                        self.watches.remove(&WatchKey { connection, watch_id });
                        let last = if batch.revision.0 <= 1 {
                            None
                        } else {
                            Some(KvRevision(batch.revision.0 - 1))
                        };
                        let message = ServerMessage::WatchClose(
                            WatchCloseV1 {
                                watch_id,
                                reason: WatchCloseReasonV1::SourceLost,
                                last_complete_revision: last,
                            },
                        );
                        proof {
                            lemma_views_push(before, message);
                            assert(views(before).push(message@) =~= views(before) + seq![
                                message@,
                            ]);
                            assert(self@ =~= start.without_watch(connection, watch_id));
                        }
                        out.push(message);
                    },
                }
            },
            WatchItem::Progress(revision) => {
                let message = ServerMessage::WatchProgress(
                    WatchProgressV1 { watch_id, revision: *revision },
                );
                proof {
                    lemma_views_push(before, message);
                    assert(views(before).push(message@) =~= views(before) + seq![message@]);
                }
                out.push(message);
            },
            WatchItem::Closed { reason, last_complete_revision } => {
                self.watches.remove(&WatchKey { connection, watch_id });
                let last = if last_complete_revision.0 > 0 {
                    Some(*last_complete_revision)
                } else {
                    None
                };
                let message = ServerMessage::WatchClose(
                    WatchCloseV1 {
                        watch_id,
                        reason: close_reason(*reason),
                        last_complete_revision: last,
                    },
                );
                proof {
                    lemma_views_push(before, message);
                    assert(views(before).push(message@) =~= views(before) + seq![message@]);
                    assert(self@ =~= start.without_watch(connection, watch_id));
                }
                out.push(message);
            },
        }
    }

    /// Cancel a watch this dispatcher opened, and hand out the hub
    /// subscription to forget, if there was one.
    ///
    /// The client's own cancel arrives as a frame and is acknowledged; this
    /// is the other way a subscription can end -- its output stream is gone,
    /// so there is nobody to deliver to.
    pub fn cancel_watch(&mut self, connection: u64, watch_id: u64) -> (r: Option<WatchId>)
        ensures
            final(self)@ == old(self)@.without_watch(connection, watch_id),
            r == old(self)@.subscription(connection, watch_id),
    {
        let r = self.watches.remove(&WatchKey { connection, watch_id });
        proof {
            assert(self@ =~= old(self)@.without_watch(connection, watch_id));
        }
        r
    }

    /// Evidence from a voter identity.
    pub fn on_evidence<H: Fn(HashDomain, Vec<Vec<u8>>) -> Digest32>(
        &mut self,
        hash: &H,
        from: PeerProvenance,
        message: ProtocolMessage,
    ) -> (r: Result<Option<Delivery>, EvidenceError>)
        requires
            is_hash(*hash),
        ensures
            (final(self)@, delivery_result(r)) == old(self)@.evidenced(*hash, from, message@),
    {
        match self.collector.on_evidence(hash, from, message) {
            Ok(progress) => Ok(self.deliver(progress)),
            Err(e) => Err(e),
        }
    }

    /// A release from the leader.
    pub fn on_release(&mut self, from: PeerProvenance, released: ReleasedResult) -> (r: Result<
        Option<Delivery>,
        EvidenceError,
    >)
        ensures
            (final(self)@, delivery_result(r)) == old(self)@.release_taken(from, released@),
    {
        match self.collector.on_release(from, released) {
            Ok(progress) => Ok(self.deliver(progress)),
            Err(e) => Err(e),
        }
    }

    fn deliver(&mut self, progress: Progress) -> (r: Option<Delivery>)
        ensures
            (final(self)@, delivery_view(r)) == old(self)@.delivered(progress@),
    {
        match progress {
            Progress::Released(release) => self.settle_release(&release),
            _ => None,
        }
    }

    /// Account a release the collector produced (when the runtime drove the
    /// collector directly): frees the session slot, detaches the owner and
    /// yields the delivery for the attached caller, if any.
    pub fn settle_release(&mut self, release: &Release) -> (r: Option<Delivery>)
        ensures
            (final(self)@, delivery_view(r)) == old(self)@.settled(release@),
    {
        self.admission.settled(&release.retry_key);
        match self.detach(&release.retry_key) {
            Some(connection) => {
                if release.attached {
                    Some(respond(connection, release.retry_key, release.response.dup()))
                } else {
                    None
                }
            },
            None => None,
        }
    }

    /// Client deadlines that passed: the attached callers hear that the
    /// outcome is pending (never failed) and resolvable by identity; the
    /// commands keep collecting.
    pub fn expire(&mut self, now: MonotonicMillis) -> (r: Vec<Delivery>)
        ensures
            (final(self)@, views(r@)) == old(self)@.expired(now@),
    {
        let ghost first = self@;
        let expired = self.collector.expire(now);
        let ghost start = self@;
        let ghost late = first.overdue(now@);
        let mut out: Vec<Delivery> = Vec::new();
        let mut i: usize = 0;
        proof {
            assert(start =~= (DispatchView { collector: first.collector.expired(now@), ..first }));
            assert(late.take(0) =~= Seq::<(RetryKey, CommandId)>::empty());
            assert(views(out@) =~= Seq::<DeliveryOut>::empty());
        }
        while i < expired.len()
            invariant
                i <= expired@.len(),
                expired@.len() == late.len(),
                forall|j: int|
                    0 <= j < late.len() ==> late[j] == (
                        (#[trigger] expired@[j]).retry_key,
                        expired@[j].command,
                    ),
                (self@, views(out@)) == start.told_pending(late.take(i as int)),
            decreases expired@.len() - i,
        {
            let e = expired[i];
            let ghost before = self@;
            let ghost sent = out@;
            proof {
                assert(late.take(i + 1).drop_last() =~= late.take(i as int));
                assert(late.take(i + 1).last() == (e.retry_key, e.command));
            }
            match self.detach(&e.retry_key) {
                Some(connection) => {
                    self.collector.cancel(&e.retry_key);
                    self.admission.settled(&e.retry_key);
                    let delivery = respond(connection, e.retry_key, pending_response(e.command));
                    proof {
                        lemma_views_push(sent, delivery);
                    }
                    out.push(delivery);
                },
                None => {
                    proof {
                        assert(before.detached(e.retry_key) =~= before);
                    }
                },
            }
            i = i + 1;
        }
        proof {
            assert(late.take(late.len() as int) =~= late);
        }
        out
    }

    /// A connection closed: its requests are cancelled (they keep collecting
    /// and stay resolvable), its watches are cancelled. Hands out the
    /// commands cancelled and the hub subscriptions to forget.
    pub fn on_connection_closed(&mut self, connection: u64) -> (r: (Vec<CommandId>, Vec<WatchId>))
        ensures
            (final(self)@, r.0@, r.1@) == old(self)@.closed(connection),
    {
        let ghost first = self@;
        let keys: Vec<RetryKey> = match self.by_connection.remove(&connection) {
            Some(set) => set.to_vec(),
            None => OrdSet::<RetryKey>::new().to_vec(),
        };
        let ghost start = self@;
        let mut cancelled: Vec<CommandId> = Vec::new();
        let mut i: usize = 0;
        proof {
            assert(views(keys@) =~= keys@);
            assert(keys@ == in_order::<RetryKey>(first.waits_on(connection)));
            assert(start =~= (DispatchView {
                by_connection: first.by_connection.remove(connection),
                ..first
            }));
            assert(keys@.take(0) =~= Seq::<RetryKey>::empty());
        }
        while i < keys.len()
            invariant
                i <= keys@.len(),
                (self@, cancelled@) == start.abandoned(keys@.take(i as int)),
            decreases keys@.len() - i,
        {
            proof {
                assert(keys@.take(i + 1).drop_last() =~= keys@.take(i as int));
                assert(keys@.take(i + 1).last() == keys@[i as int]);
            }
            let key = keys[i];
            let ghost before = self@;
            self.owner.remove(&key);
            if let Some(command) = self.collector.cancel(&key) {
                cancelled.push(command);
            }
            proof {
                assert(self@ =~= (DispatchView {
                    owner: before.owner.remove(key),
                    collector: before.collector.cancelled(key).0,
                    ..before
                }));
            }
            i = i + 1;
        }
        proof {
            assert(keys@.take(keys@.len() as int) =~= keys@);
            lemma_abandoned_keeps_watches(start, keys@);
        }
        let dropped = self.drop_watches(connection);
        (cancelled, dropped)
    }

    /// Forget the watches of a connection, and hand out their hub
    /// subscriptions.
    #[verifier::rlimit(40)]
    fn drop_watches(&mut self, connection: u64) -> (r: Vec<WatchId>)
        ensures
            final(self)@ == (DispatchView {
                watches: old(self)@.watches.remove_keys(
                    old(self)@.watches_of(connection).to_set(),
                ),
                ..old(self)@
            }),
            r@ == old(self)@.watches_of(connection).map_values(
                |k: WatchKey| old(self)@.watches[k],
            ),
    {
        let ghost start = self@;
        let all = self.watches.keys();
        let mut dropped: Vec<WatchId> = Vec::new();
        let ghost mut found: Seq<WatchKey> = Seq::empty();
        let ghost wanted = start.watches.dom().filter(|k: WatchKey| k.connection == connection);
        let ghost ids = |k: WatchKey| start.watches[k];
        let mut i: usize = 0;
        proof {
            assert(views(all@) =~= all@);
            lemma_in_order::<WatchKey>(start.watches.dom());
            assert(start.watches.remove_keys(found.to_set()) =~= start.watches);
            assert(self@ =~= (DispatchView {
                watches: start.watches.remove_keys(found.to_set()),
                ..start
            }));
            assert(dropped@ =~= found.map_values(ids));
        }
        while i < all.len()
            invariant
                i <= all@.len(),
                all@ == in_order::<WatchKey>(start.watches.dom()),
                ascending::<WatchKey>(all@),
                all@.no_duplicates(),
                forall|j: int| 0 <= j < all@.len() ==> start.watches.contains_key(#[trigger] all@[j]),
                wanted == start.watches.dom().filter(|k: WatchKey| k.connection == connection),
                ids == (|k: WatchKey| start.watches[k]),
                chosen(found, all@.take(i as int), wanted),
                self@ == (DispatchView {
                    watches: start.watches.remove_keys(found.to_set()),
                    ..start
                }),
                dropped@ == found.map_values(ids),
            decreases all@.len() - i,
        {
            let key = all[i];
            proof {
                assert(start.watches.contains_key(all@[i as int]));
                lemma_chosen_step(found, all@, i as int, wanted);
                assert(!found.contains(key)) by {
                    if found.contains(key) {
                        assert(all@.take(i as int).contains(key));
                        let j = choose|j: int| 0 <= j < i && all@.take(i as int)[j] == key;
                        assert(all@[j] == all@[i as int]);
                    }
                }
            }
            if key.connection == connection {
                let ghost before = self@;
                proof {
                    assert(!found.to_set().contains(key));
                    assert(before.watches.contains_key(key));
                }
                if let Some(id) = self.watches.remove(&key) {
                    dropped.push(id);
                }
                proof {
                    let next = found.push(key);
                    assert(next.to_set() =~= found.to_set().insert(key)) by {
                        assert forall|k: WatchKey| found.to_set().insert(key).contains(k) implies next.to_set().contains(k) by {
                            if k == key {
                                assert(next[found.len() as int] == key);
                            } else {
                                let j = choose|j: int| 0 <= j < found.len() && found[j] == k;
                                assert(next[j] == k);
                            }
                        }
                        assert forall|k: WatchKey| next.to_set().contains(k) implies found.to_set().insert(key).contains(k) by {
                            let j = choose|j: int| 0 <= j < next.len() && next[j] == k;
                            if j < found.len() {
                                assert(found[j] == k);
                            }
                        }
                    }
                    assert(self@.watches =~= start.watches.remove_keys(next.to_set()));
                    assert(dropped@ =~= next.map_values(ids));
                    found = next;
                    assert(self@ =~= (DispatchView {
                        watches: start.watches.remove_keys(found.to_set()),
                        ..start
                    }));
                }
            }
            i = i + 1;
        }
        proof {
            assert(all@.take(all@.len() as int) =~= all@);
            lemma_chosen_all(found, all@, start.watches.dom(), wanted);
            assert(wanted =~= start.watches.dom().filter(|k: WatchKey| k.connection == connection));
            assert(found == start.watches_of(connection));
            assert(dropped@ =~= start.watches_of(connection).map_values(
                |k: WatchKey| start.watches[k],
            ));
        }
        dropped
    }
}

/// Append fragments as messages.
fn move_frames(frames: Vec<WatchEventsV1>, out: &mut Vec<ServerMessage>)
    ensures
        views(final(out)@) == views(old(out)@) + views(frames@).map_values(
            |f: EventsBody| ServerView::WatchEvents(f),
        ),
{
    let ghost all = frames@;
    let ghost before = views(out@);
    let ghost wrap = |f: EventsBody| ServerView::WatchEvents(f);
    let mut rest: Vec<WatchEventsV1> = frames;
    let mut reversed: Vec<WatchEventsV1> = Vec::new();
    while rest.len() > 0
        invariant
            rest@ + reversed@.reverse() == all,
        decreases rest@.len(),
    {
        let ghost was = rest@;
        let ghost turned = reversed@;
        if let Some(f) = rest.pop() {
            reversed.push(f);
            proof {
                assert(was == rest@.push(f));
                assert(rest@ + reversed@.reverse() =~= was + turned.reverse());
            }
        }
    }
    proof {
        assert(reversed@.reverse() =~= all);
        assert(all.take(0) =~= Seq::<WatchEventsV1>::empty());
        assert(views(all.take(0)).map_values(wrap) =~= Seq::<ServerView>::empty());
        assert(before + views(all.take(0)).map_values(wrap) =~= before);
    }
    let ghost mut moved: int = 0;
    while reversed.len() > 0
        invariant
            0 <= moved <= all.len(),
            reversed@.reverse() == all.skip(moved),
            wrap == (|f: EventsBody| ServerView::WatchEvents(f)),
            views(out@) == before + views(all.take(moved)).map_values(wrap),
        decreases reversed@.len(),
    {
        let ghost was = reversed@;
        let ghost sent = out@;
        if let Some(f) = reversed.pop() {
            proof {
                assert(was == reversed@.push(f));
                assert(was.reverse()[0] == f);
                assert(was.reverse().len() == was.len());
                assert(all.skip(moved).len() == was.len());
                assert(all.skip(moved)[0] == all[moved]);
                assert(reversed@.reverse() =~= all.skip(moved + 1)) by {
                    assert(reversed@.reverse() =~= was.reverse().drop_first());
                }
                assert(all.take(moved + 1) =~= all.take(moved).push(f));
                lemma_views_push(all.take(moved), f);
                assert(views(all.take(moved)).push(f@).map_values(wrap) =~= views(
                    all.take(moved),
                ).map_values(wrap).push(ServerView::WatchEvents(f@)));
            }
            let message = ServerMessage::WatchEvents(f);
            proof {
                lemma_views_push(sent, message);
            }
            out.push(message);
            proof {
                moved = moved + 1;
                assert(views(out@) =~= before + views(all.take(moved)).map_values(wrap));
            }
        }
    }
    proof {
        assert(all.skip(moved).len() == 0);
        assert(all.take(moved) =~= all);
    }
}

/// Each request waits on exactly the connection that owns it.
pub open spec fn linked(dispatcher: DispatchView) -> bool {
    forall|k: RetryKey, c: u64| #[trigger]
        dispatcher.waits_on(c).contains(k) <==> dispatcher.owner.contains_key(k)
            && dispatcher.owner[k] == c
}

/// Attaching and detaching keep every request with exactly one owner.
pub proof fn lemma_ownership_is_exact(dispatcher: DispatchView, connection: u64, key: RetryKey)
    requires
        linked(dispatcher),
    ensures
        linked(dispatcher.attached(connection, key)),
        linked(dispatcher.detached(key)),
        dispatcher.attached(connection, key).owner[key] == connection,
        !dispatcher.detached(key).owner.contains_key(key),
{
    let next = dispatcher.attached(connection, key);
    assert forall|k: RetryKey, c: u64| #[trigger] next.waits_on(c).contains(k) <==> next.owner.contains_key(k)
        && next.owner[k] == c by {
        assert(dispatcher.waits_on(c).contains(k) <==> dispatcher.owner.contains_key(k)
            && dispatcher.owner[k] == c);
        if dispatcher.owner.contains_key(key) {
            let was = dispatcher.owner[key];
            assert(dispatcher.waits_on(was).contains(key));
            if c == was && was != connection {
                let left = dispatcher.by_connection[was].remove(key);
                if left == Set::<RetryKey>::empty() {
                    assert(!left.contains(k));
                }
            }
        }
    }
    let freed = dispatcher.detached(key);
    assert forall|k: RetryKey, c: u64| #[trigger] freed.waits_on(c).contains(k) <==> freed.owner.contains_key(k)
        && freed.owner[k] == c by {
        assert(dispatcher.waits_on(c).contains(k) <==> dispatcher.owner.contains_key(k)
            && dispatcher.owner[k] == c);
        if dispatcher.owner.contains_key(key) {
            assert(dispatcher.waits_on(dispatcher.owner[key]).contains(key));
        }
    }
}

proof fn lemma_told_pending(dispatcher: DispatchView, commands: Seq<(RetryKey, CommandId)>)
    requires
        linked(dispatcher),
    ensures
        ({
            let (next, sent) = dispatcher.told_pending(commands);
            &&& linked(next)
            &&& next.collector.pending.dom() == dispatcher.collector.pending.dom()
            &&& forall|i: int|
                0 <= i < sent.len() ==> exists|c: CommandId|
                    (#[trigger] sent[i]).message == ServerView::Response(#[trigger] pending_body(c))
        }),
    decreases commands.len(),
{
    if commands.len() > 0 {
        lemma_told_pending(dispatcher, commands.drop_last());
        let (before, sent) = dispatcher.told_pending(commands.drop_last());
        let (key, command) = commands.last();
        let (next, all) = dispatcher.told_pending(commands);
        if before.owner.contains_key(key) {
            lemma_ownership_is_exact(before, 0, key);
            let freed = before.detached(key);
            assert(freed.collector.cancelled(key).0.pending.dom()
                =~= before.collector.pending.dom());
            assert forall|k: RetryKey, c: u64| #[trigger] next.waits_on(c).contains(k) <==> next.owner.contains_key(k)
                && next.owner[k] == c by {
                assert(freed.waits_on(c).contains(k) <==> freed.owner.contains_key(k)
                    && freed.owner[k] == c);
            }
            assert forall|i: int| 0 <= i < all.len() implies exists|c: CommandId|
                (#[trigger] all[i]).message == ServerView::Response(#[trigger] pending_body(c)) by {
                if i < sent.len() {
                    assert(all[i] == sent[i]);
                } else {
                    assert(all[i].message == ServerView::Response(pending_body(command)));
                }
            }
        }
    }
}

/// A passed deadline is never a failure: every caller it detaches hears that
/// the outcome is pending, and no command stops collecting.
pub proof fn lemma_deadlines_answer_pending(dispatcher: DispatchView, now: int)
    requires
        linked(dispatcher),
    ensures
        ({
            let (next, sent) = dispatcher.expired(now);
            &&& linked(next)
            &&& next.collector.pending.dom() == dispatcher.collector.pending.dom()
            &&& forall|i: int|
                0 <= i < sent.len() ==> exists|c: CommandId|
                    (#[trigger] sent[i]).message == ServerView::Response(#[trigger] pending_body(c))
        }),
{
    let late = DispatchView { collector: dispatcher.collector.expired(now), ..dispatcher };
    assert forall|k: RetryKey, c: u64| #[trigger] late.waits_on(c).contains(k) <==> late.owner.contains_key(k)
        && late.owner[k] == c by {
        assert(dispatcher.waits_on(c).contains(k) <==> dispatcher.owner.contains_key(k)
            && dispatcher.owner[k] == c);
    }
    assert(late.collector.pending.dom() =~= dispatcher.collector.pending.dom());
    lemma_told_pending(late, dispatcher.overdue(now));
}

/// Abandoning requests leaves the owners of the others, and the entries of
/// the commands bound to the others.
proof fn lemma_abandoned(dispatcher: DispatchView, keys: Seq<RetryKey>, key: RetryKey, c: CommandId)
    requires
        crate::collector_laws::linked(dispatcher.collector),
    ensures
        ({
            let next = dispatcher.abandoned(keys).0;
            &&& forall|k: RetryKey| #[trigger]
                next.owner.contains_key(k) <==> dispatcher.owner.contains_key(k) && !keys.contains(k)
            &&& forall|k: RetryKey| #[trigger]
                next.owner.contains_key(k) ==> next.owner[k] == dispatcher.owner[k]
            &&& next.collector.pending.dom() == dispatcher.collector.pending.dom()
            &&& next.collector.bindings == dispatcher.collector.bindings
            &&& next.collector.resolved == dispatcher.collector.resolved
            &&& !keys.contains(key) && dispatcher.collector.pending.contains_key(c)
                && dispatcher.collector.pending[c].retry_key == key ==> next.collector.pending[c]
                == dispatcher.collector.pending[c]
        }),
    decreases keys.len(),
{
    if keys.len() > 0 {
        let rest = keys.drop_last();
        let k = keys.last();
        lemma_abandoned(dispatcher, rest, key, c);
        let before = dispatcher.abandoned(rest).0;
        let next = dispatcher.abandoned(keys).0;
        assert forall|x: RetryKey| #![trigger keys.contains(x)] keys.contains(x) <==> rest.contains(x) || x == k by {
            if rest.contains(x) {
                let j = choose|j: int| 0 <= j < rest.len() && rest[j] == x;
                assert(keys[j] == x);
            }
            assert(keys[keys.len() - 1] == k);
            if keys.contains(x) && x != k {
                let j = choose|j: int| 0 <= j < keys.len() && keys[j] == x;
                assert(rest[j] == x);
            }
        }
        assert(next.collector.pending.dom() =~= before.collector.pending.dom());
        if !keys.contains(key) && dispatcher.collector.pending.contains_key(c)
            && dispatcher.collector.pending[c].retry_key == key {
            let bindings = dispatcher.collector.bindings;
            if bindings.contains_key(k) && bindings[k] == c {
                if dispatcher.collector.resolved.contains_key(k) {
                    assert(!dispatcher.collector.pending.contains_key(
                        dispatcher.collector.resolved[k].0,
                    ));
                }
                assert(false);
            }
        }
    } else {
        assert(dispatcher.abandoned(keys).0 == dispatcher);
    }
}

/// A connection that closes takes only its own requests' callers with it:
/// what it waited for is cancelled but still collecting, and every other
/// request keeps its owner.
pub proof fn lemma_close_cancels_its_own_only(dispatcher: DispatchView, connection: u64, key: RetryKey)
    requires
        linked(dispatcher),
        crate::collector_laws::linked(dispatcher.collector),
        dispatcher.waits_on(connection).finite(),
    ensures
        ({
            let next = dispatcher.closed(connection).0;
            &&& linked(next)
            &&& next.collector.pending.dom() == dispatcher.collector.pending.dom()
            &&& next.owner.contains_key(key) <==> dispatcher.owner.contains_key(key)
                && dispatcher.owner[key] != connection
            &&& next.owner.contains_key(key) ==> next.owner[key] == dispatcher.owner[key]
            &&& forall|w: WatchKey| #[trigger]
                next.watches.contains_key(w) ==> dispatcher.watches.contains_key(w)
        }),
{
    let keys = in_order::<RetryKey>(dispatcher.waits_on(connection));
    lemma_in_order::<RetryKey>(dispatcher.waits_on(connection));
    let start = DispatchView {
        by_connection: dispatcher.by_connection.remove(connection),
        ..dispatcher
    };
    lemma_abandoned(start, keys, key, CommandId(Digest32 { high: 0, low: 0 }));
    lemma_abandoned_keeps_watches(start, keys);
    let next = dispatcher.closed(connection).0;
    assert forall|k: RetryKey, c: u64| #[trigger] next.waits_on(c).contains(k) <==> next.owner.contains_key(k)
        && next.owner[k] == c by {
        assert(dispatcher.waits_on(c).contains(k) <==> dispatcher.owner.contains_key(k)
            && dispatcher.owner[k] == c);
        assert(dispatcher.waits_on(connection).contains(k) <==> dispatcher.owner.contains_key(k)
            && dispatcher.owner[k] == connection);
        assert(keys.contains(k) <==> dispatcher.waits_on(connection).contains(k));
        if c == connection {
            assert(next.waits_on(c) == Set::<RetryKey>::empty());
        }
    }
    assert(dispatcher.waits_on(connection).contains(key) <==> dispatcher.owner.contains_key(key)
        && dispatcher.owner[key] == connection);
    assert(keys.contains(key) <==> dispatcher.waits_on(connection).contains(key));
}

/// A retry on a new connection survives the old one closing: the request
/// stays with the new connection, and its command keeps its caller.
pub proof fn lemma_retries_survive_the_old_connection(
    dispatcher: DispatchView,
    old_connection: u64,
    connection: u64,
    key: RetryKey,
    command: CommandId,
)
    requires
        linked(dispatcher),
        crate::collector_laws::linked(dispatcher.collector),
        connection != old_connection,
        dispatcher.waits_on(old_connection).finite(),
        dispatcher.collector.pending.contains_key(command),
        dispatcher.collector.pending[command].retry_key == key,
    ensures
        ({
            let next = dispatcher.attached(connection, key).closed(old_connection).0;
            &&& next.owner.contains_key(key)
            &&& next.owner[key] == connection
            &&& next.collector.pending[command] == dispatcher.collector.pending[command]
        }),
{
    let moved = dispatcher.attached(connection, key);
    lemma_ownership_is_exact(dispatcher, connection, key);
    assert(moved.waits_on(old_connection).subset_of(dispatcher.waits_on(old_connection))) by {
        assert forall|k: RetryKey| moved.waits_on(old_connection).contains(k) implies dispatcher.waits_on(old_connection).contains(k) by {
            assert(moved.owner.contains_key(k) && moved.owner[k] == old_connection);
            assert(k != key);
        }
    }
    let waiting = moved.waits_on(old_connection);
    assert(waiting.finite()) by {
        vstd::set_lib::lemma_set_subset_finite(dispatcher.waits_on(old_connection), waiting);
    }
    let keys = in_order::<RetryKey>(waiting);
    lemma_in_order::<RetryKey>(waiting);
    assert(!keys.contains(key)) by {
        assert(keys.contains(key) <==> waiting.contains(key));
    }
    let start = DispatchView { by_connection: moved.by_connection.remove(old_connection), ..moved };
    lemma_abandoned(start, keys, key, command);
}

/// A refused presentation frees only a slot it took itself: a conflicting
/// payload under a pending retry key leaves the original request's slot held.
pub proof fn lemma_refusals_free_no_other_slot<H: Fn(HashDomain, Vec<Vec<u8>>) -> Digest32>(
    dispatcher: DispatchView,
    hash: H,
    connection: u64,
    key: RetryKey,
    collector: CollectorView,
    refusal: SubmitRefusal,
)
    ensures
        dispatcher.collected(
            hash,
            connection,
            key,
            false,
            collector,
            Err::<SubmittedView, SubmitRefusal>(refusal),
        ).0.gate == dispatcher.gate,
{
}

/// An outcome is told to the session that asked for it and to no other.
pub proof fn lemma_outcomes_stay_with_their_session(
    dispatcher: DispatchView,
    connection: u64,
    caller: Caller,
    resolve: ResolveRequestV1,
)
    requires
        caller.role != PeerRole::Client || resolve.retry_key.session_id != caller.session,
    ensures
        dispatcher.asked(connection, caller, resolve) == (
            dispatcher,
            ActionView::Respond(
                answer_on(
                    connection,
                    resolve.retry_key,
                    error_body(
                        dispatcher.limits,
                        resolve.command_id,
                        ErrorCode::NotAdmitted,
                        "not admitted"@,
                    ),
                ),
            ),
        ),
{
}

} // verus!
