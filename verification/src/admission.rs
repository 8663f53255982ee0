//! The admission interface: a request enters the trusted boundary only
//! through here. The caller's identity was verified by the session binding of
//! the connection; the request must be canonical, name this cluster and
//! domain and the caller's own session, and stay inside the caller's pending
//! bound. The receipt is minted here because this is the verifier; state
//! machines never mint one.

use vstd::prelude::*;

use crate::client::{
    AdmissionPurpose, AdmissionReceipt, AdmittedRequest, AdmittedView, AttestedAdmission, PeerRole,
    ReceiptView, RequestBody, RequestV1,
};
use crate::codec::{Wire, to_wire};
use crate::hash::{HashDomain, digest, digest_of, is_hash};
use crate::ids::{ClusterId, Digest32, DomainId, RetryKey, SessionId, be_bytes, to_be};
use crate::ordered::{Dup, OrdMap, OrdSet, views};

verus! {

/// The verified caller of one API connection.
#[derive(Clone, Copy, Debug, PartialEq, Eq, Structural)]
pub struct Caller {
    /// Role bound at negotiation.
    pub role: PeerRole,
    /// Replicated session the connection is bound to.
    pub session: SessionId,
    /// Rule/issuer generation the binding relied on.
    pub rule_generation: u64,
    /// Scope ceiling; execution policy can only narrow it.
    pub scope_ceiling: u32,
}

/// An admitted request and whether this presentation took the session's
/// slot.
///
/// A retry of a request the session still has outstanding is that request
/// again: it neither needs a slot nor takes one, and a refusal of it must not
/// free the slot the original holds.
#[derive(Debug)]
pub struct Admitted {
    /// What goes to the collector.
    pub request: AdmittedRequest,
    /// Whether this presentation acquired the slot.
    pub reserved: bool,
}

/// Bounds of admission.
#[derive(Clone, Copy, Debug, PartialEq, Eq, Structural)]
pub struct AdmissionLimits {
    /// Requests one session may have pending at this frontend.
    pub max_pending_per_session: usize,
    /// The largest logical request this frontend admits, as the protocol
    /// counts one: the bytes of the keys, values and range ends it carries.
    pub max_request_bytes: usize,
}

/// Requests one session may have pending, unless configured otherwise.
pub const DEFAULT_PENDING_PER_SESSION: usize = 256;

impl AdmissionLimits {
    /// The default bounds of a frontend that admits requests up to
    /// `max_request_bytes`.
    pub fn for_requests(max_request_bytes: usize) -> (r: Self)
        ensures
            r == (AdmissionLimits {
                max_pending_per_session: DEFAULT_PENDING_PER_SESSION,
                max_request_bytes,
            }),
    {
        AdmissionLimits { max_pending_per_session: DEFAULT_PENDING_PER_SESSION, max_request_bytes }
    }
}

/// Why a request was not admitted. Nothing was submitted.
#[allow(inconsistent_fields)]
#[derive(Clone, Copy, Debug, PartialEq, Eq, Structural)]
pub enum AdmissionRefusal {
    /// Only native clients submit through the frontend; peer and collector
    /// roles have no request path here.
    RoleNotAdmitted(PeerRole),
    /// The request or its logical payload is not canonical.
    Malformed,
    /// The retry key names another cluster.
    WrongCluster,
    /// The retry key names another domain.
    WrongDomain,
    /// The retry key names a session other than the caller's.
    SessionMismatch,
    /// The session is at its pending bound.
    SessionBusy {
        /// Requests pending for the session.
        pending: usize,
    },
    /// The request is larger than this frontend admits.
    RequestTooLarge {
        /// What the request costs, as the protocol counts it.
        bytes: usize,
        /// What this frontend admits.
        limit: usize,
    },
}

/// The admission gate of one frontend for one domain.
#[derive(Debug)]
pub struct Admission {
    cluster: ClusterId,
    domain: DomainId,
    limits: AdmissionLimits,
    /// Unresolved requests per session, by identity. The bound counts
    /// distinct requests, not admissions: a retry of a request that is still
    /// unresolved is the same request, so it takes no second slot and, since
    /// a request is settled once, cannot leak one either.
    pending: OrdMap<SessionId, OrdSet<RetryKey>>,
    minted: u64,
}

/// What a gate holds.
#[verifier::ext_equal]
pub struct GateView {
    /// Cluster it admits for.
    pub cluster: ClusterId,
    /// Domain it admits for.
    pub domain: DomainId,
    /// Bounds.
    pub limits: AdmissionLimits,
    /// Unresolved requests per session.
    pub pending: Map<SessionId, Set<RetryKey>>,
    /// Receipts minted.
    pub minted: u64,
}

impl View for Admission {
    type V = GateView;

    closed spec fn view(&self) -> GateView {
        GateView {
            cluster: self.cluster,
            domain: self.domain,
            limits: self.limits,
            pending: self.pending@,
            minted: self.minted,
        }
    }
}

/// The identity of a minted receipt.
pub open spec fn receipt_identity<H: Fn(HashDomain, Vec<Vec<u8>>) -> Digest32>(
    hash: H,
    key: RetryKey,
    rule_generation: u64,
    now_ticks: u64,
    minted: u64,
) -> Digest32 {
    digest_of(
        hash,
        HashDomain::AdmissionReceipt,
        seq![
            RetryKey::wire(key),
            be_bytes(rule_generation as int, 8),
            be_bytes(now_ticks as int, 8),
            be_bytes(minted as int, 8),
        ],
    )
}

impl GateView {
    /// Requests outstanding for a session.
    pub open spec fn of(self, session: SessionId) -> Set<RetryKey> {
        if self.pending.contains_key(session) {
            self.pending[session]
        } else {
            Set::empty()
        }
    }

    /// Why a request is not admitted, given what it costs (`None` where it is
    /// not canonical).
    pub open spec fn refusal(self, caller: Caller, key: RetryKey, cost: Option<usize>) -> Option<
        AdmissionRefusal,
    > {
        if caller.role != PeerRole::Client {
            Some(AdmissionRefusal::RoleNotAdmitted(caller.role))
        } else if cost is None {
            Some(AdmissionRefusal::Malformed)
        } else if cost->0 > self.limits.max_request_bytes {
            Some(
                AdmissionRefusal::RequestTooLarge {
                    bytes: cost->0,
                    limit: self.limits.max_request_bytes,
                },
            )
        } else if key.cluster_id != self.cluster {
            Some(AdmissionRefusal::WrongCluster)
        } else if key.domain_id != self.domain {
            Some(AdmissionRefusal::WrongDomain)
        } else if key.session_id != caller.session {
            Some(AdmissionRefusal::SessionMismatch)
        } else if !self.of(caller.session).contains(key) && self.of(caller.session).len()
            >= self.limits.max_pending_per_session {
            Some(AdmissionRefusal::SessionBusy { pending: self.of(caller.session).len() as usize })
        } else {
            None
        }
    }

    /// The admission gate after a presentation: a slot is taken only where the request
    /// is admitted and was not outstanding.
    pub open spec fn presented(self, caller: Caller, key: RetryKey, cost: Option<usize>) -> Self {
        match self.refusal(caller, key, cost) {
            Some(AdmissionRefusal::SessionBusy { .. }) => GateView {
                pending: self.pending.insert(caller.session, self.of(caller.session)),
                ..self
            },
            Some(_) => self,
            None => GateView {
                pending: self.pending.insert(
                    caller.session,
                    self.of(caller.session).insert(key),
                ),
                minted: (self.minted + 1) as u64,
                ..self
            },
        }
    }

    /// What an admitted request says.
    pub open spec fn admission<H: Fn(HashDomain, Vec<Vec<u8>>) -> Digest32>(
        self,
        hash: H,
        now_ticks: u64,
        caller: Caller,
        request: RequestBody,
    ) -> AdmittedView {
        AdmittedView {
            receipt: ReceiptView {
                attested: AttestedAdmission {
                    cluster: self.cluster,
                    domain: self.domain,
                    session: caller.session,
                    rule_generation: caller.rule_generation,
                    scope_ceiling: caller.scope_ceiling,
                    receipt_id: receipt_identity(
                        hash,
                        request.retry_key,
                        caller.rule_generation,
                        now_ticks,
                        (self.minted + 1) as u64,
                    ),
                    admitted_at_ticks: now_ticks,
                },
                purpose: AdmissionPurpose::Submit,
                claims: Seq::empty(),
            },
            request: Some(request),
        }
    }

    /// The admission gate after a request settled.
    pub open spec fn settled(self, key: RetryKey) -> Self {
        let left = self.of(key.session_id).remove(key);
        if !self.pending.contains_key(key.session_id) {
            self
        } else if left == Set::<RetryKey>::empty() {
            GateView { pending: self.pending.remove(key.session_id), ..self }
        } else {
            GateView { pending: self.pending.insert(key.session_id, left), ..self }
        }
    }

    /// No session is over its bound, and every outstanding request is kept
    /// under its own session.
    pub open spec fn sound(self) -> bool {
        &&& forall|s: SessionId| #[trigger]
            self.pending.contains_key(s) ==> self.pending[s].finite() && self.pending[s].len()
                <= self.limits.max_pending_per_session
        &&& forall|s: SessionId, k: RetryKey|
            self.pending.contains_key(s) && #[trigger] self.pending[s].contains(k) ==> k.session_id
                == s
    }
}

/// No session ever has more requests outstanding than its bound, whatever is
/// presented and settled.
pub proof fn lemma_sessions_stay_bounded(
    gate: GateView,
    caller: Caller,
    key: RetryKey,
    cost: Option<usize>,
)
    requires
        gate.sound(),
    ensures
        gate.presented(caller, key, cost).sound(),
        gate.settled(key).sound(),
{
    let next = gate.presented(caller, key, cost);
    let own = gate.of(caller.session);
    assert forall|s: SessionId| #[trigger] next.pending.contains_key(s) implies next.pending[s].finite()
        && next.pending[s].len() <= next.limits.max_pending_per_session by {
        if s != caller.session {
            assert(gate.pending.contains_key(s));
        } else {
            if gate.pending.contains_key(s) {
                assert(own.finite());
            }
        }
    }
    let after = gate.settled(key);
    assert forall|s: SessionId| #[trigger] after.pending.contains_key(s) implies after.pending[s].finite()
        && after.pending[s].len() <= after.limits.max_pending_per_session by {
        assert(gate.pending.contains_key(s));
    }
    assert forall|s: SessionId, k: RetryKey|
        after.pending.contains_key(s) && #[trigger] after.pending[s].contains(k) implies k.session_id
        == s by {
        assert(gate.pending[s].contains(k));
    }
    assert forall|s: SessionId, k: RetryKey|
        next.pending.contains_key(s) && #[trigger] next.pending[s].contains(k) implies k.session_id
        == s by {
        if gate.pending.contains_key(s) && gate.pending[s].contains(k) {
        }
    }
}

/// A retry of an outstanding request is that request again: it is admitted
/// whatever the bound, takes no slot, and settling a request once frees it
/// however often it was presented.
pub proof fn lemma_retries_take_no_slot(
    gate: GateView,
    caller: Caller,
    key: RetryKey,
    cost: Option<usize>,
    other: RetryKey,
)
    requires
        gate.refusal(caller, key, cost) is None,
    ensures
        ({
            let once = gate.presented(caller, key, cost);
            let twice = once.presented(caller, key, cost);
            &&& once.of(caller.session).contains(key)
            &&& once.refusal(caller, key, cost) is None
            &&& twice.pending == once.pending
            &&& !twice.settled(key).of(caller.session).contains(key)
            &&& twice.settled(key).settled(key).of(caller.session) == twice.settled(key).of(
                caller.session,
            )
            &&& other != key && once.of(other.session_id).contains(other) ==> once.settled(key).of(
                other.session_id,
            ).contains(other)
        }),
{
    let once = gate.presented(caller, key, cost);
    let twice = once.presented(caller, key, cost);
    assert(once.of(caller.session).insert(key) =~= once.of(caller.session));
    assert(twice.pending =~= once.pending);
    let freed = twice.settled(key);
    assert(freed.of(caller.session).remove(key) =~= freed.of(caller.session));
    if other != key && once.of(other.session_id).contains(other) {
        if other.session_id == key.session_id {
            assert(once.of(key.session_id).remove(key).contains(other));
        }
    }
}

impl Admission {
    /// A gate for `cluster`/`domain`.
    pub fn new(cluster: ClusterId, domain: DomainId, limits: AdmissionLimits) -> (r: Self)
        ensures
            r@ == (GateView { cluster, domain, limits, pending: Map::empty(), minted: 0 }),
    {
        Admission { cluster, domain, limits, pending: OrdMap::new(), minted: 0 }
    }

    /// Take in `request` from `caller` at `now_ticks`, minting its receipt.
    /// `cost` is what the request costs as the protocol counts it, absent
    /// where its logical payload is not canonical.
    #[verifier::rlimit(40)]
    pub fn admit_request<H: Fn(HashDomain, Vec<Vec<u8>>) -> Digest32>(
        &mut self,
        hash: &H,
        now_ticks: u64,
        caller: &Caller,
        request: &RequestV1,
        cost: Option<usize>,
    ) -> (r: Result<Admitted, AdmissionRefusal>)
        requires
            is_hash(*hash),
            old(self)@.minted < u64::MAX,
        ensures
            final(self)@ == old(self)@.presented(*caller, request@.retry_key, cost),
            match old(self)@.refusal(*caller, request@.retry_key, cost) {
                Some(e) => r == Err::<Admitted, AdmissionRefusal>(e),
                None => r is Ok && r->Ok_0.request@ == old(self)@.admission(
                    *hash,
                    now_ticks,
                    *caller,
                    request@,
                ) && r->Ok_0.reserved == !old(self)@.of(caller.session).contains(
                    request@.retry_key,
                ),
            },
    {
        let ghost start = self@;
        let key = request.retry_key;
        if caller.role != PeerRole::Client {
            return Err(AdmissionRefusal::RoleNotAdmitted(caller.role));
        }
        let bytes: usize = match cost {
            Some(n) => n,
            None => {
                return Err(AdmissionRefusal::Malformed);
            },
        };
        // Before any slot is taken or any byte is budgeted: a request this
        // frontend will never admit costs it nothing.
        if bytes > self.limits.max_request_bytes {
            return Err(
                AdmissionRefusal::RequestTooLarge { bytes, limit: self.limits.max_request_bytes },
            );
        }
        if key.cluster_id != self.cluster {
            return Err(AdmissionRefusal::WrongCluster);
        }
        if key.domain_id != self.domain {
            return Err(AdmissionRefusal::WrongDomain);
        }
        if key.session_id != caller.session {
            return Err(AdmissionRefusal::SessionMismatch);
        }
        let mut pending: OrdSet<RetryKey> = match self.pending.remove(&caller.session) {
            Some(keys) => keys,
            None => OrdSet::new(),
        };
        let ghost own = pending@;
        let held = pending.contains(&key);
        let count: usize = pending.len();
        proof {
            assert(own == start.of(caller.session));
        }
        if !held && count >= self.limits.max_pending_per_session {
            self.pending.insert(caller.session, pending);
            proof {
                assert(self@.pending =~= start.pending.insert(caller.session, own));
            }
            return Err(AdmissionRefusal::SessionBusy { pending: count });
        }
        pending.insert(key);
        self.pending.insert(caller.session, pending);
        proof {
            assert(self@.pending =~= start.pending.insert(caller.session, own.insert(key)));
        }
        // Whether this presentation is what took the slot. A refusal of a
        // re-presentation must not release it: the request that holds it is
        // still outstanding.
        let reserved = !held;
        self.minted = self.minted + 1;
        let minted: u64 = self.minted;
        let mut parts: Vec<Vec<u8>> = Vec::new();
        parts.push(to_wire(&key));
        parts.push(to_be(caller.rule_generation as u128, 8));
        parts.push(to_be(now_ticks as u128, 8));
        parts.push(to_be(minted as u128, 8));
        proof {
            assert(views(parts@) =~= seq![
                RetryKey::wire(key),
                be_bytes(caller.rule_generation as int, 8),
                be_bytes(now_ticks as int, 8),
                be_bytes(minted as int, 8),
            ]);
        }
        let receipt_id = digest(hash, HashDomain::AdmissionReceipt, parts);
        let claims: Vec<u8> = Vec::new();
        let receipt = AdmissionReceipt {
            attested: AttestedAdmission {
                cluster: self.cluster,
                domain: self.domain,
                session: caller.session,
                rule_generation: caller.rule_generation,
                scope_ceiling: caller.scope_ceiling,
                receipt_id,
                admitted_at_ticks: now_ticks,
            },
            purpose: AdmissionPurpose::Submit,
            claims,
        };
        let admitted = AdmittedRequest { receipt, request: Some(request.dup()) };
        proof {
            assert(admitted@.receipt.claims =~= Seq::<u8>::empty());
            assert(admitted@ =~= start.admission(*hash, now_ticks, *caller, request@));
            assert(self@ =~= start.presented(*caller, key, cost));
        }
        Ok(Admitted { request: admitted, reserved })
    }

    /// Release `key`'s slot, but only when `reserved` says this presentation
    /// is the one that took it.
    pub fn settled_reservation(&mut self, key: &RetryKey, reserved: bool)
        ensures
            final(self)@ == (if reserved {
                old(self)@.settled(*key)
            } else {
                old(self)@
            }),
    {
        if reserved {
            self.settled(key);
        }
    }

    /// A request settled (released, refused after admission or resolved):
    /// its slot is free again. Settling by identity is idempotent, so a
    /// duplicate settlement cannot free someone else's slot.
    pub fn settled(&mut self, key: &RetryKey)
        ensures
            final(self)@ == old(self)@.settled(*key),
    {
        let ghost start = self@;
        if let Some(mut keys) = self.pending.remove(&key.session_id) {
            keys.remove(key);
            if !keys.is_empty() {
                self.pending.insert(key.session_id, keys);
            }
            proof {
                let left = start.of(key.session_id).remove(*key);
                if left == Set::<RetryKey>::empty() {
                    assert(self@.pending =~= start.pending.remove(key.session_id));
                } else {
                    assert(self@.pending =~= start.pending.insert(key.session_id, left));
                }
            }
        } else {
            proof {
                assert(self@.pending =~= start.pending);
            }
        }
        proof {
            assert(self@ =~= start.settled(*key));
        }
    }

    /// How many receipts were minted.
    pub fn minted(&self) -> (r: u64)
        ensures
            r == self@.minted,
    {
        self.minted
    }

    /// Distinct unresolved requests of `session`.
    pub fn pending(&self, session: &SessionId) -> (r: usize)
        ensures
            r == self@.of(*session).len(),
    {
        match self.pending.get(session) {
            Some(keys) => keys.len(),
            None => 0,
        }
    }
}

} // verus!
