//! Durable rows of a replica.
//!
//! Keys are prefixed with the epoch so an epoch's rows are contiguous; a
//! value is an envelope that names the record's kind and the version of its
//! layout, so a reader decides by version which layout to read.

use vstd::prelude::*;

use crate::bytes::{append_bytes, copy_bytes};
use crate::codec::{List, Opt, Wire, exactly, from_wire, to_wire};
use crate::commands::{CommandRecord, RecordView};
use crate::effects::{Collection, EnvelopeView, StoreEnvelope, StoreUpdate, UpdateView};
use crate::graph::{empty_path, no_path};
use crate::handoff::Transition;
use crate::hash::{HashDomain, digest, digest_of, is_hash};
use crate::ids::{
    Ballot, ClientInstanceId, ClusterId, CommandId, ConfigurationEpoch, Digest32, DomainId, ReplicaId,
    RequestSequence, RetryKey, SessionId, be_bytes, to_be,
};
use crate::lists::{copy_list, lemma_id_views};
use crate::ordered::{Dup, OrdMap, OrdSet, dup_all, in_order, views};
use crate::phase::Phase;
use crate::recovery::{SyncDecision, SyncEntry, SyncEntryView, SyncView};

verus! {

/// Record kind of the promise row.
pub const PROMISE_KIND: u16 = 0x0001;
/// Record kind of a command dependency row.
pub const DEPENDENCY_KIND: u16 = 0x0002;
/// Key tag of the promise row within an epoch.
pub const PROMISE_TAG: u8 = 0x00;
/// Key tag of command dependency rows within an epoch.
pub const DEPENDENCY_TAG: u8 = 0x01;
/// Record kind of a leader proposal row.
pub const PROPOSAL_KIND: u16 = 0x0003;
/// Key tag of leader proposal rows within an epoch.
pub const PROPOSAL_TAG: u8 = 0x02;
/// Record kind of a payload row.
pub const PAYLOAD_KIND: u16 = 0x0001;
/// Record kind of a bound Sync selection row.
pub const SYNC_KIND: u16 = 0x0004;
/// Key tag of Sync rows within an epoch.
pub const SYNC_TAG: u8 = 0x03;
/// Record kind of the old-configuration seal row.
pub const SEAL_KIND: u16 = 0x0005;
/// Key tag of the seal row within an epoch.
///
/// After the Sync tag on purpose: trimming surveys an epoch's rows up to
/// and excluding this tag, so a seal is outside every trim step's range by
/// construction rather than by a rule someone has to remember.
pub const SEAL_TAG: u8 = 0x04;
/// Layout version of the Sync row. Version 1 carried no path evidence in its
/// entries; version 2 carries the combined digest, the per-key digests and
/// the leader sequence number they were synchronized at.
pub const SYNC_SCHEMA_VERSION: u16 = 2;

/// A kind of row.
#[derive(Clone, Copy, Debug, PartialEq, Eq, Structural)]
pub enum Row {
    /// A promise.
    Promise,
    /// A command's dependency state.
    Dependency,
    /// A payload.
    Payload,
    /// A leader's proposal.
    Proposal,
    /// A bound Sync selection.
    Sync,
    /// A seal.
    Seal,
}

/// Why a row could not be read.
#[derive(Clone, Copy, Debug, PartialEq, Eq, Structural)]
pub enum RowError {
    /// Not a record of this kind, not its version, or not its layout.
    Corrupt(Row),
    /// A Sync row of a version this revision does not read.
    UnsupportedVersion,
}

/// The durable promise of one replica in one epoch: the highest ballot it
/// promised (no lower ballot is voted after it) and the ballot it last
/// synchronized, the source of the state it reports in recovery.
#[derive(Clone, Copy, Debug, PartialEq, Eq, Hash, Structural)]
pub struct PromiseRecordV1 {
    /// Highest promised ballot.
    pub promised: Ballot,
    /// Highest synchronized ballot.
    pub synced: Ballot,
}

impl View for PromiseRecordV1 {
    type V = PromiseRecordV1;

    open spec fn view(&self) -> PromiseRecordV1 {
        *self
    }
}

/// What an admitting verifier attested, in its canonical encoding.
#[derive(Debug)]
pub struct AdmissionFacts(pub Vec<u8>);

impl View for AdmissionFacts {
    type V = Seq<u8>;

    open spec fn view(&self) -> Seq<u8> {
        self.0@
    }
}

impl Dup for AdmissionFacts {
    fn dup(&self) -> (r: Self) {
        AdmissionFacts(copy_bytes(&self.0))
    }
}

/// What an optional admission holds.
pub open spec fn facts_view(facts: Option<AdmissionFacts>) -> Option<Seq<u8>> {
    match facts {
        Some(f) => Some(f@),
        None => None,
    }
}

/// A copy of an optional admission.
pub fn dup_facts(facts: &Option<AdmissionFacts>) -> (r: Option<AdmissionFacts>)
    ensures
        facts_view(r) == facts_view(*facts),
{
    match facts {
        Some(f) => Some(f.dup()),
        None => None,
    }
}

/// The digest that binds an admission, and the floor acknowledged with it,
/// into what a command is.
#[verifier::opaque]
pub open spec fn admission_of<H: Fn(HashDomain, Vec<Vec<u8>>) -> Digest32>(
    hash: H,
    facts: Option<Seq<u8>>,
    ack_through: u64,
) -> Digest32 {
    digest_of(
        hash,
        HashDomain::AdmissionReceipt,
        seq![Opt::<Vec<u8>>::wire(facts), be_bytes(ack_through as int, 8)],
    )
}

/// The digest that binds an admission, and the floor acknowledged with it,
/// into what a command is.
pub fn admission_digest<H: Fn(HashDomain, Vec<Vec<u8>>) -> Digest32>(
    hash: &H,
    facts: Option<&AdmissionFacts>,
    ack_through: u64,
) -> (r: Digest32)
    requires
        is_hash(*hash),
    ensures
        r == admission_of(
            *hash,
            match facts {
                Some(f) => Some(f@),
                None => None,
            },
            ack_through,
        ),
{
    let attested: Opt<Vec<u8>> = Opt(
        match facts {
            Some(f) => Some(copy_bytes(&f.0)),
            None => None,
        },
    );
    let mut parts: Vec<Vec<u8>> = Vec::new();
    parts.push(to_wire(&attested));
    parts.push(to_be(ack_through as u128, 8));
    let ghost wanted = seq![Opt::<Vec<u8>>::wire(attested@), be_bytes(ack_through as int, 8)];
    proof {
        assert(views(parts@) =~= wanted);
        reveal(admission_of);
    }
    digest(hash, HashDomain::AdmissionReceipt, parts)
}

/// The immutable canonical command, keyed by command identity: retry key,
/// canonical logical bytes (rehashed on read), and the admission the
/// command was accepted under.
///
/// Execution reads the principal, the trust rule and the ceiling from the
/// admission, so it is part of what the command durably *is*: a replica
/// that executed it now, one that recovered its payload from a peer and one
/// that replayed it from the journal have the same command. There is no
/// admission for the service's own commands, which no verifier admitted.
#[derive(Debug)]
pub struct PayloadRecordV1 {
    /// Stable invocation identity.
    pub retry_key: RetryKey,
    /// Canonical request encoding.
    pub logical: Vec<u8>,
    /// What the admitting verifier attested.
    pub admission: Option<AdmissionFacts>,
    /// Floor the submitter acknowledged.
    pub ack_through: u64,
}

/// What a payload record holds.
#[verifier::ext_equal]
pub struct PayloadView {
    /// Stable invocation identity.
    pub retry_key: RetryKey,
    /// Canonical request encoding.
    pub logical: Seq<u8>,
    /// What the admitting verifier attested.
    pub admission: Option<Seq<u8>>,
    /// Floor the submitter acknowledged.
    pub ack_through: u64,
}

impl View for PayloadRecordV1 {
    type V = PayloadView;

    open spec fn view(&self) -> PayloadView {
        PayloadView {
            retry_key: self.retry_key,
            logical: self.logical@,
            admission: facts_view(self.admission),
            ack_through: self.ack_through,
        }
    }
}

impl Dup for PayloadRecordV1 {
    fn dup(&self) -> (r: Self) {
        PayloadRecordV1 {
            retry_key: self.retry_key,
            logical: copy_bytes(&self.logical),
            admission: dup_facts(&self.admission),
            ack_through: self.ack_through,
        }
    }
}

impl PayloadView {
    /// The digest that binds this command's admission.
    pub open spec fn admitted<H: Fn(HashDomain, Vec<Vec<u8>>) -> Digest32>(self, hash: H) -> Digest32 {
        admission_of(hash, self.admission, self.ack_through)
    }
}

impl PayloadRecordV1 {
    /// The digest that binds this command's admission into what the command
    /// is.
    ///
    /// Distinct from the command identity, deliberately. Identity is the
    /// retry key and the canonical request, so a retry keeps it and a
    /// credential rotation does not change it. This is what replicas
    /// compare to be sure they accepted the *same* command.
    pub fn admission_digest<H: Fn(HashDomain, Vec<Vec<u8>>) -> Digest32>(&self, hash: &H) -> (r: Digest32)
        requires
            is_hash(*hash),
        ensures
            r == self@.admitted(*hash),
    {
        match &self.admission {
            Some(f) => admission_digest(hash, Some(f), self.ack_through),
            None => admission_digest(hash, None, self.ack_through),
        }
    }
}

/// The leader's recoverable proposal state for a command.
#[derive(Debug)]
pub struct ProposalRecordV1 {
    /// Ballot the proposal was made under.
    pub ballot: Ballot,
    /// Leader sequence number.
    pub seqnum: u64,
    /// Ordered dependencies.
    pub deps: Vec<CommandId>,
    /// Dependency-path evidence.
    pub path: Digest32,
}

/// What a proposal record holds.
#[verifier::ext_equal]
pub struct ProposalRecordView {
    /// Ballot the proposal was made under.
    pub ballot: Ballot,
    /// Leader sequence number.
    pub seqnum: u64,
    /// Ordered dependencies.
    pub deps: Seq<CommandId>,
    /// Dependency-path evidence.
    pub path: Digest32,
}

impl View for ProposalRecordV1 {
    type V = ProposalRecordView;

    open spec fn view(&self) -> ProposalRecordView {
        ProposalRecordView {
            ballot: self.ballot,
            seqnum: self.seqnum,
            deps: self.deps@,
            path: self.path,
        }
    }
}

/// The Sync result a candidate selected for a ballot, bound durably before
/// publication: after a crash it is reused, never reselected.
#[derive(Debug)]
pub struct SyncRecordV1 {
    /// The selection.
    pub decision: SyncDecision,
}

impl View for SyncRecordV1 {
    type V = SyncView;

    open spec fn view(&self) -> SyncView {
        self.decision@
    }
}

/// The durable seal of one replica on one configuration.
///
/// Written once, never rewritten and never removed. While it is there this
/// replica admits no ordinary voting transition of that configuration under
/// any ballot. `at` is the ballot this replica had promised when it sealed:
/// evidence for the report, never an authorization.
#[derive(Clone, Copy, Debug, PartialEq, Eq, Hash, Structural)]
pub struct SealRecordV1 {
    /// The transition this replica sealed for.
    pub transition: Transition,
    /// The ballot promised when the seal was written.
    pub at: Ballot,
}

impl View for SealRecordV1 {
    type V = SealRecordV1;

    open spec fn view(&self) -> SealRecordV1 {
        *self
    }
}

/// A version 1 Sync entry: dependencies only, no path evidence.
#[derive(Debug)]
pub struct SyncEntryV1 {
    /// Command.
    pub command: CommandId,
    /// Phase.
    pub phase: Phase,
    /// Dependencies.
    pub deps: Vec<CommandId>,
}

/// What a version 1 entry holds.
#[verifier::ext_equal]
pub struct SyncEntryV1View {
    /// Command.
    pub command: CommandId,
    /// Phase.
    pub phase: Phase,
    /// Dependencies.
    pub deps: Seq<CommandId>,
}

impl View for SyncEntryV1 {
    type V = SyncEntryV1View;

    open spec fn view(&self) -> SyncEntryV1View {
        SyncEntryV1View { command: self.command, phase: self.phase, deps: self.deps@ }
    }
}

impl Dup for SyncEntryV1 {
    fn dup(&self) -> (r: Self) {
        SyncEntryV1 { command: self.command, phase: self.phase, deps: copy_list(&self.deps) }
    }
}

/// A version 1 Sync decision.
#[derive(Debug)]
pub struct SyncDecisionV1 {
    /// Ballot.
    pub ballot: Ballot,
    /// Ballot the state was taken from.
    pub source_ballot: Ballot,
    /// Entries.
    pub entries: OrdMap<CommandId, SyncEntryV1>,
    /// Commands proposed again.
    pub reproposed: OrdSet<CommandId>,
}

/// What a version 1 decision holds.
#[verifier::ext_equal]
pub struct SyncV1View {
    /// Ballot.
    pub ballot: Ballot,
    /// Ballot the state was taken from.
    pub source_ballot: Ballot,
    /// Entries.
    pub entries: Map<CommandId, SyncEntryV1View>,
    /// Commands proposed again.
    pub reproposed: Set<CommandId>,
}

impl View for SyncDecisionV1 {
    type V = SyncV1View;

    open spec fn view(&self) -> SyncV1View {
        SyncV1View {
            ballot: self.ballot,
            source_ballot: self.source_ballot,
            entries: self.entries@,
            reproposed: self.reproposed@,
        }
    }
}

impl Wire for ClusterId {
    open spec fn fits(v: ClusterId) -> bool {
        true
    }

    open spec fn wire(v: ClusterId) -> Seq<u8> {
        ReplicaId::wire(ReplicaId(v.0))
    }

    open spec fn parse(s: Seq<u8>) -> Option<(ClusterId, int)> {
        match ReplicaId::parse(s) {
            Some((v, n)) => Some((ClusterId(v.0), n)),
            None => None,
        }
    }

    proof fn round_trip(v: ClusterId, rest: Seq<u8>) {
        ReplicaId::round_trip(ReplicaId(v.0), rest);
    }

    proof fn within(s: Seq<u8>) {
        ReplicaId::within(s);
    }

    fn put(&self, out: &mut Vec<u8>) {
        ReplicaId(self.0).put(out);
    }

    fn take(bytes: &Vec<u8>, at: usize) -> (r: Option<(Self, usize)>) {
        match ReplicaId::take(bytes, at) {
            Some((v, next)) => Some((ClusterId(v.0), next)),
            None => None,
        }
    }
}

impl Wire for DomainId {
    open spec fn fits(v: DomainId) -> bool {
        true
    }

    open spec fn wire(v: DomainId) -> Seq<u8> {
        ReplicaId::wire(ReplicaId(v.0))
    }

    open spec fn parse(s: Seq<u8>) -> Option<(DomainId, int)> {
        match ReplicaId::parse(s) {
            Some((v, n)) => Some((DomainId(v.0), n)),
            None => None,
        }
    }

    proof fn round_trip(v: DomainId, rest: Seq<u8>) {
        ReplicaId::round_trip(ReplicaId(v.0), rest);
    }

    proof fn within(s: Seq<u8>) {
        ReplicaId::within(s);
    }

    fn put(&self, out: &mut Vec<u8>) {
        ReplicaId(self.0).put(out);
    }

    fn take(bytes: &Vec<u8>, at: usize) -> (r: Option<(Self, usize)>) {
        match ReplicaId::take(bytes, at) {
            Some((v, next)) => Some((DomainId(v.0), next)),
            None => None,
        }
    }
}

impl Wire for SessionId {
    open spec fn fits(v: SessionId) -> bool {
        true
    }

    open spec fn wire(v: SessionId) -> Seq<u8> {
        ReplicaId::wire(ReplicaId(v.0))
    }

    open spec fn parse(s: Seq<u8>) -> Option<(SessionId, int)> {
        match ReplicaId::parse(s) {
            Some((v, n)) => Some((SessionId(v.0), n)),
            None => None,
        }
    }

    proof fn round_trip(v: SessionId, rest: Seq<u8>) {
        ReplicaId::round_trip(ReplicaId(v.0), rest);
    }

    proof fn within(s: Seq<u8>) {
        ReplicaId::within(s);
    }

    fn put(&self, out: &mut Vec<u8>) {
        ReplicaId(self.0).put(out);
    }

    fn take(bytes: &Vec<u8>, at: usize) -> (r: Option<(Self, usize)>) {
        match ReplicaId::take(bytes, at) {
            Some((v, next)) => Some((SessionId(v.0), next)),
            None => None,
        }
    }
}

impl Wire for ClientInstanceId {
    open spec fn fits(v: ClientInstanceId) -> bool {
        true
    }

    open spec fn wire(v: ClientInstanceId) -> Seq<u8> {
        ReplicaId::wire(ReplicaId(v.0))
    }

    open spec fn parse(s: Seq<u8>) -> Option<(ClientInstanceId, int)> {
        match ReplicaId::parse(s) {
            Some((v, n)) => Some((ClientInstanceId(v.0), n)),
            None => None,
        }
    }

    proof fn round_trip(v: ClientInstanceId, rest: Seq<u8>) {
        ReplicaId::round_trip(ReplicaId(v.0), rest);
    }

    proof fn within(s: Seq<u8>) {
        ReplicaId::within(s);
    }

    fn put(&self, out: &mut Vec<u8>) {
        ReplicaId(self.0).put(out);
    }

    fn take(bytes: &Vec<u8>, at: usize) -> (r: Option<(Self, usize)>) {
        match ReplicaId::take(bytes, at) {
            Some((v, next)) => Some((ClientInstanceId(v.0), next)),
            None => None,
        }
    }
}

impl Wire for RequestSequence {
    open spec fn fits(v: RequestSequence) -> bool {
        true
    }

    open spec fn wire(v: RequestSequence) -> Seq<u8> {
        u64::wire(v.0)
    }

    open spec fn parse(s: Seq<u8>) -> Option<(RequestSequence, int)> {
        match u64::parse(s) {
            Some((v, n)) => Some((RequestSequence(v), n)),
            None => None,
        }
    }

    proof fn round_trip(v: RequestSequence, rest: Seq<u8>) {
        u64::round_trip(v.0, rest);
    }

    proof fn within(s: Seq<u8>) {
        u64::within(s);
    }

    fn put(&self, out: &mut Vec<u8>) {
        self.0.put(out);
    }

    fn take(bytes: &Vec<u8>, at: usize) -> (r: Option<(Self, usize)>) {
        match u64::take(bytes, at) {
            Some((v, next)) => Some((RequestSequence(v), next)),
            None => None,
        }
    }
}

/// Field by field, the layout of a retry key.
pub type RetryKeyLayout = (ClusterId, (DomainId, (SessionId, (ClientInstanceId, RequestSequence))));

impl Wire for RetryKey {
    open spec fn fits(v: RetryKey) -> bool {
        RetryKeyLayout::fits((v.cluster_id, (v.domain_id, (v.session_id, (v.client_instance_id, v.request_sequence)))))
    }

    open spec fn wire(v: RetryKey) -> Seq<u8> {
        RetryKeyLayout::wire((v.cluster_id, (v.domain_id, (v.session_id, (v.client_instance_id, v.request_sequence)))))
    }

    open spec fn parse(s: Seq<u8>) -> Option<(RetryKey, int)> {
        match RetryKeyLayout::parse(s) {
            Some(((cluster_id, (domain_id, (session_id, (client_instance_id, request_sequence)))), n)) => Some((RetryKey { cluster_id, domain_id, session_id, client_instance_id, request_sequence }, n)),
            None => None,
        }
    }

    proof fn round_trip(v: RetryKey, rest: Seq<u8>) {
        RetryKeyLayout::round_trip((v.cluster_id, (v.domain_id, (v.session_id, (v.client_instance_id, v.request_sequence)))), rest);
    }

    proof fn within(s: Seq<u8>) {
        RetryKeyLayout::within(s);
    }

    fn put(&self, out: &mut Vec<u8>) {
        let fields: RetryKeyLayout = (self.cluster_id, (self.domain_id, (self.session_id, (self.client_instance_id, self.request_sequence))));
        fields.put(out);
    }

    fn take(bytes: &Vec<u8>, at: usize) -> (r: Option<(Self, usize)>) {
        match RetryKeyLayout::take(bytes, at) {
            Some(((cluster_id, (domain_id, (session_id, (client_instance_id, request_sequence)))), next)) => {
                let r = RetryKey { cluster_id, domain_id, session_id, client_instance_id, request_sequence };
                Some((r, next))
            },
            None => None,
        }
    }
}

impl Wire for AdmissionFacts {
    open spec fn fits(v: Seq<u8>) -> bool {
        Vec::<u8>::fits(v)
    }

    open spec fn wire(v: Seq<u8>) -> Seq<u8> {
        Vec::<u8>::wire(v)
    }

    open spec fn parse(s: Seq<u8>) -> Option<(Seq<u8>, int)> {
        Vec::<u8>::parse(s)
    }

    proof fn round_trip(v: Seq<u8>, rest: Seq<u8>) {
        Vec::<u8>::round_trip(v, rest);
    }

    proof fn within(s: Seq<u8>) {
        Vec::<u8>::within(s);
    }

    fn put(&self, out: &mut Vec<u8>) {
        self.0.put(out);
    }

    fn take(bytes: &Vec<u8>, at: usize) -> (r: Option<(Self, usize)>) {
        match Vec::<u8>::take(bytes, at) {
            Some((v, next)) => Some((AdmissionFacts(v), next)),
            None => None,
        }
    }
}

/// Field by field, the layout of a promise row.
pub type PromiseRecordV1Layout = (Ballot, Ballot);

impl Wire for PromiseRecordV1 {
    open spec fn fits(v: PromiseRecordV1) -> bool {
        PromiseRecordV1Layout::fits((v.promised, v.synced))
    }

    open spec fn wire(v: PromiseRecordV1) -> Seq<u8> {
        PromiseRecordV1Layout::wire((v.promised, v.synced))
    }

    open spec fn parse(s: Seq<u8>) -> Option<(PromiseRecordV1, int)> {
        match PromiseRecordV1Layout::parse(s) {
            Some(((promised, synced), n)) => Some((PromiseRecordV1 { promised, synced }, n)),
            None => None,
        }
    }

    proof fn round_trip(v: PromiseRecordV1, rest: Seq<u8>) {
        PromiseRecordV1Layout::round_trip((v.promised, v.synced), rest);
    }

    proof fn within(s: Seq<u8>) {
        PromiseRecordV1Layout::within(s);
    }

    fn put(&self, out: &mut Vec<u8>) {
        let fields: PromiseRecordV1Layout = (self.promised, self.synced);
        fields.put(out);
    }

    fn take(bytes: &Vec<u8>, at: usize) -> (r: Option<(Self, usize)>) {
        match PromiseRecordV1Layout::take(bytes, at) {
            Some(((promised, synced), next)) => {
                let r = PromiseRecordV1 { promised, synced };
                Some((r, next))
            },
            None => None,
        }
    }
}

/// Field by field, the layout of a dependency row.
pub type CommandRecordLayout = (Phase, (List<CommandId>, (List<Vec<u8>>, (Opt<Digest32>, (List<(Vec<u8>, Digest32)>, (Opt<u64>, Digest32))))));

impl Wire for CommandRecord {
    open spec fn fits(v: RecordView) -> bool {
        CommandRecordLayout::fits((v.phase, (v.deps, (v.keys, (v.payload, (v.paths, (v.synced_seq, v.path)))))))
    }

    open spec fn wire(v: RecordView) -> Seq<u8> {
        CommandRecordLayout::wire((v.phase, (v.deps, (v.keys, (v.payload, (v.paths, (v.synced_seq, v.path)))))))
    }

    open spec fn parse(s: Seq<u8>) -> Option<(RecordView, int)> {
        match CommandRecordLayout::parse(s) {
            Some(((phase, (deps, (keys, (payload, (paths, (synced_seq, path)))))), n)) => Some((RecordView { phase, deps, keys, payload, paths, synced_seq, path }, n)),
            None => None,
        }
    }

    proof fn round_trip(v: RecordView, rest: Seq<u8>) {
        CommandRecordLayout::round_trip((v.phase, (v.deps, (v.keys, (v.payload, (v.paths, (v.synced_seq, v.path)))))), rest);
    }

    proof fn within(s: Seq<u8>) {
        CommandRecordLayout::within(s);
    }

    fn put(&self, out: &mut Vec<u8>) {
        let fields: CommandRecordLayout = (self.phase, (List(copy_list(&self.deps)), (List(dup_all(&self.keys)), (Opt(self.payload), (List(dup_all(&self.paths)), (Opt(self.synced_seq), self.path))))));
        proof {
            lemma_id_views(self.deps@);
        }
        fields.put(out);
    }

    fn take(bytes: &Vec<u8>, at: usize) -> (r: Option<(Self, usize)>) {
        match CommandRecordLayout::take(bytes, at) {
            Some(((phase, (deps, (keys, (payload, (paths, (synced_seq, path)))))), next)) => {
                let r = CommandRecord { phase, deps: deps.0, keys: keys.0, payload: payload.0, paths: paths.0, synced_seq: synced_seq.0, path };
                proof {
                lemma_id_views(r.deps@);
                }
                Some((r, next))
            },
            None => None,
        }
    }
}

/// Field by field, the layout of a payload row.
pub type PayloadRecordV1Layout = (RetryKey, (Vec<u8>, (Opt<AdmissionFacts>, u64)));

impl Wire for PayloadRecordV1 {
    open spec fn fits(v: PayloadView) -> bool {
        PayloadRecordV1Layout::fits((v.retry_key, (v.logical, (v.admission, v.ack_through))))
    }

    open spec fn wire(v: PayloadView) -> Seq<u8> {
        PayloadRecordV1Layout::wire((v.retry_key, (v.logical, (v.admission, v.ack_through))))
    }

    open spec fn parse(s: Seq<u8>) -> Option<(PayloadView, int)> {
        match PayloadRecordV1Layout::parse(s) {
            Some(((retry_key, (logical, (admission, ack_through))), n)) => Some((PayloadView { retry_key, logical, admission, ack_through }, n)),
            None => None,
        }
    }

    proof fn round_trip(v: PayloadView, rest: Seq<u8>) {
        PayloadRecordV1Layout::round_trip((v.retry_key, (v.logical, (v.admission, v.ack_through))), rest);
    }

    proof fn within(s: Seq<u8>) {
        PayloadRecordV1Layout::within(s);
    }

    fn put(&self, out: &mut Vec<u8>) {
        let fields: PayloadRecordV1Layout = (self.retry_key, (self.logical.dup(), (Opt(match &self.admission { Some(x) => Some(x.dup()), None => None }), self.ack_through)));
        fields.put(out);
    }

    fn take(bytes: &Vec<u8>, at: usize) -> (r: Option<(Self, usize)>) {
        match PayloadRecordV1Layout::take(bytes, at) {
            Some(((retry_key, (logical, (admission, ack_through))), next)) => {
                let r = PayloadRecordV1 { retry_key, logical, admission: admission.0, ack_through };
                Some((r, next))
            },
            None => None,
        }
    }
}

/// Field by field, the layout of a proposal row.
pub type ProposalRecordV1Layout = (Ballot, (u64, (List<CommandId>, Digest32)));

impl Wire for ProposalRecordV1 {
    open spec fn fits(v: ProposalRecordView) -> bool {
        ProposalRecordV1Layout::fits((v.ballot, (v.seqnum, (v.deps, v.path))))
    }

    open spec fn wire(v: ProposalRecordView) -> Seq<u8> {
        ProposalRecordV1Layout::wire((v.ballot, (v.seqnum, (v.deps, v.path))))
    }

    open spec fn parse(s: Seq<u8>) -> Option<(ProposalRecordView, int)> {
        match ProposalRecordV1Layout::parse(s) {
            Some(((ballot, (seqnum, (deps, path))), n)) => Some((ProposalRecordView { ballot, seqnum, deps, path }, n)),
            None => None,
        }
    }

    proof fn round_trip(v: ProposalRecordView, rest: Seq<u8>) {
        ProposalRecordV1Layout::round_trip((v.ballot, (v.seqnum, (v.deps, v.path))), rest);
    }

    proof fn within(s: Seq<u8>) {
        ProposalRecordV1Layout::within(s);
    }

    fn put(&self, out: &mut Vec<u8>) {
        let fields: ProposalRecordV1Layout = (self.ballot, (self.seqnum, (List(copy_list(&self.deps)), self.path)));
        proof {
            lemma_id_views(self.deps@);
        }
        fields.put(out);
    }

    fn take(bytes: &Vec<u8>, at: usize) -> (r: Option<(Self, usize)>) {
        match ProposalRecordV1Layout::take(bytes, at) {
            Some(((ballot, (seqnum, (deps, path))), next)) => {
                let r = ProposalRecordV1 { ballot, seqnum, deps: deps.0, path };
                proof {
                lemma_id_views(r.deps@);
                }
                Some((r, next))
            },
            None => None,
        }
    }
}

/// Field by field, the layout of a transition.
pub type TransitionLayout = (ConfigurationEpoch, (ConfigurationEpoch, Digest32));

impl Wire for Transition {
    open spec fn fits(v: Transition) -> bool {
        TransitionLayout::fits((v.from, (v.to, v.subject)))
    }

    open spec fn wire(v: Transition) -> Seq<u8> {
        TransitionLayout::wire((v.from, (v.to, v.subject)))
    }

    open spec fn parse(s: Seq<u8>) -> Option<(Transition, int)> {
        match TransitionLayout::parse(s) {
            Some(((from, (to, subject)), n)) => Some((Transition { from, to, subject }, n)),
            None => None,
        }
    }

    proof fn round_trip(v: Transition, rest: Seq<u8>) {
        TransitionLayout::round_trip((v.from, (v.to, v.subject)), rest);
    }

    proof fn within(s: Seq<u8>) {
        TransitionLayout::within(s);
    }

    fn put(&self, out: &mut Vec<u8>) {
        let fields: TransitionLayout = (self.from, (self.to, self.subject));
        fields.put(out);
    }

    fn take(bytes: &Vec<u8>, at: usize) -> (r: Option<(Self, usize)>) {
        match TransitionLayout::take(bytes, at) {
            Some(((from, (to, subject)), next)) => {
                let r = Transition { from, to, subject };
                Some((r, next))
            },
            None => None,
        }
    }
}

/// Field by field, the layout of a seal row.
pub type SealRecordV1Layout = (Transition, Ballot);

impl Wire for SealRecordV1 {
    open spec fn fits(v: SealRecordV1) -> bool {
        SealRecordV1Layout::fits((v.transition, v.at))
    }

    open spec fn wire(v: SealRecordV1) -> Seq<u8> {
        SealRecordV1Layout::wire((v.transition, v.at))
    }

    open spec fn parse(s: Seq<u8>) -> Option<(SealRecordV1, int)> {
        match SealRecordV1Layout::parse(s) {
            Some(((transition, at), n)) => Some((SealRecordV1 { transition, at }, n)),
            None => None,
        }
    }

    proof fn round_trip(v: SealRecordV1, rest: Seq<u8>) {
        SealRecordV1Layout::round_trip((v.transition, v.at), rest);
    }

    proof fn within(s: Seq<u8>) {
        SealRecordV1Layout::within(s);
    }

    fn put(&self, out: &mut Vec<u8>) {
        let fields: SealRecordV1Layout = (self.transition, self.at);
        fields.put(out);
    }

    fn take(bytes: &Vec<u8>, at: usize) -> (r: Option<(Self, usize)>) {
        match SealRecordV1Layout::take(bytes, at) {
            Some(((transition, at), next)) => {
                let r = SealRecordV1 { transition, at };
                Some((r, next))
            },
            None => None,
        }
    }
}

/// Field by field, the layout of a version 1 Sync entry.
pub type SyncEntryV1Layout = (CommandId, (Phase, List<CommandId>));

impl Wire for SyncEntryV1 {
    open spec fn fits(v: SyncEntryV1View) -> bool {
        SyncEntryV1Layout::fits((v.command, (v.phase, v.deps)))
    }

    open spec fn wire(v: SyncEntryV1View) -> Seq<u8> {
        SyncEntryV1Layout::wire((v.command, (v.phase, v.deps)))
    }

    open spec fn parse(s: Seq<u8>) -> Option<(SyncEntryV1View, int)> {
        match SyncEntryV1Layout::parse(s) {
            Some(((command, (phase, deps)), n)) => Some((SyncEntryV1View { command, phase, deps }, n)),
            None => None,
        }
    }

    proof fn round_trip(v: SyncEntryV1View, rest: Seq<u8>) {
        SyncEntryV1Layout::round_trip((v.command, (v.phase, v.deps)), rest);
    }

    proof fn within(s: Seq<u8>) {
        SyncEntryV1Layout::within(s);
    }

    fn put(&self, out: &mut Vec<u8>) {
        let fields: SyncEntryV1Layout = (self.command, (self.phase, List(copy_list(&self.deps))));
        proof {
            lemma_id_views(self.deps@);
        }
        fields.put(out);
    }

    fn take(bytes: &Vec<u8>, at: usize) -> (r: Option<(Self, usize)>) {
        match SyncEntryV1Layout::take(bytes, at) {
            Some(((command, (phase, deps)), next)) => {
                let r = SyncEntryV1 { command, phase, deps: deps.0 };
                proof {
                lemma_id_views(r.deps@);
                }
                Some((r, next))
            },
            None => None,
        }
    }
}

/// Field by field, the layout of a version 1 Sync row.
pub type SyncDecisionV1Layout = (Ballot, (Ballot, (OrdMap<CommandId, SyncEntryV1>, OrdSet<CommandId>)));

impl Wire for SyncDecisionV1 {
    open spec fn fits(v: SyncV1View) -> bool {
        SyncDecisionV1Layout::fits((v.ballot, (v.source_ballot, (v.entries, v.reproposed))))
    }

    open spec fn wire(v: SyncV1View) -> Seq<u8> {
        SyncDecisionV1Layout::wire((v.ballot, (v.source_ballot, (v.entries, v.reproposed))))
    }

    open spec fn parse(s: Seq<u8>) -> Option<(SyncV1View, int)> {
        match SyncDecisionV1Layout::parse(s) {
            Some(((ballot, (source_ballot, (entries, reproposed))), n)) => Some((SyncV1View { ballot, source_ballot, entries, reproposed }, n)),
            None => None,
        }
    }

    proof fn round_trip(v: SyncV1View, rest: Seq<u8>) {
        SyncDecisionV1Layout::round_trip((v.ballot, (v.source_ballot, (v.entries, v.reproposed))), rest);
    }

    proof fn within(s: Seq<u8>) {
        SyncDecisionV1Layout::within(s);
    }

    fn put(&self, out: &mut Vec<u8>) {
        let fields: SyncDecisionV1Layout = (self.ballot, (self.source_ballot, (self.entries.dup(), self.reproposed.dup())));
        fields.put(out);
    }

    fn take(bytes: &Vec<u8>, at: usize) -> (r: Option<(Self, usize)>) {
        match SyncDecisionV1Layout::take(bytes, at) {
            Some(((ballot, (source_ballot, (entries, reproposed))), next)) => {
                let r = SyncDecisionV1 { ballot, source_ballot, entries, reproposed };
                Some((r, next))
            },
            None => None,
        }
    }
}

impl Wire for SyncRecordV1 {
    open spec fn fits(v: SyncView) -> bool {
        SyncDecision::fits(v)
    }

    open spec fn wire(v: SyncView) -> Seq<u8> {
        SyncDecision::wire(v)
    }

    open spec fn parse(s: Seq<u8>) -> Option<(SyncView, int)> {
        SyncDecision::parse(s)
    }

    proof fn round_trip(v: SyncView, rest: Seq<u8>) {
        SyncDecision::round_trip(v, rest);
    }

    proof fn within(s: Seq<u8>) {
        SyncDecision::within(s);
    }

    fn put(&self, out: &mut Vec<u8>) {
        self.decision.put(out);
    }

    fn take(bytes: &Vec<u8>, at: usize) -> (r: Option<(Self, usize)>) {
        match SyncDecision::take(bytes, at) {
            Some((decision, next)) => Some((SyncRecordV1 { decision }, next)),
            None => None,
        }
    }
}

/// A key: the epoch, a tag and what follows.
pub open spec fn row_key(epoch: ConfigurationEpoch, tag: u8, rest: Seq<u8>) -> Seq<u8> {
    be_bytes(epoch.0 as int, 8).push(tag) + rest
}

fn make_key(epoch: ConfigurationEpoch, tag: u8, rest: &Vec<u8>) -> (r: Vec<u8>)
    ensures
        r@ == row_key(epoch, tag, rest@),
{
    let mut out = to_be(epoch.0 as u128, 8);
    out.push(tag);
    append_bytes(&mut out, rest);
    out
}

/// Two keys of one epoch are equal only when their tags and what follows are.
pub proof fn lemma_keys_distinct(
    epoch: ConfigurationEpoch,
    tag: u8,
    rest: Seq<u8>,
    other_tag: u8,
    other: Seq<u8>,
)
    requires
        row_key(epoch, tag, rest) == row_key(epoch, other_tag, other),
    ensures
        tag == other_tag,
        rest == other,
{
    let head = be_bytes(epoch.0 as int, 8);
    let n = head.len() as int;
    let a = row_key(epoch, tag, rest);
    let b = row_key(epoch, other_tag, other);
    assert(a[n] == tag);
    assert(b[n] == other_tag);
    assert(rest =~= a.skip(n + 1));
    assert(other =~= b.skip(n + 1));
}

/// A record of `kind` and `version` in its envelope.
pub open spec fn enveloped<T: Wire>(kind: u16, version: u16, value: T::V) -> EnvelopeView {
    EnvelopeView { record_kind: kind, schema_version: version, payload: T::wire(value) }
}

fn envelope_at<T: Wire>(kind: u16, version: u16, value: &T) -> (r: StoreEnvelope)
    ensures
        r@ == enveloped::<T>(kind, version, value@),
        T::fits(value@),
{
    let r = StoreEnvelope { record_kind: kind, schema_version: version, payload: to_wire(value) };
    r
}

/// The record an envelope of `kind` and version 1 holds.
pub open spec fn unwrapped<T: Wire>(kind: u16, envelope: EnvelopeView, row: Row) -> Result<
    T::V,
    RowError,
> {
    if envelope.record_kind != kind || envelope.schema_version != 1 {
        Err(RowError::Corrupt(row))
    } else {
        match exactly::<T>(envelope.payload) {
            Ok(v) => Ok(v),
            Err(_) => Err(RowError::Corrupt(row)),
        }
    }
}

fn unwrap_row<T: Wire>(kind: u16, envelope: &StoreEnvelope, row: Row) -> (r: Result<T, RowError>)
    ensures
        match r {
            Ok(v) => unwrapped::<T>(kind, envelope@, row) == Ok::<T::V, RowError>(v@),
            Err(e) => unwrapped::<T>(kind, envelope@, row) == Err::<T::V, RowError>(e),
        },
{
    if envelope.record_kind != kind || envelope.schema_version != 1 {
        return Err(RowError::Corrupt(row));
    }
    match from_wire::<T>(&envelope.payload) {
        Ok(v) => Ok(v),
        Err(_) => Err(RowError::Corrupt(row)),
    }
}

/// A record read back from the envelope it was written in is the record.
pub proof fn lemma_row_round_trip<T: Wire>(kind: u16, value: T::V, row: Row)
    requires
        T::fits(value),
    ensures
        unwrapped::<T>(kind, enveloped::<T>(kind, 1, value), row) == Ok::<T::V, RowError>(value),
{
    crate::codec::lemma_wire_round_trip::<T>(value);
}

/// A row in the protocol collection.
pub open spec fn protocol_row(key: Seq<u8>, value: EnvelopeView) -> UpdateView {
    UpdateView { collection: Collection::ProtocolV1, key, value }
}

/// Key of the epoch's promise row.
pub fn promise_key(epoch: ConfigurationEpoch) -> (r: Vec<u8>)
    ensures
        r@ == row_key(epoch, PROMISE_TAG, Seq::<u8>::empty()),
{
    make_key(epoch, PROMISE_TAG, &Vec::new())
}

/// Encode the promise row.
pub fn encode_promise(record: &PromiseRecordV1) -> (r: StoreEnvelope)
    ensures
        r@ == enveloped::<PromiseRecordV1>(PROMISE_KIND, 1, record@),
        PromiseRecordV1::fits(record@),
{
    envelope_at(PROMISE_KIND, 1, record)
}

/// Decode the promise row.
pub fn decode_promise(envelope: &StoreEnvelope) -> (r: Result<PromiseRecordV1, RowError>)
    ensures
        match r {
            Ok(v) => unwrapped::<PromiseRecordV1>(PROMISE_KIND, envelope@, Row::Promise) == Ok::<PromiseRecordV1, RowError>(v@),
            Err(e) => unwrapped::<PromiseRecordV1>(PROMISE_KIND, envelope@, Row::Promise) == Err::<PromiseRecordV1, RowError>(e),
        },
{
    unwrap_row(PROMISE_KIND, envelope, Row::Promise)
}

/// The update that writes the epoch's promise row.
#[verifier::opaque]
pub open spec fn promise_row(epoch: ConfigurationEpoch, record: PromiseRecordV1) -> UpdateView {
    protocol_row(row_key(epoch, PROMISE_TAG, Seq::<u8>::empty()), enveloped::<PromiseRecordV1>(PROMISE_KIND, 1, record))
}

/// The update that writes the epoch's promise row.
pub fn promise_update(epoch: ConfigurationEpoch, record: &PromiseRecordV1) -> (r: StoreUpdate)
    ensures
        r@ == promise_row(epoch, record@),
{
    proof {
        reveal(promise_row);
    }
    StoreUpdate {
        collection: Collection::ProtocolV1,
        key: promise_key(epoch),
        value: encode_promise(record),
    }
}

/// Key of the seal row of an epoch.
pub fn seal_key(epoch: ConfigurationEpoch) -> (r: Vec<u8>)
    ensures
        r@ == row_key(epoch, SEAL_TAG, Seq::<u8>::empty()),
{
    make_key(epoch, SEAL_TAG, &Vec::new())
}

/// Encode the seal row.
pub fn encode_seal(record: &SealRecordV1) -> (r: StoreEnvelope)
    ensures
        r@ == enveloped::<SealRecordV1>(SEAL_KIND, 1, record@),
        SealRecordV1::fits(record@),
{
    envelope_at(SEAL_KIND, 1, record)
}

/// Decode the seal row.
pub fn decode_seal(envelope: &StoreEnvelope) -> (r: Result<SealRecordV1, RowError>)
    ensures
        match r {
            Ok(v) => unwrapped::<SealRecordV1>(SEAL_KIND, envelope@, Row::Seal) == Ok::<SealRecordV1, RowError>(v@),
            Err(e) => unwrapped::<SealRecordV1>(SEAL_KIND, envelope@, Row::Seal) == Err::<SealRecordV1, RowError>(e),
        },
{
    unwrap_row(SEAL_KIND, envelope, Row::Seal)
}

/// The update that writes the seal row of an epoch.
#[verifier::opaque]
pub open spec fn seal_row(epoch: ConfigurationEpoch, record: SealRecordV1) -> UpdateView {
    protocol_row(row_key(epoch, SEAL_TAG, Seq::<u8>::empty()), enveloped::<SealRecordV1>(SEAL_KIND, 1, record))
}

/// The update that writes the seal row of an epoch.
pub fn seal_update(epoch: ConfigurationEpoch, record: &SealRecordV1) -> (r: StoreUpdate)
    ensures
        r@ == seal_row(epoch, record@),
{
    proof {
        reveal(seal_row);
    }
    StoreUpdate {
        collection: Collection::ProtocolV1,
        key: seal_key(epoch),
        value: encode_seal(record),
    }
}

/// Key of a command's dependency row in an epoch.
pub fn dependency_key(epoch: ConfigurationEpoch, command: &CommandId) -> (r: Vec<u8>)
    ensures
        r@ == row_key(epoch, DEPENDENCY_TAG, (*command).bytes()),
{
    make_key(epoch, DEPENDENCY_TAG, &command.to_bytes())
}

/// Encode a command's required dependency state: phase, dependencies, payload binding and path evidence.
pub fn encode_dependency(record: &CommandRecord) -> (r: StoreEnvelope)
    ensures
        r@ == enveloped::<CommandRecord>(DEPENDENCY_KIND, 1, record@),
        CommandRecord::fits(record@),
{
    envelope_at(DEPENDENCY_KIND, 1, record)
}

/// Decode a command's required dependency state: phase, dependencies, payload binding and path evidence.
pub fn decode_dependency(envelope: &StoreEnvelope) -> (r: Result<CommandRecord, RowError>)
    ensures
        match r {
            Ok(v) => unwrapped::<CommandRecord>(DEPENDENCY_KIND, envelope@, Row::Dependency) == Ok::<RecordView, RowError>(v@),
            Err(e) => unwrapped::<CommandRecord>(DEPENDENCY_KIND, envelope@, Row::Dependency) == Err::<RecordView, RowError>(e),
        },
{
    unwrap_row(DEPENDENCY_KIND, envelope, Row::Dependency)
}

/// The update that writes a command's dependency row in an epoch.
#[verifier::opaque]
pub open spec fn dependency_row(epoch: ConfigurationEpoch, command: CommandId, record: RecordView) -> UpdateView {
    protocol_row(row_key(epoch, DEPENDENCY_TAG, command.bytes()), enveloped::<CommandRecord>(DEPENDENCY_KIND, 1, record))
}

/// The update that writes a command's dependency row in an epoch.
pub fn dependency_update(epoch: ConfigurationEpoch, command: &CommandId, record: &CommandRecord) -> (r: StoreUpdate)
    ensures
        r@ == dependency_row(epoch, *command, record@),
{
    proof {
        reveal(dependency_row);
    }
    StoreUpdate {
        collection: Collection::ProtocolV1,
        key: dependency_key(epoch, command),
        value: encode_dependency(record),
    }
}

/// Key of a command's proposal row in an epoch.
pub fn proposal_key(epoch: ConfigurationEpoch, command: &CommandId) -> (r: Vec<u8>)
    ensures
        r@ == row_key(epoch, PROPOSAL_TAG, (*command).bytes()),
{
    make_key(epoch, PROPOSAL_TAG, &command.to_bytes())
}

/// Encode a proposal row.
pub fn encode_proposal(record: &ProposalRecordV1) -> (r: StoreEnvelope)
    ensures
        r@ == enveloped::<ProposalRecordV1>(PROPOSAL_KIND, 1, record@),
        ProposalRecordV1::fits(record@),
{
    envelope_at(PROPOSAL_KIND, 1, record)
}

/// Decode a proposal row.
pub fn decode_proposal(envelope: &StoreEnvelope) -> (r: Result<ProposalRecordV1, RowError>)
    ensures
        match r {
            Ok(v) => unwrapped::<ProposalRecordV1>(PROPOSAL_KIND, envelope@, Row::Proposal) == Ok::<ProposalRecordView, RowError>(v@),
            Err(e) => unwrapped::<ProposalRecordV1>(PROPOSAL_KIND, envelope@, Row::Proposal) == Err::<ProposalRecordView, RowError>(e),
        },
{
    unwrap_row(PROPOSAL_KIND, envelope, Row::Proposal)
}

/// The update that writes a command's proposal row in an epoch.
#[verifier::opaque]
pub open spec fn proposal_row(epoch: ConfigurationEpoch, command: CommandId, record: ProposalRecordView) -> UpdateView {
    protocol_row(row_key(epoch, PROPOSAL_TAG, command.bytes()), enveloped::<ProposalRecordV1>(PROPOSAL_KIND, 1, record))
}

/// The update that writes a command's proposal row in an epoch.
pub fn proposal_update(epoch: ConfigurationEpoch, command: &CommandId, record: &ProposalRecordV1) -> (r: StoreUpdate)
    ensures
        r@ == proposal_row(epoch, *command, record@),
{
    proof {
        reveal(proposal_row);
    }
    StoreUpdate {
        collection: Collection::ProtocolV1,
        key: proposal_key(epoch, command),
        value: encode_proposal(record),
    }
}

/// Key of a payload: the command identity.
pub fn payload_key(command: &CommandId) -> (r: Vec<u8>)
    ensures
        r@ == (*command).bytes(),
{
    command.to_bytes()
}

/// Encode a payload row.
pub fn encode_payload(record: &PayloadRecordV1) -> (r: StoreEnvelope)
    ensures
        r@ == enveloped::<PayloadRecordV1>(PAYLOAD_KIND, 1, record@),
        PayloadRecordV1::fits(record@),
{
    envelope_at(PAYLOAD_KIND, 1, record)
}

/// Decode a payload row.
pub fn decode_payload(envelope: &StoreEnvelope) -> (r: Result<PayloadRecordV1, RowError>)
    ensures
        match r {
            Ok(v) => unwrapped::<PayloadRecordV1>(PAYLOAD_KIND, envelope@, Row::Payload) == Ok::<
                PayloadView,
                RowError,
            >(v@),
            Err(e) => unwrapped::<PayloadRecordV1>(PAYLOAD_KIND, envelope@, Row::Payload) == Err::<
                PayloadView,
                RowError,
            >(e),
        },
{
    unwrap_row(PAYLOAD_KIND, envelope, Row::Payload)
}

/// The update that persists a command's payload.
#[verifier::opaque]
pub open spec fn payload_row(command: CommandId, record: PayloadView) -> UpdateView {
    UpdateView {
        collection: Collection::PayloadV1,
        key: command.bytes(),
        value: enveloped::<PayloadRecordV1>(PAYLOAD_KIND, 1, record),
    }
}

/// The update that persists a command's payload.
pub fn payload_update(command: &CommandId, record: &PayloadRecordV1) -> (r: StoreUpdate)
    ensures
        r@ == payload_row(*command, record@),
{
    proof {
        reveal(payload_row);
    }
    StoreUpdate {
        collection: Collection::PayloadV1,
        key: payload_key(command),
        value: encode_payload(record),
    }
}

/// What follows the tag in a Sync row's key.
pub open spec fn sync_suffix(ballot: Ballot) -> Seq<u8> {
    be_bytes(ballot.number as int, 8) + ballot.leader.bytes()
}

/// Key of the Sync row of a ballot in an epoch.
pub fn sync_key(epoch: ConfigurationEpoch, ballot: &Ballot) -> (r: Vec<u8>)
    ensures
        r@ == row_key(epoch, SYNC_TAG, sync_suffix(*ballot)),
{
    let mut rest = to_be(ballot.number as u128, 8);
    append_bytes(&mut rest, &ballot.leader.to_bytes());
    make_key(epoch, SYNC_TAG, &rest)
}

/// Encode a Sync row.
pub fn encode_sync(record: &SyncRecordV1) -> (r: StoreEnvelope)
    ensures
        r@ == enveloped::<SyncRecordV1>(SYNC_KIND, SYNC_SCHEMA_VERSION, record@),
        SyncRecordV1::fits(record@),
{
    envelope_at(SYNC_KIND, SYNC_SCHEMA_VERSION, record)
}

/// A version 1 entry read as what that revision knew: no path evidence.
pub open spec fn modern_entry<H: Fn(HashDomain, Vec<Vec<u8>>) -> Digest32>(
    hash: H,
    entry: SyncEntryV1View,
) -> SyncEntryView {
    SyncEntryView {
        command: entry.command,
        phase: entry.phase,
        deps: entry.deps,
        path: no_path(hash),
        paths: Seq::empty(),
        seqnum: 0,
    }
}

/// A version 1 decision read as what that revision knew.
pub open spec fn modern<H: Fn(HashDomain, Vec<Vec<u8>>) -> Digest32>(
    hash: H,
    decision: SyncV1View,
) -> SyncView {
    SyncView {
        ballot: decision.ballot,
        source_ballot: decision.source_ballot,
        entries: decision.entries.map_values(|e: SyncEntryV1View| modern_entry(hash, e)),
        reproposed: decision.reproposed,
    }
}

/// The Sync row an envelope holds.
pub open spec fn sync_of<H: Fn(HashDomain, Vec<Vec<u8>>) -> Digest32>(
    hash: H,
    envelope: EnvelopeView,
) -> Result<SyncView, RowError> {
    if envelope.record_kind != SYNC_KIND {
        Err(RowError::Corrupt(Row::Sync))
    } else if envelope.schema_version == SYNC_SCHEMA_VERSION {
        match exactly::<SyncRecordV1>(envelope.payload) {
            Ok(v) => Ok(v),
            Err(_) => Err(RowError::Corrupt(Row::Sync)),
        }
    } else if envelope.schema_version == 1 {
        match exactly::<SyncDecisionV1>(envelope.payload) {
            Ok(v) => Ok(modern(hash, v)),
            Err(_) => Err(RowError::Corrupt(Row::Sync)),
        }
    } else {
        Err(RowError::UnsupportedVersion)
    }
}

/// Read version 1 entries as what that revision knew.
fn modernize<H: Fn(HashDomain, Vec<Vec<u8>>) -> Digest32>(
    hash: &H,
    old_entries: &OrdMap<CommandId, SyncEntryV1>,
) -> (r: OrdMap<CommandId, SyncEntry>)
    requires
        is_hash(*hash),
    ensures
        r@ == old_entries@.map_values(|e: SyncEntryV1View| modern_entry(*hash, e)),
{
    let n: usize = old_entries.len();
    let ghost order = in_order::<CommandId>(old_entries@.dom());
    let ghost goal = old_entries@.map_values(|e: SyncEntryV1View| modern_entry(*hash, e));
    proof {
        crate::ordered::lemma_in_order::<CommandId>(old_entries@.dom());
    }
    let mut out: OrdMap<CommandId, SyncEntry> = OrdMap::new();
    let mut i: usize = 0;
    proof {
        assert(out@ =~= goal.restrict(order.take(0).to_set()));
    }
    while i < n
        invariant
            is_hash(*hash),
            i <= n == old_entries@.dom().len(),
            order == in_order::<CommandId>(old_entries@.dom()),
            order.len() == n,
            goal == old_entries@.map_values(|e: SyncEntryV1View| modern_entry(*hash, e)),
            out@ == goal.restrict(order.take(i as int).to_set()),
        decreases n - i,
    {
        let c = *old_entries.key_at(i);
        let e = old_entries.value_at(i);
        let entry = SyncEntry {
            command: e.command,
            phase: e.phase,
            deps: copy_list(&e.deps),
            path: empty_path(hash),
            paths: Vec::new(),
            seqnum: 0,
        };
        proof {
            assert(entry@ =~= modern_entry(*hash, e@));
            crate::ordered::lemma_take_set(order, i as int);
        }
        out.insert(c, entry);
        proof {
            assert(out@ =~= goal.restrict(order.take(i + 1).to_set()));
        }
        i = i + 1;
    }
    proof {
        assert(order.take(n as int) =~= order);
        assert(out@ =~= goal) by {
            assert forall|c: CommandId| goal.contains_key(c) implies order.to_set().contains(c) by {
                assert(order.contains(c));
            }
        }
    }
    out
}

/// Decode a Sync row, including one written in the version 1 layout. A
/// version 1 selection is read back with empty path evidence, which is what
/// that revision knew: the dependencies it bound are preserved exactly, and
/// the replica realigns nothing it has no evidence for. Any other version is
/// refused rather than misread.
pub fn decode_sync<H: Fn(HashDomain, Vec<Vec<u8>>) -> Digest32>(
    hash: &H,
    envelope: &StoreEnvelope,
) -> (r: Result<SyncRecordV1, RowError>)
    requires
        is_hash(*hash),
    ensures
        match r {
            Ok(v) => sync_of(*hash, envelope@) == Ok::<SyncView, RowError>(v@),
            Err(e) => sync_of(*hash, envelope@) == Err::<SyncView, RowError>(e),
        },
{
    if envelope.record_kind != SYNC_KIND {
        return Err(RowError::Corrupt(Row::Sync));
    }
    if envelope.schema_version == SYNC_SCHEMA_VERSION {
        return match from_wire::<SyncRecordV1>(&envelope.payload) {
            Ok(v) => Ok(v),
            Err(_) => Err(RowError::Corrupt(Row::Sync)),
        };
    }
    if envelope.schema_version == 1 {
        return match from_wire::<SyncDecisionV1>(&envelope.payload) {
            Ok(legacy) => {
                let decision = SyncDecision {
                    ballot: legacy.ballot,
                    source_ballot: legacy.source_ballot,
                    entries: modernize(hash, &legacy.entries),
                    reproposed: legacy.reproposed,
                };
                Ok(SyncRecordV1 { decision })
            },
            Err(_) => Err(RowError::Corrupt(Row::Sync)),
        };
    }
    Err(RowError::UnsupportedVersion)
}

/// A Sync row read back is the selection that was bound.
pub proof fn lemma_sync_round_trip<H: Fn(HashDomain, Vec<Vec<u8>>) -> Digest32>(
    hash: H,
    decision: SyncView,
)
    requires
        SyncRecordV1::fits(decision),
    ensures
        sync_of(hash, enveloped::<SyncRecordV1>(SYNC_KIND, SYNC_SCHEMA_VERSION, decision)) == Ok::<
            SyncView,
            RowError,
        >(decision),
{
    crate::codec::lemma_wire_round_trip::<SyncRecordV1>(decision);
}

/// The update that persists a bound Sync selection.
#[verifier::opaque]
pub open spec fn sync_row(epoch: ConfigurationEpoch, decision: SyncView) -> UpdateView {
    protocol_row(
        row_key(epoch, SYNC_TAG, sync_suffix(decision.ballot)),
        enveloped::<SyncRecordV1>(SYNC_KIND, SYNC_SCHEMA_VERSION, decision),
    )
}

/// The update that persists a bound Sync selection.
pub fn sync_update(epoch: ConfigurationEpoch, record: &SyncRecordV1) -> (r: StoreUpdate)
    ensures
        r@ == sync_row(epoch, record@),
{
    proof {
        reveal(sync_row);
    }
    StoreUpdate {
        collection: Collection::ProtocolV1,
        key: sync_key(epoch, &record.decision.ballot),
        value: encode_sync(record),
    }
}

} // verus!
