//! How things are written down: numbers, identities, messages, rows and frames,
//! byte for byte, and what each digest is taken over.

use vstd::prelude::*;

use crate::admission::receipt_identity;
use crate::client::WireLimits;
use crate::codec::{Wire, list_wire, map_items, option_wire, varint};
use crate::commands::{CommandRecord, RecordView};
use crate::dispatch::named_by_key;
use crate::effects::{
    Collection, EnvelopeView, EstablishmentEvidence, ReleasedResult, ReleasedView,
};
use crate::bytes::bytes_before;
use crate::graph::{AnchorSeq, anchor_parts, by_key, chained, combined, no_path, place};
use crate::handoff::Transition;
use crate::hash::{HashDomain, digest_of};
use crate::ids::{
    Ballot, BarrierId, CommandId, ConfigurationEpoch, Digest32, ReplicaId, RetryKey, ballot_below,
    be_bytes, pow256, supersedes,
};
use crate::messages::{MessageView, frame_of};
use crate::ordered::{Key, in_order};
use crate::phase::Phase;
use crate::recovery::{
    ReportEntry, ReportEntryView, SyncDecision, SyncEntry, SyncEntryView, SyncView,
};
use crate::rows::{
    PayloadRecordV1, PayloadView, PromiseRecordV1, ProposalRecordV1, ProposalRecordView, Row,
    RowError, SYNC_KIND, SealRecordV1, SyncV1View, admission_of, dependency_row, modern, payload_row,
    promise_row, proposal_row, seal_row, sync_of, sync_row, unwrapped,
};
use crate::summary::{PageView, ReportPage};
use crate::vote::{FastAck, FastAckView, SlowAck};
use crate::wire::{SubmitV1, SubmitView, framed, frame_bytes};

verus! {

// Numbers.

/// A number is written in groups of seven bits, the low ones first, each but the
/// last with the high bit set, in as few as it takes.
pub proof fn lemma_numbers_are_grouped(value: int)
    requires
        0 <= value,
    ensures
        ({
            let s = varint(value);
            &&& s.len() >= 1
            &&& s.len() == 1 <==> value < 128
            &&& s[0] as int % 128 == value % 128
            &&& s[0] >= 128 <==> value >= 128
            &&& value >= 128 ==> s.drop_first() == varint(value / 128)
            &&& s.last() < 128
        }),
    decreases value,
{
    let s = varint(value);
    if value >= 128 {
        lemma_numbers_are_grouped(value / 128);
        assert(s.drop_first() =~= varint(value / 128));
        assert(s.last() == varint(value / 128).last());
    }
}

/// Identities are written with the high byte first: byte `i` of `n` is that
/// digit of the number to the base of a byte.
pub proof fn lemma_high_bytes_first(value: int, n: nat, i: int)
    requires
        0 <= value,
        0 <= i < n,
    ensures
        be_bytes(value, n).len() == n,
        be_bytes(value, n)[i] as int == value / pow256((n - 1 - i) as nat) % 256,
    decreases n,
{
    crate::ids::lemma_be_len(value, n);
    crate::ids::lemma_be_len(value / 256, (n - 1) as nat);
    if i == n - 1 {
        assert(pow256(0) == 1);
        assert(value / 1 == value);
    } else {
        let m = (n - 1) as nat;
        lemma_high_bytes_first(value / 256, m, i);
        let p = pow256((m - 1 - i) as nat);
        assert(pow256((n - 1 - i) as nat) == 256 * p);
        lemma_pow_positive((m - 1 - i) as nat);
        assert(value / 256 / p == value / (256 * p)) by {
            vstd::arithmetic::div_mod::lemma_div_denominator(value, 256, p);
        }
    }
}

proof fn lemma_pow_positive(n: nat)
    ensures
        pow256(n) > 0,
    decreases n,
{
    if n > 0 {
        lemma_pow_positive((n - 1) as nat);
    }
}

// Order.

/// Identities are ordered by number, commands by digest with the high half
/// first, ballots by number and by leader within one; a ballot supersedes only
/// those of its own epoch.
pub proof fn lemma_how_things_are_ordered(
    a: ReplicaId,
    b: ReplicaId,
    c: CommandId,
    d: CommandId,
    x: Ballot,
    y: Ballot,
    m: BarrierId,
    n: BarrierId,
)
    ensures
        ReplicaId::before(a, b) <==> a.0 < b.0,
        BarrierId::before(m, n) <==> m.0 < n.0,
        CommandId::before(c, d) <==> c.0.high < d.0.high || c.0.high == d.0.high && c.0.low
            < d.0.low,
        supersedes(x, y) <==> x.epoch == y.epoch && (x.number > y.number || x.number == y.number
            && x.leader.0 > y.leader.0),
        ballot_below(x, y) <==> x.number < y.number || x.number == y.number && x.leader.0
            < y.leader.0,
{
}

// Records.

/// A ballot is its epoch, its number and its leader; a transition the epochs it
/// leaves and enters and its subject.
pub proof fn lemma_ballots_and_transitions_written(v: Ballot, t: Transition)
    ensures
        Ballot::wire(v) == varint(v.epoch.0 as int) + (varint(v.number as int) + be_bytes(
            v.leader.0 as int,
            16,
        )),
        Transition::wire(t) == varint(t.from.0 as int) + (varint(t.to.0 as int) + (be_bytes(
            t.subject.high as int,
            16,
        ) + be_bytes(t.subject.low as int, 16))),
{
}

/// Phases are written by their place: start, pre-accept, accept, commit,
/// executed.
pub proof fn lemma_phases_written(v: Phase)
    ensures
        Phase::wire(v) == seq![
            match v {
                Phase::Start => 0u8,
                Phase::PreAccept => 1u8,
                Phase::Accept => 2u8,
                Phase::Commit => 3u8,
                Phase::Executed => 4u8,
            },
        ],
        Phase::Start.rank() < Phase::PreAccept.rank() < Phase::Accept.rank()
            < Phase::Commit.rank() < Phase::Executed.rank(),
{
    assert(varint(0) == seq![0u8]);
    assert(varint(1) == seq![1u8]);
    assert(varint(2) == seq![2u8]);
    assert(varint(3) == seq![3u8]);
    assert(varint(4) == seq![4u8]);
}

/// A record is its phase, dependencies, keys, payload digest, anchors, place in
/// the leader's order and path.
pub proof fn lemma_records_written(v: RecordView)
    ensures
        CommandRecord::wire(v) == Phase::wire(v.phase) + (list_wire::<CommandId>(v.deps) + (
        list_wire::<Vec<u8>>(v.keys) + (option_wire::<Digest32>(v.payload) + (list_wire::<
            (Vec<u8>, Digest32),
        >(v.paths) + (option_wire::<u64>(v.synced_seq) + v.path.bytes()))))),
{
}

/// A payload is its retry key, the logical request, what it was admitted under
/// and the acknowledged floor.
pub proof fn lemma_payloads_written(v: PayloadView)
    ensures
        PayloadRecordV1::wire(v) == RetryKey::wire(v.retry_key) + ((varint(v.logical.len() as int)
            + v.logical) + (option_wire::<crate::rows::AdmissionFacts>(v.admission) + varint(
            v.ack_through as int,
        ))),
        RetryKey::wire(v.retry_key) == be_bytes(v.retry_key.cluster_id.0 as int, 16) + (be_bytes(
            v.retry_key.domain_id.0 as int,
            16,
        ) + (be_bytes(v.retry_key.session_id.0 as int, 16) + (be_bytes(
            v.retry_key.client_instance_id.0 as int,
            16,
        ) + varint(v.retry_key.request_sequence.0 as int)))),
{
}

/// A proposal is its ballot, place, dependencies and path; a promise the ballots
/// promised and synchronized; a seal its transition and the ballot it was at.
pub proof fn lemma_proposals_promises_and_seals_written(
    p: ProposalRecordView,
    r: PromiseRecordV1,
    s: SealRecordV1,
)
    ensures
        ProposalRecordV1::wire(p) == Ballot::wire(p.ballot) + (varint(p.seqnum as int) + (
        list_wire::<CommandId>(p.deps) + p.path.bytes())),
        PromiseRecordV1::wire(r) == Ballot::wire(r.promised) + Ballot::wire(r.synced),
        SealRecordV1::wire(s) == Transition::wire(s.transition) + Ballot::wire(s.at),
{
}

/// A selection is its ballot, its source, its entries by command and what is to
/// be proposed again; an entry its command, phase, dependencies, path, anchors
/// and place.
pub proof fn lemma_selections_written(d: SyncView, e: SyncEntryView)
    ensures
        SyncDecision::wire(d) == Ballot::wire(d.ballot) + (Ballot::wire(d.source_ballot) + (
        list_wire::<(CommandId, SyncEntry)>(map_items::<CommandId, SyncEntryView>(d.entries))
            + list_wire::<CommandId>(in_order::<CommandId>(d.reproposed)))),
        SyncEntry::wire(e) == e.command.bytes() + (Phase::wire(e.phase) + (list_wire::<CommandId>(
            e.deps,
        ) + (e.path.bytes() + (list_wire::<(Vec<u8>, Digest32)>(e.paths) + varint(
            e.seqnum as int,
        ))))),
{
}

/// A report page is its replica, ballots, number and total, entries, snapshot
/// and digest; an entry its command, phase, dependencies, path, anchors, place,
/// keys and whether the payload is there.
pub proof fn lemma_report_pages_written(p: PageView, e: ReportEntryView)
    ensures
        ReportPage::wire(p) == be_bytes(p.replica.0 as int, 16) + (Ballot::wire(p.ballot) + (
        Ballot::wire(p.committed_ballot) + (varint(p.page as int) + (varint(p.total as int) + (
        list_wire::<ReportEntry>(p.entries) + (p.snapshot.bytes() + p.digest.bytes())))))),
        ReportEntry::wire(e) == e.command.bytes() + (Phase::wire(e.phase) + (list_wire::<
            CommandId,
        >(e.deps) + (e.path.bytes() + (list_wire::<(Vec<u8>, Digest32)>(e.paths) + (varint(
            e.seqnum as int,
        ) + (list_wire::<Vec<u8>>(e.keys) + bool::wire(e.payload_present))))))),
{
}

// Messages.

/// Acknowledgements: replica, ballot and command first, a fast one with its
/// dependencies, anchors, path, digest and place, a slow one with its digest.
pub proof fn lemma_acknowledgements_written(f: FastAckView, s: SlowAck)
    ensures
        FastAck::wire(f) == be_bytes(f.replica.0 as int, 16) + (Ballot::wire(f.ballot) + (
        f.command.bytes() + (list_wire::<CommandId>(f.deps) + (list_wire::<(Vec<u8>, Digest32)>(
            f.paths,
        ) + (f.path.bytes() + (f.admission.bytes() + option_wire::<u64>(f.seqnum))))))),
        SlowAck::wire(s) == be_bytes(s.replica.0 as int, 16) + (Ballot::wire(s.ballot) + (
        s.command.bytes() + s.admission.bytes())),
{
}

/// A message is the number of its kind and what it says.
pub proof fn lemma_messages_written(
    ballot: Ballot,
    other: Ballot,
    replica: ReplicaId,
    f: FastAckView,
    s: SlowAck,
    command: CommandId,
    seqnum: u64,
    deps: Seq<CommandId>,
    path: Digest32,
    page: PageView,
    payload: PayloadView,
    d: SyncView,
    transition: Transition,
)
    ensures
        frame_of(MessageView::NewLeader { ballot }) == seq![0u8] + Ballot::wire(ballot),
        frame_of(MessageView::Promise { ballot, synced: other, replica }) == seq![1u8] + (
        Ballot::wire(ballot) + (Ballot::wire(other) + be_bytes(replica.0 as int, 16))),
        frame_of(MessageView::Proposal(f)) == seq![2u8] + FastAck::wire(f),
        frame_of(MessageView::FastAck(f)) == seq![3u8] + FastAck::wire(f),
        frame_of(MessageView::SlowAck(s)) == seq![4u8] + SlowAck::wire(s),
        frame_of(MessageView::LeaderReply { ballot, command, seqnum, deps, path }) == seq![5u8] + (
        Ballot::wire(ballot) + (command.bytes() + (varint(seqnum as int) + (list_wire::<CommandId>(
            deps,
        ) + path.bytes())))),
        frame_of(MessageView::ReportPage(page)) == seq![6u8] + ReportPage::wire(page),
        frame_of(MessageView::PayloadRequest { commands: deps }) == seq![7u8] + list_wire::<
            CommandId,
        >(deps),
        frame_of(MessageView::PayloadResponse { command, payload }) == seq![8u8] + (
        command.bytes() + PayloadRecordV1::wire(payload)),
        frame_of(MessageView::Sync(d)) == seq![9u8] + SyncDecision::wire(d),
        frame_of(MessageView::SealRequest { transition }) == seq![10u8] + Transition::wire(
            transition,
        ),
        frame_of(MessageView::Sealed { transition, at: other, replica }) == seq![11u8] + (
        Transition::wire(transition) + (Ballot::wire(other) + be_bytes(replica.0 as int, 16))),
{
    reveal(frame_of);
    assert(forall|n: int| 0 <= n < 12 ==> #[trigger] varint(n) == seq![n as u8]);
    assert(varint(0) == seq![0u8] && varint(1) == seq![1u8] && varint(2) == seq![2u8]);
    assert(varint(3) == seq![3u8] && varint(4) == seq![4u8] && varint(5) == seq![5u8]);
    assert(varint(6) == seq![6u8] && varint(7) == seq![7u8] && varint(8) == seq![8u8]);
    assert(varint(9) == seq![9u8] && varint(10) == seq![10u8] && varint(11) == seq![11u8]);
}

/// A submission is what it was admitted under and the request; what it was
/// admitted under is the attestation, the purpose and the claims.
pub proof fn lemma_submissions_written(v: SubmitView)
    ensures
        SubmitV1::wire(v) == crate::client::AdmissionReceipt::wire(v.receipt)
            + crate::client::RequestV1::wire(v.request),
        crate::client::RequestV1::wire(v.request) == RetryKey::wire(v.request.retry_key) + ((
        varint(v.request.logical.len() as int) + v.request.logical) + (varint(
            v.request.deadline_ms as int,
        ) + varint(v.request.ack_through as int))),
        ({
            let a = v.receipt.attested;
            crate::client::AttestedAdmission::wire(a) == be_bytes(a.cluster.0 as int, 16) + (
            be_bytes(a.domain.0 as int, 16) + (be_bytes(a.session.0 as int, 16) + (varint(
                a.rule_generation as int,
            ) + (varint(a.scope_ceiling as int) + (a.receipt_id.bytes() + varint(
                a.admitted_at_ticks as int,
            ))))))
        }),
{
}

/// A released result is its evidence, the response and whether it is ahead of
/// execution; evidence its command, epoch, ballot, position, predecessors,
/// digest, revision and whether it was fast.
pub proof fn lemma_releases_written(v: ReleasedView)
    ensures
        ReleasedResult::wire(v) == EstablishmentEvidence::wire(v.evidence) + ((varint(
            v.response.len() as int,
        ) + v.response) + bool::wire(v.speculative)),
        ({
            let e = v.evidence;
            EstablishmentEvidence::wire(e) == e.command.bytes() + (varint(e.epoch.0 as int) + (
            Ballot::wire(e.ballot) + (varint(e.position.0 as int) + (list_wire::<CommandId>(
                e.closed_predecessors,
            ) + (e.result_digest.bytes() + (option_wire::<crate::ids::KvRevision>(e.revision)
                + bool::wire(e.fast_path)))))))
        }),
        bool::wire(true) == seq![1u8] && bool::wire(false) == seq![0u8],
{
}

// Rows and frames.

/// Protocol rows stand under their epoch and a tag of their kind, those of a
/// command with the command behind it; payloads stand by themselves under the
/// command alone.
pub proof fn lemma_where_rows_stand(
    epoch: ConfigurationEpoch,
    c: CommandId,
    promise: PromiseRecordV1,
    record: RecordView,
    proposal: ProposalRecordView,
    d: SyncView,
    seal: SealRecordV1,
    payload: PayloadView,
)
    ensures
        promise_row(epoch, promise).key == be_bytes(epoch.0 as int, 8).push(0u8),
        dependency_row(epoch, c, record).key == be_bytes(epoch.0 as int, 8).push(1u8) + c.bytes(),
        proposal_row(epoch, c, proposal).key == be_bytes(epoch.0 as int, 8).push(2u8) + c.bytes(),
        sync_row(epoch, d).key == be_bytes(epoch.0 as int, 8).push(3u8) + (be_bytes(
            d.ballot.number as int,
            8,
        ) + be_bytes(d.ballot.leader.0 as int, 16)),
        seal_row(epoch, seal).key == be_bytes(epoch.0 as int, 8).push(4u8),
        payload_row(c, payload).key == c.bytes(),
        promise_row(epoch, promise).collection == Collection::ProtocolV1,
        dependency_row(epoch, c, record).collection == Collection::ProtocolV1,
        proposal_row(epoch, c, proposal).collection == Collection::ProtocolV1,
        sync_row(epoch, d).collection == Collection::ProtocolV1,
        seal_row(epoch, seal).collection == Collection::ProtocolV1,
        payload_row(c, payload).collection == Collection::PayloadV1,
{
    reveal(promise_row);
    reveal(dependency_row);
    reveal(proposal_row);
    reveal(sync_row);
    reveal(seal_row);
    reveal(payload_row);
    assert(be_bytes(epoch.0 as int, 8).push(0u8) + Seq::<u8>::empty() =~= be_bytes(
        epoch.0 as int,
        8,
    ).push(0u8));
    assert(be_bytes(epoch.0 as int, 8).push(4u8) + Seq::<u8>::empty() =~= be_bytes(
        epoch.0 as int,
        8,
    ).push(4u8));
}

/// What a row holds is its record, under the number of its kind and of its
/// layout.
pub proof fn lemma_what_rows_hold(
    epoch: ConfigurationEpoch,
    c: CommandId,
    promise: PromiseRecordV1,
    record: RecordView,
    proposal: ProposalRecordView,
    d: SyncView,
    seal: SealRecordV1,
    payload: PayloadView,
)
    ensures
        ({
            let v = promise_row(epoch, promise).value;
            v.record_kind == 1 && v.schema_version == 1 && v.payload == PromiseRecordV1::wire(
                promise,
            )
        }),
        ({
            let v = dependency_row(epoch, c, record).value;
            v.record_kind == 2 && v.schema_version == 1 && v.payload == CommandRecord::wire(record)
        }),
        ({
            let v = proposal_row(epoch, c, proposal).value;
            v.record_kind == 3 && v.schema_version == 1 && v.payload == ProposalRecordV1::wire(
                proposal,
            )
        }),
        ({
            let v = sync_row(epoch, d).value;
            v.record_kind == 4 && v.schema_version == 2 && v.payload == SyncDecision::wire(d)
        }),
        ({
            let v = seal_row(epoch, seal).value;
            v.record_kind == 5 && v.schema_version == 1 && v.payload == SealRecordV1::wire(seal)
        }),
        ({
            let v = payload_row(c, payload).value;
            v.record_kind == 1 && v.schema_version == 1 && v.payload == PayloadRecordV1::wire(
                payload,
            )
        }),
{
    reveal(promise_row);
    reveal(dependency_row);
    reveal(proposal_row);
    reveal(sync_row);
    reveal(seal_row);
    reveal(payload_row);
}

/// A payload is framed whole where it fits its class with the header, and not
/// otherwise.
pub proof fn lemma_what_is_framed(limits: WireLimits, kind: u16, payload: Seq<u8>)
    ensures
        ({
            let bound = if kind == 0x0103u16 {
                limits.api_frame
            } else {
                limits.evidence_frame
            };
            &&& framed(limits, kind, payload) is Ok <==> payload.len() + limits.header <= bound
            &&& framed(limits, kind, payload) matches Ok(f) ==> f.kind == kind && f.version == 1
                && f.payload == payload && frame_bytes(limits, f) == payload.len() + limits.header
        }),
        crate::wire::KIND_SUBMIT == 0x0103 && crate::wire::KIND_EVIDENCE == 0x0700
            && crate::wire::KIND_RELEASE == 0x0701,
{
}

// Digests.

/// What each digest is taken over: a path over the digest before it and the
/// command, several paths over their keys and digests by key, an admission over
/// its facts and the acknowledged floor, a name over the retry key, a receipt
/// over the retry key, the rules, the time and its number.
pub proof fn lemma_what_digests_are_over<H: Fn(HashDomain, Vec<Vec<u8>>) -> Digest32>(
    hash: H,
    previous: Digest32,
    command: CommandId,
    anchors: AnchorSeq,
    facts: Option<Seq<u8>>,
    ack_through: u64,
    key: RetryKey,
    generation: u64,
    ticks: u64,
    minted: u64,
)
    ensures
        chained(hash, previous, command) == digest_of(
            hash,
            HashDomain::DependencyPath,
            seq![previous.bytes(), command.bytes()],
        ),
        no_path(hash) == digest_of(hash, HashDomain::DependencyPath, Seq::empty()),
        combined(hash, anchors) == digest_of(
            hash,
            HashDomain::DependencyPath,
            anchor_parts(by_key(anchors)),
        ),
        admission_of(hash, facts, ack_through) == digest_of(
            hash,
            HashDomain::AdmissionReceipt,
            seq![option_wire::<Vec<u8>>(facts), be_bytes(ack_through as int, 8)],
        ),
        named_by_key(hash, key).0 == digest_of(
            hash,
            HashDomain::CommandId,
            seq![RetryKey::wire(key)],
        ),
        receipt_identity(hash, key, generation, ticks, minted) == digest_of(
            hash,
            HashDomain::AdmissionReceipt,
            seq![
                RetryKey::wire(key),
                be_bytes(generation as int, 8),
                be_bytes(ticks as int, 8),
                be_bytes(minted as int, 8),
            ],
        ),
{
    reveal(admission_of);
}

/// Several paths are taken in order of their keys, each key before its digest.
pub proof fn lemma_paths_are_taken_by_key(s: AnchorSeq, i: int, j: int)
    ensures
        by_key(s).to_multiset() == s.to_multiset(),
        0 <= i < j < by_key(s).len() ==> !bytes_before(by_key(s)[j].0, by_key(s)[i].0),
        anchor_parts(s).len() == 2 * s.len(),
        0 <= i < s.len() ==> anchor_parts(s)[2 * i] == s[i].0 && anchor_parts(s)[2 * i + 1]
            == s[i].1.bytes(),
{
    lemma_by_key(s);
    lemma_parts(s);
}

spec fn by_keys(s: AnchorSeq) -> bool {
    forall|i: int, j: int|
        0 <= i < j < s.len() ==> !bytes_before((#[trigger] s[j]).0, (#[trigger] s[i]).0)
}

proof fn lemma_place(s: AnchorSeq, x: (Seq<u8>, Digest32))
    requires
        by_keys(s),
    ensures
        by_keys(place(s, x)),
        place(s, x).to_multiset() == s.to_multiset().insert(x),
        place(s, x).len() == s.len() + 1,
        forall|k: int|
            0 <= k < place(s, x).len() ==> (#[trigger] place(s, x)[k]) == x || s.contains(
                place(s, x)[k],
            ),
    decreases s.len(),
{
    let t = place(s, x);
    if s.len() == 0 || !bytes_before(x.0, s.last().0) {
        s.to_multiset_ensures();
        assert forall|i: int, j: int| 0 <= i < j < t.len() implies !bytes_before(
            (#[trigger] t[j]).0,
            (#[trigger] t[i]).0,
        ) by {
            if j == s.len() && i < s.len() - 1 {
                assert(!bytes_before(s[s.len() - 1].0, s[i].0));
                lemma_bytes_order(x.0, s.last().0, s[i].0);
            }
        }
        assert forall|k: int| 0 <= k < t.len() implies (#[trigger] t[k]) == x || s.contains(
            t[k],
        ) by {
            if k < s.len() {
                assert(t[k] == s[k]);
            }
        }
    } else {
        let rest = s.drop_last();
        let last = s.last();
        assert forall|i: int, j: int| 0 <= i < j < rest.len() implies !bytes_before(
            (#[trigger] rest[j]).0,
            (#[trigger] rest[i]).0,
        ) by {
            assert(rest[i] == s[i] && rest[j] == s[j]);
        }
        lemma_place(rest, x);
        let u = place(rest, x);
        assert(t == u.push(last));
        u.to_multiset_ensures();
        rest.to_multiset_ensures();
        assert(rest.push(last) =~= s);
        assert(t.to_multiset() =~= s.to_multiset().insert(x));
        assert forall|i: int, j: int| 0 <= i < j < t.len() implies !bytes_before(
            (#[trigger] t[j]).0,
            (#[trigger] t[i]).0,
        ) by {
            if j < u.len() {
                assert(t[i] == u[i] && t[j] == u[j]);
            } else if u[i] == x {
                lemma_bytes_order(x.0, last.0, x.0);
            } else {
                assert(rest.contains(u[i]));
                let k = choose|k: int| 0 <= k < rest.len() && rest[k] == u[i];
                assert(s[k] == u[i]);
                assert(s[s.len() - 1] == last);
            }
        }
        assert forall|k: int| 0 <= k < t.len() implies (#[trigger] t[k]) == x || s.contains(
            t[k],
        ) by {
            if k < u.len() {
                assert(t[k] == u[k]);
                if u[k] != x {
                    let m = choose|m: int| 0 <= m < rest.len() && rest[m] == u[k];
                    assert(s[m] == u[k]);
                }
            } else {
                assert(s[s.len() - 1] == last);
            }
        }
    }
}

proof fn lemma_bytes_order(a: Seq<u8>, b: Seq<u8>, c: Seq<u8>)
    ensures
        bytes_before(a, b) ==> !bytes_before(b, a),
        bytes_before(a, b) && bytes_before(b, c) ==> bytes_before(a, c),
        !bytes_before(a, b) && !bytes_before(b, c) ==> !bytes_before(a, c),
{
    <Vec<u8> as Key>::irreflexive(a);
    <Vec<u8> as Key>::total(a, b);
    <Vec<u8> as Key>::total(b, c);
    if bytes_before(a, b) && bytes_before(b, a) {
        <Vec<u8> as Key>::transitive(a, b, a);
    }
    if bytes_before(a, b) && bytes_before(b, c) {
        <Vec<u8> as Key>::transitive(a, b, c);
    }
    if bytes_before(a, c) && bytes_before(c, b) {
        <Vec<u8> as Key>::transitive(a, c, b);
    }
}

proof fn lemma_by_key(s: AnchorSeq)
    ensures
        by_keys(by_key(s)),
        by_key(s).to_multiset() == s.to_multiset(),
    decreases s.len(),
{
    if s.len() > 0 {
        let rest = s.drop_last();
        lemma_by_key(rest);
        lemma_place(by_key(rest), s.last());
        rest.to_multiset_ensures();
        assert(rest.push(s.last()) =~= s);
        assert(rest.push(s.last()).to_multiset() =~= rest.to_multiset().insert(s.last()));
    } else {
        assert(by_key(s) =~= s);
    }
}

proof fn lemma_parts(s: AnchorSeq)
    ensures
        anchor_parts(s).len() == 2 * s.len(),
        forall|i: int|
            #![trigger s[i]]
            0 <= i < s.len() ==> anchor_parts(s)[2 * i] == s[i].0 && anchor_parts(s)[2 * i + 1]
                == s[i].1.bytes(),
    decreases s.len(),
{
    if s.len() > 0 {
        let rest = s.drop_last();
        lemma_parts(rest);
        assert forall|i: int|
            #![trigger s[i]]
            0 <= i < s.len() implies anchor_parts(s)[2 * i] == s[i].0 && anchor_parts(s)[2 * i + 1]
            == s[i].1.bytes() by {
            if i < rest.len() {
                assert(rest[i] == s[i]);
            }
        }
    }
}

/// An older selection reads as the same selection: ballots, what is to be
/// proposed again, and each entry's command, phase and dependencies, with no
/// path known.
pub proof fn lemma_older_selections_read_the_same<H: Fn(HashDomain, Vec<Vec<u8>>) -> Digest32>(
    hash: H,
    old_form: SyncV1View,
    c: CommandId,
)
    ensures
        ({
            let d = modern(hash, old_form);
            &&& d.ballot == old_form.ballot && d.source_ballot == old_form.source_ballot
                && d.reproposed == old_form.reproposed
            &&& d.entries.contains_key(c) <==> old_form.entries.contains_key(c)
            &&& old_form.entries.contains_key(c) ==> {
                let e = d.entries[c];
                let was = old_form.entries[c];
                &&& e.command == was.command && e.phase == was.phase && e.deps == was.deps
                &&& e.path == no_path(hash) && e.paths.len() == 0 && e.seqnum == 0
            }
        }),
{
}

/// A row of another kind is corrupt, and so is one of another layout, but for a
/// selection of a layout not known here, which is told apart.
pub proof fn lemma_strange_rows_are_refused<
    T: Wire,
    H: Fn(HashDomain, Vec<Vec<u8>>) -> Digest32,
>(hash: H, kind: u16, envelope: EnvelopeView, row: Row)
    ensures
        envelope.record_kind != kind || envelope.schema_version != 1 ==> unwrapped::<T>(
            kind,
            envelope,
            row,
        ) == Err::<T::V, RowError>(RowError::Corrupt(row)),
        envelope.record_kind != SYNC_KIND ==> sync_of(hash, envelope) == Err::<SyncView, RowError>(
            RowError::Corrupt(Row::Sync),
        ),
        envelope.record_kind == SYNC_KIND && envelope.schema_version != 1
            && envelope.schema_version != 2 ==> sync_of(hash, envelope) == Err::<
            SyncView,
            RowError,
        >(RowError::UnsupportedVersion),
{
}

} // verus!
