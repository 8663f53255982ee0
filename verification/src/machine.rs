//! What the leader and the follower have in common: how effects are
//! collected and how a message reaches the other voters.

use vstd::prelude::*;

use crate::ballot::{ConfigurationIdentity, IdentityView};
use crate::bytes::copy_bytes;
use crate::effects::{
    BatchView, Effect, EffectContext, EffectView, PendingSend, PersistBatch, SendView, StorageEvent,
    StoreUpdate, any_incarnation, copy_barriers, voter_address,
};
use crate::hash::{HashDomain, is_hash};
use crate::ids::{BarrierId, BootId, CommandId, Digest32, PeerId, ReplicaId, RetryKey};
use crate::messages::{MessageView, ProtocolMessage, frame_of};
use crate::ordered::{in_order, lemma_in_order, views};
use crate::phase::Phase;
use crate::recovery::{RecoveryReport, ReportView};
use crate::rows::AdmissionFacts;
use crate::summary::{MAX_PAGE_ENTRIES, ReportPage, page_count, page_of, page_size, paginate};

verus! {

/// What a request asks for, as far as admission cares.
#[derive(Clone, Copy, Debug, PartialEq, Eq, Structural)]
pub enum OperationKind {
    /// The service takes authority over leases.
    EstablishLeaseAuthority,
    /// The service expires a lease.
    ExpireLease,
    /// Anything a caller may ask.
    Other,
}

/// A canonical request, with the identity derived from its retry key and its
/// canonical encoding.
#[derive(Debug)]
pub struct Request {
    /// Stable invocation identity.
    pub retry_key: RetryKey,
    /// Canonical request encoding.
    pub logical: Vec<u8>,
    /// What it asks for.
    pub operation: OperationKind,
    /// Derived identity.
    pub command: CommandId,
    /// Floor the submitter acknowledged.
    pub ack_through: u64,
}

/// What a request says.
#[verifier::ext_equal]
pub struct RequestView {
    /// Stable invocation identity.
    pub retry_key: RetryKey,
    /// Canonical request encoding.
    pub logical: Seq<u8>,
    /// What it asks for.
    pub operation: OperationKind,
    /// Derived identity.
    pub command: CommandId,
    /// Floor the submitter acknowledged.
    pub ack_through: u64,
}

impl View for Request {
    type V = RequestView;

    open spec fn view(&self) -> RequestView {
        RequestView {
            retry_key: self.retry_key,
            logical: self.logical@,
            operation: self.operation,
            command: self.command,
            ack_through: self.ack_through,
        }
    }
}

/// What an optional request says.
pub open spec fn request_view(r: Option<Request>) -> Option<RequestView> {
    match r {
        Some(r) => Some(r@),
        None => None,
    }
}

/// The single conservative conflict key: every command in a domain conflicts
/// with every other.
pub open spec fn conservative_keys() -> Seq<Seq<u8>> {
    seq![seq![42u8]]
}

/// The single conservative conflict key.
pub fn conservative() -> (r: Vec<Vec<u8>>)
    ensures
        views(r@) == conservative_keys(),
{
    let mut key: Vec<u8> = Vec::new();
    key.push(42);
    proof {
        assert(key@ =~= seq![42u8]);
    }
    let mut keys: Vec<Vec<u8>> = Vec::new();
    keys.push(key);
    proof {
        assert(views(keys@) =~= conservative_keys());
    }
    keys
}

/// The views of two lists joined.
pub proof fn lemma_views_join<T: View>(a: Seq<T>, b: Seq<T>)
    ensures
        views(a + b) == views(a) + views(b),
{
    assert(views(a + b) =~= views(a) + views(b));
}

/// The views of a list with one more.
pub proof fn lemma_views_push<T: View>(a: Seq<T>, x: T)
    ensures
        views(a.push(x)) == views(a).push(x@),
{
    assert(views(a.push(x)) =~= views(a).push(x@));
}

/// Add one effect.
pub fn emit(out: &mut Vec<Effect>, effect: Effect)
    ensures
        views(final(out)@) == views(old(out)@).push(effect@),
{
    proof {
        lemma_views_push(out@, effect);
    }
    out.push(effect);
}

/// Add effects in order.
pub fn emit_all(out: &mut Vec<Effect>, more: Vec<Effect>)
    ensures
        views(final(out)@) == views(old(out)@) + views(more@),
{
    proof {
        lemma_views_join(out@, more@);
    }
    let mut more = more;
    out.append(&mut more);
}

/// No effects.
pub fn no_effects() -> (r: Vec<Effect>)
    ensures
        views(r@) == Seq::<EffectView>::empty(),
{
    let r = Vec::new();
    proof {
        assert(views(r@) =~= Seq::<EffectView>::empty());
    }
    r
}

/// A batch of one row.
pub fn one_row(barrier: BarrierId, update: StoreUpdate) -> (r: PersistBatch)
    ensures
        r@ == (BatchView { barrier, updates: seq![update@] }),
{
    let mut updates: Vec<StoreUpdate> = Vec::new();
    updates.push(update);
    proof {
        assert(views(updates@) =~= seq![update@]);
    }
    PersistBatch { barrier, updates }
}

/// A batch of two rows.
pub fn two_rows(barrier: BarrierId, first: StoreUpdate, second: StoreUpdate) -> (r: PersistBatch)
    ensures
        r@ == (BatchView { barrier, updates: seq![first@, second@] }),
{
    let mut updates: Vec<StoreUpdate> = Vec::new();
    updates.push(first);
    updates.push(second);
    proof {
        assert(views(updates@) =~= seq![first@, second@]);
    }
    PersistBatch { barrier, updates }
}

/// One barrier in a list.
pub fn only(barrier: BarrierId) -> (r: Vec<BarrierId>)
    ensures
        r@ == seq![barrier],
{
    let mut r: Vec<BarrierId> = Vec::new();
    r.push(barrier);
    proof {
        assert(r@ =~= seq![barrier]);
    }
    r
}

/// A message published.
pub open spec fn published(
    context: EffectContext,
    requires_durable: Seq<BarrierId>,
    to: PeerId,
    frame: Seq<u8>,
) -> EffectView {
    EffectView::Publish(SendView { context, requires_durable, to, frame })
}

/// A message published to each listed voter but `me`, in order.
pub open spec fn published_to(
    context: EffectContext,
    requires_durable: Seq<BarrierId>,
    voters: Seq<ReplicaId>,
    me: ReplicaId,
    frame: Seq<u8>,
) -> Seq<EffectView>
    decreases voters.len(),
{
    if voters.len() == 0 {
        Seq::empty()
    } else {
        let before = published_to(context, requires_durable, voters.drop_last(), me, frame);
        if voters.last() == me {
            before
        } else {
            before.push(
                published(context, requires_durable, any_incarnation(voters.last()), frame),
            )
        }
    }
}

/// A message published to every other voter.
pub open spec fn broadcast_of(
    context: EffectContext,
    requires_durable: Seq<BarrierId>,
    identity: IdentityView,
    frame: Seq<u8>,
) -> Seq<EffectView> {
    published_to(
        context,
        requires_durable,
        in_order::<ReplicaId>(identity.voters),
        identity.replica,
        frame,
    )
}

/// Every send of a broadcast rests on the same batches, carries the same
/// frame, and goes to a voter other than the sender.
pub proof fn lemma_published_to(
    context: EffectContext,
    requires_durable: Seq<BarrierId>,
    voters: Seq<ReplicaId>,
    me: ReplicaId,
    frame: Seq<u8>,
    i: int,
)
    requires
        0 <= i < published_to(context, requires_durable, voters, me, frame).len(),
    ensures
        exists|k: int|
            0 <= k < voters.len() && #[trigger] voters[k] != me && published_to(
                context,
                requires_durable,
                voters,
                me,
                frame,
            )[i] == published(context, requires_durable, any_incarnation(voters[k]), frame),
    decreases voters.len(),
{
    let before = voters.drop_last();
    let sends = published_to(context, requires_durable, before, me, frame);
    if i < sends.len() {
        lemma_published_to(context, requires_durable, before, me, frame, i);
        let k = choose|k: int|
            0 <= k < before.len() && #[trigger] before[k] != me && sends[i] == published(
                context,
                requires_durable,
                any_incarnation(before[k]),
                frame,
            );
        assert(voters[k] == before[k]);
    } else {
        assert(voters[voters.len() - 1] == voters.last());
    }
}

/// A broadcast reaches every other voter, once each, and nobody else: there is
/// one send per listed voter that is not the sender, in order, with the frame
/// and the batches it rests on.
pub proof fn lemma_broadcasts_reach_every_other_voter(
    context: EffectContext,
    requires_durable: Seq<BarrierId>,
    voters: Seq<ReplicaId>,
    me: ReplicaId,
    frame: Seq<u8>,
)
    ensures
        ({
            let sends = published_to(context, requires_durable, voters, me, frame);
            let others = voters.filter(|v: ReplicaId| v != me);
            &&& sends.len() == others.len()
            &&& forall|i: int|
                0 <= i < sends.len() ==> {
                    let send = #[trigger] sends[i];
                    &&& send is Publish
                    &&& send->Publish_0.to.replica == others[i]
                    &&& send->Publish_0.frame == frame
                    &&& send->Publish_0.requires_durable == requires_durable
                    &&& send->Publish_0.context == context
                }
        }),
    decreases voters.len(),
{
    reveal(Seq::filter);
    if voters.len() > 0 {
        lemma_broadcasts_reach_every_other_voter(
            context,
            requires_durable,
            voters.drop_last(),
            me,
            frame,
        );
    }
}

/// Publish a message.
pub fn publish(
    out: &mut Vec<Effect>,
    context: EffectContext,
    requires_durable: &Vec<BarrierId>,
    to: PeerId,
    frame: &Vec<u8>,
)
    ensures
        views(final(out)@) == views(old(out)@).push(
            published(context, requires_durable@, to, frame@),
        ),
{
    emit(
        out,
        Effect::Publish(
            PendingSend {
                context,
                requires_durable: copy_barriers(requires_durable),
                to,
                frame: copy_bytes(frame),
            },
        ),
    );
}

/// Publish a message to every other voter.
pub fn broadcast(
    out: &mut Vec<Effect>,
    context: EffectContext,
    requires_durable: &Vec<BarrierId>,
    identity: &ConfigurationIdentity,
    frame: &Vec<u8>,
)
    ensures
        views(final(out)@) == views(old(out)@) + broadcast_of(
            context,
            requires_durable@,
            identity@,
            frame@,
        ),
{
    let n: usize = identity.voters.len();
    let me = identity.replica;
    let ghost order = in_order::<ReplicaId>(identity@.voters);
    let ghost start = views(out@);
    proof {
        lemma_in_order::<ReplicaId>(identity@.voters);
        assert(order.take(0) =~= Seq::<ReplicaId>::empty());
        assert(start + Seq::<EffectView>::empty() =~= start);
    }
    let mut i: usize = 0;
    while i < n
        invariant
            i <= n == identity.voters@.len(),
            order == in_order::<ReplicaId>(identity@.voters),
            order.len() == n,
            me == identity@.replica,
            views(out@) == start + published_to(
                context,
                requires_durable@,
                order.take(i as int),
                me,
                frame@,
            ),
        decreases n - i,
    {
        let voter = *identity.voters.at(i);
        proof {
            assert(order.take(i + 1).drop_last() =~= order.take(i as int));
            assert(order.take(i + 1).last() == order[i as int]);
        }
        if voter != me {
            publish(out, context, requires_durable, voter_address(voter), frame);
            proof {
                assert(views(out@) =~= start + published_to(
                    context,
                    requires_durable@,
                    order.take(i + 1),
                    me,
                    frame@,
                ));
            }
        }
        i = i + 1;
    }
    proof {
        assert(order.take(order.len() as int) =~= order);
    }
}

/// Publish each send in order.
pub fn publish_sends(out: &mut Vec<Effect>, sends: Vec<PendingSend>)
    ensures
        views(final(out)@) == views(old(out)@) + publications(views(sends@)),
{
    let ghost start = views(out@);
    let ghost all = views(sends@);
    let mut sends = sends;
    let mut rest: Vec<PendingSend> = Vec::new();
    let ghost n = sends@.len();
    let ghost given = sends@;
    while sends.len() > 0
        invariant
            rest@.len() + sends@.len() == n,
            given.len() == n,
            sends@ == given.take(sends@.len() as int),
            forall|j: int| 0 <= j < rest@.len() ==> #[trigger] rest@[j] == given[n - 1 - j],
        decreases sends@.len(),
    {
        match sends.pop() {
            Some(s) => {
                rest.push(s);
            },
            None => {},
        }
    }
    proof {
        assert(all.take(0) =~= Seq::<SendView>::empty());
        assert(start + Seq::<EffectView>::empty() =~= start);
    }
    let ghost mut i: int = 0;
    while rest.len() > 0
        invariant
            0 <= i <= n,
            rest@.len() == n - i,
            given.len() == n,
            all == views(given),
            forall|j: int| 0 <= j < rest@.len() ==> #[trigger] rest@[j] == given[n - 1 - j],
            views(out@) == start + publications(all.take(i)),
        decreases rest@.len(),
    {
        let ghost last = rest@.len() - 1;
        match rest.pop() {
            Some(s) => {
                proof {
                    assert(s == given[n - 1 - last]);
                    assert(all.take(i + 1).drop_last() =~= all.take(i));
                    assert(all.take(i + 1).last() == s@);
                }
                emit(out, Effect::Publish(s));
                proof {
                    assert(views(out@) =~= start + publications(all.take(i + 1)));
                    i = i + 1;
                }
            },
            None => {},
        }
    }
    proof {
        assert(all.take(n as int) =~= all);
    }
}

/// Each send published, in order.
pub open spec fn publications(sends: Seq<SendView>) -> Seq<EffectView>
    decreases sends.len(),
{
    if sends.len() == 0 {
        Seq::empty()
    } else {
        publications(sends.drop_last()).push(EffectView::Publish(sends.last()))
    }
}

/// A phase, where there is one, is at least `minimum`.
pub open spec fn reached(phase: Option<Phase>, minimum: Phase) -> bool {
    phase is Some && phase->0.rank() >= minimum.rank()
}

/// Whether a phase, where there is one, is at least `minimum`.
pub fn has_reached(phase: Option<Phase>, minimum: Phase) -> (r: bool)
    ensures
        r == reached(phase, minimum),
{
    match phase {
        Some(p) => p.at_least(minimum),
        None => false,
    }
}

/// A report published page by page.
#[verifier::opaque]
pub open spec fn report_published<H: Fn(HashDomain, Vec<Vec<u8>>) -> Digest32>(
    hash: H,
    context: EffectContext,
    to: PeerId,
    report: ReportView,
) -> Seq<EffectView> {
    let per = page_size(MAX_PAGE_ENTRIES as int);
    Seq::new(
        page_count(report.entries.len() as int, per) as nat,
        |i: int|
            published(
                context,
                Seq::empty(),
                to,
                frame_of(MessageView::ReportPage(page_of(hash, report, per, i))),
            ),
    )
}

/// Publish a report page by page.
#[verifier::rlimit(40)]
pub fn publish_report<H: Fn(HashDomain, Vec<Vec<u8>>) -> Digest32>(
    hash: &H,
    context: EffectContext,
    to: PeerId,
    report: &RecoveryReport,
) -> (r: Vec<Effect>)
    requires
        is_hash(*hash),
    ensures
        views(r@) == report_published(*hash, context, to, report@),
{
    proof {
        reveal(report_published);
    }
    let mut pages = paginate(hash, report, MAX_PAGE_ENTRIES);
    let ghost given = pages@;
    let ghost n = given.len();
    let ghost goal = report_published(*hash, context, to, report@);
    let mut rest: Vec<ReportPage> = Vec::new();
    while pages.len() > 0
        invariant
            rest@.len() + pages@.len() == n,
            given.len() == n,
            pages@ == given.take(pages@.len() as int),
            forall|j: int| 0 <= j < rest@.len() ==> #[trigger] rest@[j] == given[n - 1 - j],
        decreases pages@.len(),
    {
        match pages.pop() {
            Some(page) => {
                rest.push(page);
            },
            None => {},
        }
    }
    let mut out = no_effects();
    let none: Vec<BarrierId> = Vec::new();
    let ghost mut i: int = 0;
    proof {
        assert(goal.len() == n);
        assert(none@ =~= Seq::<BarrierId>::empty());
        assert(goal.take(0) =~= Seq::<EffectView>::empty());
    }
    while rest.len() > 0
        invariant
            0 <= i <= n,
            rest@.len() == n - i,
            given.len() == n,
            goal.len() == n,
            goal == report_published(*hash, context, to, report@),
            none@ == Seq::<BarrierId>::empty(),
            forall|j: int|
                0 <= j < given.len() ==> (#[trigger] given[j])@ == page_of(
                    *hash,
                    report@,
                    page_size(MAX_PAGE_ENTRIES as int),
                    j,
                ),
            forall|j: int| 0 <= j < rest@.len() ==> #[trigger] rest@[j] == given[n - 1 - j],
            views(out@) == goal.take(i),
        decreases rest@.len(),
    {
        let ghost last = rest@.len() - 1;
        match rest.pop() {
            Some(page) => {
                proof {
                    assert(page == given[n - 1 - last]);
                    assert(page@ == page_of(
                        *hash,
                        report@,
                        page_size(MAX_PAGE_ENTRIES as int),
                        i,
                    ));
                }
                let message = ProtocolMessage::ReportPage(page);
                let frame = message.encode();
                publish(&mut out, context, &none, to, &frame);
                proof {
                    reveal(report_published);
                    assert(message@ == MessageView::ReportPage(page@));
                    assert(goal[i] == published(context, none@, to, frame@));
                    assert(goal.take(i + 1) =~= goal.take(i).push(goal[i]));
                    i = i + 1;
                }
            },
            None => {},
        }
    }
    proof {
        assert(goal.take(n as int) =~= goal);
    }
    out
}

/// Something that happened to a machine.
#[derive(Debug)]
pub enum Event {
    /// The replica booted.
    Boot {
        /// The boot.
        boot_id: BootId,
        /// Its first barrier.
        first_barrier: u64,
    },
    /// A verifier admitted a request; `None` where its frame held no single
    /// request.
    Admitted {
        /// The request.
        request: Option<Request>,
        /// What the verifier attested.
        admission: AdmissionFacts,
    },
    /// Storage reported a fact.
    Storage(StorageEvent),
    /// An authenticated peer sent a frame.
    Peer {
        /// The sender, at the incarnation the transport bound.
        from: PeerId,
        /// The frame.
        frame: Vec<u8>,
    },
    /// Anything a machine does not act on.
    Other,
}

/// What the front of a logical payload derives to.
#[derive(Clone, Copy, Debug, PartialEq, Eq, Structural)]
pub struct Derived {
    /// The identity of the request at the front.
    pub command: CommandId,
    /// Nothing follows the request.
    pub exact: bool,
}

/// `r` is what `derive` may give.
pub open spec fn derives_to<D: Fn(RetryKey, Vec<u8>) -> Option<Derived>>(
    derive: D,
    key: RetryKey,
    logical: Seq<u8>,
    r: Option<Derived>,
) -> bool {
    exists|l: Vec<u8>| #[trigger] l@ == logical && call_ensures(derive, (key, l), r)
}

/// `derive` can be called on anything, and equal inputs give equal
/// identities.
pub open spec fn is_identity<D: Fn(RetryKey, Vec<u8>) -> Option<Derived>>(derive: D) -> bool {
    &&& forall|key: RetryKey, l: Vec<u8>| #[trigger] call_requires(derive, (key, l))
    &&& forall|key: RetryKey, logical: Seq<u8>, a: Option<Derived>, b: Option<Derived>|
        #[trigger] derives_to(derive, key, logical, a) && #[trigger] derives_to(
            derive,
            key,
            logical,
            b,
        ) ==> a == b
}

/// What a logical payload derives to under its retry key.
pub closed spec fn derived_of<D: Fn(RetryKey, Vec<u8>) -> Option<Derived>>(
    derive: D,
    key: RetryKey,
    logical: Seq<u8>,
) -> Option<Derived> {
    choose|r: Option<Derived>| derives_to(derive, key, logical, r)
}

/// The identity of a canonical request, where the bytes are one and nothing
/// else.
pub open spec fn identity_of<D: Fn(RetryKey, Vec<u8>) -> Option<Derived>>(
    derive: D,
    key: RetryKey,
    logical: Seq<u8>,
) -> Option<CommandId> {
    match derived_of(derive, key, logical) {
        Some(d) => if d.exact {
            Some(d.command)
        } else {
            None
        },
        None => None,
    }
}

/// The identity of the canonical request at the front of the bytes, whatever
/// follows it.
pub open spec fn front_identity_of<D: Fn(RetryKey, Vec<u8>) -> Option<Derived>>(
    derive: D,
    key: RetryKey,
    logical: Seq<u8>,
) -> Option<CommandId> {
    match derived_of(derive, key, logical) {
        Some(d) => Some(d.command),
        None => None,
    }
}

/// What a call of `derive` gives back is what the payload derives to.
pub proof fn lemma_derived_of<D: Fn(RetryKey, Vec<u8>) -> Option<Derived>>(
    derive: D,
    key: RetryKey,
    logical: Vec<u8>,
    r: Option<Derived>,
)
    requires
        is_identity(derive),
        call_ensures(derive, (key, logical), r),
    ensures
        r == derived_of(derive, key, logical@),
{
    assert(derives_to(derive, key, logical@, r));
    assert(derives_to(derive, key, logical@, derived_of(derive, key, logical@)));
}

/// Derive from a logical payload.
pub fn derive_front<D: Fn(RetryKey, Vec<u8>) -> Option<Derived>>(
    derive: &D,
    key: RetryKey,
    logical: &Vec<u8>,
) -> (r: Option<Derived>)
    requires
        is_identity(*derive),
    ensures
        r == derived_of(*derive, key, logical@),
{
    let l = copy_bytes(logical);
    let ghost given = l;
    let r = derive(key, l);
    proof {
        lemma_derived_of(*derive, key, given, r);
    }
    r
}

/// Derive the identity of a canonical request.
pub fn derive_identity<D: Fn(RetryKey, Vec<u8>) -> Option<Derived>>(
    derive: &D,
    key: RetryKey,
    logical: &Vec<u8>,
) -> (r: Option<CommandId>)
    requires
        is_identity(*derive),
    ensures
        r == identity_of(*derive, key, logical@),
{
    match derive_front(derive, key, logical) {
        Some(d) => if d.exact {
            Some(d.command)
        } else {
            None
        },
        None => None,
    }
}

} // verus!
