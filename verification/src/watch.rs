//! Watches at the frontend: complete-revision batches of the watch hub
//! become messages for the client, fragmented so that each fits its frame.
//!
//! The hub itself belongs to the storage runtime; what it hands over arrives
//! here as plain values.

use vstd::prelude::*;

use crate::bytes::copy_bytes;
use crate::client::{FRAME_SLACK, WireLimits, usable, usable_bytes};
use crate::codec::{List, Opt, Wire, items_wire, varint};
use crate::delivery::word;
use crate::ids::KvRevision;
use crate::machine::lemma_views_push;
use crate::ordered::{Dup, dup_all, views};

verus! {

/// What happened to a key.
#[derive(Clone, Copy, Debug, PartialEq, Eq, Structural)]
pub enum KvEventKind {
    /// Written.
    Put,
    /// Removed.
    Delete,
}

/// A stored entry, as far as a watch shows it.
#[derive(Debug)]
pub struct KvEntry {
    /// Value.
    pub value: Vec<u8>,
    /// Revision that created the key.
    pub create_revision: KvRevision,
    /// Revision that last wrote it.
    pub mod_revision: KvRevision,
    /// Writes since its creation.
    pub version: u64,
}

/// What it says.
#[verifier::ext_equal]
pub struct KvEntryView {
    /// Value.
    pub value: Seq<u8>,
    /// Revision that created the key.
    pub create_revision: KvRevision,
    /// Revision that last wrote it.
    pub mod_revision: KvRevision,
    /// Writes since its creation.
    pub version: u64,
}

impl View for KvEntry {
    type V = KvEntryView;

    open spec fn view(&self) -> KvEntryView {
        KvEntryView {
            value: self.value@,
            create_revision: self.create_revision,
            mod_revision: self.mod_revision,
            version: self.version,
        }
    }
}

impl Dup for KvEntry {
    fn dup(&self) -> (r: Self) {
        KvEntry {
            value: copy_bytes(self.value.as_slice()),
            create_revision: self.create_revision,
            mod_revision: self.mod_revision,
            version: self.version,
        }
    }
}

/// What an optional entry is.
pub open spec fn entry_view(e: Option<KvEntry>) -> Option<KvEntryView> {
    match e {
        Some(x) => Some(x@),
        None => None,
    }
}

/// One change of a revision.
#[derive(Debug)]
pub struct KvEvent {
    /// What happened.
    pub kind: KvEventKind,
    /// Key.
    pub key: Vec<u8>,
    /// The entry after the change, where there is one.
    pub entry: Option<KvEntry>,
    /// The entry before the change, where the watch asked for it.
    pub prev: Option<KvEntry>,
}

/// What a change says.
#[verifier::ext_equal]
pub struct KvEventView {
    /// What happened.
    pub kind: KvEventKind,
    /// Key.
    pub key: Seq<u8>,
    /// The entry after the change.
    pub entry: Option<KvEntryView>,
    /// The entry before the change.
    pub prev: Option<KvEntryView>,
}

impl View for KvEvent {
    type V = KvEventView;

    open spec fn view(&self) -> KvEventView {
        KvEventView {
            kind: self.kind,
            key: self.key@,
            entry: entry_view(self.entry),
            prev: entry_view(self.prev),
        }
    }
}

/// Every change of one revision that a watch selects.
#[derive(Debug)]
pub struct WatchBatch {
    /// Revision.
    pub revision: KvRevision,
    /// Its changes.
    pub events: Vec<KvEvent>,
}

/// What a batch says.
#[verifier::ext_equal]
pub struct BatchView {
    /// Revision.
    pub revision: KvRevision,
    /// Its changes.
    pub events: Seq<KvEventView>,
}

impl View for WatchBatch {
    type V = BatchView;

    open spec fn view(&self) -> BatchView {
        BatchView { revision: self.revision, events: views(self.events@) }
    }
}

/// What happened to a key, on the wire.
#[derive(Clone, Copy, Debug, PartialEq, Eq, Structural)]
pub enum EventKindV1 {
    /// Written.
    Put,
    /// Removed.
    Delete,
}

impl View for EventKindV1 {
    type V = EventKindV1;

    open spec fn view(&self) -> EventKindV1 {
        *self
    }
}

/// What an optional value is.
pub open spec fn value_view(v: Option<Vec<u8>>) -> Option<Seq<u8>> {
    match v {
        Some(x) => Some(x@),
        None => None,
    }
}

/// One change of a revision, on the wire.
#[derive(Debug)]
pub struct EventV1 {
    /// What happened.
    pub kind: EventKindV1,
    /// Key.
    pub key: Vec<u8>,
    /// Value after the change; empty for a removal.
    pub value: Vec<u8>,
    /// Revision that created the key.
    pub create_revision: KvRevision,
    /// Revision of the change.
    pub mod_revision: KvRevision,
    /// Writes since the key's creation; zero for a removal.
    pub version: u64,
    /// Value before the change, where the watch asked for it.
    pub prev_value: Option<Vec<u8>>,
}

/// What a change says, on the wire.
#[verifier::ext_equal]
pub struct EventBody {
    /// What happened.
    pub kind: EventKindV1,
    /// Key.
    pub key: Seq<u8>,
    /// Value after the change.
    pub value: Seq<u8>,
    /// Revision that created the key.
    pub create_revision: KvRevision,
    /// Revision of the change.
    pub mod_revision: KvRevision,
    /// Writes since the key's creation.
    pub version: u64,
    /// Value before the change.
    pub prev_value: Option<Seq<u8>>,
}

impl View for EventV1 {
    type V = EventBody;

    open spec fn view(&self) -> EventBody {
        EventBody {
            kind: self.kind,
            key: self.key@,
            value: self.value@,
            create_revision: self.create_revision,
            mod_revision: self.mod_revision,
            version: self.version,
            prev_value: value_view(self.prev_value),
        }
    }
}

impl Dup for EventV1 {
    fn dup(&self) -> (r: Self) {
        EventV1 {
            kind: self.kind,
            key: copy_bytes(self.key.as_slice()),
            value: copy_bytes(self.value.as_slice()),
            create_revision: self.create_revision,
            mod_revision: self.mod_revision,
            version: self.version,
            prev_value: match &self.prev_value {
                Some(v) => Some(copy_bytes(v.as_slice())),
                None => None,
            },
        }
    }
}

/// A fragment of one revision's changes.
#[derive(Debug)]
pub struct WatchEventsV1 {
    /// Client watch identifier.
    pub watch_id: u64,
    /// Revision.
    pub revision: KvRevision,
    /// Changes.
    pub events: Vec<EventV1>,
    /// Whether this is the last fragment of the revision.
    pub complete: bool,
}

/// What a fragment says.
#[verifier::ext_equal]
pub struct EventsBody {
    /// Client watch identifier.
    pub watch_id: u64,
    /// Revision.
    pub revision: KvRevision,
    /// Changes.
    pub events: Seq<EventBody>,
    /// Whether this is the last fragment of the revision.
    pub complete: bool,
}

impl View for WatchEventsV1 {
    type V = EventsBody;

    open spec fn view(&self) -> EventsBody {
        EventsBody {
            watch_id: self.watch_id,
            revision: self.revision,
            events: views(self.events@),
            complete: self.complete,
        }
    }
}

/// The number an event kind travels as.
pub open spec fn event_kind_number(v: EventKindV1) -> u32 {
    match v {
        EventKindV1::Put => 0,
        EventKindV1::Delete => 1,
    }
}

/// The event kind that a number stands for.
pub open spec fn event_kind_of(n: u32) -> Option<EventKindV1> {
    match n {
        0 => Some(EventKindV1::Put),
        1 => Some(EventKindV1::Delete),
        _ => None,
    }
}

impl Wire for EventKindV1 {
    open spec fn fits(v: EventKindV1) -> bool {
        true
    }

    open spec fn wire(v: EventKindV1) -> Seq<u8> {
        u32::wire(event_kind_number(v))
    }

    open spec fn parse(s: Seq<u8>) -> Option<(EventKindV1, int)> {
        match u32::parse(s) {
            Some((n, used)) => match event_kind_of(n) {
                Some(v) => Some((v, used)),
                None => None,
            },
            None => None,
        }
    }

    proof fn round_trip(v: EventKindV1, rest: Seq<u8>) {
        u32::round_trip(event_kind_number(v), rest);
    }

    proof fn within(s: Seq<u8>) {
        u32::within(s);
    }

    fn put(&self, out: &mut Vec<u8>) {
        let n: u32 = match self {
            EventKindV1::Put => 0,
            EventKindV1::Delete => 1,
        };
        n.put(out);
    }

    fn take(bytes: &Vec<u8>, at: usize) -> (r: Option<(Self, usize)>) {
        match u32::take(bytes, at) {
            Some((n, next)) => {
                let v = match n {
                    0 => EventKindV1::Put,
                    1 => EventKindV1::Delete,
                    _ => {
                        return None;
                    },
                };
                Some((v, next))
            },
            None => None,
        }
    }
}

/// Field by field, the layout of a change.
pub type EventV1Layout = (EventKindV1, (Vec<u8>, (Vec<u8>, (KvRevision, (KvRevision, (u64, Opt<Vec<u8>>))))));

impl Wire for EventV1 {
    open spec fn fits(v: EventBody) -> bool {
        EventV1Layout::fits((v.kind, (v.key, (v.value, (v.create_revision, (v.mod_revision, (v.version, v.prev_value)))))))
    }

    open spec fn wire(v: EventBody) -> Seq<u8> {
        EventV1Layout::wire((v.kind, (v.key, (v.value, (v.create_revision, (v.mod_revision, (v.version, v.prev_value)))))))
    }

    open spec fn parse(s: Seq<u8>) -> Option<(EventBody, int)> {
        match EventV1Layout::parse(s) {
            Some(((kind, (key, (value, (create_revision, (mod_revision, (version, prev_value)))))), n)) => Some((EventBody { kind, key, value, create_revision, mod_revision, version, prev_value }, n)),
            None => None,
        }
    }

    proof fn round_trip(v: EventBody, rest: Seq<u8>) {
        EventV1Layout::round_trip((v.kind, (v.key, (v.value, (v.create_revision, (v.mod_revision, (v.version, v.prev_value)))))), rest);
    }

    proof fn within(s: Seq<u8>) {
        EventV1Layout::within(s);
    }

    fn put(&self, out: &mut Vec<u8>) {
        let fields: EventV1Layout = (self.kind, (self.key.dup(), (self.value.dup(), (self.create_revision, (self.mod_revision, (self.version, Opt(match &self.prev_value { Some(x) => Some(x.dup()), None => None })))))));
        fields.put(out);
    }

    fn take(bytes: &Vec<u8>, at: usize) -> (r: Option<(Self, usize)>) {
        match EventV1Layout::take(bytes, at) {
            Some(((kind, (key, (value, (create_revision, (mod_revision, (version, prev_value)))))), next)) => {
                let r = EventV1 { kind, key, value, create_revision, mod_revision, version, prev_value: prev_value.0 };
                Some((r, next))
            },
            None => None,
        }
    }
}

/// Field by field, the layout of a fragment.
pub type WatchEventsV1Layout = (u64, (KvRevision, (List<EventV1>, bool)));

impl Wire for WatchEventsV1 {
    open spec fn fits(v: EventsBody) -> bool {
        WatchEventsV1Layout::fits((v.watch_id, (v.revision, (v.events, v.complete))))
    }

    open spec fn wire(v: EventsBody) -> Seq<u8> {
        WatchEventsV1Layout::wire((v.watch_id, (v.revision, (v.events, v.complete))))
    }

    open spec fn parse(s: Seq<u8>) -> Option<(EventsBody, int)> {
        match WatchEventsV1Layout::parse(s) {
            Some(((watch_id, (revision, (events, complete))), n)) => Some((EventsBody { watch_id, revision, events, complete }, n)),
            None => None,
        }
    }

    proof fn round_trip(v: EventsBody, rest: Seq<u8>) {
        WatchEventsV1Layout::round_trip((v.watch_id, (v.revision, (v.events, v.complete))), rest);
    }

    proof fn within(s: Seq<u8>) {
        WatchEventsV1Layout::within(s);
    }

    fn put(&self, out: &mut Vec<u8>) {
        let fields: WatchEventsV1Layout = (self.watch_id, (self.revision, (List(dup_all(&self.events)), self.complete)));
        fields.put(out);
    }

    fn take(bytes: &Vec<u8>, at: usize) -> (r: Option<(Self, usize)>) {
        match WatchEventsV1Layout::take(bytes, at) {
            Some(((watch_id, (revision, (events, complete))), next)) => {
                let r = WatchEventsV1 { watch_id, revision, events: events.0, complete };
                Some((r, next))
            },
            None => None,
        }
    }
}

/// Why the hub ended a watch.
#[derive(Clone, Copy, Debug, PartialEq, Eq, Structural)]
pub enum CloseReason {
    /// The subscription was cancelled.
    Cancelled,
    /// The revisions it asked for were compacted away.
    Compacted,
    /// Its queue overflowed.
    SlowConsumer,
    /// Its output is no longer authorized.
    Unauthorized,
    /// The hub itself closed.
    HubClosed,
}

/// Why a watch ended, on the wire.
#[derive(Clone, Copy, Debug, PartialEq, Eq, Structural)]
pub enum WatchCloseReasonV1 {
    /// The subscription was cancelled.
    Cancelled,
    /// The revisions it asked for were compacted away.
    Compacted,
    /// Its queue overflowed.
    SlowConsumer,
    /// Its output is no longer authorized.
    Unauthorized,
    /// What it read from is gone.
    SourceLost,
}

/// What the client is told of a reason.
pub open spec fn reason_told(reason: CloseReason) -> WatchCloseReasonV1 {
    match reason {
        CloseReason::Cancelled => WatchCloseReasonV1::Cancelled,
        CloseReason::Compacted => WatchCloseReasonV1::Compacted,
        CloseReason::SlowConsumer => WatchCloseReasonV1::SlowConsumer,
        CloseReason::Unauthorized => WatchCloseReasonV1::Unauthorized,
        CloseReason::HubClosed => WatchCloseReasonV1::SourceLost,
    }
}

/// What the client is told of a reason.
pub fn close_reason(reason: CloseReason) -> (r: WatchCloseReasonV1)
    ensures
        r == reason_told(reason),
{
    match reason {
        CloseReason::Cancelled => WatchCloseReasonV1::Cancelled,
        CloseReason::Compacted => WatchCloseReasonV1::Compacted,
        CloseReason::SlowConsumer => WatchCloseReasonV1::SlowConsumer,
        CloseReason::Unauthorized => WatchCloseReasonV1::Unauthorized,
        CloseReason::HubClosed => WatchCloseReasonV1::SourceLost,
    }
}

/// The end of a watch.
#[derive(Clone, Copy, Debug, PartialEq, Eq, Structural)]
pub struct WatchCloseV1 {
    /// Client watch identifier.
    pub watch_id: u64,
    /// Why it ended.
    pub reason: WatchCloseReasonV1,
    /// The last revision delivered whole, where there is one.
    pub last_complete_revision: Option<KvRevision>,
}

/// A revision up to which the client has seen everything.
#[derive(Clone, Copy, Debug, PartialEq, Eq, Structural)]
pub struct WatchProgressV1 {
    /// Client watch identifier.
    pub watch_id: u64,
    /// Revision.
    pub revision: KvRevision,
}

/// What the hub hands over for a watch.
#[allow(inconsistent_fields)]
#[derive(Debug)]
pub enum WatchItem {
    /// Every change of one revision.
    Batch(WatchBatch),
    /// Progress without a change.
    Progress(KvRevision),
    /// The end.
    Closed {
        /// Why.
        reason: CloseReason,
        /// The last revision delivered whole; zero where there is none.
        last_complete_revision: KvRevision,
    },
}

/// What the hub hands over for a watch.
#[verifier::ext_equal]
pub enum ItemView {
    /// Every change of one revision.
    Batch(BatchView),
    /// Progress without a change.
    Progress(KvRevision),
    /// The end.
    Closed {
        /// Why.
        reason: CloseReason,
        /// The last revision delivered whole; zero where there is none.
        last_complete_revision: KvRevision,
    },
}

impl View for WatchItem {
    type V = ItemView;

    open spec fn view(&self) -> ItemView {
        match self {
            WatchItem::Batch(b) => ItemView::Batch(b@),
            WatchItem::Progress(r) => ItemView::Progress(*r),
            WatchItem::Closed { reason, last_complete_revision } => ItemView::Closed {
                reason: *reason,
                last_complete_revision: *last_complete_revision,
            },
        }
    }
}

/// The value after a change.
pub open spec fn value_after(event: KvEventView) -> Seq<u8> {
    match event.entry {
        Some(e) => e.value,
        None => Seq::empty(),
    }
}

/// A change as the client is told it. A removal has no new entry: its
/// metadata is the removed one's, which the change still carries.
pub open spec fn event_of(event: KvEventView, revision: KvRevision) -> EventBody {
    EventBody {
        kind: match event.kind {
            KvEventKind::Put => EventKindV1::Put,
            KvEventKind::Delete => EventKindV1::Delete,
        },
        key: event.key,
        value: value_after(event),
        create_revision: match (event.entry, event.prev) {
            (Some(e), _) => e.create_revision,
            (None, Some(p)) => p.create_revision,
            (None, None) => KvRevision(0),
        },
        mod_revision: match event.entry {
            Some(e) => e.mod_revision,
            None => revision,
        },
        version: match event.entry {
            Some(e) => e.version,
            None => 0,
        },
        prev_value: match event.prev {
            Some(p) => Some(p.value),
            None => None,
        },
    }
}

/// A change as the client is told it.
pub fn event_v1(event: &KvEvent, revision: KvRevision) -> (r: EventV1)
    ensures
        r@ == event_of(event@, revision),
{
    let kind = match event.kind {
        KvEventKind::Put => EventKindV1::Put,
        KvEventKind::Delete => EventKindV1::Delete,
    };
    let (value, mod_revision, version): (Vec<u8>, KvRevision, u64) = match &event.entry {
        Some(e) => (copy_bytes(e.value.as_slice()), e.mod_revision, e.version),
        None => (Vec::new(), revision, 0),
    };
    let create_revision = match (&event.entry, &event.prev) {
        (Some(e), _) => e.create_revision,
        (None, Some(p)) => p.create_revision,
        (None, None) => KvRevision(0),
    };
    let prev_value = match &event.prev {
        Some(p) => Some(copy_bytes(p.value.as_slice())),
        None => None,
    };
    let r = EventV1 {
        kind,
        key: copy_bytes(event.key.as_slice()),
        value,
        create_revision,
        mod_revision,
        version,
        prev_value,
    };
    proof {
        assert(r@ =~= event_of(event@, revision));
    }
    r
}

/// Room around the bytes of a change: length prefixes, revisions, version.
pub const EVENT_OVERHEAD: usize = 64;

/// The bytes an optional entry's value takes.
pub open spec fn value_len(e: Option<KvEntryView>) -> int {
    match e {
        Some(x) => x.value.len() as int,
        None => 0,
    }
}

/// What one change costs in an encoded frame: its bytes plus room for what
/// stands around them. Deliberately an over-estimate.
pub open spec fn cost_of(event: KvEventView) -> int {
    event.key.len() + value_len(event.entry) + value_len(event.prev) + EVENT_OVERHEAD
}

/// What the changes of a fragment cost.
pub open spec fn costs_of(events: Seq<KvEventView>) -> int
    decreases events.len(),
{
    if events.len() == 0 {
        0
    } else {
        costs_of(events.drop_last()) + cost_of(events.last())
    }
}

fn entry_len(e: &Option<KvEntry>) -> (r: usize)
    ensures
        r == value_len(entry_view(*e)),
{
    match e {
        Some(x) => x.value.len(),
        None => 0,
    }
}

fn plus(a: usize, b: usize) -> (r: usize)
    ensures
        r == word(a + b),
{
    match a.checked_add(b) {
        Some(n) => n,
        None => usize::MAX,
    }
}

/// What one change costs in an encoded frame.
pub fn event_cost(event: &KvEvent) -> (r: usize)
    ensures
        r == word(cost_of(event@)),
{
    plus(
        plus(plus(event.key.len(), entry_len(&event.entry)), entry_len(&event.prev)),
        EVENT_OVERHEAD,
    )
}

/// A fragment with room for no more than a frame carries is full for a
/// change.
pub open spec fn full_for(limits: WireLimits, current: Seq<KvEventView>, event: KvEventView) -> bool {
    current.len() > 0 && (current.len() == limits.events || costs_of(current) + cost_of(event)
        > usable(limits.watch_frame))
}

/// The fragments of a revision, by event count and encoded size. A revision
/// with no changes still has one fragment.
pub open spec fn fragments(limits: WireLimits, events: Seq<KvEventView>) -> Seq<Seq<KvEventView>>
    decreases events.len(),
{
    if events.len() == 0 {
        seq![Seq::<KvEventView>::empty()]
    } else {
        let before = fragments(limits, events.drop_last());
        let current = before.last();
        if full_for(limits, current, events.last()) {
            before.push(seq![events.last()])
        } else {
            before.update(before.len() - 1, current.push(events.last()))
        }
    }
}

/// Even a single change of the batch does not fit.
pub open spec fn unframable(limits: WireLimits, events: Seq<KvEventView>) -> bool {
    exists|i: int|
        0 <= i < events.len() && cost_of(#[trigger] events[i]) > usable(limits.watch_frame)
}

/// The changes of a fragment as the client is told them.
pub open spec fn told(events: Seq<KvEventView>, revision: KvRevision) -> Seq<EventBody> {
    events.map_values(|e: KvEventView| event_of(e, revision))
}

/// The messages of a revision: its fragments in order, the last marked
/// complete.
pub open spec fn messages_of(limits: WireLimits, watch_id: u64, batch: BatchView) -> Seq<EventsBody> {
    let parts = fragments(limits, batch.events);
    Seq::new(
        parts.len(),
        |i: int|
            EventsBody {
                watch_id,
                revision: batch.revision,
                events: told(parts[i], batch.revision),
                complete: i == parts.len() - 1,
            },
    )
}

/// Fragments put together again.
pub open spec fn joined<T>(parts: Seq<Seq<T>>) -> Seq<T>
    decreases parts.len(),
{
    if parts.len() == 0 {
        Seq::empty()
    } else {
        joined(parts.drop_last()) + parts.last()
    }
}

proof fn lemma_single_cost(event: KvEventView)
    ensures
        costs_of(seq![event]) == cost_of(event),
{
    reveal_with_fuel(costs_of, 2);
    assert(seq![event].drop_last() =~= Seq::<KvEventView>::empty());
}

#[verifier::rlimit(40)]
proof fn lemma_fragments(limits: WireLimits, events: Seq<KvEventView>)
    requires
        limits.events > 0,
        !unframable(limits, events),
    ensures
        ({
            let parts = fragments(limits, events);
            &&& parts.len() > 0
            &&& joined(parts) == events
            &&& forall|i: int|
                0 <= i < parts.len() ==> (#[trigger] parts[i]).len() <= limits.events && costs_of(
                    parts[i],
                ) <= usable(limits.watch_frame)
            &&& parts.len() > 1 ==> forall|i: int|
                0 <= i < parts.len() ==> (#[trigger] parts[i]).len() > 0
            &&& forall|i: int|
                0 <= i < parts.len() - 1 ==> full_for(
                    limits,
                    #[trigger] parts[i],
                    parts[i + 1][0],
                )
        }),
    decreases events.len(),
{
    let parts = fragments(limits, events);
    if events.len() == 0 {
        assert(parts.drop_last() =~= Seq::<Seq<KvEventView>>::empty());
        assert(joined(parts.drop_last()) =~= Seq::<KvEventView>::empty());
        assert(joined(parts) =~= events);
    } else {
        let rest = events.drop_last();
        assert forall|i: int| 0 <= i < rest.len() implies cost_of(#[trigger] rest[i]) <= usable(
            limits.watch_frame,
        ) by {
            assert(rest[i] == events[i]);
        }
        lemma_fragments(limits, rest);
        let before = fragments(limits, rest);
        let current = before.last();
        let event = events.last();
        assert(cost_of(events[events.len() - 1]) <= usable(limits.watch_frame));
        assert(joined(before) == joined(before.drop_last()) + current);
        if full_for(limits, current, event) {
            assert(parts.drop_last() =~= before);
            lemma_single_cost(event);
            assert(joined(parts) =~= events);
            assert forall|i: int| 0 <= i < parts.len() implies (#[trigger] parts[i]).len()
                <= limits.events && costs_of(parts[i]) <= usable(limits.watch_frame)
                && parts[i].len() > 0 by {
                if i < before.len() {
                    assert(parts[i] == before[i]);
                }
            }
            assert forall|i: int| 0 <= i < parts.len() - 1 implies full_for(
                limits,
                #[trigger] parts[i],
                parts[i + 1][0],
            ) by {
                assert(parts[i] == before[i]);
                if i < before.len() - 1 {
                    assert(parts[i + 1] == before[i + 1]);
                }
            }
        } else {
            let grown = current.push(event);
            assert(parts.drop_last() =~= before.drop_last());
            assert(grown.drop_last() =~= current);
            assert(before[before.len() - 1] == current);
            assert(parts.last() == grown);
            assert(joined(parts) == joined(before.drop_last()) + grown);
            assert(joined(parts) =~= rest.push(event));
            assert(joined(parts) =~= events);
            if current.len() == 0 {
                assert(costs_of(current) == 0);
            }
            assert forall|i: int| 0 <= i < parts.len() implies (#[trigger] parts[i]).len()
                <= limits.events && costs_of(parts[i]) <= usable(limits.watch_frame) && (
            parts.len() > 1 ==> parts[i].len() > 0) by {
                if i < before.len() - 1 {
                    assert(parts[i] == before[i]);
                }
            }
            assert forall|i: int| 0 <= i < parts.len() - 1 implies full_for(
                limits,
                #[trigger] parts[i],
                parts[i + 1][0],
            ) by {
                assert(parts[i] == before[i]);
                if i + 1 < before.len() - 1 {
                    assert(parts[i + 1] == before[i + 1]);
                } else {
                    assert(before[i + 1] == current);
                    assert(grown[0] == current[0]);
                }
            }
        }
    }
}

/// A revision is delivered whole and in order: its fragments hold exactly
/// its changes, only the last is marked complete, each is within the event
/// bound and the byte budget, and none was cut before it was full.
pub proof fn lemma_revisions_are_delivered_whole(limits: WireLimits, watch_id: u64, batch: BatchView)
    requires
        limits.events > 0,
        !unframable(limits, batch.events),
    ensures
        ({
            let parts = fragments(limits, batch.events);
            let sent = messages_of(limits, watch_id, batch);
            &&& sent.len() == parts.len() > 0
            &&& joined(parts) == batch.events
            &&& forall|i: int|
                0 <= i < sent.len() ==> {
                    &&& (#[trigger] sent[i]).complete <==> i == sent.len() - 1
                    &&& sent[i].events == told(parts[i], batch.revision)
                    &&& sent[i].events.len() <= limits.events
                    &&& costs_of(parts[i]) <= usable(limits.watch_frame)
                }
            &&& forall|i: int|
                0 <= i < parts.len() - 1 ==> full_for(
                    limits,
                    #[trigger] parts[i],
                    parts[i + 1][0],
                )
        }),
{
    lemma_fragments(limits, batch.events);
}

spec fn power(k: nat) -> int
    decreases k,
{
    if k == 0 {
        1
    } else {
        128 * power((k - 1) as nat)
    }
}

proof fn lemma_varint_len(value: int, k: nat)
    requires
        0 <= value < power(k),
        k >= 1,
    ensures
        1 <= varint(value).len() <= k,
    decreases k,
{
    if value >= 128 {
        if k == 1 {
            assert(power(1) == 128) by {
                reveal_with_fuel(power, 2);
            }
        } else {
            lemma_varint_len(value / 128, (k - 1) as nat);
        }
    }
}

proof fn lemma_word_len(value: u64)
    ensures
        1 <= varint(value as int).len() <= 10,
{
    assert(power(10) > u64::MAX) by {
        reveal_with_fuel(power, 11);
    }
    lemma_varint_len(value as int, 10);
}

proof fn lemma_event_len(event: EventBody)
    requires
        EventV1::fits(event),
    ensures
        EventV1::wire(event).len() <= event.key.len() + event.value.len() + (
        match event.prev_value {
            Some(v) => v.len() as int,
            None => 0,
        }) + EVENT_OVERHEAD,
{
    lemma_word_len(event_kind_number(event.kind) as u64);
    assert(varint(event_kind_number(event.kind) as int).len() == 1);
    lemma_word_len(event.key.len() as u64);
    lemma_word_len(event.value.len() as u64);
    lemma_word_len(event.create_revision.0);
    lemma_word_len(event.mod_revision.0);
    lemma_word_len(event.version);
    match event.prev_value {
        Some(v) => {
            lemma_word_len(v.len() as u64);
        },
        None => {},
    }
}

proof fn lemma_events_len(events: Seq<KvEventView>, revision: KvRevision)
    requires
        forall|i: int|
            0 <= i < events.len() ==> EventV1::fits(event_of(#[trigger] events[i], revision)),
    ensures
        items_wire::<EventV1>(told(events, revision)).len() <= costs_of(events),
    decreases events.len(),
{
    let sent = told(events, revision);
    if events.len() > 0 {
        let rest = events.drop_first();
        assert forall|i: int| 0 <= i < rest.len() implies EventV1::fits(
            event_of(#[trigger] rest[i], revision),
        ) by {
            assert(rest[i] == events[i + 1]);
        }
        lemma_events_len(rest, revision);
        assert(told(rest, revision) =~= sent.drop_first());
        lemma_event_len(event_of(events[0], revision));
        lemma_costs_first(events);
    }
}

proof fn lemma_costs_first(events: Seq<KvEventView>)
    requires
        events.len() > 0,
    ensures
        costs_of(events) == cost_of(events[0]) + costs_of(events.drop_first()),
    decreases events.len(),
{
    if events.len() > 1 {
        lemma_costs_first(events.drop_last());
        assert(events.drop_first().drop_last() =~= events.drop_last().drop_first());
    } else {
        assert(events.drop_first() =~= events.drop_last());
        assert(events.drop_last() =~= Seq::<KvEventView>::empty());
    }
}

/// A fragment built to its budget always encodes: its layout takes no more
/// than what its changes cost and the message's own fields, so with the
/// header it stays within the class limit.
pub proof fn lemma_fragments_encode(
    limits: WireLimits,
    watch_id: u64,
    revision: KvRevision,
    part: Seq<KvEventView>,
    complete: bool,
)
    requires
        costs_of(part) <= usable(limits.watch_frame),
        WatchEventsV1::fits(
            EventsBody { watch_id, revision, events: told(part, revision), complete },
        ),
        limits.header + 64 <= FRAME_SLACK < limits.watch_frame,
    ensures
        WatchEventsV1::wire(
            EventsBody { watch_id, revision, events: told(part, revision), complete },
        ).len() + limits.header <= limits.watch_frame,
{
    let sent = told(part, revision);
    assert forall|i: int| 0 <= i < part.len() implies EventV1::fits(
        event_of(#[trigger] part[i], revision),
    ) by {
        assert(sent[i] == event_of(part[i], revision));
    }
    lemma_events_len(part, revision);
    lemma_word_len(watch_id);
    lemma_word_len(revision.0);
    lemma_word_len(sent.len() as u64);
}

/// What framing a batch gave.
pub open spec fn frames_result(r: Option<Vec<WatchEventsV1>>) -> Option<Seq<EventsBody>> {
    match r {
        Some(v) => Some(views(v@)),
        None => None,
    }
}

/// The messages of one complete revision, fragmented by both event count and
/// encoded size; none where even a single change does not fit, which the
/// caller answers by closing the watch.
pub open spec fn framed_batch(limits: WireLimits, watch_id: u64, batch: BatchView) -> Option<
    Seq<EventsBody>,
> {
    if unframable(limits, batch.events) {
        None
    } else {
        Some(messages_of(limits, watch_id, batch))
    }
}

/// The messages of one complete revision, fragmented by both event count and
/// encoded size; none where even a single change does not fit.
#[verifier::rlimit(40)]
pub fn watch_frames(limits: &WireLimits, watch_id: u64, batch: &WatchBatch) -> (r: Option<
    Vec<WatchEventsV1>,
>)
    ensures
        frames_result(r) == framed_batch(*limits, watch_id, batch@),
{
    let room: usize = usable_bytes(limits.watch_frame);
    let ghost events = views(batch.events@);
    let ghost revision = batch.revision;
    let mut out: Vec<WatchEventsV1> = Vec::new();
    let mut current: Vec<EventV1> = Vec::new();
    let mut bytes: usize = 0;
    let mut i: usize = 0;
    proof {
        assert(events.take(0) =~= Seq::<KvEventView>::empty());
        assert(views(current@) =~= told(Seq::empty(), revision));
        assert(views(out@) =~= cut(fragments(*limits, events.take(0)), watch_id, revision));
    }
    while i < batch.events.len()
        invariant
            i <= batch.events@.len(),
            events == views(batch.events@),
            revision == batch.revision,
            room == usable(limits.watch_frame),
            bytes <= room,
            fragments(*limits, events.take(i as int)).len() > 0,
            views(out@) == cut(fragments(*limits, events.take(i as int)), watch_id, revision),
            views(current@) == told(fragments(*limits, events.take(i as int)).last(), revision),
            bytes == costs_of(fragments(*limits, events.take(i as int)).last()),
            forall|j: int| 0 <= j < i ==> cost_of(#[trigger] events[j]) <= room,
        decreases batch.events@.len() - i,
    {
        let event = &batch.events[i];
        let cost: usize = event_cost(event);
        let ghost parts = fragments(*limits, events.take(i as int));
        let ghost more = events.take(i + 1);
        proof {
            assert(more.drop_last() =~= events.take(i as int));
            assert(more.last() == events[i as int]);
            assert(events[i as int] == event@);
            assert(cost > room <==> cost_of(event@) > room);
        }
        if cost > room {
            proof {
                assert(unframable(*limits, events));
            }
            return None;
        }
        let told_event = event_v1(event, batch.revision);
        let full = current.len() > 0 && (current.len() == limits.events || bytes > room - cost);
        proof {
            assert(views(current@).len() == current@.len());
            assert(full == full_for(*limits, parts.last(), event@));
        }
        if full {
            let ghost before = out@;
            let mut finished: Vec<EventV1> = Vec::new();
            std::mem::swap(&mut finished, &mut current);
            let message = WatchEventsV1 {
                watch_id,
                revision: batch.revision,
                events: finished,
                complete: false,
            };
            proof {
                lemma_views_push(before, message);
                assert(message@ =~= (EventsBody {
                    watch_id,
                    revision,
                    events: told(parts.last(), revision),
                    complete: false,
                }));
                assert(cut(parts.push(seq![event@]), watch_id, revision) =~= cut(
                    parts,
                    watch_id,
                    revision,
                ).push(message@));
            }
            out.push(message);
            bytes = 0;
        }
        let ghost holding = current@;
        current.push(told_event);
        bytes = bytes + cost;
        i = i + 1;
        proof {
            lemma_views_push(holding, told_event);
            let next = fragments(*limits, more);
            if full {
                assert(next == parts.push(seq![event@]));
                assert(views(current@) =~= told(seq![event@], revision));
                lemma_single_cost(event@);
            } else {
                let grown = parts.last().push(event@);
                assert(next == parts.update(parts.len() - 1, grown));
                assert(grown.drop_last() =~= parts.last());
                assert(views(current@) =~= told(grown, revision));
                assert(cut(next, watch_id, revision) =~= cut(parts, watch_id, revision));
            }
        }
    }
    proof {
        assert(events.take(events.len() as int) =~= events);
        assert(!unframable(*limits, events));
    }
    let ghost before = out@;
    let ghost parts = fragments(*limits, events);
    let message = WatchEventsV1 { watch_id, revision: batch.revision, events: current, complete: true };
    proof {
        lemma_views_push(before, message);
        assert(message@ =~= (EventsBody {
            watch_id,
            revision,
            events: told(parts.last(), revision),
            complete: true,
        }));
        assert(cut(parts, watch_id, revision).push(message@) =~= messages_of(
            *limits,
            watch_id,
            batch@,
        ));
    }
    out.push(message);
    Some(out)
}

/// The fragments before the one being filled.
spec fn cut(parts: Seq<Seq<KvEventView>>, watch_id: u64, revision: KvRevision) -> Seq<EventsBody> {
    Seq::new(
        (parts.len() - 1) as nat,
        |i: int|
            EventsBody {
                watch_id,
                revision,
                events: told(parts[i], revision),
                complete: false,
            },
    )
}

/// What the client hears of a revision, fragment after fragment.
pub open spec fn heard(sent: Seq<EventsBody>) -> Seq<EventBody> {
    joined(Seq::new(sent.len(), |i: int| sent[i].events))
}

proof fn lemma_joined_told(parts: Seq<Seq<KvEventView>>, revision: KvRevision)
    ensures
        joined(Seq::new(parts.len(), |i: int| told(parts[i], revision))) == told(
            joined(parts),
            revision,
        ),
    decreases parts.len(),
{
    let bodies = Seq::new(parts.len(), |i: int| told(parts[i], revision));
    if parts.len() > 0 {
        let rest = parts.drop_last();
        lemma_joined_told(rest, revision);
        assert(bodies.drop_last() =~= Seq::new(rest.len(), |i: int| told(rest[i], revision)));
        assert(told(joined(rest) + parts.last(), revision) =~= told(joined(rest), revision) + told(
            parts.last(),
            revision,
        ));
    } else {
        assert(told(joined(parts), revision) =~= Seq::<EventBody>::empty());
    }
}

/// Changes arrive as they happened. A revision is framed unless one of its
/// changes is too large for a frame by itself; the client then hears every
/// change once and in order, with its kind and key. A change with a new entry
/// has that entry's value byte for byte, with its create revision, mod revision
/// and version. A change without one has an empty value, the revision it
/// happened at and version zero, and the create revision of the entry it
/// removed. The earlier value is there exactly where the change carries the
/// earlier entry.
pub proof fn lemma_changes_arrive_as_they_happened(
    limits: WireLimits,
    watch_id: u64,
    batch: BatchView,
    j: int,
)
    requires
        limits.events > 0,
    ensures
        framed_batch(limits, watch_id, batch) is None <==> exists|i: int|
            0 <= i < batch.events.len() && (#[trigger] batch.events[i]).key.len() + value_len(
                batch.events[i].entry,
            ) + value_len(batch.events[i].prev) + EVENT_OVERHEAD > usable(limits.watch_frame),
        framed_batch(limits, watch_id, batch) matches Some(sent) ==> {
            &&& sent.len() > 0
            &&& forall|i: int|
                0 <= i < sent.len() ==> (#[trigger] sent[i]).watch_id == watch_id
                    && sent[i].revision == batch.revision && (sent[i].complete <==> i == sent.len()
                    - 1)
            &&& heard(sent).len() == batch.events.len()
            &&& 0 <= j < batch.events.len() ==> {
                let e = batch.events[j];
                let h = heard(sent)[j];
                &&& h.key == e.key
                &&& h.kind == EventKindV1::Put <==> e.kind == KvEventKind::Put
                &&& e.entry matches Some(entry) ==> h.value == entry.value && h.create_revision
                    == entry.create_revision && h.mod_revision == entry.mod_revision && h.version
                    == entry.version
                &&& e.entry is None ==> h.value.len() == 0 && h.mod_revision == batch.revision
                    && h.version == 0
                &&& e.entry is None ==> (e.prev matches Some(prev) ==> h.create_revision
                    == prev.create_revision)
                &&& e.entry is None && e.prev is None ==> h.create_revision == KvRevision(0)
                &&& e.prev matches Some(prev) ==> h.prev_value == Some(prev.value)
                &&& e.prev is None ==> h.prev_value is None
            }
        },
{
    if !unframable(limits, batch.events) {
        lemma_fragments(limits, batch.events);
        let parts = fragments(limits, batch.events);
        let sent = messages_of(limits, watch_id, batch);
        assert(Seq::new(sent.len(), |i: int| sent[i].events) =~= Seq::new(
            parts.len(),
            |i: int| told(parts[i], batch.revision),
        ));
        lemma_joined_told(parts, batch.revision);
    } else {
        let i = choose|i: int|
            0 <= i < batch.events.len() && cost_of(#[trigger] batch.events[i]) > usable(
                limits.watch_frame,
            );
        assert(batch.events[i].key.len() >= 0);
    }
    if exists|i: int|
        0 <= i < batch.events.len() && (#[trigger] batch.events[i]).key.len() + value_len(
            batch.events[i].entry,
        ) + value_len(batch.events[i].prev) + EVENT_OVERHEAD > usable(limits.watch_frame) {
        let i = choose|i: int|
            0 <= i < batch.events.len() && (#[trigger] batch.events[i]).key.len() + value_len(
                batch.events[i].entry,
            ) + value_len(batch.events[i].prev) + EVENT_OVERHEAD > usable(limits.watch_frame);
        assert(cost_of(batch.events[i]) > usable(limits.watch_frame));
    }
}

} // verus!
