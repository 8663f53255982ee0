//! Complete revisions become messages that fit their frames.

use coord_consensus::client::WireLimits;
use coord_consensus::codec::{from_wire, to_wire};
use coord_consensus::ids::KvRevision;
use coord_consensus::watch::{
    close_reason, event_cost, event_v1, watch_frames, CloseReason, EventKindV1, KvEntry, KvEvent,
    KvEventKind, WatchBatch, WatchCloseReasonV1, WatchEventsV1,
};

const LIMITS: WireLimits = WireLimits {
    header: 12,
    api_frame: 4 * 1024 * 1024,
    evidence_frame: 64 * 1024 * 1024,
    watch_frame: 16 * 1024 * 1024,
    result: 16 * 1024 * 1024,
    reason: 256,
    events: 1000,
};

fn rev(n: u64) -> KvRevision {
    KvRevision(n)
}

fn entry(value: Vec<u8>, created: u64, modified: u64) -> KvEntry {
    KvEntry {
        value,
        create_revision: rev(created),
        mod_revision: rev(modified),
        version: 1,
    }
}

fn written(key: &[u8], value: Vec<u8>) -> KvEvent {
    KvEvent {
        kind: KvEventKind::Put,
        key: key.to_vec(),
        entry: Some(entry(value, 1, 2)),
        prev: None,
    }
}

#[test]
fn a_revision_of_large_events_is_fragmented_by_encoded_size() {
    let events: Vec<KvEvent> = (0..32u32)
        .map(|i| written(&i.to_be_bytes(), vec![7u8; 1024 * 1024]))
        .collect();
    let batch = WatchBatch {
        revision: rev(2),
        events,
    };
    let frames = watch_frames(&LIMITS, 9, &batch).expect("every event fits on its own");
    assert!(
        frames.len() > 1,
        "32 MiB of events is more than one frame: {}",
        frames.len()
    );
    for frame in &frames {
        let size = to_wire(frame).len() + LIMITS.header;
        assert!(
            size <= LIMITS.watch_frame,
            "a fragment stays within the class limit: {size}"
        );
    }
}

#[test]
fn an_empty_revision_is_still_one_complete_fragment() {
    let batch = WatchBatch {
        revision: rev(5),
        events: Vec::new(),
    };
    assert_eq!(watch_frames(&LIMITS, 9, &batch).expect("framed").len(), 1);
}

#[test]
fn a_delete_event_reports_the_removed_entry_creation_revision() {
    let event = KvEvent {
        kind: KvEventKind::Delete,
        key: b"k".to_vec(),
        entry: None,
        prev: Some(entry(b"v".to_vec(), 3, 7)),
    };
    let encoded = event_v1(&event, rev(9));
    assert_eq!(encoded.kind, EventKindV1::Delete);
    assert_eq!(encoded.create_revision, rev(3));
    assert_eq!(encoded.mod_revision, rev(9), "the delete's own revision");
    assert_eq!(
        encoded.prev_value.as_ref().map(|v| v.as_slice()),
        Some(&b"v"[..])
    );
    assert!(encoded.value.as_slice().is_empty());
}

#[test]
fn fragments_cut_by_count_hold_the_revision_in_order() {
    let limits = WireLimits { events: 2, ..LIMITS };
    let batch = WatchBatch {
        revision: rev(2),
        events: (0..5u8).map(|i| written(&[i], vec![i])).collect(),
    };
    let frames = watch_frames(&limits, 9, &batch).expect("framed");
    let keys: Vec<Vec<Vec<u8>>> = frames
        .iter()
        .map(|f| f.events.iter().map(|e| e.key.clone()).collect())
        .collect();
    assert_eq!(
        keys,
        vec![
            vec![vec![0], vec![1]],
            vec![vec![2], vec![3]],
            vec![vec![4]]
        ]
    );
    assert_eq!(
        frames.iter().map(|f| f.complete).collect::<Vec<_>>(),
        vec![false, false, true]
    );
}

#[test]
fn a_change_that_fits_no_frame_is_not_framed() {
    let limits = WireLimits {
        watch_frame: 64 * 1024 + 100,
        ..LIMITS
    };
    let fits = written(b"k", vec![0; 35]);
    assert_eq!(event_cost(&fits), 100);
    let batch = |event| WatchBatch {
        revision: rev(2),
        events: vec![event],
    };
    assert!(watch_frames(&limits, 9, &batch(fits)).is_some());
    assert!(watch_frames(&limits, 9, &batch(written(b"k", vec![0; 36]))).is_none());
}

#[test]
fn fragments_are_laid_out_as_postcard_lays_them_out() {
    let event = KvEvent {
        kind: KvEventKind::Delete,
        key: b"key".to_vec(),
        entry: None,
        prev: Some(entry(b"old".to_vec(), 300, 7)),
    };
    let batch = WatchBatch {
        revision: rev(1 << 40),
        events: vec![event],
    };
    let frames = watch_frames(&LIMITS, 900, &batch).expect("framed");
    let bytes = to_wire(&frames[0]);
    let change = (
        1u32,
        b"key".to_vec(),
        Vec::<u8>::new(),
        300u64,
        1u64 << 40,
        0u64,
        Some(b"old".to_vec()),
    );
    let expected = postcard::to_allocvec(&(900u64, 1u64 << 40, vec![change], true)).unwrap();
    assert_eq!(bytes, expected);
    let read: WatchEventsV1 = from_wire(&bytes).expect("read back");
    assert_eq!(read.events.len(), 1);
    assert_eq!(read.events[0].prev_value, Some(b"old".to_vec()));
    assert!(read.complete);
}

#[test]
fn a_closed_hub_is_a_lost_source() {
    assert_eq!(
        close_reason(CloseReason::HubClosed),
        WatchCloseReasonV1::SourceLost
    );
    assert_eq!(
        close_reason(CloseReason::Compacted),
        WatchCloseReasonV1::Compacted
    );
    assert_eq!(
        close_reason(CloseReason::SlowConsumer),
        WatchCloseReasonV1::SlowConsumer
    );
    assert_eq!(
        close_reason(CloseReason::Unauthorized),
        WatchCloseReasonV1::Unauthorized
    );
    assert_eq!(
        close_reason(CloseReason::Cancelled),
        WatchCloseReasonV1::Cancelled
    );
}
