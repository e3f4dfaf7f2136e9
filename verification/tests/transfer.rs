use zenoh_explorer::payload_store::{PayloadEntry, PayloadStoreMap, Timestamp};
use zenoh_explorer::transfer::{
    chunk_progress, get_payload_for_export, insert_payload, parse_chunk_key,
    suggested_export_filename, ChunkMeta, CHUNK_SIZE, MAX_PLAIN_ENTRIES,
};

fn entry(ts_secs: i64) -> PayloadEntry {
    PayloadEntry {
        bytes: vec![1, 2, 3],
        received_at: Timestamp::from_secs(ts_secs),
        filename: None,
    }
}

fn entry_with(bytes: Vec<u8>, ts: i64) -> PayloadEntry {
    PayloadEntry {
        bytes,
        received_at: Timestamp::from_secs(ts),
        filename: None,
    }
}

#[test]
fn export_direct_hit() {
    let mut store = PayloadStoreMap::new();
    store.insert("t".into(), entry_with(vec![9, 9], 1));
    assert_eq!(
        get_payload_for_export(&store, "t").unwrap().bytes,
        vec![9, 9]
    );
}

#[test]
fn export_reassembles_in_index_order() {
    let mut store = PayloadStoreMap::new();
    store.insert("t/__chunk/6/2/1".into(), entry_with(vec![4, 5, 6], 1));
    store.insert("t/__chunk/6/2/0".into(), entry_with(vec![1, 2, 3], 2));
    assert_eq!(
        get_payload_for_export(&store, "t").unwrap().bytes,
        vec![1, 2, 3, 4, 5, 6]
    );
}

#[test]
fn export_incomplete_reports_progress() {
    let mut store = PayloadStoreMap::new();
    store.insert("t/__chunk/6/2/0".into(), entry_with(vec![1, 2, 3], 1));
    let err = get_payload_for_export(&store, "t").unwrap_err();
    assert!(err.contains("1 of 2"), "got: {err}");
}

#[test]
fn export_size_mismatch_is_error() {
    let mut store = PayloadStoreMap::new();
    store.insert("t/__chunk/99/2/0".into(), entry_with(vec![1, 2, 3], 1));
    store.insert("t/__chunk/99/2/1".into(), entry_with(vec![4, 5, 6], 2));
    let err = get_payload_for_export(&store, "t").unwrap_err();
    assert!(err.contains("size mismatch"), "got: {err}");
}

#[test]
fn export_nothing_stored_is_error() {
    let store = PayloadStoreMap::new();
    assert!(get_payload_for_export(&store, "t").is_err());
}

#[test]
fn evicts_oldest_plain_entry_at_cap() {
    let mut store = PayloadStoreMap::new();
    for i in 0..MAX_PLAIN_ENTRIES {
        store.insert(format!("topic/{}", i), entry(1000 + i as i64));
    }
    insert_payload(&mut store, "topic/new".into(), entry(99999));
    assert_eq!(store.len(), MAX_PLAIN_ENTRIES);
    assert!(!store.contains_key("topic/0")); // oldest evicted
    assert!(store.contains_key("topic/new"));
}

#[test]
fn chunk_entries_exempt_from_plain_cap() {
    let mut store = PayloadStoreMap::new();
    for i in 0..MAX_PLAIN_ENTRIES {
        store.insert(format!("topic/{}", i), entry(1000 + i as i64));
    }
    // 600 chunks of one transfer all fit alongside the plain cap
    for i in 0..600usize {
        insert_payload(
            &mut store,
            format!("big/file/__chunk/{}/600/{}", 600 * CHUNK_SIZE, i),
            entry(2000),
        );
    }
    let chunk_count = store
        .keys()
        .iter()
        .filter(|k| k.contains("/__chunk/"))
        .count();
    assert_eq!(chunk_count, 600);
    assert_eq!(store.len(), MAX_PLAIN_ENTRIES + 600);
}

#[test]
fn new_chunk_generation_purges_stale_group() {
    let mut store = PayloadStoreMap::new();
    insert_payload(&mut store, "t/__chunk/200000000/3/0".into(), entry(1));
    insert_payload(&mut store, "t/__chunk/200000000/3/1".into(), entry(2));
    // New transfer on same topic with different metadata
    insert_payload(&mut store, "t/__chunk/300000000/5/0".into(), entry(3));
    assert!(!store.contains_key("t/__chunk/200000000/3/0"));
    assert!(!store.contains_key("t/__chunk/200000000/3/1"));
    assert!(store.contains_key("t/__chunk/300000000/5/0"));
    // Other topics' chunks untouched
    insert_payload(&mut store, "other/__chunk/100/1/0".into(), entry(4));
    insert_payload(&mut store, "t/__chunk/300000000/5/1".into(), entry(5));
    assert!(store.contains_key("other/__chunk/100/1/0"));
}

#[test]
fn insane_chunk_keys_dropped() {
    let mut store = PayloadStoreMap::new();
    insert_payload(
        &mut store,
        "t/__chunk/9999999999999999/1/0".into(),
        entry(1),
    );
    assert!(store.is_empty());
}

#[test]
fn parse_chunk_key_valid() {
    let (topic, m) = parse_chunk_key("demo/file/__chunk/8589934592/128/7").unwrap();
    assert_eq!(topic, "demo/file");
    assert_eq!(
        m,
        ChunkMeta {
            total_size: 8589934592,
            total_chunks: 128,
            index: 7
        }
    );
}

#[test]
fn parse_chunk_key_rejects_malformed() {
    assert!(parse_chunk_key("demo/file").is_none());
    assert!(parse_chunk_key("demo/file/__chunk/abc/2/0").is_none());
    assert!(parse_chunk_key("demo/file/__chunk/100/2").is_none()); // missing index
    assert!(parse_chunk_key("demo/file/__chunk/100/2/0/extra").is_none());
}

#[test]
fn chunk_meta_sanity() {
    // index out of range
    assert!(!ChunkMeta {
        total_size: 100,
        total_chunks: 2,
        index: 2
    }
    .is_sane());
    // zero chunks
    assert!(!ChunkMeta {
        total_size: 100,
        total_chunks: 0,
        index: 0
    }
    .is_sane());
    // total_size exceeds what total_chunks could carry (allocation bomb)
    assert!(!ChunkMeta {
        total_size: usize::MAX,
        total_chunks: 2,
        index: 0
    }
    .is_sane());
    // normal
    assert!(ChunkMeta {
        total_size: 100 * 1024 * 1024,
        total_chunks: 2,
        index: 1
    }
    .is_sane());
}

#[test]
fn update_at_cap_does_not_evict() {
    let mut store = PayloadStoreMap::new();
    for i in 0..MAX_PLAIN_ENTRIES {
        store.insert(format!("topic/{}", i), entry(1000 + i as i64));
    }
    // Overwrite topic/0 (already present) — should not evict any other entry
    insert_payload(&mut store, "topic/0".into(), entry(2000));
    assert_eq!(store.len(), MAX_PLAIN_ENTRIES);
    assert!(store.contains_key("topic/0")); // still present, updated
    assert!(store.contains_key("topic/1")); // nothing else evicted
}

#[test]
fn chunk_progress_counts_distinct_indices_of_newest_group() {
    let mut store = PayloadStoreMap::new();
    // stale group (older timestamps)
    store.insert("t/__chunk/200000000/3/0".into(), entry(1));
    // newest group, 2 of 5 received
    store.insert("t/__chunk/300000000/5/0".into(), entry(10));
    store.insert("t/__chunk/300000000/5/4".into(), entry(11));
    let p = chunk_progress(&store, "t").unwrap();
    assert_eq!(
        (p.received, p.total_chunks, p.total_size),
        (2, 5, 300000000)
    );
}

#[test]
fn chunk_progress_none_for_plain_or_other_topics() {
    let mut store = PayloadStoreMap::new();
    store.insert("t".into(), entry(1));
    store.insert("other/__chunk/100/1/0".into(), entry(1));
    assert!(chunk_progress(&store, "t").is_none());
}

#[test]
fn suggested_name_prefers_transmitted() {
    assert_eq!(
        suggested_export_filename("demo/files", Some("report.pdf")),
        "report.pdf"
    );
}

#[test]
fn suggested_name_uses_last_segment_extension() {
    assert_eq!(
        suggested_export_filename("files/report.pdf", None),
        "report.pdf"
    );
    assert_eq!(
        suggested_export_filename("files/archive.tar.gz", None),
        "archive.tar.gz"
    );
}

#[test]
fn suggested_name_falls_back_to_bin() {
    assert_eq!(
        suggested_export_filename("demo/data", None),
        "demo_data.bin"
    );
    assert_eq!(suggested_export_filename("", None), "payload.bin");
    // dot-segment that isn't a real extension (empty stem / weird ext)
    assert_eq!(
        suggested_export_filename("demo/.hidden", None),
        "demo_.hidden.bin"
    );
    assert_eq!(suggested_export_filename("v1.2/x", None), "v1.2_x.bin");
}

#[test]
fn export_ignores_out_of_range_indices() {
    let mut store = PayloadStoreMap::new();
    // direct inserts bypass insert_payload's sanity gate
    store.insert("t/__chunk/6/2/0".into(), entry_with(vec![1, 2, 3], 1));
    store.insert("t/__chunk/6/2/5".into(), entry_with(vec![4, 5, 6], 2)); // index 5 of 2 — insane
    let err = get_payload_for_export(&store, "t").unwrap_err();
    assert!(err.contains("1 of 2"), "got: {err}");
}
