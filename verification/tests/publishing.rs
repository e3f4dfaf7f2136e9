use zenoh_explorer::chunking::{
    chunk_bounds, chunk_count, chunk_key, publish_route, stores_locally, PublishRoute,
    MAX_SINGLE_PAYLOAD,
};
use zenoh_explorer::payload_store::{PayloadEntry, PayloadStoreMap, Timestamp};
use zenoh_explorer::transfer::{
    get_payload_for_export, insert_payload, parse_chunk_key, ChunkMeta, CHUNK_SIZE,
};

#[test]
fn route_follows_size_and_origin() {
    assert_eq!(publish_route(10, false), PublishRoute::Echo);
    assert_eq!(publish_route(10, true), PublishRoute::ImportNoEcho);
    assert_eq!(publish_route(104857600, false), PublishRoute::Echo);
    assert_eq!(publish_route(104857601, false), PublishRoute::LargeNoEcho);
    assert_eq!(publish_route(104857601, true), PublishRoute::LargeNoEcho);
    assert_eq!(publish_route(MAX_SINGLE_PAYLOAD, true), PublishRoute::LargeNoEcho);
    assert_eq!(publish_route(MAX_SINGLE_PAYLOAD + 1, false), PublishRoute::Chunked);
}

#[test]
fn local_store_takes_small_typed_payloads() {
    assert!(stores_locally(10, false));
    assert!(stores_locally(10 * 1024 * 1024, false));
    assert!(!stores_locally(10 * 1024 * 1024 + 1, false));
    assert!(!stores_locally(10, true));
}

#[test]
fn chunk_count_rounds_up() {
    assert_eq!(chunk_count(0), 0);
    assert_eq!(chunk_count(1), 1);
    assert_eq!(chunk_count(CHUNK_SIZE), 1);
    assert_eq!(chunk_count(CHUNK_SIZE + 1), 2);
    assert_eq!(chunk_count(MAX_SINGLE_PAYLOAD + 1), 64);
    assert_eq!(chunk_count(5 * CHUNK_SIZE - 3), 5);
}

#[test]
fn chunk_bounds_cover_the_payload() {
    let len = 3 * CHUNK_SIZE + 17;
    let n = chunk_count(len);
    assert_eq!(n, 4);
    let mut expected_start = 0;
    for i in 0..n {
        let (s, e) = chunk_bounds(len, i);
        assert_eq!(s, expected_start);
        assert!(e - s <= CHUNK_SIZE);
        expected_start = e;
    }
    assert_eq!(expected_start, len);
    assert_eq!(chunk_bounds(len, 3), (3 * CHUNK_SIZE, len));
}

#[test]
fn chunk_key_has_the_published_format() {
    assert_eq!(
        chunk_key("demo/file", 8589934592, 128, 7),
        "demo/file/__chunk/8589934592/128/7"
    );
}

#[test]
fn chunk_key_parses_back() {
    let key = chunk_key("big/data", 5000000000, 75, 74);
    let (topic, meta) = parse_chunk_key(&key).unwrap();
    assert_eq!(topic, "big/data");
    assert_eq!(
        meta,
        ChunkMeta {
            total_size: 5000000000,
            total_chunks: 75,
            index: 74
        }
    );
    assert!(meta.is_sane());
}

#[test]
fn chunks_inserted_out_of_order_export_as_the_payload() {
    let payload: Vec<u8> = (0u8..10).collect();
    let mut store = PayloadStoreMap::new();
    let pieces: [(usize, &[u8]); 3] = [(2, &payload[8..10]), (0, &payload[0..4]), (1, &payload[4..8])];
    for (i, bytes) in pieces.iter() {
        insert_payload(
            &mut store,
            chunk_key("f", payload.len(), 3, *i),
            PayloadEntry {
                bytes: bytes.to_vec(),
                received_at: Timestamp::from_secs(*i as i64),
                filename: Some("data.bin".to_string()),
            },
        );
    }
    let exported = get_payload_for_export(&store, "f").unwrap();
    assert_eq!(exported.bytes, payload);
    assert_eq!(exported.filename.as_deref(), Some("data.bin"));
}

#[test]
fn export_dialog_filters_follow_the_name() {
    let f = zenoh_explorer::transfer::export_dialog_filters("data.json");
    assert_eq!(f.len(), 2);
    assert_eq!(f[0].label, "JSON files");
    assert_eq!(f[0].extensions, vec!["json".to_string()]);
    assert_eq!(f[1].label, "All files");
    assert_eq!(f[1].extensions, vec!["*".to_string()]);
    let g = zenoh_explorer::transfer::export_dialog_filters("noext");
    assert_eq!(g.len(), 1);
    assert_eq!(g[0].label, "All files");
    assert_eq!(g[0].extensions, vec!["*".to_string()]);
}
