use zenoh_explorer::explorer::{
    chunks_missing, chunk_progress_line, discovery_summary, drop_summary, first_rendered,
    message_matches_filter, query_timeout_ms, reply_is_local, transfer_complete, transfer_line, ZenohExplorer,
};
use zenoh_explorer::types::ZenohCommand;
use zenoh_explorer::dedup::Deduper;
use zenoh_explorer::payload_store::Timestamp;
use zenoh_explorer::transfer::{get_payload_for_export, ChunkProgress};
use zenoh_explorer::types::{ConnectionStatus, MessageSource, MessageType, ZenohEvent, ZenohMessage};

fn msg(key: &str, payload: &str, t: MessageType, local: bool) -> ZenohMessage {
    ZenohMessage::new_with_bytes(
        key.to_string(),
        payload.to_string(),
        payload.as_bytes().to_vec(),
        "text/plain".to_string(),
        Timestamp::from_secs(1),
        t,
        local,
        MessageSource::PublishingSession,
    )
}

fn explorer() -> ZenohExplorer {
    let mut e = ZenohExplorer::new();
    e.deduper.enabled = false;
    e
}

#[test]
fn connection_phases() {
    let mut e = explorer();
    assert!(matches!(e.connection_status, ConnectionStatus::Disconnected));
    e.process_event(ZenohEvent::PublishingConnected);
    assert!(matches!(e.connection_status, ConnectionStatus::ConnectingMonitor));
    e.process_event(ZenohEvent::MonitorConnected);
    assert!(matches!(e.connection_status, ConnectionStatus::Connected));
    e.process_event(ZenohEvent::DiscoveryUpdate { peers: 2, routers: 1 });
    assert_eq!((e.discovered_peers, e.discovered_routers), (2, 1));
    e.process_event(ZenohEvent::SubscriptionCreated { id: "s1".into(), key_expr: "demo/**".into() });
    assert_eq!(e.subscriptions.len(), 1);
    assert_eq!(e.subscriptions[0].reliability, "reliable");
    e.process_event(ZenohEvent::Disconnected);
    assert!(matches!(e.connection_status, ConnectionStatus::Disconnected));
    assert_eq!((e.discovered_peers, e.discovered_routers), (0, 0));
    assert!(e.subscriptions.is_empty());
    e.process_event(ZenohEvent::ConnectionError("boom".into()));
    match &e.connection_status {
        ConnectionStatus::Error(s) => assert_eq!(s, "boom"),
        _ => panic!("expected error"),
    }
}

#[test]
fn subscription_removed_by_id() {
    let mut e = explorer();
    e.process_event(ZenohEvent::SubscriptionCreated { id: "a".into(), key_expr: "x".into() });
    e.process_event(ZenohEvent::SubscriptionCreated { id: "b".into(), key_expr: "y".into() });
    e.process_event(ZenohEvent::SubscriptionRemoved { id: "a".into() });
    assert_eq!(e.subscriptions.len(), 1);
    assert_eq!(e.subscriptions[0].id, "b");
}

#[test]
fn query_without_answers_raises_alert() {
    let mut e = explorer();
    e.process_event(ZenohEvent::QueryNoResponses { selector: "q/**".into() });
    assert_eq!(
        e.query_alert.as_deref(),
        Some("No queryables available for 'q/**'. \n\nQueries require active services (queryables) to respond. \nTry using Subscribe instead to monitor data.")
    );
    e.process_event(ZenohEvent::MessageReceived(msg("q/a", "r", MessageType::QueryReply, false)));
    assert!(e.query_alert.is_none());
}

#[test]
fn received_message_is_listed_stored_and_in_tree() {
    let mut e = explorer();
    e.process_event(ZenohEvent::MessageReceived(msg("demo/a", "hello", MessageType::Subscribe, false)));
    assert_eq!(e.messages.len(), 1);
    assert_eq!(e.messages[0].payload, "hello");
    assert!(e.messages[0].payload_bytes.is_none());
    assert_eq!(e.current_memory_bytes, e.messages[0].size_bytes);
    assert_eq!(get_payload_for_export(&e.payload_store, "demo/a").unwrap().bytes, b"hello".to_vec());
    let node = e.browse_tree.root().find_node("demo/a").unwrap();
    assert_eq!(node.last_payload.as_deref(), Some("hello"));
}

#[test]
fn chunk_traffic_is_stored_but_not_listed() {
    let mut e = explorer();
    e.process_event(ZenohEvent::MessageBatch(vec![
        msg("f/__chunk/6/2/0", "abc", MessageType::Subscribe, false),
        msg("f/__chunk/6/2/1", "def", MessageType::Subscribe, false),
    ]));
    assert!(e.messages.is_empty());
    // The chunks make no `__chunk` nodes: they are tracked on the topic's node.
    assert_eq!(e.browse_tree.root().children.len(), 1);
    let f = e.browse_tree.root().find_node("f").unwrap();
    assert!(f.children.is_empty());
    assert_eq!(f.message_count, 0);
    let t = f.transfer.as_ref().unwrap();
    assert_eq!((t.total_size, t.total_chunks, t.received.clone()), (6, 2, vec![0, 1]));
    assert!(transfer_complete(t));
    assert_eq!(transfer_line(t), "2/2 chunks · 6 bytes");
    assert_eq!(get_payload_for_export(&e.payload_store, "f").unwrap().bytes, b"abcdef".to_vec());
}

#[test]
fn transfer_node_follows_the_newest_generation() {
    let mut e = explorer();
    for key in ["g/x/__chunk/300000000/5/0", "g/x/__chunk/300000000/5/3", "g/x/__chunk/300000000/5/3"] {
        e.add_message_to_browse_tree(&msg(key, "", MessageType::Subscribe, false));
    }
    let t = e.browse_tree.root().find_node("g/x").unwrap().transfer.as_ref().unwrap();
    assert_eq!(t.received, vec![0, 3]);
    assert!(!transfer_complete(t));
    assert_eq!(transfer_line(t), "2/5 chunks · 286.10 MB");
    // A chunk of another generation starts the transfer over.
    e.add_message_to_browse_tree(&msg("g/x/__chunk/100/1/0", "", MessageType::Subscribe, false));
    let t = e.browse_tree.root().find_node("g/x").unwrap().transfer.as_ref().unwrap();
    assert_eq!((t.total_size, t.total_chunks, t.received.clone()), (100, 1, vec![0]));
    // Chunks with insane metadata are ignored; messages keep the transfer.
    e.add_message_to_browse_tree(&msg("g/x/__chunk/100/1/7", "", MessageType::Subscribe, false));
    e.add_message_to_browse_tree(&msg("g/x", "hello", MessageType::Subscribe, false));
    let node = e.browse_tree.root().find_node("g/x").unwrap();
    assert_eq!(node.transfer.as_ref().unwrap().received, vec![0]);
    assert_eq!(node.message_count, 1);
    assert_eq!(node.last_payload.as_deref(), Some("hello"));
}

#[test]
fn paused_keys_are_stored_not_listed() {
    let mut e = explorer();
    e.toggle_pause("p");
    assert!(e.is_paused("p"));
    e.process_single_message(msg("p", "x", MessageType::Subscribe, false));
    assert!(e.messages.is_empty());
    assert!(e.payload_store.contains_key("p"));
    e.toggle_pause("p");
    assert!(!e.is_paused("p"));
    e.process_single_message(msg("p", "y", MessageType::Subscribe, false));
    assert_eq!(e.messages.len(), 1);
}

#[test]
fn local_query_reply_wins() {
    let mut e = explorer();
    e.process_single_message(msg("k", "remote", MessageType::QueryReply, false));
    e.process_single_message(msg("k", "local", MessageType::QueryReply, true));
    assert_eq!(e.messages.len(), 1);
    assert_eq!(e.messages[0].payload, "local");
    e.process_single_message(msg("k", "remote2", MessageType::QueryReply, false));
    assert_eq!(e.messages.len(), 1);
    assert_eq!(e.messages[0].payload, "local");
}

#[test]
fn duplicates_are_dropped_when_enabled() {
    let mut e = ZenohExplorer::new();
    e.process_single_message(msg("d", "same", MessageType::Subscribe, false));
    e.process_single_message(msg("d", "same", MessageType::Subscribe, false));
    assert_eq!(e.messages.len(), 1);
    assert_eq!(e.messages_deduped, 1);
    e.process_single_message(msg("d", "other", MessageType::Subscribe, false));
    assert_eq!(e.messages.len(), 2);
}

#[test]
fn rate_limited_messages_are_counted() {
    let mut e = explorer();
    e.rate_limiter.max_messages_per_second = 2;
    for i in 0..5 {
        e.process_single_message(msg("r", &format!("{}", i), MessageType::Subscribe, false));
    }
    assert_eq!(e.messages.len(), 2);
    assert_eq!(e.rate_limit_drops, 3);
}

#[test]
fn message_count_limit_drops_oldest() {
    let mut e = explorer();
    e.max_messages = 3;
    for i in 0..5 {
        e.add_message_with_limits(msg("c", &format!("m{}", i), MessageType::Subscribe, false), true);
    }
    assert_eq!(e.messages.len(), 3);
    assert_eq!(e.messages[0].payload, "m2");
    assert_eq!(e.messages_dropped, 2);
    let sum: usize = e.messages.iter().map(|m| m.size_bytes).sum();
    assert_eq!(e.current_memory_bytes, sum);
}

#[test]
fn memory_limit_drops_oldest() {
    let mut e = explorer();
    e.max_memory_mb = 0;
    e.add_message_with_limits(msg("m", "a", MessageType::Subscribe, false), true);
    e.add_message_with_limits(msg("m", "b", MessageType::Subscribe, false), true);
    assert_eq!(e.messages.len(), 1);
    assert_eq!(e.messages[0].payload, "b");
    assert_eq!(e.messages_dropped, 1);
}

#[test]
fn long_payloads_are_cut_in_the_list_but_stored_whole() {
    let mut e = explorer();
    let long = "z".repeat(20000);
    e.add_message_with_limits(msg("l", &long, MessageType::Subscribe, false), true);
    assert_eq!(
        e.messages[0].payload,
        format!("{}... [truncated - use Export for full]", "z".repeat(10240))
    );
    assert_eq!(get_payload_for_export(&e.payload_store, "l").unwrap().bytes.len(), 20000);
}

#[test]
fn limits_are_clamped() {
    let mut e = explorer();
    e.set_memory_limit("5");
    assert_eq!(e.max_memory_mb, 10);
    e.set_memory_limit("5000");
    assert_eq!(e.max_memory_mb, 1000);
    e.set_memory_limit("abc");
    assert_eq!(e.max_memory_mb, 1000);
    e.set_message_limit("7");
    assert_eq!(e.max_messages, 100);
    e.set_message_limit("123456");
    assert_eq!(e.max_messages, 50000);
    e.set_rate_limit("+500");
    assert_eq!(e.rate_limiter.max_messages_per_second, 500);
    e.clear_messages();
    assert!(e.messages.is_empty());
    assert_eq!(e.current_memory_bytes, 0);
}

#[test]
fn filter_looks_at_key_and_payload_head() {
    let m = msg("sensors/temp", "value 21", MessageType::Subscribe, false);
    assert!(message_matches_filter(&m, ""));
    assert!(message_matches_filter(&m, "temp"));
    assert!(message_matches_filter(&m, "21"));
    assert!(!message_matches_filter(&m, "hum"));
    let far = msg("k", &format!("{}needle", "x".repeat(4096)), MessageType::Subscribe, false);
    assert!(!message_matches_filter(&far, "needle"));
}

#[test]
fn cached_json_is_pretty_printed() {
    let mut e = explorer();
    assert_eq!(e.get_cached_json("{\"a\":1}").as_deref(), Some("{\n  \"a\": 1\n}"));
    assert_eq!(e.get_cached_json("{\"a\":1}").as_deref(), Some("{\n  \"a\": 1\n}"));
    assert!(e.get_cached_json("not json").is_none());
    assert!(e.get_cached_json(&"1".repeat(60000)).is_none());
}

#[test]
fn summaries_and_helpers() {
    assert_eq!(discovery_summary(0, 0), None);
    assert_eq!(discovery_summary(3, 2).as_deref(), Some("(2R 3P)"));
    assert_eq!(discovery_summary(3, 0).as_deref(), Some("(3P)"));
    assert_eq!(discovery_summary(0, 1).as_deref(), Some("(1R)"));
    assert_eq!(drop_summary(0, 0), None);
    assert_eq!(drop_summary(4, 0).as_deref(), Some("(4 dropped)"));
    assert_eq!(drop_summary(4, 2).as_deref(), Some("(4 dropped, 2 rate limited)"));
    assert!(reply_is_local(Some("source:local")));
    assert!(!reply_is_local(Some("source:remote")));
    assert!(!reply_is_local(None));
    assert_eq!(first_rendered(100), 0);
    assert_eq!(first_rendered(800), 300);
    assert_eq!(query_timeout_ms("250"), 250);
    assert_eq!(query_timeout_ms("x"), 5000);
    let p = ChunkProgress { received: 2, total_chunks: 5, total_size: 300000000 };
    assert_eq!(chunk_progress_line(p), "2/5 chunks received, 286.10 MB total");
    assert_eq!(chunks_missing(p), 3);
}

#[test]
fn theme_colors_follow_dark_mode() {
    let mut e = explorer();
    assert_eq!(e.background_color(), 0x2D2D2DFF);
    e.dark_mode = false;
    assert_eq!(e.background_color(), 0xF8F8F8FF);
    assert_eq!(e.text_color(), 0x1C1C1EFF);
}

#[test]
fn health_check_is_due_after_five_seconds() {
    let mut state = ZenohExplorer::new();
    assert!(!state.health_check_after(1_000_000_000));
    assert!(!state.health_check_after(5_000_000_000));
    assert!(state.worker_healthy);
    assert!(state.health_check_after(5_000_000_001));
    assert!(state.health_check_after(15_000_000_000));
    assert!(state.worker_healthy);
    assert!(state.health_check_after(15_000_000_001));
    assert!(!state.worker_healthy);
    // A fresh state is not due for a check.
    let mut fresh = ZenohExplorer::new();
    assert!(!fresh.health_check());
    assert!(fresh.worker_healthy);
}

#[test]
fn footprint_covers_the_content() {
    let payload = vec![7u8; 5000];
    let m = ZenohMessage::new_with_bytes(
        "demo/k".to_string(),
        "x".repeat(3000),
        payload,
        "text/plain".to_string(),
        Timestamp::new(0, 0),
        MessageType::Subscribe,
        false,
        MessageSource::MonitorSession,
    );
    assert!(m.size_bytes >= 6 + 3000 + 10 + 5000 + 24);
    assert_eq!(m.size_bytes, m.calculate_size());
}

#[test]
fn initial_forms_and_limits() {
    let s = ZenohExplorer::new();
    assert_eq!(s.query_timeout, "5000");
    assert_eq!(query_timeout_ms(&s.query_timeout), 5000);
    assert_eq!(s.connect_transport, "tcp");
    assert_eq!(s.connect_address, "");
    assert_eq!(s.connect_port, "7447");
    assert_eq!(s.listen_port, "7447");
    assert_eq!(s.connection_mode, "peer");
    assert_eq!(s.subscribe_key, "demo/**");
    assert_eq!(s.publish_key, "demo/test");
    assert_eq!(s.publish_payload, "Hello Zenoh!");
    assert_eq!(s.publish_encoding, "text/plain");
    assert_eq!(s.queryable_pattern, "**");
    assert_eq!(s.max_messages, 50000);
    assert_eq!(s.max_memory_mb, 100);
    assert_eq!(s.rate_limiter.max_messages_per_second, 1000);
    assert_eq!(s.browse_tree.root().key, "root");
    assert!(s.browse_tree.root().children.is_empty());
    assert!(matches!(s.connection_status, ConnectionStatus::Disconnected));
}

#[test]
fn checked_message_outcomes() {
    // A duplicate is counted and nothing else changes.
    let mut e = ZenohExplorer::new();
    e.process_checked(msg("d/x", "p", MessageType::Subscribe, false), true, true, std::time::Instant::now());
    assert_eq!(e.messages_deduped, 1);
    assert!(e.messages.is_empty());
    assert!(e.deduper.hashes.is_empty());
    // Not admitted: counted as rate-limited, no hash recorded.
    e.process_checked(msg("d/x", "p", MessageType::Subscribe, false), false, false, std::time::Instant::now());
    assert_eq!(e.rate_limit_drops, 1);
    assert!(e.messages.is_empty());
    assert!(e.deduper.hashes.is_empty());
    // Admitted: stored, listed, hash recorded.
    e.process_checked(msg("d/x", "p", MessageType::Subscribe, false), false, true, std::time::Instant::now());
    assert_eq!(e.messages.len(), 1);
    assert_eq!(e.deduper.hashes.len(), 1);
    assert_eq!(e.deduper.hashes[0].0, Deduper::hash_message("d/x", b"p"));
    assert!(get_payload_for_export(&e.payload_store, "d/x").is_ok());
    // A query reply is never a duplicate and records no hash.
    e.process_checked(msg("q/r", "v", MessageType::QueryReply, false), true, true, std::time::Instant::now());
    assert_eq!(e.messages.len(), 2);
    assert_eq!(e.deduper.hashes.len(), 1);
}

#[test]
fn rate_limited_message_is_no_duplicate_later() {
    let mut e = ZenohExplorer::new();
    e.rate_limiter.max_messages_per_second = 1;
    e.process_single_message(msg("r/a", "1", MessageType::Subscribe, false));
    // The window is full: the next message is dropped, its hash not recorded.
    e.process_single_message(msg("r/b", "2", MessageType::Subscribe, false));
    assert_eq!(e.rate_limit_drops, 1);
    assert_eq!(e.deduper.hashes.len(), 1);
    e.rate_limiter.message_count = 0;
    e.process_single_message(msg("r/b", "2", MessageType::Subscribe, false));
    assert_eq!(e.messages_deduped, 0);
    assert_eq!(e.messages.len(), 2);
}

#[test]
fn connect_and_publish_clicks() {
    let mut s = ZenohExplorer::new();
    match s.connect_clicked() {
        ZenohCommand::Connect { locators, listen_port, mode, config_json } => {
            assert_eq!((locators.as_str(), listen_port.as_str(), mode.as_str(), config_json.as_str()), ("", "7447", "peer", "{}"));
        }
        _ => panic!("expected a Connect command"),
    }
    assert!(matches!(s.connection_status, ConnectionStatus::ConnectingPublishing));
    s.connect_address = "10.0.0.2".to_string();
    match s.connect_clicked() {
        ZenohCommand::Connect { locators, .. } => assert_eq!(locators, "tcp/10.0.0.2:7447"),
        _ => panic!("expected a Connect command"),
    }
    // Not connected: the Publish button gives nothing.
    assert!(s.publish_clicked().is_none());
    assert_eq!(s.publish_payload, "Hello Zenoh!");
    s.connection_status = ConnectionStatus::Connected;
    match s.publish_clicked() {
        Some(ZenohCommand::Publish { key, payload, encoding, from_import, filename }) => {
            assert_eq!(key, "demo/test");
            assert_eq!(payload, b"Hello Zenoh!".to_vec());
            assert_eq!(encoding, "text/plain");
            assert!(!from_import);
            assert!(filename.is_none());
        }
        _ => panic!("expected a Publish command"),
    }
    assert_eq!(s.publish_payload, "");
    s.publish_payload_bytes = Some(vec![1, 2, 3]);
    s.publish_payload_filename = Some("f.bin".to_string());
    s.import_memory_bytes = 3;
    match s.publish_clicked() {
        Some(ZenohCommand::Publish { payload, from_import, filename, .. }) => {
            assert_eq!(payload, vec![1, 2, 3]);
            assert!(from_import);
            assert_eq!(filename.as_deref(), Some("f.bin"));
        }
        _ => panic!("expected a Publish command"),
    }
    assert!(s.publish_payload_bytes.is_none() && s.publish_payload_filename.is_none());
    assert_eq!(s.import_memory_bytes, 0);
}

#[test]
fn json_cache_renders_only_the_payload_passed_in() {
    let mut app = ZenohExplorer::new();
    let p1 = format!("[{}1]", "1,".repeat(2100));
    let p2 = format!("[{}1", "1,".repeat(2100));
    assert!(app.get_cached_json(&p1).is_some());
    // Same first 4096 bytes, same cache key, but not JSON.
    assert_eq!(app.get_cached_json(&p2), None);
    assert!(app.get_cached_json(&p1).is_some());
    assert_eq!(app.get_cached_json("{\"a\":1}").as_deref(), Some("{\n  \"a\": 1\n}"));
    assert_eq!(app.get_cached_json("not json"), None);
}

#[test]
fn disconnect_and_queryable_clicks() {
    let mut s = ZenohExplorer::new();
    s.connection_status = ConnectionStatus::Connected;
    s.process_event(ZenohEvent::SubscriptionCreated { id: "sub_1".into(), key_expr: "a/**".into() });
    assert_eq!(s.subscriptions.len(), 1);
    assert!(matches!(s.disconnect_clicked(), ZenohCommand::Disconnect));
    assert!(matches!(s.connection_status, ConnectionStatus::Disconnected));
    assert!(s.subscriptions.is_empty());

    assert!(!s.queryable_enabled);
    // Unchanged: nothing to send.
    assert!(s.set_queryable(false).is_none());
    s.queryable_pattern = "demo/**".to_string();
    match s.set_queryable(true) {
        Some(ZenohCommand::EnableQueryable { key_expr }) => assert_eq!(key_expr, "demo/**"),
        _ => panic!("expected an EnableQueryable command"),
    }
    assert!(s.queryable_enabled);
    assert!(s.set_queryable(true).is_none());
    assert!(matches!(s.set_queryable(false), Some(ZenohCommand::DisableQueryable)));
    assert!(!s.queryable_enabled);
}

#[test]
fn rate_limited_message_is_accepted_when_it_comes_again() {
    let mut e = ZenohExplorer::new();
    assert!(e.deduper.enabled);
    e.rate_limiter.max_messages_per_second = 1;
    e.rate_limiter.message_count = 1;
    let m = msg("k/x", "payload", MessageType::Subscribe, false);
    e.process_checked(m.clone(), false, false, std::time::Instant::now());
    assert_eq!(e.rate_limit_drops, 1);
    assert_eq!(e.messages_deduped, 0);
    assert!(e.messages.is_empty());
    e.process_checked(m, false, true, std::time::Instant::now());
    assert_eq!(e.rate_limit_drops, 1);
    assert_eq!(e.messages_deduped, 0);
    assert_eq!(e.messages.len(), 1);
    assert!(e.payload_store.get("k/x").is_some());
}

#[test]
fn histories_keep_the_newest_fifty() {
    let mut e = explorer();
    e.max_messages = 1000;
    for i in 0..60 {
        e.process_checked(msg("t/a", &format!("{}", i), MessageType::Subscribe, false), false, true, std::time::Instant::now());
        e.process_checked(msg("q/r", "v", MessageType::QueryReply, false), false, true, std::time::Instant::now());
    }
    let h = e.topic_history("t/a");
    assert_eq!(h.len(), 50);
    assert_eq!(e.messages[h[0]].payload, "59");
    assert_eq!(e.messages[h[49]].payload, "10");
    assert!(h.windows(2).all(|w| w[0] > w[1]));
    let r = e.recent_query_replies();
    assert!(r.len() <= 50);
    assert!(r.iter().all(|&p| matches!(e.messages[p].message_type, MessageType::QueryReply)));
    assert_eq!(r[0], e.messages.len() - 1);
}
