use zenoh_explorer::batching::MessageBatcher;
use zenoh_explorer::colors::{channels, ExplorerColors};
use zenoh_explorer::connection::{
    applies_config_json, batch_size_for, monitor_key_expr, monitor_session_settings, multicast_scouting_address,
    publishing_session_settings, listen_endpoint, locator_for, monitor_port, plan_monitor_link,
    plan_publishing_link, port_or, protocol_of, split_on, subscription_id, trim,
};
use zenoh_explorer::payload_store::Timestamp;
use zenoh_explorer::queryable::LocalKvStore;
use zenoh_explorer::types::{ConnectionStatus, MessageSource, MessageType, ZenohEvent, ZenohMessage};

#[test]
fn protocol_from_first_locator() {
    assert_eq!(protocol_of(""), "tcp");
    assert_eq!(protocol_of("udp/10.0.0.1:7447,tcp/x:1"), "udp");
    assert_eq!(protocol_of("  quic/host:1 "), "quic");
    assert_eq!(batch_size_for("udp"), 1472);
    assert_eq!(batch_size_for("quic"), 1472);
    assert_eq!(batch_size_for("tcp"), 65535);
}

#[test]
fn ports_and_endpoints() {
    assert_eq!(port_or("7448", 7447), 7448);
    assert_eq!(port_or("70000", 7447), 7447);
    assert_eq!(port_or("", 8447), 8447);
    assert_eq!(monitor_port(7447), 8447);
    assert_eq!(listen_endpoint("tcp", 7447), "tcp/[::]:7447");
}

#[test]
fn link_plans() {
    let p = plan_publishing_link("tcp/a:1, udp/b:2", "7448", "peer");
    assert_eq!(p.protocol, "tcp");
    assert_eq!(p.batch_size, 65535);
    assert!(p.peer_mode && p.scouting);
    assert_eq!(p.listen_endpoint.as_deref(), Some("tcp/[::]:7448"));
    assert_eq!(p.connect_endpoints, vec!["tcp/a:1", "udp/b:2"]);
    let m = plan_monitor_link("", "bad", "peer");
    assert!(m.peer_mode && !m.scouting);
    assert_eq!(m.listen_endpoint.as_deref(), Some("tcp/[::]:8447"));
    assert!(m.connect_endpoints.is_empty());
    let c = plan_publishing_link("udp/r:7447", "7447", "client");
    assert!(!c.peer_mode && !c.scouting);
    assert!(c.listen_endpoint.is_none());
    assert_eq!(c.batch_size, 1472);
}

#[test]
fn text_helpers() {
    assert_eq!(trim("  a b \n"), "a b");
    assert_eq!(trim(""), "");
    assert_eq!(split_on("a,,b", ','), vec!["a", "", "b"]);
    assert_eq!(split_on("", ','), vec![""]);
    assert!(applies_config_json("{\"mode\":\"peer\"}"));
    assert!(!applies_config_json("{}"));
    assert!(!applies_config_json(""));
    assert_eq!(subscription_id(1700000000000, 2), "sub_1700000000000_2");
    assert_eq!(subscription_id(-5, 0), "sub_-5_0");
    assert_eq!(locator_for("tcp", "", "7447"), "");
    assert_eq!(locator_for("tcp", "localhost", "7447"), "tcp/localhost:7447");
}

#[test]
fn kvstore_answers_exact_then_patterns() {
    let mut kv = LocalKvStore::new();
    kv.insert("demo/a".into(), "1".into(), "text/plain".into());
    kv.insert("demo/b".into(), "2".into(), "text/plain".into());
    kv.insert("other/c".into(), "3".into(), "json".into());
    kv.insert("demo/a".into(), "4".into(), "text/plain".into());
    assert_eq!(kv.answer("demo/a"), vec![("demo/a".to_string(), "4".to_string(), "text/plain".to_string())]);
    let all: Vec<String> = kv.answer("demo/**").into_iter().map(|e| e.0).collect();
    assert_eq!(all, vec!["demo/a", "demo/b"]);
    assert_eq!(kv.answer("**").len(), 3);
    let star: Vec<String> = kv.answer("*/c").into_iter().map(|e| e.0).collect();
    assert_eq!(star, vec!["other/c"]);
    assert!(kv.answer("demo/*/x").is_empty());
    assert!(kv.answer("nothing").is_empty());
}

fn m(key: &str) -> ZenohMessage {
    ZenohMessage::new_with_bytes(
        key.into(),
        "p".into(),
        vec![1],
        "e".into(),
        Timestamp::new(0, 5),
        MessageType::Subscribe,
        false,
        MessageSource::MonitorSession,
    )
}

#[test]
fn batcher_flushes_in_order() {
    let mut b = MessageBatcher::new();
    assert!(b.flush().is_none());
    for i in 0..49 {
        assert!(!b.push(m(&format!("k{}", i))));
    }
    assert!(b.push(m("last")));
    match b.flush() {
        Some(ZenohEvent::MessageBatch(v)) => {
            assert_eq!(v.len(), 50);
            assert_eq!(v[0].key, "k0");
            assert_eq!(v[49].key, "last");
        }
        _ => panic!("expected a batch"),
    }
    assert!(b.pending.is_empty());
}

#[test]
fn labels_texts_and_colors() {
    assert_eq!(MessageType::Subscribe.label(), "SUB");
    assert_eq!(MessageType::Publish.label(), "PUT");
    assert_eq!(MessageType::Query.label(), "GET");
    assert_eq!(MessageType::QueryReply.label(), "REPLY");
    assert_eq!(MessageType::Publish.color(), ExplorerColors::SUCCESS);
    assert_eq!(ConnectionStatus::Connected.text(), "Connected");
    assert_eq!(ConnectionStatus::ConnectingPublishing.text(), "Connecting (publishing)...");
    assert_eq!(ConnectionStatus::ConnectingMonitor.text(), "Connecting (monitor)...");
    assert_eq!(ConnectionStatus::Disconnected.text(), "Disconnected");
    assert_eq!(ConnectionStatus::Error("x".into()).text(), "Error");
    assert_eq!(ConnectionStatus::Error("x".into()).color(), ExplorerColors::ERROR);
    assert_eq!(ConnectionStatus::ConnectingMonitor.color(), ExplorerColors::WARNING);
    assert_eq!(channels(ExplorerColors::PRIMARY), (0, 122, 255, 255));
    assert_eq!(channels(ExplorerColors::SEPARATOR), (0, 0, 0, 26));
}

#[test]
fn message_with_filename() {
    let msg = m("k").with_filename(Some("a.txt".into()));
    assert_eq!(msg.filename.as_deref(), Some("a.txt"));
    assert!(msg.size_bytes >= 24);
    assert_eq!(msg.payload_bytes, Some(vec![1]));
}

#[test]
fn queryable_patterns_match_whole_segments() {
    let mut kv = LocalKvStore::new();
    for k in ["demo/a", "demonstration/b", "demo", "telemetry/host1/cpu", "telemetry/cpu", "telemetry/a/b/cpu", "sensor/1/temperature"] {
        kv.insert(k.into(), "v".into(), "text/plain".into());
    }
    let keys = |p: &str| -> Vec<String> { kv.answer(p).into_iter().map(|e| e.0).collect() };
    assert_eq!(keys("demo/**"), vec!["demo/a", "demo"]);
    assert_eq!(keys("telemetry/**/cpu"), vec!["telemetry/host1/cpu", "telemetry/cpu", "telemetry/a/b/cpu"]);
    assert_eq!(keys("sensor/*/temperature"), vec!["sensor/1/temperature"]);
    assert_eq!(keys("*/a"), vec!["demo/a"]);
    assert!(keys("demo/*/a").is_empty());
}

#[test]
fn batcher_routes_events() {
    let mut b = MessageBatcher::new();
    for i in 0..49 {
        assert!(b.route(ZenohEvent::MessageReceived(m(&format!("k{}", i)))).is_empty());
    }
    let out = b.route(ZenohEvent::MessageReceived(m("k49")));
    assert_eq!(out.len(), 1);
    assert!(matches!(&out[0], ZenohEvent::MessageBatch(v) if v.len() == 50 && v[49].key == "k49"));
    assert!(b.pending.is_empty());
    assert!(matches!(b.route(ZenohEvent::Pong)[..], [ZenohEvent::Pong]));
    b.route(ZenohEvent::MessageReceived(m("a")));
    let out = b.route(ZenohEvent::Disconnected);
    assert_eq!(out.len(), 2);
    assert!(matches!(&out[0], ZenohEvent::MessageBatch(v) if v.len() == 1 && v[0].key == "a"));
    assert!(matches!(out[1], ZenohEvent::Disconnected));
}

#[test]
fn session_settings_and_fixed_expressions() {
    let p = publishing_session_settings();
    assert_eq!(p.max_message_size, 100 * 1024 * 1024 * 1024);
    assert_eq!(p.rx_buffer_size, 16 * 1024 * 1024);
    assert_eq!(p.tx_queue_size, Some(16));
    assert_eq!(p.tx_batching, Some(false));
    assert_eq!(p.block_wait_before_close, Some(300_000_000));
    let m = monitor_session_settings();
    assert_eq!(m.max_message_size, 100 * 1024 * 1024 * 1024);
    assert_eq!(m.rx_buffer_size, 16 * 1024 * 1024);
    assert_eq!((m.tx_queue_size, m.tx_batching, m.block_wait_before_close), (None, None, None));
    assert_eq!(monitor_key_expr(), "**");
    assert_eq!(multicast_scouting_address(), "224.0.0.224:7446");
}
