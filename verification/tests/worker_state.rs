use zenoh_explorer::types::ZenohCommand;
use zenoh_explorer::worker::{WorkerAction, WorkerState};

fn connect(listen_port: &str) -> ZenohCommand {
    ZenohCommand::Connect {
        locators: String::new(),
        listen_port: listen_port.to_string(),
        mode: "peer".to_string(),
        config_json: "{}".to_string(),
    }
}

fn subscribe() -> ZenohCommand {
    ZenohCommand::Subscribe { key_expr: "demo/**".to_string(), reliability: "reliable".to_string(), mode: "push".to_string() }
}

fn unsubscribe(id: &str) -> ZenohCommand {
    ZenohCommand::Unsubscribe { subscription_id: id.to_string() }
}

fn publish() -> ZenohCommand {
    ZenohCommand::Publish {
        key: "demo/a".to_string(),
        payload: b"x".to_vec(),
        encoding: "text/plain".to_string(),
        from_import: false,
        filename: None,
    }
}

#[test]
fn connect_plans_the_monitor_port() {
    let mut w = WorkerState::new();
    assert_eq!(w.step(&connect("7447")), WorkerAction::Connect { monitor_port: Some(8447) });
    assert_eq!(w.step(&connect("7448")), WorkerAction::Connect { monitor_port: Some(8448) });
    assert_eq!(w.step(&connect("not a port")), WorkerAction::Connect { monitor_port: Some(8447) });
    assert_eq!(w.step(&connect("64535")), WorkerAction::Connect { monitor_port: Some(65535) });
    assert_eq!(w.step(&connect("64536")), WorkerAction::Connect { monitor_port: None });
    // Connecting alone opens nothing.
    assert!(!w.is_publishing());
}

#[test]
fn session_work_waits_for_the_publishing_session() {
    let mut w = WorkerState::new();
    assert_eq!(w.step(&subscribe()), WorkerAction::Ignore);
    assert_eq!(w.step(&publish()), WorkerAction::Ignore);
    assert_eq!(w.step(&ZenohCommand::Query { selector: "demo/**".to_string(), value: String::new(), timeout_ms: 10 }), WorkerAction::Ignore);
    assert_eq!(w.step(&ZenohCommand::EnableQueryable { key_expr: "**".to_string() }), WorkerAction::Ignore);
    w.publishing_opened(false);
    assert_eq!(w.step(&subscribe()), WorkerAction::Ignore);
    w.publishing_opened(true);
    assert!(w.is_publishing());
    assert_eq!(w.step(&subscribe()), WorkerAction::Subscribe);
    assert_eq!(w.step(&publish()), WorkerAction::Publish);
    assert_eq!(w.step(&ZenohCommand::Ping), WorkerAction::Pong);
}

#[test]
fn subscriptions_are_made_and_cancelled_by_identifier() {
    let mut w = WorkerState::new();
    w.publishing_opened(true);
    assert_eq!(w.subscribed(1700000000000), ("sub_1700000000000_0".to_string(), None));
    assert_eq!(w.subscribed(1700000000001), ("sub_1700000000001_1".to_string(), None));
    assert_eq!(w.subscription_count(), 2);
    assert_eq!(w.step(&unsubscribe("sub_1700000000000_0")), WorkerAction::CancelSubscription { index: 0 });
    assert_eq!(w.subscription_count(), 1);
    assert_eq!(w.step(&unsubscribe("sub_1700000000000_0")), WorkerAction::Ignore);
    assert_eq!(w.step(&unsubscribe("sub_1700000000001_1")), WorkerAction::CancelSubscription { index: 0 });
    assert_eq!(w.subscription_count(), 0);
}

#[test]
fn a_repeated_identifier_replaces_the_running_subscription() {
    let mut w = WorkerState::new();
    assert_eq!(w.subscribed(5), ("sub_5_0".to_string(), None));
    assert_eq!(w.subscribed(5), ("sub_5_1".to_string(), None));
    assert_eq!(w.step(&unsubscribe("sub_5_0")), WorkerAction::CancelSubscription { index: 0 });
    // One subscription runs, so the next identifier is sub_5_1 again.
    assert_eq!(w.subscribed(5), ("sub_5_1".to_string(), Some(0)));
    assert_eq!(w.subscription_count(), 1);
    assert_eq!(w.subscribed(-3), ("sub_-3_1".to_string(), None));
}

#[test]
fn disconnect_closes_everything_but_the_queryable() {
    let mut w = WorkerState::new();
    w.publishing_opened(true);
    w.monitor_opened(true);
    w.subscribed(1);
    assert_eq!(
        w.step(&ZenohCommand::EnableQueryable { key_expr: "**".to_string() }),
        WorkerAction::StartQueryable { stop_previous: false }
    );
    assert_eq!(w.step(&ZenohCommand::Disconnect), WorkerAction::CloseAll);
    assert!(!w.is_publishing());
    assert_eq!(w.subscription_count(), 0);
    assert_eq!(w.step(&subscribe()), WorkerAction::Ignore);
    assert_eq!(w.step(&unsubscribe("sub_1_0")), WorkerAction::Ignore);
    // The queryable keeps running until it is disabled.
    assert_eq!(w.step(&ZenohCommand::DisableQueryable), WorkerAction::StopQueryable);
    assert_eq!(w.step(&ZenohCommand::Disconnect), WorkerAction::CloseAll);
}

#[test]
fn queryable_restarts_and_stops_once() {
    let mut w = WorkerState::new();
    w.publishing_opened(true);
    let enable = ZenohCommand::EnableQueryable { key_expr: "demo/**".to_string() };
    assert_eq!(w.step(&enable), WorkerAction::StartQueryable { stop_previous: false });
    assert_eq!(w.step(&enable), WorkerAction::StartQueryable { stop_previous: true });
    assert_eq!(w.step(&ZenohCommand::DisableQueryable), WorkerAction::StopQueryable);
    assert_eq!(w.step(&ZenohCommand::DisableQueryable), WorkerAction::Ignore);
}
