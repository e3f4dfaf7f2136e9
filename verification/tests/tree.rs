use zenoh_explorer::explorer::BrowseTree;
use zenoh_explorer::tree::{
    has_matching_descendant, node_full_path, split_path, tree_node_visible,
};
use zenoh_explorer::types::ZenohNode;

fn keys(n: &ZenohNode) -> Vec<String> {
    n.children.iter().map(|c| c.key.clone()).collect()
}

#[test]
fn split_path_drops_empty_segments() {
    assert_eq!(split_path("a/b/c"), vec!["a", "b", "c"]);
    assert_eq!(split_path("/a//b/"), vec!["a", "b"]);
    assert!(split_path("").is_empty());
    assert!(split_path("///").is_empty());
}

#[test]
fn insert_path_creates_nodes_in_key_order() {
    let mut tree = BrowseTree::new();
    tree.insert_path("demo/b", "1".into(), "text/plain".into(), false);
    tree.insert_path("demo/a", "2".into(), "text/plain".into(), true);
    tree.insert_path("alpha", "3".into(), "json".into(), false);
    let root = tree.root();
    assert_eq!(keys(root), vec!["alpha", "demo"]);
    let demo = root.find_node("demo").unwrap();
    assert_eq!(keys(demo), vec!["a", "b"]);
    assert_eq!(demo.message_count, 0);
    let a = root.find_node("demo/a").unwrap();
    assert_eq!(a.message_count, 1);
    assert_eq!(a.last_payload.as_deref(), Some("2"));
    assert!(a.is_local);
    assert!(root.find_node("demo/c").is_none());
}

#[test]
fn repeated_messages_count_and_keep_local_mark() {
    let mut tree = BrowseTree::new();
    tree.insert_path("t", "1".into(), "e".into(), true);
    tree.insert_path("t", "2".into(), "f".into(), false);
    let t = tree.root().find_node("/t/").unwrap();
    assert_eq!(t.message_count, 2);
    assert_eq!(t.last_payload.as_deref(), Some("2"));
    assert_eq!(t.last_encoding.as_deref(), Some("f"));
    assert!(t.is_local);
    assert_eq!(tree.root().children.len(), 1);
}

#[test]
fn empty_key_updates_root() {
    let mut tree = BrowseTree::new();
    tree.insert_path("", "p".into(), "e".into(), false);
    assert_eq!(tree.root().message_count, 1);
    assert_eq!(tree.root().key, "root");
}

#[test]
fn filter_matches_paths_below() {
    let mut tree = BrowseTree::new();
    tree.insert_path("sensors/room1/temp", "1".into(), "e".into(), false);
    tree.insert_path("sensors/room2/hum", "1".into(), "e".into(), false);
    let sensors = tree.root().find_node("sensors").unwrap();
    assert!(has_matching_descendant(sensors, "temp", "sensors"));
    assert!(has_matching_descendant(sensors, "sens", "sensors"));
    assert!(!has_matching_descendant(sensors, "pressure", "sensors"));
    let room2 = tree.root().find_node("sensors/room2").unwrap();
    assert!(!has_matching_descendant(room2, "temp", "sensors/room2"));
    assert!(tree_node_visible(room2, "", "sensors/room2"));
    assert!(!tree_node_visible(room2, "temp", "sensors/room2"));
}

#[test]
fn tree_filter_ignores_case() {
    let mut tree = BrowseTree::new();
    tree.insert_path("Sensors/Room1/Temp", "1".into(), "e".into(), false);
    let sensors = tree.root().find_node("Sensors").unwrap();
    assert!(tree_node_visible(sensors, "TEMP", "Sensors"));
    assert!(tree_node_visible(sensors, "room1/t", "Sensors"));
    assert!(!tree_node_visible(sensors, "hum", "Sensors"));
    assert!(has_matching_descendant(sensors, "temp", "Sensors"));
    assert!(has_matching_descendant(sensors, "sensors/ROOM1", "Sensors"));
    assert!(!has_matching_descendant(sensors, "hum", "Sensors"));
}

#[test]
fn full_paths_join_with_slash() {
    assert_eq!(node_full_path("", "a"), "a");
    assert_eq!(node_full_path("a/b", "c"), "a/b/c");
}

#[test]
fn node_update_data_counts() {
    let mut n = ZenohNode::new("k".into());
    assert_eq!(n.message_count, 0);
    n.update_data("p".into(), "e".into(), false);
    n.update_data("q".into(), "e".into(), true);
    n.update_data("r".into(), "e".into(), false);
    assert_eq!(n.message_count, 3);
    assert_eq!(n.last_payload.as_deref(), Some("r"));
    assert!(n.is_local);
}

#[test]
fn node_update_notes_when_last_seen() {
    let mut n = ZenohNode::new("k".into());
    let t = std::time::Instant::now() + std::time::Duration::from_secs(5);
    n.update_data_at("p".into(), "e".into(), true, t);
    assert_eq!(n.last_seen, t);
    assert_eq!(n.message_count, 1);
    assert_eq!(n.last_encoding.as_deref(), Some("e"));
    assert!(n.is_local);
    n.update_data_at("q".into(), "e".into(), false, t);
    assert!(n.is_local);
}
