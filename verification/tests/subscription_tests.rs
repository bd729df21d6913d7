use realtime_state::subscription::Subscription;

fn sorted(mut v: Vec<String>) -> Vec<String> {
    v.sort();
    v
}

#[test]
fn new_tree_has_only_root() {
    let tree = Subscription::new();
    assert_eq!(tree.node_count(), 1);
    assert!(tree.collect_observers(0).is_empty());
    let node = Subscription::new_unwrapped();
    assert!(node.parent.is_none());
    assert!(node.clients.is_empty());
    assert!(node.nodes.is_empty());
}

#[test]
fn get_subscription_creates_and_finds() {
    let mut tree = Subscription::new();
    assert_eq!(tree.get_subscription(0, "/eric/games", false), None);
    assert_eq!(tree.node_count(), 1);
    let games = tree.get_subscription(0, "/eric/games", true).unwrap();
    assert_eq!(tree.node_count(), 3);
    assert_eq!(tree.get_subscription(0, "eric//games/", false), Some(games));
    assert_eq!(tree.get_subscription(0, "/eric/games", true), Some(games));
    assert_eq!(tree.node_count(), 3);
    let eric = tree.get_subscription(0, "eric", false).unwrap();
    assert_eq!(tree.get_subscription(eric, "games", false), Some(games));
    assert_eq!(tree.get_subscription(games, "", false), Some(games));
    assert!(tree.descends_from(games, eric));
    assert!(tree.descends_from(games, 0));
    assert!(!tree.descends_from(eric, games));
}

#[test]
fn observers_bubble_up_to_ancestors() {
    let mut tree = Subscription::new();
    let eric = tree.get_subscription(0, "/eric", true).unwrap();
    let games = tree.get_subscription(0, "/eric/games", true).unwrap();
    let active = tree.get_subscription(0, "/eric/games/active", true).unwrap();
    tree.add_client(eric, "client1".to_string());
    tree.add_client(games, "client1".to_string());
    tree.add_client(active, "client2".to_string());
    let observers = sorted(tree.collect_observers(active));
    assert_eq!(observers, vec!["client1", "client1", "client2"]);
    assert_eq!(sorted(tree.collect_observers(games)), vec!["client1", "client1"]);
    tree.add_client(eric, "client1".to_string());
    assert_eq!(tree.collect_observers(eric), vec!["client1"]);
}

#[test]
fn removing_clients() {
    let mut tree = Subscription::new();
    let a = tree.get_subscription(0, "a", true).unwrap();
    let ab = tree.get_subscription(0, "a/b", true).unwrap();
    let c = tree.get_subscription(0, "c", true).unwrap();
    tree.add_client(a, "x".to_string());
    tree.add_client(ab, "x".to_string());
    tree.add_client(c, "x".to_string());
    tree.add_client(ab, "y".to_string());
    tree.remove_client(c, "x".to_string());
    assert!(tree.collect_observers(c).is_empty());
    tree.remove_client_recursive(a, &"x".to_string());
    assert_eq!(tree.collect_observers(ab), vec!["y"]);
    assert!(tree.collect_observers(a).is_empty());
}

#[test]
fn descendants_carry_relative_paths() {
    let mut tree = Subscription::new();
    let a = tree.get_subscription(0, "a", true).unwrap();
    let ab = tree.get_subscription(0, "a/b", true).unwrap();
    let abc = tree.get_subscription(0, "a/b/c", true).unwrap();
    tree.add_client(a, "top".to_string());
    tree.add_client(ab, "mid".to_string());
    tree.add_client(abc, "low".to_string());
    let mut found = tree.collect_descendants(a);
    found.sort();
    assert_eq!(
        found,
        vec![
            ("low".to_string(), vec!["b".to_string(), "c".to_string()]),
            ("mid".to_string(), vec!["b".to_string()]),
            ("top".to_string(), vec![]),
        ]
    );
}

#[test]
fn pubsub_patterns_mark_subscribed_children() {
    let mut tree = Subscription::new();
    let a = tree.get_subscription(0, "/state/s/keypath/a", true).unwrap();
    tree.add_client(a, "c1".to_string());
    let mut into: Vec<Vec<String>> = Vec::new();
    let had = tree.collect_pubsub_patterns(0, &mut into, Vec::new());
    assert!(had);
    assert_eq!(
        into,
        vec![vec!["state", "s", "keypath", "a", "*"], vec!["state", "s", "keypath"]]
    );

    let empty = Subscription::new();
    let mut none: Vec<Vec<String>> = Vec::new();
    assert!(!empty.collect_pubsub_patterns(0, &mut none, Vec::new()));
    assert!(none.is_empty());
}

#[test]
fn pubsub_patterns_mark_unsubscribed_keypath_nodes() {
    let mut tree = Subscription::new();
    let x = tree.get_subscription(0, "/state/s/keypath/a/x", true).unwrap();
    tree.add_client(x, "c1".to_string());
    let mut into: Vec<Vec<String>> = Vec::new();
    tree.collect_pubsub_patterns(0, &mut into, Vec::new());
    assert_eq!(
        into,
        vec![
            vec!["state", "s", "keypath", "a", "x", "*"],
            vec!["state", "s", "keypath", "a"],
            vec!["state", "s", "keypath"],
        ]
    );
}

#[test]
fn pubsub_patterns_search_every_child() {
    let mut tree = Subscription::new();
    tree.add_client(0, "c0".to_string());
    let c = tree.get_subscription(0, "b/c", true).unwrap();
    tree.add_client(c, "c2".to_string());
    let mut into: Vec<Vec<String>> = Vec::new();
    let had = tree.collect_pubsub_patterns(0, &mut into, Vec::new());
    assert!(had);
    assert_eq!(into, vec![vec!["b", "c", "*"]]);
}

#[test]
fn pubsub_patterns_cover_every_subscribed_keypath() {
    let mut tree = Subscription::new();
    let x = tree.get_subscription(0, "/state/s/keypath/a/x", true).unwrap();
    tree.add_client(x, "c1".to_string());
    let y = tree.get_subscription(0, "/state/s/keypath/b/y", true).unwrap();
    tree.add_client(y, "c2".to_string());
    let mut into: Vec<Vec<String>> = Vec::new();
    assert!(tree.collect_pubsub_patterns(0, &mut into, Vec::new()));
    into.sort();
    assert_eq!(
        into,
        vec![
            vec!["state", "s", "keypath"],
            vec!["state", "s", "keypath", "a"],
            vec!["state", "s", "keypath", "a", "x", "*"],
            vec!["state", "s", "keypath", "b"],
            vec!["state", "s", "keypath", "b", "y", "*"],
        ]
    );
}
