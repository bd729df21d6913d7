use realtime_state::tracker::{diff_paths, pattern_to_text, unique_pattern_texts, SubscriptionTracker};

fn strings(items: &[&str]) -> Vec<String> {
    items.iter().map(|s| s.to_string()).collect()
}

fn sorted(mut v: Vec<String>) -> Vec<String> {
    v.sort();
    v
}

#[test]
fn subscribers_are_reached_at_and_below_their_keypath() {
    let mut tracker = SubscriptionTracker::new();
    tracker.set_subscribed(true, strings(&["eric"]), "s".to_string(), "zed".to_string());
    tracker.set_subscribed(true, strings(&["eric/games"]), "s".to_string(), "amy".to_string());
    tracker.set_subscribed(true, strings(&["eric/games/active"]), "s".to_string(), "bob".to_string());
    tracker.set_subscribed(true, strings(&["eric/games/active"]), "s".to_string(), "amy".to_string());
    assert_eq!(
        tracker.clients_for_keypath("/state/s/keypath/eric/games/active".to_string()),
        vec!["amy", "bob", "zed"]
    );
    assert_eq!(
        tracker.clients_for_keypath("/state/s/keypath/eric/games/active/deeper".to_string()),
        vec!["amy", "bob", "zed"]
    );
    assert_eq!(tracker.clients_for_keypath("/state/s/keypath/eric".to_string()), vec!["zed"]);
    assert!(tracker.clients_for_keypath("/state/other/keypath/eric".to_string()).is_empty());
}

#[test]
fn unsubscribing_and_deleting() {
    let mut tracker = SubscriptionTracker::new();
    tracker.set_subscribed(true, strings(&["a", "b"]), "s".to_string(), "c1".to_string());
    tracker.set_subscribed(true, strings(&["a"]), "s".to_string(), "c2".to_string());
    tracker.set_subscribed(false, strings(&["a"]), "s".to_string(), "c1".to_string());
    assert_eq!(tracker.clients_for_keypath("/state/s/keypath/a".to_string()), vec!["c2"]);
    assert_eq!(tracker.clients_for_keypath("/state/s/keypath/b".to_string()), vec!["c1"]);
    tracker.delete_client("c2".to_string());
    assert!(tracker.clients_for_keypath("/state/s/keypath/a".to_string()).is_empty());
    tracker.delete_client("c1".to_string());
    assert!(tracker.clients_for_keypath("/state/s/keypath/b".to_string()).is_empty());
}

#[test]
fn bubble_down_lists_descendants() {
    let mut tracker = SubscriptionTracker::new();
    tracker.set_subscribed(true, strings(&["a/b", "a/b/c"]), "s".to_string(), "c1".to_string());
    let mut found = tracker.clients_for_bubble_down("state/s/keypath/a".to_string());
    found.sort();
    assert_eq!(
        found,
        vec![
            ("c1".to_string(), strings(&["b"])),
            ("c1".to_string(), strings(&["b", "c"])),
        ]
    );
    assert!(tracker.clients_for_bubble_down("state/s/keypath/zzz".to_string()).is_empty());
}

#[test]
fn dump_and_diff_keypaths() {
    let mut tracker = SubscriptionTracker::new();
    assert!(tracker.dump_keypaths().is_empty());
    tracker.set_subscribed(true, strings(&["a"]), "s".to_string(), "c1".to_string());
    assert_eq!(sorted(tracker.dump_keypaths()), strings(&["state/s/keypath/", "state/s/keypath/a/*"]));
    let diff = tracker.diff_keypaths();
    assert_eq!(sorted(diff.new_subscribed), strings(&["state/s/keypath/", "state/s/keypath/a/*"]));
    assert!(diff.unsubscribed.is_empty());
    let again = tracker.diff_keypaths();
    assert!(again.new_subscribed.is_empty());
    assert!(again.unsubscribed.is_empty());
    tracker.delete_client("c1".to_string());
    let after = tracker.diff_keypaths();
    assert!(after.new_subscribed.is_empty());
    assert_eq!(sorted(after.unsubscribed), strings(&["state/s/keypath/", "state/s/keypath/a/*"]));
}

#[test]
fn pattern_texts() {
    assert_eq!(pattern_to_text(&strings(&["state", "s", "*"])), "state/s/*");
    assert_eq!(pattern_to_text(&strings(&["state", "s"])), "state/s/");
    assert_eq!(pattern_to_text(&Vec::new()), "/");
    let patterns = vec![strings(&["a"]), strings(&["a"]), strings(&["b", "*"])];
    assert_eq!(unique_pattern_texts(&patterns), strings(&["a/", "b/*"]));
}

#[test]
fn diff_of_lists() {
    let diff = diff_paths(&strings(&["x", "y"]), &strings(&["y", "z"]));
    assert_eq!(diff.new_subscribed, strings(&["z"]));
    assert_eq!(diff.unsubscribed, strings(&["x"]));
}

#[test]
fn every_subscribed_keypath_is_listened_on() {
    let mut tracker = SubscriptionTracker::new();
    tracker.set_subscribed(true, strings(&["a/x"]), "s".to_string(), "c1".to_string());
    tracker.set_subscribed(true, strings(&["b/y"]), "s".to_string(), "c2".to_string());
    let keys = sorted(tracker.dump_keypaths());
    assert!(keys.contains(&"state/s/keypath/a/x/*".to_string()));
    assert!(keys.contains(&"state/s/keypath/b/y/*".to_string()));
    assert_eq!(
        keys,
        strings(&[
            "state/s/keypath/",
            "state/s/keypath/a/",
            "state/s/keypath/a/x/*",
            "state/s/keypath/b/",
            "state/s/keypath/b/y/*",
        ])
    );
    tracker.diff_keypaths();
    let again = tracker.diff_keypaths();
    assert!(again.new_subscribed.is_empty());
    assert!(again.unsubscribed.is_empty());
}

#[test]
fn subscribe_then_unsubscribe_a_list_restores_clients() {
    let mut tracker = SubscriptionTracker::new();
    tracker.set_subscribed(true, strings(&["a"]), "s".to_string(), "other".to_string());
    tracker.set_subscribed(true, strings(&["a", "b/c"]), "s".to_string(), "me".to_string());
    assert_eq!(tracker.clients_for_keypath("/state/s/keypath/a".to_string()), vec!["me", "other"]);
    tracker.set_subscribed(false, strings(&["a", "b/c"]), "s".to_string(), "me".to_string());
    assert_eq!(tracker.clients_for_keypath("/state/s/keypath/a".to_string()), vec!["other"]);
    assert!(tracker.clients_for_keypath("/state/s/keypath/b/c".to_string()).is_empty());
}
