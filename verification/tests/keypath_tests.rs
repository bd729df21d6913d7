use realtime_state::keypath::{
    contains_string, dedup_sorted, formatted_absolute_keypath, join_strings, keypath_segments,
    make_bulk_update_packet, make_update_packet, IndexOf,
};

fn strings(items: &[&str]) -> Vec<String> {
    items.iter().map(|s| s.to_string()).collect()
}

#[test]
fn index_of_finds_first_character_position() {
    let mut s = String::from("eric/games/active");
    assert_eq!(s.index_of('/'), Some(4));
    assert_eq!(s, "eric/games/active");
    let mut none = String::from("eric");
    assert_eq!(none.index_of('/'), None);
    let mut wide = String::from("é/x");
    assert_eq!(wide.index_of('/'), Some(1));
}

#[test]
fn segments_skip_empty_pieces() {
    assert_eq!(keypath_segments("/eric/games/active"), strings(&["eric", "games", "active"]));
    assert_eq!(keypath_segments("a//b/"), strings(&["a", "b"]));
    assert_eq!(keypath_segments("///"), Vec::<String>::new());
    assert_eq!(keypath_segments(""), Vec::<String>::new());
    assert_eq!(keypath_segments("single"), strings(&["single"]));
}

#[test]
fn absolute_keypath_format() {
    assert_eq!(
        formatted_absolute_keypath("s1".to_string(), "a/b".to_string()),
        "/state/s1/keypath/a/b"
    );
}

#[test]
fn update_packets() {
    assert_eq!(
        make_update_packet("a/b/".to_string(), "{\"x\":1}".to_string()),
        "{\"o\":4,\"p\":\"a/b/\",\"d\":{\"x\":1}}"
    );
    assert_eq!(
        make_bulk_update_packet(strings(&["{\"o\":4}", "{\"o\":4,\"p\":\"x\"}"])),
        "{\"o\":6,\"d\":[{\"o\":4},{\"o\":4,\"p\":\"x\"}]}"
    );
    assert_eq!(make_bulk_update_packet(Vec::new()), "{\"o\":6,\"d\":[]}");
}

#[test]
fn joining_and_membership() {
    assert_eq!(join_strings(&strings(&["a", "b", "c"]), "/"), "a/b/c");
    assert_eq!(join_strings(&strings(&["a"]), "/"), "a");
    assert_eq!(join_strings(&Vec::new(), "/"), "");
    let items = strings(&["x", "keypath"]);
    assert!(contains_string(&items, &"keypath".to_string()));
    assert!(!contains_string(&items, &"key".to_string()));
}

#[test]
fn dedup_of_sorted_list() {
    let sorted = strings(&["a", "a", "b", "c", "c", "c"]);
    assert_eq!(dedup_sorted(&sorted), strings(&["a", "b", "c"]));
    assert_eq!(dedup_sorted(&Vec::new()), Vec::<String>::new());
}
