use realtime_state::gateway::{
    bubble_updates, client_action, descend_keys, event_keypath, find_text, normalize_channel, ok_packet,
    pipe_packet, pong_packet, publication_messages, BubblePlan, ClientAction, Located, ParsedMessage,
};
use realtime_state::json::{as_i64, object_get, IntoStrVec, IntoStringVec, JsonNumber, JsonValue};

fn s(x: &str) -> String {
    x.to_string()
}

fn num(n: i64) -> JsonValue {
    JsonValue::Number(JsonNumber { text: n.to_string(), int: Some(n) })
}

fn payload(op: JsonValue, d: Option<JsonValue>) -> Vec<(String, JsonValue)> {
    let mut entries = vec![(s("o"), op)];
    if let Some(d) = d {
        entries.push((s("d"), d));
    }
    entries
}

#[test]
fn string_items_of_arrays() {
    let arr = JsonValue::Array(vec![JsonValue::Str(s("a")), num(3), JsonValue::Str(s("b")), JsonValue::Null]);
    assert_eq!(arr.into_str_vec(), Some(vec!["a", "b"]));
    assert_eq!(arr.into_string_vec(), Some(vec![s("a"), s("b")]));
    assert_eq!(JsonValue::Str(s("a")).into_string_vec(), None);
    assert_eq!(JsonValue::Null.into_str_vec(), None);
}

#[test]
fn object_lookup_and_numbers() {
    let entries = vec![(s("o"), num(2)), (s("d"), JsonValue::Bool(true))];
    assert!(matches!(object_get(&entries, "d"), Some(JsonValue::Bool(true))));
    assert!(object_get(&entries, "x").is_none());
    assert_eq!(as_i64(&num(-7)), Some(-7));
    let float = JsonValue::Number(JsonNumber { text: s("1.5"), int: None });
    assert_eq!(as_i64(&float), None);
    assert_eq!(as_i64(&JsonValue::Str(s("1"))), None);
}

#[test]
fn client_actions() {
    assert!(matches!(client_action(&payload(num(0), None)), ClientAction::Pong));
    match client_action(&payload(num(2), Some(JsonValue::Array(vec![JsonValue::Str(s("a/b"))])))) {
        ClientAction::Track { subscribed, keypaths } => {
            assert!(subscribed);
            assert_eq!(keypaths, Some(vec![s("a/b")]));
        }
        _ => panic!("expected a subscription"),
    }
    match client_action(&payload(num(3), Some(JsonValue::Null))) {
        ClientAction::Track { subscribed, keypaths } => {
            assert!(!subscribed);
            assert_eq!(keypaths, None);
        }
        _ => panic!("expected an unsubscription"),
    }
    assert!(matches!(client_action(&payload(num(9), None)), ClientAction::Close));
    assert!(matches!(client_action(&payload(JsonValue::Str(s("0")), None)), ClientAction::Close));
}

#[test]
fn fixed_packets() {
    assert_eq!(pong_packet(), "{\"o\":1}");
    assert_eq!(ok_packet(), "{\"o\":5}");
}

#[test]
fn channels_and_event_keypaths() {
    assert_eq!(event_keypath(&s("state/s/keypath/a/*")), "state/s/keypath/a/");
    assert_eq!(event_keypath(&s("")), "");
    assert_eq!(find_text("state/s/keypath/a", "keypath"), Some(8));
    assert_eq!(find_text("abc", "keypath"), None);
    assert_eq!(find_text("ab", ""), Some(0));
    assert_eq!(normalize_channel(&s("state/s/keypath/a/b/")), "/a/b/");
    assert_eq!(normalize_channel(&s("state/s/keypath/a/b")), "/a/b/");
    assert_eq!(normalize_channel(&s("plain")), "plain/");
}

#[test]
fn descending_into_documents() {
    let doc = JsonValue::Object(vec![(s("a"), JsonValue::Object(vec![(s("b"), num(1))])), (s("n"), num(2))]);
    match descend_keys(&doc, &vec![s("a"), s("b")]) {
        Some(Located::At(v)) => assert_eq!(as_i64(v), Some(1)),
        _ => panic!("expected a value"),
    }
    assert!(matches!(descend_keys(&doc, &vec![s("n"), s("x")]), Some(Located::Null)));
    assert!(descend_keys(&doc, &vec![s("zz")]).is_none());
}

#[test]
fn bubble_plans() {
    let doc = ParsedMessage::Value(JsonValue::Object(vec![(s("b"), num(1))]));
    let descendants = vec![(s("c1"), vec![]), (s("c2"), vec![s("b")])];
    match bubble_updates(&s("/a/"), &descendants, &doc) {
        BubblePlan::Updates(targets) => {
            assert_eq!(targets.len(), 1);
            assert_eq!(targets[0].client, "c2");
            assert_eq!(targets[0].update_path, "/a/b");
            match targets[0].value {
                Located::At(v) => assert_eq!(as_i64(v), Some(1)),
                Located::Null => panic!("expected a value"),
            }
        }
        _ => panic!("expected updates"),
    }
    assert!(matches!(bubble_updates(&s("/a/"), &descendants, &ParsedMessage::Invalid), BubblePlan::Abort));
    assert!(matches!(bubble_updates(&s("/a/"), &descendants, &ParsedMessage::Null), BubblePlan::Fail));
    let missing = vec![(s("c3"), vec![s("zz")])];
    assert!(matches!(bubble_updates(&s("/a/"), &missing, &doc), BubblePlan::Fail));
    match bubble_updates(&s("/a/"), &vec![(s("c1"), vec![])], &ParsedMessage::Invalid) {
        BubblePlan::Updates(targets) => assert!(targets.is_empty()),
        _ => panic!("nothing to send"),
    }
}

#[test]
fn grouping_packets_per_client() {
    let mut groups: Vec<(String, Vec<String>)> = Vec::new();
    pipe_packet(&mut groups, s("c1"), s("p1"));
    pipe_packet(&mut groups, s("c2"), s("p2"));
    pipe_packet(&mut groups, s("c1"), s("p3"));
    assert_eq!(groups, vec![(s("c1"), vec![s("p1"), s("p3")]), (s("c2"), vec![s("p2")])]);
}

#[test]
fn messages_of_a_publication() {
    let messages = publication_messages(
        &s("/a/"),
        &s("7"),
        &vec![s("c1"), s("c2")],
        &vec![(s("c1"), s("/a/b"), s("8"))],
    );
    assert_eq!(
        messages,
        vec![
            (s("c1"), s("{\"o\":6,\"d\":[{\"o\":4,\"p\":\"/a/\",\"d\":7},{\"o\":4,\"p\":\"/a/b\",\"d\":8}]}")),
            (s("c2"), s("{\"o\":4,\"p\":\"/a/\",\"d\":7}")),
        ]
    );
    assert!(publication_messages(&s("/a/"), &s("7"), &vec![], &vec![]).is_empty());
}
