use realtime_state::gateway::{client_message_action, publication_updates, ClientAction, Publication};
use realtime_state::json::{message_object, message_value, JsonValue};

fn s(x: &str) -> String {
    x.to_string()
}

fn sent(p: Publication) -> Vec<(String, String)> {
    match p {
        Publication::Send(m) => m,
        Publication::Dropped => panic!("dropped"),
        Publication::Broken => panic!("broken"),
    }
}

#[test]
fn client_messages_read_from_text() {
    assert!(matches!(client_message_action(&s("{\"o\":0}")), Some(ClientAction::Pong)));
    match client_message_action(&s("{\"o\":2,\"d\":[\"a\",\"b\",3]}")) {
        Some(ClientAction::Track { subscribed, keypaths }) => {
            assert!(subscribed);
            assert_eq!(keypaths, Some(vec![s("a"), s("b")]));
        }
        _ => panic!("expected a subscription"),
    }
    match client_message_action(&s("{\"o\":3,\"d\":\"x\"}")) {
        Some(ClientAction::Track { subscribed, keypaths }) => {
            assert!(!subscribed);
            assert_eq!(keypaths, None);
        }
        _ => panic!("expected an unsubscription"),
    }
    assert!(matches!(client_message_action(&s("{\"o\":7}")), Some(ClientAction::Close)));
    assert!(matches!(client_message_action(&s("{\"o\":\"x\"}")), Some(ClientAction::Close)));
    assert!(matches!(client_message_action(&s("[1,2]")), Some(ClientAction::Close)));
    assert!(matches!(client_message_action(&s("null")), Some(ClientAction::Close)));
    assert!(matches!(client_message_action(&s("not json")), Some(ClientAction::Close)));
    assert!(client_message_action(&s("{\"d\":[]}")).is_none());
    assert!(client_message_action(&s("{\"o\":2}")).is_none());
}

#[test]
fn message_texts_as_values() {
    match message_value(&s("{\"a\":[1,true,null,\"x\"]}")) {
        Some(JsonValue::Object(entries)) => {
            assert_eq!(entries.len(), 1);
            assert_eq!(entries[0].0, "a");
            match &entries[0].1 {
                JsonValue::Array(items) => {
                    assert_eq!(items.len(), 4);
                    assert!(matches!(&items[0], JsonValue::Number(n) if n.text == "1" && n.int == Some(1)));
                    assert!(matches!(&items[1], JsonValue::Bool(true)));
                    assert!(matches!(&items[2], JsonValue::Null));
                    assert!(matches!(&items[3], JsonValue::Str(x) if x == "x"));
                }
                _ => panic!("expected an array"),
            }
        }
        _ => panic!("expected an object"),
    }
    assert!(message_value(&s("null")).is_none());
    assert!(message_value(&s("{")).is_none());
    assert!(message_object(&s("[1]")).is_none());
    assert_eq!(message_object(&s("{}")).map(|e| e.len()), Some(0));
}

#[test]
fn publications_send_parts_as_json_text() {
    let out = sent(publication_updates(
        &s("state/s/keypath/a"),
        &s("{\"b\": {\"x\": 1.5, \"y\": [1, 2]}, \"c\": 2}"),
        &vec![s("c1")],
        &vec![(s("c2"), vec![s("b")]), (s("c3"), vec![s("b"), s("x")])],
    ));
    assert_eq!(
        out,
        vec![
            (s("c1"), s("{\"o\":4,\"p\":\"/a/\",\"d\":{\"b\": {\"x\": 1.5, \"y\": [1, 2]}, \"c\": 2}}")),
            (s("c2"), s("{\"o\":4,\"p\":\"/a/b\",\"d\":{\"x\":1.5,\"y\":[1,2]}}")),
            (s("c3"), s("{\"o\":4,\"p\":\"/a/b/x\",\"d\":1.5}")),
        ]
    );
}

#[test]
fn publications_that_cannot_be_followed() {
    let below = vec![(s("c2"), vec![s("b")])];
    assert!(matches!(publication_updates(&s("keypath/a"), &s("{oops"), &vec![s("c1")], &below), Publication::Dropped));
    assert!(matches!(publication_updates(&s("keypath/a"), &s("null"), &vec![], &below), Publication::Broken));
    assert!(matches!(publication_updates(&s("keypath/a"), &s("{\"z\":1}"), &vec![], &below), Publication::Broken));
    let only_observers = sent(publication_updates(&s("keypath/a"), &s("{oops"), &vec![s("c1")], &vec![]));
    assert_eq!(only_observers, vec![(s("c1"), s("{\"o\":4,\"p\":\"/a/\",\"d\":{oops}"))]);
    let scalar = sent(publication_updates(&s("keypath/a"), &s("3"), &vec![], &below));
    assert_eq!(scalar, vec![(s("c2"), s("{\"o\":4,\"p\":\"/a/b\",\"d\":null}"))]);
}
