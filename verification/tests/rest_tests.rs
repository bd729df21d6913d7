use realtime_state::rest::{
    after_publish, after_store, preflight_headers, publish_channel, request_claims, response_cors,
    split_on, starts_with_text, stored_json_or_null, subpath_to_key_path, ApiResponse, Claims, OverwritePlan,
    PathPart, ResponseBody, StoreOutcome, overwrite_plan,
};

fn s(x: &str) -> String {
    x.to_string()
}

fn error_of(r: &ApiResponse) -> Option<&str> {
    match &r.body {
        ResponseBody::Error(e) => Some(e.as_str()),
        ResponseBody::Raw(_) => None,
    }
}

fn raw_of(r: &ApiResponse) -> Option<&str> {
    match &r.body {
        ResponseBody::Raw(t) => Some(t.as_str()),
        ResponseBody::Error(_) => None,
    }
}

#[test]
fn key_paths_of_request_paths() {
    let parts = vec![PathPart::Root, PathPart::Named(s("a")), PathPart::Named(s("b"))];
    assert_eq!(subpath_to_key_path(&parts), "a.b");
    assert_eq!(subpath_to_key_path(&vec![PathPart::Root]), ".");
    assert_eq!(subpath_to_key_path(&vec![]), ".");
}

#[test]
fn channels_and_stored_documents() {
    assert_eq!(publish_channel(&s("s1"), &s("a/b")), "state/s1/keypath/a/b/");
    assert_eq!(stored_json_or_null(Some(s("{}"))), "{}");
    assert_eq!(stored_json_or_null(None), "null");
}

#[test]
fn claims_of_requests() {
    let missing = request_claims(None).err().unwrap();
    assert_eq!(missing.status, 401);
    assert_eq!(error_of(&missing), Some("Your token is missing."));
    let invalid = request_claims(Some(None)).err().unwrap();
    assert_eq!(invalid.status, 401);
    assert_eq!(error_of(&invalid), Some("That token is invalid."));
    let ok = request_claims(Some(Some(Claims { root: true, states: vec![] }))).ok().unwrap();
    assert!(ok.root);
}

#[test]
fn splitting_keeps_empty_pieces() {
    assert_eq!(split_on("a.b.c", '.'), vec![s("a"), s("b"), s("c")]);
    assert_eq!(split_on(".", '.'), vec![s(""), s("")]);
    assert_eq!(split_on("", '.'), vec![s("")]);
}

#[test]
fn overwrite_plans() {
    let root = Claims { root: true, states: vec![] };
    let naming = Claims { root: true, states: vec![s("s1")] };
    let plain = Claims { root: false, states: vec![] };
    for refused in [&naming, &plain] {
        let r = overwrite_plan(refused, &s("s1"), &s("a.b"), None, None).err().unwrap();
        assert_eq!(r.status, 403);
        assert_eq!(error_of(&r), Some("You are not entitled to this state."));
    }
    let plan: OverwritePlan = overwrite_plan(&root, &s("s1"), &s("a.b"), None, Some(1)).ok().unwrap();
    assert!(plan.ensure_state);
    assert_eq!(plan.ensure_paths, vec![(s("a"), s("a")), (s("a.b"), s("a/b"))]);
    let plain_plan = overwrite_plan(&root, &s("s1"), &s("a.b"), Some(0), Some(2)).ok().unwrap();
    assert!(!plain_plan.ensure_state);
    assert!(plain_plan.ensure_paths.is_empty());
}

#[test]
fn answers_to_writes() {
    assert!(starts_with_text("missing key x", "missing key"));
    assert!(!starts_with_text("miss", "missing key"));
    match after_store(&s("{}"), true, Err(Some(s("whatever")))) {
        StoreOutcome::Respond(r) => {
            assert_eq!(r.status, 200);
            assert_eq!(raw_of(&r), Some("{}"));
        }
        StoreOutcome::Publish => panic!("gap fills are not published"),
    }
    assert!(matches!(after_store(&s("{}"), false, Ok(())), StoreOutcome::Publish));
    match after_store(&s("{}"), false, Err(Some(s("missing key at a")))) {
        StoreOutcome::Respond(r) => {
            assert_eq!(r.status, 404);
            assert_eq!(error_of(&r), Some("missing key at a"));
        }
        _ => panic!("expected an answer"),
    }
    match after_store(&s("{}"), false, Err(Some(s("invalid key x")))) {
        StoreOutcome::Respond(r) => assert_eq!(r.status, 400),
        _ => panic!("expected an answer"),
    }
    match after_store(&s("{}"), false, Err(None)) {
        StoreOutcome::Respond(r) => {
            assert_eq!(r.status, 200);
            assert_eq!(raw_of(&r), Some("null"));
        }
        _ => panic!("expected an answer"),
    }
    let published = after_publish(&s("{\"a\":1}"), Ok(()));
    assert_eq!(published.status, 200);
    assert_eq!(raw_of(&published), Some("{\"a\":1}"));
    let failed = after_publish(&s("{}"), Err(None));
    assert_eq!(failed.status, 500);
    assert_eq!(error_of(&failed), Some("Failed to publish to redis"));
    let detailed = after_publish(&s("{}"), Err(Some(s("down"))));
    assert_eq!(error_of(&detailed), Some("down"));
}

#[test]
fn cors_headers() {
    let (headers, plain) = response_cors(true, false);
    assert!(plain);
    assert_eq!(headers.len(), 4);
    assert_eq!(headers[0], (s("Access-Control-Allow-Origin"), s("*")));
    let (none, plain2) = response_cors(false, false);
    assert!(none.is_empty());
    assert!(!plain2);
    let (json_headers, _) = response_cors(false, true);
    assert_eq!(json_headers[3], (s("Access-Control-Allow-Credentials"), s("true")));
    let pre = preflight_headers(Some(s("https://x")));
    assert_eq!(pre.len(), 6);
    assert_eq!(pre[0], (s("Access-Control-Allow-Origin"), s("https://x")));
    assert_eq!(pre[4], (s("Access-Control-Max-Age"), s("86400")));
    assert_eq!(preflight_headers(None)[0].1, "*");
}
