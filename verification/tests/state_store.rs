use rsk::state_server::{bool_json, StateRequest, StateResponse, StateStore};

fn s(x: &str) -> String {
    x.to_string()
}

#[test]
fn store_get_after_put() {
    let mut store = StateStore::new();
    assert_eq!(store.get("k"), None);
    store.put(s("k"), s("{\"a\":1}"));
    assert_eq!(store.get("k"), Some(s("{\"a\":1}")));
    store.put(s("k"), s("2"));
    assert_eq!(store.get("k"), Some(s("2")));
    assert_eq!(store.get("other"), None);
}

#[test]
fn store_delete_reports_presence() {
    let mut store = StateStore::default();
    store.put(s("a"), s("true"));
    assert!(store.delete("a"));
    assert!(!store.delete("a"));
    assert_eq!(store.get("a"), None);
}

#[test]
fn store_lists_each_key_once() {
    let mut store = StateStore::new();
    store.put(s("x"), s("1"));
    store.put(s("y"), s("2"));
    store.put(s("x"), s("3"));
    let mut keys = store.list_keys();
    keys.sort();
    assert_eq!(keys, vec![s("x"), s("y")]);
}

#[test]
fn store_stats_count_bytes() {
    let mut store = StateStore::new();
    assert_eq!(store.stats(), (0, 0));
    store.put(s("ab"), s("\"x\""));
    store.put(s("é"), s("null"));
    // "ab" + "\"x\"" = 2 + 3, "é" + "null" = 2 + 4
    assert_eq!(store.stats(), (2, 11));
}

#[test]
fn store_handles_protocol_requests() {
    let mut store = StateStore::new();
    let r = store.handle(StateRequest::Put { key: s("k"), value: s("[1,2]") });
    assert!(matches!(r, Some(StateResponse::Done { value: None })));
    match store.handle(StateRequest::Get { key: s("k") }) {
        Some(StateResponse::Done { value }) => assert_eq!(value, Some(s("[1,2]"))),
        _ => panic!("expected a value"),
    }
    match store.handle(StateRequest::ListKeys) {
        Some(StateResponse::Keys { keys }) => assert_eq!(keys, vec![s("k")]),
        _ => panic!("expected keys"),
    }
    match store.handle(StateRequest::Stats) {
        Some(StateResponse::Stats { count, memory_estimate }) => {
            assert_eq!(count, 1);
            assert_eq!(memory_estimate, 6);
        }
        _ => panic!("expected stats"),
    }
    match store.handle(StateRequest::Delete { key: s("k") }) {
        Some(StateResponse::Done { value }) => assert_eq!(value, Some(s("true"))),
        _ => panic!("expected a deletion answer"),
    }
    match store.handle(StateRequest::Delete { key: s("k") }) {
        Some(StateResponse::Done { value }) => assert_eq!(value, Some(s("false"))),
        _ => panic!("expected a deletion answer"),
    }
    assert!(store.handle(StateRequest::Shutdown).is_none());
}

#[test]
fn bool_json_texts() {
    assert_eq!(bool_json(true), "true");
    assert_eq!(bool_json(false), "false");
}
