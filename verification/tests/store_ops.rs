use rudis::store::Store;

#[test]
fn new_store_is_empty() {
    let store = Store::new();
    assert_eq!(store.get("key"), None);
    assert_eq!(store.get(""), None);
}

#[test]
fn set_then_get() {
    let mut store = Store::new();
    store.set("key".to_string(), "value".to_string());
    assert_eq!(store.get("key"), Some("value".to_string()));
    assert_eq!(store.get("other"), None);
}

#[test]
fn set_overwrites() {
    let mut store = Store::new();
    store.set("key".to_string(), "one".to_string());
    store.set("key".to_string(), "two".to_string());
    assert_eq!(store.get("key"), Some("two".to_string()));
}

#[test]
fn keys_are_case_sensitive() {
    let mut store = Store::new();
    store.set("Key".to_string(), "upper".to_string());
    store.set("key".to_string(), "lower".to_string());
    assert_eq!(store.get("Key"), Some("upper".to_string()));
    assert_eq!(store.get("key"), Some("lower".to_string()));
    assert_eq!(store.get("KEY"), None);
}

#[test]
fn delete_removes() {
    let mut store = Store::new();
    store.set("key".to_string(), "value".to_string());
    store.set("kept".to_string(), "still here".to_string());
    store.delete("key");
    assert_eq!(store.get("key"), None);
    assert_eq!(store.get("kept"), Some("still here".to_string()));
}

#[test]
fn delete_of_absent_key_does_nothing() {
    let mut store = Store::new();
    store.set("kept".to_string(), "value".to_string());
    store.delete("missing");
    assert_eq!(store.get("missing"), None);
    assert_eq!(store.get("kept"), Some("value".to_string()));
}

#[test]
fn empty_key_and_value_are_ordinary() {
    let mut store = Store::new();
    store.set(String::new(), String::new());
    assert_eq!(store.get(""), Some(String::new()));
    store.delete("");
    assert_eq!(store.get(""), None);
}

#[test]
fn last_of_many_writes_wins_in_every_order() {
    let values = ["one", "two", "three"];
    let orders = [[0, 1, 2], [0, 2, 1], [1, 0, 2], [1, 2, 0], [2, 0, 1], [2, 1, 0]];
    for order in orders {
        let mut store = Store::new();
        for index in order {
            store.set("key".to_string(), values[index].to_string());
        }
        assert_eq!(store.get("key"), Some(values[order[2]].to_string()));
    }
}
