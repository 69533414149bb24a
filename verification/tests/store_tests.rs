use fluxdb::event::{Document, Event};
use fluxdb::json::{Number, Value};
use fluxdb::kv::Store;

fn num(n: u64) -> Value {
    Value::Number(Number::PosInt(n))
}

fn text(s: &str) -> Value {
    Value::String(s.to_string())
}

fn obj(members: Vec<(&str, Value)>) -> Value {
    Value::Object(members.into_iter().map(|(k, v)| (k.to_string(), v)).collect())
}

#[test]
fn new_store_is_empty() {
    let store = Store::new();
    assert_eq!(store.len(), 0);
    assert!(store.get("x").is_none());
    assert!(store.entries().is_empty());
}

#[test]
fn write_read_round_trip() {
    let mut store = Store::new();
    let event = store.put("x".to_string(), obj(vec![("a", num(1))]));
    assert_eq!(
        event,
        Event { key: "x".to_string(), old: Value::Null, new: obj(vec![("a", num(1))]), version: 1 }
    );
    // Deriving an event changes nothing.
    assert!(store.get("x").is_none());
    store.apply_event(event);
    assert_eq!(
        store.get("x"),
        Some(&Document { value: obj(vec![("a", num(1))]), version: 1 })
    );
}

#[test]
fn patch_deep_merge() {
    let mut store = Store::new();
    let set = store.put(
        "u".to_string(),
        obj(vec![("name", text("V")), ("details", obj(vec![("age", num(20)), ("city", text("D"))]))]),
    );
    store.apply_event(set);
    let patch = store.patch("u", obj(vec![("details", obj(vec![("age", num(21))]))]));
    assert_eq!(patch.version, 2);
    assert_eq!(
        patch.old,
        obj(vec![("name", text("V")), ("details", obj(vec![("age", num(20)), ("city", text("D"))]))])
    );
    store.apply_event(patch);
    assert_eq!(
        store.get("u"),
        Some(&Document {
            value: obj(vec![
                ("name", text("V")),
                ("details", obj(vec![("age", num(21)), ("city", text("D"))])),
            ]),
            version: 2,
        })
    );
}

#[test]
fn delete_then_set_again() {
    let mut store = Store::new();
    let set = store.put("k".to_string(), num(1));
    assert_eq!(set.version, 1);
    store.apply_event(set);
    let del = store.delete("k");
    assert_eq!(del, Event { key: "k".to_string(), old: num(1), new: Value::Null, version: 2 });
    store.apply_event(del);
    assert!(store.get("k").is_none());
    // The key is absent again, so its versions start over.
    let again = store.put("k".to_string(), num(2));
    assert_eq!(again, Event { key: "k".to_string(), old: Value::Null, new: num(2), version: 1 });
    store.apply_event(again);
    assert_eq!(store.get("k"), Some(&Document { value: num(2), version: 1 }));
}

#[test]
fn versions_count_up_per_key() {
    let mut store = Store::new();
    for expected in 1..=5u64 {
        let a = store.put("a".to_string(), num(expected));
        assert_eq!(a.version, expected);
        store.apply_event(a);
        if expected % 2 == 0 {
            let b = store.patch("b", obj(vec![("n", num(expected))]));
            assert_eq!(b.version, expected / 2);
            store.apply_event(b);
        }
    }
    assert_eq!(store.get("a").unwrap().version, 5);
    assert_eq!(store.get("b").unwrap().version, 2);
}

#[test]
fn delete_of_absent_key_has_version_one() {
    let store = Store::new();
    let del = store.delete("ghost");
    assert_eq!(del, Event { key: "ghost".to_string(), old: Value::Null, new: Value::Null, version: 1 });
}

#[test]
fn patch_of_absent_key_merges_into_null() {
    let store = Store::new();
    let patch = store.patch("p", obj(vec![("a", num(1))]));
    assert_eq!(
        patch,
        Event { key: "p".to_string(), old: Value::Null, new: obj(vec![("a", num(1))]), version: 1 }
    );
}

#[test]
fn patch_with_scalar_overwrites() {
    let mut store = Store::new();
    store.apply_event(store.put("s".to_string(), obj(vec![("a", num(1))])));
    let patch = store.patch("s", num(9));
    assert_eq!(patch.new, num(9));
    assert_eq!(patch.version, 2);
}

#[test]
fn two_patches_compose() {
    let mut store = Store::new();
    store.apply_event(store.put("k".to_string(), obj(vec![("a", num(1))])));
    store.apply_event(store.patch("k", obj(vec![("b", num(2))])));
    store.apply_event(store.patch("k", obj(vec![("a", num(3)), ("c", num(4))])));
    assert_eq!(
        store.get("k"),
        Some(&Document { value: obj(vec![("a", num(3)), ("b", num(2)), ("c", num(4))]), version: 3 })
    );
}

#[test]
fn apply_event_with_null_removes_key() {
    let mut store = Store::new();
    store.apply_event(Event { key: "a".to_string(), old: Value::Null, new: num(1), version: 1 });
    store.apply_event(Event { key: "b".to_string(), old: Value::Null, new: num(2), version: 1 });
    store.apply_event(Event { key: "a".to_string(), old: num(1), new: Value::Null, version: 2 });
    assert!(store.get("a").is_none());
    assert_eq!(store.get("b"), Some(&Document { value: num(2), version: 1 }));
    assert_eq!(store.len(), 1);
}

#[test]
fn apply_event_takes_the_events_version() {
    let mut store = Store::new();
    store.apply_event(Event { key: "a".to_string(), old: Value::Null, new: num(1), version: 41 });
    assert_eq!(store.get("a"), Some(&Document { value: num(1), version: 41 }));
    let next = store.put("a".to_string(), num(2));
    assert_eq!(next.version, 42);
}

#[test]
fn removing_an_absent_key_changes_nothing() {
    let mut store = Store::new();
    store.apply_event(Event { key: "a".to_string(), old: Value::Null, new: num(1), version: 1 });
    store.apply_event(Event { key: "z".to_string(), old: Value::Null, new: Value::Null, version: 1 });
    assert_eq!(store.len(), 1);
    assert_eq!(store.get("a"), Some(&Document { value: num(1), version: 1 }));
}

#[test]
fn has_room_until_the_last_version() {
    let mut store = Store::new();
    assert!(store.has_room("a"));
    store.apply_event(Event { key: "a".to_string(), old: Value::Null, new: num(1), version: u64::MAX - 1 });
    assert!(store.has_room("a"));
    let last = store.put("a".to_string(), num(2));
    assert_eq!(last.version, u64::MAX);
    store.apply_event(last);
    assert!(!store.has_room("a"));
    assert!(store.has_room("b"));
}

#[test]
fn from_entries_keeps_last_entry_of_a_key() {
    let store = Store::from_entries(vec![
        ("a".to_string(), Document { value: num(1), version: 1 }),
        ("b".to_string(), Document { value: num(2), version: 7 }),
        ("a".to_string(), Document { value: num(3), version: 4 }),
    ]);
    assert_eq!(store.len(), 2);
    assert_eq!(store.get("a"), Some(&Document { value: num(3), version: 4 }));
    assert_eq!(store.get("b"), Some(&Document { value: num(2), version: 7 }));
}

#[test]
fn entries_list_every_key_once() {
    let mut store = Store::new();
    store.apply_event(store.put("a".to_string(), num(1)));
    store.apply_event(store.put("b".to_string(), num(2)));
    store.apply_event(store.put("a".to_string(), num(3)));
    let mut keys: Vec<String> = store.entries().iter().map(|(k, _)| k.clone()).collect();
    keys.sort();
    assert_eq!(keys, vec!["a".to_string(), "b".to_string()]);
}

#[test]
fn clone_is_independent() {
    let mut store = Store::new();
    store.apply_event(store.put("a".to_string(), num(1)));
    let copy = store.clone();
    store.apply_event(store.put("a".to_string(), num(2)));
    assert_eq!(copy.get("a"), Some(&Document { value: num(1), version: 1 }));
    assert_eq!(store.get("a"), Some(&Document { value: num(2), version: 2 }));
}

#[test]
fn keys_are_compared_exactly() {
    let mut store = Store::new();
    store.apply_event(store.put("key".to_string(), num(1)));
    assert!(store.get("Key").is_none());
    assert!(store.get("key ").is_none());
    assert!(store.get("").is_none());
    assert!(store.get("key").is_some());
}
