use fluxdb::json::{find_member, merge_json, Number, Value};

fn num(n: u64) -> Value {
    Value::Number(Number::PosInt(n))
}

fn text(s: &str) -> Value {
    Value::String(s.to_string())
}

fn obj(members: Vec<(&str, Value)>) -> Value {
    Value::Object(members.into_iter().map(|(k, v)| (k.to_string(), v)).collect())
}

#[test]
fn merge_objects_deeply() {
    let mut target = obj(vec![
        ("name", text("V")),
        ("details", obj(vec![("age", num(20)), ("city", text("D"))])),
    ]);
    let delta = obj(vec![("details", obj(vec![("age", num(21))]))]);
    merge_json(&mut target, &delta);
    assert_eq!(
        target,
        obj(vec![
            ("name", text("V")),
            ("details", obj(vec![("age", num(21)), ("city", text("D"))])),
        ])
    );
}

#[test]
fn merge_adds_missing_members_at_the_end() {
    let mut target = obj(vec![("a", num(1))]);
    let delta = obj(vec![("b", num(2)), ("a", num(3))]);
    merge_json(&mut target, &delta);
    assert_eq!(target, obj(vec![("a", num(3)), ("b", num(2))]));
}

#[test]
fn merge_builds_nested_objects_from_null() {
    let mut target = obj(vec![]);
    let delta = obj(vec![("x", obj(vec![("y", obj(vec![("z", Value::Bool(true))]))]))]);
    merge_json(&mut target, &delta);
    assert_eq!(target, delta);
}

#[test]
fn merge_overwrites_scalar_with_object() {
    let mut target = num(7);
    let delta = obj(vec![("a", num(1))]);
    merge_json(&mut target, &delta);
    assert_eq!(target, obj(vec![("a", num(1))]));
}

#[test]
fn merge_overwrites_object_with_scalar() {
    let mut target = obj(vec![("a", num(1))]);
    merge_json(&mut target, &text("flat"));
    assert_eq!(target, text("flat"));
}

#[test]
fn merge_replaces_arrays_whole() {
    let mut target = obj(vec![("list", Value::Array(vec![num(1), num(2), num(3)]))]);
    let delta = obj(vec![("list", Value::Array(vec![num(9)]))]);
    merge_json(&mut target, &delta);
    assert_eq!(target, obj(vec![("list", Value::Array(vec![num(9)]))]));
}

#[test]
fn merge_with_null_delta_gives_null() {
    let mut target = obj(vec![("a", num(1))]);
    merge_json(&mut target, &Value::Null);
    assert_eq!(target, Value::Null);
}

#[test]
fn merge_null_member_stays_as_member() {
    let mut target = obj(vec![("a", num(1)), ("b", num(2))]);
    let delta = obj(vec![("a", Value::Null)]);
    merge_json(&mut target, &delta);
    assert_eq!(target, obj(vec![("a", Value::Null), ("b", num(2))]));
}

#[test]
fn merge_empty_delta_object_changes_nothing() {
    let mut target = obj(vec![("a", num(1))]);
    merge_json(&mut target, &obj(vec![]));
    assert_eq!(target, obj(vec![("a", num(1))]));
}

#[test]
fn merge_composes_two_deltas() {
    let v = obj(vec![("k", obj(vec![("a", num(1))]))]);
    let d1 = obj(vec![("k", obj(vec![("b", num(2))]))]);
    let d2 = obj(vec![("k", obj(vec![("a", num(5))])), ("m", text("x"))]);
    let mut stepwise = v.clone();
    merge_json(&mut stepwise, &d1);
    merge_json(&mut stepwise, &d2);
    assert_eq!(
        stepwise,
        obj(vec![("k", obj(vec![("a", num(5)), ("b", num(2))])), ("m", text("x"))])
    );
}

#[test]
fn clone_copies_deeply() {
    let v = obj(vec![
        ("n", Value::Number(Number::NegInt(-4))),
        ("f", Value::Number(Number::Float(0x3FF8_0000_0000_0000))),
        ("list", Value::Array(vec![Value::Null, Value::Bool(false), text("s")])),
        ("o", obj(vec![("inner", num(1))])),
    ]);
    let copy = v.clone();
    assert_eq!(copy, v);
}

#[test]
fn is_null_tells_null_apart() {
    assert!(Value::Null.is_null());
    assert!(!Value::Bool(false).is_null());
    assert!(!num(0).is_null());
    assert!(!obj(vec![]).is_null());
}

#[test]
fn find_member_gives_first_index() {
    let members = vec![
        ("a".to_string(), num(1)),
        ("b".to_string(), num(2)),
        ("a".to_string(), num(3)),
    ];
    assert_eq!(find_member(&members, &"a".to_string()), Some(0));
    assert_eq!(find_member(&members, &"b".to_string()), Some(1));
    assert_eq!(find_member(&members, &"c".to_string()), None);
}
