use serde_json::Value;

use nodus::scene::SceneStore;

fn doc(active: &str, tabs: Vec<Value>) -> Value {
    let mut m = serde_json::Map::new();
    m.insert("tabs".to_string(), Value::Array(tabs));
    m.insert("activeId".to_string(), Value::String(active.to_string()));
    Value::Object(m)
}

#[test]
fn empty_by_default() {
    let s = SceneStore::new(None, Value::Null);
    assert_eq!(s.rev(), 0);
    assert!(s.doc().is_null());
}

#[test]
fn push_increments_rev_and_keeps_doc() {
    let mut s = SceneStore::new(None, Value::Null);
    let r1 = s.push(doc("a", vec![]));
    let r2 = s.push(doc("b", vec![Value::from(1)]));
    assert_eq!(r1, 1);
    assert_eq!(r2, 2);
    assert_eq!(s.rev(), 2);
    assert_eq!(s.doc()["activeId"], "b");
}

#[test]
fn a_loaded_scene_goes_on_from_its_revision() {
    let mut s = SceneStore::new(Some((doc("s1", vec![]), 7)), Value::Null);
    assert_eq!(s.rev(), 7);
    assert_eq!(s.doc()["activeId"], "s1");
    assert_eq!(s.push(Value::Null), 8);
    assert!(s.doc().is_null());
}

#[test]
fn push_broadcasts_with_origin() {
    // The revision a push hands out (and broadcasts) is the new one.
    let mut s = SceneStore::new(None, Value::Null);
    let mut m = serde_json::Map::new();
    m.insert("x".to_string(), Value::from(1));
    let rev = s.push(Value::Object(m));
    assert_eq!(rev, 1);
    assert_eq!(s.rev(), 1);
    assert_eq!(s.doc()["x"], 1);
}
