use azurite::heap::{collect_garbage, create_object, mark, sweep, Object, ObjectData, ObjectMap, Structure};
use azurite::runtime::{ObjectIndex, VMData};

fn string_object(s: &str) -> Object {
    Object::new(ObjectData::String(s.to_string()))
}

#[test]
fn new_object_is_unmarked() {
    let object = string_object("");
    assert_eq!(object, Object { liveliness_status: false, data: ObjectData::String(String::new()) });
}

#[test]
fn new_heap_chains_its_slots() {
    let map = ObjectMap::new(4);
    let raw = map.raw();
    assert_eq!(raw.len(), 4);
    assert_eq!(raw[0].data, ObjectData::Free { next: ObjectIndex::new(1) });
    assert_eq!(raw[3].data, ObjectData::Free { next: ObjectIndex::new(0) });
}

#[test]
fn put_then_get() {
    let mut map = ObjectMap::new(2);
    let index = map.put(string_object("a")).unwrap();
    assert_eq!(index, ObjectIndex::new(0));
    assert_eq!(map.get(index), &string_object("a"));
    let second = map.put(string_object("b")).unwrap();
    assert_eq!(second, ObjectIndex::new(1));
    // The last slot named the first as the next empty one, which is now taken.
    assert_eq!(map.put(string_object("c")), Err(string_object("c")));
}

#[test]
fn collection_keeps_reachable_objects() {
    let mut map = ObjectMap::new(4);
    let leaf = map.put(string_object("leaf")).unwrap();
    let garbage = map.put(string_object("garbage")).unwrap();
    let parent = map
        .put(Object::new(ObjectData::Struct(Structure::new(vec![VMData::new_i64(1), VMData::new_string(leaf)]))))
        .unwrap();
    let roots = vec![VMData::new_object(300, parent), VMData::new_u8(7)];
    collect_garbage(&mut map, &roots, &[]);
    assert_eq!(map.get(leaf), &string_object("leaf"));
    assert!(matches!(map.get(parent).data, ObjectData::Struct(_)));
    assert!(!map.get(parent).liveliness_status);
    assert!(matches!(map.get(garbage).data, ObjectData::Free { .. }));
    // The emptied slot is the first one handed out again.
    assert_eq!(map.put(string_object("new")).unwrap(), garbage);
}

#[test]
fn mark_follows_references() {
    let mut map = ObjectMap::new(3);
    let a = map.put(string_object("a")).unwrap();
    let b = map.put(Object::new(ObjectData::Struct(Structure::new(vec![VMData::new_string(a)])))).unwrap();
    mark(&mut map, &[VMData::new_object(257, b)]);
    assert!(map.get(a).liveliness_status);
    assert!(map.get(b).liveliness_status);
    assert!(!map.get(ObjectIndex::new(2)).liveliness_status);
    sweep(&mut map);
    assert!(!map.get(a).liveliness_status);
    assert_eq!(map.get(a).data, ObjectData::String("a".to_string()));
}

#[test]
fn create_object_collects_when_full() {
    let mut map = ObjectMap::new(1);
    let first = create_object(&mut map, string_object("x"), &[], &[]).unwrap();
    assert_eq!(first, ObjectIndex::new(0));
    let again = create_object(&mut map, string_object("y"), &[], &[]).unwrap();
    assert_eq!(again, ObjectIndex::new(0));
    assert_eq!(map.get(again), &string_object("y"));
    let kept = [VMData::new_string(again)];
    let full = create_object(&mut map, string_object("z"), &[], &kept);
    assert_eq!(full.unwrap_err().message, "out of memory");
}

#[test]
fn object_accessors() {
    let o = string_object("hey");
    assert_eq!(o.string(), "hey");
    let mut s = Structure::new(vec![VMData::new_u8(1), VMData::new_u8(2)]);
    s.set_field(1, VMData::new_u8(9));
    assert_eq!(s.fields()[1].as_u8(), 9);
    let so = Object::new(ObjectData::Struct(s));
    assert_eq!(so.structure().fields().len(), 2);
}
