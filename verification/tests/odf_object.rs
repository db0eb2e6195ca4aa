use eomi_core::odf::object::{InfoItem, Object};
use eomi_core::odf::value::select_values;
use eomi_core::odf::OmiValue;

fn num(n: f64) -> OmiValue {
    OmiValue::Number(n.to_bits())
}

fn make_temp_item() -> InfoItem {
    let mut item = InfoItem::new(10);
    item.type_uri = Some("omi:temperature".into());
    item.add_value(num(22.5), Some(1000.0f64.to_bits()));
    item
}

#[test]
fn create_and_add_values() {
    let mut item = InfoItem::new(10);
    item.add_value(num(22.5), Some(1000.0f64.to_bits()));
    item.add_value(num(23.0), Some(1001.0f64.to_bits()));
    assert_eq!(item.values.len(), 2);

    let result = select_values(&item.values.values_oldest_first(), Some(1), None);
    assert_eq!(result.len(), 1);
    assert_eq!(result[0].v, num(23.0));
}

#[test]
fn writable_default_false() {
    let item = InfoItem::new(10);
    assert!(!item.is_writable());
}

#[test]
fn writable_with_meta() {
    let mut item = InfoItem::new(10);
    item.meta = Some(vec![("writable".to_string(), OmiValue::Bool(true))]);
    assert!(item.is_writable());
}

#[test]
fn writable_false_explicit() {
    let mut item = InfoItem::new(10);
    item.meta = Some(vec![("writable".to_string(), OmiValue::Bool(false))]);
    assert!(!item.is_writable());
}

#[test]
fn readable_default_true() {
    let item = InfoItem::new(10);
    assert!(item.is_readable());
}

#[test]
fn readable_false() {
    let mut item = InfoItem::new(10);
    item.meta = Some(vec![("readable".to_string(), OmiValue::Bool(false))]);
    assert!(!item.is_readable());
}

#[test]
fn item_meta_lookup_among_several_keys() {
    let mut item = InfoItem::new(10);
    item.meta = Some(vec![
        ("format".to_string(), OmiValue::Str("raw".into())),
        ("readable".to_string(), OmiValue::Str("no".into())),
        ("writable".to_string(), OmiValue::Bool(true)),
    ]);
    assert!(item.is_writable());
    // Only the boolean false makes an item unreadable.
    assert!(item.is_readable());
}

#[test]
fn omi_value_equality() {
    assert_eq!(num(1.0), num(1.0));
    assert_ne!(num(1.0), num(2.0));
    assert_ne!(OmiValue::Bool(true), OmiValue::Str("true".into()));
}

#[test]
fn create_empty_object() {
    let obj = Object::new("DeviceA");
    assert_eq!(obj.id, "DeviceA");
    assert!(obj.items.is_none());
    assert!(obj.objects.is_none());
}

#[test]
fn add_and_get_item() {
    let mut obj = Object::new("DeviceA");
    obj.add_item("Temperature".into(), make_temp_item());

    let item = obj.get_item("Temperature").unwrap();
    assert_eq!(item.type_uri.as_deref(), Some("omi:temperature"));
    assert!(obj.get_item("Nonexistent").is_none());
}

#[test]
fn add_and_get_child() {
    let mut parent = Object::new("Root");
    let child = Object::new("Child1");
    parent.add_child(child);

    assert!(parent.get_child("Child1").is_some());
    assert!(parent.get_child("Missing").is_none());
}

#[test]
fn remove_item() {
    let mut obj = Object::new("DeviceA");
    obj.add_item("Temp".into(), make_temp_item());
    let removed = obj.remove_item("Temp");
    assert!(removed.is_some());
    assert!(obj.items.is_none()); // cleaned up empty map
    assert!(obj.remove_item("Temp").is_none());
}

#[test]
fn remove_child() {
    let mut obj = Object::new("Root");
    obj.add_child(Object::new("A"));
    let removed = obj.remove_child("A");
    assert!(removed.is_some());
    assert!(obj.objects.is_none());
    assert!(obj.remove_child("A").is_none());
}

#[test]
fn nested_objects() {
    let mut root = Object::new("Root");
    let mut sub = Object::new("Sub");
    sub.add_item("Voltage".into(), InfoItem::new(10));
    root.add_child(sub);

    let s = root.get_child("Sub").unwrap();
    assert!(s.get_item("Voltage").is_some());
}

#[test]
fn get_item_mut() {
    let mut obj = Object::new("D");
    obj.add_item("Temp".into(), InfoItem::new(10));
    let item = obj.get_item_mut("Temp").unwrap();
    item.add_value(num(99.0), None);
    assert_eq!(obj.get_item("Temp").unwrap().values.len(), 1);
}

#[test]
fn get_child_mut_changes_in_place() {
    let mut obj = Object::new("Root");
    obj.add_child(Object::new("Sub"));
    obj.get_child_mut("Sub").unwrap().add_item("V".into(), InfoItem::new(3));
    assert!(obj.get_child("Sub").unwrap().get_item("V").is_some());
    assert!(obj.get_child_mut("Missing").is_none());
}

#[test]
fn items_are_kept_sorted_and_replaced() {
    let mut obj = Object::new("D");
    obj.add_item("b".into(), InfoItem::new(1));
    obj.add_item("a".into(), InfoItem::new(2));
    obj.add_item("c".into(), InfoItem::new(3));
    obj.add_item("a".into(), InfoItem::new(4));
    let items = obj.items.as_ref().unwrap();
    let names: Vec<&str> = items.iter().map(|(k, _)| k.as_str()).collect();
    assert_eq!(names, vec!["a", "b", "c"]);
    assert_eq!(obj.get_item("a").unwrap().values.capacity(), 4);
}

#[test]
fn remove_one_of_two_items_keeps_the_list() {
    let mut obj = Object::new("D");
    obj.add_item("x".into(), InfoItem::new(1));
    obj.add_item("y".into(), InfoItem::new(1));
    assert!(obj.remove_item("x").is_some());
    assert_eq!(obj.items.as_ref().unwrap().len(), 1);
    assert!(obj.get_item("y").is_some());
}
