use eomi_core::odf::object::{InfoItem, Object};
use eomi_core::odf::tree::{ObjectTree, PathTarget, TreeError};
use eomi_core::odf::value::select_values;
use eomi_core::odf::OmiValue;

fn num(n: f64) -> OmiValue {
    OmiValue::Number(n.to_bits())
}

fn ts(t: f64) -> Option<u64> {
    Some(t.to_bits())
}

fn sample_tree() -> ObjectTree {
    let mut tree = ObjectTree::new();
    let mut device = Object::new("DeviceA");
    let mut sub = Object::new("SubDevice");

    let mut temp = InfoItem::new(10);
    temp.add_value(num(22.5), ts(1000.0));
    device.add_item("Temperature".into(), temp);

    sub.add_item("Voltage".into(), InfoItem::new(10));
    device.add_child(sub);
    tree.insert_root(device);
    tree
}

#[test]
fn resolve_root() {
    let tree = sample_tree();
    match tree.resolve("/").unwrap() {
        PathTarget::Root(objs) => assert!(objs.iter().any(|(k, _)| k == "DeviceA")),
        _ => panic!("expected Root"),
    }
}

#[test]
fn resolve_object() {
    let tree = sample_tree();
    match tree.resolve("/DeviceA").unwrap() {
        PathTarget::Object(obj) => assert_eq!(obj.id, "DeviceA"),
        _ => panic!("expected Object"),
    }
}

#[test]
fn resolve_info_item() {
    let tree = sample_tree();
    match tree.resolve("/DeviceA/Temperature").unwrap() {
        PathTarget::InfoItem(item) => assert_eq!(item.values.len(), 1),
        _ => panic!("expected InfoItem"),
    }
}

#[test]
fn resolve_nested_object() {
    let tree = sample_tree();
    match tree.resolve("/DeviceA/SubDevice").unwrap() {
        PathTarget::Object(obj) => assert_eq!(obj.id, "SubDevice"),
        _ => panic!("expected Object"),
    }
}

#[test]
fn resolve_nested_item() {
    let tree = sample_tree();
    match tree.resolve("/DeviceA/SubDevice/Voltage").unwrap() {
        PathTarget::InfoItem(_) => {}
        _ => panic!("expected InfoItem"),
    }
}

#[test]
fn resolve_not_found() {
    let tree = sample_tree();
    assert_eq!(
        tree.resolve("/Missing").unwrap_err(),
        TreeError::NotFound("Object 'Missing' not found".into())
    );
}

#[test]
fn resolve_reports_where_a_walk_stops() {
    let tree = sample_tree();
    assert_eq!(
        tree.resolve("/DeviceA/Nope/X").unwrap_err(),
        TreeError::NotFound("Object 'Nope' not found in 'DeviceA'".into())
    );
    assert_eq!(
        tree.resolve("/DeviceA/Nope").unwrap_err(),
        TreeError::NotFound("'Nope' not found in object 'DeviceA'".into())
    );
    assert_eq!(
        tree.resolve("DeviceA").unwrap_err(),
        TreeError::InvalidPath("Path must start with '/'".into())
    );
}

#[test]
fn resolve_prefers_item_over_child_of_same_name() {
    let mut tree = ObjectTree::new();
    let mut d = Object::new("D");
    d.add_item("X".into(), InfoItem::new(2));
    d.add_child(Object::new("X"));
    tree.insert_root(d);
    assert!(matches!(tree.resolve("/D/X"), Ok(PathTarget::InfoItem(_))));
}

#[test]
fn write_value_to_new_path() {
    let mut tree = ObjectTree::new();
    let created = tree
        .write_value("/DeviceA/Temperature", num(22.5), ts(1000.0))
        .unwrap();
    assert!(created);

    match tree.resolve("/DeviceA/Temperature").unwrap() {
        PathTarget::InfoItem(item) => {
            assert_eq!(item.values.len(), 1);
        }
        _ => panic!("expected InfoItem"),
    }
}

#[test]
fn write_value_to_existing_path() {
    let mut tree = ObjectTree::new();
    tree.write_value("/DeviceA/Temperature", num(22.5), ts(1000.0))
        .unwrap();
    let created = tree
        .write_value("/DeviceA/Temperature", num(23.0), ts(1001.0))
        .unwrap();
    assert!(!created);

    match tree.resolve("/DeviceA/Temperature").unwrap() {
        PathTarget::InfoItem(item) => {
            assert_eq!(item.values.len(), 2);
        }
        _ => panic!("expected InfoItem"),
    }
}

#[test]
fn write_value_deep_path() {
    let mut tree = ObjectTree::new();
    tree.write_value("/Building/Floor1/Room101/Temperature", num(21.0), None)
        .unwrap();

    match tree.resolve("/Building/Floor1/Room101/Temperature").unwrap() {
        PathTarget::InfoItem(item) => assert_eq!(item.values.len(), 1),
        _ => panic!("expected InfoItem"),
    }
}

#[test]
fn write_value_to_root_rejected() {
    let mut tree = ObjectTree::new();
    assert_eq!(
        tree.write_value("/", OmiValue::Null, None).unwrap_err(),
        TreeError::InvalidPath("Cannot write a value to root".into())
    );
}

#[test]
fn write_value_needs_an_object_and_an_item() {
    let mut tree = ObjectTree::new();
    assert_eq!(
        tree.write_value("/OnlyObject", OmiValue::Null, None).unwrap_err(),
        TreeError::InvalidPath(
            "Value path must have at least an object and an item (e.g. /Obj/Item)".into()
        )
    );
    assert!(tree.is_empty());
}

#[test]
fn write_value_creates_below_an_existing_object() {
    let mut tree = sample_tree();
    assert!(tree.write_value("/DeviceA/SubDevice/New", num(1.0), None).unwrap());
    assert!(!tree.write_value("/DeviceA/SubDevice/Voltage", num(3.3), None).unwrap());
}

#[test]
fn write_value_uses_custom_capacity() {
    let mut tree = ObjectTree::with_capacity(5);
    // Write 10 values — only last 5 should survive
    for i in 0..10 {
        tree.write_value("/D/S", num(i as f64), ts(i as f64)).unwrap();
    }
    match tree.resolve("/D/S").unwrap() {
        PathTarget::InfoItem(item) => {
            assert_eq!(item.values.len(), 5);
            let newest = select_values(&item.values.values_oldest_first(), Some(1), None);
            assert_eq!(newest[0].v, num(9.0));
        }
        _ => panic!("expected InfoItem"),
    }
}

#[test]
fn write_tree_at_root() {
    let mut tree = ObjectTree::new();
    let mut dev = Object::new("DeviceB");
    dev.add_item("Humidity".into(), InfoItem::new(10));
    let objects = vec![("DeviceB".to_string(), dev)];

    tree.write_tree("/", objects).unwrap();
    assert!(tree.root_contains("DeviceB"));
}

#[test]
fn write_tree_at_path() {
    let mut tree = ObjectTree::new();
    tree.insert_root(Object::new("Root"));

    let objects = vec![("Child".to_string(), Object::new("Child"))];
    tree.write_tree("/Root", objects).unwrap();

    match tree.resolve("/Root/Child").unwrap() {
        PathTarget::Object(obj) => assert_eq!(obj.id, "Child"),
        _ => panic!("expected Object"),
    }
}

#[test]
fn write_tree_uses_obj_id_as_key() {
    let mut tree = ObjectTree::new();
    // Deliberately use a different key than obj.id
    let objects = vec![("wrong_key".to_string(), Object::new("RealId"))];

    tree.write_tree("/", objects).unwrap();
    // Should be stored under obj.id, not the key
    assert!(tree.root_contains("RealId"));
    assert!(!tree.root_contains("wrong_key"));
}

#[test]
fn write_tree_creates_the_path() {
    let mut tree = ObjectTree::new();
    tree.write_tree("/A/B", vec![("c".to_string(), Object::new("C"))]).unwrap();
    assert!(matches!(tree.resolve("/A/B/C"), Ok(PathTarget::Object(_))));
    assert_eq!(
        tree.write_tree("/A//B", Vec::new()).unwrap_err(),
        TreeError::InvalidPath("Empty segment (double slash or trailing slash)".into())
    );
}

#[test]
fn delete_root_rejected() {
    let mut tree = ObjectTree::new();
    assert_eq!(
        tree.delete("/").unwrap_err(),
        TreeError::Forbidden("Cannot delete root".into())
    );
}

#[test]
fn delete_top_level_object() {
    let mut tree = sample_tree();
    tree.delete("/DeviceA").unwrap();
    assert!(tree.is_empty());
}

#[test]
fn delete_info_item() {
    let mut tree = sample_tree();
    tree.delete("/DeviceA/Temperature").unwrap();
    match tree.resolve("/DeviceA").unwrap() {
        PathTarget::Object(obj) => assert!(obj.get_item("Temperature").is_none()),
        _ => panic!("expected Object"),
    }
}

#[test]
fn delete_nested_object() {
    let mut tree = sample_tree();
    tree.delete("/DeviceA/SubDevice").unwrap();
    match tree.resolve("/DeviceA").unwrap() {
        PathTarget::Object(obj) => assert!(obj.get_child("SubDevice").is_none()),
        _ => panic!("expected Object"),
    }
}

#[test]
fn delete_not_found() {
    let mut tree = sample_tree();
    assert_eq!(
        tree.delete("/DeviceA/Missing").unwrap_err(),
        TreeError::NotFound("'Missing' not found in 'DeviceA'".into())
    );
}

#[test]
fn delete_reports_missing_objects() {
    let mut tree = sample_tree();
    assert_eq!(
        tree.delete("/Nope").unwrap_err(),
        TreeError::NotFound("'Nope' not found at root".into())
    );
    assert_eq!(
        tree.delete("/Nope/X").unwrap_err(),
        TreeError::NotFound("Object 'Nope' not found".into())
    );
    assert_eq!(
        tree.delete("/DeviceA/Nope/X").unwrap_err(),
        TreeError::NotFound("Object 'Nope' not found in 'DeviceA'".into())
    );
    assert!(tree.root_contains("DeviceA"));
}

#[test]
fn tree_error_text() {
    assert_eq!(TreeError::NotFound("x".into()).to_string(), "Not found: x");
    assert_eq!(TreeError::Forbidden("y".into()).to_string(), "Forbidden: y");
    assert_eq!(TreeError::InvalidPath("z".into()).to_string(), "Invalid path: z");
}

#[test]
fn full_scenario() {
    let mut tree = ObjectTree::new();

    // Create tree via writes
    tree.write_value("/Sensor1/Temperature", num(20.0), ts(100.0)).unwrap();
    tree.write_value("/Sensor1/Temperature", num(21.0), ts(200.0)).unwrap();
    tree.write_value("/Sensor1/Temperature", num(22.0), ts(300.0)).unwrap();
    tree.write_value("/Sensor1/Humidity", num(45.0), ts(100.0)).unwrap();

    // Verify tree structure via resolve
    match tree.resolve("/Sensor1").unwrap() {
        PathTarget::Object(obj) => {
            assert!(obj.get_item("Temperature").is_some());
            assert!(obj.get_item("Humidity").is_some());
        }
        _ => panic!("expected Object"),
    }

    // Query values
    match tree.resolve("/Sensor1/Temperature").unwrap() {
        PathTarget::InfoItem(item) => {
            let vals = select_values(&item.values.values_oldest_first(), Some(2), None);
            assert_eq!(vals.len(), 2);
            assert_eq!(vals[0].v, num(22.0));
            assert_eq!(vals[1].v, num(21.0));
        }
        _ => panic!("expected InfoItem"),
    }

    // Delete an item
    tree.delete("/Sensor1/Humidity").unwrap();
    assert_eq!(
        tree.resolve("/Sensor1/Humidity").unwrap_err(),
        TreeError::NotFound("'Humidity' not found in object 'Sensor1'".into())
    );

    // Temperature still there
    assert!(matches!(
        tree.resolve("/Sensor1/Temperature"),
        Ok(PathTarget::InfoItem(_))
    ));
}

#[test]
fn ring_buffer_overflow_preserves_newest() {
    let mut tree = ObjectTree::new();

    // Write 150 values to an item (default capacity 100)
    for i in 0..150 {
        tree.write_value("/Device/Sensor", num(i as f64), ts(i as f64)).unwrap();
    }

    match tree.resolve("/Device/Sensor").unwrap() {
        PathTarget::InfoItem(item) => {
            assert_eq!(item.values.len(), 100);
            let all = item.values.values_oldest_first();
            let newest = select_values(&all, Some(1), None);
            assert_eq!(newest[0].v, num(149.0));
            let oldest = select_values(&all, None, Some(1));
            assert_eq!(oldest[0].v, num(50.0));
        }
        _ => panic!("expected InfoItem"),
    }
}

#[test]
fn root_objects_are_sorted() {
    let mut tree = ObjectTree::new();
    tree.insert_root(Object::new("b"));
    tree.insert_root(Object::new("a"));
    let prev = tree.insert_root(Object::new("b"));
    assert!(prev.is_some());
    let ids: Vec<&str> = tree.root_objects().iter().map(|(k, _)| k.as_str()).collect();
    assert_eq!(ids, vec!["a", "b"]);
}
