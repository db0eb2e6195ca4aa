use eomi_core::device::{
    build_sensor_tree, collect_writable_items, update_discovery_tree, PATH_FIRMWARE_VERSION,
    PATH_FREE_FLASH, PATH_FREE_HEAP, PATH_FREE_ODF_STORAGE, PATH_FREE_PSRAM, PATH_TEMPERATURE,
};
use eomi_core::mdns_discovery::Peer;
use eomi_core::odf::object::{InfoItem, Object};
use eomi_core::odf::tree::{ObjectTree, PathTarget, PathTargetMut};
use eomi_core::odf::value::select_values;
use eomi_core::odf::OmiValue;

const FW: &str = "0.3.1";

fn num(n: f64) -> OmiValue {
    OmiValue::Number(n.to_bits())
}

fn ts(t: f64) -> Option<u64> {
    Some(t.to_bits())
}

fn system(tree: &[(String, Object)]) -> &Object {
    let (k, o) = tree.iter().find(|(k, _)| k == "System").expect("System missing");
    assert_eq!(k, "System");
    o
}

fn meta_get<'a>(item: &'a InfoItem, key: &str) -> Option<&'a OmiValue> {
    item.meta.as_ref()?.iter().find(|(k, _)| k == key).map(|(_, v)| v)
}

fn default_tree() -> Vec<(String, Object)> {
    build_sensor_tree(false, false, FW)
}

fn mark_writable(ot: &mut ObjectTree, path: &str) {
    if let Ok(PathTargetMut::InfoItem(item)) = ot.resolve_mut(path) {
        let meta = item.meta.get_or_insert_with(Vec::new);
        meta.push(("writable".into(), OmiValue::Bool(true)));
    }
}

#[test]
fn sensor_tree_has_system_object() {
    let tree = default_tree();
    assert!(tree.iter().any(|(k, _)| k == "System"));
    let sys = system(&tree);
    assert_eq!(sys.id, "System");
}

#[test]
fn sensor_tree_has_free_heap_item() {
    let tree = default_tree();
    let sys = system(&tree);
    let heap = sys.get_item("FreeHeap").expect("FreeHeap item missing");
    assert_eq!(heap.type_uri.as_deref(), Some("omi:memory:freeheap"));
    assert_eq!(heap.values.len(), 0);
}

#[test]
fn sensor_items_not_writable() {
    let tree = default_tree();
    let sys = system(&tree);
    let heap = sys.get_item("FreeHeap").unwrap();
    assert!(!heap.is_writable());
}

#[test]
fn sensor_items_have_unit_meta() {
    let tree = default_tree();
    let sys = system(&tree);
    let heap = sys.get_item("FreeHeap").unwrap();
    assert_eq!(meta_get(heap, "unit"), Some(&OmiValue::Str("B".into())));
    assert_eq!(meta_get(heap, "total"), Some(&num(0.0)));
}

#[test]
fn sensor_tree_has_free_flash() {
    let tree = build_sensor_tree(true, false, FW);
    let sys = system(&tree);
    let item = sys.get_item("FreeFlash").expect("FreeFlash missing");
    assert_eq!(item.type_uri.as_deref(), Some("omi:memory:freeflash"));
    assert_eq!(meta_get(item, "unit"), Some(&OmiValue::Str("B".into())));
    assert_eq!(meta_get(item, "total"), Some(&num(0.0)));
}

#[test]
fn sensor_tree_has_free_odf_storage() {
    let tree = build_sensor_tree(true, false, FW);
    let sys = system(&tree);
    let item = sys.get_item("FreeOdfStorage").expect("FreeOdfStorage missing");
    assert_eq!(item.type_uri.as_deref(), Some("omi:memory:freeodf"));
    assert_eq!(meta_get(item, "unit"), Some(&OmiValue::Str("B".into())));
    assert_eq!(meta_get(item, "total"), Some(&num(0.0)));
}

#[test]
fn sensor_tree_has_free_psram() {
    let tree = build_sensor_tree(true, true, FW);
    let sys = system(&tree);
    let item = sys.get_item("FreePsram").expect("FreePsram missing");
    assert_eq!(item.type_uri.as_deref(), Some("omi:memory:freepsram"));
    assert_eq!(meta_get(item, "unit"), Some(&OmiValue::Str("B".into())));
    assert_eq!(meta_get(item, "total"), Some(&num(0.0)));
}

#[test]
fn mem_stats_path_constants_match_tree() {
    let tree = build_sensor_tree(true, false, FW);
    let mut ot = ObjectTree::new();
    ot.write_tree("/", tree).unwrap();

    assert!(matches!(ot.resolve(PATH_FREE_FLASH), Ok(PathTarget::InfoItem(_))));
    assert!(matches!(ot.resolve(PATH_FREE_ODF_STORAGE), Ok(PathTarget::InfoItem(_))));
}

#[test]
fn psram_path_constant_matches_tree() {
    let tree = build_sensor_tree(true, true, FW);
    let mut ot = ObjectTree::new();
    ot.write_tree("/", tree).unwrap();

    assert!(matches!(ot.resolve(PATH_FREE_PSRAM), Ok(PathTarget::InfoItem(_))));
}

#[test]
fn psram_needs_mem_stats() {
    let tree = build_sensor_tree(false, true, FW);
    let sys = system(&tree);
    assert!(sys.get_item("FreePsram").is_none());
}

#[test]
fn system_object_has_type_uri() {
    let tree = default_tree();
    let sys = system(&tree);
    assert_eq!(sys.type_uri.as_deref(), Some("omi:device:system"));
}

#[test]
fn heap_item_has_total_meta() {
    let tree = default_tree();
    let sys = system(&tree);
    let heap = sys.get_item("FreeHeap").unwrap();
    assert!(meta_get(heap, "total").is_some(), "FreeHeap must have meta.total");
}

#[test]
fn mem_stats_items_not_writable() {
    let tree = build_sensor_tree(true, false, FW);
    let sys = system(&tree);
    let flash = sys.get_item("FreeFlash").unwrap();
    assert!(!flash.is_writable(), "FreeFlash should not be writable");
    let odf = sys.get_item("FreeOdfStorage").unwrap();
    assert!(!odf.is_writable(), "FreeOdfStorage should not be writable");
}

#[test]
fn mem_stats_items_all_have_total_meta() {
    let tree = build_sensor_tree(true, false, FW);
    let sys = system(&tree);
    for name in &["FreeHeap", "FreeFlash", "FreeOdfStorage"] {
        let item = sys.get_item(name).unwrap_or_else(|| panic!("{} missing", name));
        assert!(item.meta.is_some(), "{} has no meta", name);
        assert!(meta_get(item, "total").is_some(), "{} missing meta.total", name);
    }
}

#[test]
fn without_mem_stats_no_flash_or_odf_items() {
    let tree = build_sensor_tree(false, false, FW);
    let sys = system(&tree);
    assert!(sys.get_item("FreeFlash").is_none(), "FreeFlash should not exist without mem-stats");
    assert!(sys.get_item("FreeOdfStorage").is_none(), "FreeOdfStorage should not exist without mem-stats");
}

#[test]
fn temperature_gated_by_board_config() {
    let tree = default_tree();
    let sys = system(&tree);
    if eomi_core::board::has_temp_sensor() {
        let temp = sys.get_item("Temperature").expect("Temperature missing with temp sensor");
        assert_eq!(temp.type_uri.as_deref(), Some("omi:sensor:temperature"));
        assert!(!temp.is_writable(), "Temperature should not be writable");
        assert_eq!(meta_get(temp, "unit"), Some(&OmiValue::Str("°C".into())));

        let mut ot = ObjectTree::new();
        ot.write_tree("/", default_tree()).unwrap();
        assert!(matches!(ot.resolve(PATH_TEMPERATURE), Ok(PathTarget::InfoItem(_))));
    } else {
        assert!(sys.get_item("Temperature").is_none(),
            "Temperature should not exist when board has no temp sensor");
    }
}

#[test]
fn psram_item_not_writable() {
    let tree = build_sensor_tree(true, true, FW);
    let sys = system(&tree);
    let psram = sys.get_item("FreePsram").unwrap();
    assert!(!psram.is_writable(), "FreePsram should not be writable");
}

#[test]
fn collect_returns_empty_for_sensor_only_tree() {
    let mut ot = ObjectTree::new();
    ot.write_tree("/", default_tree()).unwrap();
    let items = collect_writable_items(&ot);
    assert!(items.is_empty(), "sensor items should not be collected");
}

#[test]
fn collect_finds_engine_written_items() {
    let mut ot = ObjectTree::new();
    ot.write_tree("/", default_tree()).unwrap();

    // Simulate an engine-created writable item
    ot.write_value("/UserObj/Setting", num(42.0), ts(1000.0)).unwrap();
    // Mark it writable like the engine would
    mark_writable(&mut ot, "/UserObj/Setting");

    let items = collect_writable_items(&ot);
    assert_eq!(items.len(), 1);
    assert_eq!(items[0].path, "/UserObj/Setting");
    assert_eq!(items[0].v, num(42.0));
    assert_eq!(items[0].t, ts(1000.0));
}

#[test]
fn collect_skips_non_writable_user_items() {
    let mut ot = ObjectTree::new();
    // Create an item without marking writable
    ot.write_value("/Obj/Item", OmiValue::Str("hello".into()), None).unwrap();
    let items = collect_writable_items(&ot);
    assert!(items.is_empty());
}

#[test]
fn collect_handles_nested_writable_items() {
    let mut ot = ObjectTree::new();
    ot.write_value("/A/B/C/D", num(1.0), ts(500.0)).unwrap();
    mark_writable(&mut ot, "/A/B/C/D");

    let items = collect_writable_items(&ot);
    assert_eq!(items.len(), 1);
    assert_eq!(items[0].path, "/A/B/C/D");
}

#[test]
fn collect_orders_items_before_children_and_skips_empty() {
    let mut ot = ObjectTree::new();
    ot.write_value("/A/Z", num(1.0), None).unwrap();
    ot.write_value("/A/B/X", num(2.0), None).unwrap();
    ot.write_value("/A/B/X", num(3.0), None).unwrap();
    mark_writable(&mut ot, "/A/Z");
    mark_writable(&mut ot, "/A/B/X");
    let mut empty = Object::new("E");
    let mut item = InfoItem::new(2);
    item.meta = Some(vec![("writable".into(), OmiValue::Bool(true))]);
    empty.add_item("NoValue".into(), item);
    ot.insert_root(empty);
    let items = collect_writable_items(&ot);
    let paths: Vec<&str> = items.iter().map(|i| i.path.as_str()).collect();
    assert_eq!(paths, vec!["/A/Z", "/A/B/X"]);
    assert_eq!(items[1].v, num(3.0));
}

#[test]
fn path_constants_match_tree() {
    let tree = default_tree();
    let mut ot = ObjectTree::new();
    ot.write_tree("/", tree).unwrap();

    assert!(matches!(ot.resolve(PATH_FREE_HEAP), Ok(PathTarget::InfoItem(_))));
}

#[test]
fn sensor_tree_has_firmware_version() {
    let tree = default_tree();
    let sys = system(&tree);
    let fw = sys.get_item("FirmwareVersion").expect("FirmwareVersion missing");
    assert_eq!(fw.type_uri.as_deref(), Some("omi:device:firmwareversion"));
    assert!(!fw.is_writable(), "FirmwareVersion should not be writable");
    // Should have exactly one value pre-populated
    let vals = select_values(&fw.values.values_oldest_first(), Some(1), None);
    assert_eq!(vals.len(), 1);
    assert!(matches!(&vals[0].v, OmiValue::Str(_)));
    assert_eq!(vals[0].v, OmiValue::Str(FW.into()));
}

#[test]
fn firmware_version_path_resolves() {
    let tree = default_tree();
    let mut ot = ObjectTree::new();
    ot.write_tree("/", tree).unwrap();
    assert!(matches!(ot.resolve(PATH_FIRMWARE_VERSION), Ok(PathTarget::InfoItem(_))));
}

fn make_peer(hostname: &str, ip: &str, port: u16) -> Peer {
    Peer { hostname: hostname.into(), ip: ip.into(), port }
}

#[test]
fn discovery_writes_peers_to_tree() {
    let mut tree = ObjectTree::new();
    let peers = vec![
        make_peer("kitchen", "192.168.1.10", 80),
        make_peer("garage", "192.168.1.11", 8080),
    ];
    update_discovery_tree(&mut tree, &peers, ts(1000.0));

    match tree.resolve("/System/discovery/kitchen") {
        Ok(PathTarget::InfoItem(item)) => {
            let vals = select_values(&item.values.values_oldest_first(), Some(1), None);
            assert_eq!(vals[0].v, OmiValue::Str("192.168.1.10:80".into()));
            assert_eq!(vals[0].t, ts(1000.0));
        }
        other => panic!("expected InfoItem, got {:?}", other),
    }

    match tree.resolve("/System/discovery/garage") {
        Ok(PathTarget::InfoItem(item)) => {
            let vals = select_values(&item.values.values_oldest_first(), Some(1), None);
            assert_eq!(vals[0].v, OmiValue::Str("192.168.1.11:8080".into()));
        }
        other => panic!("expected InfoItem, got {:?}", other),
    }
}

#[test]
fn discovery_removes_stale_peers() {
    let mut tree = ObjectTree::new();

    let peers1 = vec![
        make_peer("kitchen", "192.168.1.10", 80),
        make_peer("garage", "192.168.1.11", 80),
    ];
    update_discovery_tree(&mut tree, &peers1, ts(1000.0));

    let peers2 = vec![make_peer("kitchen", "192.168.1.10", 80)];
    let removed = update_discovery_tree(&mut tree, &peers2, ts(2000.0));

    assert_eq!(removed, 1);
    assert!(tree.resolve("/System/discovery/kitchen").is_ok());
    assert!(tree.resolve("/System/discovery/garage").is_err());
}

#[test]
fn discovery_empty_peers_clears_all() {
    let mut tree = ObjectTree::new();
    let peers = vec![make_peer("kitchen", "192.168.1.10", 80)];
    update_discovery_tree(&mut tree, &peers, ts(1000.0));

    let removed = update_discovery_tree(&mut tree, &[], ts(2000.0));
    assert_eq!(removed, 1);
}

#[test]
fn discovery_updates_existing_peer_value() {
    let mut tree = ObjectTree::new();

    let peers1 = vec![make_peer("kitchen", "192.168.1.10", 80)];
    update_discovery_tree(&mut tree, &peers1, ts(1000.0));

    let peers2 = vec![make_peer("kitchen", "192.168.1.99", 80)];
    update_discovery_tree(&mut tree, &peers2, ts(2000.0));

    match tree.resolve("/System/discovery/kitchen") {
        Ok(PathTarget::InfoItem(item)) => {
            let vals = select_values(&item.values.values_oldest_first(), Some(1), None);
            assert_eq!(vals[0].v, OmiValue::Str("192.168.1.99:80".into()));
            assert_eq!(vals[0].t, ts(2000.0));
        }
        other => panic!("expected InfoItem, got {:?}", other),
    }
}

#[test]
fn discovery_skips_empty_hostname() {
    let mut tree = ObjectTree::new();
    let peers = vec![make_peer("", "192.168.1.10", 80)];
    update_discovery_tree(&mut tree, &peers, ts(1000.0));

    assert!(tree.resolve("/System/discovery").is_err());
}

#[test]
fn discovery_items_not_writable() {
    let mut tree = ObjectTree::new();
    let peers = vec![make_peer("kitchen", "192.168.1.10", 80)];
    update_discovery_tree(&mut tree, &peers, ts(1000.0));

    match tree.resolve("/System/discovery/kitchen") {
        Ok(PathTarget::InfoItem(item)) => assert!(!item.is_writable()),
        other => panic!("expected InfoItem, got {:?}", other),
    }
}

#[test]
fn discovery_on_empty_tree_no_panic() {
    let mut tree = ObjectTree::new();
    let removed = update_discovery_tree(&mut tree, &[], None);
    assert_eq!(removed, 0);
}

#[test]
fn resolve_mut_changes_are_seen_by_resolve() {
    let mut tree = ObjectTree::new();
    tree.write_value("/D/X", num(1.0), None).unwrap();
    match tree.resolve_mut("/D/X") {
        Ok(PathTargetMut::InfoItem(item)) => item.add_value(num(2.0), None),
        other => panic!("expected InfoItem, got {:?}", other),
    }
    match tree.resolve_mut("/D") {
        Ok(PathTargetMut::Object(obj)) => obj.type_uri = Some("t".into()),
        other => panic!("expected Object, got {:?}", other),
    }
    match tree.resolve("/D/X") {
        Ok(PathTarget::InfoItem(item)) => assert_eq!(item.values.len(), 2),
        other => panic!("expected InfoItem, got {:?}", other),
    }
    match tree.resolve("/D") {
        Ok(PathTarget::Object(obj)) => assert_eq!(obj.type_uri.as_deref(), Some("t")),
        other => panic!("expected Object, got {:?}", other),
    }
    assert!(matches!(tree.resolve_mut("/"), Ok(PathTargetMut::Root(_))));
    assert!(tree.resolve_mut("/Nope").is_err());
}
