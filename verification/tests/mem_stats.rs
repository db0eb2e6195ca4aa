use eomi_core::mem_stats::{flash, heap, nvs, psram, MemStat};

#[test]
fn host_stubs_return_none() {
    assert_eq!(heap(), None);
    assert_eq!(psram(), None);
    assert_eq!(nvs(), None);
    assert_eq!(flash(), None);
}

#[test]
fn mem_stat_debug_and_clone() {
    let s = MemStat { free: 100, total: 200 };
    let s2 = s;
    assert_eq!(s, s2);
    assert_eq!(format!("{:?}", s), "MemStat { free: 100, total: 200 }");
}

