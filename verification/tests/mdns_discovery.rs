use eomi_core::mdns_discovery::{
    clear_peers, discover_peers, inject_peers, BrowseConfig, MdnsBrowser, Peer, PeerRegistry,
    DEFAULT_BROWSE_INTERVAL_MS, MAX_BROWSE_INTERVAL_MS, MIN_BROWSE_INTERVAL_MS,
};

#[test]
fn peer_struct_clone_and_eq() {
    let p1 = Peer {
        hostname: "kitchen".into(),
        ip: "192.168.1.10".into(),
        port: 80,
    };
    let p2 = p1.clone();
    assert_eq!(p1, p2);
}


#[test]
fn peer_debug_format() {
    let p = Peer {
        hostname: "test".into(),
        ip: "10.0.0.1".into(),
        port: 8080,
    };
    let dbg = format!("{:?}", p);
    assert!(dbg.contains("test"));
    assert!(dbg.contains("10.0.0.1"));
    assert!(dbg.contains("8080"));
}


#[allow(unused_mut)]
#[test]
fn stub_discover_empty_by_default() {
    let mut reg = PeerRegistry::new();
    clear_peers(&mut reg);
    let peers = discover_peers(&reg);
    assert!(peers.is_empty());
}


#[allow(unused_mut)]
#[test]
fn stub_inject_and_discover() {
    let mut reg = PeerRegistry::new();
    let injected = vec![
        Peer {
            hostname: "living-room".into(),
            ip: "192.168.1.20".into(),
            port: 80,
        },
        Peer {
            hostname: "garage".into(),
            ip: "192.168.1.21".into(),
            port: 8080,
        },
    ];
    inject_peers(&mut reg, injected.clone());
    let found = discover_peers(&reg);
    assert_eq!(found, injected);

    clear_peers(&mut reg);
    assert!(discover_peers(&reg).is_empty());
}


#[allow(unused_mut)]
#[test]
fn stub_inject_overwrites_previous() {
    let mut reg = PeerRegistry::new();
    inject_peers(&mut reg, vec![Peer {
        hostname: "a".into(),
        ip: "1.2.3.4".into(),
        port: 80,
    }]);
    assert_eq!(discover_peers(&reg).len(), 1);

    inject_peers(&mut reg, vec![
        Peer {
            hostname: "b".into(),
            ip: "5.6.7.8".into(),
            port: 80,
        },
        Peer {
            hostname: "c".into(),
            ip: "9.10.11.12".into(),
            port: 80,
        },
    ]);
    assert_eq!(discover_peers(&reg).len(), 2);
    assert_eq!(discover_peers(&reg)[0].hostname, "b");

    clear_peers(&mut reg);
}


#[test]
fn browse_config_default_interval() {
    let cfg = BrowseConfig::default();
    assert_eq!(cfg.interval_ms, DEFAULT_BROWSE_INTERVAL_MS);
}


#[test]
fn browse_config_custom_interval() {
    let cfg = BrowseConfig::with_interval_ms(60_000);
    assert_eq!(cfg.interval_ms, 60_000);
}


#[test]
fn browse_config_clamps_below_minimum() {
    let cfg = BrowseConfig::with_interval_ms(100);
    assert_eq!(cfg.interval_ms, MIN_BROWSE_INTERVAL_MS);
}


#[test]
fn browse_config_clamps_above_maximum() {
    let cfg = BrowseConfig::with_interval_ms(999_999);
    assert_eq!(cfg.interval_ms, MAX_BROWSE_INTERVAL_MS);
}


#[test]
fn browse_config_at_boundary_values() {
    assert_eq!(BrowseConfig::with_interval_ms(MIN_BROWSE_INTERVAL_MS).interval_ms, MIN_BROWSE_INTERVAL_MS);
    assert_eq!(BrowseConfig::with_interval_ms(MAX_BROWSE_INTERVAL_MS).interval_ms, MAX_BROWSE_INTERVAL_MS);
}


#[allow(unused_mut)]
#[test]
fn browser_fires_on_first_tick() {
    let mut reg = PeerRegistry::new();
    clear_peers(&mut reg);
    let mut browser = MdnsBrowser::new(BrowseConfig::default());
    // First tick with any delta should trigger (elapsed starts at interval)
    let result = browser.tick(0, &reg);
    assert!(result.is_some());
    assert_eq!(result.unwrap().cycle_count, 1);
}


#[allow(unused_mut)]
#[test]
fn browser_does_not_fire_before_interval() {
    let mut reg = PeerRegistry::new();
    clear_peers(&mut reg);
    let mut browser = MdnsBrowser::new(BrowseConfig::with_interval_ms(10_000));
    // Consume the initial trigger
    browser.tick(0, &reg);

    // Not enough time has passed
    assert!(browser.tick(5_000, &reg).is_none());
    assert!(browser.tick(4_999, &reg).is_none());
}


#[allow(unused_mut)]
#[test]
fn browser_fires_at_interval() {
    let mut reg = PeerRegistry::new();
    clear_peers(&mut reg);
    let mut browser = MdnsBrowser::new(BrowseConfig::with_interval_ms(10_000));
    browser.tick(0, &reg); // consume initial

    // Accumulate to exactly the interval
    assert!(browser.tick(5_000, &reg).is_none());
    let result = browser.tick(5_000, &reg);
    assert!(result.is_some());
    assert_eq!(result.unwrap().cycle_count, 2);
}


#[allow(unused_mut)]
#[test]
fn browser_fires_past_interval() {
    let mut reg = PeerRegistry::new();
    clear_peers(&mut reg);
    let mut browser = MdnsBrowser::new(BrowseConfig::with_interval_ms(10_000));
    browser.tick(0, &reg); // consume initial

    // Overshoot the interval
    let result = browser.tick(15_000, &reg);
    assert!(result.is_some());
}


#[allow(unused_mut)]
#[test]
fn browser_returns_injected_peers() {
    let mut reg = PeerRegistry::new();
    let peers = vec![
        Peer { hostname: "kitchen".into(), ip: "192.168.1.10".into(), port: 80 },
        Peer { hostname: "garage".into(), ip: "192.168.1.11".into(), port: 80 },
    ];
    inject_peers(&mut reg, peers.clone());

    let mut browser = MdnsBrowser::new(BrowseConfig::default());
    let result = browser.tick(0, &reg).unwrap();
    assert_eq!(result.peers, peers);

    clear_peers(&mut reg);
}


#[allow(unused_mut)]
#[test]
fn browser_cycle_count_increments() {
    let mut reg = PeerRegistry::new();
    clear_peers(&mut reg);
    let mut browser = MdnsBrowser::new(BrowseConfig::with_interval_ms(5_000));
    assert_eq!(browser.cycle_count(), 0);

    browser.tick(0, &reg); // first
    assert_eq!(browser.cycle_count(), 1);

    browser.tick(5_000, &reg); // second
    assert_eq!(browser.cycle_count(), 2);

    browser.tick(5_000, &reg); // third
    assert_eq!(browser.cycle_count(), 3);
}


#[allow(unused_mut)]
#[test]
fn browser_reset_delays_next_browse() {
    let mut reg = PeerRegistry::new();
    clear_peers(&mut reg);
    let mut browser = MdnsBrowser::new(BrowseConfig::with_interval_ms(10_000));
    browser.tick(0, &reg); // consume initial

    browser.tick(8_000, &reg); // 8s elapsed
    browser.reset(); // reset to 0

    // Need full interval again
    assert!(browser.tick(8_000, &reg).is_none());
    assert!(browser.tick(2_000, &reg).is_some());
}


#[allow(unused_mut)]
#[test]
fn browser_remaining_ms() {
    let mut reg = PeerRegistry::new();
    clear_peers(&mut reg);
    let mut browser = MdnsBrowser::new(BrowseConfig::with_interval_ms(10_000));
    browser.tick(0, &reg); // consume initial, elapsed resets to 0

    assert_eq!(browser.remaining_ms(), 10_000);
    browser.tick(3_000, &reg); // no fire, 3s elapsed
    assert_eq!(browser.remaining_ms(), 7_000);
}


#[test]
fn browser_interval_ms_matches_config() {
    let browser = MdnsBrowser::new(BrowseConfig::with_interval_ms(45_000));
    assert_eq!(browser.interval_ms(), 45_000);
}


#[allow(unused_mut)]
#[test]
fn browser_multiple_cycles_with_varying_deltas() {
    let mut reg = PeerRegistry::new();
    clear_peers(&mut reg);
    let mut browser = MdnsBrowser::new(BrowseConfig::with_interval_ms(5_000));
    browser.tick(0, &reg); // initial

    // Simulate irregular tick intervals
    assert!(browser.tick(1_000, &reg).is_none());
    assert!(browser.tick(2_000, &reg).is_none());
    assert!(browser.tick(1_000, &reg).is_none());
    assert!(browser.tick(1_000, &reg).is_some()); // 5s total
    assert_eq!(browser.cycle_count(), 2);
}


#[allow(unused_mut)]
#[test]
fn browser_reflects_peer_changes_between_cycles() {
    let mut reg = PeerRegistry::new();
    clear_peers(&mut reg);
    let mut browser = MdnsBrowser::new(BrowseConfig::with_interval_ms(5_000));

    // First cycle: no peers
    let r1 = browser.tick(0, &reg).unwrap();
    assert!(r1.peers.is_empty());

    // Inject peers before next cycle
    inject_peers(&mut reg, vec![Peer {
        hostname: "bedroom".into(),
        ip: "10.0.0.5".into(),
        port: 80,
    }]);

    let r2 = browser.tick(5_000, &reg).unwrap();
    assert_eq!(r2.peers.len(), 1);
    assert_eq!(r2.peers[0].hostname, "bedroom");

    // Remove peers
    clear_peers(&mut reg);
    let r3 = browser.tick(5_000, &reg).unwrap();
    assert!(r3.peers.is_empty());
}

