//! DNS-SD peer discovery for `_omi._tcp` services on the LAN.
//!
//! [`MdnsBrowser`] provides periodic service browsing: it tracks elapsed
//! time and, once the configured interval has passed, takes the peers that
//! discovery currently reports. Discovery itself is a [`PeerRegistry`]:
//! the peers last reported by the network (or injected by a test).

use vstd::prelude::*;

verus! {

/// A discovered eOMI peer on the local network.
#[derive(Debug, Clone, PartialEq, Eq)]
pub struct Peer {
    pub hostname: String,
    pub ip: String,
    pub port: u16,
}

/// A peer as plain values: hostname, IP address and port.
pub open spec fn peer_view(p: Peer) -> (Seq<char>, Seq<char>, u16) {
    (p.hostname@, p.ip@, p.port)
}

/// Views of a list of peers.
pub open spec fn peer_views(v: Seq<Peer>) -> Seq<(Seq<char>, Seq<char>, u16)> {
    v.map_values(|p: Peer| peer_view(p))
}

/// A copy of a peer.
pub fn copy_peer(p: &Peer) -> (r: Peer)
    ensures
        peer_view(r) == peer_view(*p),
{
    Peer { hostname: p.hostname.clone(), ip: p.ip.clone(), port: p.port }
}

/// A copy of a list of peers, in order.
pub fn copy_peers(v: &Vec<Peer>) -> (r: Vec<Peer>)
    ensures
        peer_views(r@) == peer_views(v@),
{
    let mut r: Vec<Peer> = Vec::new();
    let mut i: usize = 0;
    while i < v.len()
        invariant
            i <= v@.len(),
            r@.len() == i,
            forall|j: int| 0 <= j < i ==> peer_view(#[trigger] r@[j]) == peer_view(v@[j]),
        decreases v@.len() - i,
    {
        let p = copy_peer(&v[i]);
        r.push(p);
        i = i + 1;
    }
    proof {
        assert(peer_views(r@) =~= peer_views(v@));
    }
    r
}

/// The peers that discovery reports: those last injected, none at first.
pub struct PeerRegistry {
    peers: Vec<Peer>,
}

impl PeerRegistry {
    /// The peers the registry holds.
    pub closed spec fn view_peers(&self) -> Seq<(Seq<char>, Seq<char>, u16)> {
        peer_views(self.peers@)
    }

    /// A registry that reports no peers.
    pub fn new() -> (r: Self)
        ensures
            r.view_peers() == Seq::<(Seq<char>, Seq<char>, u16)>::empty(),
    {
        let r = PeerRegistry { peers: Vec::new() };
        proof {
            assert(r.view_peers() =~= Seq::<(Seq<char>, Seq<char>, u16)>::empty());
        }
        r
    }
}

/// The peers discovery reports now.
pub fn discover_peers(registry: &PeerRegistry) -> (r: Vec<Peer>)
    ensures
        peer_views(r@) == registry.view_peers(),
{
    copy_peers(&registry.peers)
}

/// Make discovery report `peers` from now on, in place of what it reported before.
pub fn inject_peers(registry: &mut PeerRegistry, peers: Vec<Peer>)
    ensures
        final(registry).view_peers() == peer_views(peers@),
{
    registry.peers = peers;
}

/// Make discovery report no peers.
pub fn clear_peers(registry: &mut PeerRegistry)
    ensures
        final(registry).view_peers() == Seq::<(Seq<char>, Seq<char>, u16)>::empty(),
{
    inject_peers(registry, Vec::new());
    proof {
        assert(peer_views(Seq::<Peer>::empty()) =~= Seq::<(Seq<char>, Seq<char>, u16)>::empty());
    }
}

/// Default periodic browse interval in milliseconds (30s).
pub const DEFAULT_BROWSE_INTERVAL_MS: u64 = 30_000;

/// Minimum allowed browse interval (5s) to prevent excessive network traffic.
pub const MIN_BROWSE_INTERVAL_MS: u64 = 5_000;

/// Maximum allowed browse interval (5min).
pub const MAX_BROWSE_INTERVAL_MS: u64 = 300_000;

/// Configuration for periodic mDNS service browsing.
#[derive(Debug, Clone)]
pub struct BrowseConfig {
    /// Interval between browse queries in milliseconds.
    pub interval_ms: u64,
}

impl Default for BrowseConfig {
    fn default() -> (r: Self)
        ensures
            r.interval_ms == DEFAULT_BROWSE_INTERVAL_MS,
    {
        BrowseConfig { interval_ms: DEFAULT_BROWSE_INTERVAL_MS }
    }
}

impl BrowseConfig {
    /// A config with the given interval, clamped to the allowed range.
    pub fn with_interval_ms(interval_ms: u64) -> (r: Self)
        ensures
            r.interval_ms == if interval_ms < MIN_BROWSE_INTERVAL_MS {
                MIN_BROWSE_INTERVAL_MS
            } else if interval_ms > MAX_BROWSE_INTERVAL_MS {
                MAX_BROWSE_INTERVAL_MS
            } else {
                interval_ms
            },
    {
        let v = if interval_ms < MIN_BROWSE_INTERVAL_MS {
            MIN_BROWSE_INTERVAL_MS
        } else if interval_ms > MAX_BROWSE_INTERVAL_MS {
            MAX_BROWSE_INTERVAL_MS
        } else {
            interval_ms
        };
        BrowseConfig { interval_ms: v }
    }
}

/// Result of a single browse cycle.
#[derive(Debug, Clone)]
pub struct BrowseResult {
    /// Peers discovered in this cycle.
    pub peers: Vec<Peer>,
    /// Total number of browse cycles completed (including this one).
    pub cycle_count: u64,
}

/// Periodic DNS-SD service browser for `_omi._tcp` peer discovery.
///
/// Tracks elapsed time and browses once the configured interval has
/// passed. The caller ticks it regularly, and only when browsing is
/// appropriate (station mode, not AP mode).
pub struct MdnsBrowser {
    config: BrowseConfig,
    elapsed_ms: u64,
    cycle_count: u64,
}

impl MdnsBrowser {
    #[verifier::type_invariant]
    spec fn elapsed_within_interval(self) -> bool {
        self.elapsed_ms <= self.config.interval_ms
    }

    /// Milliseconds since the last browse (or since the last reset).
    pub closed spec fn elapsed(&self) -> u64 {
        self.elapsed_ms
    }

    /// The browse interval in milliseconds.
    pub closed spec fn interval(&self) -> u64 {
        self.config.interval_ms
    }

    /// Browse cycles completed so far.
    pub closed spec fn cycles(&self) -> u64 {
        self.cycle_count
    }

    /// A new periodic browser. The first browse happens on the first `tick()`.
    pub fn new(config: BrowseConfig) -> (r: Self)
        ensures
            r.interval() == config.interval_ms,
            r.elapsed() == config.interval_ms,
            r.cycles() == 0,
    {
        MdnsBrowser { elapsed_ms: config.interval_ms, config, cycle_count: 0 }
    }

    /// Advance the timer by `delta_ms` milliseconds.
    ///
    /// Returns `Some(BrowseResult)` with the peers discovery reports when a
    /// browse cycle fires (the elapsed time reaches the interval), `None`
    /// otherwise.
    pub fn tick(&mut self, delta_ms: u64, registry: &PeerRegistry) -> (r: Option<BrowseResult>)
        requires
            old(self).elapsed() + delta_ms <= u64::MAX,
            old(self).cycles() < u64::MAX,
        ensures
            final(self).interval() == old(self).interval(),
            old(self).elapsed() + delta_ms >= old(self).interval() ==> {
                &&& r is Some
                &&& peer_views(r->Some_0.peers@) == registry.view_peers()
                &&& r->Some_0.cycle_count == old(self).cycles() + 1
                &&& final(self).elapsed() == 0
                &&& final(self).cycles() == old(self).cycles() + 1
            },
            old(self).elapsed() + delta_ms < old(self).interval() ==> {
                &&& r is None
                &&& final(self).elapsed() == old(self).elapsed() + delta_ms
                &&& final(self).cycles() == old(self).cycles()
            },
    {
        proof {
            use_type_invariant(&*self);
        }
        let e = self.elapsed_ms + delta_ms;
        if e >= self.config.interval_ms {
            self.elapsed_ms = 0;
            self.cycle_count = self.cycle_count + 1;
            Some(BrowseResult { peers: discover_peers(registry), cycle_count: self.cycle_count })
        } else {
            self.elapsed_ms = e;
            None
        }
    }

    /// Reset the timer. The next browse fires after a full interval.
    pub fn reset(&mut self)
        ensures
            final(self).elapsed() == 0,
            final(self).interval() == old(self).interval(),
            final(self).cycles() == old(self).cycles(),
    {
        self.elapsed_ms = 0;
    }

    /// Number of completed browse cycles.
    pub fn cycle_count(&self) -> (r: u64)
        ensures
            r == self.cycles(),
    {
        self.cycle_count
    }

    /// Current browse interval in milliseconds.
    pub fn interval_ms(&self) -> (r: u64)
        ensures
            r == self.interval(),
    {
        self.config.interval_ms
    }

    /// Milliseconds remaining until the next browse.
    pub fn remaining_ms(&self) -> (r: u64)
        ensures
            r == self.interval() - self.elapsed(),
    {
        proof {
            use_type_invariant(self);
        }
        self.config.interval_ms - self.elapsed_ms
    }
}

} // verus!
