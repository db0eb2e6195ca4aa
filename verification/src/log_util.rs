//! Log rate limiting: a message is emitted at most once per time window;
//! repeats within the window are counted and suppressed.

use vstd::prelude::*;
use vstd::string::*;
use std::collections::HashMap;
use std::time::{Duration, Instant};

verus! {

/// `std::time::Instant`, the moment a message was last emitted.
#[verifier::external_type_specification]
#[verifier::external_body]
pub struct ExInstant(Instant);

/// The current moment.
///
/// Calls `Instant::now`; nothing is stated of the clock.
#[verifier::external_body]
fn instant_now() -> (r: Instant) {
    Instant::now()
}

/// What `Instant::duration_since` gives for `now` and `earlier`: the time
/// between them, zero when `earlier` is later.
pub uninterp spec fn time_between(now: Instant, earlier: Instant) -> Duration;

/// The time from `earlier` to `now`.
///
/// Calls `Instant::duration_since`, which depends on its two arguments alone
/// and saturates at zero (std documents that it does not panic).
#[verifier::external_body]
fn duration_since(now: &Instant, earlier: &Instant) -> (r: Duration)
    ensures
        r == time_between(*now, *earlier),
{
    now.duration_since(*earlier)
}

/// What `Duration::as_secs` gives: the whole seconds of `d`.
pub uninterp spec fn whole_secs(d: Duration) -> u64;

/// Whole seconds of a duration.
///
/// Calls `Duration::as_secs`, which depends on the duration alone.
#[verifier::external_body]
fn duration_secs(d: &Duration) -> (r: u64)
    ensures
        r == whole_secs(*d),
{
    d.as_secs()
}

/// The whole seconds from `earlier` to `now`.
pub open spec fn secs_between(now: Instant, earlier: Instant) -> u64 {
    whole_secs(time_between(now, earlier))
}

/// Default suppression window in seconds.
pub const DEFAULT_WINDOW_SECS: u64 = 10;

/// One FNV-1a step.
pub open spec fn fnv1a_step(h: u64, b: u8) -> u64 {
    (h ^ (b as u64)).wrapping_mul(0x100000001b3u64)
}

/// The FNV-1a hash of `b`, continuing from `h`.
pub open spec fn fnv1a_from(h: u64, b: Seq<u8>) -> u64
    decreases b.len(),
{
    if b.len() == 0 {
        h
    } else {
        fnv1a_step(fnv1a_from(h, b.drop_last()), b.last())
    }
}

/// The 64-bit FNV-1a hash of `b`.
pub open spec fn fnv1a(b: Seq<u8>) -> u64 {
    fnv1a_from(0xcbf29ce484222325u64, b)
}

/// The FNV-1a hash of a message's bytes, the key under which repeats are counted.
pub fn hash_msg(msg: &str) -> (r: u64)
    ensures
        r == fnv1a(msg.spec_bytes()),
{
    let b = msg.as_bytes();
    let mut h: u64 = 0xcbf29ce484222325u64;
    let mut i: usize = 0;
    while i < b.len()
        invariant
            i <= b@.len(),
            h == fnv1a_from(0xcbf29ce484222325u64, b@.subrange(0, i as int)),
        decreases b@.len() - i,
    {
        proof {
            assert(b@.subrange(0, i + 1).drop_last() =~= b@.subrange(0, i as int));
        }
        h = (h ^ (b[i] as u64)).wrapping_mul(0x100000001b3u64);
        i = i + 1;
    }
    proof {
        assert(b@.subrange(0, i as int) =~= b@);
    }
    h
}

/// What happens to a repeated message `elapsed` seconds after it was last
/// emitted, having been suppressed `suppressed` times since: emitted, with
/// the count reset, once the window has passed; otherwise suppressed once more.
pub fn emit_decision(elapsed: u64, window_secs: u64, suppressed: u32) -> (r: (bool, u32))
    ensures
        elapsed >= window_secs ==> r == (true, 0u32),
        elapsed < window_secs ==> r == (false, suppressed.wrapping_add(1)),
{
    if elapsed >= window_secs {
        (true, 0)
    } else {
        (false, suppressed.wrapping_add(1))
    }
}

struct Entry {
    last_emit: Instant,
    suppressed_count: u32,
}

pub struct RateLimiter {
    window_secs: u64,
    entries: HashMap<u64, Entry>,
}

impl RateLimiter {
    /// The suppression window in seconds.
    pub closed spec fn window(&self) -> u64 {
        self.window_secs
    }

    /// For each message key seen, how often it was suppressed since it was last emitted.
    pub closed spec fn counts(&self) -> Map<u64, u32> {
        self.entries@.map_values(|e: Entry| e.suppressed_count)
    }

    /// A limiter with the default window of 10 seconds.
    pub fn new() -> (r: Self)
        ensures
            r.window() == DEFAULT_WINDOW_SECS,
            r.counts() == Map::<u64, u32>::empty(),
            r.stamps() == Map::<u64, Instant>::empty(),
    {
        Self::with_window(DEFAULT_WINDOW_SECS)
    }

    /// A limiter with the given window.
    pub fn with_window(window_secs: u64) -> (r: Self)
        ensures
            r.window() == window_secs,
            r.counts() == Map::<u64, u32>::empty(),
            r.stamps() == Map::<u64, Instant>::empty(),
    {
        let r = RateLimiter { window_secs, entries: HashMap::new() };
        proof {
            assert(r.counts() =~= Map::<u64, u32>::empty());
            assert(r.stamps() =~= Map::<u64, Instant>::empty());
        }
        r
    }

    /// The suppression window in seconds.
    pub fn window_secs(&self) -> (r: u64)
        ensures
            r == self.window(),
    {
        self.window_secs
    }

    /// When each message key seen was last emitted.
    pub closed spec fn stamps(&self) -> Map<u64, Instant> {
        self.entries@.map_values(|e: Entry| e.last_emit)
    }

    /// `next` and `emit` are what offering the message of key `key` to
    /// `prev` at the moment `now` gives. A message never seen is emitted;
    /// one seen before is emitted exactly when at least the window, in whole
    /// seconds, has passed since it was last emitted (so always with a window
    /// of 0). An emission stores `now` and
    /// resets the count; a suppression counts one more repeat and keeps the
    /// time of the last emission. Other keys are untouched.
    pub open spec fn offered(prev: Self, next: Self, key: u64, now: Instant, emit: bool) -> bool {
        &&& next.window() == prev.window()
        &&& next.counts().dom() == prev.counts().dom().insert(key)
        &&& next.stamps().dom() == next.counts().dom()
        &&& next.counts().remove(key) == prev.counts().remove(key)
        &&& next.stamps().remove(key) == prev.stamps().remove(key)
        &&& (!prev.counts().contains_key(key) ==> emit)
        &&& (prev.counts().contains_key(key) ==> (emit <==> secs_between(now, prev.stamps()[key])
            >= prev.window()))
        &&& (prev.window() == 0 ==> emit)
        &&& (emit ==> next.counts()[key] == 0 && next.stamps()[key] == now)
        &&& (!emit ==> prev.counts().contains_key(key) && next.counts()[key]
            == prev.counts()[key].wrapping_add(1) && next.stamps()[key] == prev.stamps()[key])
    }

    /// Offer a message at the moment `now`: whether to emit it, and, for an
    /// emission after suppressed repeats, how many repeats were suppressed
    /// and over how many whole seconds since the last emission.
    pub fn should_emit_at(&mut self, msg: &str, now: Instant) -> (r: (bool, Option<(u32, u64)>))
        ensures
            Self::offered(*old(self), *final(self), fnv1a(msg.spec_bytes()), now, r.0),
            match r.1 {
                Some((n, e)) => r.0 && old(self).counts().contains_key(fnv1a(msg.spec_bytes())) && n
                    == old(self).counts()[fnv1a(msg.spec_bytes())] && n > 0 && e == secs_between(
                    now,
                    old(self).stamps()[fnv1a(msg.spec_bytes())],
                ),
                None => !(r.0 && old(self).counts().contains_key(fnv1a(msg.spec_bytes()))
                    && old(self).counts()[fnv1a(msg.spec_bytes())] > 0),
            },
    {
        let key = hash_msg(msg);
        let ghost old_counts = self.counts();
        let ghost old_stamps = self.stamps();
        proof {
            assert(old_stamps.dom() =~= old_counts.dom());
        }
        let found = match self.entries.get(&key) {
            Some(entry) => Some((entry.last_emit, entry.suppressed_count)),
            None => None,
        };
        match found {
            Some((last_emit, suppressed)) => {
                let d = duration_since(&now, &last_emit);
                let elapsed = duration_secs(&d);
                let (emit, count) = emit_decision(elapsed, self.window_secs, suppressed);
                let stamp = if emit {
                    now
                } else {
                    last_emit
                };
                let ghost st = stamp;
                self.entries.insert(key, Entry { last_emit: stamp, suppressed_count: count });
                proof {
                    assert(self.counts() =~= old_counts.insert(key, count));
                    assert(self.stamps() =~= old_stamps.insert(key, st));
                    assert(self.stamps().dom() =~= self.counts().dom());
                    assert(self.counts().remove(key) =~= old_counts.remove(key));
                    assert(self.stamps().remove(key) =~= old_stamps.remove(key));
                }
                if emit && suppressed > 0 {
                    (true, Some((suppressed, elapsed)))
                } else {
                    (emit, None)
                }
            },
            None => {
                self.entries.insert(key, Entry { last_emit: now, suppressed_count: 0 });
                proof {
                    assert(self.counts() =~= old_counts.insert(key, 0u32));
                    assert(self.stamps() =~= old_stamps.insert(key, now));
                    assert(self.stamps().dom() =~= self.counts().dom());
                    assert(self.counts().remove(key) =~= old_counts.remove(key));
                    assert(self.stamps().remove(key) =~= old_stamps.remove(key));
                }
                (true, None)
            },
        }
    }

    /// Returns `true` if the message should be emitted now (the clock is read
    /// at this call): the first time it is seen, and again once the window
    /// has passed since it was last emitted. Suppressed repeats are counted;
    /// an emission resets the count and records the moment.
    pub fn should_emit(&mut self, msg: &str) -> (r: bool)
        ensures
            exists|now: Instant| Self::offered(*old(self), *final(self), fnv1a(msg.spec_bytes()), now, r),
    {
        let now = instant_now();
        let (emit, _) = self.should_emit_at(msg, now);
        emit
    }
}

} // verus!
