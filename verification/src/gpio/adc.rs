//! ADC channel management for `analog_in` GPIO pins: a set of channels with
//! pin-conflict detection and coordinated sampling, over any sampler that
//! implements [`AdcSampler`].

use vstd::prelude::*;
use std::collections::HashMap;
use crate::text::{self, push_str};

verus! {

/// 12-bit ADC maximum raw value.
pub const ADC_MAX_RAW: u16 = 4095;

/// Sampling of one ADC channel; implemented by the hardware driver and by
/// test doubles. Nothing is assumed of what an implementation returns.
pub trait AdcSampler {
    /// Sample the raw analog value (0 to 4095 for a 12-bit ADC).
    fn sample(&mut self) -> Result<u16, String>;

    /// GPIO pin number for this channel.
    fn pin_num(&self) -> u8;

    /// Display name for this channel.
    fn name(&self) -> &str;
}

/// A boxed channel is the channel in the box: its pin number and name are
/// what the channel in the box returns.
impl<T: AdcSampler + ?Sized> AdcSampler for Box<T> {
    fn sample(&mut self) -> Result<u16, String> {
        (**self).sample()
    }

    fn pin_num(&self) -> (r: u8)
        ensures
            call_ensures(T::pin_num, (&**self,), r),
    {
        (**self).pin_num()
    }

    fn name(&self) -> (r: &str)
        ensures
            call_ensures(T::name, (&**self,), r),
    {
        (**self).name()
    }
}

/// The message of a pin conflict.
pub open spec fn conflict_text(pin: u8, existing: Seq<char>, name: Seq<char>) -> Seq<char> {
    "ADC pin conflict: GPIO"@ + text::ascii_chars(text::decimal_digits(pin as nat))
        + " already allocated to '"@ + existing + "', cannot assign to '"@ + name + "'"@
}

/// A set of ADC channels with pin-conflict detection and coordinated sampling.
pub struct AdcChannelSet<S: AdcSampler = Box<dyn AdcSampler>> {
    channels: Vec<S>,
    allocated_pins: HashMap<u8, String>,
}

impl<S: AdcSampler> AdcChannelSet<S> {
    /// Number of registered channels.
    pub closed spec fn count(&self) -> nat {
        self.channels@.len()
    }

    /// The registered channels, in the order they were added.
    pub closed spec fn channel_seq(&self) -> Seq<S> {
        self.channels@
    }

    /// The allocated pins, each with the name of the channel that holds it.
    pub closed spec fn view_pins(&self) -> Map<u8, Seq<char>> {
        self.allocated_pins@.map_values(|s: String| s@)
    }

    /// `next` and `r` are what registering a channel that reports `pin` and
    /// `name` in `prev` gives: a conflict error, with nothing changed, when
    /// the pin is taken; otherwise the pin is allocated to the name and the
    /// channel is added.
    pub open spec fn registered(prev: Self, next: Self, r: Result<(), String>, pin: u8, name: Seq<char>) -> bool {
        if prev.view_pins().contains_key(pin) {
            &&& r is Err
            &&& r->Err_0@ == conflict_text(pin, prev.view_pins()[pin], name)
            &&& next.count() == prev.count()
            &&& next.view_pins() == prev.view_pins()
        } else {
            &&& r is Ok
            &&& next.count() == prev.count() + 1
            &&& next.view_pins() == prev.view_pins().insert(pin, name)
        }
    }

    /// Register a channel that reports `pin` and `name`. Fails, leaving the
    /// set unchanged, when the pin is already allocated; the message names
    /// the pin, the channel that holds it and the new channel.
    pub fn add_reported_channel(&mut self, channel: S, pin: u8, name: String) -> (r: Result<(), String>)
        ensures
            Self::registered(*old(self), *final(self), r, pin, name@),
            r is Ok ==> final(self).channel_seq() == old(self).channel_seq().push(channel),
            r is Err ==> final(self).channel_seq() == old(self).channel_seq(),
    {
        match self.allocated_pins.get(&pin) {
            Some(existing) => {
                let mut msg = String::new();
                push_str(&mut msg, "ADC pin conflict: GPIO");
                let n = text::decimal_string(pin as u64);
                push_str(&mut msg, n.as_str());
                push_str(&mut msg, " already allocated to '");
                push_str(&mut msg, existing.as_str());
                push_str(&mut msg, "', cannot assign to '");
                push_str(&mut msg, name.as_str());
                push_str(&mut msg, "'");
                return Err(msg);
            },
            None => {},
        }
        let ghost old_pins = self.view_pins();
        let ghost nm = name@;
        self.allocated_pins.insert(pin, name);
        self.channels.push(channel);
        proof {
            assert(self.view_pins() =~= old_pins.insert(pin, nm));
        }
        Ok(())
    }

    /// Register an ADC channel under the pin and name it reports. Fails,
    /// leaving the set unchanged, when that pin is already allocated.
    pub fn add_channel(&mut self, channel: S) -> (r: Result<(), String>)
        ensures
            exists|pin: u8, name: &str|
                #![trigger call_ensures(S::pin_num, (&channel,), pin), call_ensures(S::name, (&channel,), name)]
                call_ensures(S::pin_num, (&channel,), pin) && call_ensures(S::name, (&channel,), name)
                    && Self::registered(*old(self), *final(self), r, pin, name@),
            r is Ok ==> final(self).channel_seq() == old(self).channel_seq().push(channel),
            r is Err ==> final(self).channel_seq() == old(self).channel_seq(),
    {
        let pin = channel.pin_num();
        let reported = channel.name();
        let name = text::to_string(reported);
        let ghost nm = name@;
        let ghost c = channel;
        assert(call_ensures(S::pin_num, (&c,), pin));
        assert(call_ensures(S::name, (&c,), reported));
        let r = self.add_reported_channel(channel, pin, name);
        assert(Self::registered(*old(self), *self, r, pin, nm));
        r
    }

    /// Number of registered channels.
    pub fn len(&self) -> (r: usize)
        ensures
            r == self.count(),
    {
        self.channels.len()
    }

    /// Whether no channel is registered.
    pub fn is_empty(&self) -> (r: bool)
        ensures
            r == (self.count() == 0),
    {
        self.channels.len() == 0
    }

    /// Whether a GPIO pin is already allocated.
    pub fn is_pin_allocated(&self, pin: u8) -> (r: bool)
        ensures
            r == self.view_pins().contains_key(pin),
    {
        self.allocated_pins.contains_key(&pin)
    }

    /// Sample every channel in order, giving the pin, name and result that
    /// each reports: each channel is sampled once, and what its `sample`
    /// returned stands in its slot. The allocated pins stay as they are; each
    /// channel is what its sampling left.
    pub fn sample_all(&mut self) -> (r: Vec<(u8, String, Result<u16, String>)>)
        ensures
            r@.len() == old(self).count(),
            final(self).count() == old(self).count(),
            final(self).view_pins() == old(self).view_pins(),
            forall|i: int|
                0 <= i < r@.len() ==> {
                    &&& call_ensures(S::pin_num, (&old(self).channel_seq()[i],), (#[trigger] r@[i]).0)
                    &&& exists|name: &str|
                        #![trigger call_ensures(S::name, (&old(self).channel_seq()[i],), name)]
                        call_ensures(S::name, (&old(self).channel_seq()[i],), name) && r@[i].1@ == name@
                    &&& exists|x: &mut S|
                        #![trigger call_ensures(S::sample, (x,), r@[i].2)]
                        mut_ref_current(x) == old(self).channel_seq()[i] && mut_ref_future(x)
                            == final(self).channel_seq()[i] && call_ensures(S::sample, (x,), r@[i].2)
                },
    {
        let ghost pins0 = self.view_pins();
        let ghost chans0 = self.channels@;
        let n = self.channels.len();
        let mut out: Vec<(u8, String, Result<u16, String>)> = Vec::new();
        let mut i: usize = 0;
        while i < n
            invariant
                n == self.channels@.len(),
                self.view_pins() == pins0,
                i <= n,
                out@.len() == i,
                chans0.len() == n,
                forall|j: int| i <= j < n ==> self.channels@[j] == chans0[j],
                forall|j: int|
                    0 <= j < i ==> {
                        &&& call_ensures(S::pin_num, (&chans0[j],), (#[trigger] out@[j]).0)
                        &&& exists|name: &str|
                            #![trigger call_ensures(S::name, (&chans0[j],), name)]
                            call_ensures(S::name, (&chans0[j],), name) && out@[j].1@ == name@
                        &&& exists|x: &mut S|
                            #![trigger call_ensures(S::sample, (x,), out@[j].2)]
                            mut_ref_current(x) == chans0[j] && mut_ref_future(x) == self.channels@[j]
                                && call_ensures(S::sample, (x,), out@[j].2)
                    },
            decreases n - i,
        {
            let ghost c = self.channels@[i as int];
            let pin = self.channels[i].pin_num();
            let reported = self.channels[i].name();
            let name = text::to_string(reported);
            proof {
                assert(call_ensures(S::pin_num, (&c,), pin));
                assert(call_ensures(S::name, (&c,), reported));
            }
            let ghost chans_before = self.channels@;
            let x = &mut self.channels[i];
            proof {
                assert(mut_ref_current(x) == c);
            }
            let result = S::sample(x);
            let ghost sampled = exists|y: &mut S|
                #![trigger call_ensures(S::sample, (y,), result)]
                mut_ref_current(y) == c && mut_ref_future(y) == self.channels@[i as int] && call_ensures(
                    S::sample,
                    (y,),
                    result,
                );
            proof {
                assert(sampled);
            }
            let ghost before = out@;
            out.push((pin, name, result));
            proof {
                assert(out@[i as int] == (pin, name, result));
                assert forall|j: int| 0 <= j < i implies out@[j] == before[j] && self.channels@[j] == chans_before[j] by {}
                assert forall|j: int| #![trigger out@[j]] 0 <= j < i + 1 implies exists|y: &mut S|
                    #![trigger call_ensures(S::sample, (y,), out@[j].2)]
                    mut_ref_current(y) == chans0[j] && mut_ref_future(y) == self.channels@[j]
                        && call_ensures(S::sample, (y,), out@[j].2) by {
                    if j < i {
                        assert(out@[j] == before[j]);
                        assert(self.channels@[j] == chans_before[j]);
                    } else {
                        assert(out@[j].2 == result);
                        assert(chans0[j] == c);
                    }
                }
            }
            i = i + 1;
        }
        proof {
            let cs = old(self).channel_seq();
            assert(chans0 == cs);
            assert forall|k: int| 0 <= k < out@.len() implies {
                &&& call_ensures(S::pin_num, (&cs[k],), (#[trigger] out@[k]).0)
                &&& exists|name: &str|
                    #![trigger call_ensures(S::name, (&cs[k],), name)]
                    call_ensures(S::name, (&cs[k],), name) && out@[k].1@ == name@
                &&& exists|x: &mut S|
                    #![trigger call_ensures(S::sample, (x,), out@[k].2)]
                    mut_ref_current(x) == cs[k] && mut_ref_future(x) == self.channels@[k]
                        && call_ensures(S::sample, (x,), out@[k].2)
            } by {
                let nm = choose|name: &str| call_ensures(S::name, (&chans0[k],), name) && out@[k].1@ == name@;
                assert(call_ensures(S::name, (&cs[k],), nm));
            }
        }
        out
    }
}

/// In every set reached from an empty one by registering channels, the
/// number of channels equals the number of allocated pins: a registration
/// that adds a channel allocates a pin that was free, and one that fails
/// changes neither.
pub proof fn law_channels_match_pins<S: AdcSampler>(
    prev: AdcChannelSet<S>,
    next: AdcChannelSet<S>,
    r: Result<(), String>,
    pin: u8,
    name: Seq<char>,
)
    requires
        prev.view_pins().dom().finite(),
        prev.count() == prev.view_pins().dom().len(),
        AdcChannelSet::<S>::registered(prev, next, r, pin, name),
    ensures
        next.view_pins().dom().finite(),
        next.count() == next.view_pins().dom().len(),
{
    if !prev.view_pins().contains_key(pin) {
        assert(next.view_pins().dom() =~= prev.view_pins().dom().insert(pin));
    }
}

/// Over any run of registrations from an empty set, the allocated pins are
/// exactly the pins of the registrations that succeeded, and there are as
/// many channels as allocated pins (the accepted channels hold distinct
/// pins). `states[i + 1]`, `results[i]` are what registering a channel
/// reporting `pins[i]` and `names[i]` in `states[i]` gave.
pub proof fn law_pins_over_registrations<S: AdcSampler>(
    states: Seq<AdcChannelSet<S>>,
    results: Seq<Result<(), String>>,
    pins: Seq<u8>,
    names: Seq<Seq<char>>,
)
    requires
        states.len() == results.len() + 1,
        pins.len() == results.len(),
        names.len() == results.len(),
        states[0].count() == 0,
        states[0].view_pins() == Map::<u8, Seq<char>>::empty(),
        forall|i: int|
            0 <= i < results.len() ==> #[trigger] AdcChannelSet::<S>::registered(
                states[i],
                states[i + 1],
                results[i],
                pins[i],
                names[i],
            ),
    ensures
        states.last().view_pins().dom().finite(),
        states.last().count() == states.last().view_pins().dom().len(),
        forall|p: u8|
            states.last().view_pins().contains_key(p) <==> exists|j: int|
                0 <= j < results.len() && results[j] is Ok && pins[j] == p,
    decreases results.len(),
{
    let n = results.len();
    if n == 0 {
        assert(states.last() == states[0]);
        assert(states[0].view_pins().dom() =~= Set::<u8>::empty());
    } else {
        let k = n - 1;
        let ss = states.drop_last();
        let rs = results.drop_last();
        let ps = pins.drop_last();
        let ns = names.drop_last();
        assert forall|i: int| 0 <= i < rs.len() implies #[trigger] AdcChannelSet::<S>::registered(
            ss[i],
            ss[i + 1],
            rs[i],
            ps[i],
            ns[i],
        ) by {
            assert(AdcChannelSet::<S>::registered(states[i], states[i + 1], results[i], pins[i], names[i]));
        }
        law_pins_over_registrations(ss, rs, ps, ns);
        assert(ss.last() == states[k]);
        assert(AdcChannelSet::<S>::registered(states[k], states[k + 1], results[k], pins[k], names[k]));
        law_channels_match_pins(states[k], states[k + 1], results[k], pins[k], names[k]);
        assert(states.last() == states[k + 1]);
        assert forall|p: u8|
            states.last().view_pins().contains_key(p) <==> exists|j: int|
                0 <= j < results.len() && results[j] is Ok && pins[j] == p by {
            if states.last().view_pins().contains_key(p) {
                if !states[k].view_pins().contains_key(p) {
                    assert(results[k] is Ok && pins[k] == p);
                } else {
                    let j = choose|j: int| 0 <= j < rs.len() && rs[j] is Ok && ps[j] == p;
                    assert(results[j] is Ok && pins[j] == p);
                }
            } else {
                assert forall|j: int| 0 <= j < results.len() && results[j] is Ok implies pins[j]
                    != p by {
                    if j < k {
                        assert(rs[j] is Ok && ps[j] == pins[j]);
                    }
                }
            }
        }
    }
}

impl AdcChannelSet<Box<dyn AdcSampler>> {
    /// An empty set of boxed channels.
    pub fn new() -> (r: Self)
        ensures
            r.count() == 0,
            r.view_pins() == Map::<u8, Seq<char>>::empty(),
    {
        let r = AdcChannelSet { channels: Vec::new(), allocated_pins: HashMap::new() };
        proof {
            assert(r.view_pins() =~= Map::<u8, Seq<char>>::empty());
        }
        r
    }
}

} // verus!
