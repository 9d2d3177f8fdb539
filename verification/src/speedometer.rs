//! Throughput estimators.
//!
//! Each estimator is fed `(duration_ms, msgs)` samples and reports the current
//! speed in messages per second. A speed is an exact rational [`Rate`]: the
//! quotient `num / den` is the estimate, and the division is left to the
//! caller (the dashboard formats it; tests divide as floats). `den == 0`
//! encodes the result of a measurement over no elapsed time, mirroring the
//! infinities a floating-point division would produce.

use std::collections::VecDeque;
use std::ops::Index;
use vstd::arithmetic::div_mod::lemma_add_mod_noop;
use vstd::arithmetic::div_mod::lemma_fundamental_div_mod;
use vstd::arithmetic::div_mod::lemma_mod_self_0;
use vstd::arithmetic::div_mod::lemma_small_mod;
use vstd::arithmetic::div_mod::lemma_mul_mod_noop_left;
use vstd::prelude::*;

verus! {

/// A speed in messages per second, as the exact ratio `num / den`.
#[derive(Clone, Copy, PartialEq, Eq, Structural, Debug)]
pub struct Rate {
    pub num: u64,
    pub den: u64,
}

/// Remembers only the most recent measurement; its speed is
/// `msgs * 1000 / duration` of that sample alone.
pub struct InstantSpeedometer {
    num: u64,
    den: u64,
}

impl InstantSpeedometer {
    /// The current speed as an exact ratio.
    pub closed spec fn speed(&self) -> Rate {
        Rate { num: self.num, den: self.den }
    }

    /// Starts at a speed of zero.
    pub fn new() -> (r: Self)
        ensures
            r.speed() == (Rate { num: 0u64, den: 1u64 }),
    {
        InstantSpeedometer { num: 0, den: 1 }
    }

    /// Get the current speed in messages per second.
    pub fn get_speed(&self) -> (r: Rate)
        ensures
            r == self.speed(),
    {
        Rate { num: self.num, den: self.den }
    }

    /// Replace the remembered sample: the speed becomes
    /// `msgs * 1000 / duration` (with `duration == 0` yielding a
    /// zero denominator, the analogue of an infinite rate).
    pub fn add_measurement(&mut self, duration: u32, msgs: u32)
        ensures
            final(self).speed().num == msgs * 1000,
            final(self).speed().den == duration,
    {
        self.num = msgs as u64 * 1000;
        self.den = duration as u64;
    }
}

impl Default for InstantSpeedometer {
    /// Starts at a speed of zero.
    fn default() -> (r: Self)
        ensures
            r.speed() == (Rate { num: 0u64, den: 1u64 }),
    {
        InstantSpeedometer::new()
    }
}

/// One retained sample of a sliding-window estimator.
#[derive(Clone, Copy, PartialEq, Eq, Structural, Debug)]
pub struct Measurement {
    pub duration: u32,
    pub msgs: u32,
}

/// Total message count over a window of samples.
pub open spec fn sum_msgs(w: Seq<Measurement>) -> nat
    decreases w.len(),
{
    if w.len() == 0 {
        0
    } else {
        sum_msgs(w.drop_last()) + w.last().msgs as nat
    }
}

/// Total elapsed milliseconds over a window of samples.
pub open spec fn sum_durations(w: Seq<Measurement>) -> nat
    decreases w.len(),
{
    if w.len() == 0 {
        0
    } else {
        sum_durations(w.drop_last()) + w.last().duration as nat
    }
}

/// How a bounded window evolves when one sample arrives: the oldest sample
/// is evicted once the window is full.
pub open spec fn ring_push(w: Seq<Measurement>, cap: nat, m: Measurement) -> Seq<Measurement> {
    if w.len() >= cap {
        w.drop_first().push(m)
    } else {
        w.push(m)
    }
}

/// The window after a whole sequence of samples has been fed, oldest first.
pub open spec fn ring_feed(w: Seq<Measurement>, cap: nat, ms: Seq<Measurement>) -> Seq<Measurement>
    decreases ms.len(),
{
    if ms.len() == 0 {
        w
    } else {
        ring_feed(ring_push(w, cap, ms[0]), cap, ms.drop_first())
    }
}

/// Feeding any number of samples leaves the window equal to the tail of
/// everything seen so far, cut to the capacity.
pub proof fn lemma_ring_feed_is_suffix(w: Seq<Measurement>, cap: nat, ms: Seq<Measurement>)
    requires
        1 <= cap,
        w.len() <= cap,
    ensures
        ring_feed(w, cap, ms) =~= ({
            let t = w + ms;
            if t.len() <= cap {
                t
            } else {
                t.subrange(t.len() - cap, t.len() as int)
            }
        }),
    decreases ms.len(),
{
    if ms.len() == 0 {
        assert(w + ms =~= w);
    } else {
        let w1 = ring_push(w, cap, ms[0]);
        assert(w1.len() <= cap);
        lemma_ring_feed_is_suffix(w1, cap, ms.drop_first());
        assert(w1 + ms.drop_first() =~= ({
            let t = w + ms;
            if w.len() >= cap {
                t.subrange(1, t.len() as int)
            } else {
                t
            }
        }));
    }
}

/// A sliding-window estimator fed at least as many samples as its capacity
/// `N` retains exactly the most recent `N` of them, whatever it held before.
pub proof fn lemma_window_keeps_most_recent(w: Seq<Measurement>, cap: nat, ms: Seq<Measurement>)
    requires
        1 <= cap,
        w.len() <= cap,
        ms.len() >= cap,
    ensures
        ring_feed(w, cap, ms) =~= ms.subrange(ms.len() - cap, ms.len() as int),
{
    lemma_ring_feed_is_suffix(w, cap, ms);
}

/// Retains the most recent `capacity` samples; its speed is the total
/// message count over the total elapsed time of the window.
pub struct RingbufferSpeedometer {
    cap: usize,
    ring: VecDeque<Measurement>,
}

impl RingbufferSpeedometer {
    /// The retained window, oldest sample first.
    pub closed spec fn window(&self) -> Seq<Measurement> {
        self.ring@
    }

    /// The fixed bound on how many samples are retained.
    pub closed spec fn capacity(&self) -> nat {
        self.cap as nat
    }

    /// The window never exceeds the capacity; the capacity bound keeps the
    /// numerator `1000 * sum_msgs` within `u64` in `get_speed`.
    pub open spec fn wf(&self) -> bool {
        &&& self.window().len() <= self.capacity()
        &&& 1 <= self.capacity() <= 4_000_000
    }

    /// An empty window with the given capacity. The capacity must be
    /// positive; the upper bound is what keeps the speed numerator from
    /// overflowing machine integers.
    pub fn new(capacity: usize) -> (r: Self)
        requires
            1 <= capacity <= 4_000_000,
        ensures
            r.wf(),
            r.capacity() == capacity,
            r.window() == Seq::<Measurement>::empty(),
    {
        RingbufferSpeedometer { cap: capacity, ring: VecDeque::new() }
    }

    /// Append a sample, evicting the oldest one if the window is full.
    pub fn add_measurement(&mut self, duration: u32, msgs: u32)
        requires
            old(self).wf(),
        ensures
            final(self).wf(),
            final(self).capacity() == old(self).capacity(),
            final(self).window() == ring_push(
                old(self).window(),
                old(self).capacity(),
                Measurement { duration, msgs },
            ),
    {
        if self.ring.len() >= self.cap {
            let _ = self.ring.pop_front();
        }
        self.ring.push_back(Measurement { duration, msgs });
    }

    /// Get the current speed in messages per second: the window's message
    /// total over its duration total, or zero for an empty window.
    pub fn get_speed(&self) -> (r: Rate)
        requires
            self.wf(),
        ensures
            self.window().len() == 0 ==> r == (Rate { num: 0u64, den: 1u64 }),
            self.window().len() > 0 ==> r.num == 1000 * sum_msgs(self.window()) && r.den
                == sum_durations(self.window()),
    {
        if self.ring.len() == 0 {
            return Rate { num: 0, den: 1 };
        }
        let ghost w = self.window();
        let mut msgs_total: u64 = 0;
        let mut duration_total: u64 = 0;
        let mut i: usize = 0;
        while i < self.ring.len()
            invariant
                self.wf(),
                w == self.window(),
                i <= w.len(),
                msgs_total == sum_msgs(w.take(i as int)),
                duration_total == sum_durations(w.take(i as int)),
                msgs_total <= i * 0xffff_ffff,
                duration_total <= i * 0xffff_ffff,
            decreases w.len() - i,
        {
            let m = *self.ring.index(i);
            proof {
                assert(w.take(i + 1).drop_last() =~= w.take(i as int));
                assert(w.take(i + 1).last() == w[i as int]);
            }
            msgs_total = msgs_total + m.msgs as u64;
            duration_total = duration_total + m.duration as u64;
            i = i + 1;
        }
        proof {
            assert(w.take(w.len() as int) =~= w);
        }
        Rate { num: msgs_total * 1000, den: duration_total }
    }
}

} // verus!

verus! {

/// Greatest common divisor by Euclid's rule.
pub open spec fn gcd(a: nat, b: nat) -> nat
    decreases b,
{
    if b == 0 {
        a
    } else {
        gcd(b, a % b)
    }
}

/// When `b` is positive, `gcd(a, b)` is a positive common divisor of `a`
/// and `b`, and no larger than `b`.
pub proof fn lemma_gcd_properties(a: nat, b: nat)
    requires
        b > 0,
    ensures
        1 <= gcd(a, b) <= b,
        a % gcd(a, b) == 0,
        b % gcd(a, b) == 0,
    decreases b,
{
    let r = a % b;
    if r == 0 {
        lemma_mod_self_0(b as int);
    } else {
        lemma_gcd_properties(b, r);
        let g = gcd(b, r) as int;
        let bi = a as int / b as int;
        lemma_fundamental_div_mod(a as int, b as int);
        lemma_mul_mod_noop_left(b as int, bi, g);
        lemma_add_mod_noop(b as int * bi, r as int, g);
        assert(b as int % g == 0);
        assert((b as int % g) * bi == 0);
        assert(0int % g == 0) by {
            lemma_small_mod(0, g as nat);
        }
        assert((b as int * bi) % g == 0);
        assert(a as int % g == ((b as int * bi) % g + r as int % g) % g);
    }
}

/// Euclid's algorithm; the result is exactly the mathematical `gcd`.
fn gcd_u128(a: u128, b: u128) -> (g: u128)
    ensures
        g as nat == gcd(a as nat, b as nat),
{
    let mut x = a;
    let mut y = b;
    while y != 0
        invariant
            gcd(x as nat, y as nat) == gcd(a as nat, b as nat),
        decreases y,
    {
        let r = x % y;
        x = y;
        y = r;
    }
    x
}

impl Default for RingbufferSpeedometer {
    /// An empty window with room for 1024 samples.
    fn default() -> (r: Self)
        ensures
            r.wf(),
            r.capacity() == 1024,
            r.window() == Seq::<Measurement>::empty(),
    {
        RingbufferSpeedometer::new(1024)
    }
}

/// Keeps one running speed; every sample folds the sample's own
/// instantaneous speed into it with a fixed smoothing factor.
///
/// The factor is the rational `factor_num / factor_den` and the running
/// speed is kept as an exact, gcd-reduced rational.
pub struct SmootherSpeedometer {
    num: u64,
    den: u64,
    factor_num: u32,
    factor_den: u32,
}

impl SmootherSpeedometer {
    /// The current speed as an exact ratio.
    pub closed spec fn speed(&self) -> Rate {
        Rate { num: self.num, den: self.den }
    }

    /// Numerator of the smoothing factor.
    pub closed spec fn f_num(&self) -> nat {
        self.factor_num as nat
    }

    /// Denominator of the smoothing factor.
    pub closed spec fn f_den(&self) -> nat {
        self.factor_den as nat
    }

    /// The factor is a fraction in `[0, 1]` and the speed's denominator
    /// stays positive.
    pub open spec fn wf(&self) -> bool {
        &&& 1 <= self.speed().den
        &&& 1 <= self.f_den()
        &&& self.f_num() <= self.f_den()
    }

    /// Exact numerator of `factor * instant + (1 - factor) * speed`, over the
    /// common denominator [`Self::update_den`], where `instant` is the
    /// sample's own speed `msgs * 1000 / duration`.
    pub open spec fn update_num(&self, duration: u32, msgs: u32) -> int {
        self.f_num() * (msgs * 1000) * self.speed().den + (self.f_den() - self.f_num())
            * self.speed().num * duration
    }

    /// Exact denominator of the smoothed speed before reduction.
    pub open spec fn update_den(&self, duration: u32) -> int {
        self.f_den() * duration * self.speed().den
    }

    /// Whether the exact update, reduced by the gcd, fits the machine
    /// integers that hold the running speed. When it does not, the sample is
    /// discarded, as a floating-point smoother discards a non-finite result.
    pub open spec fn update_fits(&self, duration: u32, msgs: u32) -> bool {
        let n = self.update_num(duration, msgs);
        let d = self.update_den(duration);
        let g = gcd(n as nat, d as nat) as int;
        &&& self.f_num() * (msgs * 1000) * self.speed().den <= u128::MAX
        &&& (self.f_den() - self.f_num()) * self.speed().num * duration <= u128::MAX
        &&& n <= u128::MAX
        &&& n / g <= u64::MAX
        &&& d / g <= u64::MAX
    }

    /// Starts at a speed of zero, smoothing with `factor_num / factor_den`.
    pub fn new(factor_num: u32, factor_den: u32) -> (r: Self)
        requires
            1 <= factor_den,
            factor_num <= factor_den,
        ensures
            r.wf(),
            r.speed() == (Rate { num: 0u64, den: 1u64 }),
            r.f_num() == factor_num,
            r.f_den() == factor_den,
    {
        SmootherSpeedometer { num: 0, den: 1, factor_num, factor_den }
    }

    /// Get the current speed in messages per second.
    pub fn get_speed(&self) -> (r: Rate)
        ensures
            r == self.speed(),
    {
        Rate { num: self.num, den: self.den }
    }

    /// Fold one sample into the running speed:
    /// `speed' = factor * (msgs * 1000 / duration) + (1 - factor) * speed`,
    /// computed exactly and reduced by the gcd. A sample over no elapsed
    /// time is skipped (the division would be meaningless), and a sample
    /// whose exact update no longer fits the machine integers is discarded;
    /// both mirror how a floating-point smoother refuses NaN and infinity
    /// rather than corrupting every later value.
    pub fn add_measurement(&mut self, duration: u32, msgs: u32)
        requires
            old(self).wf(),
        ensures
            final(self).wf(),
            final(self).f_num() == old(self).f_num(),
            final(self).f_den() == old(self).f_den(),
            duration == 0 ==> final(self).speed() == old(self).speed(),
            duration > 0 && !old(self).update_fits(duration, msgs) ==> final(self).speed()
                == old(self).speed(),
            duration > 0 && old(self).update_fits(duration, msgs) ==> {
                let n = old(self).update_num(duration, msgs);
                let d = old(self).update_den(duration);
                let g = gcd(n as nat, d as nat) as int;
                final(self).speed().num == n / g && final(self).speed().den == d / g
            },
    {
        if duration == 0 {
            return;
        }
        let instant_num: u128 = msgs as u128 * 1000;
        proof {
            assert(self.f_num() * (instant_num as int) <= u128::MAX) by (nonlinear_arith)
                requires
                    self.f_num() < 0x1_0000_0000,
                    instant_num <= 0xffff_ffffu64 * 1000,
            ;
            assert((self.f_den() - self.f_num()) * self.speed().num <= u128::MAX)
                by (nonlinear_arith)
                requires
                    self.f_num() <= self.f_den() < 0x1_0000_0000,
                    self.speed().num <= u64::MAX,
            ;
        }
        let term_a = match (self.factor_num as u128 * instant_num).checked_mul(self.den as u128) {
            Some(x) => x,
            None => {
                return;
            },
        };
        let term_b = match (((self.factor_den - self.factor_num) as u128) * (self.num as u128))
            .checked_mul(duration as u128) {
            Some(x) => x,
            None => {
                return;
            },
        };
        let n = match term_a.checked_add(term_b) {
            Some(x) => x,
            None => {
                return;
            },
        };
        proof {
            assert(1 <= self.f_den() * duration <= 0xffff_ffff_ffff_ffff && 1 <= self.f_den()
                * duration * self.speed().den < u128::MAX) by (nonlinear_arith)
                requires
                    self.f_den() < 0x1_0000_0000,
                    duration < 0x1_0000_0000,
                    self.speed().den <= u64::MAX,
                    1 <= self.f_den(),
                    1 <= duration,
                    1 <= self.speed().den,
            ;
        }
        let d: u128 = (self.factor_den as u128) * (duration as u128) * (self.den as u128);
        let ghost nn = self.update_num(duration, msgs);
        let ghost dd = self.update_den(duration);
        let g = gcd_u128(n, d);
        proof {
            lemma_gcd_properties(n as nat, d as nat);
            assert(d as int / g as int >= 1) by (nonlinear_arith)
                requires
                    1 <= g as int <= d as int,
            ;
        }
        let new_num = n / g;
        let new_den = d / g;
        if new_num > u64::MAX as u128 || new_den > u64::MAX as u128 {
            return;
        }
        self.num = new_num as u64;
        self.den = new_den as u64;
    }
}

} // verus!

verus! {

impl Default for SmootherSpeedometer {
    /// Starts at a speed of zero with a smoothing factor of one tenth.
    fn default() -> (r: Self)
        ensures
            r.wf(),
            r.speed() == (Rate { num: 0u64, den: 1u64 }),
            r.f_num() == 1,
            r.f_den() == 10,
    {
        SmootherSpeedometer::new(1, 10)
    }
}

} // verus!
