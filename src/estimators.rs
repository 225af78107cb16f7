use vstd::prelude::*;

verus! {

/// Largest value a millisecond quantity can hold; larger results saturate here.
pub open spec fn cap(x: int) -> int {
    if x > u64::MAX as int { u64::MAX as int } else { x }
}

pub open spec fn abs_diff(a: int, b: int) -> int {
    if a > b { a - b } else { b - a }
}

/// Retransmission timeout derived from a sample and the smoothed estimates, in ms.
pub open spec fn rto_formula(sample: int, srtt: int, rttvar: int) -> int {
    let var_term = if 4 * rttvar > 10 { 4 * rttvar } else { 10 };
    let base = if sample > srtt + var_term { sample } else { srtt + var_term };
    cap(base + 50)
}

/// Milliseconds elapsed from `since` to `now`, zero if the clock went backwards.
pub open spec fn elapsed(now: u64, since: u64) -> int {
    if now >= since { now - since } else { 0 }
}

/// Absolute difference of two integers.
pub fn diff(a: u64, b: u64) -> (r: u64)
    ensures
        r == abs_diff(a as int, b as int),
{
    if b > a {
        b - a
    } else {
        a - b
    }
}

/// How one call of `RttCalculator::record_sample` moves the estimator from
/// `o` to `n`.
pub open spec fn rtt_step(o: RttCalculator, sample: Option<u64>, now: u64, n: RttCalculator) -> bool {
    &&& match sample {
        None => {
            &&& n.srtt == o.srtt
            &&& n.rttvar == o.rttvar
            &&& n.rto == o.rto
            &&& n.existing == o.existing
        },
        Some(s) => {
            &&& !o.existing ==> n.srtt == s && n.rttvar == s / 2
            &&& o.existing ==> n.rttvar == o.rttvar * 3 / 4 + abs_diff(o.srtt as int, s as int) / 4
            &&& o.existing ==> n.srtt == o.srtt * 7 / 8 + s / 8
            &&& n.rto == rto_formula(s as int, n.srtt as int, n.rttvar as int)
            &&& n.existing
        },
    }
    &&& if n.srtt < o.min_rtt || elapsed(now, o.rtt_update_time) > 10000 {
        n.min_rtt == n.srtt && n.rtt_update_time == now
    } else {
        n.min_rtt == o.min_rtt && n.rtt_update_time == o.rtt_update_time
    }
}

/// How one call of `RateCalculator::record_sample` moves the estimator from
/// `o` to `n`.
pub open spec fn rate_step(o: RateCalculator, sample: Ratio, now: u64, n: RateCalculator) -> bool {
    if faster(sample, o.rate) || elapsed(now, o.rate_update_time) > 3000 {
        n.rate == sample && n.rate_update_time == now
    } else {
        n == o
    }
}

/// TCP-style round-trip estimator. All quantities are milliseconds; times are
/// readings of a monotonic clock in milliseconds.
pub struct RttCalculator {
    pub srtt: u64,
    pub rttvar: u64,
    pub rto: u64,
    pub min_rtt: u64,
    pub rtt_update_time: u64,
    pub existing: bool,
}

impl RttCalculator {
    /// The fresh estimator made at `now`.
    pub open spec fn new_spec(now: u64) -> RttCalculator {
        RttCalculator { srtt: 300, rttvar: 0, rto: 300, min_rtt: 300, rtt_update_time: now, existing: false }
    }

    /// A fresh estimator: SRTT, RTO and min-RTT are 300 ms, RTTVAR is 0.
    pub fn new(now: u64) -> (r: RttCalculator)
        ensures
            r.srtt == 300 && r.rttvar == 0 && r.rto == 300 && r.min_rtt == 300,
            r.rtt_update_time == now,
            !r.existing,
    {
        RttCalculator { srtt: 300, rttvar: 0, rto: 300, min_rtt: 300, rtt_update_time: now, existing: false }
    }

    /// Feeds one (Karn-filtered) sample in ms, or `None` for an ack that must
    /// not be sampled, then refreshes the min-RTT tracker.
    pub fn record_sample(&mut self, sample: Option<u64>, now: u64)
        ensures
            rtt_step(*old(self), sample, now, *final(self)),
    {
        if let Some(s) = sample {
            if !self.existing {
                self.srtt = s;
                self.rttvar = s / 2;
                self.existing = true;
            } else {
                let d = diff(self.srtt, s);
                let var: u128 = (self.rttvar as u128) * 3 / 4 + (d as u128) / 4;
                let sm: u128 = (self.srtt as u128) * 7 / 8 + (s as u128) / 8;
                self.rttvar = var as u64;
                self.srtt = sm as u64;
            }
            let four_var: u128 = 4 * (self.rttvar as u128);
            let var_term: u128 = if four_var > 10 { four_var } else { 10 };
            let base: u128 = if (s as u128) > (self.srtt as u128) + var_term {
                s as u128
            } else {
                (self.srtt as u128) + var_term
            };
            let full: u128 = base + 50;
            self.rto = if full > u64::MAX as u128 { u64::MAX } else { full as u64 };
        }
        let since = if now >= self.rtt_update_time { now - self.rtt_update_time } else { 0 };
        if self.srtt < self.min_rtt || since > 10000 {
            self.min_rtt = self.srtt;
            self.rtt_update_time = now;
        }
    }

    /// The current retransmission timeout in ms.
    pub fn rto(&self) -> (r: u64)
        ensures
            r == self.rto,
    {
        self.rto
    }
}

/// A non-negative rate written as a fraction: `num` messages over `den_ms`
/// milliseconds. A zero denominator with a non-zero numerator is an infinite
/// rate; zero over zero compares as neither larger nor smaller than anything.
#[derive(Clone, Copy, Debug, PartialEq, Eq, Structural)]
pub struct Ratio {
    pub num: u64,
    pub den_ms: u64,
}

/// `a` is strictly faster than `b`.
pub open spec fn faster(a: Ratio, b: Ratio) -> bool {
    a.num as int * b.den_ms as int > b.num as int * a.den_ms as int
}

impl Ratio {
    /// Whether `self` is a strictly larger rate than `other`.
    pub fn gt(&self, other: &Ratio) -> (r: bool)
        ensures
            r == faster(*self, *other),
    {
        let a: u128 = self.num as u128;
        let b: u128 = other.den_ms as u128;
        let c: u128 = other.num as u128;
        let d: u128 = self.den_ms as u128;
        proof {
            assert(a * b <= u64::MAX as int * u64::MAX as int) by (nonlinear_arith)
                requires a <= u64::MAX as int, b <= u64::MAX as int;
            assert(c * d <= u64::MAX as int * u64::MAX as int) by (nonlinear_arith)
                requires c <= u64::MAX as int, d <= u64::MAX as int;
        }
        a * b > c * d
    }
}

/// Delivery-rate estimator: a windowed maximum that decays by refreshing
/// after more than three seconds.
pub struct RateCalculator {
    pub rate: Ratio,
    pub rate_update_time: u64,
}

impl RateCalculator {
    /// Starts at 100 messages per second.
    pub fn new(now: u64) -> (r: RateCalculator)
        ensures
            r.rate == (Ratio { num: 100, den_ms: 1000 }),
            r.rate_update_time == now,
    {
        RateCalculator { rate: Ratio { num: 100, den_ms: 1000 }, rate_update_time: now }
    }

    /// Takes `sample` when it is faster than the current rate, or when the
    /// current rate is more than three seconds old.
    pub fn record_sample(&mut self, sample: Ratio, now: u64)
        ensures
            rate_step(*old(self), sample, now, *final(self)),
    {
        let since = if now >= self.rate_update_time { now - self.rate_update_time } else { 0 };
        if since > 3000 || sample.gt(&self.rate) {
            self.rate = sample;
            self.rate_update_time = now;
        }
    }
}

} // verus!
