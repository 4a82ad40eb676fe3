//! RFC 6298 round-trip estimation with exponential backoff.

use vstd::prelude::*;

use crate::arith::{add_u64, max_int, min_int, mul_u64, sat_add_u64, sat_mul_u64};

verus! {

/// The largest time value, in milliseconds, that the estimator accepts as a
/// sample; larger values would overflow the smoothing arithmetic.
pub const MAX_TIME_MS: u64 = 0x1000_0000_0000_0000;

pub struct RttState {
    pub have_measurement: bool,
    pub srtt_ms: int,
    pub rttvar_ms: int,
    pub rto_ms: int,
    pub min_rto_ms: int,
    pub max_rto_ms: int,
    pub consecutive_rtos: int,
}

/// `v` limited to `[lo, hi]`.
pub open spec fn clamp(v: int, lo: int, hi: int) -> int {
    if v < lo {
        lo
    } else if v > hi {
        hi
    } else {
        v
    }
}

/// `a / b` rounded up.
pub open spec fn div_ceil(a: int, b: int) -> int {
    (a + b - 1) / b
}

pub open spec fn abs_diff(a: int, b: int) -> int {
    if a >= b {
        a - b
    } else {
        b - a
    }
}

pub open spec fn rtt_new(initial: int, min: int, max: int) -> RttState {
    RttState {
        have_measurement: false,
        srtt_ms: 0,
        rttvar_ms: 0,
        rto_ms: clamp(initial, min, max),
        min_rto_ms: min,
        max_rto_ms: max,
        consecutive_rtos: 0,
    }
}

/// The estimate after one round-trip sample: the first sample sets SRTT and
/// half of it as RTTVAR; later samples smooth with gains 1/8 and 1/4. The
/// timeout is SRTT plus four RTTVAR (at least 5 ms), within the bounds.
pub open spec fn rtt_sample(s: RttState, sample: int) -> RttState {
    let m = max_int(sample, 1);
    let srtt = if s.have_measurement {
        div_ceil(s.srtt_ms * 7 + m, 8)
    } else {
        m
    };
    let rttvar = if s.have_measurement {
        div_ceil(s.rttvar_ms * 3 + abs_diff(s.srtt_ms, m), 4)
    } else {
        m / 2
    };
    let margin = max_int(5, sat_mul_u64(rttvar, 4));
    RttState {
        have_measurement: true,
        srtt_ms: srtt,
        rttvar_ms: rttvar,
        rto_ms: clamp(sat_add_u64(srtt, margin), s.min_rto_ms, s.max_rto_ms),
        consecutive_rtos: 0,
        ..s
    }
}

/// Backoff after a retransmission timeout: the timeout doubles up to the
/// maximum; after three timeouts in a row the estimate starts over.
pub open spec fn rtt_on_timeout(s: RttState) -> RttState {
    let count = min_int(s.consecutive_rtos + 1, 255);
    RttState {
        rto_ms: min_int(sat_mul_u64(s.rto_ms, 2), s.max_rto_ms),
        have_measurement: if count >= 3 {
            false
        } else {
            s.have_measurement
        },
        consecutive_rtos: if count >= 3 {
            0
        } else {
            count
        },
        ..s
    }
}

#[derive(Clone, Debug)]
pub struct RttEstimator {
    have_measurement: bool,
    srtt_ms: u64,
    rttvar_ms: u64,
    rto_ms: u64,
    min_rto_ms: u64,
    max_rto_ms: u64,
    consecutive_rtos: u8,
}

impl View for RttEstimator {
    type V = RttState;

    closed spec fn view(&self) -> RttState {
        RttState {
            have_measurement: self.have_measurement,
            srtt_ms: self.srtt_ms as int,
            rttvar_ms: self.rttvar_ms as int,
            rto_ms: self.rto_ms as int,
            min_rto_ms: self.min_rto_ms as int,
            max_rto_ms: self.max_rto_ms as int,
            consecutive_rtos: self.consecutive_rtos as int,
        }
    }
}

impl RttEstimator {
    /// The smoothed values stay within the time bound, and the timeout within
    /// its configured bounds.
    pub closed spec fn wf(&self) -> bool {
        &&& self.srtt_ms <= MAX_TIME_MS
        &&& self.rttvar_ms <= MAX_TIME_MS
        &&& self.min_rto_ms <= self.max_rto_ms
        &&& self.min_rto_ms <= self.rto_ms <= self.max_rto_ms
    }

    pub fn new(initial_rto_ms: u64, min_rto_ms: u64, max_rto_ms: u64) -> (r: Self)
        requires
            min_rto_ms <= max_rto_ms,
        ensures
            r@ == rtt_new(initial_rto_ms as int, min_rto_ms as int, max_rto_ms as int),
            r.wf(),
    {
        let rto_ms = if initial_rto_ms < min_rto_ms {
            min_rto_ms
        } else if initial_rto_ms > max_rto_ms {
            max_rto_ms
        } else {
            initial_rto_ms
        };
        Self {
            have_measurement: false,
            srtt_ms: 0,
            rttvar_ms: 0,
            rto_ms,
            min_rto_ms,
            max_rto_ms,
            consecutive_rtos: 0,
        }
    }

    pub fn timeout_ms(&self) -> (r: u64)
        ensures
            r == self@.rto_ms,
    {
        self.rto_ms
    }

    pub fn sample(&mut self, sample_ms: u64)
        requires
            old(self).wf(),
            sample_ms <= MAX_TIME_MS,
        ensures
            final(self).wf(),
            final(self)@ == rtt_sample(old(self)@, sample_ms as int),
    {
        let sample_ms = if sample_ms >= 1 {
            sample_ms
        } else {
            1
        };
        if self.have_measurement {
            let diff = if self.srtt_ms >= sample_ms {
                self.srtt_ms - sample_ms
            } else {
                sample_ms - self.srtt_ms
            };
            let v = self.rttvar_ms * 3 + diff;
            self.rttvar_ms = v / 4 + if v % 4 == 0 {
                0
            } else {
                1
            };
            let t = self.srtt_ms * 7 + sample_ms;
            self.srtt_ms = t / 8 + if t % 8 == 0 {
                0
            } else {
                1
            };
            assert(div_ceil(v as int, 4) == v / 4 + (if v % 4 == 0 { 0int } else { 1int }));
            assert(div_ceil(t as int, 8) == t / 8 + (if t % 8 == 0 { 0int } else { 1int }));
        } else {
            self.have_measurement = true;
            self.srtt_ms = sample_ms;
            self.rttvar_ms = sample_ms / 2;
        }
        let four = mul_u64(self.rttvar_ms, 4);
        let margin = if four >= 5 {
            four
        } else {
            5
        };
        let raw = add_u64(self.srtt_ms, margin);
        self.rto_ms = if raw < self.min_rto_ms {
            self.min_rto_ms
        } else if raw > self.max_rto_ms {
            self.max_rto_ms
        } else {
            raw
        };
        self.consecutive_rtos = 0;
    }

    pub fn on_timeout(&mut self)
        requires
            old(self).wf(),
        ensures
            final(self).wf(),
            final(self)@ == rtt_on_timeout(old(self)@),
    {
        let doubled = mul_u64(self.rto_ms, 2);
        self.rto_ms = if doubled <= self.max_rto_ms {
            doubled
        } else {
            self.max_rto_ms
        };
        self.consecutive_rtos = if self.consecutive_rtos == 255 {
            255
        } else {
            self.consecutive_rtos + 1
        };
        if self.consecutive_rtos >= 3 {
            self.have_measurement = false;
            self.consecutive_rtos = 0;
        }
    }
}

impl RttEstimator {
    /// Every estimator keeps its timeout within the bounds it was made with:
    /// `new` gives a valid estimator, `sample` and `on_timeout` keep it valid,
    /// and none of them changes the bounds.
    pub proof fn lemma_rto_within_bounds(&self)
        requires
            self.wf(),
        ensures
            self@.min_rto_ms <= self@.rto_ms <= self@.max_rto_ms,
    {
    }
}

/// Samples and timeouts never change an estimator's bounds.
pub proof fn lemma_bounds_fixed(s: RttState, sample: int)
    ensures
        rtt_sample(s, sample).min_rto_ms == s.min_rto_ms,
        rtt_sample(s, sample).max_rto_ms == s.max_rto_ms,
        rtt_on_timeout(s).min_rto_ms == s.min_rto_ms,
        rtt_on_timeout(s).max_rto_ms == s.max_rto_ms,
{
}

/// Backoff never drops the timeout below where it was, up to the maximum.
pub proof fn lemma_backoff_monotone(s: RttState)
    requires
        0 <= s.rto_ms <= s.max_rto_ms <= u64::MAX,
    ensures
        s.rto_ms <= rtt_on_timeout(s).rto_ms <= s.max_rto_ms,
{
}

/// RFC 6298 smoothing. Let `r` be the sample (at least 1 ms). The first
/// sample sets SRTT to `r` and RTTVAR to half of it. A later sample moves
/// SRTT by one eighth of its error and RTTVAR by one quarter of the
/// deviation, rounding up: `8 SRTT'` is the least multiple of eight at or
/// above `7 SRTT + r`, and `4 RTTVAR'` the least multiple of four at or above
/// `3 RTTVAR + |SRTT - r|`. The timeout is then `SRTT' + 4 RTTVAR'` (with at
/// least 5 ms of margin) whenever that lies within the bounds, and the nearer
/// bound otherwise.
pub proof fn lemma_sample_smooths(s: RttState, sample: int)
    requires
        0 <= s.srtt_ms <= MAX_TIME_MS,
        0 <= s.rttvar_ms <= MAX_TIME_MS,
        0 <= sample <= MAX_TIME_MS,
        s.min_rto_ms <= s.max_rto_ms,
    ensures
        ({
            let t = rtt_sample(s, sample);
            let r = if sample >= 1 { sample } else { 1 };
            let dev = if s.srtt_ms >= r { s.srtt_ms - r } else { r - s.srtt_ms };
            let target = t.srtt_ms + (if 4 * t.rttvar_ms >= 5 { 4 * t.rttvar_ms } else { 5 });
            &&& t.have_measurement
            &&& !s.have_measurement ==> t.srtt_ms == r && 2 * t.rttvar_ms <= r < 2 * t.rttvar_ms + 2
            &&& s.have_measurement ==> 7 * s.srtt_ms + r <= 8 * t.srtt_ms < 7 * s.srtt_ms + r + 8
            &&& s.have_measurement ==> 3 * s.rttvar_ms + dev <= 4 * t.rttvar_ms < 3 * s.rttvar_ms
                + dev + 4
            &&& s.min_rto_ms <= t.rto_ms <= s.max_rto_ms
            &&& s.min_rto_ms <= target <= s.max_rto_ms ==> t.rto_ms == target
            &&& target < s.min_rto_ms ==> t.rto_ms == s.min_rto_ms
            &&& target > s.max_rto_ms ==> t.rto_ms == s.max_rto_ms
        }),
{
    let t = rtt_sample(s, sample);
    let r = max_int(sample, 1);
    if s.have_measurement {
        let a = s.srtt_ms * 7 + r;
        assert(8 * ((a + 7) / 8) >= a && 8 * ((a + 7) / 8) < a + 8) by (nonlinear_arith)
            requires
                a >= 0,
        ;
        let b = s.rttvar_ms * 3 + abs_diff(s.srtt_ms, r);
        assert(4 * ((b + 3) / 4) >= b && 4 * ((b + 3) / 4) < b + 4) by (nonlinear_arith)
            requires
                b >= 0,
        ;
        assert(t.srtt_ms <= MAX_TIME_MS && t.rttvar_ms <= MAX_TIME_MS);
    }
    assert(t.rttvar_ms <= MAX_TIME_MS);
    assert(t.srtt_ms <= MAX_TIME_MS);
}

/// A new estimator has no measurement and its timeout is the initial one,
/// or the nearer bound when that lies outside the bounds.
pub proof fn lemma_new_estimator(initial: int, min: int, max: int)
    requires
        min <= max,
    ensures
        !rtt_new(initial, min, max).have_measurement,
        min <= initial <= max ==> rtt_new(initial, min, max).rto_ms == initial,
        initial < min ==> rtt_new(initial, min, max).rto_ms == min,
        initial > max ==> rtt_new(initial, min, max).rto_ms == max,
        rtt_new(initial, min, max).min_rto_ms == min && rtt_new(initial, min, max).max_rto_ms == max,
{
}

/// Exponential backoff: each retransmission timeout doubles the timeout, up
/// to the maximum. After three timeouts in a row the measurement is
/// forgotten, so the next sample is taken as a first one; a sample ends the
/// run of timeouts.
pub proof fn lemma_timeout_backs_off(s: RttState, sample: int)
    requires
        0 <= s.rto_ms <= s.max_rto_ms <= u64::MAX,
        0 <= s.consecutive_rtos < 3,
    ensures
        2 * s.rto_ms <= s.max_rto_ms ==> rtt_on_timeout(s).rto_ms == 2 * s.rto_ms,
        2 * s.rto_ms > s.max_rto_ms ==> rtt_on_timeout(s).rto_ms == s.max_rto_ms,
        !rtt_on_timeout(rtt_on_timeout(rtt_on_timeout(rtt_sample(s, sample)))).have_measurement,
        rtt_on_timeout(rtt_sample(s, sample)).have_measurement,
        rtt_on_timeout(rtt_on_timeout(rtt_sample(s, sample))).have_measurement,
{
}

} // verus!
