//! Reno congestion control: slow start, congestion avoidance, fast recovery
//! after three duplicate ACKs, and collapse to one segment after a timeout.

use vstd::prelude::*;

use crate::arith::{
    add_usize, max_int, min_int, mul_usize, sat_add_usize, sat_mul_usize,
};

verus! {

/// The congestion controller's state, in bytes.
pub struct RenoState {
    pub cwnd: int,
    pub mss: int,
    pub ssthresh: int,
    pub in_fast_recovery: bool,
    pub in_rto_recovery: bool,
}

pub open spec fn reno_new(mss: int) -> RenoState {
    RenoState {
        cwnd: sat_mul_usize(mss, 2),
        mss,
        ssthresh: usize::MAX as int,
        in_fast_recovery: false,
        in_rto_recovery: false,
    }
}

/// The usable congestion window: never below one segment.
pub open spec fn reno_window(s: RenoState) -> int {
    max_int(s.cwnd, s.mss)
}

pub open spec fn reno_set_mss(s: RenoState, mss: int) -> RenoState {
    let m = max_int(mss, 1);
    RenoState { mss: m, cwnd: max_int(s.cwnd, m), ..s }
}

/// The window growth for newly acknowledged bytes: one segment's worth at
/// most in slow start, about one segment per window in congestion avoidance.
pub open spec fn reno_increment(s: RenoState, acked: int) -> int {
    if s.cwnd < s.ssthresh {
        min_int(acked, s.mss)
    } else {
        max_int(
            if s.cwnd == 0 {
                0
            } else {
                sat_mul_usize(s.mss, s.mss) / s.cwnd
            },
            1,
        )
    }
}

pub open spec fn reno_on_ack(s: RenoState, acked: int) -> RenoState {
    if acked == 0 {
        s
    } else if s.in_fast_recovery {
        RenoState { in_rto_recovery: false, in_fast_recovery: false, cwnd: s.ssthresh, ..s }
    } else {
        RenoState {
            in_rto_recovery: false,
            cwnd: max_int(sat_add_usize(s.cwnd, reno_increment(s, acked)), s.mss),
            ..s
        }
    }
}

pub open spec fn reno_on_duplicate_ack(s: RenoState) -> RenoState {
    if s.in_fast_recovery {
        RenoState { cwnd: sat_add_usize(s.cwnd, s.mss), ..s }
    } else {
        s
    }
}

/// The slow-start threshold after a loss: half the flight, at least two segments.
pub open spec fn reno_loss_threshold(s: RenoState, in_flight: int) -> int {
    max_int(in_flight / 2, sat_mul_usize(s.mss, 2))
}

pub open spec fn reno_on_fast_loss(s: RenoState, in_flight: int) -> RenoState {
    if s.in_fast_recovery {
        s
    } else {
        let t = reno_loss_threshold(s, in_flight);
        RenoState {
            ssthresh: t,
            cwnd: sat_add_usize(t, sat_mul_usize(s.mss, 3)),
            in_fast_recovery: true,
            ..s
        }
    }
}

pub open spec fn reno_on_timeout(s: RenoState, in_flight: int) -> RenoState {
    let t = if s.in_rto_recovery {
        s.ssthresh
    } else {
        reno_loss_threshold(s, in_flight)
    };
    RenoState {
        ssthresh: t,
        in_rto_recovery: true,
        cwnd: s.mss,
        in_fast_recovery: false,
        ..s
    }
}

#[derive(Clone, Debug)]
pub struct Reno {
    cwnd: usize,
    mss: usize,
    ssthresh: usize,
    in_fast_recovery: bool,
    in_rto_recovery: bool,
}

impl View for Reno {
    type V = RenoState;

    closed spec fn view(&self) -> RenoState {
        RenoState {
            cwnd: self.cwnd as int,
            mss: self.mss as int,
            ssthresh: self.ssthresh as int,
            in_fast_recovery: self.in_fast_recovery,
            in_rto_recovery: self.in_rto_recovery,
        }
    }
}

impl Reno {
    pub fn new(mss: usize) -> (r: Self)
        ensures
            r@ == reno_new(mss as int),
    {
        Self {
            cwnd: mul_usize(mss, 2),
            mss,
            ssthresh: usize::MAX,
            in_fast_recovery: false,
            in_rto_recovery: false,
        }
    }

    pub fn window(&self) -> (r: usize)
        ensures
            r == reno_window(self@),
    {
        if self.cwnd >= self.mss {
            self.cwnd
        } else {
            self.mss
        }
    }

    pub fn set_mss(&mut self, mss: usize)
        ensures
            final(self)@ == reno_set_mss(old(self)@, mss as int),
    {
        self.mss = if mss >= 1 {
            mss
        } else {
            1
        };
        if self.cwnd < self.mss {
            self.cwnd = self.mss;
        }
    }

    pub fn on_ack(&mut self, acked: usize)
        ensures
            final(self)@ == reno_on_ack(old(self)@, acked as int),
    {
        if acked == 0 {
            return;
        }
        self.in_rto_recovery = false;
        if self.in_fast_recovery {
            self.in_fast_recovery = false;
            self.cwnd = self.ssthresh;
            return;
        }
        let increment = if self.cwnd < self.ssthresh {
            if acked <= self.mss {
                acked
            } else {
                self.mss
            }
        } else {
            let square = mul_usize(self.mss, self.mss);
            let share = if self.cwnd == 0 {
                0
            } else {
                square / self.cwnd
            };
            if share >= 1 {
                share
            } else {
                1
            }
        };
        let grown = add_usize(self.cwnd, increment);
        self.cwnd = if grown >= self.mss {
            grown
        } else {
            self.mss
        };
    }

    pub fn on_duplicate_ack(&mut self)
        ensures
            final(self)@ == reno_on_duplicate_ack(old(self)@),
    {
        if self.in_fast_recovery {
            self.cwnd = add_usize(self.cwnd, self.mss);
        }
    }

    fn loss_threshold(&self, in_flight: usize) -> (r: usize)
        ensures
            r == reno_loss_threshold(self@, in_flight as int),
    {
        let half = in_flight / 2;
        let floor = mul_usize(self.mss, 2);
        if half >= floor {
            half
        } else {
            floor
        }
    }

    pub fn on_fast_loss(&mut self, in_flight: usize)
        ensures
            final(self)@ == reno_on_fast_loss(old(self)@, in_flight as int),
    {
        if self.in_fast_recovery {
            return;
        }
        self.ssthresh = self.loss_threshold(in_flight);
        self.cwnd = add_usize(self.ssthresh, mul_usize(self.mss, 3));
        self.in_fast_recovery = true;
    }

    pub fn on_timeout(&mut self, in_flight: usize)
        ensures
            final(self)@ == reno_on_timeout(old(self)@, in_flight as int),
    {
        if !self.in_rto_recovery {
            self.ssthresh = self.loss_threshold(in_flight);
            self.in_rto_recovery = true;
        }
        self.cwnd = self.mss;
        self.in_fast_recovery = false;
    }
}

/// After a timeout the window is exactly one segment, whatever came before.
pub proof fn lemma_timeout_collapses_window(s: RenoState, in_flight: int)
    requires
        s.mss >= 1,
    ensures
        reno_window(reno_on_timeout(s, in_flight)) == s.mss,
{
}

/// Acknowledged data never shrinks the window below one segment.
pub proof fn lemma_ack_keeps_one_segment(s: RenoState, acked: int)
    requires
        acked > 0,
        !s.in_fast_recovery,
    ensures
        reno_on_ack(s, acked).cwnd >= s.mss,
{
}

/// How an ACK grows the window outside fast recovery. In slow start (window
/// below the threshold) it grows by the bytes acknowledged, at most one
/// segment. In congestion avoidance (window at or above the threshold) it
/// grows by about one segment per window, whatever the ACK covers: by the
/// largest `g` with `g * cwnd <= mss * mss`, at least one byte and never more
/// than one segment.
pub proof fn lemma_ack_growth(s: RenoState, acked: int)
    requires
        1 <= s.mss <= s.cwnd,
        0 < acked,
        !s.in_fast_recovery,
        s.mss * s.mss <= usize::MAX,
        s.cwnd + s.mss <= usize::MAX,
    ensures
        ({
            let g = reno_on_ack(s, acked).cwnd - s.cwnd;
            &&& s.cwnd < s.ssthresh ==> g <= acked && g <= s.mss && (g == acked || g == s.mss)
            &&& s.cwnd >= s.ssthresh ==> {
                &&& 1 <= g <= s.mss
                &&& (g == 1 || g * s.cwnd <= s.mss * s.mss)
                &&& (g + 1) * s.cwnd > s.mss * s.mss
            }
        }),
{
    let q = s.mss * s.mss;
    let c = s.cwnd;
    let f = q / c;
    assert(f * c <= q < (f + 1) * c && f <= s.mss) by (nonlinear_arith)
        requires
            f == q / c,
            q == s.mss * s.mss,
            1 <= s.mss <= c,
    ;
    assert(sat_mul_usize(s.mss, s.mss) == q);
    if f >= 1 {
        assert(max_int(f, 1) == f);
    } else {
        assert(2 * c > q) by (nonlinear_arith)
            requires
                q < (f + 1) * c,
                f == 0,
                c >= 1,
        ;
    }
}

/// In congestion avoidance the growth does not depend on how many bytes the
/// ACK covers: one byte or a whole window gives the same window.
pub proof fn lemma_avoidance_ignores_ack_size(s: RenoState, a: int, b: int)
    requires
        s.cwnd >= s.ssthresh,
        !s.in_fast_recovery,
        0 < a,
        0 < b,
    ensures
        reno_on_ack(s, a) == reno_on_ack(s, b),
{
}

/// A new controller starts with two segments and no threshold (slow start
/// until the first loss); changing the segment size keeps the window at
/// least one segment of the new size.
pub proof fn lemma_reno_start(mss: int, s: RenoState, m: int)
    requires
        1 <= mss,
        2 * mss <= usize::MAX,
        0 <= s.cwnd,
    ensures
        reno_new(mss).cwnd == 2 * mss,
        reno_new(mss).ssthresh == usize::MAX,
        !reno_new(mss).in_fast_recovery && !reno_new(mss).in_rto_recovery,
        m >= 1 ==> reno_set_mss(s, m).mss == m,
        m < 1 ==> reno_set_mss(s, m).mss == 1,
        reno_set_mss(s, m).cwnd >= reno_set_mss(s, m).mss,
        reno_set_mss(s, m).cwnd >= s.cwnd,
        reno_set_mss(s, m).cwnd == s.cwnd || reno_set_mss(s, m).cwnd == reno_set_mss(s, m).mss,
{
}

/// Losses. On the third duplicate ACK (fast retransmit), outside fast
/// recovery, the threshold becomes half the data in flight, rounded down,
/// but at least two segments, and the window that threshold plus three
/// segments; each further duplicate ACK in fast recovery adds one segment,
/// another loss in fast recovery changes nothing, and the first ACK of new
/// data ends fast recovery with the window at the threshold. On a
/// retransmission timeout the window collapses to one segment; the first
/// timeout of a run sets the threshold as a fast loss does, and later
/// timeouts before new data is acknowledged keep it.
pub proof fn lemma_loss_reactions(s: RenoState, in_flight: int, acked: int)
    requires
        1 <= s.mss,
        0 <= in_flight,
        0 <= s.cwnd,
        5 * s.mss + in_flight <= usize::MAX,
        s.cwnd + s.mss <= usize::MAX,
        0 < acked,
    ensures
        ({
            let f = reno_on_fast_loss(s, in_flight);
            let t = if in_flight / 2 >= 2 * s.mss { in_flight / 2 } else { 2 * s.mss };
            &&& !s.in_fast_recovery ==> f.ssthresh == t && f.cwnd == t + 3 * s.mss
                && f.in_fast_recovery
            &&& s.in_fast_recovery ==> f == s
        }),
        s.in_fast_recovery ==> reno_on_duplicate_ack(s).cwnd == s.cwnd + s.mss,
        !s.in_fast_recovery ==> reno_on_duplicate_ack(s) == s,
        s.in_fast_recovery ==> reno_on_ack(s, acked).cwnd == s.ssthresh && !reno_on_ack(
            s,
            acked,
        ).in_fast_recovery,
        ({
            let o = reno_on_timeout(s, in_flight);
            let t = if in_flight / 2 >= 2 * s.mss { in_flight / 2 } else { 2 * s.mss };
            &&& o.cwnd == s.mss
            &&& !o.in_fast_recovery
            &&& o.in_rto_recovery
            &&& !s.in_rto_recovery ==> o.ssthresh == t
            &&& s.in_rto_recovery ==> o.ssthresh == s.ssthresh
        }),
        !reno_on_ack(s, acked).in_rto_recovery,
{
}

} // verus!
