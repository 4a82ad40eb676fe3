//! One retained TCP/FIPS connection and the steps it takes.

use vstd::prelude::*;

use crate::arith::{add_u64, add_usize, sub_u64, sub_usize};
use crate::marker::SendProgress;
use crate::model::{
    ConnView, ReasmView, TrackedView, ack_segment_spec, avail_window, avail_window_u16,
    conn_new, enter_time_wait_spec, negotiate_mss_spec, negotiated_mss, on_remote_fin_spec,
    reasm_bytes, reasm_end, reset_segment_spec, retransmit_oldest_spec, segment_for_spec,
    send_tracked_spec, tracked_end, unacked_bytes, update_remote_window_spec,
};
use crate::reno::{Reno, reno_new};
use crate::rtt::{RttEstimator, rtt_new};
use crate::segment::{SegmentHeader, build_segment};
use crate::model::{
    StepView, client_spec, on_reset_spec, on_segment_spec, on_synchronized_spec, server_spec,
    close_spec, first_with_payload, poll_spec, two_pow,
    flush_loop_spec, flush_spec, lemma_first_with_payload_char, lemma_first_with_payload_none,
    read_spec, write_spec, zero_window_probe_spec,
    drain_spec, first_ready, lemma_first_ready_char, lemma_first_ready_index,
    lemma_first_ready_none, lemma_reasm_bytes_nonneg, lemma_reasm_bytes_remove,
    lemma_reasm_filter_bytes, lemma_reasm_filter_len, lemma_reasm_filter_skip, reasm_filter,
    reasm_live, reasm_ready, receive_stream_data_spec,
    insert_received_spec, lemma_reasm_bytes_push,
    ack_pop, apply_ack_spec, lemma_ack_pop_bytes, lemma_unacked_bytes_nonneg,
    lemma_unacked_bytes_update0,
};
use crate::seq::{advance, advance_len, after, before, before_or_equal, distance, in_closed_interval};
use crate::types::{Config, Peer, StackError, State, time_ok};
use crate::wire::{FIPS_VERSION, Flags, Segment, SegmentView, copy_bytes, first_mss};

verus! {

pub struct TrackedSegment {
    pub seq: u32,
    pub flags: Flags,
    pub payload: Vec<u8>,
    pub sent_at_ms: u64,
    pub retransmitted: bool,
    pub transmissions: u8,
}

impl View for TrackedSegment {
    type V = TrackedView;

    open spec fn view(&self) -> TrackedView {
        TrackedView {
            seq: self.seq,
            flags: self.flags@,
            payload: self.payload@,
            sent_at_ms: self.sent_at_ms,
            retransmitted: self.retransmitted,
            transmissions: self.transmissions,
        }
    }
}

impl TrackedSegment {
    pub fn end_seq(&self) -> (r: u32)
        ensures
            r == tracked_end(self@),
    {
        let syn: usize = if self.flags.contains(Flags::syn()) {
            1
        } else {
            0
        };
        let fin: usize = if self.flags.contains(Flags::fin()) {
            1
        } else {
            0
        };
        let a = advance_len(self.seq, self.payload.len());
        let b = advance_len(a, syn);
        let c = advance_len(b, fin);
        proof {
            crate::seq::lemma_seq_add_assoc(self.seq, self.payload@.len() as int, syn as int);
            crate::seq::lemma_seq_add_assoc(
                self.seq,
                self.payload@.len() + syn,
                fin as int,
            );
        }
        c
    }
}

pub struct ReassemblySegment {
    pub seq: u32,
    pub payload: Vec<u8>,
    pub fin: bool,
}

impl View for ReassemblySegment {
    type V = ReasmView;

    open spec fn view(&self) -> ReasmView {
        ReasmView { seq: self.seq, payload: self.payload@, fin: self.fin }
    }
}

impl ReassemblySegment {
    pub fn end_seq(&self) -> (r: u32)
        ensures
            r == reasm_end(self@),
    {
        let fin: usize = if self.fin {
            1
        } else {
            0
        };
        let a = advance_len(self.seq, self.payload.len());
        proof {
            crate::seq::lemma_seq_add_assoc(self.seq, self.payload@.len() as int, fin as int);
        }
        advance_len(a, fin)
    }
}

pub struct Connection<P> {
    pub peer: P,
    pub local_port: u16,
    pub remote_port: u16,
    pub state: State,
    pub send_una: u32,
    pub send_nxt: u32,
    pub recv_nxt: u32,
    pub remote_window: usize,
    pub mss: usize,
    pub receive_capacity: usize,
    pub send_queue: Vec<u8>,
    pub recv_queue: Vec<u8>,
    pub reassembly: Vec<ReassemblySegment>,
    pub unacked: Vec<TrackedSegment>,
    pub rtt: RttEstimator,
    pub reno: Reno,
    pub duplicate_acks: u8,
    pub close_requested: bool,
    pub next_zero_window_probe_ms: Option<u64>,
    pub zero_window_probes: u8,
    pub read_closed: bool,
    pub fin_wait_2_until_ms: Option<u64>,
    pub time_wait_until_ms: Option<u64>,
    pub send_progress: SendProgress,
}

/// What a step of a connection produced: segments to send, whether a
/// listener accepted the connection, and whether the connection is gone.
pub struct Update {
    pub segments: Vec<Segment>,
    pub accepted: bool,
    pub closed: bool,
}

impl Update {
    pub open spec fn matches<V>(&self, c: ConnView<V>, step: StepView<V>) -> bool {
        &&& c == step.conn
        &&& segment_views(self.segments@) == step.segments
        &&& self.accepted == step.accepted
        &&& self.closed == step.closed
    }

    pub fn open(segments: Vec<Segment>) -> (r: Self)
        ensures
            r.segments == segments,
            !r.accepted,
            !r.closed,
    {
        Update { segments, accepted: false, closed: false }
    }

    pub fn closed(segments: Vec<Segment>) -> (r: Self)
        ensures
            r.segments == segments,
            !r.accepted,
            r.closed,
    {
        Update { segments, accepted: false, closed: true }
    }

    /// A step that sends nothing.
    pub fn nothing(closed: bool) -> (r: Self)
        ensures
            segment_views(r.segments@) == Seq::<SegmentView>::empty(),
            !r.accepted,
            r.closed == closed,
    {
        let r = Update { segments: Vec::new(), accepted: false, closed };
        assert(segment_views(r.segments@) =~= Seq::<SegmentView>::empty());
        r
    }

    /// A step that sends one segment.
    pub fn single(segment: Segment) -> (r: Self)
        ensures
            segment_views(r.segments@) == seq![segment@],
            !r.accepted,
            !r.closed,
    {
        let mut segments: Vec<Segment> = Vec::new();
        segments.push(segment);
        let r = Update { segments, accepted: false, closed: false };
        assert(segment_views(r.segments@) =~= seq![segment@]);
        r
    }
}

/// `2^n` for a shift of at most 16.
fn power_of_two(n: u8) -> (r: u64)
    requires
        n <= 16,
    ensures
        r == two_pow(n as nat),
{
    let mut r: u64 = 1;
    let mut i: u8 = 0;
    while i < n
        invariant
            i <= n <= 16,
            r == two_pow(i as nat),
            r <= 0x1_0000,
        decreases n - i,
    {
        assert(two_pow((i + 1) as nat) == 2 * two_pow(i as nat));
        proof {
            crate::model::lemma_two_pow_bound(i as nat);
        }
        r = r * 2;
        i = i + 1;
    }
    r
}

pub open spec fn tracked_views(s: Seq<TrackedSegment>) -> Seq<TrackedView> {
    s.map_values(|t: TrackedSegment| t@)
}

pub open spec fn reasm_views(s: Seq<ReassemblySegment>) -> Seq<ReasmView> {
    s.map_values(|r: ReassemblySegment| r@)
}

pub open spec fn opt_view(o: Option<Segment>) -> Option<SegmentView> {
    match o {
        Some(s) => Some(s@),
        None => None,
    }
}

pub open spec fn segment_views(s: Seq<Segment>) -> Seq<SegmentView> {
    s.map_values(|x: Segment| x@)
}

impl<P: Peer> View for Connection<P> {
    type V = ConnView<P::V>;

    open spec fn view(&self) -> ConnView<P::V> {
        ConnView {
            peer: self.peer@,
            local_port: self.local_port,
            remote_port: self.remote_port,
            state: self.state,
            send_una: self.send_una,
            send_nxt: self.send_nxt,
            recv_nxt: self.recv_nxt,
            remote_window: self.remote_window,
            mss: self.mss,
            receive_capacity: self.receive_capacity,
            send_queue: self.send_queue@,
            recv_queue: self.recv_queue@,
            reassembly: reasm_views(self.reassembly@),
            unacked: tracked_views(self.unacked@),
            rtt: self.rtt@,
            reno: self.reno@,
            duplicate_acks: self.duplicate_acks,
            close_requested: self.close_requested,
            next_zero_window_probe_ms: self.next_zero_window_probe_ms,
            zero_window_probes: self.zero_window_probes,
            read_closed: self.read_closed,
            fin_wait_2_until_ms: self.fin_wait_2_until_ms,
            time_wait_until_ms: self.time_wait_until_ms,
            progress: self.send_progress@,
        }
    }
}

/// The bounds every retained connection keeps.
pub open spec fn conn_wf<V>(c: ConnView<V>, cfg: Config) -> bool {
    &&& cfg.valid()
    &&& 1 <= c.mss <= 65535
    &&& c.receive_capacity == cfg.receive_buffer
    &&& c.recv_queue.len() + reasm_bytes(c.reassembly) <= c.receive_capacity
    &&& c.send_queue.len() + unacked_bytes(c.unacked) <= cfg.send_buffer
    &&& c.reassembly.len() <= cfg.max_reassembly_segments
}

impl<P: Peer> Connection<P> {
    pub open spec fn wf(&self, cfg: Config) -> bool {
        &&& self.rtt.wf()
        &&& conn_wf(self@, cfg)
    }

    pub fn available_window(&self) -> (r: usize)
        requires
            self@.recv_queue.len() + reasm_bytes(self@.reassembly) <= self@.receive_capacity,
        ensures
            r == avail_window(self@),
    {
        let ghost segs = self@.reassembly;
        let mut total: usize = 0;
        let mut i: usize = 0;
        assert(segs.skip(0) =~= segs);
        while i < self.reassembly.len()
            invariant
                segs == self@.reassembly,
                i <= segs.len(),
                reasm_bytes(segs) == total + reasm_bytes(segs.skip(i as int)),
                self@.recv_queue.len() + reasm_bytes(segs) <= self@.receive_capacity,
            decreases segs.len() - i,
        {
            proof {
                crate::model::lemma_reasm_bytes_skip(segs, i as int);
                crate::model::lemma_reasm_bytes_nonneg(segs.skip(i as int));
            }
            assert(self.reassembly@[i as int]@ == segs[i as int]);
            total = total + self.reassembly[i].payload.len();
            i = i + 1;
        }
        assert(segs.skip(segs.len() as int) =~= Seq::<ReasmView>::empty());
        sub_usize(self.receive_capacity, add_usize(self.recv_queue.len(), total))
    }

    pub fn available_window_u16(&self) -> (r: u16)
        requires
            self@.recv_queue.len() + reasm_bytes(self@.reassembly) <= self@.receive_capacity,
        ensures
            r == avail_window_u16(self@),
    {
        let w = self.available_window();
        if w > 65535 {
            65535
        } else {
            w as u16
        }
    }

    pub fn ack_segment(&self) -> (r: Segment)
        requires
            self@.recv_queue.len() + reasm_bytes(self@.reassembly) <= self@.receive_capacity,
            self.mss <= 65535,
        ensures
            r@ == ack_segment_spec(self@),
    {
        build_segment(
            SegmentHeader {
                local_port: self.local_port,
                remote_port: self.remote_port,
                seq: self.send_nxt,
                ack: self.recv_nxt,
                window: self.available_window_u16(),
                mss: self.mss as u16,
                flags: Flags::ack(),
            },
            Vec::new(),
        )
    }

    pub fn reset_segment(&self) -> (r: Segment)
        requires
            self.mss <= 65535,
        ensures
            r@ == reset_segment_spec(self@),
    {
        build_segment(
            SegmentHeader {
                local_port: self.local_port,
                remote_port: self.remote_port,
                seq: self.send_nxt,
                ack: self.recv_nxt,
                window: 0,
                mss: self.mss as u16,
                flags: Flags::rst(),
            },
            Vec::new(),
        )
    }

    fn segment_for(&self, entry: &TrackedSegment) -> (r: Segment)
        requires
            self@.recv_queue.len() + reasm_bytes(self@.reassembly) <= self@.receive_capacity,
            self.mss <= 65535,
        ensures
            r@ == segment_for_spec(self@, entry@),
    {
        build_segment(
            SegmentHeader {
                local_port: self.local_port,
                remote_port: self.remote_port,
                seq: entry.seq,
                ack: self.recv_nxt,
                window: self.available_window_u16(),
                mss: self.mss as u16,
                flags: entry.flags,
            },
            crate::wire::copy_vec(&entry.payload),
        )
    }

    pub fn new(
        peer: P,
        local_port: u16,
        remote_port: u16,
        state: State,
        send_isn: u32,
        recv_nxt: u32,
        token: u64,
        config: &Config,
    ) -> (r: Self)
        requires
            config.valid(),
        ensures
            r@ == conn_new(
                peer@,
                local_port,
                remote_port,
                state,
                send_isn,
                recv_nxt,
                token,
                rtt_new(
                    config.initial_rto_ms as int,
                    config.min_rto_ms as int,
                    config.max_rto_ms as int,
                ),
                reno_new(config.mss as int),
                *config,
            ),
            r.wf(*config),
    {
        let mss = config.mss as usize;
        let r = Self {
            peer,
            local_port,
            remote_port,
            state,
            send_una: send_isn,
            send_nxt: send_isn,
            recv_nxt,
            remote_window: 65535,
            mss,
            receive_capacity: config.receive_buffer,
            send_queue: Vec::new(),
            recv_queue: Vec::new(),
            reassembly: Vec::new(),
            unacked: Vec::new(),
            rtt: RttEstimator::new(config.initial_rto_ms, config.min_rto_ms, config.max_rto_ms),
            reno: Reno::new(mss),
            duplicate_acks: 0,
            close_requested: false,
            next_zero_window_probe_ms: None,
            zero_window_probes: 0,
            read_closed: false,
            fin_wait_2_until_ms: None,
            time_wait_until_ms: None,
            send_progress: SendProgress::new(token),
        };
        assert(r@.reassembly =~= Seq::<ReasmView>::empty());
        assert(r@.unacked =~= Seq::<TrackedView>::empty());
        r
    }

    pub fn send_tracked(&mut self, flags: Flags, payload: Vec<u8>, now_ms: u64) -> (r: Segment)
        requires
            old(self)@.recv_queue.len() + reasm_bytes(old(self)@.reassembly)
                <= old(self)@.receive_capacity,
            old(self).mss <= 65535,
        ensures
            (final(self)@, r@) == send_tracked_spec(old(self)@, flags@, payload@, now_ms),
            final(self).rtt == old(self).rtt,
    {
        let entry = TrackedSegment {
            seq: self.send_nxt,
            flags,
            payload,
            sent_at_ms: now_ms,
            retransmitted: false,
            transmissions: 1,
        };
        let segment = self.segment_for(&entry);
        self.send_nxt = entry.end_seq();
        self.unacked.push(entry);
        assert(self@.unacked =~= old(self)@.unacked.push(entry@));
        segment
    }

    pub fn retransmit_oldest(&mut self, now_ms: u64, timeout: bool) -> (r: Option<Segment>)
        requires
            old(self)@.recv_queue.len() + reasm_bytes(old(self)@.reassembly)
                <= old(self)@.receive_capacity,
            old(self).mss <= 65535,
        ensures
            (final(self)@, opt_view(r)) == retransmit_oldest_spec(
                old(self)@,
                now_ms,
                timeout,
            ),
            final(self).rtt == old(self).rtt,
    {
        if self.unacked.len() == 0 {
            return None;
        }
        let segment = self.segment_for(&self.unacked[0]);
        let mut entry = self.unacked.remove(0);
        entry.sent_at_ms = now_ms;
        entry.retransmitted = true;
        entry.transmissions = if entry.transmissions == 255 {
            255
        } else {
            entry.transmissions + 1
        };
        self.unacked.insert(0, entry);
        if timeout {
            self.duplicate_acks = 0;
        }
        assert(self@.unacked =~= old(self)@.unacked.update(0, entry@));
        Some(segment)
    }

    pub fn update_remote_window(&mut self, window: u16, now_ms: u64)
        ensures
            final(self)@ == update_remote_window_spec(old(self)@, window, now_ms),
            final(self).rtt == old(self).rtt,
    {
        self.remote_window = window as usize;
        if window == 0 {
            if self.next_zero_window_probe_ms.is_none() {
                self.next_zero_window_probe_ms = Some(add_u64(now_ms, self.rtt.timeout_ms()));
            }
        } else {
            self.next_zero_window_probe_ms = None;
            self.zero_window_probes = 0;
        }
    }

    pub fn negotiate_mss(&mut self, segment: &Segment, config: &Config)
        ensures
            final(self)@ == negotiate_mss_spec(old(self)@, segment@, *config),
            1 <= final(self).mss <= config.mss || final(self).mss == 1,
            final(self).rtt == old(self).rtt,
    {
        let offered = match segment.max_segment_size() {
            Some(m) => m,
            None => 1024,
        };
        let limited = if offered <= config.mss {
            offered
        } else {
            config.mss
        };
        self.mss = if limited >= 1 {
            limited as usize
        } else {
            1
        };
        assert(self.mss == negotiated_mss(segment@, *config));
        self.reno.set_mss(self.mss);
    }

    pub fn enter_time_wait(&mut self, now_ms: u64, config: &Config)
        ensures
            final(self)@ == enter_time_wait_spec(old(self)@, now_ms, *config),
            final(self).rtt == old(self).rtt,
    {
        self.state = State::TimeWait;
        self.fin_wait_2_until_ms = None;
        self.time_wait_until_ms = Some(add_u64(now_ms, config.time_wait_ms));
    }

    pub fn on_remote_fin(&mut self, now_ms: u64, config: &Config)
        ensures
            final(self)@ == on_remote_fin_spec(old(self)@, now_ms, *config),
            final(self).rtt == old(self).rtt,
    {
        self.read_closed = true;
        match self.state {
            State::Established => self.state = State::CloseWait,
            State::FinWait1 => self.state = State::Closing,
            State::FinWait2 => self.enter_time_wait(now_ms, config),
            _ => {},
        }
    }

    #[verifier::rlimit(30)]
    #[verifier::spinoff_prover]
    pub fn apply_ack(&mut self, ack: u32, now_ms: u64, duplicate_candidate: bool, config: &Config) -> (r: (
        bool,
        Option<Segment>,
    ))
        requires
            old(self).wf(*config),
            time_ok(now_ms),
        ensures
            (final(self)@, r.0, opt_view(r.1)) == apply_ack_spec(
                old(self)@,
                ack,
                now_ms,
                duplicate_candidate,
            ),
            final(self).wf(*config),
    {
        if after(ack, self.send_nxt) || before(ack, self.send_una) {
            return (false, None);
        }
        if ack == self.send_una {
            if duplicate_candidate && self.unacked.len() > 0 {
                self.duplicate_acks = if self.duplicate_acks == 255 {
                    255
                } else {
                    self.duplicate_acks + 1
                };
                self.reno.on_duplicate_ack();
                if self.duplicate_acks == 3 {
                    self.reno.on_fast_loss(distance(self.send_una, self.send_nxt));
                    let r = self.retransmit_oldest(now_ms, false);
                    proof {
                        lemma_unacked_bytes_update0(old(self)@.unacked, self@.unacked[0]);
                    }
                    return (false, r);
                }
            }
            return (false, None);
        }
        self.duplicate_acks = 0;
        let ghost pre = self@;
        let ghost u0 = old(self)@.unacked;
        let mut acked: usize = 0;
        let mut fin_acked = false;
        let mut sample: Option<u64> = None;
        proof {
            lemma_ack_pop_bytes(u0, ack, now_ms);
            lemma_unacked_bytes_nonneg(u0);
            lemma_unacked_bytes_nonneg(old(self)@.unacked);
        }
        loop
            invariant
                self.rtt == old(self).rtt,
                self@ == (ConnView { unacked: self@.unacked, ..pre }),
                u0 == old(self)@.unacked,
                ack_pop(u0, ack, now_ms) == (
                    ack_pop(self@.unacked, ack, now_ms).0,
                    acked + ack_pop(self@.unacked, ack, now_ms).1,
                    fin_acked || ack_pop(self@.unacked, ack, now_ms).2,
                    match ack_pop(self@.unacked, ack, now_ms).3 {
                        Some(x) => Some(x),
                        None => sample,
                    },
                ),
                unacked_bytes(self@.unacked) + acked == unacked_bytes(u0),
                unacked_bytes(u0) <= usize::MAX,
                sample matches Some(x) ==> x <= now_ms,
            ensures
                self.rtt == old(self).rtt,
                self@ == (ConnView { unacked: self@.unacked, ..pre }),
                ack_pop(u0, ack, now_ms) == (self@.unacked, acked as int, fin_acked, sample),
                unacked_bytes(self@.unacked) + acked == unacked_bytes(u0),
                sample matches Some(x) ==> x <= now_ms,
            decreases self.unacked@.len(),
        {
            let ghost cur = self@.unacked;
            if self.unacked.len() == 0 {
                break;
            }
            let end = self.unacked[0].end_seq();
            if !before_or_equal(end, ack) {
                break;
            }
            let segment = self.unacked.remove(0);
            assert(self@.unacked =~= cur.drop_first());
            proof {
                lemma_ack_pop_bytes(cur.drop_first(), ack, now_ms);
                lemma_unacked_bytes_nonneg(cur.drop_first());
                assert(segment@ == cur[0]);
            }
            acked = acked + segment.payload.len();
            fin_acked = fin_acked || segment.flags.contains(Flags::fin());
            if !segment.retransmitted {
                sample = Some(sub_u64(now_ms, segment.sent_at_ms));
            }
        }
        let ghost rest = self@.unacked;
        let mut count: usize = 0;
        if self.unacked.len() > 0 {
            let end = self.unacked[0].end_seq();
            if before(self.unacked[0].seq, ack) && before(ack, end) && !self.unacked[0].flags.contains(
                Flags::syn(),
            ) && !self.unacked[0].flags.contains(Flags::fin()) {
                proof {
                    lemma_unacked_bytes_nonneg(rest.drop_first());
                }
                let mut front = self.unacked.remove(0);
                let d = distance(front.seq, ack);
                count = if d <= front.payload.len() {
                    d
                } else {
                    front.payload.len()
                };
                let tail = front.payload.split_off(count);
                front.payload = tail;
                front.seq = ack;
                self.unacked.insert(0, front);
                assert(self@.unacked =~= rest.update(0, front@));
                proof {
                    lemma_unacked_bytes_update0(rest, front@);
                }
            }
        }
        acked = acked + count;
        self.send_una = ack;
        if let Some(s) = sample {
            self.rtt.sample(s);
        }
        self.reno.on_ack(acked);
        self.send_progress.acknowledge(acked);
        (fin_acked, None)
    }

    #[verifier::loop_isolation(false)]
    #[verifier::rlimit(30)]
    #[verifier::spinoff_prover]
    fn insert_received(&mut self, seq: u32, payload: &[u8], fin: bool, config: &Config)
        requires
            old(self).wf(*config),
        ensures
            final(self)@ == insert_received_spec(old(self)@, seq, payload@, fin, *config),
            final(self).wf(*config),
            final(self).rtt == old(self).rtt,
    {
        let original_end = advance_len(seq, payload.len());
        let mut start = seq;
        let mut lo: usize = 0;
        if before(start, self.recv_nxt) {
            let trim = distance(start, self.recv_nxt);
            lo = if trim >= payload.len() {
                payload.len()
            } else {
                trim
            };
            start = self.recv_nxt;
        }
        let ghost data = payload@.subrange(lo as int, payload@.len() as int);
        proof {
            let trimmed = crate::seq::is_before(seq, old(self)@.recv_nxt);
            let trim = crate::seq::forward(seq, old(self)@.recv_nxt);
            if trimmed {
                if trim >= payload@.len() {
                    assert(data =~= Seq::<u8>::empty());
                } else {
                    assert(data =~= payload@.skip(trim));
                }
            } else {
                assert(data =~= payload@);
            }
        }
        let data_len = payload.len() - lo;
        let window = self.available_window();
        proof {
            crate::model::lemma_reasm_bytes_nonneg(self@.reassembly);
        }
        assert(window <= 65535);
        let offset = distance(self.recv_nxt, start);
        if after(start, self.recv_nxt) && offset >= window {
            return;
        }
        let room = sub_usize(window, offset);
        let allowed = if data_len <= room {
            data_len
        } else {
            room
        };
        let kept_fin = fin && allowed == data_len && original_end == advance_len(start, data_len);
        if allowed == 0 && !kept_fin {
            return;
        }
        let ghost chunk = ReasmView {
            seq: start,
            payload: data.take(allowed as int),
            fin: kept_fin,
        };
        let fin_len: usize = if kept_fin {
            1
        } else {
            0
        };
        let chunk_end = advance_len(start, allowed + fin_len);
        assert(chunk_end == reasm_end(chunk));
        let mut i: usize = 0;
        while i < self.reassembly.len()
            invariant
                i <= self@.reassembly.len(),
                self@ == old(self)@,
                self.rtt == old(self).rtt,
                chunk.seq == start,
                chunk_end == reasm_end(chunk),
                forall|j: int|
                    0 <= j < i ==> !(#[trigger] self@.reassembly[j].seq == chunk.seq && reasm_end(
                        self@.reassembly[j],
                    ) == reasm_end(chunk)),
            decreases self@.reassembly.len() - i,
        {
            assert(self.reassembly@[i as int]@ == self@.reassembly[i as int]);
            if self.reassembly[i].seq == start && self.reassembly[i].end_seq() == chunk_end {
                assert(self@.reassembly[i as int].seq == chunk.seq && reasm_end(
                    self@.reassembly[i as int],
                ) == reasm_end(chunk));
                return;
            }
            i = i + 1;
        }
        if self.reassembly.len() < config.max_reassembly_segments {
            let bytes = copy_bytes(payload, lo, lo + allowed);
            assert(bytes@ =~= chunk.payload);
            let item = ReassemblySegment { seq: start, payload: bytes, fin: kept_fin };
            self.reassembly.push(item);
            assert(self@.reassembly =~= old(self)@.reassembly.push(chunk));
            proof {
                lemma_reasm_bytes_push(old(self)@.reassembly, chunk);
            }
        }
    }

    /// Drop reassembly segments that hold nothing beyond RCV.NXT.
    #[verifier::rlimit(30)]
    #[verifier::spinoff_prover]
    fn retain_live(&mut self)
        ensures
            final(self)@ == (ConnView {
                reassembly: reasm_filter(old(self)@.reassembly, old(self)@.recv_nxt),
                ..old(self)@
            }),
            final(self).rtt == old(self).rtt,
    {
        let mut rest: Vec<ReassemblySegment> = Vec::new();
        std::mem::swap(&mut rest, &mut self.reassembly);
        let ghost orig = reasm_views(rest@);
        let ghost nxt = self.recv_nxt;
        assert(orig.skip(0) =~= orig);
        assert(reasm_views(self.reassembly@) =~= Seq::<ReasmView>::empty());
        let mut k: usize = 0;
        let n = rest.len();
        while k < n
            invariant
                nxt == self.recv_nxt,
                n == orig.len(),
                k <= n,
                rest@.len() == n - k,
                reasm_views(rest@) == orig.skip(k as int),
                reasm_filter(orig, nxt) == reasm_views(self.reassembly@) + reasm_filter(
                    orig.skip(k as int),
                    nxt,
                ),
                self@ == (ConnView { reassembly: reasm_views(self.reassembly@), ..old(self)@ }),
                self.rtt == old(self).rtt,
            decreases n - k,
        {
            proof {
                lemma_reasm_filter_skip(orig, nxt, k as int);
            }
            let ghost before = reasm_views(self.reassembly@);
            let ghost prev = rest@;
            let item = rest.remove(0);
            assert(item@ == orig[k as int]);
            assert forall|j: int| 0 <= j < rest@.len() implies #[trigger] reasm_views(rest@)[j]
                == orig.skip(k + 1)[j] by {
                assert(rest@[j] == prev[j + 1]);
                assert(reasm_views(prev)[j + 1] == orig.skip(k as int)[j + 1]);
            }
            assert(reasm_views(rest@) =~= orig.skip(k + 1));
            let end = item.end_seq();
            let live = !before_or_equal(end, self.recv_nxt) || (item.fin && end == advance_len(
                self.recv_nxt,
                1,
            ));
            assert(live == reasm_live(orig[k as int], nxt));
            if live {
                self.reassembly.push(item);
                assert(reasm_views(self.reassembly@) =~= before + seq![orig[k as int]]);
                assert(before + (seq![orig[k as int]] + reasm_filter(orig.skip(k + 1), nxt)) =~= (
                before + seq![orig[k as int]]) + reasm_filter(orig.skip(k + 1), nxt));
            }
            k = k + 1;
        }
        assert(orig.skip(n as int) =~= Seq::<ReasmView>::empty());
        assert(reasm_views(self.reassembly@) + Seq::<ReasmView>::empty() =~= reasm_views(
            self.reassembly@,
        ));
    }

    /// The index of the first reassembly segment that starts at or before RCV.NXT.
    fn first_ready_index(&self) -> (r: Option<usize>)
        ensures
            match first_ready(self@.reassembly, self@.recv_nxt) {
                Some(i) => r == Some(i as usize),
                None => r is None,
            },
    {
        let mut i: usize = 0;
        while i < self.reassembly.len()
            invariant
                i <= self@.reassembly.len(),
                forall|j: int|
                    0 <= j < i ==> !reasm_ready(#[trigger] self@.reassembly[j], self@.recv_nxt),
            decreases self@.reassembly.len() - i,
        {
            assert(self.reassembly@[i as int]@ == self@.reassembly[i as int]);
            let seq = self.reassembly[i].seq;
            if seq == self.recv_nxt || before(seq, self.recv_nxt) {
                proof {
                    lemma_first_ready_char(self@.reassembly, self@.recv_nxt, i as int);
                }
                return Some(i);
            }
            i = i + 1;
        }
        proof {
            lemma_first_ready_none(self@.reassembly, self@.recv_nxt);
        }
        None
    }

    #[verifier::rlimit(40)]
    #[verifier::spinoff_prover]
    fn drain_reassembly(&mut self, now_ms: u64, config: &Config)
        requires
            old(self).wf(*config),
        ensures
            final(self)@ == drain_spec(old(self)@, now_ms, *config),
            final(self).wf(*config),
    {
        loop
            invariant_except_break
                self.wf(*config),
                drain_spec(self@, now_ms, *config) == drain_spec(old(self)@, now_ms, *config),
            ensures
                self.wf(*config),
                self@ == drain_spec(old(self)@, now_ms, *config),
            decreases self@.reassembly.len(),
        {
            let ghost c0 = self@;
            proof {
                lemma_reasm_filter_len(c0.reassembly, c0.recv_nxt);
                lemma_reasm_filter_bytes(c0.reassembly, c0.recv_nxt);
            }
            self.retain_live();
            let ghost kept = self@.reassembly;
            let next = self.first_ready_index();
            let index = match next {
                None => {
                    break;
                },
                Some(i) => i,
            };
            proof {
                lemma_first_ready_index(kept, c0.recv_nxt);
                lemma_reasm_bytes_remove(kept, index as int);
                lemma_reasm_bytes_nonneg(kept.remove(index as int));
            }
            let mut segment = self.reassembly.remove(index);
            assert(segment@ == kept[index as int]);
            assert(self@.reassembly =~= kept.remove(index as int));
            let ghost s = kept[index as int];
            let mut trim: usize = 0;
            if before(segment.seq, self.recv_nxt) {
                let d = distance(segment.seq, self.recv_nxt);
                trim = if d <= segment.payload.len() {
                    d
                } else {
                    segment.payload.len()
                };
                let tail = segment.payload.split_off(trim);
                segment.payload = tail;
                segment.seq = self.recv_nxt;
            }
            let ghost data = s.payload.skip(trim as int);
            assert(segment.payload@ =~= data);
            let capacity = sub_usize(config.receive_buffer, self.recv_queue.len());
            let accepted = if capacity <= segment.payload.len() {
                capacity
            } else {
                segment.payload.len()
            };
            let rest = segment.payload.split_off(accepted);
            let mut head = segment.payload;
            self.recv_queue.append(&mut head);
            assert(self@.recv_queue =~= c0.recv_queue + data.take(accepted as int));
            assert(rest@ =~= data.skip(accepted as int));
            self.recv_nxt = advance_len(self.recv_nxt, accepted);
            if rest.len() > 0 {
                let item = ReassemblySegment { seq: self.recv_nxt, payload: rest, fin: segment.fin };
                let ghost before = self@.reassembly;
                self.reassembly.push(item);
                assert(self@.reassembly =~= before.push(item@));
                proof {
                    lemma_reasm_bytes_push(before, item@);
                }
                break;
            }
            if segment.fin {
                self.recv_nxt = advance_len(self.recv_nxt, 1);
                self.on_remote_fin(now_ms, config);
            }
        }
    }

    fn receive_stream_data(&mut self, segment: &Segment, now_ms: u64, config: &Config) -> (r: Segment)
        requires
            old(self).wf(*config),
        ensures
            (final(self)@, r@) == receive_stream_data_spec(old(self)@, segment@, now_ms, *config),
            final(self).wf(*config),
    {
        let fin = segment.flags.contains(Flags::fin());
        self.insert_received(segment.seq, segment.payload.as_slice(), fin, config);
        self.drain_reassembly(now_ms, config);
        self.ack_segment()
    }

    #[verifier::rlimit(30)]
    #[verifier::spinoff_prover]
    fn flush_data(&mut self, now_ms: u64, config: &Config) -> (r: Vec<Segment>)
        requires
            old(self).wf(*config),
        ensures
            (final(self)@, segment_views(r@)) == flush_spec(old(self)@, now_ms),
            final(self).wf(*config),
    {
        let mut output: Vec<Segment> = Vec::new();
        if self.state != State::Established && self.state != State::CloseWait {
            assert(segment_views(output@) =~= Seq::<SegmentView>::empty());
            return output;
        }
        let ghost start = self@;
        assert(segment_views(output@) + flush_loop_spec(self@, now_ms).1 =~= flush_loop_spec(
            self@,
            now_ms,
        ).1);
        loop
            invariant_except_break
                self.wf(*config),
                flush_loop_spec(start, now_ms) == (
                    flush_loop_spec(self@, now_ms).0,
                    segment_views(output@) + flush_loop_spec(self@, now_ms).1,
                ),
            ensures
                self.wf(*config),
                flush_loop_spec(start, now_ms) == (self@, segment_views(output@)),
            decreases self@.send_queue.len(),
        {
            let in_flight = distance(self.send_una, self.send_nxt);
            let congestion = self.reno.window();
            let window = if self.remote_window <= congestion {
                self.remote_window
            } else {
                congestion
            };
            let available = sub_usize(window, in_flight);
            if available == 0 || self.send_queue.len() == 0 {
                assert(segment_views(output@) + Seq::<SegmentView>::empty() =~= segment_views(
                    output@,
                ));
                break;
            }
            let by_mss = if available <= self.mss {
                available
            } else {
                self.mss
            };
            let count = if by_mss <= self.send_queue.len() {
                by_mss
            } else {
                self.send_queue.len()
            };
            let ghost c0 = self@;
            let mut payload = self.send_queue.split_off(count);
            std::mem::swap(&mut payload, &mut self.send_queue);
            assert(payload@ =~= c0.send_queue.take(count as int));
            assert(self@.send_queue =~= c0.send_queue.skip(count as int));
            let ghost c1 = self@;
            let ghost pl = payload@;
            let segment = self.send_tracked(Flags::ack().union(Flags::psh()), payload, now_ms);
            proof {
                crate::model::lemma_unacked_bytes_push(c1.unacked, self@.unacked.last());
                assert(self@.unacked =~= c1.unacked.push(self@.unacked.last()));
                let rest = flush_loop_spec(self@, now_ms).1;
                assert(segment_views(output@.push(segment)) =~= segment_views(output@).push(
                    segment@,
                ));
                assert(segment_views(output@) + (seq![segment@] + rest) =~= segment_views(
                    output@,
                ).push(segment@) + rest);
            }
            output.push(segment);
        }
        let ghost looped = self@;
        if self.close_requested && self.send_queue.len() == 0 {
            let in_flight = distance(self.send_una, self.send_nxt);
            let congestion = self.reno.window();
            let window = if self.remote_window <= congestion {
                self.remote_window
            } else {
                congestion
            };
            let available = sub_usize(window, in_flight);
            if available > 0 {
                self.close_requested = false;
                self.state = if self.state == State::Established {
                    State::FinWait1
                } else {
                    State::LastAck
                };
                let ghost c1 = self@;
                let fin = self.send_tracked(Flags::fin().union(Flags::ack()), Vec::new(), now_ms);
                proof {
                    crate::model::lemma_unacked_bytes_push(c1.unacked, self@.unacked.last());
                    assert(self@.unacked =~= c1.unacked.push(self@.unacked.last()));
                    assert(segment_views(output@.push(fin)) =~= segment_views(output@).push(fin@));
                }
                output.push(fin);
            }
        }
        output
    }

    #[verifier::loop_isolation(false)]
    fn zero_window_probe(&mut self, now_ms: u64, config: &Config) -> (r: Option<Segment>)
        requires
            old(self).wf(*config),
        ensures
            (final(self)@, opt_view(r)) == zero_window_probe_spec(old(self)@, now_ms),
            final(self).wf(*config),
    {
        let mut i: usize = 0;
        while i < self.unacked.len()
            invariant
                i <= self@.unacked.len(),
                forall|j: int| 0 <= j < i ==> (#[trigger] self@.unacked[j]).payload.len() == 0,
            decreases self@.unacked.len() - i,
        {
            assert(self.unacked@[i as int]@ == self@.unacked[i as int]);
            if self.unacked[i].payload.len() > 0 {
                proof {
                    lemma_first_with_payload_char(self@.unacked, i as int);
                }
                let mut one: Vec<u8> = Vec::new();
                one.push(self.unacked[i].payload[0]);
                assert(one@ =~= seq![self@.unacked[i as int].payload[0]]);
                return Some(
                    build_segment(
                        SegmentHeader {
                            local_port: self.local_port,
                            remote_port: self.remote_port,
                            seq: self.unacked[i].seq,
                            ack: self.recv_nxt,
                            window: self.available_window_u16(),
                            mss: self.mss as u16,
                            flags: Flags::ack().union(Flags::psh()),
                        },
                        one,
                    ),
                );
            }
            i = i + 1;
        }
        proof {
            lemma_first_with_payload_none(self@.unacked);
        }
        if self.send_queue.len() == 0 {
            return None;
        }
        let byte = self.send_queue.remove(0);
        let mut one: Vec<u8> = Vec::new();
        one.push(byte);
        let ghost c1 = self@;
        assert(c1.send_queue =~= old(self)@.send_queue.drop_first());
        assert(one@ =~= seq![old(self)@.send_queue[0]]);
        let segment = self.send_tracked(Flags::ack().union(Flags::psh()), one, now_ms);
        proof {
            crate::model::lemma_unacked_bytes_push(c1.unacked, self@.unacked.last());
            assert(self@.unacked =~= c1.unacked.push(self@.unacked.last()));
        }
        Some(segment)
    }

    fn unacked_payload_len(&self) -> (r: usize)
        requires
            unacked_bytes(self@.unacked) <= usize::MAX,
        ensures
            r == unacked_bytes(self@.unacked),
    {
        let ghost u = self@.unacked;
        let mut total: usize = 0;
        let mut i: usize = 0;
        assert(u.skip(0) =~= u);
        while i < self.unacked.len()
            invariant
                u == self@.unacked,
                i <= u.len(),
                unacked_bytes(u) == total + unacked_bytes(u.skip(i as int)),
                unacked_bytes(u) <= usize::MAX,
            decreases u.len() - i,
        {
            proof {
                crate::model::lemma_unacked_bytes_skip(u, i as int);
            }
            assert(self.unacked@[i as int]@ == u[i as int]);
            total = total + self.unacked[i].payload.len();
            i = i + 1;
        }
        assert(u.skip(u.len() as int) =~= Seq::<TrackedView>::empty());
        total
    }

    pub fn write(&mut self, bytes: &[u8], now_ms: u64, config: &Config) -> (r: Result<
        (usize, Vec<Segment>),
        StackError,
    >)
        requires
            old(self).wf(*config),
        ensures
            final(self).wf(*config),
            match write_spec(old(self)@, bytes@, now_ms, *config) {
                Err(st) => r matches Err(StackError::InvalidState(x)) && x == st && final(self)@
                    == old(self)@,
                Ok((c, n, out)) => r matches Ok((a, segs)) && a == n && segment_views(segs@) == out
                    && final(self)@ == c,
            },
    {
        if (self.state != State::Established && self.state != State::CloseWait)
            || self.close_requested {
            return Err(StackError::InvalidState(self.state));
        }
        proof {
            lemma_unacked_bytes_nonneg(self@.unacked);
        }
        let buffered = self.send_queue.len() + self.unacked_payload_len();
        let room = sub_usize(config.send_buffer, buffered);
        let accepted = if bytes.len() <= room {
            bytes.len()
        } else {
            room
        };
        let taken = copy_bytes(bytes, 0, accepted);
        crate::wire::push_all(&mut self.send_queue, &taken);
        assert(self@.send_queue =~= old(self)@.send_queue + bytes@.take(accepted as int));
        self.send_progress.accept(accepted);
        let segments = self.flush_data(now_ms, config);
        Ok((accepted, segments))
    }

    pub fn read(&mut self, max: usize, now_ms: u64, config: &Config) -> (r: (Vec<u8>, Vec<Segment>))
        requires
            old(self).wf(*config),
        ensures
            final(self).wf(*config),
            (final(self)@, r.0@, segment_views(r.1@)) == read_spec(old(self)@, max as int),
    {
        let previous_window = self.available_window();
        let count = if max <= self.recv_queue.len() {
            max
        } else {
            self.recv_queue.len()
        };
        let mut bytes = self.recv_queue.split_off(count);
        std::mem::swap(&mut bytes, &mut self.recv_queue);
        assert(bytes@ =~= old(self)@.recv_queue.take(count as int));
        assert(self@.recv_queue =~= old(self)@.recv_queue.skip(count as int));
        let should_update = count > 0 && self.available_window() > previous_window
            && self.state != State::SynSent && self.state != State::SynReceived && self.state
            != State::TimeWait;
        let mut segments: Vec<Segment> = Vec::new();
        if should_update {
            segments.push(self.ack_segment());
        }
        proof {
            if should_update {
                assert(segment_views(segments@) =~= seq![ack_segment_spec(self@)]);
            } else {
                assert(segment_views(segments@) =~= Seq::<SegmentView>::empty());
            }
        }
        (bytes, segments)
    }

    fn has_unacked_payload(&self) -> (r: bool)
        ensures
            r == (first_with_payload(self@.unacked) is Some),
    {
        let mut i: usize = 0;
        while i < self.unacked.len()
            invariant
                i <= self@.unacked.len(),
                forall|j: int| 0 <= j < i ==> (#[trigger] self@.unacked[j]).payload.len() == 0,
            decreases self@.unacked.len() - i,
        {
            assert(self.unacked@[i as int]@ == self@.unacked[i as int]);
            if self.unacked[i].payload.len() > 0 {
                proof {
                    lemma_first_with_payload_char(self@.unacked, i as int);
                }
                return true;
            }
            i = i + 1;
        }
        proof {
            lemma_first_with_payload_none(self@.unacked);
        }
        false
    }

    pub fn close(&mut self, now_ms: u64, config: &Config) -> (r: Update)
        requires
            old(self).wf(*config),
        ensures
            final(self).wf(*config),
            r.matches(final(self)@, close_spec(old(self)@, now_ms)),
    {
        match self.state {
            State::Established | State::CloseWait => {
                self.close_requested = true;
                let segments = self.flush_data(now_ms, config);
                Update::open(segments)
            },
            State::SynSent | State::SynReceived => Update::nothing(true),
            _ => Update::nothing(false),
        }
    }

    #[verifier::rlimit(30)]
    #[verifier::spinoff_prover]
    pub fn poll(&mut self, now_ms: u64, config: &Config) -> (r: Update)
        requires
            old(self).wf(*config),
            time_ok(now_ms),
        ensures
            final(self).wf(*config),
            r.matches(final(self)@, poll_spec(old(self)@, now_ms, *config)),
    {
        let deadline = match self.state {
            State::FinWait2 => self.fin_wait_2_until_ms,
            State::TimeWait => self.time_wait_until_ms,
            _ => None,
        };
        if let Some(d) = deadline {
            if now_ms >= d {
                return Update::nothing(true);
            }
        }
        let zero_window_work = self.close_requested || self.send_queue.len() > 0
            || self.has_unacked_payload();
        if self.remote_window == 0 && zero_window_work {
            let deadline = match self.next_zero_window_probe_ms {
                Some(d) => d,
                None => add_u64(now_ms, config.initial_rto_ms),
            };
            self.next_zero_window_probe_ms = Some(deadline);
            if now_ms >= deadline {
                if self.zero_window_probes >= config.max_retransmissions {
                    return Update::nothing(true);
                }
                match self.zero_window_probe(now_ms, config) {
                    Some(probe) => {
                        self.zero_window_probes = if self.zero_window_probes == 255 {
                            255
                        } else {
                            self.zero_window_probes + 1
                        };
                        let shift = if self.zero_window_probes <= 16 {
                            self.zero_window_probes
                        } else {
                            16
                        };
                        let factor = power_of_two(shift);
                        let scaled = crate::arith::mul_u64(config.initial_rto_ms, factor);
                        let delay = if scaled <= config.max_rto_ms {
                            scaled
                        } else {
                            config.max_rto_ms
                        };
                        self.next_zero_window_probe_ms = Some(add_u64(now_ms, delay));
                        return Update::single(probe);
                    },
                    None => {
                        return Update::nothing(false);
                    },
                }
            }
            return Update::nothing(false);
        }
        let mut segments: Vec<Segment> = Vec::new();
        assert(segment_views(segments@) =~= Seq::<SegmentView>::empty());
        if self.unacked.len() > 0 && now_ms >= add_u64(
            self.unacked[0].sent_at_ms,
            self.rtt.timeout_ms(),
        ) {
            if self.unacked[0].transmissions >= config.max_retransmissions {
                return Update::nothing(true);
            }
            let in_flight = distance(self.send_una, self.send_nxt);
            self.reno.on_timeout(in_flight);
            self.rtt.on_timeout();
            let ghost c1 = self@;
            match self.retransmit_oldest(now_ms, true) {
                Some(r) => {
                    segments.push(r);
                    assert(segment_views(segments@) =~= seq![r@]);
                },
                None => {},
            }
            proof {
                lemma_unacked_bytes_update0(c1.unacked, self@.unacked[0]);
            }
        }
        let mut more = self.flush_data(now_ms, config);
        let ghost first = segment_views(segments@);
        let ghost second = segment_views(more@);
        segments.append(&mut more);
        assert(segment_views(segments@) =~= first + second);
        Update::open(segments)
    }

    fn on_reset(&self, segment: &Segment) -> (r: Update)
        requires
            self@.recv_queue.len() + reasm_bytes(self@.reassembly) <= self@.receive_capacity,
            self.mss <= 65535,
        ensures
            r.matches(self@, on_reset_spec(self@, segment@)),
    {
        if self.state == State::SynSent {
            let acceptable = match segment.ack {
                Some(ack) => after(ack, self.send_una) && !after(ack, self.send_nxt),
                None => false,
            };
            return Update::nothing(acceptable);
        }
        if segment.seq == self.recv_nxt {
            return Update::nothing(true);
        }
        let window = self.available_window();
        if window > 0 && distance(self.recv_nxt, segment.seq) < window {
            Update::single(self.ack_segment())
        } else {
            Update::nothing(false)
        }
    }

    #[verifier::rlimit(40)]
    #[verifier::spinoff_prover]
    fn on_synchronized(&mut self, segment: &Segment, now_ms: u64, config: &Config) -> (r: Update)
        requires
            old(self).wf(*config),
            time_ok(now_ms),
        ensures
            final(self).wf(*config),
            r.matches(final(self)@, on_synchronized_spec(old(self)@, segment@, now_ms, *config)),
    {
        let mut output: Vec<Segment> = Vec::new();
        assert(segment_views(output@) =~= Seq::<SegmentView>::empty());
        if let Some(ack) = segment.ack {
            let duplicate = ack == self.send_una && segment.payload.len() == 0;
            let (fin_acked, retransmit) = self.apply_ack(ack, now_ms, duplicate, config);
            match retransmit {
                Some(r) => {
                    output.push(r);
                    assert(segment_views(output@) =~= seq![r@]);
                },
                None => {},
            }
            if fin_acked {
                match self.state {
                    State::FinWait1 => {
                        self.state = State::FinWait2;
                        self.fin_wait_2_until_ms = Some(add_u64(now_ms, config.fin_wait_2_ms));
                    },
                    State::Closing => self.enter_time_wait(now_ms, config),
                    State::LastAck => {
                        return Update::closed(output);
                    },
                    _ => {},
                }
            }
            if in_closed_interval(ack, self.send_una, self.send_nxt) {
                self.update_remote_window(segment.window, now_ms);
            }
        }
        if segment.payload.len() > 0 || segment.flags.contains(Flags::fin()) {
            let a = self.receive_stream_data(segment, now_ms, config);
            let ghost before = segment_views(output@);
            output.push(a);
            assert(segment_views(output@) =~= before.push(a@));
        }
        let ghost first = segment_views(output@);
        let mut more = self.flush_data(now_ms, config);
        let ghost second = segment_views(more@);
        output.append(&mut more);
        assert(segment_views(output@) =~= first + second);
        Update::open(output)
    }

    #[verifier::rlimit(40)]
    #[verifier::spinoff_prover]
    pub fn on_segment(&mut self, segment: &Segment, now_ms: u64, config: &Config) -> (r: Update)
        requires
            old(self).wf(*config),
            time_ok(now_ms),
        ensures
            final(self).wf(*config),
            r.matches(final(self)@, on_segment_spec(old(self)@, segment@, now_ms, *config)),
    {
        if segment.flags.contains(Flags::rst()) {
            return self.on_reset(segment);
        }
        if self.state == State::SynSent {
            if segment.flags.contains(Flags::syn()) && segment.flags.contains(Flags::ack())
                && segment.ack == Some(self.send_nxt) && segment.supports_fips_version(
                FIPS_VERSION,
            ) {
                self.update_remote_window(segment.window, now_ms);
                self.negotiate_mss(segment, config);
                let nxt = self.send_nxt;
                let _ = self.apply_ack(nxt, now_ms, false, config);
                self.recv_nxt = advance(segment.seq, 1);
                self.state = State::Established;
                return Update::single(self.ack_segment());
            }
            return Update::nothing(false);
        }
        if self.state == State::SynReceived {
            if segment.flags.contains(Flags::syn()) && !segment.flags.contains(Flags::ack())
                && advance(segment.seq, 1) == self.recv_nxt {
                let ghost c0 = self@;
                let r = self.retransmit_oldest(now_ms, false);
                proof {
                    if c0.unacked.len() > 0 {
                        lemma_unacked_bytes_update0(c0.unacked, self@.unacked[0]);
                    }
                }
                return match r {
                    Some(x) => Update::single(x),
                    None => Update::nothing(false),
                };
            }
            if segment.ack != Some(self.send_nxt) {
                return Update::nothing(false);
            }
            let nxt = self.send_nxt;
            let _ = self.apply_ack(nxt, now_ms, false, config);
            self.update_remote_window(segment.window, now_ms);
            self.state = State::Established;
            let mut output: Vec<Segment> = Vec::new();
            assert(segment_views(output@) =~= Seq::<SegmentView>::empty());
            if segment.payload.len() > 0 || segment.flags.contains(Flags::fin()) {
                let a = self.receive_stream_data(segment, now_ms, config);
                output.push(a);
                assert(segment_views(output@) =~= seq![a@]);
            }
            let ghost first = segment_views(output@);
            let mut more = self.flush_data(now_ms, config);
            let ghost second = segment_views(more@);
            output.append(&mut more);
            assert(segment_views(output@) =~= first + second);
            return Update { segments: output, accepted: true, closed: false };
        }
        self.on_synchronized(segment, now_ms, config)
    }

    pub fn client(
        peer: P,
        local_port: u16,
        remote_port: u16,
        isn: u32,
        now_ms: u64,
        token: u64,
        config: &Config,
    ) -> (r: (Self, Segment))
        requires
            config.valid(),
        ensures
            (r.0@, r.1@) == client_spec(peer@, local_port, remote_port, isn, now_ms, token, *config),
            r.0.wf(*config),
    {
        let mut connection = Self::new(
            peer,
            local_port,
            remote_port,
            State::SynSent,
            isn,
            0,
            token,
            config,
        );
        let ghost c0 = connection@;
        let syn = connection.send_tracked(Flags::syn(), Vec::new(), now_ms);
        proof {
            crate::model::lemma_unacked_bytes_push(c0.unacked, connection@.unacked.last());
            assert(connection@.unacked =~= c0.unacked.push(connection@.unacked.last()));
        }
        (connection, syn)
    }

    pub fn server(peer: P, syn: &Segment, isn: u32, now_ms: u64, token: u64, config: &Config) -> (r: (
        Self,
        Segment,
    ))
        requires
            config.valid(),
        ensures
            (r.0@, r.1@) == server_spec(peer@, syn@, isn, now_ms, token, *config),
            r.0.wf(*config),
    {
        let mut connection = Self::new(
            peer,
            syn.dst_port,
            syn.src_port,
            State::SynReceived,
            isn,
            advance(syn.seq, 1),
            token,
            config,
        );
        connection.update_remote_window(syn.window, now_ms);
        connection.negotiate_mss(syn, config);
        let ghost c0 = connection@;
        let syn_ack = connection.send_tracked(Flags::syn().union(Flags::ack()), Vec::new(), now_ms);
        proof {
            crate::model::lemma_unacked_bytes_push(c0.unacked, connection@.unacked.last());
            assert(connection@.unacked =~= c0.unacked.push(connection@.unacked.last()));
        }
        (connection, syn_ack)
    }
}

} // verus!
