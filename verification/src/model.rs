//! The mathematical model of one TCP/FIPS connection and of each step it takes.

use vstd::prelude::*;

use crate::arith::{max_int, min_int, sat_add_u64, sat_add_usize, sat_mul_u64, sat_sub};
use crate::marker::{ProgressView, sat_add_u128};
use crate::reno::{
    RenoState, reno_on_ack, reno_on_duplicate_ack, reno_on_fast_loss, reno_on_timeout,
    reno_set_mss, reno_window,
};
use crate::rtt::{RttState, rtt_on_timeout, rtt_sample};
use crate::seq::{forward, is_after, is_before, is_before_or_equal, seq_add};
use crate::types::{Config, State};
use crate::wire::{
    ACK_BIT, FIN_BIT, FIPS_VERSION, OptionView, PSH_BIT, RST_BIT, SYN_BIT, SegmentView,
    announces_version, first_mss, has_flag,
};

verus! {

/// A sent segment that still waits for its acknowledgement.
pub struct TrackedView {
    pub seq: u32,
    pub flags: u16,
    pub payload: Seq<u8>,
    pub sent_at_ms: u64,
    pub retransmitted: bool,
    pub transmissions: u8,
}

/// Received bytes (and possibly the FIN) waiting for their turn in the stream.
pub struct ReasmView {
    pub seq: u32,
    pub payload: Seq<u8>,
    pub fin: bool,
}

/// One retained connection.
pub struct ConnView<V> {
    pub peer: V,
    pub local_port: u16,
    pub remote_port: u16,
    pub state: State,
    pub send_una: u32,
    pub send_nxt: u32,
    pub recv_nxt: u32,
    pub remote_window: usize,
    pub mss: usize,
    pub receive_capacity: usize,
    pub send_queue: Seq<u8>,
    pub recv_queue: Seq<u8>,
    pub reassembly: Seq<ReasmView>,
    pub unacked: Seq<TrackedView>,
    pub rtt: RttState,
    pub reno: RenoState,
    pub duplicate_acks: u8,
    pub close_requested: bool,
    pub next_zero_window_probe_ms: Option<u64>,
    pub zero_window_probes: u8,
    pub read_closed: bool,
    pub fin_wait_2_until_ms: Option<u64>,
    pub time_wait_until_ms: Option<u64>,
    pub progress: ProgressView,
}

pub open spec fn flag_count(bits: u16, flag: u16) -> int {
    if has_flag(bits, flag) {
        1
    } else {
        0
    }
}

/// The sequence number just after a sent segment (SYN and FIN count one each).
pub open spec fn tracked_end(t: TrackedView) -> u32 {
    seq_add(t.seq, t.payload.len() + flag_count(t.flags, SYN_BIT) + flag_count(t.flags, FIN_BIT))
}

/// The sequence number just after a reassembly segment (its FIN counts one).
pub open spec fn reasm_end(r: ReasmView) -> u32 {
    seq_add(
        r.seq,
        r.payload.len() + if r.fin {
            1int
        } else {
            0int
        },
    )
}

/// The payload bytes held in reassembly (overlaps counted each time).
pub open spec fn reasm_bytes(s: Seq<ReasmView>) -> int
    decreases s.len(),
{
    if s.len() == 0 {
        0
    } else {
        s[0].payload.len() + reasm_bytes(s.drop_first())
    }
}

pub proof fn lemma_reasm_bytes_skip(s: Seq<ReasmView>, k: int)
    requires
        0 <= k < s.len(),
    ensures
        reasm_bytes(s.skip(k)) == s[k].payload.len() + reasm_bytes(s.skip(k + 1)),
        reasm_bytes(s.skip(k + 1)) >= 0,
{
    assert(s.skip(k).drop_first() =~= s.skip(k + 1));
    lemma_reasm_bytes_nonneg(s.skip(k + 1));
}

pub proof fn lemma_reasm_bytes_nonneg(s: Seq<ReasmView>)
    ensures
        reasm_bytes(s) >= 0,
    decreases s.len(),
{
    if s.len() > 0 {
        lemma_reasm_bytes_nonneg(s.drop_first());
    }
}

pub proof fn lemma_unacked_bytes_nonneg(s: Seq<TrackedView>)
    ensures
        unacked_bytes(s) >= 0,
    decreases s.len(),
{
    if s.len() > 0 {
        lemma_unacked_bytes_nonneg(s.drop_first());
    }
}

/// The payload bytes sent but not yet acknowledged.
pub open spec fn unacked_bytes(s: Seq<TrackedView>) -> int
    decreases s.len(),
{
    if s.len() == 0 {
        0
    } else {
        s[0].payload.len() + unacked_bytes(s.drop_first())
    }
}

pub proof fn lemma_unacked_bytes_skip(s: Seq<TrackedView>, k: int)
    requires
        0 <= k < s.len(),
    ensures
        unacked_bytes(s.skip(k)) == s[k].payload.len() + unacked_bytes(s.skip(k + 1)),
        unacked_bytes(s.skip(k + 1)) >= 0,
{
    assert(s.skip(k).drop_first() =~= s.skip(k + 1));
    lemma_unacked_bytes_nonneg(s.skip(k + 1));
}

/// The receive window: free buffer space after queued and reassembled bytes.
pub open spec fn avail_window<V>(c: ConnView<V>) -> int {
    sat_sub(
        c.receive_capacity as int,
        sat_add_usize(c.recv_queue.len() as int, reasm_bytes(c.reassembly)),
    )
}

/// The receive window as advertised in the 16-bit header field.
pub open spec fn avail_window_u16<V>(c: ConnView<V>) -> u16 {
    min_int(avail_window(c), 65535) as u16
}

/// The segment a connection emits for a header and payload: an ACK number only
/// with the ACK flag, and the MSS and FIPS version options only on SYN.
pub open spec fn build_segment_spec(
    local_port: u16,
    remote_port: u16,
    seq: u32,
    ack: u32,
    window: u16,
    mss: u16,
    flags: u16,
    payload: Seq<u8>,
) -> SegmentView {
    SegmentView {
        src_port: local_port,
        dst_port: remote_port,
        seq,
        ack: if has_flag(flags, ACK_BIT) {
            Some(ack)
        } else {
            None
        },
        flags,
        window,
        options: if has_flag(flags, SYN_BIT) {
            seq![
                OptionView::MaxSegmentSize(mss),
                OptionView::FipsVersion { version: FIPS_VERSION, reserved: 0 },
            ]
        } else {
            Seq::empty()
        },
        payload,
    }
}

/// A pure acknowledgement of everything received so far.
pub open spec fn ack_segment_spec<V>(c: ConnView<V>) -> SegmentView {
    build_segment_spec(
        c.local_port,
        c.remote_port,
        c.send_nxt,
        c.recv_nxt,
        avail_window_u16(c),
        c.mss as u16,
        ACK_BIT,
        Seq::empty(),
    )
}

/// The active reset `<SEQ=SND.NXT><CTL=RST>`.
pub open spec fn reset_segment_spec<V>(c: ConnView<V>) -> SegmentView {
    build_segment_spec(
        c.local_port,
        c.remote_port,
        c.send_nxt,
        c.recv_nxt,
        0,
        c.mss as u16,
        RST_BIT,
        Seq::empty(),
    )
}

/// A (re)transmission of a sent segment with the current ACK and window.
pub open spec fn segment_for_spec<V>(c: ConnView<V>, t: TrackedView) -> SegmentView {
    build_segment_spec(
        c.local_port,
        c.remote_port,
        t.seq,
        c.recv_nxt,
        avail_window_u16(c),
        c.mss as u16,
        t.flags,
        t.payload,
    )
}

/// A fresh connection in `state` with initial send sequence `isn`.
pub open spec fn conn_new<V>(
    peer: V,
    local_port: u16,
    remote_port: u16,
    state: State,
    isn: u32,
    recv_nxt: u32,
    token: u64,
    rtt: RttState,
    reno: RenoState,
    cfg: Config,
) -> ConnView<V> {
    ConnView {
        peer,
        local_port,
        remote_port,
        state,
        send_una: isn,
        send_nxt: isn,
        recv_nxt,
        remote_window: 65535,
        mss: cfg.mss as usize,
        receive_capacity: cfg.receive_buffer,
        send_queue: Seq::empty(),
        recv_queue: Seq::empty(),
        reassembly: Seq::empty(),
        unacked: Seq::empty(),
        rtt,
        reno,
        duplicate_acks: 0,
        close_requested: false,
        next_zero_window_probe_ms: None,
        zero_window_probes: 0,
        read_closed: false,
        fin_wait_2_until_ms: None,
        time_wait_until_ms: None,
        progress: ProgressView { token, accepted: 0, acked: 0 },
    }
}

/// Send a new segment: it is kept for retransmission and advances SND.NXT.
pub open spec fn send_tracked_spec<V>(c: ConnView<V>, flags: u16, payload: Seq<u8>, now: u64) -> (
    ConnView<V>,
    SegmentView,
) {
    let t = TrackedView {
        seq: c.send_nxt,
        flags,
        payload,
        sent_at_ms: now,
        retransmitted: false,
        transmissions: 1,
    };
    (ConnView { send_nxt: tracked_end(t), unacked: c.unacked.push(t), ..c }, segment_for_spec(c, t))
}

/// Retransmit the oldest unacknowledged segment, if any.
pub open spec fn retransmit_oldest_spec<V>(c: ConnView<V>, now: u64, timeout: bool) -> (
    ConnView<V>,
    Option<SegmentView>,
) {
    if c.unacked.len() == 0 {
        (c, None)
    } else {
        let t = c.unacked[0];
        let t2 = TrackedView {
            sent_at_ms: now,
            retransmitted: true,
            transmissions: min_int(t.transmissions + 1, 255) as u8,
            ..t
        };
        let c2 = ConnView {
            unacked: c.unacked.update(0, t2),
            duplicate_acks: if timeout {
                0
            } else {
                c.duplicate_acks
            },
            ..c
        };
        (c2, Some(segment_for_spec(c, t)))
    }
}

/// Adopt the peer's advertised window; a zero window arms the probe timer.
pub open spec fn update_remote_window_spec<V>(c: ConnView<V>, window: u16, now: u64) -> ConnView<V> {
    if window == 0 {
        ConnView {
            remote_window: 0,
            next_zero_window_probe_ms: match c.next_zero_window_probe_ms {
                Some(d) => Some(d),
                None => Some(sat_add_u64(now as int, c.rtt.rto_ms) as u64),
            },
            ..c
        }
    } else {
        ConnView {
            remote_window: window as usize,
            next_zero_window_probe_ms: None,
            zero_window_probes: 0,
            ..c
        }
    }
}

/// The segment size both sides accept: the peer's MSS (1024 if absent), at most
/// ours, at least one byte.
pub open spec fn negotiated_mss(seg: SegmentView, cfg: Config) -> int {
    max_int(
        min_int(
            match first_mss(seg.options) {
                Some(m) => m as int,
                None => 1024,
            },
            cfg.mss as int,
        ),
        1,
    )
}

pub open spec fn negotiate_mss_spec<V>(c: ConnView<V>, seg: SegmentView, cfg: Config) -> ConnView<
    V,
> {
    let m = negotiated_mss(seg, cfg);
    ConnView { mss: m as usize, reno: reno_set_mss(c.reno, m), ..c }
}

pub open spec fn enter_time_wait_spec<V>(c: ConnView<V>, now: u64, cfg: Config) -> ConnView<V> {
    ConnView {
        state: State::TimeWait,
        fin_wait_2_until_ms: None,
        time_wait_until_ms: Some(sat_add_u64(now as int, cfg.time_wait_ms as int) as u64),
        ..c
    }
}

/// The peer's FIN has arrived in sequence: reading is over, and the state
/// machine moves towards closing.
pub open spec fn on_remote_fin_spec<V>(c: ConnView<V>, now: u64, cfg: Config) -> ConnView<V> {
    let c1 = ConnView { read_closed: true, ..c };
    match c.state {
        State::Established => ConnView { state: State::CloseWait, ..c1 },
        State::FinWait1 => ConnView { state: State::Closing, ..c1 },
        State::FinWait2 => enter_time_wait_spec(c1, now, cfg),
        _ => c1,
    }
}

// ---------------------------------------------------------------------------
// Acknowledgements.
/// Remove the fully acknowledged segments from the front of the queue: what
/// remains, the payload bytes removed, whether a FIN was among them, and the
/// round-trip sample of the last removed segment that was sent only once.
pub open spec fn ack_pop(u: Seq<TrackedView>, ack: u32, now: u64) -> (
    Seq<TrackedView>,
    int,
    bool,
    Option<u64>,
)
    decreases u.len(),
{
    if u.len() == 0 || !is_before_or_equal(tracked_end(u[0]), ack) {
        (u, 0, false, None)
    } else {
        let (rest, n, f, s) = ack_pop(u.drop_first(), ack, now);
        (
            rest,
            u[0].payload.len() + n,
            has_flag(u[0].flags, FIN_BIT) || f,
            match s {
                Some(x) => Some(x),
                None => if !u[0].retransmitted {
                    Some(sat_sub(now as int, u[0].sent_at_ms as int) as u64)
                } else {
                    None
                },
            },
        )
    }
}

/// Whether an ACK falls inside the front segment's payload, so that only its
/// first bytes are acknowledged.
pub open spec fn partial_ack(u: Seq<TrackedView>, ack: u32) -> bool {
    u.len() > 0 && is_before(u[0].seq, ack) && is_before(ack, tracked_end(u[0])) && !has_flag(
        u[0].flags,
        SYN_BIT,
    ) && !has_flag(u[0].flags, FIN_BIT)
}

/// Apply a cumulative ACK: the new connection, whether our FIN is now
/// acknowledged, and a fast retransmission after the third duplicate ACK.
pub open spec fn apply_ack_spec<V>(c: ConnView<V>, ack: u32, now: u64, duplicate_candidate: bool) -> (
    ConnView<V>,
    bool,
    Option<SegmentView>,
) {
    if is_after(ack, c.send_nxt) || is_before(ack, c.send_una) {
        (c, false, None)
    } else if ack == c.send_una {
        if duplicate_candidate && c.unacked.len() > 0 {
            let d = min_int(c.duplicate_acks + 1, 255) as u8;
            let c1 = ConnView { duplicate_acks: d, reno: reno_on_duplicate_ack(c.reno), ..c };
            if d == 3 {
                let c2 = ConnView {
                    reno: reno_on_fast_loss(c1.reno, forward(c.send_una, c.send_nxt)),
                    ..c1
                };
                let (c3, r) = retransmit_oldest_spec(c2, now, false);
                (c3, false, r)
            } else {
                (c1, false, None)
            }
        } else {
            (c, false, None)
        }
    } else {
        let (rest, n, fin_acked, sample) = ack_pop(c.unacked, ack, now);
        let partial = partial_ack(rest, ack);
        let count = if partial {
            min_int(forward(rest[0].seq, ack), rest[0].payload.len() as int)
        } else {
            0
        };
        let rest2 = if partial {
            rest.update(
                0,
                TrackedView { seq: ack, payload: rest[0].payload.skip(count), ..rest[0] },
            )
        } else {
            rest
        };
        let acked = n + count;
        (
            ConnView {
                duplicate_acks: 0,
                unacked: rest2,
                send_una: ack,
                rtt: match sample {
                    Some(s) => rtt_sample(c.rtt, s as int),
                    None => c.rtt,
                },
                reno: reno_on_ack(c.reno, acked),
                progress: ProgressView {
                    acked: sat_add_u128(c.progress.acked, acked),
                    ..c.progress
                },
                ..c
            },
            fin_acked,
            None,
        )
    }
}

// ---------------------------------------------------------------------------
// Receiving.
/// Store received bytes (trimmed to what is new and fits the window) for
/// reassembly; exact duplicates and chunks beyond the segment limit are dropped.
pub open spec fn insert_received_spec<V>(
    c: ConnView<V>,
    seq: u32,
    payload: Seq<u8>,
    fin: bool,
    cfg: Config,
) -> ConnView<V> {
    let original_end = seq_add(seq, payload.len() as int);
    let trimmed = is_before(seq, c.recv_nxt);
    let trim = forward(seq, c.recv_nxt);
    let start = if trimmed {
        c.recv_nxt
    } else {
        seq
    };
    let data = if trimmed {
        if trim >= payload.len() {
            Seq::<u8>::empty()
        } else {
            payload.skip(trim)
        }
    } else {
        payload
    };
    let window = avail_window(c);
    let offset = forward(c.recv_nxt, start);
    if is_after(start, c.recv_nxt) && offset >= window {
        c
    } else {
        let allowed = min_int(data.len() as int, sat_sub(window, offset));
        let kept_fin = fin && allowed == data.len() && original_end == seq_add(
            start,
            data.len() as int,
        );
        let chunk = ReasmView { seq: start, payload: data.take(allowed), fin: kept_fin };
        if chunk.payload.len() == 0 && !chunk.fin {
            c
        } else if exists|i: int|
            0 <= i < c.reassembly.len() && #[trigger] c.reassembly[i].seq == chunk.seq
                && reasm_end(c.reassembly[i]) == reasm_end(chunk) {
            c
        } else if c.reassembly.len() < cfg.max_reassembly_segments {
            ConnView { reassembly: c.reassembly.push(chunk), ..c }
        } else {
            c
        }
    }
}

/// A reassembly segment still holds something beyond RCV.NXT (or the FIN just
/// after it).
pub open spec fn reasm_live(r: ReasmView, recv_nxt: u32) -> bool {
    !is_before_or_equal(reasm_end(r), recv_nxt) || (r.fin && reasm_end(r) == seq_add(recv_nxt, 1))
}

pub open spec fn reasm_filter(s: Seq<ReasmView>, recv_nxt: u32) -> Seq<ReasmView>
    decreases s.len(),
{
    if s.len() == 0 {
        s
    } else {
        let rest = reasm_filter(s.drop_first(), recv_nxt);
        if reasm_live(s[0], recv_nxt) {
            seq![s[0]] + rest
        } else {
            rest
        }
    }
}

/// A reassembly segment that starts at or before RCV.NXT.
pub open spec fn reasm_ready(r: ReasmView, recv_nxt: u32) -> bool {
    r.seq == recv_nxt || is_before(r.seq, recv_nxt)
}

pub open spec fn first_ready(s: Seq<ReasmView>, recv_nxt: u32) -> Option<int>
    decreases s.len(),
{
    if s.len() == 0 {
        None
    } else if reasm_ready(s[0], recv_nxt) {
        Some(0)
    } else {
        match first_ready(s.drop_first(), recv_nxt) {
            Some(i) => Some(i + 1),
            None => None,
        }
    }
}

pub proof fn lemma_reasm_filter_len(s: Seq<ReasmView>, recv_nxt: u32)
    ensures
        reasm_filter(s, recv_nxt).len() <= s.len(),
    decreases s.len(),
{
    if s.len() > 0 {
        lemma_reasm_filter_len(s.drop_first(), recv_nxt);
    }
}

pub proof fn lemma_first_ready_index(s: Seq<ReasmView>, recv_nxt: u32)
    ensures
        first_ready(s, recv_nxt) matches Some(i) ==> 0 <= i < s.len() && reasm_ready(
            s[i],
            recv_nxt,
        ),
        first_ready(s, recv_nxt) matches Some(i) ==> forall|j: int|
            0 <= j < i ==> !reasm_ready(#[trigger] s[j], recv_nxt),
        first_ready(s, recv_nxt) is None ==> forall|j: int|
            0 <= j < s.len() ==> !reasm_ready(#[trigger] s[j], recv_nxt),
    decreases s.len(),
{
    if s.len() > 0 {
        lemma_first_ready_index(s.drop_first(), recv_nxt);
        assert forall|j: int| 1 <= j < s.len() implies s[j] == s.drop_first()[j - 1] by {}
    }
}

/// Deliver in-order bytes from reassembly into the receive queue, as far as
/// the receive buffer allows; an in-order FIN closes the read side.
pub open spec fn drain_spec<V>(c: ConnView<V>, now: u64, cfg: Config) -> ConnView<V>
    decreases c.reassembly.len(),
{
    let kept = reasm_filter(c.reassembly, c.recv_nxt);
    let c1 = ConnView { reassembly: kept, ..c };
    match first_ready(kept, c.recv_nxt) {
        None => c1,
        Some(i) => {
            let s = kept[i];
            let rest = kept.remove(i);
            let trim = if is_before(s.seq, c.recv_nxt) {
                min_int(forward(s.seq, c.recv_nxt), s.payload.len() as int)
            } else {
                0
            };
            let data = s.payload.skip(trim);
            let capacity = sat_sub(cfg.receive_buffer as int, c.recv_queue.len() as int);
            let accepted = min_int(capacity, data.len() as int);
            let nxt = seq_add(c.recv_nxt, accepted);
            let c2 = ConnView {
                recv_queue: c.recv_queue + data.take(accepted),
                recv_nxt: nxt,
                reassembly: rest,
                ..c
            };
            if accepted < data.len() {
                ConnView {
                    reassembly: rest.push(ReasmView { seq: nxt, payload: data.skip(accepted), fin: s.fin }),
                    ..c2
                }
            } else if s.fin {
                proof {
                    lemma_reasm_filter_len(c.reassembly, c.recv_nxt);
                    lemma_first_ready_index(kept, c.recv_nxt);
                }
                drain_spec(
                    on_remote_fin_spec(ConnView { recv_nxt: seq_add(nxt, 1), ..c2 }, now, cfg),
                    now,
                    cfg,
                )
            } else {
                proof {
                    lemma_reasm_filter_len(c.reassembly, c.recv_nxt);
                    lemma_first_ready_index(kept, c.recv_nxt);
                }
                drain_spec(c2, now, cfg)
            }
        },
    }
}

/// Take in a segment's payload and FIN, then acknowledge.
pub open spec fn receive_stream_data_spec<V>(c: ConnView<V>, seg: SegmentView, now: u64, cfg: Config) -> (
    ConnView<V>,
    SegmentView,
) {
    let c1 = insert_received_spec(c, seg.seq, seg.payload, has_flag(seg.flags, FIN_BIT), cfg);
    let c2 = drain_spec(c1, now, cfg);
    (c2, ack_segment_spec(c2))
}

// ---------------------------------------------------------------------------
// Sending.
/// The bytes the peer's window and the congestion window still allow in flight.
pub open spec fn send_allowance<V>(c: ConnView<V>) -> int {
    sat_sub(
        min_int(c.remote_window as int, reno_window(c.reno)),
        forward(c.send_una, c.send_nxt),
    )
}

/// Send queued bytes in segments of at most one MSS while the windows allow.
pub open spec fn flush_loop_spec<V>(c: ConnView<V>, now: u64) -> (ConnView<V>, Seq<SegmentView>)
    decreases c.send_queue.len(),
{
    let available = send_allowance(c);
    let count = min_int(min_int(available, c.mss as int), c.send_queue.len() as int);
    if available == 0 || c.send_queue.len() == 0 || count <= 0 {
        (c, Seq::empty())
    } else {
        let c1 = ConnView { send_queue: c.send_queue.skip(count), ..c };
        let (c2, seg) = send_tracked_spec(c1, ACK_BIT | PSH_BIT, c.send_queue.take(count), now);
        let (c3, rest) = flush_loop_spec(c2, now);
        (c3, seq![seg] + rest)
    }
}

/// Send what the windows allow, then the FIN once a requested close has no
/// queued bytes left before it.
pub open spec fn flush_spec<V>(c: ConnView<V>, now: u64) -> (ConnView<V>, Seq<SegmentView>) {
    if c.state != State::Established && c.state != State::CloseWait {
        (c, Seq::empty())
    } else {
        let (c1, out) = flush_loop_spec(c, now);
        if c1.close_requested && c1.send_queue.len() == 0 && send_allowance(c1) > 0 {
            let c2 = ConnView {
                close_requested: false,
                state: if c1.state == State::Established {
                    State::FinWait1
                } else {
                    State::LastAck
                },
                ..c1
            };
            let (c3, fin) = send_tracked_spec(c2, FIN_BIT | ACK_BIT, Seq::empty(), now);
            (c3, out.push(fin))
        } else {
            (c1, out)
        }
    }
}

/// Accept bytes into the send buffer (as many as fit) and send what the
/// windows allow.
pub open spec fn write_spec<V>(c: ConnView<V>, bytes: Seq<u8>, now: u64, cfg: Config) -> Result<
    (ConnView<V>, int, Seq<SegmentView>),
    State,
> {
    if (c.state != State::Established && c.state != State::CloseWait) || c.close_requested {
        Err(c.state)
    } else {
        let buffered = c.send_queue.len() + unacked_bytes(c.unacked);
        let accepted = min_int(bytes.len() as int, sat_sub(cfg.send_buffer as int, buffered));
        let c1 = ConnView {
            send_queue: c.send_queue + bytes.take(accepted),
            progress: ProgressView {
                accepted: sat_add_u128(c.progress.accepted, accepted),
                ..c.progress
            },
            ..c
        };
        let (c2, out) = flush_spec(c1, now);
        Ok((c2, accepted, out))
    }
}

/// Hand up to `max` received bytes to the application; when that reopens the
/// window of a synchronized connection, announce it.
pub open spec fn read_spec<V>(c: ConnView<V>, max: int) -> (ConnView<V>, Seq<u8>, Seq<SegmentView>) {
    let count = min_int(max, c.recv_queue.len() as int);
    let c1 = ConnView { recv_queue: c.recv_queue.skip(count), ..c };
    let update = count > 0 && avail_window(c1) > avail_window(c) && c.state != State::SynSent
        && c.state != State::SynReceived && c.state != State::TimeWait;
    (
        c1,
        c.recv_queue.take(count),
        if update {
            seq![ack_segment_spec(c1)]
        } else {
            Seq::empty()
        },
    )
}

/// The result of a step: the new connection, the segments to send, whether a
/// listener accepted the connection, and whether it is gone.
pub struct StepView<V> {
    pub conn: ConnView<V>,
    pub segments: Seq<SegmentView>,
    pub accepted: bool,
    pub closed: bool,
}

pub open spec fn open_step<V>(c: ConnView<V>, segments: Seq<SegmentView>) -> StepView<V> {
    StepView { conn: c, segments, accepted: false, closed: false }
}

pub open spec fn closed_step<V>(c: ConnView<V>, segments: Seq<SegmentView>) -> StepView<V> {
    StepView { conn: c, segments, accepted: false, closed: true }
}

/// Close requested by the application: queued bytes go first, then the FIN;
/// a connection still in its handshake is dropped at once.
pub open spec fn close_spec<V>(c: ConnView<V>, now: u64) -> StepView<V> {
    match c.state {
        State::Established | State::CloseWait => {
            let (c1, out) = flush_spec(ConnView { close_requested: true, ..c }, now);
            open_step(c1, out)
        },
        State::SynSent | State::SynReceived => closed_step(c, Seq::empty()),
        _ => open_step(c, Seq::empty()),
    }
}

/// One byte that probes a zero window: the first byte of the oldest
/// unacknowledged payload, or else a new one-byte segment from the queue.
pub open spec fn first_with_payload(u: Seq<TrackedView>) -> Option<int>
    decreases u.len(),
{
    if u.len() == 0 {
        None
    } else if u[0].payload.len() > 0 {
        Some(0)
    } else {
        match first_with_payload(u.drop_first()) {
            Some(i) => Some(i + 1),
            None => None,
        }
    }
}

pub open spec fn zero_window_probe_spec<V>(c: ConnView<V>, now: u64) -> (ConnView<V>, Option<SegmentView>) {
    match first_with_payload(c.unacked) {
        Some(i) => (
            c,
            Some(
                build_segment_spec(
                    c.local_port,
                    c.remote_port,
                    c.unacked[i].seq,
                    c.recv_nxt,
                    avail_window_u16(c),
                    c.mss as u16,
                    ACK_BIT | PSH_BIT,
                    seq![c.unacked[i].payload[0]],
                ),
            ),
        ),
        None => if c.send_queue.len() == 0 {
            (c, None)
        } else {
            let c1 = ConnView { send_queue: c.send_queue.drop_first(), ..c };
            let (c2, s) = send_tracked_spec(c1, ACK_BIT | PSH_BIT, seq![c.send_queue[0]], now);
            (c2, Some(s))
        },
    }
}

/// Work that a zero window holds back: queued or unacknowledged payload, or a FIN.
pub open spec fn zero_window_work<V>(c: ConnView<V>) -> bool {
    c.close_requested || c.send_queue.len() > 0 || first_with_payload(c.unacked) is Some
}

/// The close deadline of FIN-WAIT-2 or TIME-WAIT, if the connection has one.
pub open spec fn close_deadline<V>(c: ConnView<V>) -> Option<u64> {
    match c.state {
        State::FinWait2 => c.fin_wait_2_until_ms,
        State::TimeWait => c.time_wait_until_ms,
        _ => None,
    }
}

pub open spec fn two_pow(n: nat) -> int
    decreases n,
{
    if n == 0 {
        1
    } else {
        2 * two_pow((n - 1) as nat)
    }
}

pub proof fn lemma_two_pow_monotone(n: nat, m: nat)
    requires
        n <= m,
    ensures
        1 <= two_pow(n) <= two_pow(m),
    decreases m,
{
    if m > n {
        lemma_two_pow_monotone(n, (m - 1) as nat);
    } else if n > 0 {
        lemma_two_pow_monotone((n - 1) as nat, (n - 1) as nat);
    }
}

pub proof fn lemma_two_pow_bound(n: nat)
    requires
        n < 16,
    ensures
        1 <= two_pow(n) <= 0x8000,
        two_pow(n + 1) == 2 * two_pow(n),
{
    lemma_two_pow_monotone(n, 15);
    assert(two_pow(15) == 0x8000) by {
        reveal_with_fuel(two_pow, 16);
    }
}

/// The delay before the next zero-window probe after `probes` probes.
pub open spec fn probe_delay(cfg: Config, probes: int) -> int {
    min_int(
        sat_mul_u64(cfg.initial_rto_ms as int, two_pow(min_int(probes, 16) as nat)),
        cfg.max_rto_ms as int,
    )
}

/// Timer work: expire FIN-WAIT-2 and TIME-WAIT, probe a zero window, retransmit
/// on timeout (giving up after the retry limit), and send what the windows allow.
pub open spec fn poll_spec<V>(c: ConnView<V>, now: u64, cfg: Config) -> StepView<V> {
    if close_deadline(c) matches Some(d) && now >= d {
        closed_step(c, Seq::empty())
    } else if c.remote_window == 0 && zero_window_work(c) {
        let deadline = match c.next_zero_window_probe_ms {
            Some(d) => d,
            None => sat_add_u64(now as int, cfg.initial_rto_ms as int) as u64,
        };
        let c1 = ConnView { next_zero_window_probe_ms: Some(deadline), ..c };
        if now >= deadline {
            if c1.zero_window_probes >= cfg.max_retransmissions {
                closed_step(c1, Seq::empty())
            } else {
                let (c2, probe) = zero_window_probe_spec(c1, now);
                match probe {
                    Some(p) => {
                        let probes = min_int(c2.zero_window_probes + 1, 255);
                        open_step(
                            ConnView {
                                zero_window_probes: probes as u8,
                                next_zero_window_probe_ms: Some(
                                    sat_add_u64(now as int, probe_delay(cfg, probes)) as u64,
                                ),
                                ..c2
                            },
                            seq![p],
                        )
                    },
                    None => open_step(c2, Seq::empty()),
                }
            }
        } else {
            open_step(c1, Seq::empty())
        }
    } else if c.unacked.len() > 0 && now >= sat_add_u64(c.unacked[0].sent_at_ms as int, c.rtt.rto_ms) {
        if c.unacked[0].transmissions >= cfg.max_retransmissions {
            closed_step(c, Seq::empty())
        } else {
            let c1 = ConnView {
                reno: reno_on_timeout(c.reno, forward(c.send_una, c.send_nxt)),
                rtt: rtt_on_timeout(c.rtt),
                ..c
            };
            let (c2, r) = retransmit_oldest_spec(c1, now, true);
            let (c3, out) = flush_spec(c2, now);
            open_step(c3, seq![r->Some_0] + out)
        }
    } else {
        let (c1, out) = flush_spec(c, now);
        open_step(c1, out)
    }
}

// ---------------------------------------------------------------------------
// Incoming segments.
/// RFC 9293 / RFC 5961 reset validation. In SYN-SENT a reset counts only when
/// it acknowledges our SYN. Otherwise a reset exactly at RCV.NXT closes, one
/// elsewhere inside the receive window draws one challenge ACK, and any other
/// is ignored.
pub open spec fn on_reset_spec<V>(c: ConnView<V>, seg: SegmentView) -> StepView<V> {
    if c.state == State::SynSent {
        let acceptable = seg.ack matches Some(a) && is_after(a, c.send_una) && !is_after(
            a,
            c.send_nxt,
        );
        StepView { conn: c, segments: Seq::empty(), accepted: false, closed: acceptable }
    } else if seg.seq == c.recv_nxt {
        closed_step(c, Seq::empty())
    } else {
        let w = avail_window(c);
        if w > 0 && forward(c.recv_nxt, seg.seq) < w {
            open_step(c, seq![ack_segment_spec(c)])
        } else {
            open_step(c, Seq::empty())
        }
    }
}

/// Payload or FIN to take in.
pub open spec fn carries_data(seg: SegmentView) -> bool {
    seg.payload.len() > 0 || has_flag(seg.flags, FIN_BIT)
}

/// The state change after our FIN is acknowledged.
pub open spec fn fin_acked_step<V>(c: ConnView<V>, now: u64, cfg: Config) -> ConnView<V> {
    match c.state {
        State::FinWait1 => ConnView {
            state: State::FinWait2,
            fin_wait_2_until_ms: Some(sat_add_u64(now as int, cfg.fin_wait_2_ms as int) as u64),
            ..c
        },
        State::Closing => enter_time_wait_spec(c, now, cfg),
        _ => c,
    }
}

/// The step for a segment that reached a synchronized connection (neither
/// SYN-SENT nor SYN-RECEIVED) and is no reset.
pub open spec fn on_synchronized_spec<V>(c: ConnView<V>, seg: SegmentView, now: u64, cfg: Config) -> StepView<V> {
    let (c1, out1, closed) = match seg.ack {
        None => (c, Seq::<SegmentView>::empty(), false),
        Some(ack) => {
            let duplicate = ack == c.send_una && seg.payload.len() == 0;
            let (ca, fin_acked, retransmit) = apply_ack_spec(c, ack, now, duplicate);
            let out = match retransmit {
                Some(r) => seq![r],
                None => Seq::<SegmentView>::empty(),
            };
            if fin_acked && ca.state == State::LastAck {
                (ca, out, true)
            } else {
                let cb = if fin_acked {
                    fin_acked_step(ca, now, cfg)
                } else {
                    ca
                };
                let cc = if crate::seq::in_closed(ack, cb.send_una, cb.send_nxt) {
                    update_remote_window_spec(cb, seg.window, now)
                } else {
                    cb
                };
                (cc, out, false)
            }
        },
    };
    if closed {
        closed_step(c1, out1)
    } else {
        let (c2, out2) = if carries_data(seg) {
            let (cr, a) = receive_stream_data_spec(c1, seg, now, cfg);
            (cr, out1.push(a))
        } else {
            (c1, out1)
        };
        let (c3, out3) = flush_spec(c2, now);
        open_step(c3, out2 + out3)
    }
}

/// One incoming segment for this connection.
pub open spec fn on_segment_spec<V>(c: ConnView<V>, seg: SegmentView, now: u64, cfg: Config) -> StepView<V> {
    if has_flag(seg.flags, RST_BIT) {
        on_reset_spec(c, seg)
    } else if c.state == State::SynSent {
        if has_flag(seg.flags, SYN_BIT) && has_flag(seg.flags, ACK_BIT) && seg.ack == Some(
            c.send_nxt,
        ) && announces_version(seg.options, FIPS_VERSION) {
            let c1 = update_remote_window_spec(c, seg.window, now);
            let c2 = negotiate_mss_spec(c1, seg, cfg);
            let (c3, _, _) = apply_ack_spec(c2, c2.send_nxt, now, false);
            let c4 = ConnView { recv_nxt: seq_add(seg.seq, 1), state: State::Established, ..c3 };
            open_step(c4, seq![ack_segment_spec(c4)])
        } else {
            open_step(c, Seq::empty())
        }
    } else if c.state == State::SynReceived {
        if has_flag(seg.flags, SYN_BIT) && !has_flag(seg.flags, ACK_BIT) && seq_add(seg.seq, 1)
            == c.recv_nxt {
            let (c1, r) = retransmit_oldest_spec(c, now, false);
            open_step(
                c1,
                match r {
                    Some(x) => seq![x],
                    None => Seq::empty(),
                },
            )
        } else if seg.ack != Some(c.send_nxt) {
            open_step(c, Seq::empty())
        } else {
            let (c1, _, _) = apply_ack_spec(c, c.send_nxt, now, false);
            let c2 = ConnView { state: State::Established, ..update_remote_window_spec(c1, seg.window, now) };
            let (c3, out) = if carries_data(seg) {
                let (cr, a) = receive_stream_data_spec(c2, seg, now, cfg);
                (cr, seq![a])
            } else {
                (c2, Seq::empty())
            };
            let (c4, out2) = flush_spec(c3, now);
            StepView { conn: c4, segments: out + out2, accepted: true, closed: false }
        }
    } else {
        on_synchronized_spec(c, seg, now, cfg)
    }
}



// ---------------------------------------------------------------------------
// Opening.
/// A connecting client: SYN-SENT with its SYN on the way.
pub open spec fn client_spec<V>(
    peer: V,
    local_port: u16,
    remote_port: u16,
    isn: u32,
    now: u64,
    token: u64,
    cfg: Config,
) -> (ConnView<V>, SegmentView) {
    let c = conn_new(
        peer,
        local_port,
        remote_port,
        State::SynSent,
        isn,
        0,
        token,
        crate::rtt::rtt_new(cfg.initial_rto_ms as int, cfg.min_rto_ms as int, cfg.max_rto_ms as int),
        crate::reno::reno_new(cfg.mss as int),
        cfg,
    );
    send_tracked_spec(c, SYN_BIT, Seq::empty(), now)
}

/// A listener's answer to a SYN: SYN-RECEIVED with its SYN-ACK on the way.
pub open spec fn server_spec<V>(peer: V, syn: SegmentView, isn: u32, now: u64, token: u64, cfg: Config) -> (
    ConnView<V>,
    SegmentView,
) {
    let c0 = conn_new(
        peer,
        syn.dst_port,
        syn.src_port,
        State::SynReceived,
        isn,
        seq_add(syn.seq, 1),
        token,
        crate::rtt::rtt_new(cfg.initial_rto_ms as int, cfg.min_rto_ms as int, cfg.max_rto_ms as int),
        crate::reno::reno_new(cfg.mss as int),
        cfg,
    );
    let c1 = update_remote_window_spec(c0, syn.window, now);
    let c2 = negotiate_mss_spec(c1, syn, cfg);
    send_tracked_spec(c2, SYN_BIT | ACK_BIT, Seq::empty(), now)
}

// ---------------------------------------------------------------------------
// Byte-count lemmas.
pub proof fn lemma_reasm_bytes_push(s: Seq<ReasmView>, x: ReasmView)
    ensures
        reasm_bytes(s.push(x)) == reasm_bytes(s) + x.payload.len(),
    decreases s.len(),
{
    if s.len() == 0 {
        assert(s.push(x).drop_first() =~= Seq::<ReasmView>::empty());
        assert(reasm_bytes(s.push(x).drop_first()) == 0);
        assert(s.push(x)[0] == x);
    } else {
        lemma_reasm_bytes_push(s.drop_first(), x);
        assert(s.push(x).drop_first() =~= s.drop_first().push(x));
        assert(s.push(x)[0] == s[0]);
    }
}

pub proof fn lemma_reasm_bytes_remove(s: Seq<ReasmView>, i: int)
    requires
        0 <= i < s.len(),
    ensures
        reasm_bytes(s.remove(i)) == reasm_bytes(s) - s[i].payload.len(),
    decreases s.len(),
{
    if i == 0 {
        assert(s.remove(0) =~= s.drop_first());
    } else {
        lemma_reasm_bytes_remove(s.drop_first(), i - 1);
        assert(s.remove(i).drop_first() =~= s.drop_first().remove(i - 1));
    }
}

pub proof fn lemma_reasm_filter_bytes(s: Seq<ReasmView>, recv_nxt: u32)
    ensures
        reasm_bytes(reasm_filter(s, recv_nxt)) <= reasm_bytes(s),
    decreases s.len(),
{
    if s.len() > 0 {
        lemma_reasm_filter_bytes(s.drop_first(), recv_nxt);
        let rest = reasm_filter(s.drop_first(), recv_nxt);
        assert((seq![s[0]] + rest).drop_first() =~= rest);
    }
}

pub proof fn lemma_unacked_bytes_push(s: Seq<TrackedView>, x: TrackedView)
    ensures
        unacked_bytes(s.push(x)) == unacked_bytes(s) + x.payload.len(),
    decreases s.len(),
{
    if s.len() == 0 {
        assert(s.push(x).drop_first() =~= Seq::<TrackedView>::empty());
        assert(unacked_bytes(s.push(x).drop_first()) == 0);
        assert(s.push(x)[0] == x);
    } else {
        lemma_unacked_bytes_push(s.drop_first(), x);
        assert(s.push(x).drop_first() =~= s.drop_first().push(x));
        assert(s.push(x)[0] == s[0]);
    }
}

pub proof fn lemma_unacked_bytes_update0(s: Seq<TrackedView>, x: TrackedView)
    requires
        s.len() > 0,
    ensures
        unacked_bytes(s.update(0, x)) == unacked_bytes(s) - s[0].payload.len() + x.payload.len(),
{
    assert(s.update(0, x).drop_first() =~= s.drop_first());
}

pub proof fn lemma_ack_pop_bytes(u: Seq<TrackedView>, ack: u32, now: u64)
    ensures
        unacked_bytes(ack_pop(u, ack, now).0) + ack_pop(u, ack, now).1 == unacked_bytes(u),
        ack_pop(u, ack, now).1 >= 0,
    decreases u.len(),
{
    if u.len() > 0 && is_before_or_equal(tracked_end(u[0]), ack) {
        lemma_ack_pop_bytes(u.drop_first(), ack, now);
    }
}


pub proof fn lemma_first_ready_char(s: Seq<ReasmView>, recv_nxt: u32, i: int)
    requires
        0 <= i < s.len(),
        reasm_ready(s[i], recv_nxt),
        forall|j: int| 0 <= j < i ==> !reasm_ready(#[trigger] s[j], recv_nxt),
    ensures
        first_ready(s, recv_nxt) == Some(i),
    decreases s.len(),
{
    if i > 0 {
        let t = s.drop_first();
        assert forall|j: int| 0 <= j < i - 1 implies !reasm_ready(#[trigger] t[j], recv_nxt) by {
            assert(t[j] == s[j + 1]);
        }
        assert(!reasm_ready(s[0], recv_nxt));
        lemma_first_ready_char(t, recv_nxt, i - 1);
    }
}

pub proof fn lemma_first_ready_none(s: Seq<ReasmView>, recv_nxt: u32)
    requires
        forall|j: int| 0 <= j < s.len() ==> !reasm_ready(#[trigger] s[j], recv_nxt),
    ensures
        first_ready(s, recv_nxt) is None,
    decreases s.len(),
{
    if s.len() > 0 {
        let t = s.drop_first();
        assert forall|j: int| 0 <= j < t.len() implies !reasm_ready(#[trigger] t[j], recv_nxt) by {
            assert(t[j] == s[j + 1]);
        }
        assert(!reasm_ready(s[0], recv_nxt));
        lemma_first_ready_none(t, recv_nxt);
    }
}

pub proof fn lemma_reasm_filter_skip(s: Seq<ReasmView>, recv_nxt: u32, k: int)
    requires
        0 <= k < s.len(),
    ensures
        reasm_filter(s.skip(k), recv_nxt) == if reasm_live(s[k], recv_nxt) {
            seq![s[k]] + reasm_filter(s.skip(k + 1), recv_nxt)
        } else {
            reasm_filter(s.skip(k + 1), recv_nxt)
        },
{
    assert(s.skip(k).drop_first() =~= s.skip(k + 1));
}

pub proof fn lemma_first_with_payload_char(u: Seq<TrackedView>, i: int)
    requires
        0 <= i < u.len(),
        u[i].payload.len() > 0,
        forall|j: int| 0 <= j < i ==> (#[trigger] u[j]).payload.len() == 0,
    ensures
        first_with_payload(u) == Some(i),
    decreases u.len(),
{
    if i > 0 {
        let t = u.drop_first();
        assert forall|j: int| 0 <= j < i - 1 implies (#[trigger] t[j]).payload.len() == 0 by {
            assert(t[j] == u[j + 1]);
        }
        assert(u[0].payload.len() == 0);
        lemma_first_with_payload_char(t, i - 1);
    }
}

pub proof fn lemma_first_with_payload_none(u: Seq<TrackedView>)
    requires
        forall|j: int| 0 <= j < u.len() ==> (#[trigger] u[j]).payload.len() == 0,
    ensures
        first_with_payload(u) is None,
    decreases u.len(),
{
    if u.len() > 0 {
        let t = u.drop_first();
        assert forall|j: int| 0 <= j < t.len() implies (#[trigger] t[j]).payload.len() == 0 by {
            assert(t[j] == u[j + 1]);
        }
        assert(u[0].payload.len() == 0);
        lemma_first_with_payload_none(t);
    }
}


// ---------------------------------------------------------------------------
// A connection's tuple and send-progress token never change, and its
// acknowledged and accepted byte counts never fall.
/// Two connection states with the same peer and ports.
pub open spec fn same_key<V>(a: ConnView<V>, b: ConnView<V>) -> bool {
    a.peer == b.peer && a.local_port == b.local_port && a.remote_port == b.remote_port
}

/// `a` is a later state of `b`'s progress: the same token, and counts that
/// have not fallen (a count held at the largest `u128` stays there).
pub open spec fn progress_kept(a: ProgressView, b: ProgressView) -> bool {
    &&& a.token == b.token
    &&& a.acked >= min_int(b.acked, u128::MAX as int)
    &&& a.accepted >= min_int(b.accepted, u128::MAX as int)
}

/// `a` is a later state of the connection `b`.
pub open spec fn keeps_identity<V>(a: ConnView<V>, b: ConnView<V>) -> bool {
    same_key(a, b) && progress_kept(a.progress, b.progress)
}

pub proof fn lemma_drain_key<V>(c: ConnView<V>, now: u64, cfg: Config)
    ensures
        keeps_identity(drain_spec(c, now, cfg), c),
    decreases c.reassembly.len(),
{
    let kept = reasm_filter(c.reassembly, c.recv_nxt);
    lemma_reasm_filter_len(c.reassembly, c.recv_nxt);
    lemma_first_ready_index(kept, c.recv_nxt);
    match first_ready(kept, c.recv_nxt) {
        None => {},
        Some(i) => {
            let s = kept[i];
            let rest = kept.remove(i);
            let trim = if is_before(s.seq, c.recv_nxt) {
                min_int(forward(s.seq, c.recv_nxt), s.payload.len() as int)
            } else {
                0
            };
            let data = s.payload.skip(trim);
            let capacity = sat_sub(cfg.receive_buffer as int, c.recv_queue.len() as int);
            let accepted = min_int(capacity, data.len() as int);
            let nxt = seq_add(c.recv_nxt, accepted);
            let c2 = ConnView {
                recv_queue: c.recv_queue + data.take(accepted),
                recv_nxt: nxt,
                reassembly: rest,
                ..c
            };
            if accepted < data.len() {
            } else if s.fin {
                lemma_drain_key(
                    on_remote_fin_spec(ConnView { recv_nxt: seq_add(nxt, 1), ..c2 }, now, cfg),
                    now,
                    cfg,
                );
            } else {
                lemma_drain_key(c2, now, cfg);
            }
        },
    }
}

pub proof fn lemma_flush_loop_key<V>(c: ConnView<V>, now: u64)
    ensures
        keeps_identity(flush_loop_spec(c, now).0, c),
    decreases c.send_queue.len(),
{
    let available = send_allowance(c);
    let count = min_int(min_int(available, c.mss as int), c.send_queue.len() as int);
    if available == 0 || c.send_queue.len() == 0 || count <= 0 {
    } else {
        let c1 = ConnView { send_queue: c.send_queue.skip(count), ..c };
        let (c2, seg) = send_tracked_spec(c1, ACK_BIT | PSH_BIT, c.send_queue.take(count), now);
        lemma_flush_loop_key(c2, now);
    }
}

pub proof fn lemma_flush_key<V>(c: ConnView<V>, now: u64)
    ensures
        keeps_identity(flush_spec(c, now).0, c),
{
    lemma_flush_loop_key(c, now);
}

pub proof fn lemma_receive_key<V>(c: ConnView<V>, seg: SegmentView, now: u64, cfg: Config)
    ensures
        keeps_identity(receive_stream_data_spec(c, seg, now, cfg).0, c),
{
    let c1 = insert_received_spec(c, seg.seq, seg.payload, has_flag(seg.flags, FIN_BIT), cfg);
    lemma_drain_key(c1, now, cfg);
}

pub proof fn lemma_write_key<V>(c: ConnView<V>, bytes: Seq<u8>, now: u64, cfg: Config)
    ensures
        write_spec(c, bytes, now, cfg) matches Ok((c2, _, _)) ==> keeps_identity(c2, c),
{
    if (c.state != State::Established && c.state != State::CloseWait) || c.close_requested {
    } else {
        let buffered = c.send_queue.len() + unacked_bytes(c.unacked);
        let accepted = min_int(bytes.len() as int, sat_sub(cfg.send_buffer as int, buffered));
        let c1 = ConnView {
            send_queue: c.send_queue + bytes.take(accepted),
            progress: ProgressView {
                accepted: sat_add_u128(c.progress.accepted, accepted),
                ..c.progress
            },
            ..c
        };
        lemma_flush_key(c1, now);
    }
}

pub proof fn lemma_close_key<V>(c: ConnView<V>, now: u64)
    ensures
        keeps_identity(close_spec(c, now).conn, c),
{
    lemma_flush_key(ConnView { close_requested: true, ..c }, now);
}

pub proof fn lemma_poll_key<V>(c: ConnView<V>, now: u64, cfg: Config)
    ensures
        keeps_identity(poll_spec(c, now, cfg).conn, c),
{
    lemma_flush_key(c, now);
    if c.unacked.len() > 0 {
        let c1 = ConnView {
            reno: reno_on_timeout(c.reno, forward(c.send_una, c.send_nxt)),
            rtt: rtt_on_timeout(c.rtt),
            ..c
        };
        let (c2, r) = retransmit_oldest_spec(c1, now, true);
        lemma_flush_key(c2, now);
    }
}

pub proof fn lemma_keeps_trans<V>(a: ConnView<V>, b: ConnView<V>, c: ConnView<V>)
    requires
        keeps_identity(a, b),
        keeps_identity(b, c),
    ensures
        keeps_identity(a, c),
{
}

pub proof fn lemma_apply_ack_key<V>(c: ConnView<V>, ack: u32, now: u64, duplicate: bool)
    ensures
        keeps_identity(apply_ack_spec(c, ack, now, duplicate).0, c),
{
    lemma_ack_pop_bytes(c.unacked, ack, now);
}

/// The connection after the ACK field of a synchronized segment.
proof fn lemma_synchronized_ack_key<V>(c: ConnView<V>, seg: SegmentView, now: u64, cfg: Config)
    requires
        seg.ack is Some,
    ensures
        ({
            let ack = seg.ack->Some_0;
            let duplicate = ack == c.send_una && seg.payload.len() == 0;
            let (ca, fin_acked, retransmit) = apply_ack_spec(c, ack, now, duplicate);
            let cb = if fin_acked {
                fin_acked_step(ca, now, cfg)
            } else {
                ca
            };
            let cc = if crate::seq::in_closed(ack, cb.send_una, cb.send_nxt) {
                update_remote_window_spec(cb, seg.window, now)
            } else {
                cb
            };
            keeps_identity(ca, c) && keeps_identity(cc, c)
        }),
{
    let ack = seg.ack->Some_0;
    let duplicate = ack == c.send_una && seg.payload.len() == 0;
    lemma_apply_ack_key(c, ack, now, duplicate);
}

#[verifier::rlimit(40)]
#[verifier::spinoff_prover]
pub proof fn lemma_on_segment_key<V>(c: ConnView<V>, seg: SegmentView, now: u64, cfg: Config)
    ensures
        keeps_identity(on_segment_spec(c, seg, now, cfg).conn, c),
{
    if has_flag(seg.flags, RST_BIT) {
    } else if c.state == State::SynSent {
        if has_flag(seg.flags, SYN_BIT) && has_flag(seg.flags, ACK_BIT) && seg.ack == Some(
            c.send_nxt,
        ) && announces_version(seg.options, FIPS_VERSION) {
            let c1 = update_remote_window_spec(c, seg.window, now);
            let c2 = negotiate_mss_spec(c1, seg, cfg);
            lemma_apply_ack_key(c2, c2.send_nxt, now, false);
        }
    } else if c.state == State::SynReceived {
        if has_flag(seg.flags, SYN_BIT) && !has_flag(seg.flags, ACK_BIT) && seq_add(seg.seq, 1)
            == c.recv_nxt {
        } else if seg.ack != Some(c.send_nxt) {
        } else {
            let (c1, _, _) = apply_ack_spec(c, c.send_nxt, now, false);
            lemma_apply_ack_key(c, c.send_nxt, now, false);
            let c2 = ConnView {
                state: State::Established,
                ..update_remote_window_spec(c1, seg.window, now)
            };
            assert(keeps_identity(c2, c));
            lemma_receive_key(c2, seg, now, cfg);
            if carries_data(seg) {
                let (cr, a) = receive_stream_data_spec(c2, seg, now, cfg);
                lemma_flush_key(cr, now);
                lemma_keeps_trans(cr, c2, c);
                lemma_keeps_trans(flush_spec(cr, now).0, cr, c);
            } else {
                lemma_flush_key(c2, now);
                lemma_keeps_trans(flush_spec(c2, now).0, c2, c);
            }
        }
    } else {
        let c1 = match seg.ack {
            None => c,
            Some(ack) => {
                let duplicate = ack == c.send_una && seg.payload.len() == 0;
                let (ca, fin_acked, retransmit) = apply_ack_spec(c, ack, now, duplicate);
                if fin_acked && ca.state == State::LastAck {
                    ca
                } else {
                    let cb = if fin_acked {
                        fin_acked_step(ca, now, cfg)
                    } else {
                        ca
                    };
                    if crate::seq::in_closed(ack, cb.send_una, cb.send_nxt) {
                        update_remote_window_spec(cb, seg.window, now)
                    } else {
                        cb
                    }
                }
            },
        };
        if seg.ack is Some {
            lemma_synchronized_ack_key(c, seg, now, cfg);
        }
        assert(keeps_identity(c1, c));
        lemma_receive_key(c1, seg, now, cfg);
        if carries_data(seg) {
            let (cr, a) = receive_stream_data_spec(c1, seg, now, cfg);
            lemma_flush_key(cr, now);
            lemma_keeps_trans(cr, c1, c);
            lemma_keeps_trans(flush_spec(cr, now).0, cr, c);
        } else {
            lemma_flush_key(c1, now);
            lemma_keeps_trans(flush_spec(c1, now).0, c1, c);
        }
    }
}

} // verus!
