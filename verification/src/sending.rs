//! What a connection sends is the byte stream its application wrote: every
//! segment it emits, first transmission or retransmission, probe or FIN,
//! carries a slice of that stream at its offset from the first sequence
//! number after the SYN.

use vstd::prelude::*;

use crate::arith::min_int;
use crate::model::{
    ConnView, TrackedView, flush_loop_spec, flush_spec, send_allowance, send_tracked_spec,
};
use crate::reassembly::{carries, piece_segment};
use crate::runs::synchronized;
use crate::seq::{forward, lemma_forward_seq_add, seq_add};
use crate::types::State;
use crate::wire::{ACK_BIT, FIN_BIT, PSH_BIT, SYN_BIT, SegmentView, has_flag};

verus! {

/// The connection has sent its FIN.
pub open spec fn fin_sent<V>(c: ConnView<V>) -> bool {
    ||| c.state == State::FinWait1
    ||| c.state == State::FinWait2
    ||| c.state == State::Closing
    ||| c.state == State::TimeWait
    ||| c.state == State::LastAck
}

/// A segment kept for retransmission: data (ACK and PSH) or the FIN (FIN and
/// ACK), no SYN, some payload or a FIN, a slice
/// of `w` at its offset from `base`, and a FIN only right after the end of
/// `w`.
pub open spec fn sent_piece(t: TrackedView, base: u32, w: Seq<u8>) -> bool {
    &&& t.flags == (ACK_BIT | PSH_BIT) || t.flags == (FIN_BIT | ACK_BIT)
    &&& !has_flag(t.flags, SYN_BIT)
    &&& t.payload.len() > 0 || has_flag(t.flags, FIN_BIT)
    &&& carries(t.seq, t.payload, base, w)
    &&& has_flag(t.flags, FIN_BIT) ==> forward(base, t.seq) + t.payload.len() == w.len()
}

/// The connection, on non-zero ports, has sent the first bytes of `w`
/// (counted from `base`) up to
/// SND.NXT and queues the rest; once its FIN is out it has sent all of `w`
/// and the FIN. Every segment it keeps for retransmission is a piece of `w`,
/// and none holds a FIN before the FIN is sent.
pub open spec fn sent_prefix<V>(c: ConnView<V>, base: u32, w: Seq<u8>) -> bool {
    &&& w.len() < 0x7fff_ffff
    &&& c.local_port != 0 && c.remote_port != 0
    &&& if fin_sent(c) {
        c.send_queue.len() == 0 && forward(base, c.send_nxt) == w.len() + 1
    } else {
        &&& forward(base, c.send_nxt) + c.send_queue.len() == w.len()
        &&& c.send_queue == w.skip(forward(base, c.send_nxt))
        &&& forall|i: int| 0 <= i < c.unacked.len() ==> !has_flag(#[trigger] c.unacked[i].flags, FIN_BIT)
    }
    &&& forall|i: int| 0 <= i < c.unacked.len() ==> sent_piece(#[trigger] c.unacked[i], base, w)
}

/// A well-formed segment (its encoding decodes back to it) carrying a piece
/// of `w`.
pub open spec fn sent_segment(seg: SegmentView, base: u32, w: Seq<u8>) -> bool {
    piece_segment(seg, base, w) && crate::wire::segment_canonical(seg)
}

/// Every segment of `segs` is well formed (so its encoding decodes back to
/// it), and each that carries payload or a FIN carries a piece of `w`.
pub open spec fn pieces_of(segs: Seq<SegmentView>, base: u32, w: Seq<u8>) -> bool {
    forall|i: int|
        0 <= i < segs.len() ==> crate::wire::segment_canonical(#[trigger] segs[i]) && (
        crate::model::carries_data(segs[i]) ==> sent_segment(segs[i], base, w))
}

/// A data or FIN segment built on non-zero ports is well formed.
proof fn lemma_built_canonical(l: u16, r: u16, seq: u32, ack: u32, window: u16, mss: u16, flags: u16, payload: Seq<u8>)
    requires
        l != 0,
        r != 0,
        flags == (ACK_BIT | PSH_BIT) || flags == (FIN_BIT | ACK_BIT) || flags == ACK_BIT,
    ensures
        crate::wire::segment_canonical(
            crate::model::build_segment_spec(l, r, seq, ack, window, mss, flags, payload),
        ),
{
    assert((ACK_BIT | PSH_BIT) & crate::wire::UNSUPPORTED_FLAG_BITS == 0) by (bit_vector);
    assert((FIN_BIT | ACK_BIT) & crate::wire::UNSUPPORTED_FLAG_BITS == 0) by (bit_vector);
    assert((ACK_BIT | PSH_BIT) & SYN_BIT != SYN_BIT) by (bit_vector);
    assert((FIN_BIT | ACK_BIT) & SYN_BIT != SYN_BIT) by (bit_vector);
    assert((ACK_BIT | PSH_BIT) & ACK_BIT == ACK_BIT) by (bit_vector);
    assert((FIN_BIT | ACK_BIT) & ACK_BIT == ACK_BIT) by (bit_vector);
    assert(ACK_BIT & crate::wire::UNSUPPORTED_FLAG_BITS == 0) by (bit_vector);
    assert(ACK_BIT & SYN_BIT != SYN_BIT) by (bit_vector);
    assert(ACK_BIT & ACK_BIT == ACK_BIT) by (bit_vector);
    assert(crate::wire::options_len(Seq::<crate::wire::OptionView>::empty()) == 0);
}

proof fn lemma_flush_loop_sends<V>(c: ConnView<V>, now: u64, base: u32, w: Seq<u8>)
    requires
        sent_prefix(c, base, w),
        !fin_sent(c),
    ensures
        ({
            let (c2, out) = flush_loop_spec(c, now);
            &&& sent_prefix(c2, base, w)
            &&& pieces_of(out, base, w)
            &&& c2.state == c.state
            &&& c2.close_requested == c.close_requested
        }),
    decreases c.send_queue.len(),
{
    let available = send_allowance(c);
    let count = min_int(min_int(available, c.mss as int), c.send_queue.len() as int);
    if available == 0 || c.send_queue.len() == 0 || count <= 0 {
    } else {
        let k = forward(base, c.send_nxt);
        let c1 = ConnView { send_queue: c.send_queue.skip(count), ..c };
        let flags = ACK_BIT | PSH_BIT;
        let (c2, seg) = send_tracked_spec(c1, flags, c.send_queue.take(count), now);
        lemma_built_canonical(
            c1.local_port,
            c1.remote_port,
            c1.send_nxt,
            c1.recv_nxt,
            crate::model::avail_window_u16(c1),
            c1.mss as u16,
            flags,
            c.send_queue.take(count),
        );
        assert((ACK_BIT | PSH_BIT) & SYN_BIT != SYN_BIT) by (bit_vector);
        assert((ACK_BIT | PSH_BIT) & FIN_BIT != FIN_BIT) by (bit_vector);
        let t = c2.unacked.last();
        assert(c.send_queue.take(count) =~= w.subrange(k, k + count));
        assert(sent_piece(t, base, w));
        lemma_forward_seq_add(base, c.send_nxt, count);
        assert(c2.send_nxt == seq_add(c.send_nxt, count));
        assert(c2.send_queue =~= w.skip(k + count));
        assert forall|i: int| 0 <= i < c2.unacked.len() implies sent_piece(#[trigger] c2.unacked[i], base, w)
            && !has_flag(c2.unacked[i].flags, FIN_BIT) by {
            if i < c.unacked.len() {
                assert(c2.unacked[i] == c.unacked[i]);
            }
        }
        assert(sent_prefix(c2, base, w));
        lemma_flush_loop_sends(c2, now, base, w);
        let (c3, rest) = flush_loop_spec(c2, now);
        let out = seq![seg] + rest;
        assert(flush_loop_spec(c, now) == (c3, out));
        assert(sent_segment(seg, base, w));
        assert forall|i: int| 0 <= i < out.len() implies (crate::model::carries_data(
            #[trigger] out[i],
        ) ==> sent_segment(out[i], base, w)) by {
            if i > 0 {
                assert(out[i] == rest[i - 1]);
            }
        }
    }
}

proof fn lemma_flush_sends<V>(c: ConnView<V>, now: u64, base: u32, w: Seq<u8>)
    requires
        sent_prefix(c, base, w),
        synchronized(c),
    ensures
        ({
            let (c2, out) = flush_spec(c, now);
            &&& sent_prefix(c2, base, w)
            &&& synchronized(c2)
            &&& pieces_of(out, base, w)
        }),
{
    if c.state == State::Established || c.state == State::CloseWait {
        lemma_flush_loop_sends(c, now, base, w);
        let (c1, out) = flush_loop_spec(c, now);
        if c1.close_requested && c1.send_queue.len() == 0 && send_allowance(c1) > 0 {
            let c2 = ConnView {
                close_requested: false,
                state: if c1.state == State::Established {
                    State::FinWait1
                } else {
                    State::LastAck
                },
                ..c1
            };
            let flags = FIN_BIT | ACK_BIT;
            let (c3, fin) = send_tracked_spec(c2, flags, Seq::empty(), now);
            lemma_built_canonical(
                c2.local_port,
                c2.remote_port,
                c2.send_nxt,
                c2.recv_nxt,
                crate::model::avail_window_u16(c2),
                c2.mss as u16,
                flags,
                Seq::empty(),
            );
            assert((FIN_BIT | ACK_BIT) & SYN_BIT != SYN_BIT) by (bit_vector);
            assert((FIN_BIT | ACK_BIT) & FIN_BIT == FIN_BIT) by (bit_vector);
            let k = forward(base, c1.send_nxt);
            assert(k == w.len());
            let t = c3.unacked.last();
            assert(t.payload =~= w.subrange(k, k));
            assert(sent_piece(t, base, w));
            lemma_forward_seq_add(base, c1.send_nxt, 1);
            assert(crate::model::tracked_end(t) == seq_add(c1.send_nxt, 1));
            assert forall|i: int| 0 <= i < c3.unacked.len() implies sent_piece(#[trigger] c3.unacked[i], base, w) by {
                if i < c1.unacked.len() {
                    assert(c3.unacked[i] == c1.unacked[i]);
                }
            }
            assert(sent_prefix(c3, base, w));
            let all = out.push(fin);
            assert(sent_segment(fin, base, w));
            assert forall|i: int| 0 <= i < all.len() implies (crate::model::carries_data(
                #[trigger] all[i],
            ) ==> sent_segment(all[i], base, w)) by {
                if i < out.len() {
                    assert(all[i] == out[i]);
                }
            }
        }
    }
}

/// A sequence number strictly inside a segment of `len` bytes starting at `p`
/// lies fewer than `len` bytes after `p`.
proof fn lemma_inside(p: u32, len: int, q: u32)
    requires
        0 < len < 0x8000_0000,
        crate::seq::is_before(p, q),
        crate::seq::is_before(q, seq_add(p, len)),
    ensures
        forward(p, q) < len,
        seq_add(p, forward(p, q)) == q,
{
    let x = forward(p, q);
    let e = seq_add(p, len);
    crate::seq::lemma_advance_after(p, len);
    assert(forward(q, p) == (p - q) % 0x1_0000_0000);
    assert(x == (q - p) % 0x1_0000_0000);
    if x < 0x8000_0000 {
        crate::seq::lemma_offsets(p, q, e);
    } else {
        assert(x == 0x8000_0000) by (nonlinear_arith)
            requires
                x == (q - p) % 0x1_0000_0000,
                (p - q) % 0x1_0000_0000 >= 0x8000_0000,
                x >= 0x8000_0000,
                0 <= p < 0x1_0000_0000,
                0 <= q < 0x1_0000_0000,
        ;
        assert(forward(e, q) < 0x8000_0000) by (nonlinear_arith)
            requires
                x == (q - p) % 0x1_0000_0000,
                x == 0x8000_0000,
                e == (p + len) % 0x1_0000_0000,
                forward(e, q) == (q - e) % 0x1_0000_0000,
                0 < len < 0x8000_0000,
                0 <= p < 0x1_0000_0000,
                0 <= q < 0x1_0000_0000,
        ;
    }
    assert(seq_add(p, x) == q) by (nonlinear_arith)
        requires
            x == (q - p) % 0x1_0000_0000,
            seq_add(p, x) == ((p + x) % 0x1_0000_0000) as u32,
            0 <= p < 0x1_0000_0000,
            0 <= q < 0x1_0000_0000,
    ;
}

proof fn lemma_ack_pop_suffix(u: Seq<TrackedView>, ack: u32, now: u64)
    ensures
        exists|j: int| 0 <= j <= u.len() && crate::model::ack_pop(u, ack, now).0 == u.skip(j),
    decreases u.len(),
{
    if u.len() == 0 || !crate::seq::is_before_or_equal(crate::model::tracked_end(u[0]), ack) {
        assert(u.skip(0) =~= u);
    } else {
        lemma_ack_pop_suffix(u.drop_first(), ack, now);
        let j = choose|j: int|
            0 <= j <= u.drop_first().len() && crate::model::ack_pop(u.drop_first(), ack, now).0
                == u.drop_first().skip(j);
        assert(u.drop_first().skip(j) =~= u.skip(j + 1));
    }
}

/// An acknowledgement only drops or trims what the connection keeps for
/// retransmission, and a fast retransmission resends a kept piece.
#[verifier::rlimit(40)]
#[verifier::spinoff_prover]
proof fn lemma_apply_ack_sends<V>(c: ConnView<V>, ack: u32, now: u64, duplicate: bool, base: u32, w: Seq<u8>)
    requires
        sent_prefix(c, base, w),
    ensures
        ({
            let (c2, _, r) = crate::model::apply_ack_spec(c, ack, now, duplicate);
            &&& sent_prefix(c2, base, w)
            &&& c2.state == c.state
            &&& c2.close_requested == c.close_requested
            &&& (r matches Some(x) ==> sent_segment(x, base, w))
        }),
{
    let (c2, _, r) = crate::model::apply_ack_spec(c, ack, now, duplicate);
    if crate::seq::is_after(ack, c.send_nxt) || crate::seq::is_before(ack, c.send_una) {
    } else if ack == c.send_una {
        if duplicate && c.unacked.len() > 0 {
            let d = min_int(c.duplicate_acks + 1, 255) as u8;
            let c1 = ConnView {
                duplicate_acks: d,
                reno: crate::reno::reno_on_duplicate_ack(c.reno),
                ..c
            };
            let c2b = ConnView {
                reno: crate::reno::reno_on_fast_loss(c1.reno, forward(c.send_una, c.send_nxt)),
                ..c1
            };
            lemma_retransmit_sends(c2b, now, false, base, w);
            assert(sent_piece(c.unacked[0], base, w));
            assert forall|i: int| 0 <= i < c2.unacked.len() implies sent_piece(#[trigger] c2.unacked[i], base, w)
                && (!fin_sent(c) ==> !has_flag(c2.unacked[i].flags, FIN_BIT)) by {
                assert(c2.unacked[i].seq == c.unacked[i].seq && c2.unacked[i].flags == c.unacked[i].flags
                    && c2.unacked[i].payload == c.unacked[i].payload);
            }
        }
    } else {
        let (rest, n, fin_acked, sample) = crate::model::ack_pop(c.unacked, ack, now);
        lemma_ack_pop_suffix(c.unacked, ack, now);
        let j = choose|j: int| 0 <= j <= c.unacked.len() && rest == c.unacked.skip(j);
        assert forall|i: int| 0 <= i < rest.len() implies sent_piece(#[trigger] rest[i], base, w)
            && (!fin_sent(c) ==> !has_flag(rest[i].flags, FIN_BIT)) by {
            assert(rest[i] == c.unacked[i + j]);
        }
        if crate::model::partial_ack(rest, ack) {
            let t = rest[0];
            let len = t.payload.len() as int;
            assert(!has_flag(t.flags, SYN_BIT) && !has_flag(t.flags, FIN_BIT));
            assert(crate::model::tracked_end(t) == seq_add(t.seq, len));
            let o = forward(base, t.seq);
            assert(o + len <= w.len());
            lemma_inside(t.seq, len, ack);
            let x = forward(t.seq, ack);
            lemma_forward_seq_add(base, t.seq, x);
            let count = min_int(x, len);
            assert(count == x);
            assert(t.payload.skip(count) =~= w.subrange(o + x, o + len));
            let t2 = TrackedView { seq: ack, payload: t.payload.skip(count), ..t };
            assert(sent_piece(t2, base, w));
            let rest2 = rest.update(0, t2);
            assert forall|i: int| 0 <= i < rest2.len() implies sent_piece(#[trigger] rest2[i], base, w)
                && (!fin_sent(c) ==> !has_flag(rest2[i].flags, FIN_BIT)) by {
                if i > 0 {
                    assert(rest2[i] == rest[i]);
                }
            }
        }
    }
}

/// `a` has the ports of `b`, the same queued bytes, SND.NXT and retransmission
/// queue,
/// and has sent its FIN exactly when `b` has.
pub open spec fn same_send<V>(a: ConnView<V>, b: ConnView<V>) -> bool {
    &&& a.local_port == b.local_port && a.remote_port == b.remote_port
    &&& a.send_queue == b.send_queue
    &&& a.send_nxt == b.send_nxt
    &&& a.unacked == b.unacked
    &&& fin_sent(a) == fin_sent(b)
    &&& synchronized(a) == synchronized(b)
}

proof fn lemma_drain_send_side<V>(c: ConnView<V>, now: u64, cfg: crate::types::Config)
    requires
        synchronized(c),
    ensures
        same_send(crate::model::drain_spec(c, now, cfg), c),
    decreases c.reassembly.len(),
{
    let kept = crate::model::reasm_filter(c.reassembly, c.recv_nxt);
    crate::model::lemma_reasm_filter_len(c.reassembly, c.recv_nxt);
    crate::model::lemma_first_ready_index(kept, c.recv_nxt);
    match crate::model::first_ready(kept, c.recv_nxt) {
        None => {},
        Some(i) => {
            let s = kept[i];
            let rest = kept.remove(i);
            let trim = if crate::seq::is_before(s.seq, c.recv_nxt) {
                min_int(forward(s.seq, c.recv_nxt), s.payload.len() as int)
            } else {
                0
            };
            let data = s.payload.skip(trim);
            let capacity = crate::arith::sat_sub(cfg.receive_buffer as int, c.recv_queue.len() as int);
            let accepted = min_int(capacity, data.len() as int);
            let nxt = seq_add(c.recv_nxt, accepted);
            let c2 = ConnView {
                recv_queue: c.recv_queue + data.take(accepted),
                recv_nxt: nxt,
                reassembly: rest,
                ..c
            };
            if accepted < data.len() {
            } else if s.fin {
                lemma_drain_send_side(
                    crate::model::on_remote_fin_spec(ConnView { recv_nxt: seq_add(nxt, 1), ..c2 }, now, cfg),
                    now,
                    cfg,
                );
            } else {
                lemma_drain_send_side(c2, now, cfg);
            }
        },
    }
}

proof fn lemma_receive_send_side<V>(c: ConnView<V>, seg: SegmentView, now: u64, cfg: crate::types::Config)
    requires
        synchronized(c),
    ensures
        same_send(crate::model::receive_stream_data_spec(c, seg, now, cfg).0, c),
        !crate::model::carries_data(crate::model::receive_stream_data_spec(c, seg, now, cfg).1),
{
    let c1 = crate::model::insert_received_spec(c, seg.seq, seg.payload, has_flag(seg.flags, FIN_BIT), cfg);
    lemma_drain_send_side(c1, now, cfg);
    assert(ACK_BIT & FIN_BIT != FIN_BIT) by (bit_vector);
}

proof fn lemma_ack_canonical<V>(c: ConnView<V>)
    requires
        c.local_port != 0,
        c.remote_port != 0,
    ensures
        crate::wire::segment_canonical(crate::model::ack_segment_spec(c)),
        !crate::model::carries_data(crate::model::ack_segment_spec(c)),
{
    lemma_built_canonical(
        c.local_port,
        c.remote_port,
        c.send_nxt,
        c.recv_nxt,
        crate::model::avail_window_u16(c),
        c.mss as u16,
        ACK_BIT,
        Seq::empty(),
    );
    assert(ACK_BIT & FIN_BIT != FIN_BIT) by (bit_vector);
}

proof fn lemma_same_send_prefix<V>(a: ConnView<V>, b: ConnView<V>, base: u32, w: Seq<u8>)
    requires
        same_send(a, b),
        sent_prefix(b, base, w),
    ensures
        sent_prefix(a, base, w),
{
}

proof fn lemma_first_with_payload_found(u: Seq<TrackedView>)
    ensures
        crate::model::first_with_payload(u) matches Some(i) ==> 0 <= i < u.len() && u[i].payload.len() > 0,
    decreases u.len(),
{
    if u.len() > 0 && u[0].payload.len() == 0 {
        lemma_first_with_payload_found(u.drop_first());
    }
}

proof fn lemma_probe_sends<V>(c: ConnView<V>, now: u64, base: u32, w: Seq<u8>)
    requires
        sent_prefix(c, base, w),
        synchronized(c),
    ensures
        ({
            let (c2, p) = crate::model::zero_window_probe_spec(c, now);
            &&& sent_prefix(c2, base, w)
            &&& c2.state == c.state
            &&& (p matches Some(x) ==> sent_segment(x, base, w))
        }),
{
    lemma_first_with_payload_found(c.unacked);
    match crate::model::first_with_payload(c.unacked) {
        Some(i) => {
            let t = c.unacked[i];
            assert(sent_piece(t, base, w));
            let o = forward(base, t.seq);
            assert(seq![t.payload[0]] =~= w.subrange(o, o + 1));
            lemma_built_canonical(
                c.local_port,
                c.remote_port,
                t.seq,
                c.recv_nxt,
                crate::model::avail_window_u16(c),
                c.mss as u16,
                ACK_BIT | PSH_BIT,
                seq![t.payload[0]],
            );
            assert((ACK_BIT | PSH_BIT) & FIN_BIT != FIN_BIT) by (bit_vector);
        },
        None => {
            if c.send_queue.len() > 0 {
                assert(!fin_sent(c));
                let k = forward(base, c.send_nxt);
                let c1 = ConnView { send_queue: c.send_queue.drop_first(), ..c };
                let (c2, seg) = send_tracked_spec(c1, ACK_BIT | PSH_BIT, seq![c.send_queue[0]], now);
                lemma_built_canonical(
                    c1.local_port,
                    c1.remote_port,
                    c1.send_nxt,
                    c1.recv_nxt,
                    crate::model::avail_window_u16(c1),
                    c1.mss as u16,
                    ACK_BIT | PSH_BIT,
                    seq![c.send_queue[0]],
                );
                assert((ACK_BIT | PSH_BIT) & SYN_BIT != SYN_BIT) by (bit_vector);
                assert((ACK_BIT | PSH_BIT) & FIN_BIT != FIN_BIT) by (bit_vector);
                assert(seq![c.send_queue[0]] =~= w.subrange(k, k + 1));
                lemma_forward_seq_add(base, c.send_nxt, 1);
                assert(c2.send_queue =~= w.skip(k + 1));
                assert forall|j: int| 0 <= j < c2.unacked.len() implies sent_piece(#[trigger] c2.unacked[j], base, w)
                    && !has_flag(c2.unacked[j].flags, FIN_BIT) by {
                    if j < c.unacked.len() {
                        assert(c2.unacked[j] == c.unacked[j]);
                    }
                }
            }
        },
    }
}

proof fn lemma_retransmit_sends<V>(c: ConnView<V>, now: u64, timeout: bool, base: u32, w: Seq<u8>)
    requires
        sent_prefix(c, base, w),
    ensures
        ({
            let (c2, r) = crate::model::retransmit_oldest_spec(c, now, timeout);
            &&& sent_prefix(c2, base, w)
            &&& same_send(ConnView { unacked: c.unacked, ..c2 }, c)
            &&& (r matches Some(x) ==> sent_segment(x, base, w))
        }),
{
    let (c2, r) = crate::model::retransmit_oldest_spec(c, now, timeout);
    if c.unacked.len() > 0 {
        let t = c.unacked[0];
        assert(sent_piece(t, base, w));
        lemma_built_canonical(
            c.local_port,
            c.remote_port,
            t.seq,
            c.recv_nxt,
            crate::model::avail_window_u16(c),
            c.mss as u16,
            t.flags,
            t.payload,
        );
        assert forall|i: int| 0 <= i < c2.unacked.len() implies sent_piece(#[trigger] c2.unacked[i], base, w)
            && (!fin_sent(c) ==> !has_flag(c2.unacked[i].flags, FIN_BIT)) by {
            assert(c2.unacked[i].seq == c.unacked[i].seq && c2.unacked[i].flags == c.unacked[i].flags
                && c2.unacked[i].payload == c.unacked[i].payload);
        }
    }
}

#[verifier::rlimit(40)]
#[verifier::spinoff_prover]
proof fn lemma_poll_sends<V>(c: ConnView<V>, now: u64, cfg: crate::types::Config, base: u32, w: Seq<u8>)
    requires
        sent_prefix(c, base, w),
        synchronized(c),
    ensures
        ({
            let step = crate::model::poll_spec(c, now, cfg);
            &&& sent_prefix(step.conn, base, w)
            &&& synchronized(step.conn)
            &&& pieces_of(step.segments, base, w)
        }),
{
    let step = crate::model::poll_spec(c, now, cfg);
    if crate::model::close_deadline(c) matches Some(d) && now >= d {
    } else if c.remote_window == 0 && crate::model::zero_window_work(c) {
        let deadline = match c.next_zero_window_probe_ms {
            Some(d) => d,
            None => crate::arith::sat_add_u64(now as int, cfg.initial_rto_ms as int) as u64,
        };
        let c1 = ConnView { next_zero_window_probe_ms: Some(deadline), ..c };
        lemma_same_send_prefix(c1, c, base, w);
        lemma_probe_sends(c1, now, base, w);
        let (c2, probe) = crate::model::zero_window_probe_spec(c1, now);
        if let Some(p) = probe {
            let segs = seq![p];
            assert forall|i: int| 0 <= i < segs.len() implies (crate::model::carries_data(#[trigger] segs[i])
                ==> sent_segment(segs[i], base, w)) by {
                assert(segs[i] == p);
            }
        }
    } else if c.unacked.len() > 0 && now >= crate::arith::sat_add_u64(c.unacked[0].sent_at_ms as int, c.rtt.rto_ms) {
        if c.unacked[0].transmissions < cfg.max_retransmissions {
            let c1 = ConnView {
                reno: crate::reno::reno_on_timeout(c.reno, forward(c.send_una, c.send_nxt)),
                rtt: crate::rtt::rtt_on_timeout(c.rtt),
                ..c
            };
            lemma_same_send_prefix(c1, c, base, w);
            lemma_retransmit_sends(c1, now, true, base, w);
            let (c2, r) = crate::model::retransmit_oldest_spec(c1, now, true);
            lemma_flush_sends(c2, now, base, w);
            let (c3, out) = flush_spec(c2, now);
            let all = seq![r->Some_0] + out;
            assert forall|i: int| 0 <= i < all.len() implies (crate::model::carries_data(#[trigger] all[i])
                ==> sent_segment(all[i], base, w)) by {
                if i > 0 {
                    assert(all[i] == out[i - 1]);
                }
            }
        }
    } else {
        lemma_flush_sends(c, now, base, w);
    }
}

#[verifier::rlimit(100)]
#[verifier::spinoff_prover]
proof fn lemma_on_segment_sends<V>(c: ConnView<V>, seg: SegmentView, now: u64, cfg: crate::types::Config, base: u32, w: Seq<u8>)
    requires
        sent_prefix(c, base, w),
        synchronized(c),
    ensures
        ({
            let step = crate::model::on_segment_spec(c, seg, now, cfg);
            &&& sent_prefix(step.conn, base, w)
            &&& synchronized(step.conn)
            &&& pieces_of(step.segments, base, w)
        }),
{
    assert(ACK_BIT & FIN_BIT != FIN_BIT) by (bit_vector);
    if has_flag(seg.flags, crate::wire::RST_BIT) {
        lemma_ack_canonical(c);
    } else {
        let (c1, out1, closed) = match seg.ack {
            None => (c, Seq::<SegmentView>::empty(), false),
            Some(ack) => {
                let duplicate = ack == c.send_una && seg.payload.len() == 0;
                let (ca, fin_acked, retransmit) = crate::model::apply_ack_spec(c, ack, now, duplicate);
                let out = match retransmit {
                    Some(r) => seq![r],
                    None => Seq::<SegmentView>::empty(),
                };
                if fin_acked && ca.state == State::LastAck {
                    (ca, out, true)
                } else {
                    let cb = if fin_acked {
                        crate::model::fin_acked_step(ca, now, cfg)
                    } else {
                        ca
                    };
                    let cc = if crate::seq::in_closed(ack, cb.send_una, cb.send_nxt) {
                        crate::model::update_remote_window_spec(cb, seg.window, now)
                    } else {
                        cb
                    };
                    (cc, out, false)
                }
            },
        };
        if let Some(ack) = seg.ack {
            let duplicate = ack == c.send_una && seg.payload.len() == 0;
            lemma_apply_ack_sends(c, ack, now, duplicate, base, w);
            let (ca, fin_acked, retransmit) = crate::model::apply_ack_spec(c, ack, now, duplicate);
            let cb = if fin_acked {
                crate::model::fin_acked_step(ca, now, cfg)
            } else {
                ca
            };
            lemma_same_send_prefix(cb, ca, base, w);
            if let Some(r) = retransmit {
                assert(out1 =~= seq![r]);
            }
        }
        assert(sent_prefix(c1, base, w) && synchronized(c1) && pieces_of(out1, base, w));
        if !closed {
            let (c2, out2) = if crate::model::carries_data(seg) {
                let (cr, a) = crate::model::receive_stream_data_spec(c1, seg, now, cfg);
                (cr, out1.push(a))
            } else {
                (c1, out1)
            };
            if crate::model::carries_data(seg) {
                lemma_receive_send_side(c1, seg, now, cfg);
                let (cr, a) = crate::model::receive_stream_data_spec(c1, seg, now, cfg);
                lemma_same_send_prefix(cr, c1, base, w);
                lemma_ack_canonical(cr);
                assert forall|i: int| 0 <= i < out2.len() implies (crate::model::carries_data(#[trigger] out2[i])
                    ==> sent_segment(out2[i], base, w)) by {
                    if i < out1.len() {
                        assert(out2[i] == out1[i]);
                    }
                }
            }
            lemma_flush_sends(c2, now, base, w);
            let (c3, out3) = flush_spec(c2, now);
            let all = out2 + out3;
            assert forall|i: int| 0 <= i < all.len() implies (crate::model::carries_data(#[trigger] all[i])
                ==> sent_segment(all[i], base, w)) by {
                if i < out2.len() {
                    assert(all[i] == out2[i]);
                } else {
                    assert(all[i] == out3[i - out2.len()]);
                }
            }
        }
    }
}

proof fn lemma_write_sends<V>(c: ConnView<V>, bytes: Seq<u8>, now: u64, cfg: crate::types::Config, base: u32, w: Seq<u8>)
    requires
        sent_prefix(c, base, w),
        synchronized(c),
        w.len() + bytes.len() < 0x7fff_ffff,
    ensures
        crate::model::write_spec(c, bytes, now, cfg) matches Ok((d, n, segs)) ==> {
            &&& sent_prefix(d, base, w + bytes.take(n))
            &&& synchronized(d)
            &&& pieces_of(segs, base, w + bytes.take(n))
        },
{
    if (c.state == State::Established || c.state == State::CloseWait) && !c.close_requested {
        let buffered = c.send_queue.len() + crate::model::unacked_bytes(c.unacked);
        let accepted = min_int(bytes.len() as int, crate::arith::sat_sub(cfg.send_buffer as int, buffered));
        let added = bytes.take(accepted);
        let w2 = w + added;
        let c1 = ConnView {
            send_queue: c.send_queue + added,
            progress: crate::marker::ProgressView {
                accepted: crate::marker::sat_add_u128(c.progress.accepted, accepted),
                ..c.progress
            },
            ..c
        };
        let k = forward(base, c.send_nxt);
        assert(c1.send_queue =~= w2.skip(k));
        assert forall|i: int| 0 <= i < c1.unacked.len() implies sent_piece(#[trigger] c1.unacked[i], base, w2)
            && !has_flag(c1.unacked[i].flags, FIN_BIT) by {
            let t = c.unacked[i];
            assert(sent_piece(t, base, w));
            let o = forward(base, t.seq);
            assert(w2.subrange(o, o + t.payload.len()) =~= w.subrange(o, o + t.payload.len()));
        }
        assert(sent_prefix(c1, base, w2));
        lemma_flush_sends(c1, now, base, w2);
    }
}

/// A connection sends only the stream its application wrote. Take a
/// connection past its handshake that has sent the first bytes of what its
/// application wrote (`w`, shorter than half the sequence space, counted from
/// `base`, the first sequence number after its SYN) and queues the rest.
/// Every step keeps it so: an incoming segment of any kind, a poll, a read and
/// a close leave `w` as it is, a write extends it by exactly the bytes it
/// accepts. And every segment such a step emits (first transmission,
/// retransmission, zero-window probe, FIN) carries a slice of the stream at
/// its offset from `base`, with the FIN only right after its end: what
/// `runs::lemma_reads_stay_prefix` asks of the datagrams the peer receives.
#[verifier::rlimit(40)]
#[verifier::spinoff_prover]
pub proof fn lemma_sends_stream<V>(
    c: ConnView<V>,
    seg: SegmentView,
    bytes: Seq<u8>,
    max: int,
    now: u64,
    cfg: crate::types::Config,
    base: u32,
    w: Seq<u8>,
)
    requires
        synchronized(c),
        sent_prefix(c, base, w),
        w.len() + bytes.len() < 0x7fff_ffff,
    ensures
        ({
            let step = crate::model::on_segment_spec(c, seg, now, cfg);
            sent_prefix(step.conn, base, w) && synchronized(step.conn) && pieces_of(step.segments, base, w)
        }),
        ({
            let step = crate::model::poll_spec(c, now, cfg);
            sent_prefix(step.conn, base, w) && synchronized(step.conn) && pieces_of(step.segments, base, w)
        }),
        ({
            let (d, _, segs) = crate::model::read_spec(c, max);
            sent_prefix(d, base, w) && synchronized(d) && pieces_of(segs, base, w)
        }),
        ({
            let step = crate::model::close_spec(c, now);
            sent_prefix(step.conn, base, w) && synchronized(step.conn) && pieces_of(step.segments, base, w)
        }),
        crate::model::write_spec(c, bytes, now, cfg) matches Ok((d, n, segs)) ==> {
            &&& sent_prefix(d, base, w + bytes.take(n))
            &&& synchronized(d)
            &&& pieces_of(segs, base, w + bytes.take(n))
        },
{
    lemma_on_segment_sends(c, seg, now, cfg, base, w);
    lemma_poll_sends(c, now, cfg, base, w);
    lemma_write_sends(c, bytes, now, cfg, base, w);
    assert(ACK_BIT & FIN_BIT != FIN_BIT) by (bit_vector);
    let (d, _, segs) = crate::model::read_spec(c, max);
    lemma_same_send_prefix(d, c, base, w);
    lemma_ack_canonical(d);
    if c.state == State::Established || c.state == State::CloseWait {
        let c1 = ConnView { close_requested: true, ..c };
        lemma_same_send_prefix(c1, c, base, w);
        lemma_flush_sends(c1, now, base, w);
    }
}

/// A piece of what was written so far is a piece of everything written
/// later; a FIN stays right after the end, since nothing is written after it.
pub proof fn lemma_piece_extends(seg: SegmentView, base: u32, w: Seq<u8>, w2: Seq<u8>)
    requires
        sent_segment(seg, base, w),
        w.len() <= w2.len(),
        w2.take(w.len() as int) == w,
        has_flag(seg.flags, FIN_BIT) ==> w2.len() == w.len(),
    ensures
        sent_segment(seg, base, w2),
{
    let o = forward(base, seg.seq);
    let n = seg.payload.len() as int;
    assert(w2.subrange(o, o + n) =~= w.subrange(o, o + n)) by {
        assert forall|i: int| 0 <= i < n implies #[trigger] w2.subrange(o, o + n)[i] == w.subrange(o, o + n)[i] by {
            assert(w2.take(w.len() as int)[o + i] == w2[o + i]);
        }
    }
}

/// What one connection sends feeds the other's stream: a datagram holding the
/// encoding of a segment the sending side emits (well formed, carrying a
/// piece of the written stream) decodes back to that segment, so handing it to
/// the receiving connection's tuple, once or many times, in any order, meets
/// what `runs::lemma_reads_stay_prefix` asks of each input call.
pub proof fn lemma_sent_feeds_stream<V>(
    seg: SegmentView,
    base: u32,
    w: Seq<u8>,
    peer: V,
    now: u64,
    kp: V,
    kl: u16,
    kr: u16,
)
    requires
        crate::wire::segment_canonical(seg),
        crate::model::carries_data(seg) ==> sent_segment(seg, base, w),
    ensures
        crate::wire::encode_spec(seg) is Ok,
        crate::runs::feeds_stream(
            crate::runs::Call::Input { peer, bytes: crate::wire::encode_spec(seg)->Ok_0, now },
            kp,
            kl,
            kr,
            base,
            w,
        ),
{
    crate::wire::lemma_decode_encode(seg);
}

} // verus!
