//! Properties of the protocol that span several steps or operations.

use vstd::prelude::*;

use crate::arith::min_int;
use crate::marker::{MarkerStatus, marker_status_spec};
use crate::model::{
    ConnView, ReasmView, apply_ack_spec, flush_spec, ack_segment_spec, avail_window, close_spec, fin_acked_step,
    flush_loop_spec, insert_received_spec, lemma_close_key, lemma_on_segment_key,
    lemma_poll_key, lemma_write_key, on_segment_spec, poll_spec, read_spec, reasm_filter,
    receive_stream_data_spec, reset_segment_spec, send_allowance, send_tracked_spec, write_spec,
};
use crate::seq::{forward, is_after, lemma_advance_after, lemma_seq_add_assoc, seq_add};
use crate::stack_model::{
    StackView, abort_spec, connect_from_spec, find_id, find_key, has_key, input_new_spec,
    input_spec, lemma_find_id_some, lemma_find_key_none, lemma_laws_remove, queued_for,
    remove_at, stack_laws, without_tuple,
};
use crate::types::{Config, StackError, State, time_ok};
use crate::wire::{
    ACK_BIT, FIN_BIT, PSH_BIT, RST_BIT, SYN_BIT, SegmentView, WireError, decode_spec, encode_spec, has_flag,
    lemma_decode_encode, segment_canonical,
};

verus! {

/// Nothing that `without_tuple` keeps belongs to the tuple.
proof fn lemma_without_tuple_clean<V>(out: Seq<(V, Seq<u8>)>, peer: V, l: u16, r: u16)
    ensures
        forall|j: int|
            0 <= j < without_tuple(out, peer, l, r).len() ==> !queued_for(
                #[trigger] without_tuple(out, peer, l, r)[j],
                peer,
                l,
                r,
            ),
    decreases out.len(),
{
    if out.len() > 0 {
        lemma_without_tuple_clean(out.drop_first(), peer, l, r);
        let rest = without_tuple(out.drop_first(), peer, l, r);
        if !queued_for(out[0], peer, l, r) {
            assert forall|j: int|
                0 <= j < without_tuple(out, peer, l, r).len() implies !queued_for(
                #[trigger] without_tuple(out, peer, l, r)[j],
                peer,
                l,
                r,
            ) by {
                if j > 0 {
                    assert(without_tuple(out, peer, l, r)[j] == rest[j - 1]);
                }
            }
        }
    }
}

/// The reset a retained connection sends is a well-formed segment.
proof fn lemma_reset_canonical<V>(c: ConnView<V>)
    requires
        c.local_port != 0,
        c.remote_port != 0,
    ensures
        segment_canonical(reset_segment_spec(c)),
        reset_segment_spec(c).seq == c.send_nxt,
        reset_segment_spec(c).flags == RST_BIT,
        reset_segment_spec(c).ack is None,
{
    assert(RST_BIT & 0xff20u16 == 0) by (bit_vector);
    assert(RST_BIT & ACK_BIT != ACK_BIT) by (bit_vector);
    assert(RST_BIT & crate::wire::SYN_BIT != crate::wire::SYN_BIT) by (bit_vector);
}

/// Aborting a retained connection always succeeds: its id and state are
/// released at once, no datagram queued for its tuple remains, the datagrams
/// of every other tuple stay queued in order, and exactly one datagram is
/// added for the tuple, which decodes to the reset `<SEQ=SND.NXT><CTL=RST>`.
#[verifier::rlimit(30)]
#[verifier::spinoff_prover]
pub proof fn lemma_abort_sends_one_reset<V>(s: StackView<V>, id: u64)
    requires
        stack_laws(s),
        s.ids.contains(id),
    ensures
        ({
            let (t, r) = abort_spec(s, id);
            let i = find_id(s.ids, id)->Some_0;
            let c = s.conns[i];
            &&& r is Ok
            &&& 0 <= i < s.conns.len()
            &&& t.ids == s.ids.remove(i)
            &&& find_id(t.ids, id) is None
            &&& t.conns == s.conns.remove(i)
            &&& find_key(t.conns, c.peer, c.local_port, c.remote_port) is None
            &&& stack_laws(t)
            &&& t.outbound.len() >= 1
            &&& t.outbound.drop_last() == without_tuple(
                s.outbound,
                c.peer,
                c.local_port,
                c.remote_port,
            )
            &&& forall|j: int|
                0 <= j < t.outbound.len() - 1 ==> !queued_for(
                    #[trigger] t.outbound[j],
                    c.peer,
                    c.local_port,
                    c.remote_port,
                )
            &&& t.outbound.last().0 == c.peer
            &&& decode_spec(t.outbound.last().1) == Ok::<SegmentView, WireError>(
                reset_segment_spec(c),
            )
            &&& reset_segment_spec(c).seq == c.send_nxt
            &&& reset_segment_spec(c).flags == RST_BIT
        }),
{
    lemma_find_id_some(s.ids, id);
    let i = find_id(s.ids, id)->Some_0;
    let c = s.conns[i];
    lemma_reset_canonical(c);
    lemma_decode_encode(reset_segment_spec(c));
    let b = encode_spec(reset_segment_spec(c))->Ok_0;
    let kept = without_tuple(s.outbound, c.peer, c.local_port, c.remote_port);
    let t = remove_at(StackView { outbound: kept.push((c.peer, b)), ..s }, i);
    assert(abort_spec(s, id) == (t, Ok::<(), StackError>(())));
    assert(t.outbound.drop_last() =~= kept);
    lemma_without_tuple_clean(s.outbound, c.peer, c.local_port, c.remote_port);
    assert forall|j: int| 0 <= j < t.outbound.len() - 1 implies !queued_for(
        #[trigger] t.outbound[j],
        c.peer,
        c.local_port,
        c.remote_port,
    ) by {
        assert(t.outbound[j] == kept[j]);
    }
    assert forall|j: int| 0 <= j < t.conns.len() implies !has_key(
        #[trigger] t.conns[j],
        c.peer,
        c.local_port,
        c.remote_port,
    ) by {
        let j0 = if j < i {
            j
        } else {
            j + 1
        };
        assert(t.conns[j] == s.conns[j0]);
        assert(!has_key(s.conns[j0], s.conns[i].peer, s.conns[i].local_port, s.conns[i].remote_port));
    }
    lemma_find_key_none(t.conns, c.peer, c.local_port, c.remote_port);
    lemma_laws_remove(StackView { outbound: kept.push((c.peer, b)), ..s }, i);
    crate::stack_model::lemma_remove_releases_id(StackView { outbound: kept.push((c.peer, b)), ..s }, i);
}

/// A reset exactly at RCV.NXT that reaches a retained connection past SYN-SENT
/// closes it at once: `input` succeeds, sends nothing, and releases the
/// connection and its id, leaving every other connection as it was.
pub proof fn lemma_exact_reset_releases<V>(s: StackView<V>, peer: V, bytes: Seq<u8>, now: u64, i: int)
    requires
        stack_laws(s),
        decode_spec(bytes) is Ok,
        has_flag(decode_spec(bytes)->Ok_0.flags, RST_BIT),
        find_key(
            s.conns,
            peer,
            decode_spec(bytes)->Ok_0.dst_port,
            decode_spec(bytes)->Ok_0.src_port,
        ) == Some(i),
        s.conns[i].state != State::SynSent,
        decode_spec(bytes)->Ok_0.seq == s.conns[i].recv_nxt,
    ensures
        ({
            let (t, r) = input_spec(s, peer, bytes, now);
            &&& r is Ok
            &&& t.ids == s.ids.remove(i)
            &&& t.conns == s.conns.remove(i)
            &&& find_id(t.ids, s.ids[i]) is None
            &&& t.outbound == s.outbound
        }),
{
    let seg = decode_spec(bytes)->Ok_0;
    crate::stack_model::lemma_find_key_some(s.conns, peer, seg.dst_port, seg.src_port);
    let step = on_segment_spec(s.conns[i], seg, now, s.config);
    assert(step.closed && step.conn == s.conns[i] && step.segments == Seq::<SegmentView>::empty());
    let s1 = StackView { conns: s.conns.update(i, step.conn), outbound: s.outbound + Seq::<(V, Seq<u8>)>::empty(), ..s };
    assert(s1.conns =~= s.conns);
    assert(s1.outbound =~= s.outbound);
    assert(s1 == s);
    assert(crate::stack_model::emit_spec(s.conns[i].peer, step.segments) == (Seq::<(V, Seq<u8>)>::empty(), None::<WireError>));
    crate::stack_model::lemma_remove_releases_id(s, i);
}

/// Aborting an id that no retained connection has changes nothing and emits
/// nothing.
pub proof fn lemma_abort_unknown<V>(s: StackView<V>, id: u64)
    requires
        !s.ids.contains(id),
    ensures
        abort_spec(s, id) == (s, Err::<(), StackError>(StackError::UnknownConnection)),
{
    lemma_find_id_some(s.ids, id);
    if find_id(s.ids, id) is Some {
        let i = find_id(s.ids, id)->Some_0;
        assert(s.ids[i] == id);
    }
}

/// A new tuple refused at either connection cap allocates nothing: when
/// `input` answers `ConnectionLimit`, the stack is exactly as it was.
pub proof fn lemma_input_refusal_allocates_nothing<V>(s: StackView<V>, peer: V, bytes: Seq<u8>, now: u64)
    ensures
        input_spec(s, peer, bytes, now).1 == Err::<(), StackError>(StackError::ConnectionLimit)
            ==> input_spec(s, peer, bytes, now).0 == s,
{
    match decode_spec(bytes) {
        Err(_) => {},
        Ok(seg) => match find_key(s.conns, peer, seg.dst_port, seg.src_port) {
            Some(i) => {},
            None => {
                let r = input_new_spec(s, peer, seg, now);
                if r.1 == Err::<(), StackError>(StackError::ConnectionLimit) {
                    assert(r.0 == s);
                }
            },
        },
    }
}

/// A connection refused at either cap allocates nothing: when
/// `connect_from_with_isn` answers `ConnectionLimit`, the stack is unchanged.
pub proof fn lemma_connect_refusal_allocates_nothing<V>(
    s: StackView<V>,
    peer: V,
    local_port: u16,
    remote_port: u16,
    isn: u32,
    now: u64,
)
    ensures
        connect_from_spec(s, peer, local_port, remote_port, isn, now).1 == Err::<u64, StackError>(
            StackError::ConnectionLimit,
        ) ==> connect_from_spec(s, peer, local_port, remote_port, isn, now).0 == s,
{
}

/// Incoming reset validation (RFC 9293, RFC 5961). In SYN-SENT a reset closes
/// the connection only when its ACK acknowledges the outstanding SYN. In every
/// other state a reset exactly at RCV.NXT closes it; one elsewhere inside a
/// non-zero receive window draws exactly one challenge ACK without closing; any
/// other reset is dropped silently. A reset never changes the connection's
/// state.
pub proof fn lemma_reset_validation<V>(c: ConnView<V>, seg: SegmentView, now: u64, cfg: Config)
    requires
        has_flag(seg.flags, RST_BIT),
    ensures
        ({
            let step = on_segment_spec(c, seg, now, cfg);
            &&& step.conn == c
            &&& !step.accepted
            &&& c.state == State::SynSent ==> {
                &&& step.closed == (seg.ack matches Some(a) && is_after(a, c.send_una)
                    && !is_after(a, c.send_nxt))
                &&& step.segments == Seq::<SegmentView>::empty()
            }
            &&& c.state != State::SynSent ==> {
                &&& step.closed == (seg.seq == c.recv_nxt)
                &&& step.segments == if seg.seq != c.recv_nxt && avail_window(c) > 0 && forward(
                    c.recv_nxt,
                    seg.seq,
                ) < avail_window(c) {
                    seq![ack_segment_spec(c)]
                } else {
                    Seq::<SegmentView>::empty()
                }
            }
        }),
{
}

/// The challenge ACK of a reset acknowledges RCV.NXT from SND.NXT.
pub proof fn lemma_challenge_ack<V>(c: ConnView<V>)
    ensures
        ack_segment_spec(c).flags == ACK_BIT,
        ack_segment_spec(c).seq == c.send_nxt,
        ack_segment_spec(c).ack == Some(c.recv_nxt),
        ack_segment_spec(c).payload.len() == 0,
{
    assert(ACK_BIT & ACK_BIT == ACK_BIT) by (bit_vector);
}

/// When our FIN is acknowledged in FIN-WAIT-1, the connection enters
/// FIN-WAIT-2 with a retention deadline strictly after now.
pub proof fn lemma_fin_wait_2_deadline<V>(c: ConnView<V>, now: u64, cfg: Config)
    requires
        cfg.valid(),
        time_ok(now),
        c.state == State::FinWait1,
    ensures
        fin_acked_step(c, now, cfg).state == State::FinWait2,
        fin_acked_step(c, now, cfg).fin_wait_2_until_ms matches Some(d) && now < d,
{
}

/// A FIN-WAIT-2 connection whose deadline has passed is released by the next
/// poll, without sending anything.
pub proof fn lemma_fin_wait_2_expires<V>(c: ConnView<V>, now: u64, cfg: Config)
    requires
        c.state == State::FinWait2,
        c.fin_wait_2_until_ms matches Some(d) && now >= d,
    ensures
        poll_spec(c, now, cfg).closed,
        poll_spec(c, now, cfg).segments == Seq::<SegmentView>::empty(),
{
}

/// Once a marker reads `Acked`, no later step of its connection (an incoming
/// segment, a poll, a write, a read or a close) makes it read otherwise: the
/// connection's token never changes and its acknowledged byte count never
/// falls below the marker's boundary.
pub proof fn lemma_marker_stays_acked<V>(
    c: ConnView<V>,
    seg: SegmentView,
    bytes: Seq<u8>,
    max: int,
    now: u64,
    cfg: Config,
    token: u64,
    boundary: int,
)
    requires
        0 <= boundary <= u128::MAX,
        marker_status_spec(c.progress, token, boundary) == MarkerStatus::Acked,
    ensures
        marker_status_spec(on_segment_spec(c, seg, now, cfg).conn.progress, token, boundary)
            == MarkerStatus::Acked,
        marker_status_spec(poll_spec(c, now, cfg).conn.progress, token, boundary)
            == MarkerStatus::Acked,
        marker_status_spec(close_spec(c, now).conn.progress, token, boundary)
            == MarkerStatus::Acked,
        marker_status_spec(read_spec(c, max).0.progress, token, boundary) == MarkerStatus::Acked,
        write_spec(c, bytes, now, cfg) matches Ok((c2, _, _)) ==> marker_status_spec(
            c2.progress,
            token,
            boundary,
        ) == MarkerStatus::Acked,
{
    lemma_on_segment_key(c, seg, now, cfg);
    lemma_poll_key(c, now, cfg);
    lemma_close_key(c, now);
    lemma_write_key(c, bytes, now, cfg);
}

/// The payloads of `segs`, one after another.
pub open spec fn payloads(segs: Seq<SegmentView>) -> Seq<u8>
    decreases segs.len(),
{
    if segs.len() == 0 {
        Seq::empty()
    } else {
        segs[0].payload + payloads(segs.drop_first())
    }
}

/// `segs` follow each other from `start` without gap or overlap in sequence space.
pub open spec fn contiguous(segs: Seq<SegmentView>, start: u32) -> bool
    decreases segs.len(),
{
    segs.len() == 0 || (segs[0].seq == start && contiguous(
        segs.drop_first(),
        seq_add(start, segs[0].payload.len() as int),
    ))
}

/// Sending takes queued bytes from the front, in order: the payloads of the
/// segments sent, followed by the bytes still queued, are exactly the bytes
/// queued before. The segments follow each other from SND.NXT without gap or
/// overlap, and SND.NXT moves past all of them.
#[verifier::rlimit(40)]
#[verifier::spinoff_prover]
pub proof fn lemma_send_in_order<V>(c: ConnView<V>, now: u64)
    ensures
        ({
            let (c2, out) = flush_loop_spec(c, now);
            &&& payloads(out) + c2.send_queue == c.send_queue
            &&& contiguous(out, c.send_nxt)
            &&& c2.send_nxt == seq_add(c.send_nxt, payloads(out).len() as int)
            &&& c2.state == c.state
            &&& c2.close_requested == c.close_requested
            &&& forall|i: int|
                0 <= i < out.len() ==> 0 < (#[trigger] out[i]).payload.len() <= c.mss
                    && out[i].flags == (ACK_BIT | PSH_BIT)
        }),
    decreases c.send_queue.len(),
{
    let available = send_allowance(c);
    let count = min_int(min_int(available, c.mss as int), c.send_queue.len() as int);
    if available == 0 || c.send_queue.len() == 0 || count <= 0 {
        assert(payloads(Seq::<SegmentView>::empty()) + c.send_queue =~= c.send_queue);
        assert(seq_add(c.send_nxt, 0) == c.send_nxt);
    } else {
        let c1 = ConnView { send_queue: c.send_queue.skip(count), ..c };
        let (c2, seg) = send_tracked_spec(c1, ACK_BIT | PSH_BIT, c.send_queue.take(count), now);
        assert((ACK_BIT | PSH_BIT) & SYN_BIT != SYN_BIT) by (bit_vector);
        assert((ACK_BIT | PSH_BIT) & FIN_BIT != FIN_BIT) by (bit_vector);
        assert(c2.send_nxt == seq_add(c.send_nxt, count));
        lemma_send_in_order(c2, now);
        let (c3, rest) = flush_loop_spec(c2, now);
        let out = seq![seg] + rest;
        assert(flush_loop_spec(c, now) == (c3, out));
        assert(out.drop_first() =~= rest);
        assert(payloads(out) == seg.payload + payloads(rest));
        assert(seg.payload == c.send_queue.take(count));
        assert(c.send_queue.take(count) + (payloads(rest) + c3.send_queue) =~= c.send_queue);
        assert(payloads(out) + c3.send_queue =~= c.send_queue);
        lemma_seq_add_assoc(c.send_nxt, count, payloads(rest).len() as int);
        assert forall|i: int| 0 <= i < out.len() implies 0 < (#[trigger] out[i]).payload.len()
            <= c.mss && out[i].flags == (ACK_BIT | PSH_BIT) by {
            if i > 0 {
                assert(out[i] == rest[i - 1]);
            }
        }
    }
}

/// Bytes that arrive in order are delivered in order: a data segment exactly at
/// RCV.NXT, with nothing out of order pending and room for all of it, is
/// appended whole to the received bytes, RCV.NXT moves past it, and the ACK
/// sent back acknowledges it.
#[verifier::rlimit(30)]
#[verifier::spinoff_prover]
pub proof fn lemma_in_order_delivery<V>(c: ConnView<V>, seg: SegmentView, now: u64, cfg: Config)
    requires
        cfg.valid(),
        c.receive_capacity == cfg.receive_buffer,
        c.reassembly.len() == 0,
        seg.seq == c.recv_nxt,
        !has_flag(seg.flags, FIN_BIT),
        0 < seg.payload.len() < 0x8000_0000,
        c.recv_queue.len() + seg.payload.len() <= cfg.receive_buffer,
    ensures
        ({
            let (c2, ack) = receive_stream_data_spec(c, seg, now, cfg);
            &&& c2 == ConnView {
                recv_queue: c.recv_queue + seg.payload,
                recv_nxt: seq_add(c.recv_nxt, seg.payload.len() as int),
                ..c
            }
            &&& ack.ack == Some(c2.recv_nxt)
        }),
{
    let n = seg.payload.len() as int;
    let chunk = ReasmView { seq: seg.seq, payload: seg.payload, fin: false };
    crate::model::lemma_reasm_bytes_nonneg(c.reassembly);
    assert(avail_window(c) >= n);
    assert(seg.payload.take(n) =~= seg.payload);
    let c1 = insert_received_spec(c, seg.seq, seg.payload, false, cfg);
    assert(c1.reassembly =~= seq![chunk]);
    lemma_advance_after(c.recv_nxt, n);
    let end = crate::model::reasm_end(chunk);
    assert(end == seq_add(c.recv_nxt, n));
    assert(end != c.recv_nxt) by {
        if end == c.recv_nxt {
            assert(forward(c.recv_nxt, c.recv_nxt) == 0);
        }
    }
    assert(crate::model::reasm_live(chunk, c.recv_nxt));
    let kept = reasm_filter(c1.reassembly, c.recv_nxt);
    assert(c1.reassembly.drop_first() =~= Seq::<ReasmView>::empty());
    assert(reasm_filter(Seq::<ReasmView>::empty(), c.recv_nxt) == Seq::<ReasmView>::empty());
    assert(kept =~= seq![chunk]);
    assert(crate::model::first_ready(kept, c.recv_nxt) == Some(0int));
    assert(!crate::seq::is_before(c.recv_nxt, c.recv_nxt));
    assert(seg.payload.skip(0) =~= seg.payload);
    assert(kept.remove(0) =~= Seq::<ReasmView>::empty());
    let c2 = ConnView {
        recv_queue: c.recv_queue + seg.payload,
        recv_nxt: seq_add(c.recv_nxt, n),
        reassembly: Seq::<ReasmView>::empty(),
        ..c1
    };
    assert(crate::model::first_ready(Seq::<ReasmView>::empty(), c2.recv_nxt) is None);
    assert(crate::model::drain_spec(c2, now, cfg) == c2);
    assert(crate::model::drain_spec(c1, now, cfg) == c2);
    assert(c.reassembly =~= Seq::<ReasmView>::empty());
    assert(ACK_BIT & ACK_BIT == ACK_BIT) by (bit_vector);
}

/// A read hands back the oldest received bytes, at most `max` of them, in the
/// order they were received; the rest stay queued for the next read.
pub proof fn lemma_read_gives_oldest<V>(c: ConnView<V>, max: int)
    requires
        max >= 0,
    ensures
        ({
            let (c2, bytes, _) = read_spec(c, max);
            &&& bytes.len() == min_int(max, c.recv_queue.len() as int)
            &&& bytes + c2.recv_queue == c.recv_queue
        }),
{
    let n = min_int(max, c.recv_queue.len() as int);
    assert(c.recv_queue.take(n) + c.recv_queue.skip(n) =~= c.recv_queue);
}

/// A segment whose bytes all lie before RCV.NXT, such as a retransmission of
/// data already received, adds nothing: receiving it is the same as receiving
/// no segment at all.
pub proof fn lemma_duplicate_adds_nothing<V>(c: ConnView<V>, seg: SegmentView, now: u64, cfg: Config)
    requires
        crate::seq::is_before(seg.seq, c.recv_nxt),
        forward(seg.seq, c.recv_nxt) >= seg.payload.len(),
        !has_flag(seg.flags, FIN_BIT),
    ensures
        receive_stream_data_spec(c, seg, now, cfg).0 == crate::model::drain_spec(c, now, cfg),
{
    assert(insert_received_spec(c, seg.seq, seg.payload, false, cfg) == c);
}

/// The connection after receiving the segment `seg`.
#[verifier::opaque]
pub open spec fn receive_one<V>(c: ConnView<V>, seg: SegmentView, now: u64, cfg: Config) -> ConnView<V> {
    receive_stream_data_spec(c, seg, now, cfg).0
}

/// The connection after receiving `segs` one after another.
pub open spec fn receive_all<V>(c: ConnView<V>, segs: Seq<SegmentView>, now: u64, cfg: Config) -> ConnView<V>
    decreases segs.len(),
{
    if segs.len() == 0 {
        c
    } else {
        receive_all(receive_one(c, segs[0], now, cfg), segs.drop_first(), now, cfg)
    }
}

/// Data segments that arrive in order, each right after the one before, are
/// delivered whole and in order.
#[verifier::rlimit(40)]
#[verifier::spinoff_prover]
proof fn lemma_receive_all_in_order<V>(c: ConnView<V>, segs: Seq<SegmentView>, now: u64, cfg: Config)
    requires
        cfg.valid(),
        c.receive_capacity == cfg.receive_buffer,
        c.reassembly.len() == 0,
        contiguous(segs, c.recv_nxt),
        forall|i: int|
            0 <= i < segs.len() ==> 0 < (#[trigger] segs[i]).payload.len() < 0x8000_0000
                && !has_flag(segs[i].flags, FIN_BIT),
        c.recv_queue.len() + payloads(segs).len() <= cfg.receive_buffer,
    ensures
        receive_all(c, segs, now, cfg).recv_queue == c.recv_queue + payloads(segs),
        receive_all(c, segs, now, cfg).recv_nxt == seq_add(c.recv_nxt, payloads(segs).len() as int),
    decreases segs.len(),
{
    if segs.len() == 0 {
        assert(c.recv_queue + payloads(segs) =~= c.recv_queue);
        assert(seq_add(c.recv_nxt, 0) == c.recv_nxt);
    } else {
        let seg = segs[0];
        let rest = segs.drop_first();
        assert(payloads(segs) == seg.payload + payloads(rest));
        let c1 = receive_one(c, seg, now, cfg);
        assert(c1 == ConnView {
            recv_queue: c.recv_queue + seg.payload,
            recv_nxt: seq_add(c.recv_nxt, seg.payload.len() as int),
            ..c
        }) by {
            reveal(receive_one);
            lemma_in_order_delivery(c, seg, now, cfg);
        }
        assert forall|i: int| 0 <= i < rest.len() implies 0 < (#[trigger] rest[i]).payload.len()
            < 0x8000_0000 && !has_flag(rest[i].flags, FIN_BIT) by {
            assert(rest[i] == segs[i + 1]);
        }
        lemma_receive_all_in_order(c1, rest, now, cfg);
        assert(c1.recv_queue + payloads(rest) =~= c.recv_queue + payloads(segs));
        lemma_seq_add_assoc(c.recv_nxt, seg.payload.len() as int, payloads(rest).len() as int);
    }
}

/// What one side sends is what the other receives. When the segments that a
/// connection sends from its queue arrive in order at a peer whose RCV.NXT is
/// the sender's SND.NXT, with nothing out of order pending there and room for
/// them, no byte is lost, duplicated or reordered: the peer's received bytes
/// followed by the bytes still queued at the sender are the peer's earlier
/// received bytes followed by everything the sender had queued, and the two
/// sequence numbers stay in step.
#[verifier::rlimit(40)]
#[verifier::spinoff_prover]
pub proof fn lemma_stream_transfer<V>(a: ConnView<V>, b: ConnView<V>, now: u64, cfg: Config)
    requires
        cfg.valid(),
        b.receive_capacity == cfg.receive_buffer,
        b.reassembly.len() == 0,
        b.recv_nxt == a.send_nxt,
        a.mss < 0x8000_0000,
        b.recv_queue.len() + a.send_queue.len() <= cfg.receive_buffer,
    ensures
        ({
            let (a2, out) = flush_loop_spec(a, now);
            let b2 = receive_all(b, out, now, cfg);
            &&& b2.recv_queue + a2.send_queue == b.recv_queue + a.send_queue
            &&& b2.recv_nxt == a2.send_nxt
        }),
{
    lemma_send_in_order(a, now);
    let (a2, out) = flush_loop_spec(a, now);
    assert((ACK_BIT | PSH_BIT) & FIN_BIT != FIN_BIT) by (bit_vector);
    assert forall|i: int| 0 <= i < out.len() implies 0 < (#[trigger] out[i]).payload.len()
        < 0x8000_0000 && !has_flag(out[i].flags, FIN_BIT) by {}
    assert(payloads(out).len() <= a.send_queue.len()) by {
        assert((payloads(out) + a2.send_queue).len() == a.send_queue.len());
    }
    lemma_receive_all_in_order(b, out, now, cfg);
    assert(b.recv_queue + payloads(out) + a2.send_queue =~= b.recv_queue + (payloads(out)
        + a2.send_queue));
}

/// Rolling back a connect whose SYN could not be sent releases the
/// connection and its id at once and queues nothing.
pub proof fn lemma_rollback_releases<V>(s: StackView<V>, id: u64, now: u64)
    requires
        stack_laws(s),
        s.ids.contains(id),
        s.conns[find_id(s.ids, id)->Some_0].state == State::SynSent,
    ensures
        ({
            let (t, r) = crate::stack_model::stack_close_spec(s, id, now);
            &&& r is Ok
            &&& find_id(t.ids, id) is None
            &&& t.outbound == s.outbound
        }),
{
    lemma_find_id_some(s.ids, id);
    let i = find_id(s.ids, id)->Some_0;
    let step = close_spec(s.conns[i], now);
    assert(step.closed && step.conn == s.conns[i] && step.segments == Seq::<SegmentView>::empty());
    let s1 = StackView {
        conns: s.conns.update(i, step.conn),
        outbound: s.outbound + Seq::<(V, Seq<u8>)>::empty(),
        ..s
    };
    assert(s1.conns =~= s.conns);
    assert(s1.outbound =~= s.outbound);
    assert(s1 == s);
    assert(crate::stack_model::emit_spec(s.conns[i].peer, step.segments) == (
        Seq::<(V, Seq<u8>)>::empty(),
        None::<WireError>,
    ));
    crate::stack_model::lemma_remove_releases_id(s, i);
}

proof fn lemma_poll_conns_subset<V>(ids: Seq<u64>, conns: Seq<ConnView<V>>, now: u64, cfg: Config, x: u64)
    ensures
        crate::stack_model::poll_conns(ids, conns, now, cfg).0.contains(x) ==> ids.contains(x),
    decreases conns.len(),
{
    if conns.len() > 0 && ids.len() > 0 {
        let step = poll_spec(conns[0], now, cfg);
        let rest = crate::stack_model::poll_conns(ids.drop_first(), conns.drop_first(), now, cfg);
        lemma_poll_conns_subset(ids.drop_first(), conns.drop_first(), now, cfg, x);
        let r = crate::stack_model::poll_conns(ids, conns, now, cfg).0;
        if r.contains(x) {
            let j = choose|j: int| 0 <= j < r.len() && r[j] == x;
            if step.closed {
                assert(rest.0.contains(x));
            } else if j == 0 {
                assert(ids[0] == x);
            } else {
                assert(rest.0[j - 1] == x);
            }
            if rest.0.contains(x) {
                let m = choose|m: int| 0 <= m < ids.drop_first().len() && ids.drop_first()[m] == x;
                assert(ids[m + 1] == x);
            }
        }
    }
}

proof fn lemma_poll_conns_drops<V>(ids: Seq<u64>, conns: Seq<ConnView<V>>, now: u64, cfg: Config, j: int)
    requires
        ids.len() == conns.len(),
        crate::stack_model::ids_distinct(ids),
        0 <= j < conns.len(),
        poll_spec(conns[j], now, cfg).closed,
    ensures
        !crate::stack_model::poll_conns(ids, conns, now, cfg).0.contains(ids[j]),
    decreases conns.len(),
{
    let t = ids.drop_first();
    let rest = crate::stack_model::poll_conns(t, conns.drop_first(), now, cfg);
    let r = crate::stack_model::poll_conns(ids, conns, now, cfg).0;
    assert forall|a: int, b: int| 0 <= a < t.len() && 0 <= b < t.len() && a != b implies t[a] != t[b] by {
        assert(t[a] == ids[a + 1] && t[b] == ids[b + 1]);
    }
    if j == 0 {
        lemma_poll_conns_subset(t, conns.drop_first(), now, cfg, ids[0]);
        if t.contains(ids[0]) {
            let m = choose|m: int| 0 <= m < t.len() && t[m] == ids[0];
            assert(ids[m + 1] == ids[0]);
        }
    } else {
        assert(t[j - 1] == ids[j]);
        assert(conns.drop_first()[j - 1] == conns[j]);
        lemma_poll_conns_drops(t, conns.drop_first(), now, cfg, j - 1);
        if r.contains(ids[j]) {
            let m = choose|m: int| 0 <= m < r.len() && r[m] == ids[j];
            if !poll_spec(conns[0], now, cfg).closed && m == 0 {
                assert(ids[0] == ids[j]);
            } else if !poll_spec(conns[0], now, cfg).closed {
                assert(rest.0[m - 1] == ids[j]);
            } else {
                assert(rest.0[m] == ids[j]);
            }
        }
    }
}

/// A connection whose FIN-WAIT-2 or TIME-WAIT deadline has passed is released
/// by the next poll of the stack: its id is gone.
pub proof fn lemma_poll_releases_expired<V>(s: StackView<V>, now: u64, i: int)
    requires
        stack_laws(s),
        0 <= i < s.conns.len(),
        crate::model::close_deadline(s.conns[i]) matches Some(d) && now >= d,
    ensures
        find_id(crate::stack_model::stack_poll_spec(s, now).ids, s.ids[i]) is None,
{
    lemma_poll_conns_drops(s.ids, s.conns, now, s.config, i);
    let ids2 = crate::stack_model::stack_poll_spec(s, now).ids;
    lemma_find_id_some(ids2, s.ids[i]);
    if find_id(ids2, s.ids[i]) is Some {
        let m = find_id(ids2, s.ids[i])->Some_0;
        assert(ids2[m] == s.ids[i]);
    }
}

/// The retry limit a poll at `now` acts on: the zero-window probe limit when
/// the peer's window is closed with work held back and the probe is due, else
/// the retransmission limit of the oldest unacknowledged segment once its
/// timer has run out.
pub open spec fn retry_limit_reached<V>(c: ConnView<V>, now: u64, cfg: Config) -> bool {
    if c.remote_window == 0 && crate::model::zero_window_work(c) {
        let due = match c.next_zero_window_probe_ms {
            Some(d) => d,
            None => crate::arith::sat_add_u64(now as int, cfg.initial_rto_ms as int) as u64,
        };
        now >= due && c.zero_window_probes >= cfg.max_retransmissions
    } else {
        c.unacked.len() > 0 && now >= crate::arith::sat_add_u64(
            c.unacked[0].sent_at_ms as int,
            c.rtt.rto_ms,
        ) && c.unacked[0].transmissions >= cfg.max_retransmissions
    }
}

/// Before its deadline a FIN-WAIT-2 or TIME-WAIT connection survives a poll,
/// in the same state and with the same deadline, unless a retry limit is
/// spent; a quiet one (nothing queued or unacknowledged, no close pending) is
/// left exactly as it was and nothing is sent.
pub proof fn lemma_close_wait_kept<V>(c: ConnView<V>, now: u64, cfg: Config)
    requires
        crate::model::close_deadline(c) matches Some(d) && now < d,
    ensures
        poll_spec(c, now, cfg).closed == retry_limit_reached(c, now, cfg),
        poll_spec(c, now, cfg).conn.state == c.state,
        crate::model::close_deadline(poll_spec(c, now, cfg).conn) == crate::model::close_deadline(c),
        c.send_queue.len() == 0 && c.unacked.len() == 0 && !c.close_requested ==> poll_spec(
            c,
            now,
            cfg,
        ) == crate::model::open_step(c, Seq::<SegmentView>::empty()),
{

}

/// Where poll keeps a connection (it does not close it), the connection stays
/// under its id in its polled state.
proof fn lemma_poll_conns_keeps<V>(ids: Seq<u64>, conns: Seq<ConnView<V>>, now: u64, cfg: Config, j: int)
    requires
        ids.len() == conns.len(),
        crate::stack_model::ids_distinct(ids),
        0 <= j < conns.len(),
        !poll_spec(conns[j], now, cfg).closed,
    ensures
        ({
            let r = crate::stack_model::poll_conns(ids, conns, now, cfg);
            find_id(r.0, ids[j]) matches Some(m) && 0 <= m < r.1.len() && r.1[m] == poll_spec(
                conns[j],
                now,
                cfg,
            ).conn
        }),
    decreases conns.len(),
{
    let t = ids.drop_first();
    let rest = crate::stack_model::poll_conns(t, conns.drop_first(), now, cfg);
    let r = crate::stack_model::poll_conns(ids, conns, now, cfg);
    lemma_poll_conns_len(t, conns.drop_first(), now, cfg);
    if j == 0 {
        assert(r.0[0] == ids[0]);
    } else {
        assert forall|a: int, b: int| 0 <= a < t.len() && 0 <= b < t.len() && a != b implies t[a] != t[b] by {
            assert(t[a] == ids[a + 1] && t[b] == ids[b + 1]);
        }
        assert(t[j - 1] == ids[j]);
        assert(conns.drop_first()[j - 1] == conns[j]);
        lemma_poll_conns_keeps(t, conns.drop_first(), now, cfg, j - 1);
        if !poll_spec(conns[0], now, cfg).closed {
            assert(ids[0] != ids[j]);
            assert(r.0.drop_first() =~= rest.0);
            let m = find_id(rest.0, ids[j])->Some_0;
            assert(r.1[m + 1] == rest.1[m]);
        }
    }
}

proof fn lemma_poll_conns_len<V>(ids: Seq<u64>, conns: Seq<ConnView<V>>, now: u64, cfg: Config)
    requires
        ids.len() == conns.len(),
    ensures
        crate::stack_model::poll_conns(ids, conns, now, cfg).0.len()
            == crate::stack_model::poll_conns(ids, conns, now, cfg).1.len(),
    decreases conns.len(),
{
    if conns.len() > 0 {
        lemma_poll_conns_len(ids.drop_first(), conns.drop_first(), now, cfg);
    }
}

/// A connection in FIN-WAIT-2 or TIME-WAIT whose deadline has not come is
/// kept by a poll of the stack, under its id, in the same state and with the
/// same deadline, unless a retry limit is spent at this poll: a peer that
/// acknowledges our FIN holds the connection until the deadline and no
/// longer.
pub proof fn lemma_poll_keeps_before_deadline<V>(s: StackView<V>, now: u64, i: int)
    requires
        stack_laws(s),
        0 <= i < s.conns.len(),
        crate::model::close_deadline(s.conns[i]) matches Some(d) && now < d,
        !retry_limit_reached(s.conns[i], now, s.config),
    ensures
        ({
            let t = crate::stack_model::stack_poll_spec(s, now);
            find_id(t.ids, s.ids[i]) matches Some(m) && 0 <= m < t.conns.len() && t.conns[m].state
                == s.conns[i].state && crate::model::close_deadline(t.conns[m])
                == crate::model::close_deadline(s.conns[i])
        }),
{
    lemma_close_wait_kept(s.conns[i], now, s.config);
    lemma_poll_conns_keeps(s.ids, s.conns, now, s.config, i);
}

/// Fast retransmit: a duplicate ACK (at SND.UNA, with data outstanding)
/// retransmits the oldest unacknowledged segment, unchanged, exactly when it is
/// the third in a row, without waiting for the retransmission timer; it never
/// acknowledges our FIN nor moves SND.UNA.
pub proof fn lemma_fast_retransmit<V>(c: ConnView<V>, now: u64)
    requires
        c.unacked.len() > 0,
        !crate::seq::is_after(c.send_una, c.send_nxt),
    ensures
        ({
            let (c2, fin_acked, r) = apply_ack_spec(c, c.send_una, now, true);
            &&& !fin_acked
            &&& c2.send_una == c.send_una
            &&& c2.duplicate_acks == crate::arith::min_int(c.duplicate_acks + 1, 255)
            &&& (c.duplicate_acks == 2) == (r is Some)
            &&& r matches Some(x) ==> x.seq == c.unacked[0].seq && x.flags == c.unacked[0].flags
                && x.payload == c.unacked[0].payload
        }),
{
    crate::seq::lemma_before_irreflexive(c.send_una);
}

/// A close sends its FIN only behind every queued byte: whenever sending
/// emits a FIN, nothing stays queued, the FIN is the last segment and follows
/// the data just sent in sequence space, and the connection moves from
/// ESTABLISHED to FIN-WAIT-1 or from CLOSE-WAIT to LAST-ACK. Once a requested
/// close has no queued byte left and the windows allow, the FIN is sent. After
/// a close no write is accepted.
pub proof fn lemma_fin_follows_data<V>(c: ConnView<V>, now: u64, bytes: Seq<u8>, cfg: Config)
    ensures
        ({
            let (c2, out) = flush_spec(c, now);
            out.len() > 0 && has_flag(out.last().flags, FIN_BIT) ==> {
                &&& c2.send_queue.len() == 0
                &&& out.last().seq == seq_add(
                    c.send_nxt,
                    payloads(out.drop_last()).len() as int,
                )
                &&& (c.state == State::Established ==> c2.state == State::FinWait1)
                &&& (c.state == State::CloseWait ==> c2.state == State::LastAck)
            }
        }),
        ({
            let (c1, _) = flush_loop_spec(c, now);
            let (c2, out) = flush_spec(c, now);
            (c.state == State::Established || c.state == State::CloseWait) && c.close_requested
                && c1.send_queue.len() == 0 && send_allowance(c1) > 0 ==> out.len() > 0 && has_flag(
                out.last().flags,
                FIN_BIT,
            ) && !c2.close_requested
        }),
        c.close_requested ==> write_spec(c, bytes, now, cfg) is Err,
{
    lemma_send_in_order(c, now);
    let (c1, out1) = flush_loop_spec(c, now);
    assert((ACK_BIT | PSH_BIT) & FIN_BIT != FIN_BIT) by (bit_vector);
    assert((FIN_BIT | ACK_BIT) & FIN_BIT == FIN_BIT) by (bit_vector);
    assert((FIN_BIT | ACK_BIT) & SYN_BIT != SYN_BIT) by (bit_vector);
    let (c2, out) = flush_spec(c, now);
    if c.state == State::Established || c.state == State::CloseWait {
        if c1.close_requested && c1.send_queue.len() == 0 && send_allowance(c1) > 0 {
            let c2a = ConnView {
                close_requested: false,
                state: if c1.state == State::Established {
                    State::FinWait1
                } else {
                    State::LastAck
                },
                ..c1
            };
            let (c3, fin) = send_tracked_spec(c2a, FIN_BIT | ACK_BIT, Seq::empty(), now);
            assert(out == out1.push(fin));
            assert(c2 == c3);
            assert(c1.state == c.state);
            assert(c3.state == c2a.state);
            assert(out.drop_last() =~= out1);
            assert(out.last() == fin);
        } else {
            assert(out == out1);
            if out.len() > 0 {
                assert(out.last() == out1[out1.len() - 1]);
            }
        }
    }
}
/// `accept` hands out the oldest completed handshake for the port whose
/// connection is still retained: the entry it returns was queued for that
/// port, its id is retained, and every entry for the port queued before it
/// belongs to a connection already gone. When it returns nothing, no queued
/// entry for the port has a retained connection.
pub proof fn lemma_accept_order(accepts: Seq<(u16, u64)>, port: u16, ids: Seq<u64>)
    ensures
        match crate::stack_model::accept_scan(accepts, port, ids).1 {
            Some(x) => ids.contains(x) && exists|j: int|
                0 <= j < accepts.len() && #[trigger] accepts[j] == (port, x) && forall|m: int|
                    0 <= m < j && accepts[m].0 == port ==> !ids.contains(#[trigger] accepts[m].1),
            None => forall|j: int|
                0 <= j < accepts.len() && accepts[j].0 == port ==> !ids.contains(#[trigger] accepts[j].1),
        },
    decreases accepts.len(),
{
    if accepts.len() > 0 {
        let t = accepts.drop_first();
        lemma_accept_order(t, port, ids);
        match crate::stack_model::accept_scan(accepts, port, ids).1 {
            Some(x) => {
                if accepts[0].0 == port && ids.contains(accepts[0].1) {
                    assert(accepts[0] == (port, x));
                } else {
                    let j = choose|j: int|
                        0 <= j < t.len() && #[trigger] t[j] == (port, x) && forall|m: int|
                            0 <= m < j && t[m].0 == port ==> !ids.contains(#[trigger] t[m].1);
                    assert(accepts[j + 1] == (port, x));
                    assert forall|m: int| 0 <= m < j + 1 && accepts[m].0 == port implies !ids.contains(
                        #[trigger] accepts[m].1,
                    ) by {
                        if m > 0 {
                            assert(accepts[m] == t[m - 1]);
                        }
                    }
                }
            },
            None => {
                assert forall|j: int| 0 <= j < accepts.len() && accepts[j].0 == port implies !ids.contains(
                    #[trigger] accepts[j].1,
                ) by {
                    if j > 0 {
                        assert(accepts[j] == t[j - 1]);
                    }
                }
            },
        }
    }
}

/// A connection is queued for `accept` only when it completes the server
/// handshake: it was in SYN-RECEIVED and the segment, no reset, acknowledged
/// its SYN-ACK.
pub proof fn lemma_accepted_only_on_handshake<V>(c: ConnView<V>, seg: SegmentView, now: u64, cfg: Config)
    ensures
        on_segment_spec(c, seg, now, cfg).accepted ==> {
            &&& c.state == State::SynReceived
            &&& !has_flag(seg.flags, RST_BIT)
            &&& seg.ack == Some(c.send_nxt)
        },
{
}

/// An ACK adds to the connection's acknowledged payload count exactly the
/// payload bytes it removes from the retransmission queue (held at the largest
/// `u128`), so a marker turns `Acked` once the peer has cumulatively
/// acknowledged every payload byte accepted before it was taken.
pub proof fn lemma_ack_counts_acknowledged_bytes<V>(c: ConnView<V>, ack: u32, now: u64, duplicate: bool)
    requires
        0 <= c.progress.acked <= u128::MAX,
    ensures
        ({
            let c2 = apply_ack_spec(c, ack, now, duplicate).0;
            c2.progress.acked == crate::marker::sat_add_u128(
                c.progress.acked,
                crate::model::unacked_bytes(c.unacked) - crate::model::unacked_bytes(c2.unacked),
            )
        }),
{
    crate::model::lemma_ack_pop_bytes(c.unacked, ack, now);
    let (c2, _, _) = apply_ack_spec(c, ack, now, duplicate);
    if crate::seq::is_after(ack, c.send_nxt) || crate::seq::is_before(ack, c.send_una) {
    } else if ack == c.send_una {
        if duplicate && c.unacked.len() > 0 {
            crate::model::lemma_unacked_bytes_update0(c.unacked, c2.unacked[0]);
        }
    } else {
        let rest = crate::model::ack_pop(c.unacked, ack, now).0;
        if crate::model::partial_ack(rest, ack) {
            crate::model::lemma_unacked_bytes_update0(rest, c2.unacked[0]);
        }
    }
}

/// `2^n`, by the standard library's power of two.
proof fn lemma_two_pow_is_pow2(n: nat)
    ensures
        crate::model::two_pow(n) == vstd::arithmetic::power2::pow2(n),
    decreases n,
{
    if n == 0 {
        vstd::arithmetic::power2::lemma2_to64();
    } else {
        lemma_two_pow_is_pow2((n - 1) as nat);
        vstd::arithmetic::power2::lemma_pow2_unfold(n);
    }
}

/// Zero-window probes back off exponentially. When a poll finds the peer's
/// window closed with data held back and the probe due (and the probe limit
/// not reached, no close deadline passed), it keeps the connection, sends at
/// most one segment, and when it sends the probe, the `n`-th in a row, the
/// next one is due `min(initial_rto * 2^min(n, 16), max_rto)` later (the sum
/// held at the largest time). Queued bytes always give a probe.
pub proof fn lemma_probe_backoff<V>(c: ConnView<V>, now: u64, cfg: Config)
    requires
        !(crate::model::close_deadline(c) matches Some(x) && now >= x),
        c.remote_window == 0,
        crate::model::zero_window_work(c),
        c.next_zero_window_probe_ms matches Some(d) && now >= d,
        c.zero_window_probes < cfg.max_retransmissions,
    ensures
        ({
            let step = poll_spec(c, now, cfg);
            let n = c.zero_window_probes + 1;
            let delay = min_int(
                cfg.initial_rto_ms * vstd::arithmetic::power2::pow2(min_int(n, 16) as nat),
                cfg.max_rto_ms as int,
            );
            &&& !step.closed
            &&& step.segments.len() <= 1
            &&& c.send_queue.len() > 0 ==> step.segments.len() == 1
            &&& step.segments.len() == 1 ==> {
                &&& step.conn.zero_window_probes == n
                &&& step.conn.next_zero_window_probe_ms == Some(
                    (if now + delay <= u64::MAX {
                        now + delay
                    } else {
                        u64::MAX as int
                    }) as u64,
                )
            }
        }),
{
    let n = c.zero_window_probes + 1;
    let k = min_int(n, 16) as nat;
    lemma_two_pow_is_pow2(k);
    crate::model::lemma_two_pow_monotone(0, k);
    let p = crate::model::two_pow(k);
    let i = cfg.initial_rto_ms as int;
    assert(i * p >= 0) by (nonlinear_arith)
        requires
            p >= 1,
            i >= 0,
    ;
}

/// Successive zero-window probe intervals double until they reach the
/// maximum timeout.
pub proof fn lemma_probe_intervals_double(cfg: Config, n: int)
    requires
        cfg.valid(),
        0 <= n < 16,
    ensures
        crate::model::probe_delay(cfg, n + 1) == min_int(
            2 * crate::model::probe_delay(cfg, n),
            cfg.max_rto_ms as int,
        ),
{
    crate::model::lemma_two_pow_bound(n as nat);
    let p = crate::model::two_pow(n as nat);
    let i = cfg.initial_rto_ms as int;
    assert(i * (2 * p) == 2 * (i * p)) by (nonlinear_arith);
    assert(i * p >= 0) by (nonlinear_arith)
        requires
            p >= 1,
            i >= 0,
    ;
}

/// The segment size agreed on in the handshake. Whether the connection is
/// opened (on the peer's SYN-ACK) or accepted (on the peer's SYN), its MSS is
/// the largest size that neither side exceeds: at most the MSS the peer
/// announces (1024 when it announces none), at most ours, at least one byte,
/// and no smaller than both; congestion control counts in that size, and
/// every data segment sent is at most that size (`lemma_send_in_order`).
pub proof fn lemma_handshake_mss<V>(
    c: ConnView<V>,
    seg: SegmentView,
    now: u64,
    cfg: Config,
    peer: V,
    isn: u32,
    token: u64,
)
    requires
        cfg.valid(),
        c.state == State::SynSent,
        !has_flag(seg.flags, RST_BIT),
        has_flag(seg.flags, SYN_BIT),
        has_flag(seg.flags, ACK_BIT),
        seg.ack == Some(c.send_nxt),
        crate::wire::announces_version(seg.options, crate::wire::FIPS_VERSION),
    ensures
        ({
            let offered = match crate::wire::first_mss(seg.options) {
                Some(v) => v as int,
                None => 1024,
            };
            let opened = on_segment_spec(c, seg, now, cfg).conn.mss as int;
            let accepted = crate::model::server_spec(peer, seg, isn, now, token, cfg).0.mss as int;
            &&& 1 <= opened <= cfg.mss
            &&& offered >= 1 ==> opened <= offered
            &&& opened >= min_int(offered, cfg.mss as int)
            &&& 1 <= accepted <= cfg.mss
            &&& offered >= 1 ==> accepted <= offered
            &&& accepted >= min_int(offered, cfg.mss as int)
            &&& on_segment_spec(c, seg, now, cfg).conn.reno.mss == opened
            &&& crate::model::server_spec(peer, seg, isn, now, token, cfg).0.reno.mss == accepted
        }),
{
}

proof fn lemma_flush_loop_keeps<V>(c: ConnView<V>, now: u64)
    ensures
        ({
            let d = flush_loop_spec(c, now).0;
            &&& d.reno == c.reno
            &&& d.rtt == c.rtt
            &&& d.unacked.len() >= c.unacked.len()
            &&& forall|i: int| 0 <= i < c.unacked.len() ==> d.unacked[i] == c.unacked[i]
        }),
    decreases c.send_queue.len(),
{
    let available = send_allowance(c);
    let count = min_int(min_int(available, c.mss as int), c.send_queue.len() as int);
    if available == 0 || c.send_queue.len() == 0 || count <= 0 {
    } else {
        let c1 = ConnView { send_queue: c.send_queue.skip(count), ..c };
        let (c2, seg) = send_tracked_spec(c1, ACK_BIT | PSH_BIT, c.send_queue.take(count), now);
        lemma_flush_loop_keeps(c2, now);
        assert forall|i: int| 0 <= i < c.unacked.len() implies c2.unacked[i] == c.unacked[i] by {}
    }
}

proof fn lemma_flush_keeps<V>(c: ConnView<V>, now: u64)
    ensures
        ({
            let d = flush_spec(c, now).0;
            &&& d.reno == c.reno
            &&& d.rtt == c.rtt
            &&& d.unacked.len() >= c.unacked.len()
            &&& forall|i: int| 0 <= i < c.unacked.len() ==> d.unacked[i] == c.unacked[i]
        }),
{
    lemma_flush_loop_keeps(c, now);
    let (c1, out) = flush_loop_spec(c, now);
    if (c.state == State::Established || c.state == State::CloseWait) && c1.close_requested
        && c1.send_queue.len() == 0 && send_allowance(c1) > 0 {
        let c2 = ConnView {
            close_requested: false,
            state: if c1.state == State::Established {
                State::FinWait1
            } else {
                State::LastAck
            },
            ..c1
        };
        let (c3, fin) = send_tracked_spec(c2, FIN_BIT | ACK_BIT, Seq::empty(), now);
        assert forall|i: int| 0 <= i < c.unacked.len() implies c3.unacked[i] == c.unacked[i] by {
            assert(c3.unacked[i] == c1.unacked[i]);
        }
    }
}

/// The retransmission timer. With the peer's window open (or nothing held
/// back by a closed one) and the oldest unacknowledged segment sent at `t0`:
/// before `t0 + RTO` a poll retransmits nothing and leaves every outstanding
/// segment as it was; from `t0 + RTO` on it resends that segment unchanged
/// (same sequence number, flags and payload) as its first segment, counts the
/// transmission, doubles the timeout up to the maximum and collapses the
/// congestion window to one segment, unless the segment has used up its
/// retransmissions, in which case the connection is dropped.
pub proof fn lemma_retransmission_timer<V>(c: ConnView<V>, now: u64, cfg: Config)
    requires
        !(crate::model::close_deadline(c) matches Some(x) && now >= x),
        !(c.remote_window == 0 && crate::model::zero_window_work(c)),
        c.unacked.len() > 0,
        0 <= c.rtt.rto_ms <= c.rtt.max_rto_ms <= u64::MAX,
        c.unacked[0].sent_at_ms + c.rtt.rto_ms <= u64::MAX,
        c.reno.mss >= 1,
    ensures
        ({
            let step = poll_spec(c, now, cfg);
            let t = c.unacked[0];
            let due = t.sent_at_ms + c.rtt.rto_ms;
            &&& now < due ==> !step.closed && forall|i: int|
                0 <= i < c.unacked.len() ==> step.conn.unacked[i] == c.unacked[i]
            &&& now >= due && t.transmissions >= cfg.max_retransmissions ==> step.closed
            &&& now >= due && t.transmissions < cfg.max_retransmissions ==> {
                &&& !step.closed
                &&& step.segments.len() >= 1
                &&& step.segments[0].seq == t.seq
                &&& step.segments[0].flags == t.flags
                &&& step.segments[0].payload == t.payload
                &&& step.conn.unacked[0].seq == t.seq
                &&& step.conn.unacked[0].payload == t.payload
                &&& step.conn.unacked[0].transmissions == min_int(t.transmissions + 1, 255)
                &&& step.conn.unacked[0].sent_at_ms == now
                &&& step.conn.rtt.rto_ms == (if 2 * c.rtt.rto_ms <= c.rtt.max_rto_ms {
                    2 * c.rtt.rto_ms
                } else {
                    c.rtt.max_rto_ms
                })
                &&& crate::reno::reno_window(step.conn.reno) == c.reno.mss
            }
        }),
{
    lemma_flush_keeps(c, now);
    if c.unacked[0].transmissions < cfg.max_retransmissions {
        let c1 = ConnView {
            reno: crate::reno::reno_on_timeout(c.reno, forward(c.send_una, c.send_nxt)),
            rtt: crate::rtt::rtt_on_timeout(c.rtt),
            ..c
        };
        let (c2, r) = crate::model::retransmit_oldest_spec(c1, now, true);
        lemma_flush_keeps(c2, now);
    }
}

proof fn lemma_first_payload(u: Seq<crate::model::TrackedView>)
    ensures
        crate::model::first_with_payload(u) matches Some(i) ==> 0 <= i < u.len()
            && u[i].payload.len() > 0 && forall|j: int| 0 <= j < i ==> (#[trigger] u[j]).payload.len() == 0,
        crate::model::first_with_payload(u) is None ==> forall|j: int|
            0 <= j < u.len() ==> (#[trigger] u[j]).payload.len() == 0,
    decreases u.len(),
{
    if u.len() > 0 {
        let t = u.drop_first();
        lemma_first_payload(t);
        if u[0].payload.len() == 0 {
            assert forall|j: int| 1 <= j < u.len() implies u[j] == t[j - 1] by {}
        }
    }
}

/// What a zero-window probe carries: one byte, the first byte of the oldest
/// outstanding segment that has payload, at that segment's sequence number;
/// when nothing with payload is outstanding, the next queued byte at SND.NXT,
/// which then leaves the send queue.
pub proof fn lemma_probe_content<V>(c: ConnView<V>, now: u64, cfg: Config)
    requires
        !(crate::model::close_deadline(c) matches Some(x) && now >= x),
        c.remote_window == 0,
        crate::model::zero_window_work(c),
        c.next_zero_window_probe_ms matches Some(d) && now >= d,
        c.zero_window_probes < cfg.max_retransmissions,
    ensures
        ({
            let step = poll_spec(c, now, cfg);
            &&& (exists|j: int| 0 <= j < c.unacked.len() && (#[trigger] c.unacked[j]).payload.len() > 0)
                ==> step.segments.len() == 1 && step.conn.send_queue == c.send_queue && exists|i: int|
                0 <= i < c.unacked.len() && (#[trigger] c.unacked[i]).payload.len() > 0 && (forall|j: int|
                0 <= j < i ==> (#[trigger] c.unacked[j]).payload.len() == 0) && step.segments[0].seq
                == c.unacked[i].seq && step.segments[0].payload == seq![c.unacked[i].payload[0]]
            &&& (forall|j: int| 0 <= j < c.unacked.len() ==> (#[trigger] c.unacked[j]).payload.len() == 0)
                && c.send_queue.len() > 0 ==> step.segments.len() == 1 && step.segments[0].seq
                == c.send_nxt && step.segments[0].payload == seq![c.send_queue[0]]
                && step.conn.send_queue == c.send_queue.drop_first()
        }),
{
    lemma_first_payload(c.unacked);
    if exists|j: int| 0 <= j < c.unacked.len() && (#[trigger] c.unacked[j]).payload.len() > 0 {
        let j = choose|j: int| 0 <= j < c.unacked.len() && (#[trigger] c.unacked[j]).payload.len() > 0;
        assert(c.unacked[j].payload.len() > 0);
        let i = crate::model::first_with_payload(c.unacked)->Some_0;
        assert(c.unacked[i].payload.len() > 0);
    }
}

} // verus!
