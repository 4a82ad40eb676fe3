//! Out-of-order reassembly delivers a byte stream in order: segments cut from
//! one byte string, received in any order, duplicated or lost, only ever add a
//! prefix of that string to the received bytes.

use vstd::prelude::*;

use crate::arith::{max_int, min_int, sat_add_usize, sat_sub};
use crate::laws::{receive_all, receive_one};
use crate::model::{
    ConnView, ReasmView, avail_window, drain_spec, first_ready, insert_received_spec,
    lemma_first_ready_index, lemma_reasm_bytes_nonneg, lemma_reasm_bytes_push,
    lemma_reasm_bytes_remove, lemma_reasm_filter_bytes, lemma_reasm_filter_len, reasm_bytes,
    on_remote_fin_spec, reasm_end, reasm_filter, reasm_live, receive_stream_data_spec,
};
use crate::seq::{forward, is_before, lemma_forward_seq_add, lemma_offsets, seq_add};
use crate::types::Config;
use crate::wire::{FIN_BIT, SegmentView, has_flag};

verus! {

/// `payload`, placed at `seq`, is the slice of `s` at the same distance from
/// `base`.
pub open spec fn carries(seq: u32, payload: Seq<u8>, base: u32, s: Seq<u8>) -> bool {
    let off = forward(base, seq);
    off + payload.len() <= s.len() && payload == s.subrange(off, off + payload.len())
}

/// A reassembly entry holding a slice of `s` and no FIN.
pub open spec fn chunk_of(r: ReasmView, base: u32, s: Seq<u8>) -> bool {
    !r.fin && carries(r.seq, r.payload, base, s)
}

/// A data segment without FIN carrying a slice of `s`, placed by its distance
/// from `base`.
pub open spec fn segment_of(seg: SegmentView, base: u32, s: Seq<u8>) -> bool {
    !has_flag(seg.flags, FIN_BIT) && carries(seg.seq, seg.payload, base, s)
}

/// The connection has delivered, after `q0`, exactly the first bytes of `s` up
/// to RCV.NXT (counted from `base`), and holds only slices of `s` for later.
pub open spec fn delivered_prefix<V>(c: ConnView<V>, base: u32, q0: Seq<u8>, s: Seq<u8>) -> bool {
    &&& s.len() < 0x8000_0000
    &&& forward(base, c.recv_nxt) <= s.len()
    &&& c.recv_queue == q0 + s.take(forward(base, c.recv_nxt))
    &&& forall|i: int| 0 <= i < c.reassembly.len() ==> chunk_of(#[trigger] c.reassembly[i], base, s)
}

/// Filtering keeps only live entries, and only entries that were there.
proof fn lemma_filter_chunks(rs: Seq<ReasmView>, recv_nxt: u32, base: u32, s: Seq<u8>)
    requires
        forall|i: int| 0 <= i < rs.len() ==> chunk_of(#[trigger] rs[i], base, s),
    ensures
        forall|i: int|
            0 <= i < reasm_filter(rs, recv_nxt).len() ==> chunk_of(
                #[trigger] reasm_filter(rs, recv_nxt)[i],
                base,
                s,
            ) && reasm_live(reasm_filter(rs, recv_nxt)[i], recv_nxt),
    decreases rs.len(),
{
    if rs.len() > 0 {
        let t = rs.drop_first();
        assert forall|i: int| 0 <= i < t.len() implies chunk_of(#[trigger] t[i], base, s) by {
            assert(t[i] == rs[i + 1]);
        }
        lemma_filter_chunks(t, recv_nxt, base, s);
        let f = reasm_filter(rs, recv_nxt);
        let ft = reasm_filter(t, recv_nxt);
        if reasm_live(rs[0], recv_nxt) {
            assert forall|i: int| 0 <= i < f.len() implies chunk_of(#[trigger] f[i], base, s)
                && reasm_live(f[i], recv_nxt) by {
                if i > 0 {
                    assert(f[i] == ft[i - 1]);
                }
            }
        }
    }
}

/// Delivering from reassembly keeps the delivered bytes a prefix of `s`.
#[verifier::rlimit(40)]
#[verifier::spinoff_prover]
pub proof fn lemma_drain_prefix<V>(c: ConnView<V>, now: u64, cfg: Config, base: u32, q0: Seq<u8>, s: Seq<u8>)
    requires
        delivered_prefix(c, base, q0, s),
    ensures
        delivered_prefix(drain_spec(c, now, cfg), base, q0, s),
    decreases c.reassembly.len(),
{
    let k = forward(base, c.recv_nxt);
    let kept = reasm_filter(c.reassembly, c.recv_nxt);
    lemma_reasm_filter_len(c.reassembly, c.recv_nxt);
    lemma_first_ready_index(kept, c.recv_nxt);
    lemma_filter_chunks(c.reassembly, c.recv_nxt, base, s);
    match first_ready(kept, c.recv_nxt) {
        None => {},
        Some(i) => {
            let r = kept[i];
            let a = forward(base, r.seq);
            let len = r.payload.len() as int;
            assert(chunk_of(r, base, s) && reasm_live(r, c.recv_nxt));
            lemma_offsets(base, r.seq, c.recv_nxt);
            assert(a <= k);
            let end = reasm_end(r);
            assert(end == seq_add(r.seq, len));
            lemma_forward_seq_add(base, r.seq, len);
            lemma_offsets(base, end, c.recv_nxt);
            assert(a + len > k);
            let rest = kept.remove(i);
            let trim = if is_before(r.seq, c.recv_nxt) {
                min_int(forward(r.seq, c.recv_nxt), len)
            } else {
                0
            };
            assert(trim == k - a);
            let data = r.payload.skip(trim);
            assert(data =~= s.subrange(k, a + len));
            let capacity = sat_sub(cfg.receive_buffer as int, c.recv_queue.len() as int);
            let accepted = min_int(capacity, data.len() as int);
            let nxt = seq_add(c.recv_nxt, accepted);
            lemma_forward_seq_add(base, c.recv_nxt, accepted);
            assert(forward(base, nxt) == k + accepted);
            assert(c.recv_queue + data.take(accepted) =~= q0 + s.take(k + accepted));
            assert forall|j: int| 0 <= j < rest.len() implies chunk_of(#[trigger] rest[j], base, s) by {
                if j < i {
                    assert(rest[j] == kept[j]);
                } else {
                    assert(rest[j] == kept[j + 1]);
                }
            }
            let c2 = ConnView {
                recv_queue: c.recv_queue + data.take(accepted),
                recv_nxt: nxt,
                reassembly: rest,
                ..c
            };
            assert(delivered_prefix(c2, base, q0, s));
            if accepted < data.len() {
                let left = ReasmView { seq: nxt, payload: data.skip(accepted), fin: r.fin };
                assert(left.payload =~= s.subrange(k + accepted, a + len));
                assert(chunk_of(left, base, s));
                let pushed = rest.push(left);
                assert forall|j: int| 0 <= j < pushed.len() implies chunk_of(
                    #[trigger] pushed[j],
                    base,
                    s,
                ) by {
                    if j < rest.len() {
                        assert(pushed[j] == rest[j]);
                    }
                }
            } else {
                lemma_drain_prefix(c2, now, cfg, base, q0, s);
            }
        },
    }
}

/// Storing a slice of `s` for reassembly keeps the delivered bytes a prefix of
/// `s` and every entry a slice of it.
#[verifier::rlimit(40)]
#[verifier::spinoff_prover]
pub proof fn lemma_insert_prefix<V>(c: ConnView<V>, seg: SegmentView, cfg: Config, base: u32, q0: Seq<u8>, s: Seq<u8>)
    requires
        delivered_prefix(c, base, q0, s),
        segment_of(seg, base, s),
    ensures
        delivered_prefix(insert_received_spec(c, seg.seq, seg.payload, false, cfg), base, q0, s),
{
    let k = forward(base, c.recv_nxt);
    let a = forward(base, seg.seq);
    let len = seg.payload.len() as int;
    lemma_offsets(base, seg.seq, c.recv_nxt);
    let r = insert_received_spec(c, seg.seq, seg.payload, false, cfg);
    let trimmed = is_before(seg.seq, c.recv_nxt);
    let start = if trimmed {
        c.recv_nxt
    } else {
        seg.seq
    };
    let data = if trimmed {
        if forward(seg.seq, c.recv_nxt) >= len {
            Seq::<u8>::empty()
        } else {
            seg.payload.skip(forward(seg.seq, c.recv_nxt))
        }
    } else {
        seg.payload
    };
    let o = forward(base, start);
    if trimmed {
        assert(o == k);
        if k - a >= len {
            assert(data.len() == 0);
        } else {
            assert(data =~= s.subrange(k, a + len));
        }
    } else {
        assert(o == a);
    }
    assert(o + data.len() <= s.len());
    assert(data.len() == 0 || data =~= s.subrange(o, o + data.len()));
    if r != c {
        let chunk = r.reassembly.last();
        assert(r.reassembly == c.reassembly.push(chunk));
        assert(chunk.seq == start && !chunk.fin);
        let n = chunk.payload.len() as int;
        assert(chunk.payload == data.take(n));
        assert(chunk.payload =~= s.subrange(o, o + n));
        assert(chunk_of(chunk, base, s));
        assert forall|j: int| 0 <= j < r.reassembly.len() implies chunk_of(
            #[trigger] r.reassembly[j],
            base,
            s,
        ) by {
            if j < c.reassembly.len() {
                assert(r.reassembly[j] == c.reassembly[j]);
            }
        }
    }
}

/// A reassembly entry holding a slice of `s`, with a FIN only right after the
/// end of `s`.
pub open spec fn piece_of(r: ReasmView, base: u32, s: Seq<u8>) -> bool {
    &&& carries(r.seq, r.payload, base, s)
    &&& r.fin ==> forward(base, r.seq) + r.payload.len() == s.len()
}

/// A segment of the stream `s`: what it carries is a slice of `s` placed by
/// its distance from `base`, and a FIN comes only right after the end of `s`.
pub open spec fn piece_segment(seg: SegmentView, base: u32, s: Seq<u8>) -> bool {
    &&& carries(seg.seq, seg.payload, base, s)
    &&& has_flag(seg.flags, FIN_BIT) ==> forward(base, seg.seq) + seg.payload.len() == s.len()
}

/// The bytes read (`got`) followed by the received ones are the first bytes of
/// `s` up to RCV.NXT (counted from `base`), or all of `s` once the FIN after
/// it is taken in (RCV.NXT one past its end); only pieces of `s` wait in
/// reassembly.
pub open spec fn read_prefix<V>(c: ConnView<V>, base: u32, got: Seq<u8>, s: Seq<u8>) -> bool {
    &&& s.len() < 0x7fff_ffff
    &&& forward(base, c.recv_nxt) <= s.len() + 1
    &&& got + c.recv_queue == s.take(min_int(forward(base, c.recv_nxt), s.len() as int))
    &&& forall|i: int| 0 <= i < c.reassembly.len() ==> piece_of(#[trigger] c.reassembly[i], base, s)
}

proof fn lemma_filter_pieces(rs: Seq<ReasmView>, recv_nxt: u32, base: u32, s: Seq<u8>)
    requires
        forall|i: int| 0 <= i < rs.len() ==> piece_of(#[trigger] rs[i], base, s),
    ensures
        forall|i: int|
            0 <= i < reasm_filter(rs, recv_nxt).len() ==> piece_of(
                #[trigger] reasm_filter(rs, recv_nxt)[i],
                base,
                s,
            ) && reasm_live(reasm_filter(rs, recv_nxt)[i], recv_nxt),
    decreases rs.len(),
{
    if rs.len() > 0 {
        let t = rs.drop_first();
        assert forall|i: int| 0 <= i < t.len() implies piece_of(#[trigger] t[i], base, s) by {
            assert(t[i] == rs[i + 1]);
        }
        lemma_filter_pieces(t, recv_nxt, base, s);
        let f = reasm_filter(rs, recv_nxt);
        let ft = reasm_filter(t, recv_nxt);
        if reasm_live(rs[0], recv_nxt) {
            assert forall|i: int| 0 <= i < f.len() implies piece_of(#[trigger] f[i], base, s)
                && reasm_live(f[i], recv_nxt) by {
                if i > 0 {
                    assert(f[i] == ft[i - 1]);
                }
            }
        }
    }
}

/// Delivering from reassembly keeps the bytes read and received a prefix of
/// `s`, and takes in the FIN after it.
#[verifier::rlimit(60)]
#[verifier::spinoff_prover]
proof fn lemma_drain_read_prefix<V>(c: ConnView<V>, now: u64, cfg: Config, base: u32, got: Seq<u8>, s: Seq<u8>)
    requires
        read_prefix(c, base, got, s),
    ensures
        read_prefix(drain_spec(c, now, cfg), base, got, s),
    decreases c.reassembly.len(),
{
    let k = forward(base, c.recv_nxt);
    let kept = reasm_filter(c.reassembly, c.recv_nxt);
    lemma_reasm_filter_len(c.reassembly, c.recv_nxt);
    lemma_first_ready_index(kept, c.recv_nxt);
    lemma_filter_pieces(c.reassembly, c.recv_nxt, base, s);
    match first_ready(kept, c.recv_nxt) {
        None => {},
        Some(i) => {
            let r = kept[i];
            let a = forward(base, r.seq);
            let len = r.payload.len() as int;
            let f: int = if r.fin { 1 } else { 0 };
            assert(piece_of(r, base, s) && reasm_live(r, c.recv_nxt));
            lemma_offsets(base, r.seq, c.recv_nxt);
            assert(a <= k);
            let end = reasm_end(r);
            assert(end == seq_add(r.seq, len + f));
            lemma_forward_seq_add(base, r.seq, len + f);
            lemma_offsets(base, end, c.recv_nxt);
            lemma_forward_seq_add(base, c.recv_nxt, 1);
            if !r.fin {
                assert(a + len > k);
            } else {
                assert(a + len >= k);
            }
            assert(k <= s.len());
            let rest = kept.remove(i);
            let trim = if is_before(r.seq, c.recv_nxt) {
                min_int(forward(r.seq, c.recv_nxt), len)
            } else {
                0
            };
            assert(trim == k - a);
            let data = r.payload.skip(trim);
            assert(data =~= s.subrange(k, a + len));
            let capacity = sat_sub(cfg.receive_buffer as int, c.recv_queue.len() as int);
            let accepted = min_int(capacity, data.len() as int);
            let nxt = seq_add(c.recv_nxt, accepted);
            lemma_forward_seq_add(base, c.recv_nxt, accepted);
            assert(forward(base, nxt) == k + accepted);
            assert(got + (c.recv_queue + data.take(accepted)) =~= (got + c.recv_queue) + data.take(
                accepted,
            ));
            assert(data.take(accepted) =~= s.subrange(k, k + accepted));
            assert(s.take(k) + s.subrange(k, k + accepted) =~= s.take(k + accepted));
            assert forall|j: int| 0 <= j < rest.len() implies piece_of(#[trigger] rest[j], base, s) by {
                if j < i {
                    assert(rest[j] == kept[j]);
                } else {
                    assert(rest[j] == kept[j + 1]);
                }
            }
            let c2 = ConnView {
                recv_queue: c.recv_queue + data.take(accepted),
                recv_nxt: nxt,
                reassembly: rest,
                ..c
            };
            assert(read_prefix(c2, base, got, s));
            if accepted < data.len() {
                let left = ReasmView { seq: nxt, payload: data.skip(accepted), fin: r.fin };
                assert(left.payload =~= s.subrange(k + accepted, a + len));
                assert(piece_of(left, base, s));
                let pushed = rest.push(left);
                assert forall|j: int| 0 <= j < pushed.len() implies piece_of(
                    #[trigger] pushed[j],
                    base,
                    s,
                ) by {
                    if j < rest.len() {
                        assert(pushed[j] == rest[j]);
                    }
                }
            } else if r.fin {
                assert(k + accepted == s.len());
                lemma_forward_seq_add(base, nxt, 1);
                let c3 = on_remote_fin_spec(ConnView { recv_nxt: seq_add(nxt, 1), ..c2 }, now, cfg);
                assert(c3.recv_queue == c2.recv_queue && c3.reassembly == c2.reassembly);
                assert(forward(base, c3.recv_nxt) == s.len() + 1);
                assert(read_prefix(c3, base, got, s));
                lemma_drain_read_prefix(c3, now, cfg, base, got, s);
            } else {
                lemma_drain_read_prefix(c2, now, cfg, base, got, s);
            }
        },
    }
}

/// Storing a piece of `s` keeps the bytes read and received a prefix of `s`.
#[verifier::rlimit(60)]
#[verifier::spinoff_prover]
proof fn lemma_insert_read_prefix<V>(c: ConnView<V>, seg: SegmentView, cfg: Config, base: u32, got: Seq<u8>, s: Seq<u8>)
    requires
        read_prefix(c, base, got, s),
        piece_segment(seg, base, s),
    ensures
        read_prefix(
            insert_received_spec(c, seg.seq, seg.payload, has_flag(seg.flags, FIN_BIT), cfg),
            base,
            got,
            s,
        ),
{
    let k = forward(base, c.recv_nxt);
    let a = forward(base, seg.seq);
    let len = seg.payload.len() as int;
    let fin = has_flag(seg.flags, FIN_BIT);
    lemma_offsets(base, seg.seq, c.recv_nxt);
    let res = insert_received_spec(c, seg.seq, seg.payload, fin, cfg);
    let original_end = seq_add(seg.seq, len);
    lemma_forward_seq_add(base, seg.seq, len);
    let trimmed = is_before(seg.seq, c.recv_nxt);
    let start = if trimmed {
        c.recv_nxt
    } else {
        seg.seq
    };
    let data = if trimmed {
        if forward(seg.seq, c.recv_nxt) >= len {
            Seq::<u8>::empty()
        } else {
            seg.payload.skip(forward(seg.seq, c.recv_nxt))
        }
    } else {
        seg.payload
    };
    let o = forward(base, start);
    if trimmed {
        assert(o == k);
        if k - a >= len {
            assert(data.len() == 0);
        } else {
            assert(data =~= s.subrange(k, a + len));
        }
    } else {
        assert(o == a);
    }
    if res != c {
        let chunk = res.reassembly.last();
        assert(res.reassembly == c.reassembly.push(chunk));
        assert(chunk.seq == start);
        let n = chunk.payload.len() as int;
        assert(chunk.payload == data.take(n));
        if data.len() == 0 {
            assert(chunk.fin);
            assert(original_end == seq_add(start, 0));
            lemma_forward_seq_add(base, start, 0);
            assert(o == a + len);
            assert(o <= s.len());
            assert(chunk.payload =~= s.subrange(o, o));
        } else {
            assert(o + data.len() <= s.len());
            assert(data =~= s.subrange(o, o + data.len()));
            assert(chunk.payload =~= s.subrange(o, o + n));
            if chunk.fin {
                assert(n == data.len());
                lemma_forward_seq_add(base, start, data.len() as int);
                assert(o + n == a + len);
            }
        }
        assert(piece_of(chunk, base, s));
        assert forall|j: int| 0 <= j < res.reassembly.len() implies piece_of(
            #[trigger] res.reassembly[j],
            base,
            s,
        ) by {
            if j < c.reassembly.len() {
                assert(res.reassembly[j] == c.reassembly[j]);
            }
        }
    }
}

/// Receiving a piece of `s` keeps the bytes read and received a prefix of
/// `s`; a FIN right after its end is taken in once all of `s` is.
pub proof fn lemma_receive_read_prefix<V>(c: ConnView<V>, seg: SegmentView, now: u64, cfg: Config, base: u32, got: Seq<u8>, s: Seq<u8>)
    requires
        read_prefix(c, base, got, s),
        piece_segment(seg, base, s),
    ensures
        read_prefix(receive_stream_data_spec(c, seg, now, cfg).0, base, got, s),
{
    let c1 = insert_received_spec(c, seg.seq, seg.payload, has_flag(seg.flags, FIN_BIT), cfg);
    lemma_insert_read_prefix(c, seg, cfg, base, got, s);
    lemma_drain_read_prefix(c1, now, cfg, base, got, s);
}

/// Receiving a slice of `s` keeps the delivered bytes a prefix of `s`.
pub proof fn lemma_receive_prefix<V>(c: ConnView<V>, seg: SegmentView, now: u64, cfg: Config, base: u32, q0: Seq<u8>, s: Seq<u8>)
    requires
        delivered_prefix(c, base, q0, s),
        segment_of(seg, base, s),
    ensures
        delivered_prefix(receive_one(c, seg, now, cfg), base, q0, s),
{
    reveal(receive_one);
    let c1 = insert_received_spec(c, seg.seq, seg.payload, false, cfg);
    lemma_insert_prefix(c, seg, cfg, base, q0, s);
    lemma_drain_prefix(c1, now, cfg, base, q0, s);
    assert(receive_stream_data_spec(c, seg, now, cfg).0 == drain_spec(c1, now, cfg));
}

proof fn lemma_receive_all_prefix<V>(
    c: ConnView<V>,
    segs: Seq<SegmentView>,
    now: u64,
    cfg: Config,
    base: u32,
    q0: Seq<u8>,
    s: Seq<u8>,
)
    requires
        delivered_prefix(c, base, q0, s),
        forall|i: int| 0 <= i < segs.len() ==> segment_of(#[trigger] segs[i], base, s),
    ensures
        delivered_prefix(receive_all(c, segs, now, cfg), base, q0, s),
    decreases segs.len(),
{
    if segs.len() > 0 {
        lemma_receive_prefix(c, segs[0], now, cfg, base, q0, s);
        let t = segs.drop_first();
        assert forall|i: int| 0 <= i < t.len() implies segment_of(#[trigger] t[i], base, s) by {
            assert(t[i] == segs[i + 1]);
        }
        lemma_receive_all_prefix(receive_one(c, segs[0], now, cfg), t, now, cfg, base, q0, s);
    }
}

/// Reassembly never skips, repeats or reorders a byte. Let the segments be cut
/// from one byte string `s` (shorter than half the sequence space), each placed
/// at its offset from RCV.NXT and without FIN, and let nothing wait in
/// reassembly. Whatever subset of them arrives, in whatever order and however
/// often, the bytes added to the received bytes are the first `k` bytes of `s`,
/// where `k` is how far RCV.NXT moved.
pub proof fn lemma_reassembly_delivers_prefix<V>(
    c: ConnView<V>,
    segs: Seq<SegmentView>,
    now: u64,
    cfg: Config,
    s: Seq<u8>,
)
    requires
        s.len() < 0x8000_0000,
        c.reassembly.len() == 0,
        forall|i: int| 0 <= i < segs.len() ==> segment_of(#[trigger] segs[i], c.recv_nxt, s),
    ensures
        ({
            let r = receive_all(c, segs, now, cfg);
            let k = forward(c.recv_nxt, r.recv_nxt);
            &&& k <= s.len()
            &&& r.recv_queue == c.recv_queue + s.take(k)
        }),
{
    assert(forward(c.recv_nxt, c.recv_nxt) == 0);
    assert(c.recv_queue + s.take(0) =~= c.recv_queue);
    lemma_receive_all_prefix(c, segs, now, cfg, c.recv_nxt, c.recv_queue, s);
}

// ---------------------------------------------------------------------------
// Complete delivery.
/// Where a reassembly entry starts, counted from `base`.
pub open spec fn chunk_start(r: ReasmView, base: u32) -> int {
    forward(base, r.seq)
}

/// Where a reassembly entry ends, counted from `base`.
pub open spec fn chunk_end(r: ReasmView, base: u32) -> int {
    forward(base, r.seq) + r.payload.len()
}

/// Where a segment ends, counted from `base`.
pub open spec fn seg_end(seg: SegmentView, base: u32) -> int {
    forward(base, seg.seq) + seg.payload.len()
}

/// No reassembly entry is ready: each starts after RCV.NXT.
pub open spec fn settled<V>(c: ConnView<V>, base: u32) -> bool {
    forall|i: int|
        0 <= i < c.reassembly.len() ==> chunk_start(#[trigger] c.reassembly[i], base) > forward(
            base,
            c.recv_nxt,
        )
}

/// The bytes of `seg` not yet delivered wait in one reassembly entry, which
/// starts no later than they do and ends where `seg` ends.
pub open spec fn tail_held<V>(c: ConnView<V>, seg: SegmentView, base: u32) -> bool {
    let k = forward(base, c.recv_nxt);
    ||| seg.payload.len() == 0
    ||| seg_end(seg, base) <= k
    ||| exists|r: ReasmView|
        #![trigger c.reassembly.contains(r)]
        c.reassembly.contains(r) && chunk_start(r, base) <= max_int(forward(base, seg.seq), k)
            && chunk_end(r, base) == seg_end(seg, base)
}

proof fn lemma_filter_keeps_live(rs: Seq<ReasmView>, recv_nxt: u32, r: ReasmView)
    requires
        rs.contains(r),
        reasm_live(r, recv_nxt),
    ensures
        reasm_filter(rs, recv_nxt).contains(r),
    decreases rs.len(),
{
    let f = reasm_filter(rs, recv_nxt);
    if rs[0] == r {
        assert(f[0] == r);
    } else {
        let j = choose|j: int| 0 <= j < rs.len() && rs[j] == r;
        assert(rs.drop_first()[j - 1] == r);
        lemma_filter_keeps_live(rs.drop_first(), recv_nxt, r);
        let ft = reasm_filter(rs.drop_first(), recv_nxt);
        let m = choose|m: int| 0 <= m < ft.len() && ft[m] == r;
        if reasm_live(rs[0], recv_nxt) {
            assert(f[m + 1] == r);
        } else {
            assert(f[m] == r);
        }
    }
}

/// With room for all of `s`, draining delivers every ready entry whole: RCV.NXT
/// never moves back, nothing new is held, every entry that still has bytes
/// beyond RCV.NXT is kept, and afterwards no entry is ready.
#[verifier::rlimit(60)]
#[verifier::spinoff_prover]
proof fn lemma_drain_complete<V>(c: ConnView<V>, now: u64, cfg: Config, base: u32, q0: Seq<u8>, s: Seq<u8>)
    requires
        delivered_prefix(c, base, q0, s),
        q0.len() + s.len() <= cfg.receive_buffer,
    ensures
        ({
            let d = drain_spec(c, now, cfg);
            &&& delivered_prefix(d, base, q0, s)
            &&& d.receive_capacity == c.receive_capacity
            &&& forward(base, c.recv_nxt) <= forward(base, d.recv_nxt)
            &&& reasm_bytes(d.reassembly) <= reasm_bytes(c.reassembly)
            &&& d.reassembly.len() <= c.reassembly.len()
            &&& settled(d, base)
            &&& forall|r: ReasmView|
                #![trigger c.reassembly.contains(r)]
                c.reassembly.contains(r) && chunk_end(r, base) > forward(base, d.recv_nxt)
                    ==> d.reassembly.contains(r)
        }),
    decreases c.reassembly.len(),
{
    let k = forward(base, c.recv_nxt);
    let kept = reasm_filter(c.reassembly, c.recv_nxt);
    lemma_reasm_filter_len(c.reassembly, c.recv_nxt);
    lemma_reasm_filter_bytes(c.reassembly, c.recv_nxt);
    lemma_first_ready_index(kept, c.recv_nxt);
    lemma_filter_chunks(c.reassembly, c.recv_nxt, base, s);
    lemma_drain_prefix(c, now, cfg, base, q0, s);
    assert forall|r: ReasmView| c.reassembly.contains(r) && chunk_end(r, base) > k implies #[trigger] kept.contains(r) by {
        let j = choose|j: int| 0 <= j < c.reassembly.len() && c.reassembly[j] == r;
        assert(chunk_of(c.reassembly[j], base, s));
        lemma_forward_seq_add(base, r.seq, r.payload.len() as int);
        lemma_offsets(base, reasm_end(r), c.recv_nxt);
        lemma_filter_keeps_live(c.reassembly, c.recv_nxt, r);
    }
    match first_ready(kept, c.recv_nxt) {
        None => {
            assert forall|j: int| 0 <= j < kept.len() implies chunk_start(#[trigger] kept[j], base) > k by {
                assert(chunk_of(kept[j], base, s));
                lemma_offsets(base, kept[j].seq, c.recv_nxt);
            }
        },
        Some(i) => {
            let r = kept[i];
            let a = forward(base, r.seq);
            let len = r.payload.len() as int;
            lemma_offsets(base, r.seq, c.recv_nxt);
            let end = reasm_end(r);
            lemma_forward_seq_add(base, r.seq, len);
            lemma_offsets(base, end, c.recv_nxt);
            assert(a <= k && a + len > k);
            let rest = kept.remove(i);
            let trim = if is_before(r.seq, c.recv_nxt) {
                min_int(forward(r.seq, c.recv_nxt), len)
            } else {
                0
            };
            assert(trim == k - a);
            let data = r.payload.skip(trim);
            assert(data.len() == a + len - k);
            let capacity = sat_sub(cfg.receive_buffer as int, c.recv_queue.len() as int);
            assert(c.recv_queue.len() == q0.len() + k);
            let accepted = min_int(capacity, data.len() as int);
            assert(accepted == data.len());
            let nxt = seq_add(c.recv_nxt, accepted);
            lemma_forward_seq_add(base, c.recv_nxt, accepted);
            assert(c.recv_queue + data.take(accepted) =~= q0 + s.take(k + accepted));
            assert forall|j: int| 0 <= j < rest.len() implies chunk_of(#[trigger] rest[j], base, s) by {
                if j < i {
                    assert(rest[j] == kept[j]);
                } else {
                    assert(rest[j] == kept[j + 1]);
                }
            }
            let c2 = ConnView {
                recv_queue: c.recv_queue + data.take(accepted),
                recv_nxt: nxt,
                reassembly: rest,
                ..c
            };
            assert(drain_spec(c, now, cfg) == drain_spec(c2, now, cfg));
            lemma_reasm_bytes_remove(kept, i);
            lemma_reasm_bytes_nonneg(rest);
            lemma_drain_complete(c2, now, cfg, base, q0, s);
            let d = drain_spec(c2, now, cfg);
            assert forall|x: ReasmView|
                c.reassembly.contains(x) && chunk_end(x, base) > forward(base, d.recv_nxt) implies #[trigger] d.reassembly.contains(
                x,
            ) by {
                assert(kept.contains(x));
                let j = choose|j: int| 0 <= j < kept.len() && kept[j] == x;
                assert(j != i);
                if j < i {
                    assert(rest[j] == x);
                } else {
                    assert(rest[j - 1] == x);
                }
                assert(rest.contains(x));
            }
        },
    }
}

/// The payload bytes of `segs`, duplicates counted each time.
pub open spec fn total_len(segs: Seq<SegmentView>) -> int
    decreases segs.len(),
{
    if segs.len() == 0 {
        0
    } else {
        total_len(segs.drop_last()) + segs.last().payload.len()
    }
}

/// After the segments `done` were received: the delivered bytes are a prefix of
/// `s`, what reassembly holds came from `done`, the tail of every segment of
/// `done` is delivered or held, and no held entry is ready.
pub open spec fn on_track<V>(
    c: ConnView<V>,
    done: Seq<SegmentView>,
    cfg: Config,
    base: u32,
    q0: Seq<u8>,
    s: Seq<u8>,
) -> bool {
    &&& delivered_prefix(c, base, q0, s)
    &&& c.receive_capacity == cfg.receive_buffer
    &&& reasm_bytes(c.reassembly) <= total_len(done)
    &&& c.reassembly.len() <= done.len()
    &&& settled(c, base)
    &&& forall|i: int| 0 <= i < done.len() ==> tail_held(c, #[trigger] done[i], base)
}

/// With room for `s` and for every byte received, storing a slice of `s` keeps
/// it whole (or finds it already held), so its tail is held afterwards.
#[verifier::rlimit(60)]
#[verifier::spinoff_prover]
proof fn lemma_insert_complete<V>(
    c: ConnView<V>,
    seg: SegmentView,
    done: Seq<SegmentView>,
    cfg: Config,
    base: u32,
    q0: Seq<u8>,
    s: Seq<u8>,
    total: int,
)
    requires
        on_track(c, done, cfg, base, q0, s),
        segment_of(seg, base, s),
        done.len() < cfg.max_reassembly_segments,
        total_len(done) + seg.payload.len() <= total,
        q0.len() + s.len() + total <= cfg.receive_buffer,
    ensures
        ({
            let c1 = insert_received_spec(c, seg.seq, seg.payload, false, cfg);
            &&& delivered_prefix(c1, base, q0, s)
            &&& c1.recv_nxt == c.recv_nxt
            &&& c1.receive_capacity == c.receive_capacity
            &&& reasm_bytes(c1.reassembly) <= total_len(done) + seg.payload.len()
            &&& c1.reassembly.len() <= done.len() + 1
            &&& tail_held(c1, seg, base)
            &&& forall|r: ReasmView|
                #![trigger c.reassembly.contains(r)]
                c.reassembly.contains(r) ==> c1.reassembly.contains(r)
        }),
{
    lemma_insert_prefix(c, seg, cfg, base, q0, s);
    lemma_reasm_bytes_nonneg(c.reassembly);
    let k = forward(base, c.recv_nxt);
    let a = forward(base, seg.seq);
    let len = seg.payload.len() as int;
    lemma_offsets(base, seg.seq, c.recv_nxt);
    let c1 = insert_received_spec(c, seg.seq, seg.payload, false, cfg);
    let trimmed = is_before(seg.seq, c.recv_nxt);
    let start = if trimmed {
        c.recv_nxt
    } else {
        seg.seq
    };
    let data = if trimmed {
        if forward(seg.seq, c.recv_nxt) >= len {
            Seq::<u8>::empty()
        } else {
            seg.payload.skip(forward(seg.seq, c.recv_nxt))
        }
    } else {
        seg.payload
    };
    let o = forward(base, start);
    assert(o == max_int(a, k));
    assert(data.len() == 0 || o + data.len() == a + len);
    assert(c.recv_queue.len() == q0.len() + k);
    assert(sat_add_usize(c.recv_queue.len() as int, reasm_bytes(c.reassembly)) == c.recv_queue.len() + reasm_bytes(c.reassembly));
    let window = avail_window(c);
    assert(window >= s.len() - k);
    lemma_offsets(base, c.recv_nxt, start);
    let offset = forward(c.recv_nxt, start);
    assert(offset == o - k);
    if data.len() > 0 {
        assert(offset + data.len() <= window);
        let chunk = ReasmView { seq: start, payload: data.take(data.len() as int), fin: false };
        assert(data.take(data.len() as int) =~= data);
        if c1 == c {
            let e = choose|e: int|
                0 <= e < c.reassembly.len() && #[trigger] c.reassembly[e].seq == chunk.seq
                    && reasm_end(c.reassembly[e]) == reasm_end(chunk);
            let x = c.reassembly[e];
            assert(chunk_of(x, base, s));
            lemma_forward_seq_add(base, x.seq, x.payload.len() as int);
            lemma_forward_seq_add(base, start, data.len() as int);
            assert(c.reassembly.contains(x));
            assert(chunk_end(x, base) == a + len);
        } else {
            assert(c1.reassembly == c.reassembly.push(chunk));
            assert(c1.reassembly[c.reassembly.len() as int] == chunk);
            assert(c1.reassembly.contains(chunk));
            lemma_reasm_bytes_push(c.reassembly, chunk);
        }
    } else {
        assert(c1 == c);
    }
    assert forall|r: ReasmView| c.reassembly.contains(r) implies #[trigger] c1.reassembly.contains(r) by {
        if c1 != c {
            let j = choose|j: int| 0 <= j < c.reassembly.len() && c.reassembly[j] == r;
            assert(c1.reassembly[j] == r);
        }
    }
}

/// A tail held before stays held when RCV.NXT moves forward and every entry
/// with bytes beyond it is kept.
proof fn lemma_tail_moves<V>(c: ConnView<V>, d: ConnView<V>, g: SegmentView, base: u32)
    requires
        tail_held(c, g, base),
        forward(base, c.recv_nxt) <= forward(base, d.recv_nxt),
        forall|r: ReasmView|
            #![trigger c.reassembly.contains(r)]
            c.reassembly.contains(r) && chunk_end(r, base) > forward(base, d.recv_nxt)
                ==> d.reassembly.contains(r),
    ensures
        tail_held(d, g, base),
{
    let k = forward(base, c.recv_nxt);
    if g.payload.len() > 0 && seg_end(g, base) > k && seg_end(g, base) > forward(base, d.recv_nxt) {
        let r = choose|r: ReasmView|
            #![trigger c.reassembly.contains(r)]
            c.reassembly.contains(r) && chunk_start(r, base) <= max_int(forward(base, g.seq), k)
                && chunk_end(r, base) == seg_end(g, base);
        assert(d.reassembly.contains(r));
    }
}

/// The bookkeeping of one receive: storing (`c` to `c1`) then draining (`c1` to
/// `d`) keeps the connection on track.
#[verifier::rlimit(40)]
#[verifier::spinoff_prover]
proof fn lemma_track_step<V>(
    c: ConnView<V>,
    c1: ConnView<V>,
    d: ConnView<V>,
    seg: SegmentView,
    done: Seq<SegmentView>,
    cfg: Config,
    base: u32,
    q0: Seq<u8>,
    s: Seq<u8>,
)
    requires
        on_track(c, done, cfg, base, q0, s),
        c1.recv_nxt == c.recv_nxt,
        c1.receive_capacity == c.receive_capacity,
        reasm_bytes(c1.reassembly) <= total_len(done) + seg.payload.len(),
        c1.reassembly.len() <= done.len() + 1,
        tail_held(c1, seg, base),
        forall|r: ReasmView|
            #![trigger c.reassembly.contains(r)]
            c.reassembly.contains(r) ==> c1.reassembly.contains(r),
        delivered_prefix(d, base, q0, s),
        d.receive_capacity == c1.receive_capacity,
        forward(base, c1.recv_nxt) <= forward(base, d.recv_nxt),
        reasm_bytes(d.reassembly) <= reasm_bytes(c1.reassembly),
        d.reassembly.len() <= c1.reassembly.len(),
        settled(d, base),
        forall|r: ReasmView|
            #![trigger c1.reassembly.contains(r)]
            c1.reassembly.contains(r) && chunk_end(r, base) > forward(base, d.recv_nxt)
                ==> d.reassembly.contains(r),
    ensures
        on_track(d, done.push(seg), cfg, base, q0, s),
{
    let done2 = done.push(seg);
    assert(done2.drop_last() =~= done);
    assert(total_len(done2) == total_len(done) + seg.payload.len());
    assert forall|i: int| 0 <= i < done2.len() implies tail_held(d, #[trigger] done2[i], base) by {
        if i < done.len() {
            assert(done2[i] == done[i]);
            lemma_tail_moves(c, c1, done[i], base);
            lemma_tail_moves(c1, d, done[i], base);
        } else {
            lemma_tail_moves(c1, d, seg, base);
        }
    }
}

/// `c1` is `c` after storing `seg` for reassembly.
#[verifier::opaque]
spec fn stored_as<V>(c: ConnView<V>, seg: SegmentView, cfg: Config, c1: ConnView<V>) -> bool {
    c1 == insert_received_spec(c, seg.seq, seg.payload, false, cfg)
}

/// `d` is `c1` after delivering from reassembly.
#[verifier::opaque]
spec fn drained_as<V>(c1: ConnView<V>, now: u64, cfg: Config, d: ConnView<V>) -> bool {
    d == drain_spec(c1, now, cfg)
}

proof fn insert_stage<V>(
    c: ConnView<V>,
    seg: SegmentView,
    done: Seq<SegmentView>,
    cfg: Config,
    base: u32,
    q0: Seq<u8>,
    s: Seq<u8>,
    total: int,
) -> (c1: ConnView<V>)
    requires
        on_track(c, done, cfg, base, q0, s),
        segment_of(seg, base, s),
        done.len() < cfg.max_reassembly_segments,
        total_len(done) + seg.payload.len() <= total,
        q0.len() + s.len() + total <= cfg.receive_buffer,
    ensures
        stored_as(c, seg, cfg, c1),
        delivered_prefix(c1, base, q0, s),
        c1.recv_nxt == c.recv_nxt,
        c1.receive_capacity == c.receive_capacity,
        reasm_bytes(c1.reassembly) <= total_len(done) + seg.payload.len(),
        c1.reassembly.len() <= done.len() + 1,
        tail_held(c1, seg, base),
        forall|r: ReasmView|
            #![trigger c.reassembly.contains(r)]
            c.reassembly.contains(r) ==> c1.reassembly.contains(r),
{
    lemma_insert_complete(c, seg, done, cfg, base, q0, s, total);
    reveal(stored_as);
    insert_received_spec(c, seg.seq, seg.payload, false, cfg)
}

proof fn drain_stage<V>(c1: ConnView<V>, now: u64, cfg: Config, base: u32, q0: Seq<u8>, s: Seq<u8>) -> (d: ConnView<V>)
    requires
        delivered_prefix(c1, base, q0, s),
        q0.len() + s.len() <= cfg.receive_buffer,
    ensures
        drained_as(c1, now, cfg, d),
        delivered_prefix(d, base, q0, s),
        d.receive_capacity == c1.receive_capacity,
        forward(base, c1.recv_nxt) <= forward(base, d.recv_nxt),
        reasm_bytes(d.reassembly) <= reasm_bytes(c1.reassembly),
        d.reassembly.len() <= c1.reassembly.len(),
        settled(d, base),
        forall|r: ReasmView|
            #![trigger c1.reassembly.contains(r)]
            c1.reassembly.contains(r) && chunk_end(r, base) > forward(base, d.recv_nxt)
                ==> d.reassembly.contains(r),
{
    lemma_drain_complete(c1, now, cfg, base, q0, s);
    reveal(drained_as);
    drain_spec(c1, now, cfg)
}

proof fn lemma_stages<V>(c: ConnView<V>, seg: SegmentView, now: u64, cfg: Config, c1: ConnView<V>, d: ConnView<V>)
    requires
        !has_flag(seg.flags, FIN_BIT),
        stored_as(c, seg, cfg, c1),
        drained_as(c1, now, cfg, d),
    ensures
        receive_one(c, seg, now, cfg) == d,
{
    reveal(receive_one);
    reveal(stored_as);
    reveal(drained_as);
}

/// Receiving one more slice of `s` keeps the connection on track.
proof fn lemma_receive_complete<V>(
    c: ConnView<V>,
    seg: SegmentView,
    done: Seq<SegmentView>,
    now: u64,
    cfg: Config,
    base: u32,
    q0: Seq<u8>,
    s: Seq<u8>,
    total: int,
)
    requires
        on_track(c, done, cfg, base, q0, s),
        segment_of(seg, base, s),
        done.len() < cfg.max_reassembly_segments,
        total_len(done) + seg.payload.len() <= total,
        q0.len() + s.len() + total <= cfg.receive_buffer,
    ensures
        on_track(receive_one(c, seg, now, cfg), done.push(seg), cfg, base, q0, s),
{
    lemma_total_len_nonneg(done);
    let c1 = insert_stage(c, seg, done, cfg, base, q0, s, total);
    let d = drain_stage(c1, now, cfg, base, q0, s);
    lemma_track_step(c, c1, d, seg, done, cfg, base, q0, s);
    lemma_stages(c, seg, now, cfg, c1, d);
}

proof fn lemma_receive_all_complete<V>(
    c: ConnView<V>,
    segs: Seq<SegmentView>,
    done: Seq<SegmentView>,
    now: u64,
    cfg: Config,
    base: u32,
    q0: Seq<u8>,
    s: Seq<u8>,
    total: int,
)
    requires
        on_track(c, done, cfg, base, q0, s),
        forall|i: int| 0 <= i < segs.len() ==> segment_of(#[trigger] segs[i], base, s),
        done.len() + segs.len() <= cfg.max_reassembly_segments,
        total_len(done + segs) <= total,
        q0.len() + s.len() + total <= cfg.receive_buffer,
    ensures
        on_track(receive_all(c, segs, now, cfg), done + segs, cfg, base, q0, s),
    decreases segs.len(),
{
    if segs.len() == 0 {
        assert(done + segs =~= done);
    } else {
        let seg = segs[0];
        let rest = segs.drop_first();
        let done2 = done.push(seg);
        assert(done2 + rest =~= done + segs);
        assert(done2.drop_last() =~= done);
        lemma_total_len_prefix(done + segs, done2.len() as int);
        assert((done + segs).take(done2.len() as int) =~= done2);
        lemma_receive_complete(c, seg, done, now, cfg, base, q0, s, total);
        assert forall|i: int| 0 <= i < rest.len() implies segment_of(#[trigger] rest[i], base, s) by {
            assert(rest[i] == segs[i + 1]);
        }
        lemma_receive_all_complete(receive_one(c, seg, now, cfg), rest, done2, now, cfg, base, q0, s, total);
    }
}

proof fn lemma_total_len_nonneg(segs: Seq<SegmentView>)
    ensures
        total_len(segs) >= 0,
    decreases segs.len(),
{
    if segs.len() > 0 {
        lemma_total_len_nonneg(segs.drop_last());
    }
}

proof fn lemma_total_len_prefix(segs: Seq<SegmentView>, n: int)
    requires
        0 <= n <= segs.len(),
    ensures
        total_len(segs.take(n)) <= total_len(segs),
    decreases segs.len(),
{
    if n < segs.len() {
        assert(segs.drop_last().take(n) =~= segs.take(n));
        lemma_total_len_prefix(segs.drop_last(), n);
    } else {
        assert(segs.take(n) =~= segs);
    }
}

/// Some segment of `segs` holds the byte at distance `x` from `base`.
pub open spec fn covered(segs: Seq<SegmentView>, base: u32, x: int) -> bool {
    exists|i: int| 0 <= i < segs.len() && forward(base, (#[trigger] segs[i]).seq) <= x < seg_end(segs[i], base)
}

/// Segments cut from one byte string and covering it are delivered in full,
/// once each byte and in order, whatever order they arrive in and however
/// often. Let each segment carry, without FIN, the slice of `s` at its distance
/// from RCV.NXT; let every byte of `s` lie in some segment; let nothing wait in
/// reassembly; let the receive buffer have room for the bytes already queued,
/// for `s`, and for every payload byte of the segments (duplicates counted);
/// and let there be no more segments than the reassembly limit. Then receiving
/// them in the given order appends exactly `s` to the received bytes and moves
/// RCV.NXT past it.
pub proof fn lemma_reassembly_delivers_all<V>(
    c: ConnView<V>,
    segs: Seq<SegmentView>,
    now: u64,
    cfg: Config,
    s: Seq<u8>,
)
    requires
        s.len() < 0x8000_0000,
        c.reassembly.len() == 0,
        c.receive_capacity == cfg.receive_buffer,
        forall|i: int| 0 <= i < segs.len() ==> segment_of(#[trigger] segs[i], c.recv_nxt, s),
        forall|x: int| 0 <= x < s.len() ==> #[trigger] covered(segs, c.recv_nxt, x),
        segs.len() <= cfg.max_reassembly_segments,
        c.recv_queue.len() + s.len() + total_len(segs) <= cfg.receive_buffer,
    ensures
        receive_all(c, segs, now, cfg).recv_queue == c.recv_queue + s,
        receive_all(c, segs, now, cfg).recv_nxt == seq_add(c.recv_nxt, s.len() as int),
{
    let base = c.recv_nxt;
    let q0 = c.recv_queue;
    assert(forward(base, base) == 0);
    assert(q0 + s.take(0) =~= q0);
    assert(reasm_bytes(c.reassembly) == 0);
    assert(on_track(c, Seq::empty(), cfg, base, q0, s));
    assert(Seq::<SegmentView>::empty() + segs =~= segs);
    lemma_receive_all_complete(c, segs, Seq::empty(), now, cfg, base, q0, s, total_len(segs));
    let d = receive_all(c, segs, now, cfg);
    let k = forward(base, d.recv_nxt);
    if k < s.len() {
        assert(covered(segs, base, k));
        let i = choose|i: int|
            0 <= i < segs.len() && forward(base, (#[trigger] segs[i]).seq) <= k < seg_end(segs[i], base);
        assert(tail_held(d, segs[i], base));
        let r = choose|r: ReasmView|
            #![trigger d.reassembly.contains(r)]
            d.reassembly.contains(r) && chunk_start(r, base) <= max_int(forward(base, segs[i].seq), k)
                && chunk_end(r, base) == seg_end(segs[i], base);
        let j = choose|j: int| 0 <= j < d.reassembly.len() && d.reassembly[j] == r;
        assert(chunk_start(d.reassembly[j], base) > k);
        assert(false);
    }
    assert(s.take(s.len() as int) =~= s);
    lemma_forward_seq_add(base, base, s.len() as int);
    lemma_offsets(base, d.recv_nxt, seq_add(base, s.len() as int));
}

} // verus!
