//! Sequences of calls on a stack, and the laws that hold over them.
//!
//! Every operation of `Stack` promises in its contract that its result and the
//! stack's new view are `step_call` of the view before it (`write_with_marker`
//! changes the view as `write` does, `rollback_connect` as `close`), so what a
//! stack does under a sequence of calls is `run` of its first view.

use vstd::prelude::*;

use crate::model::{
    ConnView, apply_ack_spec, close_spec, drain_spec, fin_acked_step, first_ready,
    flush_loop_spec, flush_spec, lemma_first_ready_index, lemma_reasm_filter_len, on_remote_fin_spec,
    on_segment_spec, poll_spec, read_spec, reasm_filter, receive_stream_data_spec, write_spec,
};
use crate::stack_model::{
    StackView, apply_step, abort_spec, emit_spec, fresh_id, find_id, find_key, has_capacity, ids_distinct,
    input_new_spec, lemma_find_id_some, lemma_find_key_some, lemma_fresh_id_is_free, next_id, poll_conns,
    has_key, remove_at, accept_scan, accepts_without_port, connect_spec, input_spec,
    listen_spec, new_stack_spec, stack_close_spec, stack_poll_spec, stack_read_spec,
    stack_write_spec, without_port,
};
use crate::arith::{min_int, sat_sub};
use crate::seq::{forward, is_before, seq_add};
use crate::types::{Config, StackError, State};
use crate::wire::SegmentView;

verus! {

/// One call on a stack, by the arguments its view depends on.
pub enum Call<V> {
    Listen { port: u16 },
    CloseListener { port: u16 },
    Connect { peer: V, remote_port: u16, now: u64 },
    Input { peer: V, bytes: Seq<u8>, now: u64 },
    Poll { now: u64 },
    Write { id: u64, bytes: Seq<u8>, now: u64 },
    Read { id: u64, max: usize },
    Close { id: u64, now: u64 },
    Abort { id: u64 },
    Accept { port: u16 },
    DrainOutbound,
}

/// What a call returns.
pub enum Reply<V> {
    Done(Result<(), StackError>),
    Opened(Result<u64, StackError>),
    Wrote(Result<usize, StackError>),
    Got(Result<Seq<u8>, StackError>),
    Accepted(Option<u64>),
    Datagrams(Seq<(V, Seq<u8>)>),
    Nothing,
}

/// One call: the stack after it and its reply.
pub open spec fn step_call<V>(s: StackView<V>, call: Call<V>) -> (StackView<V>, Reply<V>) {
    match call {
        Call::Listen { port } => {
            let (t, r) = listen_spec(s, port);
            (t, Reply::Done(r))
        },
        Call::CloseListener { port } => (
            StackView {
                listeners: without_port(s.listeners, port),
                accepts: accepts_without_port(s.accepts, port),
                ..s
            },
            Reply::Nothing,
        ),
        Call::Connect { peer, remote_port, now } => {
            let (t, r) = connect_spec(s, peer, remote_port, now);
            (t, Reply::Opened(r))
        },
        Call::Input { peer, bytes, now } => {
            let (t, r) = input_spec(s, peer, bytes, now);
            (t, Reply::Done(r))
        },
        Call::Poll { now } => (stack_poll_spec(s, now), Reply::Nothing),
        Call::Write { id, bytes, now } => {
            let (t, r) = stack_write_spec(s, id, bytes, now);
            (t, Reply::Wrote(r))
        },
        Call::Read { id, max } => {
            let (t, r) = stack_read_spec(s, id, max);
            (t, Reply::Got(r))
        },
        Call::Close { id, now } => {
            let (t, r) = stack_close_spec(s, id, now);
            (t, Reply::Done(r))
        },
        Call::Abort { id } => {
            let (t, r) = abort_spec(s, id);
            (t, Reply::Done(r))
        },
        Call::Accept { port } => {
            let (rest, r) = accept_scan(s.accepts, port, s.ids);
            (StackView { accepts: rest, ..s }, Reply::Accepted(r))
        },
        Call::DrainOutbound => (
            StackView { outbound: Seq::empty(), ..s },
            Reply::Datagrams(s.outbound),
        ),
    }
}

/// The calls in order: the stack after the last and every reply.
pub open spec fn run<V>(s: StackView<V>, calls: Seq<Call<V>>) -> (StackView<V>, Seq<Reply<V>>)
    decreases calls.len(),
{
    if calls.len() == 0 {
        (s, Seq::empty())
    } else {
        let (t, r) = step_call(s, calls[0]);
        let (u, rs) = run(t, calls.drop_first());
        (u, seq![r] + rs)
    }
}

/// Running two sequences one after the other is running them joined.
pub proof fn lemma_run_join<V>(s: StackView<V>, a: Seq<Call<V>>, b: Seq<Call<V>>)
    ensures
        run(s, a + b) == ({
            let (t, ra) = run(s, a);
            let (u, rb) = run(t, b);
            (u, ra + rb)
        }),
    decreases a.len(),
{
    if a.len() == 0 {
        assert(a + b =~= b);
        assert(Seq::<Reply<V>>::empty() + run(s, b).1 =~= run(s, b).1);
    } else {
        let (t, r) = step_call(s, a[0]);
        assert((a + b).drop_first() =~= a.drop_first() + b);
        lemma_run_join(t, a.drop_first(), b);
        let (t2, ra2) = run(t, a.drop_first());
        let (u, rb) = run(t2, b);
        assert(seq![r] + (ra2 + rb) =~= (seq![r] + ra2) + rb);
    }
}

/// A stack is determined by its configuration, its seed and the calls made on
/// it: two stacks built from the same configuration and seed give the same
/// replies, queue the same datagrams and end in the same state under the same
/// calls, and a zero seed behaves exactly as seed one.
pub proof fn lemma_runs_agree<V>(config: Config, seed_a: u64, seed_b: u64, calls: Seq<Call<V>>)
    requires
        seed_a == seed_b || (seed_a <= 1 && seed_b <= 1),
    ensures
        run(new_stack_spec::<V>(config, seed_a), calls) == run(
            new_stack_spec::<V>(config, seed_b),
            calls,
        ),
{
    assert(new_stack_spec::<V>(config, seed_a) == new_stack_spec::<V>(config, seed_b));
}

/// A connection whose close was asked for: the close is still pending, or
/// its FIN is sent (FIN-WAIT-1, FIN-WAIT-2, CLOSING, TIME-WAIT, LAST-ACK).
pub open spec fn closing<V>(c: ConnView<V>) -> bool {
    ||| c.close_requested
    ||| c.state == State::FinWait1
    ||| c.state == State::FinWait2
    ||| c.state == State::Closing
    ||| c.state == State::TimeWait
    ||| c.state == State::LastAck
}

proof fn lemma_flush_loop_state<V>(c: ConnView<V>, now: u64)
    ensures
        flush_loop_spec(c, now).0.state == c.state,
        flush_loop_spec(c, now).0.close_requested == c.close_requested,
        flush_loop_spec(c, now).0.recv_queue == c.recv_queue,
        flush_loop_spec(c, now).0.recv_nxt == c.recv_nxt,
        flush_loop_spec(c, now).0.reassembly == c.reassembly,
    decreases c.send_queue.len(),
{
    let available = crate::model::send_allowance(c);
    let count = min_int(min_int(available, c.mss as int), c.send_queue.len() as int);
    if available == 0 || c.send_queue.len() == 0 || count <= 0 {
    } else {
        let c1 = ConnView { send_queue: c.send_queue.skip(count), ..c };
        let (c2, seg) = crate::model::send_tracked_spec(
            c1,
            crate::wire::ACK_BIT | crate::wire::PSH_BIT,
            c.send_queue.take(count),
            now,
        );
        lemma_flush_loop_state(c2, now);
    }
}

proof fn lemma_flush_closing<V>(c: ConnView<V>, now: u64)
    requires
        closing(c),
    ensures
        closing(flush_spec(c, now).0),
{
    lemma_flush_loop_state(c, now);
}

proof fn lemma_drain_closing<V>(c: ConnView<V>, now: u64, cfg: Config)
    requires
        closing(c),
    ensures
        closing(drain_spec(c, now, cfg)),
    decreases c.reassembly.len(),
{
    let kept = reasm_filter(c.reassembly, c.recv_nxt);
    lemma_reasm_filter_len(c.reassembly, c.recv_nxt);
    lemma_first_ready_index(kept, c.recv_nxt);
    match first_ready(kept, c.recv_nxt) {
        None => {},
        Some(i) => {
            let s = kept[i];
            let rest = kept.remove(i);
            let trim = if is_before(s.seq, c.recv_nxt) {
                min_int(forward(s.seq, c.recv_nxt), s.payload.len() as int)
            } else {
                0
            };
            let data = s.payload.skip(trim);
            let capacity = sat_sub(cfg.receive_buffer as int, c.recv_queue.len() as int);
            let accepted = min_int(capacity, data.len() as int);
            let nxt = seq_add(c.recv_nxt, accepted);
            let c2 = ConnView {
                recv_queue: c.recv_queue + data.take(accepted),
                recv_nxt: nxt,
                reassembly: rest,
                ..c
            };
            if accepted < data.len() {
            } else if s.fin {
                lemma_drain_closing(
                    on_remote_fin_spec(ConnView { recv_nxt: seq_add(nxt, 1), ..c2 }, now, cfg),
                    now,
                    cfg,
                );
            } else {
                lemma_drain_closing(c2, now, cfg);
            }
        },
    }
}

proof fn lemma_receive_closing<V>(c: ConnView<V>, seg: SegmentView, now: u64, cfg: Config)
    requires
        closing(c),
    ensures
        closing(receive_stream_data_spec(c, seg, now, cfg).0),
{
    let c1 = crate::model::insert_received_spec(
        c,
        seg.seq,
        seg.payload,
        crate::wire::has_flag(seg.flags, crate::wire::FIN_BIT),
        cfg,
    );
    assert(c1.state == c.state && c1.close_requested == c.close_requested);
    lemma_drain_closing(c1, now, cfg);
}

proof fn lemma_apply_ack_state<V>(c: ConnView<V>, ack: u32, now: u64, duplicate: bool)
    ensures
        apply_ack_spec(c, ack, now, duplicate).0.state == c.state,
        apply_ack_spec(c, ack, now, duplicate).0.close_requested == c.close_requested,
{
}

/// A close, once asked for, is never taken back: every later step of the
/// connection (an incoming segment, a poll, a read, another close) leaves it
/// closing, and every write to it is refused with its state.
pub proof fn lemma_closing_kept<V>(
    c: ConnView<V>,
    seg: SegmentView,
    bytes: Seq<u8>,
    max: int,
    now: u64,
    cfg: Config,
)
    requires
        closing(c),
    ensures
        closing(on_segment_spec(c, seg, now, cfg).conn),
        closing(poll_spec(c, now, cfg).conn),
        closing(read_spec(c, max).0),
        closing(close_spec(c, now).conn),
        write_spec(c, bytes, now, cfg) == Err::<(ConnView<V>, int, Seq<SegmentView>), State>(
            c.state,
        ),
{
    lemma_on_segment_closing(c, seg, now, cfg);
    lemma_poll_closing(c, now, cfg);
    lemma_flush_closing(ConnView { close_requested: true, ..c }, now);
}

proof fn lemma_poll_closing<V>(c: ConnView<V>, now: u64, cfg: Config)
    requires
        closing(c),
    ensures
        closing(poll_spec(c, now, cfg).conn),
{
    lemma_flush_closing(c, now);
    if c.unacked.len() > 0 {
        let c1 = ConnView {
            reno: crate::reno::reno_on_timeout(c.reno, forward(c.send_una, c.send_nxt)),
            rtt: crate::rtt::rtt_on_timeout(c.rtt),
            ..c
        };
        let (c2, r) = crate::model::retransmit_oldest_spec(c1, now, true);
        lemma_flush_closing(c2, now);
    }
}

#[verifier::rlimit(40)]
#[verifier::spinoff_prover]
proof fn lemma_on_segment_closing<V>(c: ConnView<V>, seg: SegmentView, now: u64, cfg: Config)
    requires
        closing(c),
    ensures
        closing(on_segment_spec(c, seg, now, cfg).conn),
{
    if crate::wire::has_flag(seg.flags, crate::wire::RST_BIT) {
    } else if c.state == State::SynSent {
    } else if c.state == State::SynReceived {
        if seg.ack == Some(c.send_nxt) {
            let (c1, _, _) = apply_ack_spec(c, c.send_nxt, now, false);
            lemma_apply_ack_state(c, c.send_nxt, now, false);
            let c2 = ConnView {
                state: State::Established,
                ..crate::model::update_remote_window_spec(c1, seg.window, now)
            };
            assert(closing(c2));
            lemma_receive_closing(c2, seg, now, cfg);
            lemma_flush_closing(c2, now);
            if crate::model::carries_data(seg) {
                let (cr, a) = receive_stream_data_spec(c2, seg, now, cfg);
                lemma_flush_closing(cr, now);
            }
        }
    } else {
        match seg.ack {
            None => {
                assert(closing(c));
            },
            Some(ack) => {
                let duplicate = ack == c.send_una && seg.payload.len() == 0;
                lemma_apply_ack_state(c, ack, now, duplicate);
                let (ca, fin_acked, retransmit) = apply_ack_spec(c, ack, now, duplicate);
                let cb = if fin_acked {
                    fin_acked_step(ca, now, cfg)
                } else {
                    ca
                };
                assert(closing(cb));
            },
        }
        let c1 = match seg.ack {
            None => c,
            Some(ack) => {
                let duplicate = ack == c.send_una && seg.payload.len() == 0;
                let (ca, fin_acked, retransmit) = apply_ack_spec(c, ack, now, duplicate);
                if fin_acked && ca.state == State::LastAck {
                    ca
                } else {
                    let cb = if fin_acked {
                        fin_acked_step(ca, now, cfg)
                    } else {
                        ca
                    };
                    if crate::seq::in_closed(ack, cb.send_una, cb.send_nxt) {
                        crate::model::update_remote_window_spec(cb, seg.window, now)
                    } else {
                        cb
                    }
                }
            },
        };
        assert(closing(c1));
        lemma_receive_closing(c1, seg, now, cfg);
        lemma_flush_closing(c1, now);
        if crate::model::carries_data(seg) {
            let (cr, a) = receive_stream_data_spec(c1, seg, now, cfg);
            lemma_flush_closing(cr, now);
        }
    }
}

/// `closing` as a predicate on connections.
pub open spec fn closing_fn<V>() -> spec_fn(ConnView<V>) -> bool {
    |c: ConnView<V>| closing(c)
}

/// Every retained connection with id `id` is closing.
pub open spec fn closing_at<V>(ids: Seq<u64>, conns: Seq<ConnView<V>>, id: u64) -> bool {
    holds_at(ids, conns, id, closing_fn())
}

/// The ids of a stack: one per connection, no two alike, the next one non-zero.
pub open spec fn ids_sound<V>(s: StackView<V>) -> bool {
    &&& s.ids.len() == s.conns.len()
    &&& ids_distinct(s.ids)
    &&& s.next_connection_id >= 1
}

/// Every connection a poll keeps is the polled state of one it had, under the
/// same id; the kept ids stay distinct.
#[verifier::rlimit(40)]
#[verifier::spinoff_prover]
proof fn lemma_poll_conns_origin<V>(ids: Seq<u64>, conns: Seq<ConnView<V>>, now: u64, cfg: Config)
    requires
        ids.len() == conns.len(),
        ids_distinct(ids),
    ensures
        ({
            let r = poll_conns(ids, conns, now, cfg);
            &&& r.0.len() == r.1.len()
            &&& ids_distinct(r.0)
            &&& forall|m: int|
                #![trigger r.0[m]]
                0 <= m < r.0.len() ==> exists|j: int|
                    0 <= j < ids.len() && ids[j] == r.0[m] && r.1[m] == poll_spec(
                        #[trigger] conns[j],
                        now,
                        cfg,
                    ).conn
        }),
    decreases conns.len(),
{
    if conns.len() > 0 {
        let t = ids.drop_first();
        let tc = conns.drop_first();
        assert forall|a: int, b: int| 0 <= a < t.len() && 0 <= b < t.len() && a != b implies t[a] != t[b] by {
            assert(t[a] == ids[a + 1] && t[b] == ids[b + 1]);
        }
        lemma_poll_conns_origin(t, tc, now, cfg);
        let rest = poll_conns(t, tc, now, cfg);
        let r = poll_conns(ids, conns, now, cfg);
        assert forall|m: int| #![trigger rest.0[m]] 0 <= m < rest.0.len() implies rest.0[m] != ids[0] && exists|j: int|
            0 <= j < ids.len() && ids[j] == rest.0[m] && rest.1[m] == poll_spec(
                #[trigger] conns[j],
                now,
                cfg,
            ).conn by {
            let j = choose|j: int|
                0 <= j < t.len() && t[j] == rest.0[m] && rest.1[m] == poll_spec(
                    #[trigger] tc[j],
                    now,
                    cfg,
                ).conn;
            assert(t[j] == ids[j + 1] && tc[j] == conns[j + 1]);
        }
        if !poll_spec(conns[0], now, cfg).closed {
            assert forall|m: int| #![trigger r.0[m]] 0 <= m < r.0.len() implies exists|j: int|
                0 <= j < ids.len() && ids[j] == r.0[m] && r.1[m] == poll_spec(
                    #[trigger] conns[j],
                    now,
                    cfg,
                ).conn by {
                if m == 0 {
                    assert(ids[0] == r.0[0] && r.1[0] == poll_spec(conns[0], now, cfg).conn);
                } else {
                    assert(r.0[m] == rest.0[m - 1] && r.1[m] == rest.1[m - 1]);
                }
            }
            assert forall|a: int, b: int| 0 <= a < r.0.len() && 0 <= b < r.0.len() && a != b implies r.0[a]
                != r.0[b] by {
                if a == 0 {
                    assert(r.0[b] == rest.0[b - 1]);
                } else if b == 0 {
                    assert(r.0[a] == rest.0[a - 1]);
                } else {
                    assert(r.0[a] == rest.0[a - 1] && r.0[b] == rest.0[b - 1]);
                }
            }
        }
    }
}

#[verifier::spinoff_prover]
proof fn lemma_stack_poll_closing<V>(s: StackView<V>, now: u64, id: u64)
    requires
        ids_sound(s),
        closing_at(s.ids, s.conns, id),
    ensures
        ids_sound(stack_poll_spec(s, now)),
        closing_at(stack_poll_spec(s, now).ids, stack_poll_spec(s, now).conns, id),
{
    let t = stack_poll_spec(s, now);
    lemma_poll_conns_origin(s.ids, s.conns, now, s.config);
    assert forall|m: int| #![trigger t.ids[m]] 0 <= m < t.ids.len() && t.ids[m] == id implies closing(
        t.conns[m],
    ) by {
        let j = choose|j: int|
            0 <= j < s.ids.len() && s.ids[j] == t.ids[m] && t.conns[m] == poll_spec(
                #[trigger] s.conns[j],
                now,
                s.config,
            ).conn;
        assert(s.ids[j] == id);
        lemma_poll_closing(s.conns[j], now, s.config);
    }
}

#[verifier::spinoff_prover]
proof fn lemma_input_closing<V>(s: StackView<V>, peer: V, bytes: Seq<u8>, now: u64, id: u64)
    requires
        ids_sound(s),
        s.ids.contains(id),
        closing_at(s.ids, s.conns, id),
    ensures
        ids_sound(input_spec(s, peer, bytes, now).0),
        closing_at(input_spec(s, peer, bytes, now).0.ids, input_spec(s, peer, bytes, now).0.conns, id),
{
    match crate::wire::decode_spec(bytes) {
        Err(e) => {},
        Ok(seg) => {
            lemma_find_key_some(s.conns, peer, seg.dst_port, seg.src_port);
            match find_key(s.conns, peer, seg.dst_port, seg.src_port) {
                Some(k) => {
                    let step = on_segment_spec(s.conns[k], seg, now, s.config);
                    if s.ids[k] == id {
                        lemma_closing_kept(s.conns[k], seg, Seq::empty(), 0, now, s.config);
                    }
                    lemma_update_holds(s, k, step.conn, id, closing_fn());
                    lemma_apply_step_holds(s, k, step, id, closing_fn());
                },
                None => {
                    let t = input_new_spec(s, peer, seg, now).0;
                    if crate::wire::has_flag(seg.flags, crate::wire::SYN_BIT) && !crate::wire::has_flag(
                        seg.flags,
                        crate::wire::ACK_BIT,
                    ) && s.listeners.contains(seg.dst_port) && crate::wire::announces_version(
                        seg.options,
                        crate::wire::FIPS_VERSION,
                    ) && has_capacity(s, peer) {
                        let (state, isn) = crate::stack_model::next_isn_spec(s.isn_state);
                        let (c, syn_ack) = crate::model::server_spec(
                            peer,
                            seg,
                            isn,
                            now,
                            s.next_token,
                            s.config,
                        );
                        assert(c.peer == peer);
                        lemma_push_holds(s, c, id, closing_fn());
                    }
                },
            }
        },
    }
}

#[verifier::rlimit(60)]
#[verifier::spinoff_prover]
proof fn lemma_step_closing<V>(s: StackView<V>, call: Call<V>, id: u64)
    requires
        ids_sound(s),
        s.ids.contains(id),
        closing_at(s.ids, s.conns, id),
    ensures
        ids_sound(step_call(s, call).0),
        closing_at(step_call(s, call).0.ids, step_call(s, call).0.conns, id),
        call matches Call::Write { id: x, .. } && x == id ==> step_call(s, call).1 matches Reply::Wrote(
            Err(StackError::InvalidState(_)),
        ),
{
    match call {
        Call::Connect { peer, remote_port, now } => {
            lemma_connect_holds(s, peer, remote_port, now, id, closing_fn());
        },
        Call::Input { peer, bytes, now } => {
            lemma_input_closing(s, peer, bytes, now, id);
        },
        Call::Poll { now } => {
            lemma_stack_poll_closing(s, now, id);
        },
        Call::Write { id: x, bytes, now } => {
            lemma_find_id_some(s.ids, x);
            if let Some(k) = find_id(s.ids, x) {
                if x == id {
                    lemma_closing_kept(s.conns[k], vstd::pervasive::arbitrary::<SegmentView>(), bytes, 0, now, s.config);
                } else if let Ok((c, n, segs)) = write_spec(s.conns[k], bytes, now, s.config) {
                    lemma_update_holds(s, k, c, id, closing_fn());
                }
            }
        },
        Call::Read { id: x, max } => {
            lemma_find_id_some(s.ids, x);
            if let Some(k) = find_id(s.ids, x) {
                if x == id {
                    lemma_closing_kept(s.conns[k], vstd::pervasive::arbitrary::<SegmentView>(), Seq::empty(), max as int, 0, s.config);
                }
                lemma_update_holds(s, k, read_spec(s.conns[k], max as int).0, id, closing_fn());
            }
        },
        Call::Close { id: x, now } => {
            lemma_find_id_some(s.ids, x);
            if let Some(k) = find_id(s.ids, x) {
                if x == id {
                    lemma_closing_kept(s.conns[k], vstd::pervasive::arbitrary::<SegmentView>(), Seq::empty(), 0, now, s.config);
                }
                lemma_update_holds(s, k, close_spec(s.conns[k], now).conn, id, closing_fn());
                lemma_apply_step_holds(s, k, close_spec(s.conns[k], now), id, closing_fn());
            }
        },
        Call::Abort { id: x } => {
            lemma_find_id_some(s.ids, x);
            if let Some(k) = find_id(s.ids, x) {
                let c = s.conns[k];
                if let Ok(reset) = crate::wire::encode_spec(crate::model::reset_segment_spec(c)) {
                    let kept = crate::stack_model::without_tuple(s.outbound, c.peer, c.local_port, c.remote_port);
                    lemma_remove_holds(StackView { outbound: kept.push((c.peer, reset)), ..s }, k, id, closing_fn());
                }
            }
        },
        _ => {},
    }
}

/// Over the calls that follow, every write to connection `id` is refused with
/// its state for as long as the connection is retained.
pub open spec fn writes_refused<V>(s: StackView<V>, id: u64, calls: Seq<Call<V>>) -> bool
    decreases calls.len(),
{
    if calls.len() == 0 || !s.ids.contains(id) {
        true
    } else {
        let (t, r) = step_call(s, calls[0]);
        &&& (calls[0] matches Call::Write { id: x, .. } && x == id ==> r matches Reply::Wrote(
            Err(StackError::InvalidState(_)),
        ))
        &&& writes_refused(t, id, calls.drop_first())
    }
}

proof fn lemma_writes_refused<V>(s: StackView<V>, id: u64, calls: Seq<Call<V>>)
    requires
        ids_sound(s),
        closing_at(s.ids, s.conns, id),
    ensures
        writes_refused(s, id, calls),
    decreases calls.len(),
{
    if calls.len() > 0 && s.ids.contains(id) {
        lemma_step_closing(s, calls[0], id);
        lemma_writes_refused(step_call(s, calls[0]).0, id, calls.drop_first());
    }
}

/// A close is final. Closing an ESTABLISHED or CLOSE-WAIT connection leaves it
/// closing, and whatever calls follow (segments from the peer, polls, reads,
/// other connections' traffic, another close), every write to it is refused
/// for as long as it is retained; its queued bytes all go out before its FIN
/// (`lemma_fin_follows_data`).
pub proof fn lemma_close_refuses_later_writes<V>(s: StackView<V>, id: u64, now: u64, calls: Seq<Call<V>>)
    requires
        crate::stack_model::stack_laws(s),
        find_id(s.ids, id) matches Some(i) && (s.conns[i].state == State::Established
            || s.conns[i].state == State::CloseWait),
    ensures
        closing_at(stack_close_spec(s, id, now).0.ids, stack_close_spec(s, id, now).0.conns, id),
        writes_refused(stack_close_spec(s, id, now).0, id, calls),
{
    lemma_find_id_some(s.ids, id);
    let i = find_id(s.ids, id)->Some_0;
    let c = s.conns[i];
    lemma_flush_closing(ConnView { close_requested: true, ..c }, now);
    let c2 = close_spec(c, now).conn;
    assert forall|j: int| #![trigger s.ids[j]] 0 <= j < s.ids.len() && s.ids[j] == id implies closing(
        s.conns.update(i, c2)[j],
    ) by {
        assert(j == i);
    }
    lemma_apply_step_holds(s, i, close_spec(c, now), id, closing_fn());
    lemma_writes_refused(stack_close_spec(s, id, now).0, id, calls);
}

/// A connection past its handshake.
pub open spec fn synchronized<V>(c: ConnView<V>) -> bool {
    c.state != State::SynSent && c.state != State::SynReceived
}

/// `a` holds the same received bytes, RCV.NXT and reassembly entries as `b`.
pub open spec fn same_receive<V>(a: ConnView<V>, b: ConnView<V>) -> bool {
    a.recv_queue == b.recv_queue && a.recv_nxt == b.recv_nxt && a.reassembly == b.reassembly
}

proof fn lemma_flush_receive<V>(c: ConnView<V>, now: u64)
    requires
        synchronized(c),
    ensures
        same_receive(flush_spec(c, now).0, c),
        synchronized(flush_spec(c, now).0),
{
    lemma_flush_loop_state(c, now);
}

proof fn lemma_drain_synchronized<V>(c: ConnView<V>, now: u64, cfg: Config)
    requires
        synchronized(c),
    ensures
        synchronized(drain_spec(c, now, cfg)),
    decreases c.reassembly.len(),
{
    let kept = reasm_filter(c.reassembly, c.recv_nxt);
    lemma_reasm_filter_len(c.reassembly, c.recv_nxt);
    lemma_first_ready_index(kept, c.recv_nxt);
    match first_ready(kept, c.recv_nxt) {
        None => {},
        Some(i) => {
            let s = kept[i];
            let rest = kept.remove(i);
            let trim = if is_before(s.seq, c.recv_nxt) {
                min_int(forward(s.seq, c.recv_nxt), s.payload.len() as int)
            } else {
                0
            };
            let data = s.payload.skip(trim);
            let capacity = sat_sub(cfg.receive_buffer as int, c.recv_queue.len() as int);
            let accepted = min_int(capacity, data.len() as int);
            let nxt = seq_add(c.recv_nxt, accepted);
            let c2 = ConnView {
                recv_queue: c.recv_queue + data.take(accepted),
                recv_nxt: nxt,
                reassembly: rest,
                ..c
            };
            if accepted < data.len() {
            } else if s.fin {
                lemma_drain_synchronized(
                    on_remote_fin_spec(ConnView { recv_nxt: seq_add(nxt, 1), ..c2 }, now, cfg),
                    now,
                    cfg,
                );
            } else {
                lemma_drain_synchronized(c2, now, cfg);
            }
        },
    }
}

/// A segment the stream may hold: one that carries payload or a FIN carries a
/// slice of `s` placed by its distance from `base`, and a FIN only right
/// after the end of `s`.
pub open spec fn stream_segment(seg: SegmentView, base: u32, s: Seq<u8>) -> bool {
    crate::model::carries_data(seg) ==> crate::reassembly::piece_segment(seg, base, s)
}

/// On a synchronized connection, every step (a segment of the stream, a poll,
/// a write, a close) keeps the bytes read and received a prefix of the
/// stream, and a read moves the bytes it returns, at most `max` of them, from
/// the received to the read ones.
#[verifier::rlimit(60)]
#[verifier::spinoff_prover]
pub proof fn lemma_stream_kept<V>(
    c: ConnView<V>,
    seg: SegmentView,
    bytes: Seq<u8>,
    max: int,
    now: u64,
    cfg: Config,
    base: u32,
    got: Seq<u8>,
    s: Seq<u8>,
)
    requires
        synchronized(c),
        crate::reassembly::read_prefix(c, base, got, s),
        0 <= max,
    ensures
        stream_segment(seg, base, s) ==> {
            let d = on_segment_spec(c, seg, now, cfg).conn;
            synchronized(d) && crate::reassembly::read_prefix(d, base, got, s)
        },
        synchronized(poll_spec(c, now, cfg).conn),
        crate::reassembly::read_prefix(poll_spec(c, now, cfg).conn, base, got, s),
        write_spec(c, bytes, now, cfg) matches Ok((d, _, _)) ==> synchronized(d)
            && crate::reassembly::read_prefix(d, base, got, s),
        synchronized(close_spec(c, now).conn),
        crate::reassembly::read_prefix(close_spec(c, now).conn, base, got, s),
        ({
            let (d, b, _) = read_spec(c, max);
            &&& synchronized(d)
            &&& b.len() <= max
            &&& crate::reassembly::read_prefix(d, base, got + b, s)
        }),
{
    if stream_segment(seg, base, s) {
        lemma_on_segment_stream(c, seg, now, cfg, base, got, s);
    }
    lemma_poll_stream(c, now, cfg);
    lemma_flush_receive(ConnView { close_requested: true, ..c }, now);
    if (c.state == State::Established || c.state == State::CloseWait) && !c.close_requested {
        let buffered = c.send_queue.len() + crate::model::unacked_bytes(c.unacked);
        let accepted = min_int(bytes.len() as int, sat_sub(cfg.send_buffer as int, buffered));
        let c1 = ConnView {
            send_queue: c.send_queue + bytes.take(accepted),
            progress: crate::marker::ProgressView {
                accepted: crate::marker::sat_add_u128(c.progress.accepted, accepted),
                ..c.progress
            },
            ..c
        };
        lemma_flush_receive(c1, now);
    }
    let (d, b, _) = read_spec(c, max);
    let count = min_int(max, c.recv_queue.len() as int);
    assert(b == c.recv_queue.take(count));
    assert(d.recv_queue == c.recv_queue.skip(count));
    assert((got + b) + d.recv_queue =~= got + c.recv_queue);
}

proof fn lemma_poll_stream<V>(c: ConnView<V>, now: u64, cfg: Config)
    requires
        synchronized(c),
    ensures
        synchronized(poll_spec(c, now, cfg).conn),
        same_receive(poll_spec(c, now, cfg).conn, c),
{
    lemma_flush_receive(c, now);
    if c.unacked.len() > 0 {
        let c1 = ConnView {
            reno: crate::reno::reno_on_timeout(c.reno, forward(c.send_una, c.send_nxt)),
            rtt: crate::rtt::rtt_on_timeout(c.rtt),
            ..c
        };
        let (c2, r) = crate::model::retransmit_oldest_spec(c1, now, true);
        lemma_flush_receive(c2, now);
    }
}

#[verifier::rlimit(40)]
#[verifier::spinoff_prover]
proof fn lemma_on_segment_stream<V>(
    c: ConnView<V>,
    seg: SegmentView,
    now: u64,
    cfg: Config,
    base: u32,
    got: Seq<u8>,
    s: Seq<u8>,
)
    requires
        synchronized(c),
        crate::reassembly::read_prefix(c, base, got, s),
        stream_segment(seg, base, s),
    ensures
        synchronized(on_segment_spec(c, seg, now, cfg).conn),
        crate::reassembly::read_prefix(on_segment_spec(c, seg, now, cfg).conn, base, got, s),
{
    if crate::wire::has_flag(seg.flags, crate::wire::RST_BIT) {
    } else {
        let c1 = match seg.ack {
            None => c,
            Some(ack) => {
                let duplicate = ack == c.send_una && seg.payload.len() == 0;
                let (ca, fin_acked, retransmit) = apply_ack_spec(c, ack, now, duplicate);
                if fin_acked && ca.state == State::LastAck {
                    ca
                } else {
                    let cb = if fin_acked {
                        fin_acked_step(ca, now, cfg)
                    } else {
                        ca
                    };
                    if crate::seq::in_closed(ack, cb.send_una, cb.send_nxt) {
                        crate::model::update_remote_window_spec(cb, seg.window, now)
                    } else {
                        cb
                    }
                }
            },
        };
        if let Some(ack) = seg.ack {
            let duplicate = ack == c.send_una && seg.payload.len() == 0;
            lemma_apply_ack_state(c, ack, now, duplicate);
        }
        assert(synchronized(c1) && same_receive(c1, c));
        lemma_flush_receive(c1, now);
        if crate::model::carries_data(seg) {
            crate::reassembly::lemma_receive_read_prefix(c1, seg, now, cfg, base, got, s);
            let c0 = crate::model::insert_received_spec(
                c1,
                seg.seq,
                seg.payload,
                crate::wire::has_flag(seg.flags, crate::wire::FIN_BIT),
                cfg,
            );
            lemma_drain_synchronized(c0, now, cfg);
            let (cr, a) = receive_stream_data_spec(c1, seg, now, cfg);
            lemma_flush_receive(cr, now);
        }
    }
}

/// Every retained connection with id `id` satisfies `p`.
pub open spec fn holds_at<V>(ids: Seq<u64>, conns: Seq<ConnView<V>>, id: u64, p: spec_fn(ConnView<V>) -> bool) -> bool {
    forall|j: int| #![trigger ids[j]] 0 <= j < ids.len() && ids[j] == id ==> p(conns[j])
}

proof fn lemma_update_only<V>(s: StackView<V>, k: int, c: ConnView<V>, id: u64, p: spec_fn(ConnView<V>) -> bool)
    requires
        ids_sound(s),
        0 <= k < s.conns.len(),
        s.ids[k] == id,
        p(c),
    ensures
        holds_at(s.ids, s.conns.update(k, c), id, p),
{
    assert forall|j: int| #![trigger s.ids[j]] 0 <= j < s.ids.len() && s.ids[j] == id implies p(
        s.conns.update(k, c)[j],
    ) by {
        assert(j == k);
    }
}

proof fn lemma_update_holds<V>(s: StackView<V>, k: int, c: ConnView<V>, id: u64, p: spec_fn(ConnView<V>) -> bool)
    requires
        ids_sound(s),
        holds_at(s.ids, s.conns, id, p),
        0 <= k < s.conns.len(),
        s.ids[k] == id ==> p(c),
    ensures
        ids_sound(StackView { conns: s.conns.update(k, c), ..s }),
        holds_at(s.ids, s.conns.update(k, c), id, p),
{
    assert forall|j: int| #![trigger s.ids[j]] 0 <= j < s.ids.len() && s.ids[j] == id implies p(s.conns.update(k, c)[j]) by {
        if j != k {
            assert(s.conns.update(k, c)[j] == s.conns[j]);
        }
    }
}

proof fn lemma_remove_holds<V>(s: StackView<V>, k: int, id: u64, p: spec_fn(ConnView<V>) -> bool)
    requires
        ids_sound(s),
        holds_at(s.ids, s.conns, id, p),
        0 <= k < s.conns.len(),
    ensures
        ids_sound(remove_at(s, k)),
        holds_at(remove_at(s, k).ids, remove_at(s, k).conns, id, p),
{
    let t = remove_at(s, k);
    assert forall|a: int, b: int| 0 <= a < t.ids.len() && 0 <= b < t.ids.len() && a != b implies t.ids[a]
        != t.ids[b] by {
        let a0 = if a < k { a } else { a + 1 };
        let b0 = if b < k { b } else { b + 1 };
        assert(t.ids[a] == s.ids[a0]);
        assert(t.ids[b] == s.ids[b0]);
    }
    assert forall|j: int| #![trigger t.ids[j]] 0 <= j < t.ids.len() && t.ids[j] == id implies p(t.conns[j]) by {
        let j0 = if j < k { j } else { j + 1 };
        assert(t.ids[j] == s.ids[j0]);
        assert(t.conns[j] == s.conns[j0]);
    }
}

proof fn lemma_push_holds<V>(s: StackView<V>, c: ConnView<V>, id: u64, p: spec_fn(ConnView<V>) -> bool)
    requires
        ids_sound(s),
        holds_at(s.ids, s.conns, id, p),
        s.ids.contains(id),
        has_capacity(s, c.peer),
    ensures
        ({
            let x = fresh_id(s);
            &&& ids_sound(
                StackView {
                    ids: s.ids.push(x),
                    conns: s.conns.push(c),
                    next_connection_id: next_id(x),
                    ..s
                },
            )
            &&& holds_at(s.ids.push(x), s.conns.push(c), id, p)
        }),
{
    let x = fresh_id(s);
    lemma_fresh_id_is_free(s.ids, s.next_connection_id);
    let ids2 = s.ids.push(x);
    let conns2 = s.conns.push(c);
    assert(x != id);
    assert forall|a: int, b: int| 0 <= a < ids2.len() && 0 <= b < ids2.len() && a != b implies ids2[a]
        != ids2[b] by {
        if a == s.ids.len() {
            assert(s.ids.contains(ids2[b]) && ids2[b] == s.ids[b]);
        } else if b == s.ids.len() {
            assert(s.ids.contains(ids2[a]) && ids2[a] == s.ids[a]);
        } else {
            assert(ids2[a] == s.ids[a] && ids2[b] == s.ids[b]);
        }
    }
    assert forall|j: int| #![trigger ids2[j]] 0 <= j < ids2.len() && ids2[j] == id implies p(conns2[j]) by {
        assert(j < s.ids.len());
        assert(ids2[j] == s.ids[j]);
        assert(conns2[j] == s.conns[j]);
    }
}

proof fn lemma_apply_step_holds<V>(s: StackView<V>, k: int, step: crate::model::StepView<V>, id: u64, p: spec_fn(ConnView<V>) -> bool)
    requires
        ids_sound(s),
        0 <= k < s.conns.len(),
        holds_at(s.ids, s.conns.update(k, step.conn), id, p),
    ensures
        ids_sound(apply_step(s, k, step).0),
        holds_at(apply_step(s, k, step).0.ids, apply_step(s, k, step).0.conns, id, p),
{
    let (out, err) = emit_spec(s.conns[k].peer, step.segments);
    let s1 = StackView {
        conns: s.conns.update(k, step.conn),
        outbound: s.outbound + out,
        accepts: if step.accepted {
            s.accepts.push((step.conn.local_port, s.ids[k]))
        } else {
            s.accepts
        },
        ..s
    };
    if err is None && step.closed {
        lemma_remove_holds(s1, k, id, p);
    }
}

/// The connection's tuple is `(kp, kl, kr)`, it is past its handshake, and
/// the bytes read from it (`got`) and received on it are a prefix of `s`.
pub open spec fn stream_ok<V>(kp: V, kl: u16, kr: u16, base: u32, got: Seq<u8>, s: Seq<u8>) -> spec_fn(
    ConnView<V>,
) -> bool {
    |c: ConnView<V>|
        synchronized(c) && crate::reassembly::read_prefix(c, base, got, s) && has_key(c, kp, kl, kr)
}

/// A datagram that an input call hands to the tuple `(kp, kl, kr)` is a
/// segment of the stream `s`.
pub open spec fn feeds_stream<V>(call: Call<V>, kp: V, kl: u16, kr: u16, base: u32, s: Seq<u8>) -> bool {
    match call {
        Call::Input { peer, bytes, now } => match crate::wire::decode_spec(bytes) {
            Ok(seg) => peer == kp && seg.dst_port == kl && seg.src_port == kr ==> stream_segment(
                seg,
                base,
                s,
            ),
            Err(_) => true,
        },
        _ => true,
    }
}

/// A read of connection `id` returned at most the bytes asked for.
pub open spec fn read_within<V>(call: Call<V>, reply: Reply<V>, id: u64) -> bool {
    match call {
        Call::Read { id: x, max } => x == id ==> match reply {
            Reply::Got(Ok(b)) => b.len() <= max,
            _ => true,
        },
        _ => true,
    }
}

/// The bytes read from connection `id` after `call` answered `reply`.
pub open spec fn got_after<V>(call: Call<V>, reply: Reply<V>, id: u64, got: Seq<u8>) -> Seq<u8> {
    match call {
        Call::Read { id: x, max } => if x == id {
            match reply {
                Reply::Got(Ok(b)) => got + b,
                _ => got,
            }
        } else {
            got
        },
        _ => got,
    }
}

#[verifier::rlimit(40)]
#[verifier::spinoff_prover]
proof fn lemma_step_stream<V>(
    s: StackView<V>,
    call: Call<V>,
    id: u64,
    kp: V,
    kl: u16,
    kr: u16,
    base: u32,
    got: Seq<u8>,
    st: Seq<u8>,
)
    requires
        ids_sound(s),
        s.ids.contains(id),
        holds_at(s.ids, s.conns, id, stream_ok(kp, kl, kr, base, got, st)),
        feeds_stream(call, kp, kl, kr, base, st),
        kl != 0,
        kr != 0,
        got.len() <= st.len(),
        got == st.take(got.len() as int),
    ensures
        ({
            let (t, r) = step_call(s, call);
            let got2 = got_after(call, r, id, got);
            &&& ids_sound(t)
            &&& holds_at(t.ids, t.conns, id, stream_ok(kp, kl, kr, base, got2, st))
            &&& got2.len() <= st.len()
            &&& got2 == st.take(got2.len() as int)
            &&& read_within(call, r, id)
        }),
{
    let p = stream_ok(kp, kl, kr, base, got, st);
    match call {
        Call::Connect { peer, remote_port, now } => {
            lemma_connect_holds(s, peer, remote_port, now, id, p);
        },
        Call::Input { peer, bytes, now } => {
            lemma_input_stream(s, peer, bytes, now, id, kp, kl, kr, base, got, st);
        },
        Call::Poll { now } => {
            lemma_poll_stream_stack(s, now, id, kp, kl, kr, base, got, st);
        },
        Call::Write { id: x, bytes, now } => {
            lemma_write_stream_stack(s, x, bytes, now, id, kp, kl, kr, base, got, st);
        },
        Call::Read { id: x, max } => {
            lemma_read_stream_stack(s, x, max, id, kp, kl, kr, base, got, st);
        },
        Call::Close { id: x, now } => {
            lemma_close_stream_stack(s, x, now, id, kp, kl, kr, base, got, st);
        },
        Call::Abort { id: x } => {
            lemma_find_id_some(s.ids, x);
            if let Some(k) = find_id(s.ids, x) {
                let c = s.conns[k];
                if let Ok(reset) = crate::wire::encode_spec(crate::model::reset_segment_spec(c)) {
                    let kept = crate::stack_model::without_tuple(s.outbound, c.peer, c.local_port, c.remote_port);
                    lemma_remove_holds(StackView { outbound: kept.push((c.peer, reset)), ..s }, k, id, p);
                }
            }
        },
        _ => {},
    }
}

proof fn lemma_poll_stream_stack<V>(s: StackView<V>, now: u64, id: u64, kp: V, kl: u16, kr: u16, base: u32, got: Seq<u8>, st: Seq<u8>)
    requires
        ids_sound(s),
        holds_at(s.ids, s.conns, id, stream_ok(kp, kl, kr, base, got, st)),
    ensures
        ids_sound(stack_poll_spec(s, now)),
        holds_at(stack_poll_spec(s, now).ids, stack_poll_spec(s, now).conns, id, stream_ok(kp, kl, kr, base, got, st)),
{
    let p = stream_ok(kp, kl, kr, base, got, st);
    lemma_poll_conns_origin(s.ids, s.conns, now, s.config);
    let t = stack_poll_spec(s, now);
    assert forall|m: int| #![trigger t.ids[m]] 0 <= m < t.ids.len() && t.ids[m] == id implies p(
        t.conns[m],
    ) by {
        let j = choose|j: int|
            0 <= j < s.ids.len() && s.ids[j] == t.ids[m] && t.conns[m] == poll_spec(
                #[trigger] s.conns[j],
                now,
                s.config,
            ).conn;
        assert(s.ids[j] == id);
        assert(p(s.conns[j]));
        lemma_poll_stream(s.conns[j], now, s.config);
        crate::model::lemma_poll_key(s.conns[j], now, s.config);
    }
}

proof fn lemma_write_stream_stack<V>(s: StackView<V>, x: u64, bytes: Seq<u8>, now: u64, id: u64, kp: V, kl: u16, kr: u16, base: u32, got: Seq<u8>, st: Seq<u8>)
    requires
        ids_sound(s),
        holds_at(s.ids, s.conns, id, stream_ok(kp, kl, kr, base, got, st)),
    ensures
        ids_sound(stack_write_spec(s, x, bytes, now).0),
        holds_at(stack_write_spec(s, x, bytes, now).0.ids, stack_write_spec(s, x, bytes, now).0.conns, id, stream_ok(kp, kl, kr, base, got, st)),
{
    let p = stream_ok(kp, kl, kr, base, got, st);
    lemma_find_id_some(s.ids, x);
    if let Some(k) = find_id(s.ids, x) {
        if let Ok((c, n, segs)) = write_spec(s.conns[k], bytes, now, s.config) {
            if x == id {
                assert(p(s.conns[k]));
                lemma_stream_kept(s.conns[k], vstd::pervasive::arbitrary::<SegmentView>(), bytes, 0, now, s.config, base, got, st);
                crate::model::lemma_write_key(s.conns[k], bytes, now, s.config);
            }
            lemma_update_holds(s, k, c, id, p);
        }
    }
}

proof fn lemma_close_stream_stack<V>(s: StackView<V>, x: u64, now: u64, id: u64, kp: V, kl: u16, kr: u16, base: u32, got: Seq<u8>, st: Seq<u8>)
    requires
        ids_sound(s),
        holds_at(s.ids, s.conns, id, stream_ok(kp, kl, kr, base, got, st)),
    ensures
        ids_sound(stack_close_spec(s, x, now).0),
        holds_at(stack_close_spec(s, x, now).0.ids, stack_close_spec(s, x, now).0.conns, id, stream_ok(kp, kl, kr, base, got, st)),
{
    let p = stream_ok(kp, kl, kr, base, got, st);
    lemma_find_id_some(s.ids, x);
    if let Some(k) = find_id(s.ids, x) {
        if x == id {
            assert(p(s.conns[k]));
            lemma_stream_kept(s.conns[k], vstd::pervasive::arbitrary::<SegmentView>(), Seq::empty(), 0, now, s.config, base, got, st);
            crate::model::lemma_close_key(s.conns[k], now);
        }
        lemma_update_holds(s, k, close_spec(s.conns[k], now).conn, id, p);
        lemma_apply_step_holds(s, k, close_spec(s.conns[k], now), id, p);
    }
}

/// A read on a retained connection with non-zero ports always succeeds: the
/// window update it may send is a plain ACK, which always encodes.
proof fn lemma_read_succeeds<V>(s: StackView<V>, k: int, max: usize)
    requires
        0 <= k < s.conns.len(),
        s.conns[k].local_port != 0,
        s.conns[k].remote_port != 0,
    ensures
        ({
            let (c, b, segs) = read_spec(s.conns[k], max as int);
            emit_spec(s.conns[k].peer, segs).1 is None
        }),
{
    let (c, b, segs) = read_spec(s.conns[k], max as int);
    if segs.len() > 0 {
        let a = crate::model::ack_segment_spec(c);
        assert(crate::wire::has_flag(crate::wire::ACK_BIT, crate::wire::ACK_BIT)) by (bit_vector);
        assert(!crate::wire::has_flag(crate::wire::ACK_BIT, crate::wire::SYN_BIT)) by (bit_vector);
        assert(a.options =~= Seq::<crate::wire::OptionView>::empty());
        assert(crate::wire::encode_spec(a) is Ok);
        assert(segs.drop_first() =~= Seq::<SegmentView>::empty());
        assert(emit_spec(s.conns[k].peer, segs.drop_first()).1 is None);
    }
}

#[verifier::rlimit(40)]
#[verifier::spinoff_prover]
proof fn lemma_read_stream_stack<V>(s: StackView<V>, x: u64, max: usize, id: u64, kp: V, kl: u16, kr: u16, base: u32, got: Seq<u8>, st: Seq<u8>)
    requires
        ids_sound(s),
        s.ids.contains(id),
        holds_at(s.ids, s.conns, id, stream_ok(kp, kl, kr, base, got, st)),
        kl != 0,
        kr != 0,
        got.len() <= st.len(),
        got == st.take(got.len() as int),
    ensures
        ({
            let (t, r) = stack_read_spec(s, x, max);
            let got2 = got_after(Call::<V>::Read { id: x, max }, Reply::Got(r), id, got);
            &&& ids_sound(t)
            &&& holds_at(t.ids, t.conns, id, stream_ok(kp, kl, kr, base, got2, st))
            &&& got2.len() <= st.len()
            &&& got2 == st.take(got2.len() as int)
            &&& read_within(Call::<V>::Read { id: x, max }, Reply::Got(r), id)
        }),
{
    let p = stream_ok(kp, kl, kr, base, got, st);
    lemma_find_id_some(s.ids, x);
    if let Some(k) = find_id(s.ids, x) {
        if x == id {
            let c = s.conns[k];
            assert(p(c));
            lemma_read_succeeds(s, k, max);
            lemma_stream_kept(c, vstd::pervasive::arbitrary::<SegmentView>(), Seq::empty(), max as int, 0, s.config, base, got, st);
            let (d, b, _) = read_spec(c, max as int);
            assert(stack_read_spec(s, x, max).1 == Ok::<Seq<u8>, StackError>(b));
            let p2 = stream_ok(kp, kl, kr, base, got + b, st);
            assert(p2(d));
            lemma_update_only(s, k, d, id, p2);
            assert(ids_sound(StackView { conns: s.conns.update(k, d), ..s }));
            let kk = min_int(forward(base, d.recv_nxt), st.len() as int);
            assert((got + b) + d.recv_queue == st.take(kk));
            assert(((got + b) + d.recv_queue).take((got + b).len() as int) =~= got + b);
            assert(((got + b) + d.recv_queue).len() == kk);
            assert(st.take(kk).take((got + b).len() as int) =~= st.take((got + b).len() as int));
        } else {
            lemma_update_holds(s, k, read_spec(s.conns[k], max as int).0, id, p);
        }
    }
}

proof fn lemma_connect_holds<V>(s: StackView<V>, peer: V, remote_port: u16, now: u64, id: u64, p: spec_fn(ConnView<V>) -> bool)
    requires
        ids_sound(s),
        s.ids.contains(id),
        holds_at(s.ids, s.conns, id, p),
    ensures
        ids_sound(connect_spec(s, peer, remote_port, now).0),
        holds_at(
            connect_spec(s, peer, remote_port, now).0.ids,
            connect_spec(s, peer, remote_port, now).0.conns,
            id,
            p,
        ),
{
    let (cursor, port) = crate::stack_model::ephemeral_scan(
        s.conns,
        peer,
        remote_port,
        s.next_ephemeral_port,
        16_384,
    );
    let s1 = StackView { next_ephemeral_port: cursor, ..s };
    if let Some(pt) = port {
        let (state, isn) = crate::stack_model::next_isn_spec(s1.isn_state);
        let s2 = StackView { isn_state: state, ..s1 };
        if pt != 0 && remote_port != 0 && has_capacity(s2, peer) && find_key(
            s2.conns,
            peer,
            pt,
            remote_port,
        ) is None {
            let (c, syn) = crate::model::client_spec(
                peer,
                pt,
                remote_port,
                isn,
                now,
                s2.next_token,
                s2.config,
            );
            assert(c.peer == peer);
            lemma_push_holds(s2, c, id, p);
        }
    }
}

#[verifier::rlimit(40)]
#[verifier::spinoff_prover]
proof fn lemma_input_stream<V>(
    s: StackView<V>,
    peer: V,
    bytes: Seq<u8>,
    now: u64,
    id: u64,
    kp: V,
    kl: u16,
    kr: u16,
    base: u32,
    got: Seq<u8>,
    st: Seq<u8>,
)
    requires
        ids_sound(s),
        s.ids.contains(id),
        holds_at(s.ids, s.conns, id, stream_ok(kp, kl, kr, base, got, st)),
        feeds_stream(Call::Input { peer, bytes, now }, kp, kl, kr, base, st),
    ensures
        ids_sound(input_spec(s, peer, bytes, now).0),
        holds_at(
            input_spec(s, peer, bytes, now).0.ids,
            input_spec(s, peer, bytes, now).0.conns,
            id,
            stream_ok(kp, kl, kr, base, got, st),
        ),
{
    let p = stream_ok(kp, kl, kr, base, got, st);
    match crate::wire::decode_spec(bytes) {
        Err(e) => {},
        Ok(seg) => {
            lemma_find_key_some(s.conns, peer, seg.dst_port, seg.src_port);
            match find_key(s.conns, peer, seg.dst_port, seg.src_port) {
                Some(k) => {
                    let step = on_segment_spec(s.conns[k], seg, now, s.config);
                    if s.ids[k] == id {
                        assert(p(s.conns[k]));
                        assert(stream_segment(seg, base, st));
                        lemma_stream_kept(s.conns[k], seg, Seq::empty(), 0, now, s.config, base, got, st);
                        crate::model::lemma_on_segment_key(s.conns[k], seg, now, s.config);
                        assert(p(step.conn));
                    }
                    lemma_update_holds(s, k, step.conn, id, p);
                    lemma_apply_step_holds(s, k, step, id, p);
                },
                None => {
                    if crate::wire::has_flag(seg.flags, crate::wire::SYN_BIT) && !crate::wire::has_flag(
                        seg.flags,
                        crate::wire::ACK_BIT,
                    ) && s.listeners.contains(seg.dst_port) && crate::wire::announces_version(
                        seg.options,
                        crate::wire::FIPS_VERSION,
                    ) && has_capacity(s, peer) {
                        let (state, isn) = crate::stack_model::next_isn_spec(s.isn_state);
                        let (c, syn_ack) = crate::model::server_spec(
                            peer,
                            seg,
                            isn,
                            now,
                            s.next_token,
                            s.config,
                        );
                        assert(c.peer == peer);
                        lemma_push_holds(s, c, id, p);
                    }
                },
            }
        },
    }
}

/// Over the calls that follow, the bytes read from connection `id` stay a
/// prefix of `s` and no read returns more than it was asked for, for as long
/// as the connection is retained.
pub open spec fn reads_stay_prefix<V>(s: StackView<V>, id: u64, got: Seq<u8>, st: Seq<u8>, calls: Seq<Call<V>>) -> bool
    decreases calls.len(),
{
    if calls.len() == 0 || !s.ids.contains(id) {
        true
    } else {
        let (t, r) = step_call(s, calls[0]);
        let got2 = got_after(calls[0], r, id, got);
        &&& got2.len() <= st.len()
        &&& got2 == st.take(got2.len() as int)
        &&& read_within(calls[0], r, id)
        &&& reads_stay_prefix(t, id, got2, st, calls.drop_first())
    }
}

proof fn lemma_reads_prefix_run<V>(
    s: StackView<V>,
    id: u64,
    kp: V,
    kl: u16,
    kr: u16,
    base: u32,
    got: Seq<u8>,
    st: Seq<u8>,
    calls: Seq<Call<V>>,
)
    requires
        ids_sound(s),
        holds_at(s.ids, s.conns, id, stream_ok(kp, kl, kr, base, got, st)),
        forall|j: int| 0 <= j < calls.len() ==> feeds_stream(#[trigger] calls[j], kp, kl, kr, base, st),
        kl != 0,
        kr != 0,
        got.len() <= st.len(),
        got == st.take(got.len() as int),
    ensures
        reads_stay_prefix(s, id, got, st, calls),
    decreases calls.len(),
{
    if calls.len() > 0 && s.ids.contains(id) {
        assert(feeds_stream(calls[0], kp, kl, kr, base, st));
        lemma_step_stream(s, calls[0], id, kp, kl, kr, base, got, st);
        let (t, r) = step_call(s, calls[0]);
        let rest = calls.drop_first();
        assert forall|j: int| 0 <= j < rest.len() implies feeds_stream(#[trigger] rest[j], kp, kl, kr, base, st) by {
            assert(rest[j] == calls[j + 1]);
        }
        lemma_reads_prefix_run(t, id, kp, kl, kr, base, got_after(calls[0], r, id, got), st, rest);
    }
}

/// Reads give the stream in order over a lossy, duplicating, reordering
/// carrier. Take a connection past its handshake whose bytes read so far
/// (`got`) and received are a prefix of the peer's byte stream `s` (shorter
/// than half the sequence space) counted from `base`; on a connection just
/// established nothing is read or received and `base` is its RCV.NXT.
/// Whatever calls follow on the stack (other connections' traffic, polls,
/// writes, a close), as long as every datagram delivered to the connection's
/// tuple carries a slice of `s` at its offset from `base`, with a FIN only
/// right after the end of `s` (any subset of the peer's segments, in any
/// order, any number of times), the bytes that successive reads return,
/// joined, stay a prefix of `s` while the connection is retained: no byte is
/// skipped, repeated or reordered, and no read returns more than asked.
pub proof fn lemma_reads_stay_prefix<V>(s: StackView<V>, id: u64, got: Seq<u8>, st: Seq<u8>, calls: Seq<Call<V>>, base: u32)
    requires
        crate::stack_model::stack_laws(s),
        find_id(s.ids, id) matches Some(i) && synchronized(s.conns[i])
            && crate::reassembly::read_prefix(s.conns[i], base, got, st),
        forall|j: int|
            0 <= j < calls.len() ==> feeds_stream(
                #[trigger] calls[j],
                s.conns[find_id(s.ids, id)->Some_0].peer,
                s.conns[find_id(s.ids, id)->Some_0].local_port,
                s.conns[find_id(s.ids, id)->Some_0].remote_port,
                base,
                st,
            ),
    ensures
        reads_stay_prefix(s, id, got, st, calls),
{
    lemma_find_id_some(s.ids, id);
    let i = find_id(s.ids, id)->Some_0;
    let c = s.conns[i];
    assert(c.local_port != 0 && c.remote_port != 0);
    let p = stream_ok(c.peer, c.local_port, c.remote_port, base, got, st);
    assert forall|j: int| #![trigger s.ids[j]] 0 <= j < s.ids.len() && s.ids[j] == id implies p(s.conns[j]) by {
        assert(j == i);
    }
    let kk = min_int(forward(base, c.recv_nxt), st.len() as int);
    assert(got == st.take(got.len() as int)) by {
        assert(got + c.recv_queue == st.take(kk));
        assert((got + c.recv_queue).take(got.len() as int) =~= got);
        assert((got + c.recv_queue).len() == kk);
        assert(got.len() <= kk);
        assert(st.take(kk).take(got.len() as int) =~= st.take(got.len() as int));
    }
    lemma_reads_prefix_run(s, id, c.peer, c.local_port, c.remote_port, base, got, st, calls);
}

} // verus!
