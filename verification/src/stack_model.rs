//! The mathematical model of the whole stack and of each operation on it.

use vstd::prelude::*;

use crate::model::{
    ConnView, StepView, client_spec, close_spec, on_segment_spec, poll_spec, read_spec,
    reset_segment_spec, server_spec, write_spec,
};
use crate::seq::seq_add;
use crate::types::{Config, StackError, State};
use crate::wire::{
    ACK_BIT, FIPS_VERSION, RST_BIT, SYN_BIT, SegmentView, WireError, announces_version,
    decode_spec, encode_spec, has_flag, sequence_len_spec,
};

verus! {

/// The whole stack: listeners, pending accepts (port and connection id, in
/// arrival order), the retained connections with their ids, the queued
/// outbound datagrams, and the allocation counters.
pub struct StackView<V> {
    pub config: Config,
    pub listeners: Seq<u16>,
    pub accepts: Seq<(u16, u64)>,
    pub ids: Seq<u64>,
    pub conns: Seq<ConnView<V>>,
    pub outbound: Seq<(V, Seq<u8>)>,
    pub next_connection_id: u64,
    pub next_ephemeral_port: u16,
    pub isn_state: u64,
    pub next_token: u64,
}

pub open spec fn first_port_ephemeral() -> u16 {
    49_152
}

/// The datagrams for `segs`, each addressed to `peer`, in order up to the
/// first segment that cannot be encoded, and that segment's error.
pub open spec fn emit_spec<V>(peer: V, segs: Seq<SegmentView>) -> (Seq<(V, Seq<u8>)>, Option<WireError>)
    decreases segs.len(),
{
    if segs.len() == 0 {
        (Seq::empty(), None)
    } else {
        match encode_spec(segs[0]) {
            Err(e) => (Seq::empty(), Some(e)),
            Ok(b) => {
                let (rest, err) = emit_spec(peer, segs.drop_first());
                (seq![(peer, b)] + rest, err)
            },
        }
    }
}

/// The result of an operation whose last act is an emission.
pub open spec fn emitted<T>(err: Option<WireError>, value: T) -> Result<T, StackError> {
    match err {
        Some(e) => Err(StackError::Wire(e)),
        None => Ok(value),
    }
}

/// The position of connection `id`.
pub open spec fn find_id(ids: Seq<u64>, id: u64) -> Option<int>
    decreases ids.len(),
{
    if ids.len() == 0 {
        None
    } else if ids[0] == id {
        Some(0)
    } else {
        match find_id(ids.drop_first(), id) {
            Some(i) => Some(i + 1),
            None => None,
        }
    }
}

/// Whether connection `c` has the tuple `(peer, local_port, remote_port)`.
pub open spec fn has_key<V>(c: ConnView<V>, peer: V, local_port: u16, remote_port: u16) -> bool {
    c.peer == peer && c.local_port == local_port && c.remote_port == remote_port
}

/// The position of the connection with a tuple.
pub open spec fn find_key<V>(conns: Seq<ConnView<V>>, peer: V, local_port: u16, remote_port: u16) -> Option<int>
    decreases conns.len(),
{
    if conns.len() == 0 {
        None
    } else if has_key(conns[0], peer, local_port, remote_port) {
        Some(0)
    } else {
        match find_key(conns.drop_first(), peer, local_port, remote_port) {
            Some(i) => Some(i + 1),
            None => None,
        }
    }
}

/// The connections retained for one peer.
pub open spec fn peer_count<V>(conns: Seq<ConnView<V>>, peer: V) -> nat
    decreases conns.len(),
{
    if conns.len() == 0 {
        0
    } else {
        (if conns[0].peer == peer {
            1nat
        } else {
            0nat
        }) + peer_count(conns.drop_first(), peer)
    }
}

/// A new connection for `peer` stays within both the global and the per-peer bound.
pub open spec fn has_capacity<V>(s: StackView<V>, peer: V) -> bool {
    s.conns.len() < s.config.max_connections && peer_count(s.conns, peer)
        < s.config.max_connections_per_peer
}

/// The id after `id`: ids wrap around but never become zero.
pub open spec fn next_id(id: u64) -> u64 {
    if id == u64::MAX {
        1
    } else {
        (id + 1) as u64
    }
}

/// A new stack: no listener, connection or queued datagram; the counters at
/// their start, and the ISN generator seeded (a zero seed counts as one).
pub open spec fn new_stack_spec<V>(config: Config, isn_seed: u64) -> StackView<V> {
    StackView {
        config,
        listeners: Seq::empty(),
        accepts: Seq::empty(),
        ids: Seq::empty(),
        conns: Seq::empty(),
        outbound: Seq::empty(),
        next_connection_id: 1,
        next_ephemeral_port: first_port_ephemeral(),
        isn_state: if isn_seed >= 1 {
            isn_seed
        } else {
            1
        },
        next_token: 1,
    }
}

/// A new stack depends only on its configuration and seed, and seed 0 gives
/// the same stack as seed 1 (what follows over a sequence of calls is
/// `runs::lemma_runs_agree`).
pub proof fn lemma_new_stack_seed<V>(config: Config)
    ensures
        new_stack_spec::<V>(config, 0) == new_stack_spec::<V>(config, 1),
{
}

/// The first id, going round from `cand` (ids wrap around but skip zero), that
/// no retained connection has; at most `tries` ids are passed over.
pub open spec fn free_id(ids: Seq<u64>, cand: u64, tries: nat) -> u64
    decreases tries,
{
    if tries == 0 || !ids.contains(cand) {
        cand
    } else {
        free_id(ids, next_id(cand), (tries - 1) as nat)
    }
}

/// The id for a new connection.
pub open spec fn fresh_id<V>(s: StackView<V>) -> u64 {
    free_id(s.ids, s.next_connection_id, s.ids.len())
}

/// The id `t` steps round the cycle of non-zero ids from `c`.
pub open spec fn cycle_id(c: u64, t: nat) -> u64 {
    (((c - 1 + t) % (u64::MAX as int)) + 1) as u64
}

proof fn lemma_cycle_step(c: u64, t: nat)
    requires
        1 <= c,
    ensures
        next_id(cycle_id(c, t)) == cycle_id(c, t + 1),
        cycle_id(c, 0) == c,
{
    let m = u64::MAX as int;
    assert(((c - 1 + 0) % m) + 1 == c) by (nonlinear_arith)
        requires
            1 <= c <= m,
    ;
    let x = (c - 1 + t) % m;
    assert(0 <= x < m);
    if x == m - 1 {
        assert((c - 1 + t + 1) % m == 0) by (nonlinear_arith)
            requires
                x == (c - 1 + t) % m,
                x == m - 1,
                m > 0,
        ;
    } else {
        assert((c - 1 + t + 1) % m == x + 1) by (nonlinear_arith)
            requires
                x == (c - 1 + t) % m,
                0 <= x < m - 1,
                m > 0,
        ;
    }
}

proof fn lemma_cycle_distinct(c: u64, t1: nat, t2: nat)
    requires
        t1 < t2 < u64::MAX,
    ensures
        cycle_id(c, t1) != cycle_id(c, t2),
{
    let m = u64::MAX as int;
    assert((c - 1 + t1) % m != (c - 1 + t2) % m) by (nonlinear_arith)
        requires
            0 <= t1 < t2 < m,
            m > 0,
    ;
}

proof fn lemma_free_id_scan(ids: Seq<u64>, c: u64, t: nat, tries: nat)
    requires
        1 <= c,
    ensures
        ids.contains(free_id(ids, cycle_id(c, t), tries)) ==> forall|u: nat|
            t <= u <= t + tries ==> ids.contains(#[trigger] cycle_id(c, u)),
    decreases tries,
{
    lemma_cycle_step(c, t);
    if tries > 0 && ids.contains(cycle_id(c, t)) {
        lemma_free_id_scan(ids, c, t + 1, (tries - 1) as nat);
    }
}

/// Going round from any non-zero id, an id that no retained connection has is
/// found within as many steps as there are retained connections.
pub proof fn lemma_fresh_id_is_free(ids: Seq<u64>, c: u64)
    requires
        1 <= c,
        ids.len() < u64::MAX,
    ensures
        !ids.contains(free_id(ids, c, ids.len())),
        free_id(ids, c, ids.len()) >= 1,
{
    let n = ids.len();
    lemma_cycle_step(c, 0);
    lemma_free_id_scan(ids, c, 0, n);
    lemma_free_id_nonzero(ids, c, n);
    if ids.contains(free_id(ids, c, n)) {
        let tried = Seq::new(n + 1, |u: int| cycle_id(c, u as nat));
        assert forall|a: int, b: int| 0 <= a < tried.len() && 0 <= b < tried.len() && a != b implies tried[a] != tried[b] by {
            if a < b {
                lemma_cycle_distinct(c, a as nat, b as nat);
            } else {
                lemma_cycle_distinct(c, b as nat, a as nat);
            }
        }
        assert(tried.no_duplicates());
        tried.unique_seq_to_set();
        assert forall|x: u64| tried.to_set().contains(x) implies ids.to_set().contains(x) by {
            let u = choose|u: int| 0 <= u < tried.len() && tried[u] == x;
            assert(ids.contains(cycle_id(c, u as nat)));
        }
        ids.lemma_cardinality_of_set();
        vstd::set_lib::lemma_len_subset(tried.to_set(), ids.to_set());
        assert(false);
    }
}

proof fn lemma_free_id_nonzero(ids: Seq<u64>, c: u64, tries: nat)
    requires
        1 <= c,
    ensures
        free_id(ids, c, tries) >= 1,
    decreases tries,
{
    if tries > 0 && ids.contains(c) {
        lemma_free_id_nonzero(ids, next_id(c), (tries - 1) as nat);
    }
}

/// No two retained connections share an id.
pub open spec fn ids_distinct(ids: Seq<u64>) -> bool {
    forall|i: int, j: int| 0 <= i < ids.len() && 0 <= j < ids.len() && i != j ==> ids[i] != ids[j]
}

/// One xorshift step of the initial-sequence-number generator: the new state
/// (never zero) and the ISN it yields.
pub open spec fn next_isn_spec(state: u64) -> (u64, u32) {
    let a = state ^ (state << 13u64);
    let b = a ^ (a >> 7u64);
    let c = b ^ (b << 17u64);
    (
        if c >= 1 {
            c
        } else {
            1
        },
        (c ^ (c >> 32u64)) as u32,
    )
}

pub open spec fn remove_at<V>(s: StackView<V>, i: int) -> StackView<V> {
    StackView { ids: s.ids.remove(i), conns: s.conns.remove(i), ..s }
}

/// Apply a connection's step: adopt its new state, queue it for `accept` when
/// the handshake completed, queue its segments for its peer, and drop it when
/// it closed; a segment that cannot be encoded ends the step there, with the
/// connection kept.
pub open spec fn apply_step<V>(s: StackView<V>, i: int, step: StepView<V>) -> (StackView<V>, Result<(), StackError>) {
    let c = s.conns[i];
    let (out, err) = emit_spec(c.peer, step.segments);
    let s1 = StackView {
        conns: s.conns.update(i, step.conn),
        outbound: s.outbound + out,
        accepts: if step.accepted {
            s.accepts.push((step.conn.local_port, s.ids[i]))
        } else {
            s.accepts
        },
        ..s
    };
    if err is Some {
        (s1, emitted(err, ()))
    } else if step.closed {
        (remove_at(s1, i), Ok(()))
    } else {
        (s1, Ok(()))
    }
}

/// The reset that answers a segment no connection takes: `<SEQ=SEG.ACK><CTL=RST>`
/// when it carries an ACK, else `<SEQ=0><ACK=SEG.SEQ+SEG.LEN><CTL=RST,ACK>`.
pub open spec fn reset_for_spec(incoming: SegmentView) -> SegmentView {
    SegmentView {
        src_port: incoming.dst_port,
        dst_port: incoming.src_port,
        seq: match incoming.ack {
            Some(a) => a,
            None => 0,
        },
        ack: match incoming.ack {
            Some(_) => None,
            None => Some(seq_add(incoming.seq, sequence_len_spec(incoming))),
        },
        flags: match incoming.ack {
            Some(_) => RST_BIT,
            None => RST_BIT | ACK_BIT,
        },
        window: 0,
        options: Seq::empty(),
        payload: Seq::empty(),
    }
}

/// Queue the reset for `incoming`, unless it cannot be encoded.
pub open spec fn push_reset<V>(s: StackView<V>, peer: V, incoming: SegmentView) -> (StackView<V>, Result<(), StackError>) {
    match encode_spec(reset_for_spec(incoming)) {
        Err(e) => (s, Err(StackError::Wire(e))),
        Ok(b) => (StackView { outbound: s.outbound.push((peer, b)), ..s }, Ok(())),
    }
}

/// A new client connection on an explicit tuple and ISN.
pub open spec fn connect_from_spec<V>(
    s: StackView<V>,
    peer: V,
    local_port: u16,
    remote_port: u16,
    isn: u32,
    now: u64,
) -> (StackView<V>, Result<u64, StackError>) {
    if local_port == 0 || remote_port == 0 {
        (s, Err(StackError::ZeroPort))
    } else if !has_capacity(s, peer) {
        (s, Err(StackError::ConnectionLimit))
    } else if find_key(s.conns, peer, local_port, remote_port) is Some {
        (s, Err(StackError::ConnectionExists))
    } else {
        let id = fresh_id(s);
        let (c, syn) = client_spec(
            peer,
            local_port,
            remote_port,
            isn,
            now,
            s.next_token,
            s.config,
        );
        let (out, err) = emit_spec(peer, seq![syn]);
        (
            StackView {
                ids: s.ids.push(id),
                conns: s.conns.push(c),
                outbound: s.outbound + out,
                next_connection_id: next_id(id),
                next_token: next_id(s.next_token),
                ..s
            },
            emitted(err, id),
        )
    }
}

/// The first free ephemeral port towards `(peer, remote_port)`, trying at most
/// `tries` ports from the rotating cursor (49152..=65535).
pub open spec fn ephemeral_scan<V>(
    conns: Seq<ConnView<V>>,
    peer: V,
    remote_port: u16,
    cursor: u16,
    tries: nat,
) -> (u16, Option<u16>)
    decreases tries,
{
    if tries == 0 {
        (cursor, None)
    } else {
        let next = if cursor == u16::MAX {
            first_port_ephemeral()
        } else {
            (cursor + 1) as u16
        };
        if find_key(conns, peer, cursor, remote_port) is None {
            (next, Some(cursor))
        } else {
            ephemeral_scan(conns, peer, remote_port, next, (tries - 1) as nat)
        }
    }
}

/// A new client connection from a free ephemeral port with the next ISN.
pub open spec fn connect_spec<V>(s: StackView<V>, peer: V, remote_port: u16, now: u64) -> (
    StackView<V>,
    Result<u64, StackError>,
) {
    let (cursor, port) = ephemeral_scan(s.conns, peer, remote_port, s.next_ephemeral_port, 16_384);
    let s1 = StackView { next_ephemeral_port: cursor, ..s };
    match port {
        None => (s1, Err(StackError::NoEphemeralPort)),
        Some(p) => {
            let (state, isn) = next_isn_spec(s1.isn_state);
            connect_from_spec(StackView { isn_state: state, ..s1 }, peer, p, remote_port, isn, now)
        },
    }
}

/// A segment that reached no connection: a SYN to a listener opens one (or is
/// reset for an unsupported version, or refused at capacity); anything else
/// but a reset is answered with a reset.
pub open spec fn input_new_spec<V>(s: StackView<V>, peer: V, seg: SegmentView, now: u64) -> (
    StackView<V>,
    Result<(), StackError>,
) {
    if has_flag(seg.flags, SYN_BIT) && !has_flag(seg.flags, ACK_BIT) && s.listeners.contains(
        seg.dst_port,
    ) {
        if !announces_version(seg.options, FIPS_VERSION) {
            push_reset(s, peer, seg)
        } else if !has_capacity(s, peer) {
            (s, Err(StackError::ConnectionLimit))
        } else {
            let id = fresh_id(s);
            let (state, isn) = next_isn_spec(s.isn_state);
            let (c, syn_ack) = server_spec(peer, seg, isn, now, s.next_token, s.config);
            let (out, err) = emit_spec(peer, seq![syn_ack]);
            (
                StackView {
                    ids: s.ids.push(id),
                    conns: s.conns.push(c),
                    outbound: s.outbound + out,
                    next_connection_id: next_id(id),
                    next_token: next_id(s.next_token),
                    isn_state: state,
                    ..s
                },
                emitted(err, ()),
            )
        }
    } else if !has_flag(seg.flags, RST_BIT) {
        push_reset(s, peer, seg)
    } else {
        (s, Ok(()))
    }
}

/// One datagram from `peer`.
pub open spec fn input_spec<V>(s: StackView<V>, peer: V, bytes: Seq<u8>, now: u64) -> (
    StackView<V>,
    Result<(), StackError>,
) {
    match decode_spec(bytes) {
        Err(e) => (s, Err(StackError::Wire(e))),
        Ok(seg) => match find_key(s.conns, peer, seg.dst_port, seg.src_port) {
            Some(i) => apply_step(s, i, on_segment_spec(s.conns[i], seg, now, s.config)),
            None => input_new_spec(s, peer, seg, now),
        },
    }
}

/// Timer work on every connection in order; closed connections are dropped.
pub open spec fn poll_conns<V>(ids: Seq<u64>, conns: Seq<ConnView<V>>, now: u64, cfg: Config) -> (
    Seq<u64>,
    Seq<ConnView<V>>,
    Seq<(V, Seq<u8>)>,
)
    decreases conns.len(),
{
    if conns.len() == 0 || ids.len() == 0 {
        (ids, conns, Seq::empty())
    } else {
        let step = poll_spec(conns[0], now, cfg);
        let (ri, rc, ro) = poll_conns(ids.drop_first(), conns.drop_first(), now, cfg);
        let out = emit_spec(conns[0].peer, step.segments).0 + ro;
        if step.closed {
            (ri, rc, out)
        } else {
            (seq![ids[0]] + ri, seq![step.conn] + rc, out)
        }
    }
}

pub open spec fn stack_poll_spec<V>(s: StackView<V>, now: u64) -> StackView<V> {
    let (ids, conns, out) = poll_conns(s.ids, s.conns, now, s.config);
    StackView { ids, conns, outbound: s.outbound + out, ..s }
}

pub open spec fn stack_write_spec<V>(s: StackView<V>, id: u64, bytes: Seq<u8>, now: u64) -> (
    StackView<V>,
    Result<usize, StackError>,
) {
    match find_id(s.ids, id) {
        None => (s, Err(StackError::UnknownConnection)),
        Some(i) => match write_spec(s.conns[i], bytes, now, s.config) {
            Err(st) => (s, Err(StackError::InvalidState(st))),
            Ok((c, n, segs)) => {
                let (out, err) = emit_spec(s.conns[i].peer, segs);
                (
                    StackView { conns: s.conns.update(i, c), outbound: s.outbound + out, ..s },
                    emitted(err, n as usize),
                )
            },
        },
    }
}

pub open spec fn stack_read_spec<V>(s: StackView<V>, id: u64, max: usize) -> (
    StackView<V>,
    Result<Seq<u8>, StackError>,
) {
    match find_id(s.ids, id) {
        None => (s, Err(StackError::UnknownConnection)),
        Some(i) => {
            let (c, bytes, segs) = read_spec(s.conns[i], max as int);
            let (out, err) = emit_spec(s.conns[i].peer, segs);
            (
                StackView { conns: s.conns.update(i, c), outbound: s.outbound + out, ..s },
                emitted(err, bytes),
            )
        },
    }
}

pub open spec fn stack_close_spec<V>(s: StackView<V>, id: u64, now: u64) -> (
    StackView<V>,
    Result<(), StackError>,
) {
    match find_id(s.ids, id) {
        None => (s, Err(StackError::UnknownConnection)),
        Some(i) => apply_step(s, i, close_spec(s.conns[i], now)),
    }
}

/// An outbound datagram that belongs to the tuple `(peer, local, remote)`.
pub open spec fn queued_for<V>(o: (V, Seq<u8>), peer: V, local_port: u16, remote_port: u16) -> bool {
    &&& o.0 == peer
    &&& decode_spec(o.1) matches Ok(seg)
    &&& seg.src_port == local_port
    &&& seg.dst_port == remote_port
}

pub open spec fn without_tuple<V>(out: Seq<(V, Seq<u8>)>, peer: V, local_port: u16, remote_port: u16) -> Seq<
    (V, Seq<u8>),
>
    decreases out.len(),
{
    if out.len() == 0 {
        out
    } else {
        let rest = without_tuple(out.drop_first(), peer, local_port, remote_port);
        if queued_for(out[0], peer, local_port, remote_port) {
            rest
        } else {
            seq![out[0]] + rest
        }
    }
}

/// Abort: flush the tuple's queued datagrams, queue one reset
/// `<SEQ=SND.NXT><CTL=RST>`, and forget the connection.
pub open spec fn abort_spec<V>(s: StackView<V>, id: u64) -> (StackView<V>, Result<(), StackError>) {
    match find_id(s.ids, id) {
        None => (s, Err(StackError::UnknownConnection)),
        Some(i) => {
            let c = s.conns[i];
            match encode_spec(reset_segment_spec(c)) {
                Err(e) => (s, Err(StackError::Wire(e))),
                Ok(reset) => {
                    let kept = without_tuple(s.outbound, c.peer, c.local_port, c.remote_port);
                    (
                        remove_at(StackView { outbound: kept.push((c.peer, reset)), ..s }, i),
                        Ok(()),
                    )
                },
            }
        },
    }
}

/// Take the oldest pending accept for `port` whose connection still exists;
/// stale entries for that port before it are discarded.
pub open spec fn accept_scan(accepts: Seq<(u16, u64)>, port: u16, ids: Seq<u64>) -> (
    Seq<(u16, u64)>,
    Option<u64>,
)
    decreases accepts.len(),
{
    if accepts.len() == 0 {
        (accepts, None)
    } else if accepts[0].0 != port {
        let (rest, r) = accept_scan(accepts.drop_first(), port, ids);
        (seq![accepts[0]] + rest, r)
    } else if ids.contains(accepts[0].1) {
        (accepts.drop_first(), Some(accepts[0].1))
    } else {
        accept_scan(accepts.drop_first(), port, ids)
    }
}

/// Open a listener on a non-zero port that is not listening yet.
pub open spec fn listen_spec<V>(s: StackView<V>, port: u16) -> (StackView<V>, Result<(), StackError>) {
    if port == 0 {
        (s, Err(StackError::ZeroPort))
    } else if s.listeners.contains(port) {
        (s, Err(StackError::AlreadyListening(port)))
    } else {
        (StackView { listeners: s.listeners.push(port), ..s }, Ok(()))
    }
}

pub open spec fn without_port(s: Seq<u16>, port: u16) -> Seq<u16>
    decreases s.len(),
{
    if s.len() == 0 {
        s
    } else {
        let rest = without_port(s.drop_first(), port);
        if s[0] == port {
            rest
        } else {
            seq![s[0]] + rest
        }
    }
}

pub open spec fn accepts_without_port(s: Seq<(u16, u64)>, port: u16) -> Seq<(u16, u64)>
    decreases s.len(),
{
    if s.len() == 0 {
        s
    } else {
        let rest = accepts_without_port(s.drop_first(), port);
        if s[0].0 == port {
            rest
        } else {
            seq![s[0]] + rest
        }
    }
}


/// No two retained connections share a tuple.
pub open spec fn keys_unique<V>(conns: Seq<ConnView<V>>) -> bool {
    forall|i: int, j: int|
        #![trigger conns[i], conns[j]]
        0 <= i < conns.len() && 0 <= j < conns.len() && i != j ==> !has_key(
            conns[i],
            conns[j].peer,
            conns[j].local_port,
            conns[j].remote_port,
        )
}

/// The retained connections stay within the global and the per-peer bound.
pub open spec fn within_bounds<V>(s: StackView<V>) -> bool {
    &&& s.conns.len() <= s.config.max_connections
    &&& forall|p: V| #[trigger] peer_count(s.conns, p) <= s.config.max_connections_per_peer
}

/// Every retained connection has non-zero ports.
pub open spec fn ports_nonzero<V>(conns: Seq<ConnView<V>>) -> bool {
    forall|i: int|
        0 <= i < conns.len() ==> (#[trigger] conns[i]).local_port != 0 && conns[i].remote_port
            != 0
}

/// The laws the stack keeps between operations.
pub open spec fn stack_laws<V>(s: StackView<V>) -> bool {
    &&& s.config.valid()
    &&& s.ids.len() == s.conns.len()
    &&& ids_distinct(s.ids)
    &&& s.next_connection_id >= 1
    &&& keys_unique(s.conns)
    &&& ports_nonzero(s.conns)
    &&& within_bounds(s)
    &&& s.next_ephemeral_port >= first_port_ephemeral()
}

pub proof fn lemma_peer_count_push<V>(conns: Seq<ConnView<V>>, c: ConnView<V>, p: V)
    ensures
        peer_count(conns.push(c), p) == peer_count(conns, p) + (if c.peer == p {
            1nat
        } else {
            0nat
        }),
    decreases conns.len(),
{
    if conns.len() > 0 {
        assert(conns.push(c).drop_first() =~= conns.drop_first().push(c));
        lemma_peer_count_push(conns.drop_first(), c, p);
    } else {
        assert(conns.push(c).drop_first() =~= Seq::<ConnView<V>>::empty());
        assert(peer_count(Seq::<ConnView<V>>::empty(), p) == 0);
    }
}

pub proof fn lemma_peer_count_update<V>(conns: Seq<ConnView<V>>, i: int, c: ConnView<V>, p: V)
    requires
        0 <= i < conns.len(),
        c.peer == conns[i].peer,
    ensures
        peer_count(conns.update(i, c), p) == peer_count(conns, p),
    decreases conns.len(),
{
    if i == 0 {
        assert(conns.update(i, c).drop_first() =~= conns.drop_first());
    } else {
        assert(conns.update(i, c).drop_first() =~= conns.drop_first().update(i - 1, c));
        lemma_peer_count_update(conns.drop_first(), i - 1, c, p);
    }
}

pub proof fn lemma_peer_count_remove<V>(conns: Seq<ConnView<V>>, i: int, p: V)
    requires
        0 <= i < conns.len(),
    ensures
        peer_count(conns.remove(i), p) + (if conns[i].peer == p {
            1nat
        } else {
            0nat
        }) == peer_count(conns, p),
    decreases conns.len(),
{
    if i == 0 {
        assert(conns.remove(i) =~= conns.drop_first());
    } else {
        assert(conns.remove(i).drop_first() =~= conns.drop_first().remove(i - 1));
        lemma_peer_count_remove(conns.drop_first(), i - 1, p);
    }
}

/// Replacing a connection by one with the same tuple keeps the laws.
pub proof fn lemma_laws_update<V>(s: StackView<V>, i: int, c: ConnView<V>)
    requires
        stack_laws(s),
        0 <= i < s.conns.len(),
        crate::model::same_key(c, s.conns[i]),
    ensures
        stack_laws(StackView { conns: s.conns.update(i, c), ..s }),
{
    let t = StackView { conns: s.conns.update(i, c), ..s };
    assert forall|p: V| #[trigger] peer_count(t.conns, p) <= t.config.max_connections_per_peer by {
        lemma_peer_count_update(s.conns, i, c, p);
    }
    assert forall|a: int, b: int|
        0 <= a < t.conns.len() && 0 <= b < t.conns.len() && a != b implies !has_key(
            #[trigger] t.conns[a],
            #[trigger] t.conns[b].peer,
            t.conns[b].local_port,
            t.conns[b].remote_port,
        ) by {
        assert(s.conns[a] == s.conns[a] && s.conns[b] == s.conns[b]);
    }
    assert forall|a: int| 0 <= a < t.conns.len() implies (#[trigger] t.conns[a]).local_port != 0
        && t.conns[a].remote_port != 0 by {
        assert(s.conns[a] == s.conns[a]);
    }
}

/// Dropping a connection keeps the laws.
pub proof fn lemma_laws_remove<V>(s: StackView<V>, i: int)
    requires
        stack_laws(s),
        0 <= i < s.conns.len(),
    ensures
        stack_laws(remove_at(s, i)),
{
    let t = remove_at(s, i);
    assert forall|p: V| #[trigger] peer_count(t.conns, p) <= t.config.max_connections_per_peer by {
        lemma_peer_count_remove(s.conns, i, p);
    }
    assert forall|a: int, b: int|
        0 <= a < t.conns.len() && 0 <= b < t.conns.len() && a != b implies !has_key(
            #[trigger] t.conns[a],
            #[trigger] t.conns[b].peer,
            t.conns[b].local_port,
            t.conns[b].remote_port,
        ) by {
        let a0 = if a < i { a } else { a + 1 };
        let b0 = if b < i { b } else { b + 1 };
        assert(t.conns[a] == s.conns[a0]);
        assert(t.conns[b] == s.conns[b0]);
    }
    assert forall|a: int| 0 <= a < t.conns.len() implies (#[trigger] t.conns[a]).local_port != 0
        && t.conns[a].remote_port != 0 by {
        let a0 = if a < i { a } else { a + 1 };
        assert(t.conns[a] == s.conns[a0]);
    }
    assert forall|a: int, b: int| 0 <= a < t.ids.len() && 0 <= b < t.ids.len() && a != b implies t.ids[a] != t.ids[b] by {
        let a0 = if a < i { a } else { a + 1 };
        let b0 = if b < i { b } else { b + 1 };
        assert(t.ids[a] == s.ids[a0]);
        assert(t.ids[b] == s.ids[b0]);
    }
}

/// Dropping the connection at position `i` releases its id: no retained
/// connection has it any more.
pub proof fn lemma_remove_releases_id<V>(s: StackView<V>, i: int)
    requires
        stack_laws(s),
        0 <= i < s.ids.len(),
    ensures
        find_id(remove_at(s, i).ids, s.ids[i]) is None,
{
    let t = s.ids.remove(i);
    assert forall|j: int| 0 <= j < t.len() implies t[j] != s.ids[i] by {
        let j0 = if j < i { j } else { j + 1 };
        assert(t[j] == s.ids[j0]);
    }
    lemma_find_id_none(t, s.ids[i]);
}

/// Adding a connection on a fresh tuple within capacity keeps the laws.
pub proof fn lemma_laws_push<V>(s: StackView<V>, id: u64, c: ConnView<V>)
    requires
        stack_laws(s),
        has_capacity(s, c.peer),
        find_key(s.conns, c.peer, c.local_port, c.remote_port) is None,
        c.local_port != 0,
        c.remote_port != 0,
        !s.ids.contains(id),
    ensures
        stack_laws(StackView { ids: s.ids.push(id), conns: s.conns.push(c), ..s }),
{
    let t = StackView { ids: s.ids.push(id), conns: s.conns.push(c), ..s };
    lemma_find_key_some(s.conns, c.peer, c.local_port, c.remote_port);
    assert forall|p: V| #[trigger] peer_count(t.conns, p) <= t.config.max_connections_per_peer by {
        lemma_peer_count_push(s.conns, c, p);
    }
    assert forall|a: int, b: int|
        0 <= a < t.conns.len() && 0 <= b < t.conns.len() && a != b implies !has_key(
            #[trigger] t.conns[a],
            #[trigger] t.conns[b].peer,
            t.conns[b].local_port,
            t.conns[b].remote_port,
        ) by {
        if a == s.conns.len() {
            assert(!has_key(s.conns[b], c.peer, c.local_port, c.remote_port));
        } else if b == s.conns.len() {
            assert(!has_key(s.conns[a], c.peer, c.local_port, c.remote_port));
        } else {
            assert(t.conns[a] == s.conns[a] && t.conns[b] == s.conns[b]);
        }
    }
    assert forall|a: int| 0 <= a < t.conns.len() implies (#[trigger] t.conns[a]).local_port != 0
        && t.conns[a].remote_port != 0 by {
        if a < s.conns.len() {
            assert(t.conns[a] == s.conns[a]);
        }
    }
    assert forall|a: int, b: int| 0 <= a < t.ids.len() && 0 <= b < t.ids.len() && a != b implies t.ids[a] != t.ids[b] by {
        if a == s.ids.len() {
            assert(!s.ids.contains(t.ids[b]) ==> t.ids[b] != id) by {
                assert(t.ids[b] == s.ids[b]);
            }
            assert(s.ids.contains(s.ids[b]));
        } else if b == s.ids.len() {
            assert(s.ids.contains(s.ids[a]));
        }
    }
}

// ---------------------------------------------------------------------------
// Lemmas about the searches.
pub proof fn lemma_find_id_char(ids: Seq<u64>, id: u64, i: int)
    requires
        0 <= i < ids.len(),
        ids[i] == id,
        forall|j: int| 0 <= j < i ==> ids[j] != id,
    ensures
        find_id(ids, id) == Some(i),
    decreases ids.len(),
{
    if i > 0 {
        let t = ids.drop_first();
        assert forall|j: int| 0 <= j < i - 1 implies t[j] != id by {
            assert(t[j] == ids[j + 1]);
        }
        assert(ids[0] != id);
        lemma_find_id_char(t, id, i - 1);
    }
}

pub proof fn lemma_find_id_none(ids: Seq<u64>, id: u64)
    requires
        forall|j: int| 0 <= j < ids.len() ==> ids[j] != id,
    ensures
        find_id(ids, id) is None,
    decreases ids.len(),
{
    if ids.len() > 0 {
        let t = ids.drop_first();
        assert forall|j: int| 0 <= j < t.len() implies t[j] != id by {
            assert(t[j] == ids[j + 1]);
        }
        assert(ids[0] != id);
        lemma_find_id_none(t, id);
    }
}

pub proof fn lemma_find_id_some(ids: Seq<u64>, id: u64)
    ensures
        find_id(ids, id) matches Some(i) ==> 0 <= i < ids.len() && ids[i] == id,
        find_id(ids, id) is None ==> !ids.contains(id),
    decreases ids.len(),
{
    if ids.len() > 0 {
        lemma_find_id_some(ids.drop_first(), id);
        if find_id(ids, id) is None {
            assert forall|j: int| 0 <= j < ids.len() implies ids[j] != id by {
                if j > 0 {
                    assert(ids[j] == ids.drop_first()[j - 1]);
                }
            }
        }
    }
}

pub proof fn lemma_find_key_char<V>(conns: Seq<ConnView<V>>, peer: V, l: u16, r: u16, i: int)
    requires
        0 <= i < conns.len(),
        has_key(conns[i], peer, l, r),
        forall|j: int| 0 <= j < i ==> !has_key(#[trigger] conns[j], peer, l, r),
    ensures
        find_key(conns, peer, l, r) == Some(i),
    decreases conns.len(),
{
    if i > 0 {
        let t = conns.drop_first();
        assert forall|j: int| 0 <= j < i - 1 implies !has_key(#[trigger] t[j], peer, l, r) by {
            assert(t[j] == conns[j + 1]);
        }
        assert(!has_key(conns[0], peer, l, r));
        lemma_find_key_char(t, peer, l, r, i - 1);
    }
}

pub proof fn lemma_find_key_none<V>(conns: Seq<ConnView<V>>, peer: V, l: u16, r: u16)
    requires
        forall|j: int| 0 <= j < conns.len() ==> !has_key(#[trigger] conns[j], peer, l, r),
    ensures
        find_key(conns, peer, l, r) is None,
    decreases conns.len(),
{
    if conns.len() > 0 {
        let t = conns.drop_first();
        assert forall|j: int| 0 <= j < t.len() implies !has_key(#[trigger] t[j], peer, l, r) by {
            assert(t[j] == conns[j + 1]);
        }
        assert(!has_key(conns[0], peer, l, r));
        lemma_find_key_none(t, peer, l, r);
    }
}

pub proof fn lemma_find_key_some<V>(conns: Seq<ConnView<V>>, peer: V, l: u16, r: u16)
    ensures
        find_key(conns, peer, l, r) matches Some(i) ==> 0 <= i < conns.len() && has_key(
            conns[i],
            peer,
            l,
            r,
        ),
        find_key(conns, peer, l, r) is None ==> forall|j: int|
            0 <= j < conns.len() ==> !has_key(#[trigger] conns[j], peer, l, r),
    decreases conns.len(),
{
    if conns.len() > 0 {
        lemma_find_key_some(conns.drop_first(), peer, l, r);
        if find_key(conns, peer, l, r) is None {
            assert forall|j: int| 0 <= j < conns.len() implies !has_key(
                #[trigger] conns[j],
                peer,
                l,
                r,
            ) by {
                if j > 0 {
                    assert(conns[j] == conns.drop_first()[j - 1]);
                }
            }
        }
    }
}

pub proof fn lemma_peer_count_skip<V>(conns: Seq<ConnView<V>>, peer: V, k: int)
    requires
        0 <= k < conns.len(),
    ensures
        peer_count(conns.skip(k), peer) == (if conns[k].peer == peer {
            1nat
        } else {
            0nat
        }) + peer_count(conns.skip(k + 1), peer),
{
    assert(conns.skip(k).drop_first() =~= conns.skip(k + 1));
}

pub proof fn lemma_poll_conns_skip<V>(ids: Seq<u64>, conns: Seq<ConnView<V>>, k: int, now: u64, cfg: Config)
    requires
        0 <= k < conns.len(),
        ids.len() == conns.len(),
    ensures
        poll_conns(ids.skip(k), conns.skip(k), now, cfg) == ({
            let step = poll_spec(conns[k], now, cfg);
            let (ri, rc, ro) = poll_conns(ids.skip(k + 1), conns.skip(k + 1), now, cfg);
            let out = emit_spec(conns[k].peer, step.segments).0 + ro;
            if step.closed {
                (ri, rc, out)
            } else {
                (seq![ids[k]] + ri, seq![step.conn] + rc, out)
            }
        }),
{
    assert(ids.skip(k).drop_first() =~= ids.skip(k + 1));
    assert(conns.skip(k).drop_first() =~= conns.skip(k + 1));
}

pub proof fn lemma_emit_skip<V>(peer: V, segs: Seq<SegmentView>, k: int)
    requires
        0 <= k < segs.len(),
    ensures
        emit_spec(peer, segs.skip(k)) == match encode_spec(segs[k]) {
            Err(e) => (Seq::<(V, Seq<u8>)>::empty(), Some(e)),
            Ok(b) => {
                let (rest, err) = emit_spec(peer, segs.skip(k + 1));
                (seq![(peer, b)] + rest, err)
            },
        },
{
    assert(segs.skip(k).drop_first() =~= segs.skip(k + 1));
}

} // verus!
