//! The sans-I/O stack: listeners, retained connections keyed by
//! `(peer, local port, remote port)`, and the queue of outbound datagrams.

#![verifier::loop_isolation(false)]

use vstd::prelude::*;

use crate::connection::{Connection, Update, segment_views};
use crate::marker::{MarkerStatus, SendMarker, marker_status_spec};
use crate::model::ConnView;
use crate::stack_model::{
    StackView, emit_spec, emitted, find_id, find_key, first_port_ephemeral, has_capacity,
    has_key, lemma_emit_skip, lemma_find_id_char, lemma_find_id_none, lemma_find_key_char,
    lemma_find_key_none, lemma_find_id_some, lemma_peer_count_skip, next_id, next_isn_spec, peer_count, stack_laws,
};
use crate::types::{Config, ConnectionId, Outbound, Peer, StackError, State, time_ok};
use crate::model::{
    StepView, close_spec, lemma_poll_key, poll_spec, lemma_close_key, lemma_on_segment_key, lemma_write_key, on_segment_spec,
    read_spec, same_key, write_spec,
};
use crate::seq::{advance, seq_add};
use crate::stack_model::{
    free_id, lemma_fresh_id_is_free, abort_spec, accept_scan, lemma_poll_conns_skip, poll_conns, stack_poll_spec, queued_for, without_tuple, apply_step, connect_from_spec, connect_spec, ephemeral_scan, input_new_spec, input_spec,
    stack_close_spec, stack_read_spec, stack_write_spec, lemma_laws_push, lemma_laws_remove, lemma_laws_update, push_reset, remove_at,
    reset_for_spec,
};
use crate::wire::{copy_vec, FIPS_VERSION, Flags, Segment, SegmentView, sequence_len_spec};

verus! {

pub struct Stack<P> {
    config: Config,
    listeners: Vec<u16>,
    accepts: Vec<(u16, u64)>,
    ids: Vec<u64>,
    connections: Vec<Connection<P>>,
    outbound: Vec<Outbound<P>>,
    next_connection_id: u64,
    next_ephemeral_port: u16,
    isn_state: u64,
    next_token: u64,
}

pub open spec fn conn_views<P: Peer>(s: Seq<Connection<P>>) -> Seq<ConnView<P::V>> {
    s.map_values(|c: Connection<P>| c@)
}

pub open spec fn outbound_views<P: Peer>(s: Seq<Outbound<P>>) -> Seq<(P::V, Seq<u8>)> {
    s.map_values(|o: Outbound<P>| (o.peer@, o.bytes@))
}

impl<P: Peer> View for Stack<P> {
    type V = StackView<P::V>;

    closed spec fn view(&self) -> StackView<P::V> {
        StackView {
            config: self.config,
            listeners: self.listeners@,
            accepts: self.accepts@,
            ids: self.ids@,
            conns: conn_views(self.connections@),
            outbound: outbound_views(self.outbound@),
            next_connection_id: self.next_connection_id,
            next_ephemeral_port: self.next_ephemeral_port,
            isn_state: self.isn_state,
            next_token: self.next_token,
        }
    }
}

impl<P: Peer> Stack<P> {
    /// The stack's internal consistency: its laws, and every connection within
    /// its own bounds.
    pub closed spec fn wf(&self) -> bool {
        &&& stack_laws(self@)
        &&& self.ids@.len() == self.connections@.len()
        &&& forall|i: int|
            0 <= i < self.connections@.len() ==> (#[trigger] self.connections@[i]).wf(self.config)
    }

    /// A well-formed stack keeps its laws, and every retained connection stays
    /// within its buffer and reassembly bounds.
    pub proof fn lemma_wf_laws(&self)
        requires
            self.wf(),
        ensures
            stack_laws(self@),
            forall|i: int|
                0 <= i < self@.conns.len() ==> crate::connection::conn_wf(
                    #[trigger] self@.conns[i],
                    self@.config,
                ),
    {
        assert forall|i: int| 0 <= i < self@.conns.len() implies crate::connection::conn_wf(
            #[trigger] self@.conns[i],
            self@.config,
        ) by {
            assert(self@.conns[i] == self.connections@[i]@);
            assert(self.connections@[i].wf(self.config));
        }
    }

    pub fn new(config: Config, isn_seed: u64) -> (r: Self)
        requires
            config.valid(),
        ensures
            r.wf(),
            r@ == crate::stack_model::new_stack_spec::<P::V>(config, isn_seed),
    {
        let r = Self {
            config,
            listeners: Vec::new(),
            accepts: Vec::new(),
            ids: Vec::new(),
            connections: Vec::new(),
            outbound: Vec::new(),
            next_connection_id: 1,
            next_ephemeral_port: 49_152,
            isn_state: if isn_seed >= 1 {
                isn_seed
            } else {
                1
            },
            next_token: 1,
        };
        assert(conn_views(r.connections@) =~= Seq::<ConnView<P::V>>::empty());
        assert(outbound_views(r.outbound@) =~= Seq::<(P::V, Seq<u8>)>::empty());
        assert forall|p: P::V| #[trigger] peer_count(r@.conns, p) <= config.max_connections_per_peer by {
        }
        r
    }

    pub fn listen(&mut self, port: u16) -> (r: Result<(), StackError>)
        requires
            old(self).wf(),
        ensures
            final(self).wf(),
            (final(self)@, r) == crate::stack_model::listen_spec(old(self)@, port),
    {
        if port == 0 {
            return Err(StackError::ZeroPort);
        }
        let mut i: usize = 0;
        while i < self.listeners.len()
            invariant
                i <= self.listeners@.len(),
                forall|j: int| 0 <= j < i ==> self.listeners@[j] != port,
            decreases self.listeners@.len() - i,
        {
            if self.listeners[i] == port {
                assert(self.listeners@.contains(port));
                return Err(StackError::AlreadyListening(port));
            }
            i = i + 1;
        }
        self.listeners.push(port);
        Ok(())
    }

    pub fn close_listener(&mut self, port: u16)
        requires
            old(self).wf(),
        ensures
            final(self).wf(),
            final(self)@ == (StackView {
                listeners: crate::stack_model::without_port(old(self)@.listeners, port),
                accepts: crate::stack_model::accepts_without_port(old(self)@.accepts, port),
                ..old(self)@
            }),
    {
        let ghost l0 = self.listeners@;
        let mut kept: Vec<u16> = Vec::new();
        let mut i: usize = 0;
        assert(l0.skip(0) =~= l0);
        while i < self.listeners.len()
            invariant
                l0 == self.listeners@,
                i <= l0.len(),
                crate::stack_model::without_port(l0, port) == kept@
                    + crate::stack_model::without_port(l0.skip(i as int), port),
            decreases l0.len() - i,
        {
            assert(l0.skip(i as int).drop_first() =~= l0.skip(i + 1));
            let p = self.listeners[i];
            if p != port {
                let ghost before = kept@;
                kept.push(p);
                assert(before + (seq![p] + crate::stack_model::without_port(l0.skip(i + 1), port))
                    =~= kept@ + crate::stack_model::without_port(l0.skip(i + 1), port));
            }
            i = i + 1;
        }
        assert(l0.skip(l0.len() as int) =~= Seq::<u16>::empty());
        assert(kept@ + Seq::<u16>::empty() =~= kept@);
        self.listeners = kept;
        let ghost a0 = self.accepts@;
        let mut kept_accepts: Vec<(u16, u64)> = Vec::new();
        let mut k: usize = 0;
        assert(a0.skip(0) =~= a0);
        while k < self.accepts.len()
            invariant
                a0 == self.accepts@,
                k <= a0.len(),
                crate::stack_model::accepts_without_port(a0, port) == kept_accepts@
                    + crate::stack_model::accepts_without_port(a0.skip(k as int), port),
            decreases a0.len() - k,
        {
            assert(a0.skip(k as int).drop_first() =~= a0.skip(k + 1));
            let entry = self.accepts[k];
            if entry.0 != port {
                let ghost before = kept_accepts@;
                kept_accepts.push(entry);
                assert(before + (seq![entry] + crate::stack_model::accepts_without_port(
                    a0.skip(k + 1),
                    port,
                )) =~= kept_accepts@ + crate::stack_model::accepts_without_port(
                    a0.skip(k + 1),
                    port,
                ));
            }
            k = k + 1;
        }
        assert(a0.skip(a0.len() as int) =~= Seq::<(u16, u64)>::empty());
        assert(kept_accepts@ + Seq::<(u16, u64)>::empty() =~= kept_accepts@);
        self.accepts = kept_accepts;
    }

    /// The position of connection `id`.
    fn index_of(&self, id: u64) -> (r: Option<usize>)
        requires
            self.wf(),
        ensures
            match find_id(self@.ids, id) {
                Some(i) => r matches Some(j) && j as int == i,
                None => r is None,
            },
            r matches Some(i) ==> i < self.connections@.len() && self.ids@[i as int] == id,
    {
        let mut i: usize = 0;
        while i < self.ids.len()
            invariant
                i <= self.ids@.len(),
                forall|j: int| 0 <= j < i ==> self.ids@[j] != id,
            decreases self.ids@.len() - i,
        {
            if self.ids[i] == id {
                proof {
                    lemma_find_id_char(self.ids@, id, i as int);
                }
                return Some(i);
            }
            i = i + 1;
        }
        proof {
            lemma_find_id_none(self.ids@, id);
        }
        None
    }

    /// The position of the connection with this tuple.
    fn index_of_key(&self, peer: &P, local_port: u16, remote_port: u16) -> (r: Option<usize>)
        requires
            self.wf(),
        ensures
            match find_key(self@.conns, peer@, local_port, remote_port) {
                Some(i) => r matches Some(j) && j as int == i,
                None => r is None,
            },
            r matches Some(i) ==> i < self.connections@.len(),
    {
        let mut i: usize = 0;
        while i < self.connections.len()
            invariant
                i <= self.connections@.len(),
                forall|j: int|
                    0 <= j < i ==> !has_key(
                        #[trigger] self@.conns[j],
                        peer@,
                        local_port,
                        remote_port,
                    ),
            decreases self.connections@.len() - i,
        {
            assert(self@.conns[i as int] == self.connections@[i as int]@);
            let c = &self.connections[i];
            if c.peer.same_peer(peer) && c.local_port == local_port && c.remote_port
                == remote_port {
                proof {
                    lemma_find_key_char(self@.conns, peer@, local_port, remote_port, i as int);
                }
                return Some(i);
            }
            i = i + 1;
        }
        proof {
            lemma_find_key_none(self@.conns, peer@, local_port, remote_port);
        }
        None
    }

    fn count_for_peer(&self, peer: &P) -> (r: usize)
        requires
            self.wf(),
        ensures
            r == peer_count(self@.conns, peer@),
    {
        let ghost cs = self@.conns;
        let mut count: usize = 0;
        let mut i: usize = 0;
        assert(cs.skip(0) =~= cs);
        while i < self.connections.len()
            invariant
                cs == self@.conns,
                i <= cs.len(),
                peer_count(cs, peer@) == count + peer_count(cs.skip(i as int), peer@),
                cs.len() <= self.config.max_connections,
                count <= i,
            decreases cs.len() - i,
        {
            proof {
                lemma_peer_count_skip(cs, peer@, i as int);
            }
            assert(cs[i as int] == self.connections@[i as int]@);
            if self.connections[i].peer.same_peer(peer) {
                count = count + 1;
            }
            i = i + 1;
        }
        assert(cs.skip(cs.len() as int) =~= Seq::<ConnView<P::V>>::empty());
        count
    }

    fn has_capacity_for(&self, peer: &P) -> (r: bool)
        requires
            self.wf(),
        ensures
            r == has_capacity(self@, peer@),
    {
        if self.connections.len() >= self.config.max_connections {
            return false;
        }
        self.count_for_peer(peer) < self.config.max_connections_per_peer
    }

    /// The next id, skipping ids still retained.
    fn allocate_connection_id(&mut self) -> (r: u64)
        requires
            old(self).ids@.len() < u64::MAX,
            old(self).next_connection_id >= 1,
        ensures
            r == free_id(old(self).ids@, old(self).next_connection_id, old(self).ids@.len()),
            final(self).next_connection_id == next_id(r),
            final(self).config == old(self).config,
            final(self).listeners == old(self).listeners,
            final(self).accepts == old(self).accepts,
            final(self).ids == old(self).ids,
            final(self).connections == old(self).connections,
            final(self).outbound == old(self).outbound,
            final(self).next_ephemeral_port == old(self).next_ephemeral_port,
            final(self).isn_state == old(self).isn_state,
            final(self).next_token == old(self).next_token,
    {
        let ghost ids = self.ids@;
        let ghost start = self.next_connection_id;
        let mut cand = self.next_connection_id;
        let mut left: usize = self.ids.len();
        while left > 0 && contains_id(&self.ids, cand)
            invariant
                ids == self.ids@,
                left <= ids.len(),
                free_id(ids, start, ids.len()) == free_id(ids, cand, left as nat),
            decreases left,
        {
            cand = if cand == u64::MAX {
                1
            } else {
                cand + 1
            };
            left = left - 1;
        }
        self.next_connection_id = if cand == u64::MAX {
            1
        } else {
            cand + 1
        };
        cand
    }

    fn next_isn(&mut self) -> (r: u32)
        ensures
            (final(self).isn_state, r) == next_isn_spec(old(self).isn_state),
            final(self).config == old(self).config,
            final(self).listeners == old(self).listeners,
            final(self).accepts == old(self).accepts,
            final(self).ids == old(self).ids,
            final(self).connections == old(self).connections,
            final(self).outbound == old(self).outbound,
            final(self).next_ephemeral_port == old(self).next_ephemeral_port,
            final(self).next_connection_id == old(self).next_connection_id,
            final(self).next_token == old(self).next_token,
    {
        let mut value = self.isn_state;
        value = value ^ (value << 13u64);
        value = value ^ (value >> 7u64);
        value = value ^ (value << 17u64);
        self.isn_state = if value >= 1 {
            value
        } else {
            1
        };
        (value ^ (value >> 32u64)) as u32
    }

    fn allocate_token(&mut self) -> (r: u64)
        ensures
            r == old(self).next_token,
            final(self).next_token == next_id(old(self).next_token),
            final(self).config == old(self).config,
            final(self).listeners == old(self).listeners,
            final(self).accepts == old(self).accepts,
            final(self).ids == old(self).ids,
            final(self).connections == old(self).connections,
            final(self).outbound == old(self).outbound,
            final(self).next_ephemeral_port == old(self).next_ephemeral_port,
            final(self).isn_state == old(self).isn_state,
            final(self).next_connection_id == old(self).next_connection_id,
    {
        let token = self.next_token;
        self.next_token = if token == u64::MAX {
            1
        } else {
            token + 1
        };
        token
    }

    /// Retain a new connection under `id`.
    fn push_connection(&mut self, id: u64, c: Connection<P>)
        requires
            old(self).wf(),
            c.wf(old(self).config),
            has_capacity(old(self)@, c@.peer),
            find_key(old(self)@.conns, c@.peer, c@.local_port, c@.remote_port) is None,
            c@.local_port != 0,
            c@.remote_port != 0,
            !old(self)@.ids.contains(id),
        ensures
            final(self).wf(),
            final(self)@ == (StackView {
                ids: old(self)@.ids.push(id),
                conns: old(self)@.conns.push(c@),
                ..old(self)@
            }),
    {
        let ghost s0 = self@;
        let ghost cv = c@;
        self.ids.push(id);
        self.connections.push(c);
        proof {
            assert(conn_views(self.connections@) =~= s0.conns.push(cv));
            lemma_laws_push(s0, id, cv);
        }
    }

    /// Forget the connection at position `i`.
    fn remove_connection(&mut self, i: usize)
        requires
            old(self).wf(),
            i < old(self)@.conns.len(),
        ensures
            final(self).wf(),
            final(self)@ == remove_at(old(self)@, i as int),
    {
        let ghost s0 = self@;
        let ghost old_conns = self.connections@;
        let _ = self.ids.remove(i);
        let _ = self.connections.remove(i);
        proof {
            assert(conn_views(self.connections@) =~= s0.conns.remove(i as int));
            lemma_laws_remove(s0, i as int);
            assert forall|j: int| 0 <= j < self.connections@.len() implies (
            #[trigger] self.connections@[j]).wf(self.config) by {
                if j < i {
                    assert(self.connections@[j] == old_conns[j]);
                } else {
                    assert(self.connections@[j] == old_conns[j + 1]);
                }
            }
        }
    }

    /// Finish a connection's step at position `i`, whose new state is already
    /// in place: queue the accept, emit the segments, drop a closed connection.
    fn finish_step(
        &mut self,
        i: usize,
        update: Update,
        Ghost(s0): Ghost<StackView<P::V>>,
        Ghost(step): Ghost<StepView<P::V>>,
    ) -> (r: Result<(), StackError>)
        requires
            old(self).wf(),
            0 <= i < s0.conns.len(),
            old(self)@ == (StackView { conns: s0.conns.update(i as int, step.conn), ..s0 }),
            same_key(step.conn, s0.conns[i as int]),
            update.matches(step.conn, step),
        ensures
            final(self).wf(),
            (final(self)@, r) == apply_step(s0, i as int, step),
    {
        assert(self@.conns[i as int] == self.connections@[i as int]@);
        if update.accepted {
            let port = self.connections[i].local_port;
            let id = self.ids[i];
            self.accepts.push((port, id));
        }
        let r = emit(&mut self.outbound, &self.connections[i].peer, &update.segments);
        if r.is_err() {
            return r;
        }
        if update.closed {
            self.remove_connection(i);
        }
        Ok(())
    }

    /// Whether a listener is open on `port`.
    fn is_listening(&self, port: u16) -> (r: bool)
        ensures
            r == self@.listeners.contains(port),
    {
        let mut i: usize = 0;
        while i < self.listeners.len()
            invariant
                i <= self.listeners@.len(),
                forall|j: int| 0 <= j < i ==> self.listeners@[j] != port,
            decreases self.listeners@.len() - i,
        {
            if self.listeners[i] == port {
                assert(self.listeners@[i as int] == port);
                return true;
            }
            i = i + 1;
        }
        false
    }

    /// Queue the reset for a segment no connection takes.
    fn emit_reset(&mut self, peer: P, incoming: &Segment) -> (r: Result<(), StackError>)
        requires
            old(self).wf(),
        ensures
            final(self).wf(),
            (final(self)@, r) == push_reset(old(self)@, peer@, incoming@),
    {
        let reset = reset_for(incoming);
        match reset.encode() {
            Ok(bytes) => {
                let ghost before = self@.outbound;
                let ghost pv = peer@;
                let ghost bv = bytes@;
                self.outbound.push(Outbound { peer, bytes });
                assert(outbound_views(self.outbound@) =~= before.push((pv, bv)));
                Ok(())
            },
            Err(e) => Err(StackError::Wire(e)),
        }
    }

    #[verifier::rlimit(30)]
    #[verifier::spinoff_prover]
    pub fn connect_from_with_isn(
        &mut self,
        peer: P,
        local_port: u16,
        remote_port: u16,
        isn: u32,
        now_ms: u64,
    ) -> (r: Result<ConnectionId, StackError>)
        requires
            old(self).wf(),
        ensures
            final(self).wf(),
            final(self)@ == connect_from_spec(
                old(self)@,
                peer@,
                local_port,
                remote_port,
                isn,
                now_ms,
            ).0,
            match connect_from_spec(old(self)@, peer@, local_port, remote_port, isn, now_ms).1 {
                Ok(id) => r matches Ok(x) && x.raw() == id,
                Err(e) => r == Err::<ConnectionId, StackError>(e),
            },
    {
        if local_port == 0 || remote_port == 0 {
            return Err(StackError::ZeroPort);
        }
        if !self.has_capacity_for(&peer) {
            return Err(StackError::ConnectionLimit);
        }
        if self.index_of_key(&peer, local_port, remote_port).is_some() {
            return Err(StackError::ConnectionExists);
        }
        proof {
            lemma_fresh_id_is_free(self.ids@, self.next_connection_id);
        }
        let id = self.allocate_connection_id();
        let token = self.allocate_token();
        let (connection, syn) = Connection::client(
            peer,
            local_port,
            remote_port,
            isn,
            now_ms,
            token,
            &self.config,
        );
        let mut segments: Vec<Segment> = Vec::new();
        segments.push(syn);
        assert(segment_views(segments@) =~= seq![syn@]);
        self.push_connection(id, connection);
        let last = self.connections.len() - 1;
        assert(self@.conns[last as int] == self.connections@[last as int]@);
        match emit(&mut self.outbound, &self.connections[last].peer, &segments) {
            Ok(()) => Ok(ConnectionId::from_raw(id)),
            Err(e) => Err(e),
        }
    }

    /// Advance the ephemeral-port cursor to the first free port towards
    /// `(peer, remote_port)`, trying each port of the range at most once.
    fn allocate_ephemeral_port(&mut self, peer: &P, remote_port: u16) -> (r: Result<u16, StackError>)
        requires
            old(self).wf(),
        ensures
            final(self).wf(),
            final(self)@ == (StackView {
                next_ephemeral_port: ephemeral_scan(
                    old(self)@.conns,
                    peer@,
                    remote_port,
                    old(self)@.next_ephemeral_port,
                    16_384,
                ).0,
                ..old(self)@
            }),
            match ephemeral_scan(
                old(self)@.conns,
                peer@,
                remote_port,
                old(self)@.next_ephemeral_port,
                16_384,
            ).1 {
                Some(p) => r == Ok::<u16, StackError>(p),
                None => r == Err::<u16, StackError>(StackError::NoEphemeralPort),
            },
    {
        let ghost s0 = self@;
        let mut tries: u16 = 0;
        while tries < 16_384
            invariant
                self.wf(),
                self@ == (StackView { next_ephemeral_port: self.next_ephemeral_port, ..s0 }),
                tries <= 16_384,
                ephemeral_scan(s0.conns, peer@, remote_port, s0.next_ephemeral_port, 16_384)
                    == ephemeral_scan(
                    s0.conns,
                    peer@,
                    remote_port,
                    self.next_ephemeral_port,
                    (16_384 - tries) as nat,
                ),
            decreases 16_384 - tries,
        {
            let port = self.next_ephemeral_port;
            self.next_ephemeral_port = if port == u16::MAX {
                49_152
            } else {
                port + 1
            };
            if self.index_of_key(peer, port, remote_port).is_none() {
                return Ok(port);
            }
            tries = tries + 1;
        }
        Err(StackError::NoEphemeralPort)
    }

    pub fn connect(&mut self, peer: P, remote_port: u16, now_ms: u64) -> (r: Result<
        ConnectionId,
        StackError,
    >)
        requires
            old(self).wf(),
        ensures
            final(self).wf(),
            final(self)@ == connect_spec(old(self)@, peer@, remote_port, now_ms).0,
            match connect_spec(old(self)@, peer@, remote_port, now_ms).1 {
                Ok(id) => r matches Ok(x) && x.raw() == id,
                Err(e) => r == Err::<ConnectionId, StackError>(e),
            },
    {
        let local_port = match self.allocate_ephemeral_port(&peer, remote_port) {
            Ok(p) => p,
            Err(e) => return Err(e),
        };
        let isn = self.next_isn();
        self.connect_from_with_isn(peer, local_port, remote_port, isn, now_ms)
    }

    #[verifier::rlimit(30)]
    #[verifier::spinoff_prover]
    pub fn input(&mut self, peer: P, bytes: &[u8], now_ms: u64) -> (r: Result<(), StackError>)
        requires
            old(self).wf(),
            time_ok(now_ms),
        ensures
            final(self).wf(),
            (final(self)@, r) == input_spec(old(self)@, peer@, bytes@, now_ms),
    {
        let segment = match Segment::decode(bytes) {
            Ok(s) => s,
            Err(e) => return Err(StackError::Wire(e)),
        };
        match self.index_of_key(&peer, segment.dst_port, segment.src_port) {
            Some(i) => {
                let ghost s0 = self@;
                let ghost step = on_segment_spec(s0.conns[i as int], segment@, now_ms, s0.config);
                assert(s0.conns[i as int] == self.connections@[i as int]@);
                assert(self.connections@[i as int].wf(self.config));
                let update = self.connections[i].on_segment(&segment, now_ms, &self.config);
                proof {
                    lemma_on_segment_key(s0.conns[i as int], segment@, now_ms, s0.config);
                    assert(conn_views(self.connections@) =~= s0.conns.update(i as int, step.conn));
                    lemma_laws_update(s0, i as int, step.conn);
                }
                self.finish_step(i, update, Ghost(s0), Ghost(step))
            },
            None => {
                proof {
                    crate::wire::lemma_decode_ports(bytes@);
                }
                self.input_new(peer, &segment, now_ms)
            },
        }
    }

    /// A segment that reached no retained connection.
    #[verifier::rlimit(30)]
    #[verifier::spinoff_prover]
    fn input_new(&mut self, peer: P, segment: &Segment, now_ms: u64) -> (r: Result<(), StackError>)
        requires
            old(self).wf(),
            segment@.src_port != 0,
            segment@.dst_port != 0,
            find_key(old(self)@.conns, peer@, segment@.dst_port, segment@.src_port) is None,
        ensures
            final(self).wf(),
            (final(self)@, r) == input_new_spec(old(self)@, peer@, segment@, now_ms),
    {
        if segment.flags.contains(Flags::syn()) && !segment.flags.contains(Flags::ack())
            && self.is_listening(segment.dst_port) {
            if !segment.supports_fips_version(FIPS_VERSION) {
                return self.emit_reset(peer, segment);
            }
            if !self.has_capacity_for(&peer) {
                return Err(StackError::ConnectionLimit);
            }
            proof {
            lemma_fresh_id_is_free(self.ids@, self.next_connection_id);
        }
        let id = self.allocate_connection_id();
            let isn = self.next_isn();
            let token = self.allocate_token();
            let (connection, syn_ack) = Connection::server(
                peer,
                segment,
                isn,
                now_ms,
                token,
                &self.config,
            );
            let mut segments: Vec<Segment> = Vec::new();
            segments.push(syn_ack);
            assert(segment_views(segments@) =~= seq![syn_ack@]);
            self.push_connection(id, connection);
            let last = self.connections.len() - 1;
            assert(self@.conns[last as int] == self.connections@[last as int]@);
            emit(&mut self.outbound, &self.connections[last].peer, &segments)
        } else if !segment.flags.contains(Flags::rst()) {
            self.emit_reset(peer, segment)
        } else {
            Ok(())
        }
    }

    /// Timer work on every retained connection, in the order they were
    /// retained; connections that close are released.
    #[verifier::rlimit(60)]
    #[verifier::spinoff_prover]
    #[verifier::loop_isolation(true)]
    pub fn poll(&mut self, now_ms: u64)
        requires
            old(self).wf(),
            time_ok(now_ms),
        ensures
            final(self).wf(),
            final(self)@ == stack_poll_spec(old(self)@, now_ms),
    {
        let ghost s0 = self@;
        let ghost cfg = s0.config;
        let ghost total = poll_conns(s0.ids, s0.conns, now_ms, cfg);
        let ghost mut k: int = 0;
        let ghost mut ki: Seq<u64> = Seq::empty();
        let ghost mut kc: Seq<ConnView<P::V>> = Seq::empty();
        let ghost mut acc: Seq<(P::V, Seq<u8>)> = Seq::empty();
        let mut i: usize = 0;
        proof {
            assert(ki + s0.ids.skip(0) =~= s0.ids);
            assert(kc + s0.conns.skip(0) =~= s0.conns);
            assert(s0.outbound + acc =~= s0.outbound);
            assert(ki + total.0 =~= total.0);
            assert(kc + total.1 =~= total.1);
            assert(acc + total.2 =~= total.2);
            assert(self@ == (StackView {
                ids: ki + s0.ids.skip(k),
                conns: kc + s0.conns.skip(k),
                outbound: s0.outbound + acc,
                ..s0
            }));
        }
        while i < self.connections.len()
            invariant
                self.wf(),
                time_ok(now_ms),
                cfg == s0.config,
                0 <= k <= s0.conns.len(),
                s0.ids.len() == s0.conns.len(),
                i == ki.len(),
                i == kc.len(),
                self@ == (StackView {
                    ids: ki + s0.ids.skip(k),
                    conns: kc + s0.conns.skip(k),
                    outbound: s0.outbound + acc,
                    ..s0
                }),
                total.0 == ki + poll_conns(s0.ids.skip(k), s0.conns.skip(k), now_ms, cfg).0,
                total.1 == kc + poll_conns(s0.ids.skip(k), s0.conns.skip(k), now_ms, cfg).1,
                total.2 == acc + poll_conns(s0.ids.skip(k), s0.conns.skip(k), now_ms, cfg).2,
            decreases self.connections@.len() - i,
        {
            let ghost before = self@;
            let ghost step = poll_spec(s0.conns[k], now_ms, cfg);
            let ghost out = emit_spec(s0.conns[k].peer, step.segments).0;
            let ghost rest = poll_conns(s0.ids.skip(k + 1), s0.conns.skip(k + 1), now_ms, cfg);
            proof {
                lemma_poll_conns_skip(s0.ids, s0.conns, k, now_ms, cfg);
                assert(before.conns[i as int] == s0.conns[k]);
                assert(before.ids[i as int] == s0.ids[k]);
            }
            assert(before.conns[i as int] == self.connections@[i as int]@);
            assert(self.connections@[i as int].wf(self.config));
            let update = self.connections[i].poll(now_ms, &self.config);
            proof {
                lemma_poll_key(s0.conns[k], now_ms, cfg);
                assert(conn_views(self.connections@) =~= before.conns.update(i as int, step.conn));
                lemma_laws_update(before, i as int, step.conn);
            }
            assert(self@.conns[i as int] == self.connections@[i as int]@);
            let _ = emit(&mut self.outbound, &self.connections[i].peer, &update.segments);
            if update.closed {
                self.remove_connection(i);
                proof {
                    assert(self@.ids =~= ki + s0.ids.skip(k + 1));
                    assert(self@.conns =~= kc + s0.conns.skip(k + 1));
                }
            } else {
                i = i + 1;
                proof {
                    assert(self@.ids =~= ki.push(s0.ids[k]) + s0.ids.skip(k + 1));
                    assert(self@.conns =~= kc.push(step.conn) + s0.conns.skip(k + 1));
                    assert(total.0 =~= ki.push(s0.ids[k]) + rest.0);
                    assert(total.1 =~= kc.push(step.conn) + rest.1);
                    ki = ki.push(s0.ids[k]);
                    kc = kc.push(step.conn);
                }
            }
            proof {
                assert(self@.outbound =~= s0.outbound + (acc + out));
                assert(total.2 =~= (acc + out) + rest.2);
                acc = acc + out;
                k = k + 1;
            }
        }
        proof {
            assert(s0.conns.skip(k).len() == 0);
            assert(s0.ids.skip(k).len() == 0);
            assert(total.0 =~= ki);
            assert(total.1 =~= kc);
            assert(total.2 =~= acc);
            assert(self@.ids =~= ki);
            assert(self@.conns =~= kc);
        }
    }

    #[verifier::rlimit(30)]
    #[verifier::spinoff_prover]
    pub fn write(&mut self, id: ConnectionId, bytes: &[u8], now_ms: u64) -> (r: Result<
        usize,
        StackError,
    >)
        requires
            old(self).wf(),
        ensures
            final(self).wf(),
            (final(self)@, r) == stack_write_spec(old(self)@, id.raw(), bytes@, now_ms),
    {
        let i = match self.index_of(id.get()) {
            Some(i) => i,
            None => return Err(StackError::UnknownConnection),
        };
        let ghost s0 = self@;
        assert(s0.conns[i as int] == self.connections@[i as int]@);
        assert(self.connections@[i as int].wf(self.config));
        let (accepted, segments) = match self.connections[i].write(bytes, now_ms, &self.config) {
            Ok(x) => x,
            Err(e) => {
                assert(conn_views(self.connections@) =~= s0.conns);
                return Err(e);
            },
        };
        proof {
            let c = write_spec(s0.conns[i as int], bytes@, now_ms, s0.config)->Ok_0.0;
            lemma_write_key(s0.conns[i as int], bytes@, now_ms, s0.config);
            assert(conn_views(self.connections@) =~= s0.conns.update(i as int, c));
            lemma_laws_update(s0, i as int, c);
        }
        assert(self@.conns[i as int] == self.connections@[i as int]@);
        match emit(&mut self.outbound, &self.connections[i].peer, &segments) {
            Ok(()) => Ok(accepted),
            Err(e) => Err(e),
        }
    }

    #[verifier::rlimit(30)]
    #[verifier::spinoff_prover]
    pub fn read(&mut self, id: ConnectionId, max: usize, now_ms: u64) -> (r: Result<
        Vec<u8>,
        StackError,
    >)
        requires
            old(self).wf(),
        ensures
            final(self).wf(),
            final(self)@ == stack_read_spec(old(self)@, id.raw(), max).0,
            match stack_read_spec(old(self)@, id.raw(), max).1 {
                Ok(b) => r matches Ok(v) && v@ == b,
                Err(e) => r matches Err(x) && x == e,
            },
    {
        let i = match self.index_of(id.get()) {
            Some(i) => i,
            None => return Err(StackError::UnknownConnection),
        };
        let ghost s0 = self@;
        assert(s0.conns[i as int] == self.connections@[i as int]@);
        assert(self.connections@[i as int].wf(self.config));
        let (bytes, segments) = self.connections[i].read(max, now_ms, &self.config);
        proof {
            let c = read_spec(s0.conns[i as int], max as int).0;
            assert(same_key(c, s0.conns[i as int]));
            assert(conn_views(self.connections@) =~= s0.conns.update(i as int, c));
            lemma_laws_update(s0, i as int, c);
        }
        assert(self@.conns[i as int] == self.connections@[i as int]@);
        match emit(&mut self.outbound, &self.connections[i].peer, &segments) {
            Ok(()) => Ok(bytes),
            Err(e) => Err(e),
        }
    }

    #[verifier::rlimit(30)]
    #[verifier::spinoff_prover]
    pub fn close(&mut self, id: ConnectionId, now_ms: u64) -> (r: Result<(), StackError>)
        requires
            old(self).wf(),
        ensures
            final(self).wf(),
            (final(self)@, r) == stack_close_spec(old(self)@, id.raw(), now_ms),
    {
        let i = match self.index_of(id.get()) {
            Some(i) => i,
            None => return Err(StackError::UnknownConnection),
        };
        let ghost s0 = self@;
        let ghost step = close_spec(s0.conns[i as int], now_ms);
        assert(s0.conns[i as int] == self.connections@[i as int]@);
        assert(self.connections@[i as int].wf(self.config));
        let update = self.connections[i].close(now_ms, &self.config);
        proof {
            lemma_close_key(s0.conns[i as int], now_ms);
            assert(conn_views(self.connections@) =~= s0.conns.update(i as int, step.conn));
            lemma_laws_update(s0, i as int, step.conn);
        }
        self.finish_step(i, update, Ghost(s0), Ghost(step))
    }

    /// Abort one retained tuple: drop what is queued for it, queue one active
    /// reset, and release it at once.
    #[verifier::rlimit(30)]
    #[verifier::spinoff_prover]
    pub fn abort(&mut self, id: ConnectionId) -> (r: Result<(), StackError>)
        requires
            old(self).wf(),
        ensures
            final(self).wf(),
            (final(self)@, r) == abort_spec(old(self)@, id.raw()),
    {
        let i = match self.index_of(id.get()) {
            Some(i) => i,
            None => return Err(StackError::UnknownConnection),
        };
        let ghost s0 = self@;
        assert(s0.conns[i as int] == self.connections@[i as int]@);
        assert(self.connections@[i as int].wf(self.config));
        let reset = match self.connections[i].reset_segment().encode() {
            Ok(b) => b,
            Err(e) => return Err(StackError::Wire(e)),
        };
        let local_port = self.connections[i].local_port;
        let remote_port = self.connections[i].remote_port;
        let mut kept = outbound_without(
            &self.outbound,
            &self.connections[i].peer,
            local_port,
            remote_port,
        );
        let ghost k0 = outbound_views(kept@);
        let ghost rv = reset@;
        kept.push(Outbound { peer: self.connections[i].peer.copy_peer(), bytes: reset });
        assert(outbound_views(kept@) =~= k0.push((s0.conns[i as int].peer, rv)));
        self.outbound = kept;
        self.remove_connection(i);
        Ok(())
    }

    /// The oldest completed handshake on `port` whose connection is still
    /// retained; stale entries before it are discarded.
    #[verifier::rlimit(30)]
    #[verifier::spinoff_prover]
    pub fn accept(&mut self, port: u16) -> (r: Option<ConnectionId>)
        requires
            old(self).wf(),
        ensures
            final(self).wf(),
            final(self)@ == (StackView {
                accepts: accept_scan(old(self)@.accepts, port, old(self)@.ids).0,
                ..old(self)@
            }),
            match accept_scan(old(self)@.accepts, port, old(self)@.ids).1 {
                Some(x) => r matches Some(c) && c.raw() == x,
                None => r is None,
            },
    {
        let ghost a0 = self@.accepts;
        let ghost ids = self@.ids;
        let mut kept: Vec<(u16, u64)> = Vec::new();
        let mut found: Option<u64> = None;
        let mut j: usize = 0;
        assert(a0.skip(0) =~= a0);
        assert(Seq::<(u16, u64)>::empty() + a0 =~= a0);
        while j < self.accepts.len()
            invariant
                a0 == self.accepts@,
                ids == self@.ids,
                j <= a0.len(),
                found is None ==> accept_scan(a0, port, ids) == (
                    kept@ + accept_scan(a0.skip(j as int), port, ids).0,
                    accept_scan(a0.skip(j as int), port, ids).1,
                ),
                found matches Some(x) ==> accept_scan(a0, port, ids) == (
                    kept@ + a0.skip(j as int),
                    Some(x),
                ),
            decreases a0.len() - j,
        {
            assert(a0.skip(j as int).drop_first() =~= a0.skip(j + 1));
            let entry = self.accepts[j];
            if found.is_none() && entry.0 == port {
                let live = self.index_of(entry.1);
                proof {
                    lemma_find_id_some(ids, entry.1);
                    if live is Some {
                        assert(ids[live->Some_0 as int] == entry.1);
                    }
                }
                if live.is_some() {
                    found = Some(entry.1);
                }
            } else {
                let ghost before = kept@;
                kept.push(entry);
                assert(before + a0.skip(j as int) =~= kept@ + a0.skip(j + 1));
                assert(before + (seq![entry] + accept_scan(a0.skip(j + 1), port, ids).0)
                    =~= kept@ + accept_scan(a0.skip(j + 1), port, ids).0);
            }
            j = j + 1;
        }
        assert(a0.skip(a0.len() as int) =~= Seq::<(u16, u64)>::empty());
        assert(kept@ + Seq::<(u16, u64)>::empty() =~= kept@);
        self.accepts = kept;
        match found {
            Some(x) => Some(ConnectionId::from_raw(x)),
            None => None,
        }
    }

    /// Accept payload into the local send buffer and return its ACK boundary.
    /// An empty payload marks the boundary of all bytes accepted previously.
    #[verifier::rlimit(30)]
    #[verifier::spinoff_prover]
    pub fn write_with_marker(&mut self, id: ConnectionId, bytes: &[u8], now_ms: u64) -> (r: Result<
        (usize, SendMarker),
        StackError,
    >)
        requires
            old(self).wf(),
        ensures
            final(self).wf(),
            final(self)@ == stack_write_spec(old(self)@, id.raw(), bytes@, now_ms).0,
            match stack_write_spec(old(self)@, id.raw(), bytes@, now_ms).1 {
                Err(e) => r matches Err(x) && x == e,
                Ok(n) => r matches Ok((a, m)) && a == n && m.id() == id
                    && m.token() == final(self)@.conns[find_id(old(self)@.ids, id.raw())->Some_0].progress.token
                    && m.boundary() == final(self)@.conns[find_id(old(self)@.ids, id.raw())->Some_0].progress.accepted,
            },
    {
        let i = match self.index_of(id.get()) {
            Some(i) => i,
            None => return Err(StackError::UnknownConnection),
        };
        let ghost s0 = self@;
        assert(s0.conns[i as int] == self.connections@[i as int]@);
        assert(self.connections@[i as int].wf(self.config));
        let (accepted, segments) = match self.connections[i].write(bytes, now_ms, &self.config) {
            Ok(x) => x,
            Err(e) => {
                assert(conn_views(self.connections@) =~= s0.conns);
                return Err(e);
            },
        };
        proof {
            let c = write_spec(s0.conns[i as int], bytes@, now_ms, s0.config)->Ok_0.0;
            lemma_write_key(s0.conns[i as int], bytes@, now_ms, s0.config);
            assert(conn_views(self.connections@) =~= s0.conns.update(i as int, c));
            lemma_laws_update(s0, i as int, c);
        }
        assert(self@.conns[i as int] == self.connections@[i as int]@);
        let marker = self.connections[i].send_progress.marker(id);
        match emit(&mut self.outbound, &self.connections[i].peer, &segments) {
            Ok(()) => Ok((accepted, marker)),
            Err(e) => Err(e),
        }
    }

    /// Whether the marker's payload boundary was cumulatively acknowledged.
    pub fn marker_status(&self, marker: &SendMarker) -> (r: MarkerStatus)
        requires
            self.wf(),
        ensures
            r == match find_id(self@.ids, marker.id().raw()) {
                None => MarkerStatus::ConnectionGone,
                Some(i) => marker_status_spec(
                    self@.conns[i].progress,
                    marker.token(),
                    marker.boundary(),
                ),
            },
    {
        match self.index_of(marker.connection_id().get()) {
            None => MarkerStatus::ConnectionGone,
            Some(i) => {
                assert(self@.conns[i as int] == self.connections@[i as int]@);
                self.connections[i].send_progress.status(marker)
            },
        }
    }

    /// Release a connection whose opening SYN could not be carried: the caller
    /// never saw its id, so it is closed at once (a SYN-SENT close drops it
    /// without sending anything).
    pub fn rollback_connect(&mut self, id: ConnectionId, now_ms: u64) -> (r: Result<(), StackError>)
        requires
            old(self).wf(),
        ensures
            final(self).wf(),
            (final(self)@, r) == stack_close_spec(old(self)@, id.raw(), now_ms),
    {
        self.close(id, now_ms)
    }

    pub fn state(&self, id: ConnectionId) -> (r: Option<State>)
        requires
            self.wf(),
        ensures
            r == match find_id(self@.ids, id.raw()) {
                Some(i) => Some(self@.conns[i].state),
                None => None::<State>,
            },
    {
        match self.index_of(id.get()) {
            Some(i) => {
                assert(self@.conns[i as int] == self.connections@[i as int]@);
                Some(self.connections[i].state)
            },
            None => None,
        }
    }

    pub fn is_read_closed(&self, id: ConnectionId) -> (r: bool)
        requires
            self.wf(),
        ensures
            r == match find_id(self@.ids, id.raw()) {
                Some(i) => self@.conns[i].read_closed,
                None => true,
            },
    {
        match self.index_of(id.get()) {
            Some(i) => {
                assert(self@.conns[i as int] == self.connections@[i as int]@);
                self.connections[i].read_closed
            },
            None => true,
        }
    }

    pub fn peer(&self, id: ConnectionId) -> (r: Option<&P>)
        requires
            self.wf(),
        ensures
            match find_id(self@.ids, id.raw()) {
                Some(i) => r matches Some(p) && p@ == self@.conns[i].peer,
                None => r is None,
            },
    {
        match self.index_of(id.get()) {
            Some(i) => {
                assert(self@.conns[i as int] == self.connections@[i as int]@);
                Some(&self.connections[i].peer)
            },
            None => None,
        }
    }

    pub fn ports(&self, id: ConnectionId) -> (r: Option<(u16, u16)>)
        requires
            self.wf(),
        ensures
            r == match find_id(self@.ids, id.raw()) {
                Some(i) => Some((self@.conns[i].local_port, self@.conns[i].remote_port)),
                None => None::<(u16, u16)>,
            },
    {
        match self.index_of(id.get()) {
            Some(i) => {
                assert(self@.conns[i as int] == self.connections@[i as int]@);
                Some((self.connections[i].local_port, self.connections[i].remote_port))
            },
            None => None,
        }
    }

    pub fn drain_outbound(&mut self) -> (r: Vec<Outbound<P>>)
        requires
            old(self).wf(),
        ensures
            final(self).wf(),
            outbound_views(r@) == old(self)@.outbound,
            final(self)@ == (StackView { outbound: Seq::empty(), ..old(self)@ }),
    {
        let mut taken: Vec<Outbound<P>> = Vec::new();
        std::mem::swap(&mut taken, &mut self.outbound);
        assert(outbound_views(self.outbound@) =~= Seq::<(P::V, Seq<u8>)>::empty());
        taken
    }
}

/// Whether `id` is among `ids`.
fn contains_id(ids: &Vec<u64>, id: u64) -> (r: bool)
    ensures
        r == ids@.contains(id),
{
    let mut i: usize = 0;
    while i < ids.len()
        invariant
            i <= ids@.len(),
            forall|j: int| 0 <= j < i ==> ids@[j] != id,
        decreases ids@.len() - i,
    {
        if ids[i] == id {
            assert(ids@[i as int] == id);
            return true;
        }
        i = i + 1;
    }
    false
}

/// The queued datagrams that do not belong to the tuple `(peer, local, remote)`.
fn outbound_without<P: Peer>(out: &Vec<Outbound<P>>, peer: &P, local_port: u16, remote_port: u16) -> (r:
    Vec<Outbound<P>>)
    ensures
        outbound_views(r@) == without_tuple(outbound_views(out@), peer@, local_port, remote_port),
{
    let ghost o = outbound_views(out@);
    let mut kept: Vec<Outbound<P>> = Vec::new();
    let mut i: usize = 0;
    assert(o.skip(0) =~= o);
    assert(Seq::<(P::V, Seq<u8>)>::empty() + without_tuple(o, peer@, local_port, remote_port)
        =~= without_tuple(o, peer@, local_port, remote_port));
    while i < out.len()
        invariant
            o == outbound_views(out@),
            i <= o.len(),
            without_tuple(o, peer@, local_port, remote_port) == outbound_views(kept@)
                + without_tuple(o.skip(i as int), peer@, local_port, remote_port),
        decreases o.len() - i,
    {
        assert(o.skip(i as int).drop_first() =~= o.skip(i + 1));
        let item = &out[i];
        assert(o[i as int] == (item.peer@, item.bytes@));
        let same = item.peer.same_peer(peer) && match Segment::decode(item.bytes.as_slice()) {
            Ok(seg) => seg.src_port == local_port && seg.dst_port == remote_port,
            Err(_) => false,
        };
        assert(same == queued_for(o[i as int], peer@, local_port, remote_port));
        if !same {
            let ghost before = outbound_views(kept@);
            kept.push(Outbound { peer: item.peer.copy_peer(), bytes: copy_vec(&item.bytes) });
            assert(outbound_views(kept@) =~= before.push(o[i as int]));
            assert(before + (seq![o[i as int]] + without_tuple(
                o.skip(i + 1),
                peer@,
                local_port,
                remote_port,
            )) =~= outbound_views(kept@) + without_tuple(
                o.skip(i + 1),
                peer@,
                local_port,
                remote_port,
            ));
        }
        i = i + 1;
    }
    assert(o.skip(o.len() as int) =~= Seq::<(P::V, Seq<u8>)>::empty());
    assert(outbound_views(kept@) + Seq::<(P::V, Seq<u8>)>::empty() =~= outbound_views(kept@));
    kept
}

/// The reset that answers a segment no connection takes.
fn reset_for(incoming: &Segment) -> (r: Segment)
    ensures
        r@ == reset_for_spec(incoming@),
{
    let mut reset = Segment::new(incoming.dst_port, incoming.src_port, 0);
    reset.window = 0;
    match incoming.ack {
        Some(ack) => {
            reset.seq = ack;
            reset.flags = Flags::rst();
        },
        None => {
            reset.flags = Flags::rst().union(Flags::ack());
            let n = incoming.sequence_len();
            proof {
                let len = sequence_len_spec(incoming@);
                assert(seq_add(incoming.seq, n as int) == seq_add(incoming.seq, len)) by (nonlinear_arith)
                    requires
                        n == len % 0x1_0000_0000,
                        seq_add(incoming.seq, n as int) == ((incoming.seq + n) % 0x1_0000_0000) as u32,
                        seq_add(incoming.seq, len) == ((incoming.seq + len) % 0x1_0000_0000) as u32,
                ;
            }
            reset.ack = Some(advance(incoming.seq, n));
        },
    }
    assert(reset@.options =~= Seq::<crate::wire::OptionView>::empty());
    reset
}

/// Queue the encodings of `segments` for `peer`, stopping at the first
/// segment that cannot be encoded.
fn emit<P: Peer>(out: &mut Vec<Outbound<P>>, peer: &P, segments: &Vec<Segment>) -> (r: Result<
    (),
    StackError,
>)
    ensures
        outbound_views(final(out)@) == outbound_views(old(out)@) + emit_spec(
            peer@,
            segment_views(segments@),
        ).0,
        r == emitted(emit_spec(peer@, segment_views(segments@)).1, ()),
{
    let ghost segs = segment_views(segments@);
    let ghost start = outbound_views(out@);
    let mut i: usize = 0;
    assert(segs.skip(0) =~= segs);
    assert(start + Seq::<(P::V, Seq<u8>)>::empty() =~= start);
    while i < segments.len()
        invariant
            segs == segment_views(segments@),
            i <= segs.len(),
            start + emit_spec(peer@, segs).0 == outbound_views(out@) + emit_spec(
                peer@,
                segs.skip(i as int),
            ).0,
            emit_spec(peer@, segs).1 == emit_spec(peer@, segs.skip(i as int)).1,
        decreases segs.len() - i,
    {
        proof {
            lemma_emit_skip(peer@, segs, i as int);
        }
        match segments[i].encode() {
            Ok(bytes) => {
                let ghost before = outbound_views(out@);
                let o = Outbound { peer: peer.copy_peer(), bytes };
                out.push(o);
                assert(outbound_views(out@) =~= before.push((peer@, bytes@)));
                assert(before + (seq![(peer@, bytes@)] + emit_spec(peer@, segs.skip(i + 1)).0)
                    =~= outbound_views(out@) + emit_spec(peer@, segs.skip(i + 1)).0);
            },
            Err(e) => {
                assert(outbound_views(out@) + Seq::<(P::V, Seq<u8>)>::empty() =~= outbound_views(
                    out@,
                ));
                return Err(StackError::Wire(e));
            },
        }
        i = i + 1;
    }
    assert(segs.skip(segs.len() as int) =~= Seq::<SegmentView>::empty());
    assert(outbound_views(out@) + Seq::<(P::V, Seq<u8>)>::empty() =~= outbound_views(out@));
    Ok(())
}

} // verus!
