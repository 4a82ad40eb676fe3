//! Feeding one batch of received datagrams into a stack, and the bounded
//! aggregate of what became of them.

use vstd::prelude::*;

use crate::stack::Stack;
use crate::stack_model::{StackView, input_spec};
use crate::types::{Peer, StackError, time_ok};

verus! {

/// Bounded aggregate of one received batch.
#[derive(Clone, Copy, Debug, PartialEq, Eq, Structural)]
pub struct ReceiveReport {
    /// Total datagrams drained from the batch.
    pub datagrams: usize,
    /// Datagrams accepted or intentionally ignored by the TCP state machine.
    pub processed: usize,
    /// Datagrams rejected by bounded TCP wire decoding.
    pub malformed: usize,
    /// Valid new tuples rejected by global or authenticated-peer admission.
    pub connection_limited: usize,
    /// Other isolated TCP state-machine errors.
    pub other_errors: usize,
}

impl Default for ReceiveReport {
    fn default() -> (r: Self)
        ensures
            r == (ReceiveReport {
                datagrams: 0,
                processed: 0,
                malformed: 0,
                connection_limited: 0,
                other_errors: 0,
            }),
    {
        ReceiveReport {
            datagrams: 0,
            processed: 0,
            malformed: 0,
            connection_limited: 0,
            other_errors: 0,
        }
    }
}

impl ReceiveReport {
    /// Total isolated errors in this batch.
    pub fn rejected(self) -> (r: usize)
        requires
            self.malformed + self.connection_limited + self.other_errors <= usize::MAX,
        ensures
            r == self.malformed + self.connection_limited + self.other_errors,
    {
        self.malformed + self.connection_limited + self.other_errors
    }
}

/// How many results of each kind: accepted, malformed, refused at a
/// connection cap, and any other error.
pub open spec fn tally(rs: Seq<Result<(), StackError>>) -> (nat, nat, nat, nat)
    decreases rs.len(),
{
    if rs.len() == 0 {
        (0, 0, 0, 0)
    } else {
        let (p, m, l, o) = tally(rs.drop_last());
        match rs.last() {
            Ok(()) => (p + 1, m, l, o),
            Err(StackError::Wire(_)) => (p, m + 1, l, o),
            Err(StackError::ConnectionLimit) => (p, m, l + 1, o),
            Err(_) => (p, m, l, o + 1),
        }
    }
}

/// The batch as plain values.
pub open spec fn batch_views<P: Peer>(batch: Seq<(P, Vec<u8>)>) -> Seq<(P::V, Seq<u8>)> {
    batch.map_values(|d: (P, Vec<u8>)| (d.0@, d.1@))
}

/// Each datagram of the batch in turn, whatever became of the ones before:
/// the final stack and every datagram's result.
pub open spec fn ingest_spec<V>(s: StackView<V>, batch: Seq<(V, Seq<u8>)>, now: u64) -> (
    StackView<V>,
    Seq<Result<(), StackError>>,
)
    decreases batch.len(),
{
    if batch.len() == 0 {
        (s, Seq::empty())
    } else {
        let (s1, rs) = ingest_spec(s, batch.drop_last(), now);
        let (s2, r) = input_spec(s1, batch.last().0, batch.last().1, now);
        (s2, rs.push(r))
    }
}

/// Every datagram falls under exactly one of the four counts.
pub proof fn lemma_tally_total(rs: Seq<Result<(), StackError>>)
    ensures
        tally(rs).0 + tally(rs).1 + tally(rs).2 + tally(rs).3 == rs.len(),
    decreases rs.len(),
{
    if rs.len() > 0 {
        lemma_tally_total(rs.drop_last());
    }
}

/// Every datagram of a batch gets its result.
pub proof fn lemma_ingest_len<V>(s: StackView<V>, batch: Seq<(V, Seq<u8>)>, now: u64)
    ensures
        ingest_spec(s, batch, now).1.len() == batch.len(),
    decreases batch.len(),
{
    if batch.len() > 0 {
        lemma_ingest_len(s, batch.drop_last(), now);
    }
}

/// Feed a batch into the stack, one datagram after another; a datagram that is
/// malformed or refused is counted and does not stop the ones after it.
pub fn receive_report<P: Peer>(stack: &mut Stack<P>, batch: &Vec<(P, Vec<u8>)>, now_ms: u64) -> (r:
    ReceiveReport)
    requires
        old(stack).wf(),
        time_ok(now_ms),
    ensures
        final(stack).wf(),
        final(stack)@ == ingest_spec(old(stack)@, batch_views(batch@), now_ms).0,
        r.datagrams == batch@.len(),
        (r.processed as nat, r.malformed as nat, r.connection_limited as nat, r.other_errors as nat)
            == tally(ingest_spec(old(stack)@, batch_views(batch@), now_ms).1),
        r.datagrams == r.processed + r.malformed + r.connection_limited + r.other_errors,
{
    let ghost s0 = stack@;
    let ghost bv = batch_views(batch@);
    let mut report = ReceiveReport {
        datagrams: batch.len(),
        processed: 0,
        malformed: 0,
        connection_limited: 0,
        other_errors: 0,
    };
    let mut i: usize = 0;
    assert(bv.take(0) =~= Seq::<(P::V, Seq<u8>)>::empty());
    while i < batch.len()
        invariant
            stack.wf(),
            time_ok(now_ms),
            bv == batch_views(batch@),
            i <= batch@.len(),
            report.datagrams == batch@.len(),
            stack@ == ingest_spec(s0, bv.take(i as int), now_ms).0,
            (
                report.processed as nat,
                report.malformed as nat,
                report.connection_limited as nat,
                report.other_errors as nat,
            ) == tally(ingest_spec(s0, bv.take(i as int), now_ms).1),
            report.processed + report.malformed + report.connection_limited + report.other_errors
                == i,
        decreases batch@.len() - i,
    {
        let ghost before = ingest_spec(s0, bv.take(i as int), now_ms);
        proof {
            assert(bv.take(i + 1).drop_last() =~= bv.take(i as int));
            assert(bv.take(i + 1).last() == bv[i as int]);
            lemma_ingest_len(s0, bv.take(i as int), now_ms);
            assert(before.1.push(input_spec(before.0, bv[i as int].0, bv[i as int].1, now_ms).1).drop_last()
                =~= before.1);
        }
        let peer = batch[i].0.copy_peer();
        let result = stack.input(peer, batch[i].1.as_slice(), now_ms);
        match result {
            Ok(()) => report.processed = report.processed + 1,
            Err(StackError::Wire(_)) => report.malformed = report.malformed + 1,
            Err(StackError::ConnectionLimit) => report.connection_limited = report.connection_limited
                + 1,
            Err(_) => report.other_errors = report.other_errors + 1,
        }
        i = i + 1;
    }
    assert(bv.take(batch@.len() as int) =~= bv);
    report
}

} // verus!
