//! TCP's wrapping 32-bit byte sequence arithmetic.

use vstd::prelude::*;

verus! {

/// The size of the sequence space.
pub open spec fn seq_space() -> int {
    0x1_0000_0000
}

/// How far `to` lies ahead of `from`, going forward around the sequence space.
pub open spec fn forward(from: u32, to: u32) -> int {
    (to - from) % seq_space()
}

/// `left` comes strictly before `right`: `right` lies less than half the
/// sequence space ahead of `left`, or exactly half of it.
pub open spec fn is_before(left: u32, right: u32) -> bool {
    forward(right, left) >= 0x8000_0000
}

pub open spec fn is_after(left: u32, right: u32) -> bool {
    is_before(right, left)
}

pub open spec fn is_before_or_equal(left: u32, right: u32) -> bool {
    left == right || is_before(left, right)
}

pub open spec fn in_closed(value: u32, start: u32, end: u32) -> bool {
    !is_before(value, start) && !is_after(value, end)
}

/// The sequence number `n` places after `a`.
pub open spec fn seq_add(a: u32, n: int) -> u32 {
    ((a + n) % seq_space()) as u32
}

pub fn before(left: u32, right: u32) -> (r: bool)
    ensures
        r == is_before(left, right),
{
    left.wrapping_sub(right) >= 0x8000_0000
}

pub fn after(left: u32, right: u32) -> (r: bool)
    ensures
        r == is_after(left, right),
{
    before(right, left)
}

pub fn before_or_equal(left: u32, right: u32) -> (r: bool)
    ensures
        r == is_before_or_equal(left, right),
{
    left == right || before(left, right)
}

pub fn in_closed_interval(value: u32, start: u32, end: u32) -> (r: bool)
    ensures
        r == in_closed(value, start, end),
{
    !before(value, start) && !after(value, end)
}

/// The forward distance from `start` to `end`.
pub fn distance(start: u32, end: u32) -> (r: usize)
    ensures
        r == forward(start, end),
{
    end.wrapping_sub(start) as usize
}

/// `a` advanced by `n`, wrapping around the sequence space.
pub fn advance(a: u32, n: u32) -> (r: u32)
    ensures
        r == seq_add(a, n as int),
{
    a.wrapping_add(n)
}

/// A byte count reduced to the sequence space.
pub fn len_mod(len: usize) -> (r: u32)
    ensures
        r == (len as int) % seq_space(),
{
    ((len as u64) % 0x1_0000_0000) as u32
}

/// `a` advanced by a byte count, wrapping around the sequence space.
pub fn advance_len(a: u32, len: usize) -> (r: u32)
    ensures
        r == seq_add(a, len as int),
{
    let n = len_mod(len);
    let r = a.wrapping_add(n);
    assert(seq_add(a, len as int) == seq_add(a, n as int)) by (nonlinear_arith)
        requires
            n == (len as int) % 0x1_0000_0000,
            seq_add(a, len as int) == ((a + len) % 0x1_0000_0000) as u32,
            seq_add(a, n as int) == ((a + n) % 0x1_0000_0000) as u32,
    ;
    r
}

pub proof fn lemma_seq_add_assoc(a: u32, x: int, y: int)
    ensures
        seq_add(seq_add(a, x), y) == seq_add(a, x + y),
{
    assert(seq_add(seq_add(a, x), y) == seq_add(a, x + y)) by (nonlinear_arith)
        requires
            seq_add(a, x) == ((a + x) % 0x1_0000_0000) as u32,
            seq_add(seq_add(a, x), y) == ((seq_add(a, x) + y) % 0x1_0000_0000) as u32,
            seq_add(a, x + y) == ((a + (x + y)) % 0x1_0000_0000) as u32,
    ;
}

/// A sequence number never comes before itself.
pub proof fn lemma_before_irreflexive(a: u32)
    ensures
        !is_before(a, a),
{
}

/// Of two numbers that are not half the sequence space apart, exactly one of
/// them, or neither when they are equal, comes before the other.
pub proof fn lemma_before_trichotomy(a: u32, b: u32)
    requires
        forward(a, b) != 0x8000_0000,
    ensures
        a == b || is_before(a, b) || is_before(b, a),
        !(is_before(a, b) && is_before(b, a)),
{
}

/// Comparison is unchanged when both numbers move by the same amount.
pub proof fn lemma_before_translation(a: u32, b: u32, n: int)
    ensures
        is_before(seq_add(a, n), seq_add(b, n)) == is_before(a, b),
{
    assert(forward(seq_add(b, n), seq_add(a, n)) == forward(b, a)) by (nonlinear_arith)
        requires
            seq_add(a, n) == (a + n) % 0x1_0000_0000,
            seq_add(b, n) == (b + n) % 0x1_0000_0000,
            forward(seq_add(b, n), seq_add(a, n)) == (seq_add(a, n) - seq_add(b, n))
                % 0x1_0000_0000,
            forward(b, a) == (a - b) % 0x1_0000_0000,
    ;
}

/// Going from `a` to `b` and then on to `c` covers the distance from `a` to
/// `c`, modulo the sequence space.
pub proof fn lemma_forward_additive(a: u32, b: u32, c: u32)
    ensures
        (forward(a, b) + forward(b, c)) % seq_space() == forward(a, c),
{
    assert((forward(a, b) + forward(b, c)) % 0x1_0000_0000 == forward(a, c)) by (nonlinear_arith)
        requires
            forward(a, b) == (b - a) % 0x1_0000_0000,
            forward(b, c) == (c - b) % 0x1_0000_0000,
            forward(a, c) == (c - a) % 0x1_0000_0000,
    ;
}

/// Advancing by less than half the sequence space lands after the start.
pub proof fn lemma_advance_after(a: u32, n: int)
    requires
        0 < n < 0x8000_0000,
    ensures
        is_after(seq_add(a, n), a),
        forward(a, seq_add(a, n)) == n,
{
}

/// Two sequence numbers less than half the space ahead of a common base
/// compare as their distances from that base do.
pub proof fn lemma_offsets(base: u32, p: u32, q: u32)
    requires
        forward(base, p) < 0x8000_0000,
        forward(base, q) < 0x8000_0000,
    ensures
        is_before(p, q) == (forward(base, p) < forward(base, q)),
        forward(base, p) <= forward(base, q) ==> forward(p, q) == forward(base, q) - forward(
            base,
            p,
        ),
        (p == q) == (forward(base, p) == forward(base, q)),
{
    let x = forward(base, p);
    let y = forward(base, q);
    assert(x == (p - base) % 0x1_0000_0000);
    assert(y == (q - base) % 0x1_0000_0000);
    assert(forward(q, p) == (x - y) % 0x1_0000_0000) by (nonlinear_arith)
        requires
            x == (p - base) % 0x1_0000_0000,
            y == (q - base) % 0x1_0000_0000,
            forward(q, p) == (p - q) % 0x1_0000_0000,
    ;
    assert(forward(p, q) == (y - x) % 0x1_0000_0000) by (nonlinear_arith)
        requires
            x == (p - base) % 0x1_0000_0000,
            y == (q - base) % 0x1_0000_0000,
            forward(p, q) == (q - p) % 0x1_0000_0000,
    ;
    assert((p == q) == (x == y)) by (nonlinear_arith)
        requires
            x == (p - base) % 0x1_0000_0000,
            y == (q - base) % 0x1_0000_0000,
            0 <= p < 0x1_0000_0000,
            0 <= q < 0x1_0000_0000,
    ;
}

/// Moving `n` ahead moves the distance from a base by `n`, while it stays
/// inside the sequence space.
pub proof fn lemma_forward_seq_add(base: u32, p: u32, n: int)
    requires
        0 <= n,
        forward(base, p) + n < 0x1_0000_0000,
    ensures
        forward(base, seq_add(p, n)) == forward(base, p) + n,
{
    assert(forward(base, seq_add(p, n)) == forward(base, p) + n) by (nonlinear_arith)
        requires
            0 <= n,
            forward(base, p) + n < 0x1_0000_0000,
            forward(base, p) == (p - base) % 0x1_0000_0000,
            seq_add(p, n) == (p + n) % 0x1_0000_0000,
            forward(base, seq_add(p, n)) == (seq_add(p, n) - base) % 0x1_0000_0000,
    ;
}

} // verus!
