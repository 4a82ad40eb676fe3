//! Saturating arithmetic on `usize` and `u64`, with its mathematical meaning.

use vstd::prelude::*;

verus! {

pub open spec fn sat_add_usize(a: int, b: int) -> int {
    if a + b > usize::MAX {
        usize::MAX as int
    } else {
        a + b
    }
}

pub open spec fn sat_sub(a: int, b: int) -> int {
    if a < b {
        0
    } else {
        a - b
    }
}

pub open spec fn sat_mul_usize(a: int, b: int) -> int {
    if a * b > usize::MAX {
        usize::MAX as int
    } else {
        a * b
    }
}

pub open spec fn sat_add_u64(a: int, b: int) -> int {
    if a + b > u64::MAX {
        u64::MAX as int
    } else {
        a + b
    }
}

pub open spec fn sat_mul_u64(a: int, b: int) -> int {
    if a * b > u64::MAX {
        u64::MAX as int
    } else {
        a * b
    }
}

pub open spec fn min_int(a: int, b: int) -> int {
    if a <= b {
        a
    } else {
        b
    }
}

pub open spec fn max_int(a: int, b: int) -> int {
    if a >= b {
        a
    } else {
        b
    }
}

pub fn add_usize(a: usize, b: usize) -> (r: usize)
    ensures
        r == sat_add_usize(a as int, b as int),
{
    if a > usize::MAX - b {
        usize::MAX
    } else {
        a + b
    }
}

pub fn sub_usize(a: usize, b: usize) -> (r: usize)
    ensures
        r == sat_sub(a as int, b as int),
{
    if a < b {
        0
    } else {
        a - b
    }
}

pub fn mul_usize(a: usize, b: usize) -> (r: usize)
    ensures
        r == sat_mul_usize(a as int, b as int),
{
    if b == 0 {
        assert(a * b == 0) by (nonlinear_arith)
            requires
                b == 0,
        ;
        0
    } else if a > usize::MAX / b {
        assert(a * b > usize::MAX) by (nonlinear_arith)
            requires
                b > 0,
                a > usize::MAX / b,
        ;
        usize::MAX
    } else {
        assert(a * b <= usize::MAX) by (nonlinear_arith)
            requires
                b > 0,
                a <= usize::MAX / b,
        ;
        a * b
    }
}

pub fn add_u64(a: u64, b: u64) -> (r: u64)
    ensures
        r == sat_add_u64(a as int, b as int),
{
    if a > u64::MAX - b {
        u64::MAX
    } else {
        a + b
    }
}

pub fn sub_u64(a: u64, b: u64) -> (r: u64)
    ensures
        r == sat_sub(a as int, b as int),
{
    if a < b {
        0
    } else {
        a - b
    }
}

pub fn mul_u64(a: u64, b: u64) -> (r: u64)
    ensures
        r == sat_mul_u64(a as int, b as int),
{
    if b == 0 {
        assert(a * b == 0) by (nonlinear_arith)
            requires
                b == 0,
        ;
        0
    } else if a > u64::MAX / b {
        assert(a * b > u64::MAX) by (nonlinear_arith)
            requires
                b > 0,
                a > u64::MAX / b,
        ;
        u64::MAX
    } else {
        assert(a * b <= u64::MAX) by (nonlinear_arith)
            requires
                b > 0,
                a <= u64::MAX / b,
        ;
        a * b
    }
}

} // verus!
