//! Intervals of 64-bit values and their arithmetic modulo 2^64.
//!
//! An interval is a pair of bounds, both inside it. Each operation returns one
//! interval that holds every result on members of its operands; where the exact
//! image is not one interval, that is the full range.

use vstd::prelude::*;

use crate::tnum;
use crate::tnum::{add64, mul64, sub64};

verus! {

/// An interval: its lower and its upper bound.
pub type Range = (u64, u64);

/// `x` lies in `r`.
pub open spec fn holds(r: Range, x: u64) -> bool {
    r.0 <= x <= r.1
}

/// The full range.
pub open spec fn full() -> Range {
    (0, u64::MAX)
}

pub open spec fn least(x: u64, y: u64) -> u64 {
    if x <= y {
        x
    } else {
        y
    }
}

pub open spec fn greatest(x: u64, y: u64) -> u64 {
    if x >= y {
        x
    } else {
        y
    }
}

// ── Operations ──────────────────────────────────────────────────────────────

/// The sums: one interval when the sums of the bounds lie in one block of 2^64.
pub open spec fn sum(a: Range, b: Range) -> Range {
    if (a.0 + b.0 > u64::MAX) == (a.1 + b.1 > u64::MAX) {
        (tnum::plus(a.0, b.0), tnum::plus(a.1, b.1))
    } else {
        full()
    }
}

/// The differences: from the least difference on, as far as both intervals
/// reach together, unless that passes 2^64.
pub open spec fn difference(a: Range, b: Range) -> Range {
    let low = tnum::minus(a.0, b.1);
    let span = tnum::minus(a.1, a.0) + tnum::minus(b.1, b.0);
    if low + span <= u64::MAX {
        (low, (low + span) as u64)
    } else {
        full()
    }
}

/// The products: exact for two constants.
pub open spec fn product(a: Range, b: Range) -> Range {
    if a.0 == a.1 && b.0 == b.1 {
        (tnum::times(a.0, b.0), tnum::times(a.0, b.0))
    } else {
        full()
    }
}

/// `[lo, hi] + [lo2, hi2]`.
pub fn rng_add(a: Range, b: Range) -> (r: Range)
    ensures
        r == sum(a, b),
{
    let lo: u128 = a.0 as u128 + b.0 as u128;
    let hi: u128 = a.1 as u128 + b.1 as u128;
    if (lo > u64::MAX as u128) == (hi > u64::MAX as u128) {
        (add64(a.0, b.0), add64(a.1, b.1))
    } else {
        (0, u64::MAX)
    }
}

/// `[lo, hi] - [lo2, hi2]`.
pub fn rng_sub(a: Range, b: Range) -> (r: Range)
    ensures
        r == difference(a, b),
{
    let low: u64 = sub64(a.0, b.1);
    let span: u128 = sub64(a.1, a.0) as u128 + sub64(b.1, b.0) as u128;
    let high: u128 = low as u128 + span;
    if high <= u64::MAX as u128 {
        (low, high as u64)
    } else {
        (0, u64::MAX)
    }
}

/// `[lo, hi] * [lo2, hi2]`.
pub fn rng_mul(a: Range, b: Range) -> (r: Range)
    ensures
        r == product(a, b),
{
    if a.0 == a.1 && b.0 == b.1 {
        let p: u64 = mul64(a.0, b.0);
        (p, p)
    } else {
        (0, u64::MAX)
    }
}

/// `[lo, hi] | [lo2, hi2]`: at least the greater lower bound.
pub fn rng_or(a: Range, b: Range) -> (r: Range)
    ensures
        r == (greatest(a.0, b.0), u64::MAX),
{
    if a.0 > b.0 {
        (a.0, u64::MAX)
    } else {
        (b.0, u64::MAX)
    }
}

/// `[lo, hi] ^ [lo2, hi2]`: the full range.
pub fn rng_xor(_a: Range, _b: Range) -> (r: Range)
    ensures
        r == full(),
{
    (0, u64::MAX)
}

/// `[lo, hi] & [lo2, hi2]`: at most the lesser upper bound.
pub fn rng_and(a: Range, b: Range) -> (r: Range)
    ensures
        r == (0u64, least(a.1, b.1)),
{
    if a.1 < b.1 {
        (0, a.1)
    } else {
        (0, b.1)
    }
}

// ── Laws ────────────────────────────────────────────────────────────────────

/// The sum holds every sum.
pub proof fn add_is_sound(a: Range, b: Range, x: u64, y: u64)
    requires
        holds(a, x),
        holds(b, y),
    ensures
        holds(sum(a, b), tnum::plus(x, y)),
{
    tnum::lemma_plus(x, y);
    tnum::lemma_plus(a.0, b.0);
    tnum::lemma_plus(a.1, b.1);
}

/// The difference holds every difference.
pub proof fn sub_is_sound(a: Range, b: Range, x: u64, y: u64)
    requires
        holds(a, x),
        holds(b, y),
    ensures
        holds(difference(a, b), tnum::minus(x, y)),
{
    tnum::lemma_minus(x, y);
    tnum::lemma_minus(a.0, b.1);
    tnum::lemma_minus(a.1, a.0);
    tnum::lemma_minus(b.1, b.0);
}

/// The product holds every product.
pub proof fn mul_is_sound(a: Range, b: Range, x: u64, y: u64)
    requires
        holds(a, x),
        holds(b, y),
    ensures
        holds(product(a, b), tnum::times(x, y)),
{
}

/// The bitwise operations hold every result.
pub proof fn bitwise_is_sound(a: Range, b: Range, x: u64, y: u64)
    requires
        holds(a, x),
        holds(b, y),
    ensures
        holds((greatest(a.0, b.0), u64::MAX), x | y),
        holds(full(), x ^ y),
        holds((0u64, least(a.1, b.1)), x & y),
{
    assert(x | y >= x && x | y >= y && x & y <= x && x & y <= y) by (bit_vector);
}

} // verus!
