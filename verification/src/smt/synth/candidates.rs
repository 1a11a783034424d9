//! Candidate operations on intervals, by way of tracked numbers.
//!
//! Each takes the tracked numbers of the intervals, applies the operator on
//! tracked numbers, and returns the interval from the least to the greatest
//! number that the result covers.

use vstd::prelude::*;

use crate::interval;
use crate::interval::Range;
use crate::tnum;
use crate::tnum::Tnum;

verus! {

/// From the least to the greatest number that a normalized tracked number
/// covers.
pub open spec fn hull(t: Tnum) -> Range {
    (t.value, t.value | t.mask)
}

/// The interval around a tracked number.
pub fn tnum_to_range(t: Tnum) -> (r: Range)
    ensures
        r == hull(t),
{
    (t.value, t.value | t.mask)
}

/// The sum.
pub fn add_tnum(a: Range, b: Range) -> (r: Range)
    ensures
        r == hull(Tnum::spanning(a.0, a.1).added(Tnum::spanning(b.0, b.1))),
{
    let ta: Tnum = Tnum::from_range(a.0, a.1);
    let tb: Tnum = Tnum::from_range(b.0, b.1);
    tnum_to_range(ta.add(tb))
}

/// The difference.
pub fn sub_tnum(a: Range, b: Range) -> (r: Range)
    ensures
        r == hull(Tnum::spanning(a.0, a.1).subtracted(Tnum::spanning(b.0, b.1))),
{
    let ta: Tnum = Tnum::from_range(a.0, a.1);
    let tb: Tnum = Tnum::from_range(b.0, b.1);
    tnum_to_range(ta.sub(tb))
}

/// The bitwise and: the known zeros bound the result.
pub fn and_tnum(a: Range, b: Range) -> (r: Range)
    ensures
        r == hull(Tnum::spanning(a.0, a.1).anded(Tnum::spanning(b.0, b.1))),
{
    let ta: Tnum = Tnum::from_range(a.0, a.1);
    let tb: Tnum = Tnum::from_range(b.0, b.1);
    tnum_to_range(ta.and(tb))
}

/// The bitwise or: the known ones lift the lower bound.
pub fn or_tnum(a: Range, b: Range) -> (r: Range)
    ensures
        r == hull(Tnum::spanning(a.0, a.1).ored(Tnum::spanning(b.0, b.1))),
{
    let ta: Tnum = Tnum::from_range(a.0, a.1);
    let tb: Tnum = Tnum::from_range(b.0, b.1);
    tnum_to_range(ta.or(tb))
}

/// The exclusive or.
pub fn xor_tnum(a: Range, b: Range) -> (r: Range)
    ensures
        r == hull(Tnum::spanning(a.0, a.1).xored(Tnum::spanning(b.0, b.1))),
{
    let ta: Tnum = Tnum::from_range(a.0, a.1);
    let tb: Tnum = Tnum::from_range(b.0, b.1);
    tnum_to_range(ta.xor(tb))
}

// ── Laws ────────────────────────────────────────────────────────────────────

/// The interval around a normalized tracked number holds what it covers.
pub proof fn hull_is_sound(t: Tnum, x: u64)
    requires
        t.normalized(),
        t.covers(x),
    ensures
        interval::holds(hull(t), x),
{
    let v = t.value;
    let m = t.mask;
    assert(v <= x && x <= v | m) by (bit_vector)
        requires
            v & m == 0,
            x & !m == v & !m,
    ;
}

/// The candidates are sound: each holds every result on members.
pub proof fn candidates_are_sound(a: Range, b: Range, x: u64, y: u64)
    requires
        interval::holds(a, x),
        interval::holds(b, y),
    ensures
        ({
            let ta = Tnum::spanning(a.0, a.1);
            let tb = Tnum::spanning(b.0, b.1);
            &&& interval::holds(hull(ta.added(tb)), tnum::plus(x, y))
            &&& interval::holds(hull(ta.subtracted(tb)), tnum::minus(x, y))
            &&& interval::holds(hull(ta.anded(tb)), x & y)
            &&& interval::holds(hull(ta.ored(tb)), x | y)
            &&& interval::holds(hull(ta.xored(tb)), x ^ y)
        }),
{
    let ta = Tnum::spanning(a.0, a.1);
    let tb = Tnum::spanning(b.0, b.1);
    tnum::from_range_is_sound(a.0, a.1, x);
    tnum::from_range_is_sound(b.0, b.1, y);
    tnum::add_is_sound(ta, tb, x, y);
    tnum::sub_is_sound(ta, tb, x, y);
    tnum::bitwise_is_sound(ta, tb, x, y);
    hull_is_sound(ta.added(tb), tnum::plus(x, y));
    hull_is_sound(ta.subtracted(tb), tnum::minus(x, y));
    hull_is_sound(ta.anded(tb), x & y);
    hull_is_sound(ta.ored(tb), x | y);
    hull_is_sound(ta.xored(tb), x ^ y);
}

} // verus!
