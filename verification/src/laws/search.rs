//! Searches: every pair of operands on which an operator is off is reported, until
//! the list is full.

use vstd::prelude::*;

use crate::interval::Range;
use crate::smt::range_check;
use crate::smt::range_check::RangeOp;
use crate::smt::verify;
use crate::smt::verify::Arith;
use crate::smt::violation;
use crate::smt::violation::Violation;
use crate::tnum::Tnum;

verus! {

/// A search for missed results that does not fill its list reports every pair of
/// tracked numbers on which the operator misses one.
pub proof fn every_missed_pair_is_reported<F: Fn(Tnum, Tnum) -> Tnum>(
    operator: F,
    op: Arith,
    name: Seq<char>,
    label: Seq<char>,
    width: u32,
    limit: int,
    found: Seq<Violation>,
    a: Tnum,
    b: Tnum,
    x: u64,
    y: u64,
    out: Tnum,
)
    requires
        width <= 64,
        verify::reports_all(found, operator, name, label, op, width, limit),
        found.len() < limit,
        a.value <= verify::top(width) && a.mask <= verify::top(width) && a.normalized(),
        b.value <= verify::top(width) && b.mask <= verify::top(width) && b.normalized(),
        x <= verify::top(width) && a.covers(x),
        y <= verify::top(width) && b.covers(y),
        forall|o: Tnum| #[trigger] call_ensures(operator, (a, b), o) ==> o == out,
        verify::missed(op.result(x, y), out, verify::top(width)),
    ensures
        exists|i: int|
            0 <= i < found.len() && (#[trigger] found[i]).operator@ == name && found[i].inputs@
                == violation::two_inputs((a.value, a.mask), (b.value, b.mask)),
{
    let w = width;
    let f = operator;
    assert(verify::in_scope(a, verify::top(w)) && verify::in_scope(b, verify::top(w)));
    assert(verify::pair_settled(found, f, name, label, op, w, a, b));
    if verify::pair_covered(f, op, w, a, b) {
        let o = choose|o: Tnum| #[trigger]
            call_ensures(f, (a, b), o) && forall|x: u64, y: u64|
                x <= verify::top(w) && y <= verify::top(w) && a.covers(x) && b.covers(y)
                    ==> !verify::missed(#[trigger] op.result(x, y), o, verify::top(w));
        assert(o == out);
        assert(!verify::missed(op.result(x, y), o, verify::top(w)));
    } else {
        let (i, u, v, o) = choose|i: int, u: u64, v: u64, o: Tnum|
            #![trigger verify::is_miss(f, op, w, a, b, u, v, o), found[i]]
            0 <= i < found.len() && verify::is_miss(f, op, w, a, b, u, v, o)
                && verify::reports_miss(found[i], name, label, op, w, a, b, u, v, o);
        assert(found[i].operator@ == name);
    }
}

/// Up to nine bits, a search for results outside an interval that does not fill its
/// list reports every pair of intervals whose operation leaves one out.
pub proof fn every_leaking_pair_is_reported<F: Fn(Range, Range) -> Range>(
    operator: F,
    op: RangeOp,
    width: u32,
    limit: int,
    found: Seq<Violation>,
    a: Range,
    b: Range,
    x: u64,
    y: u64,
    out: Range,
)
    requires
        width <= 9,
        range_check::reports_all(found, operator, op, width, limit),
        found.len() < limit,
        range_check::fits(a, width),
        range_check::fits(b, width),
        a.0 <= x <= a.1,
        b.0 <= y <= b.1,
        forall|o: Range| #[trigger] call_ensures(operator, (a, b), o) ==> o == out,
        ({
            let z = op.operation().result(x, y) & verify::top(width);
            !(out.0 <= z <= out.1)
        }),
    ensures
        exists|i: int|
            0 <= i < found.len() && (#[trigger] found[i]).operator@ == op.name()
                && found[i].inputs@ == violation::two_inputs(a, b),
{
    let w = width;
    let f = operator;
    assert(range_check::pair_settled(found, f, op, w, a, b));
    if range_check::pair_held(f, op, w, a, b) {
        let o = choose|o: Range| #[trigger]
            call_ensures(f, (a, b), o) && forall|x: u64, y: u64|
                crate::interval::holds(a, x) && crate::interval::holds(b, y)
                    ==> !#[trigger] range_check::outside(op, w, x, y, o);
        assert(o == out);
        assert(!range_check::outside(op, w, x, y, o));
    } else {
        let (i, u, v, o) = choose|i: int, u: u64, v: u64, o: Range|
            #![trigger range_check::is_leak(f, op, w, a, b, u, v, o), found[i]]
            0 <= i < found.len() && range_check::is_leak(f, op, w, a, b, u, v, o)
                && range_check::reports_leak(found[i], op, w, a, b, u, v, o);
        assert(found[i].operator@ == op.name());
    }
}

} // verus!
