//! The soundness checks: for an abstract operator `g` and the concrete
//! operation `f`, that `f` on members of the operands gives a member of `g` on
//! the operands.
//!
//! The searches report the inputs on which that fails, for any operator that
//! they are given. On the operators of this library they find nothing: the
//! contracts of the checks say so, and the laws of `tnum` and `interval` are the
//! reason.

use vstd::prelude::*;

use super::tnum::{
    concretize, encode_add, encode_and, encode_arshift, encode_lshift, encode_or, encode_rshift,
    encode_sub, encode_xor,
};
use super::violation;
use super::violation::{binary_violation, numbered_class, plain_class, shift_violation};
use super::word;
use super::word::{find_assignment, Assignment, Claim, Reply, Word};
use super::SymTnum;
use crate::text;
use crate::tnum;
use crate::tnum::{add64, mul64, sub64, Tnum};

pub use super::range_check::{
    exhaustive_range_binary, random_range_binary, range_op_w, symbolic_range_binary, RangeOp,
};
pub use super::violation::{render_catalog, Violation};

verus! {

/// A concrete operation on two words.
#[derive(Debug, Clone, Copy, PartialEq, Eq)]
pub enum Arith {
    Add,
    Sub,
    Mul,
    Xor,
    And,
    Or,
}

impl Arith {
    pub open spec fn result(self, x: u64, y: u64) -> u64 {
        match self {
            Arith::Add => tnum::plus(x, y),
            Arith::Sub => tnum::minus(x, y),
            Arith::Mul => tnum::times(x, y),
            Arith::Xor => x ^ y,
            Arith::And => x & y,
            Arith::Or => x | y,
        }
    }

    /// The result of the operation.
    pub fn apply(self, x: u64, y: u64) -> (r: u64)
        ensures
            r == self.result(x, y),
    {
        match self {
            Arith::Add => add64(x, y),
            Arith::Sub => sub64(x, y),
            Arith::Mul => mul64(x, y),
            Arith::Xor => x ^ y,
            Arith::And => x & y,
            Arith::Or => x | y,
        }
    }

    /// The operation on terms.
    pub fn apply_bv(self, x: &Word, y: &Word) -> (r: Word)
        requires
            x.bits() == 64,
            y.bits() == 64,
        ensures
            r.bits() == 64,
            forall|m: Assignment| #[trigger] r.word(m) == self.result(x.word(m), y.word(m)),
    {
        match self {
            Arith::Add => x.plus(y),
            Arith::Sub => x.minus(y),
            Arith::Mul => x.times(y),
            Arith::Xor => x.xor(y),
            Arith::And => x.and(y),
            Arith::Or => x.or(y),
        }
    }
}

/// The concrete operation of a binary operator on tracked numbers.
#[derive(Debug, Clone, Copy, PartialEq, Eq)]
pub enum TnumConcreteOp {
    Add,
    Sub,
    Xor,
    And,
    Or,
}

impl TnumConcreteOp {
    pub open spec fn operation(self) -> Arith {
        match self {
            TnumConcreteOp::Add => Arith::Add,
            TnumConcreteOp::Sub => Arith::Sub,
            TnumConcreteOp::Xor => Arith::Xor,
            TnumConcreteOp::And => Arith::And,
            TnumConcreteOp::Or => Arith::Or,
        }
    }

    fn arith(self) -> (r: Arith)
        ensures
            r == self.operation(),
    {
        match self {
            TnumConcreteOp::Add => Arith::Add,
            TnumConcreteOp::Sub => Arith::Sub,
            TnumConcreteOp::Xor => Arith::Xor,
            TnumConcreteOp::And => Arith::And,
            TnumConcreteOp::Or => Arith::Or,
        }
    }

    /// The result of the operation.
    pub fn apply(self, x: u64, y: u64) -> (r: u64)
        ensures
            r == self.operation().result(x, y),
    {
        self.arith().apply(x, y)
    }

    /// The operation on terms.
    pub fn apply_bv(self, x: &Word, y: &Word) -> (r: Word)
        requires
            x.bits() == 64,
            y.bits() == 64,
        ensures
            r.bits() == 64,
            forall|m: Assignment| #[trigger]
                r.word(m) == self.operation().result(x.word(m), y.word(m)),
    {
        self.arith().apply_bv(x, y)
    }

    /// The operator on tracked numbers.
    pub open spec fn abstraction(self, a: Tnum, b: Tnum) -> Tnum {
        match self {
            TnumConcreteOp::Add => a.added(b),
            TnumConcreteOp::Sub => a.subtracted(b),
            TnumConcreteOp::Xor => a.xored(b),
            TnumConcreteOp::And => a.anded(b),
            TnumConcreteOp::Or => a.ored(b),
        }
    }

    pub open spec fn name(self) -> Seq<char> {
        match self {
            TnumConcreteOp::Add => "tnum_add"@,
            TnumConcreteOp::Sub => "tnum_sub"@,
            TnumConcreteOp::Xor => "tnum_xor"@,
            TnumConcreteOp::And => "tnum_and"@,
            TnumConcreteOp::Or => "tnum_or"@,
        }
    }

    /// The operator covers the results of the operation.
    pub proof fn is_sound(self, a: Tnum, b: Tnum, x: u64, y: u64)
        requires
            a.normalized(),
            b.normalized(),
            a.covers(x),
            b.covers(y),
        ensures
            self.abstraction(a, b).covers(self.operation().result(x, y)),
    {
        match self {
            TnumConcreteOp::Add => tnum::add_is_sound(a, b, x, y),
            TnumConcreteOp::Sub => tnum::sub_is_sound(a, b, x, y),
            _ => tnum::bitwise_is_sound(a, b, x, y),
        }
    }
}

/// The operator on tracked numbers that belongs to `op`.
pub fn rust_tnum_op(op: TnumConcreteOp, a: Tnum, b: Tnum) -> (r: Tnum)
    ensures
        r == op.abstraction(a, b),
{
    match op {
        TnumConcreteOp::Add => a.add(b),
        TnumConcreteOp::Sub => a.sub(b),
        TnumConcreteOp::Xor => a.xor(b),
        TnumConcreteOp::And => a.and(b),
        TnumConcreteOp::Or => a.or(b),
    }
}

/// The encoding that belongs to `op`.
pub fn encode_tnum_op(op: TnumConcreteOp, a: &SymTnum, b: &SymTnum) -> (r: SymTnum)
    requires
        a.wf(),
        b.wf(),
    ensures
        r.wf(),
        forall|m: Assignment| #[trigger] r.at(m) == op.abstraction(a.at(m), b.at(m)),
{
    match op {
        TnumConcreteOp::Add => encode_add(a, b),
        TnumConcreteOp::Sub => encode_sub(a, b),
        TnumConcreteOp::Xor => encode_xor(a, b),
        TnumConcreteOp::And => encode_and(a, b),
        TnumConcreteOp::Or => encode_or(a, b),
    }
}

/// The name of an operator.
pub fn op_name(op: TnumConcreteOp) -> (s: &'static str)
    ensures
        s@ == op.name(),
{
    match op {
        TnumConcreteOp::Add => "tnum_add",
        TnumConcreteOp::Sub => "tnum_sub",
        TnumConcreteOp::Xor => "tnum_xor",
        TnumConcreteOp::And => "tnum_and",
        TnumConcreteOp::Or => "tnum_or",
    }
}

// ── Members ─────────────────────────────────────────────────────────────────

/// The largest number of `width` bits.
pub open spec fn top(width: u32) -> u64 {
    if width >= 64 {
        u64::MAX
    } else {
        ((1u64 << width) - 1) as u64
    }
}

proof fn lemma_top(width: u32, v: u64)
    by (bit_vector)
    requires
        width < 64,
    ensures
        1u64 << width >= 1,
        v <= (((1u64 << width) - 1) as u64) ==> v & (((1u64 << width) - 1) as u64) == v,
        v & (((1u64 << width) - 1) as u64) <= (((1u64 << width) - 1) as u64),
        v & 0xffff_ffff_ffff_ffff == v,
{
}

/// The numbers of some bits, and the largest remainder by their count.
pub proof fn lemma_top_count(width: u32)
    requires
        width <= 64,
    ensures
        width < 64 ==> 1u64 << width >= 1 && (top(width) + 1) as u64 == 1u64 << width,
        width < 64 ==> u64::MAX as int % (1u64 << width) as int == (1u64 << width) - 1,
{
    if width < 64 {
        let n = 1u64 << width;
        assert(n >= 1 && 0xffff_ffff_ffff_ffffu64 % n == n - 1) by (bit_vector)
            requires
                width < 64,
                n == 1u64 << width,
        ;
    }
}

proof fn lemma_cut(width: u32, v: u64)
    requires
        width <= 64,
    ensures
        v <= top(width) ==> v & top(width) == v,
        v & top(width) <= top(width),
{
    if width < 64 {
        lemma_top(width, v);
    } else {
        lemma_top(0, v);
    }
}

fn top_of(width: u32) -> (t: u64)
    requires
        width <= 64,
    ensures
        t == top(width),
{
    if width == 64 {
        u64::MAX
    } else {
        proof {
            lemma_top(width, 0);
        }
        (1u64 << width) - 1
    }
}

/// The tracked number in its lowest bits.
pub open spec fn cut(t: Tnum, limit: u64) -> Tnum {
    Tnum { value: t.value & limit, mask: t.mask & limit }
}

/// The members of a tracked number among the numbers of `width` bits, in
/// increasing order.
pub fn tnum_members(t: &Tnum, width: u32) -> (out: Vec<u64>)
    requires
        width <= 64,
    ensures
        forall|i: int, j: int| 0 <= i < j < out@.len() ==> out@[i] < out@[j],
        forall|v: u64| #[trigger]
            out@.contains(v) <==> v <= top(width) && cut(*t, top(width)).covers(v),
{
    let limit: u64 = top_of(width);
    let value: u64 = t.value & limit;
    let mask: u64 = t.mask & limit;
    let mut out: Vec<u64> = Vec::new();
    let mut v: u64 = 0;
    let ghost cutoff = cut(*t, limit);
    loop
        invariant_except_break
            forall|i: int| 0 <= i < out@.len() ==> out@[i] < v,
            forall|u: u64| #[trigger] out@.contains(u) <==> u < v && cutoff.covers(u),
        invariant
            limit == top(width),
            v <= limit,
            value == cutoff.value,
            mask == cutoff.mask,
            forall|i: int, j: int| 0 <= i < j < out@.len() ==> out@[i] < out@[j],
        ensures
            forall|i: int, j: int| 0 <= i < j < out@.len() ==> out@[i] < out@[j],
            forall|u: u64| #[trigger] out@.contains(u) <==> u <= limit && cutoff.covers(u),
        decreases limit - v,
    {
        let ghost before = out@;
        if (v & !mask) == (value & !mask) {
            out.push(v);
            proof {
                assert forall|u: u64| #[trigger]
                    out@.contains(u) <==> u <= v && cutoff.covers(u) by {
                    if before.contains(u) {
                        let k = choose|k: int| 0 <= k < before.len() && before[k] == u;
                        assert(out@[k] == u);
                    }
                    if u == v {
                        assert(out@[out@.len() - 1] == u);
                    }
                    if out@.contains(u) {
                        let k = choose|k: int| 0 <= k < out@.len() && out@[k] == u;
                        if k < before.len() {
                            assert(before[k] == u);
                        }
                    }
                }
            }
        }
        assert(forall|u: u64| #[trigger] out@.contains(u) <==> u <= v && cutoff.covers(u));
        if v == limit {
            break;
        }
        v = v + 1;
    }
    out
}

/// A tracked number that a check of `width` bits covers.
pub open spec fn in_scope(t: Tnum, limit: u64) -> bool {
    t.value <= limit && t.mask <= limit && t.normalized()
}

/// The normalized tracked numbers of `width` bits.
fn all_tnums(width: u32) -> (out: Vec<Tnum>)
    requires
        width <= 64,
    ensures
        forall|i: int| 0 <= i < out@.len() ==> in_scope(#[trigger] out@[i], top(width)),
        forall|t: Tnum| #[trigger] in_scope(t, top(width)) ==> out@.contains(t),
{
    let limit: u64 = top_of(width);
    let mut out: Vec<Tnum> = Vec::new();
    let mut v: u64 = 0;
    loop
        invariant
            limit == top(width),
            v <= limit,
            forall|i: int| 0 <= i < out@.len() ==> in_scope(#[trigger] out@[i], limit),
            forall|t: Tnum| #[trigger] in_scope(t, limit) && t.value < v ==> out@.contains(t),
        ensures
            forall|i: int| 0 <= i < out@.len() ==> in_scope(#[trigger] out@[i], limit),
            forall|t: Tnum| #[trigger] in_scope(t, limit) ==> out@.contains(t),
        decreases limit - v,
    {
        let mut m: u64 = 0;
        loop
            invariant
                v <= limit,
                m <= limit,
                forall|i: int| 0 <= i < out@.len() ==> in_scope(#[trigger] out@[i], limit),
                forall|t: Tnum| #[trigger]
                    in_scope(t, limit) && (t.value < v || (t.value == v && t.mask < m))
                        ==> out@.contains(t),
            ensures
                forall|i: int| 0 <= i < out@.len() ==> in_scope(#[trigger] out@[i], limit),
                forall|t: Tnum| #[trigger]
                    in_scope(t, limit) && t.value <= v ==> out@.contains(t),
            decreases limit - m,
        {
            let ghost before = out@;
            if v & m == 0 {
                out.push(Tnum { value: v, mask: m });
                proof {
                    assert forall|t: Tnum| before.contains(t) implies #[trigger] out@.contains(t) by {
                        let k = choose|k: int| 0 <= k < before.len() && before[k] == t;
                        assert(out@[k] == t);
                    }
                    assert(out@[out@.len() - 1] == Tnum { value: v, mask: m });
                }
            }
            proof {
                assert forall|t: Tnum| #[trigger]
                    in_scope(t, limit) && (t.value < v || (t.value == v && t.mask <= m)) implies out@.contains(
                    t,
                ) by {
                    if t.value == v && t.mask == m {
                        assert(t == Tnum { value: v, mask: m });
                    } else {
                        assert(before.contains(t));
                    }
                }
            }
            if m == limit {
                break;
            }
            m = m + 1;
        }
        if v == limit {
            break;
        }
        v = v + 1;
    }
    out
}

/// The lowest bits of `z` differ from the known ones of `out`.
pub open spec fn missed(z: u64, out: Tnum, limit: u64) -> bool {
    (z & limit) & !(out.mask & limit) != (out.value & limit) & !(out.mask & limit)
}

proof fn lemma_not_missed(z: u64, out: Tnum, limit: u64)
    requires
        out.covers(z),
    ensures
        !missed(z, out, limit),
{
    let v = out.value;
    let m = out.mask;
    assert((z & limit) & !(m & limit) == (v & limit) & !(m & limit)) by (bit_vector)
        requires
            z & !m == v & !m,
    ;
}

/// The first two members, in order, whose result is missed, with the result.
fn first_missed(xs: &[u64], ys: &[u64], op: Arith, out: Tnum, limit: u64) -> (r: Option<
    (u64, u64, u64),
>)
    ensures
        match r {
            Some(w) => xs@.contains(w.0) && ys@.contains(w.1) && w.2 == op.result(w.0, w.1) & limit
                && missed(op.result(w.0, w.1), out, limit),
            None => forall|x: u64, y: u64|
                #![trigger xs@.contains(x), ys@.contains(y)]
                xs@.contains(x) && ys@.contains(y) ==> !missed(op.result(x, y), out, limit),
        },
{
    let out_v: u64 = out.value & limit;
    let out_m: u64 = out.mask & limit;
    let mut i: usize = 0;
    while i < xs.len()
        invariant
            i <= xs@.len(),
            out_v == out.value & limit,
            out_m == out.mask & limit,
            forall|k: int, y: u64|
                #![trigger xs@[k], ys@.contains(y)]
                0 <= k < i && ys@.contains(y) ==> !missed(op.result(xs@[k], y), out, limit),
        decreases xs@.len() - i,
    {
        let x: u64 = xs[i];
        let mut j: usize = 0;
        while j < ys.len()
            invariant
                i < xs@.len(),
                x == xs@[i as int],
                j <= ys@.len(),
                out_v == out.value & limit,
                out_m == out.mask & limit,
                forall|k: int|
                    0 <= k < j ==> !missed(op.result(x, #[trigger] ys@[k]), out, limit),
            decreases ys@.len() - j,
        {
            let y: u64 = ys[j];
            let r: u64 = op.apply(x, y) & limit;
            if (r & !out_m) != (out_v & !out_m) {
                assert(xs@[i as int] == x && ys@[j as int] == y);
                return Some((x, y, r));
            }
            j = j + 1;
        }
        i = i + 1;
    }
    None
}

/// `a` and `b` in scope with members `x` and `y` whose result the operator
/// misses.
pub open spec fn is_miss<F: Fn(Tnum, Tnum) -> Tnum>(
    operator: F,
    op: Arith,
    width: u32,
    a: Tnum,
    b: Tnum,
    x: u64,
    y: u64,
    out: Tnum,
) -> bool {
    &&& in_scope(a, top(width))
    &&& in_scope(b, top(width))
    &&& x <= top(width)
    &&& y <= top(width)
    &&& a.covers(x)
    &&& b.covers(y)
    &&& call_ensures(operator, (a, b), out)
    &&& missed(op.result(x, y), out, top(width))
}

/// `v` reports that.
pub open spec fn reports_miss(
    v: Violation,
    name: Seq<char>,
    label: Seq<char>,
    op: Arith,
    width: u32,
    a: Tnum,
    b: Tnum,
    x: u64,
    y: u64,
    out: Tnum,
) -> bool {
    &&& v.operator@ == name
    &&& v.input_class@ == "exhaustive-"@ + text::dec(width as nat)
    &&& v.inputs@ == violation::two_inputs((a.value, a.mask), (b.value, b.mask))
    &&& v.counterexample@ == violation::binary_cex(
        x,
        y,
        label,
        op.result(x, y) & top(width),
        (out.value & top(width), out.mask & top(width)),
    )
}

pub open spec fn genuine<F: Fn(Tnum, Tnum) -> Tnum>(
    v: Violation,
    operator: F,
    name: Seq<char>,
    label: Seq<char>,
    op: Arith,
    width: u32,
) -> bool {
    exists|a: Tnum, b: Tnum, x: u64, y: u64, out: Tnum| #[trigger]
        is_miss(operator, op, width, a, b, x, y, out) && reports_miss(
            v,
            name,
            label,
            op,
            width,
            a,
            b,
            x,
            y,
            out,
        )
}

/// The operator covers the results on all members of `a` and `b`.
pub open spec fn pair_covered<F: Fn(Tnum, Tnum) -> Tnum>(
    operator: F,
    op: Arith,
    width: u32,
    a: Tnum,
    b: Tnum,
) -> bool {
    exists|out: Tnum| #[trigger]
        call_ensures(operator, (a, b), out) && forall|x: u64, y: u64|
            x <= top(width) && y <= top(width) && a.covers(x) && b.covers(y) ==> !missed(
                #[trigger] op.result(x, y),
                out,
                top(width),
            )
}

/// Some report is of the operands `a` and `b`.
pub open spec fn pair_reported<F: Fn(Tnum, Tnum) -> Tnum>(
    found: Seq<Violation>,
    operator: F,
    name: Seq<char>,
    label: Seq<char>,
    op: Arith,
    width: u32,
    a: Tnum,
    b: Tnum,
) -> bool {
    exists|i: int, x: u64, y: u64, out: Tnum|
        #![trigger is_miss(operator, op, width, a, b, x, y, out), found[i]]
        0 <= i < found.len() && is_miss(operator, op, width, a, b, x, y, out) && reports_miss(
            found[i],
            name,
            label,
            op,
            width,
            a,
            b,
            x,
            y,
            out,
        )
}

/// The operator covers the results on all members of `a` and `b`, or a report is of
/// them.
pub open spec fn pair_settled<F: Fn(Tnum, Tnum) -> Tnum>(
    found: Seq<Violation>,
    operator: F,
    name: Seq<char>,
    label: Seq<char>,
    op: Arith,
    width: u32,
    a: Tnum,
    b: Tnum,
) -> bool {
    pair_covered(operator, op, width, a, b) || pair_reported(
        found,
        operator,
        name,
        label,
        op,
        width,
        a,
        b,
    )
}

/// Every pair in scope is settled, unless the list is full.
pub open spec fn reports_all<F: Fn(Tnum, Tnum) -> Tnum>(
    found: Seq<Violation>,
    operator: F,
    name: Seq<char>,
    label: Seq<char>,
    op: Arith,
    width: u32,
    limit: int,
) -> bool {
    found.len() < limit ==> forall|a: Tnum, b: Tnum|
        in_scope(a, top(width)) && in_scope(b, top(width)) ==> #[trigger] pair_settled(
            found,
            operator,
            name,
            label,
            op,
            width,
            a,
            b,
        )
}

proof fn lemma_settled<F: Fn(Tnum, Tnum) -> Tnum>(
    found: Seq<Violation>,
    v: Violation,
    operator: F,
    name: Seq<char>,
    label: Seq<char>,
    op: Arith,
    width: u32,
    a: Tnum,
    b: Tnum,
)
    requires
        pair_settled(found, operator, name, label, op, width, a, b),
    ensures
        pair_settled(found.push(v), operator, name, label, op, width, a, b),
{
    if pair_reported(found, operator, name, label, op, width, a, b) {
        let (i, x, y, out) = choose|i: int, x: u64, y: u64, out: Tnum|
            #![trigger is_miss(operator, op, width, a, b, x, y, out), found[i]]
            0 <= i < found.len() && is_miss(operator, op, width, a, b, x, y, out) && reports_miss(
                found[i],
                name,
                label,
                op,
                width,
                a,
                b,
                x,
                y,
                out,
            );
        assert(found.push(v)[i] == found[i]);
    }
}

/// Searches all normalized tracked numbers of `width` bits, and all their
/// members, for results that an operator misses: one report for a pair of
/// operands, and no more than `limit` reports. Where there is none, the operator
/// covers every result.
pub fn search_tnum<F: Fn(Tnum, Tnum) -> Tnum>(
    operator: &F,
    op: Arith,
    name: &'static str,
    label: &str,
    width: u32,
    limit: usize,
) -> (found: Vec<Violation>)
    requires
        width <= 64,
        limit > 0,
        forall|a: Tnum, b: Tnum| call_requires(*operator, (a, b)),
    ensures
        found@.len() <= limit,
        forall|i: int|
            0 <= i < found@.len() ==> genuine(
                #[trigger] found@[i],
                *operator,
                name@,
                label@,
                op,
                width,
            ),
        found@.len() == 0 ==> forall|a: Tnum, b: Tnum|
            in_scope(a, top(width)) && in_scope(b, top(width)) ==> #[trigger] pair_covered(
                *operator,
                op,
                width,
                a,
                b,
            ),
        reports_all(found@, *operator, name@, label@, op, width, limit as int),
{
    let max: u64 = top_of(width);
    let all: Vec<Tnum> = all_tnums(width);
    let mut found: Vec<Violation> = Vec::new();
    let mut i: usize = 0;
    while i < all.len()
        invariant
            width <= 64,
            limit > 0,
            max == top(width),
            i <= all@.len(),
            forall|a: Tnum, b: Tnum| call_requires(*operator, (a, b)),
            forall|k: int| 0 <= k < all@.len() ==> in_scope(#[trigger] all@[k], max),
            found@.len() < limit,
            forall|k: int|
                0 <= k < found@.len() ==> genuine(
                    #[trigger] found@[k],
                    *operator,
                    name@,
                    label@,
                    op,
                    width,
                ),
            found@.len() == 0 ==> forall|k: int, l: int|
                0 <= k < i && 0 <= l < all@.len() ==> #[trigger] pair_covered(
                    *operator,
                    op,
                    width,
                    all@[k],
                    all@[l],
                ),
            forall|k: int, l: int|
                0 <= k < i && 0 <= l < all@.len() ==> #[trigger] pair_settled(
                    found@,
                    *operator,
                    name@,
                    label@,
                    op,
                    width,
                    all@[k],
                    all@[l],
                ),
        decreases all@.len() - i,
    {
        let a: Tnum = all[i];
        let xs: Vec<u64> = tnum_members(&a, width);
        let mut j: usize = 0;
        while j < all.len()
            invariant
                width <= 64,
                limit > 0,
                max == top(width),
                i < all@.len(),
                a == all@[i as int],
                j <= all@.len(),
                forall|a: Tnum, b: Tnum| call_requires(*operator, (a, b)),
                forall|k: int| 0 <= k < all@.len() ==> in_scope(#[trigger] all@[k], max),
                forall|v: u64| #[trigger]
                    xs@.contains(v) <==> v <= max && cut(a, max).covers(v),
                found@.len() < limit,
                forall|k: int|
                    0 <= k < found@.len() ==> genuine(
                        #[trigger] found@[k],
                        *operator,
                        name@,
                        label@,
                        op,
                        width,
                    ),
                found@.len() == 0 ==> forall|k: int, l: int|
                    0 <= k < i && 0 <= l < all@.len() ==> #[trigger] pair_covered(
                        *operator,
                        op,
                        width,
                        all@[k],
                        all@[l],
                    ),
                found@.len() == 0 ==> forall|l: int|
                    0 <= l < j ==> #[trigger] pair_covered(*operator, op, width, a, all@[l]),
                forall|k: int, l: int|
                    0 <= k < i && 0 <= l < all@.len() ==> #[trigger] pair_settled(
                        found@,
                        *operator,
                        name@,
                        label@,
                        op,
                        width,
                        all@[k],
                        all@[l],
                    ),
                forall|l: int|
                    0 <= l < j ==> #[trigger] pair_settled(
                        found@,
                        *operator,
                        name@,
                        label@,
                        op,
                        width,
                        a,
                        all@[l],
                    ),
            decreases all@.len() - j,
        {
            let b: Tnum = all[j];
            let out: Tnum = operator(a, b);
            let ys: Vec<u64> = tnum_members(&b, width);
            proof {
                lemma_cut(width, a.value);
                lemma_cut(width, a.mask);
                lemma_cut(width, b.value);
                lemma_cut(width, b.mask);
                assert(cut(a, max) == a);
                assert(cut(b, max) == b);
            }
            match first_missed(&xs, &ys, op, out, max) {
                Some(w) => {
                    let class: String = numbered_class("exhaustive-", width as u64);
                    let v: Violation = binary_violation(
                        name,
                        class,
                        (a.value, a.mask),
                        (b.value, b.mask),
                        (w.0, w.1),
                        label,
                        w.2,
                        (out.value & max, out.mask & max),
                    );
                    proof {
                        assert(xs@.contains(w.0));
                        assert(ys@.contains(w.1));
                        assert(is_miss(*operator, op, width, a, b, w.0, w.1, out));
                        assert(reports_miss(v, name@, label@, op, width, a, b, w.0, w.1, out));
                        assert(genuine(v, *operator, name@, label@, op, width));
                    }
                    let ghost before = found@;
                    found.push(v);
                    proof {
                        assert forall|k: int, l: int|
                            0 <= k < i && 0 <= l < all@.len() implies #[trigger] pair_settled(
                            found@,
                            *operator,
                            name@,
                            label@,
                            op,
                            width,
                            all@[k],
                            all@[l],
                        ) by {
                            lemma_settled(
                                before,
                                v,
                                *operator,
                                name@,
                                label@,
                                op,
                                width,
                                all@[k],
                                all@[l],
                            );
                        }
                        assert forall|l: int| 0 <= l < j implies #[trigger] pair_settled(
                            found@,
                            *operator,
                            name@,
                            label@,
                            op,
                            width,
                            a,
                            all@[l],
                        ) by {
                            lemma_settled(
                                before,
                                v,
                                *operator,
                                name@,
                                label@,
                                op,
                                width,
                                a,
                                all@[l],
                            );
                        }
                        assert(found@[before.len() as int] == v);
                        assert(pair_reported(found@, *operator, name@, label@, op, width, a, b));
                    }
                    if found.len() >= limit {
                        return found;
                    }
                },
                None => {
                    proof {
                        assert forall|x: u64, y: u64|
                            x <= max && y <= max && a.covers(x) && b.covers(y) implies !missed(
                            #[trigger] op.result(x, y),
                            out,
                            max,
                        ) by {
                            assert(xs@.contains(x));
                            assert(ys@.contains(y));
                        }
                        assert(call_ensures(*operator, (a, b), out));
                        assert(pair_covered(*operator, op, width, a, b));
                    }
                },
            }
            j = j + 1;
        }
        i = i + 1;
    }
    proof {
        assert forall|a: Tnum, b: Tnum|
            in_scope(a, top(width)) && in_scope(b, top(width)) implies #[trigger] pair_settled(
            found@,
            *operator,
            name@,
            label@,
            op,
            width,
            a,
            b,
        ) by {
            assert(all@.contains(a) && all@.contains(b));
            let k = choose|k: int| 0 <= k < all@.len() && all@[k] == a;
            let l = choose|l: int| 0 <= l < all@.len() && all@[l] == b;
            assert(pair_settled(
                found@,
                *operator,
                name@,
                label@,
                op,
                width,
                all@[k],
                all@[l],
            ));
        }
        if found@.len() == 0 {
            assert forall|a: Tnum, b: Tnum|
                in_scope(a, top(width)) && in_scope(b, top(width)) implies #[trigger] pair_covered(
                *operator,
                op,
                width,
                a,
                b,
            ) by {
                assert(all@.contains(a) && all@.contains(b));
                let k = choose|k: int| 0 <= k < all@.len() && all@[k] == a;
                let l = choose|l: int| 0 <= l < all@.len() && all@[l] == b;
                assert(pair_covered(*operator, op, width, all@[k], all@[l]));
            }
        }
    }
    found
}

/// The exhaustive check of a binary operator on tracked numbers of `width` bits.
pub fn exhaustive_tnum_binary(op: TnumConcreteOp, width: u32) -> (found: Vec<Violation>)
    requires
        width <= 64,
    ensures
        found@.len() == 0,
{
    let operator = |a: Tnum, b: Tnum| -> (r: Tnum)
        ensures
            r == op.abstraction(a, b),
        { rust_tnum_op(op, a, b) };
    let name: &'static str = op_name(op);
    let found: Vec<Violation> = search_tnum(
        &operator,
        op.arith(),
        name,
        "x op y",
        width,
        1_000_000,
    );
    proof {
        if found@.len() > 0 {
            assert(genuine(found@[0], operator, name@, "x op y"@, op.operation(), width));
            let (a, b, x, y, out) = choose|a: Tnum, b: Tnum, x: u64, y: u64, out: Tnum| #[trigger]
                is_miss(operator, op.operation(), width, a, b, x, y, out) && reports_miss(
                    found@[0],
                    name@,
                    "x op y"@,
                    op.operation(),
                    width,
                    a,
                    b,
                    x,
                    y,
                    out,
                );
            op.is_sound(a, b, x, y);
            lemma_not_missed(op.operation().result(x, y), out, top(width));
        }
    }
    found
}

/// The exhaustive check of `Tnum::mul` on tracked numbers of `width` bits.
pub fn exhaustive_tnum_mul(width: u32) -> (found: Vec<Violation>)
    requires
        width <= 64,
    ensures
        found@.len() == 0,
{
    let operator = |a: Tnum, b: Tnum| -> (r: Tnum)
        ensures
            r == a.multiplied(b),
        { a.mul(b) };
    let found: Vec<Violation> = search_tnum(
        &operator,
        Arith::Mul,
        "tnum_mul",
        "x*y",
        width,
        100_000,
    );
    proof {
        if found@.len() > 0 {
            assert(genuine(found@[0], operator, "tnum_mul"@, "x*y"@, Arith::Mul, width));
            let (a, b, x, y, out) = choose|a: Tnum, b: Tnum, x: u64, y: u64, out: Tnum| #[trigger]
                is_miss(operator, Arith::Mul, width, a, b, x, y, out) && reports_miss(
                    found@[0],
                    "tnum_mul"@,
                    "x*y"@,
                    Arith::Mul,
                    width,
                    a,
                    b,
                    x,
                    y,
                    out,
                );
            tnum::mul_is_sound(a, b, x, y);
            lemma_not_missed(tnum::times(x, y), out, top(width));
        }
    }
    found
}

// ── By the solver ───────────────────────────────────────────────────────────

/// A symbolic tracked number whose parts are fresh variables.
pub fn fresh_tnum(value: &str, mask: &str) -> (t: SymTnum)
    requires
        !value@.contains('\0'),
        !mask@.contains('\0'),
    ensures
        t.wf(),
{
    SymTnum { value: Word::fresh(value, 64), mask: Word::fresh(mask, 64) }
}

/// The claim that a tracked number is normalized.
fn claim_normalized(t: &SymTnum) -> (c: Claim)
    requires
        t.wf(),
    ensures
        forall|m: Assignment| #[trigger] c.holds(m) == t.at(m).normalized(),
{
    let overlap: Word = t.value.and(&t.mask);
    let zero: Word = Word::literal(0);
    let c: Claim = overlap.equals(&zero);
    proof {
        assert forall|m: Assignment| #[trigger] c.holds(m) == t.at(m).normalized() by {
            overlap.lemma_word(m);
            zero.lemma_word(m);
            assert(zero.word(m) == 0);
        }
    }
    c
}

/// The claims that `x` is a member of `a` and `y` of `b`, both normalized, and
/// that the operator misses the result `r`.
fn tnum_claims(a: &SymTnum, b: &SymTnum, x: &Word, y: &Word, r: &Word, out: &SymTnum) -> (v: Vec<Claim>)
    requires
        a.wf(),
        b.wf(),
        out.wf(),
        x.bits() == 64,
        y.bits() == 64,
        r.bits() == 64,
    ensures
        forall|m: Assignment| #[trigger]
            word::all_hold(v@, m) ==> a.at(m).normalized() && b.at(m).normalized() && a.at(m).covers(
                x.word(m),
            ) && b.at(m).covers(y.word(m)) && !out.at(m).covers(r.word(m)),
{
    let na: Claim = claim_normalized(a);
    let nb: Claim = claim_normalized(b);
    let normal: Claim = na.and(&nb);
    let in_a: Claim = concretize(a, x);
    let in_b: Claim = concretize(b, y);
    let contained: Claim = concretize(out, r);
    let miss: Claim = contained.not();
    let mut v: Vec<Claim> = Vec::new();
    v.push(normal);
    v.push(in_a);
    v.push(in_b);
    v.push(miss);
    proof {
        assert forall|m: Assignment| #[trigger] word::all_hold(v@, m) implies a.at(m).normalized()
            && b.at(m).normalized() && a.at(m).covers(x.word(m)) && b.at(m).covers(y.word(m))
            && !out.at(m).covers(r.word(m)) by {
            assert(v@[0].holds(m) && v@[1].holds(m) && v@[2].holds(m) && v@[3].holds(m));
            assert(na.holds(m) && nb.holds(m));
            assert(!contained.holds(m));
        }
    }
    v
}

/// The check of a binary operator on tracked numbers of 64 bits: the solver is
/// asked, `limit` times at most and at least once, for members whose result the
/// encoding misses, until it has no answer.
pub fn symbolic_tnum_binary(op: TnumConcreteOp, limit: usize) -> (found: Vec<Violation>)
    ensures
        found@.len() == 0,
{
    let rounds: usize = if limit == 0 {
        1
    } else {
        limit
    };
    let mut found: Vec<Violation> = Vec::new();
    let mut round: usize = 0;
    while round < rounds
        invariant
            found@.len() == 0,
        decreases rounds - round,
    {
        proof {
            reveal_strlit("a.v");
            reveal_strlit("a.m");
            reveal_strlit("b.v");
            reveal_strlit("b.m");
            reveal_strlit("x");
            reveal_strlit("y");
        }
        let a: SymTnum = fresh_tnum("a.v", "a.m");
        let b: SymTnum = fresh_tnum("b.v", "b.m");
        let x: Word = Word::fresh("x", 64);
        let y: Word = Word::fresh("y", 64);
        let out: SymTnum = encode_tnum_op(op, &a, &b);
        let r: Word = op.apply_bv(&x, &y);
        let claims: Vec<Claim> = tnum_claims(&a, &b, &x, &y, &r, &out);
        match find_assignment(&claims) {
            Reply::Satisfied(answer) => {
                proof {
                    let m = answer.assignment();
                    op.is_sound(a.at(m), b.at(m), x.word(m), y.word(m));
                    assert(out.at(m) == op.abstraction(a.at(m), b.at(m)));
                    assert(r.word(m) == op.operation().result(x.word(m), y.word(m)));
                    assert(false);
                }
                found.push(
                    binary_violation(
                        op_name(op),
                        plain_class("symbolic-64"),
                        (answer.value_or_zero(&a.value), answer.value_or_zero(&a.mask)),
                        (answer.value_or_zero(&b.value), answer.value_or_zero(&b.mask)),
                        (answer.value_or_zero(&x), answer.value_or_zero(&y)),
                        "x op y",
                        answer.value_or_zero(&r),
                        (answer.value_or_zero(&out.value), answer.value_or_zero(&out.mask)),
                    ),
                );
                if found.len() >= limit {
                    return found;
                }
            },
            // the next round would ask the same
            _ => {
                return found;
            },
        }
        round = round + 1;
    }
    found
}

/// A shift by a constant.
#[derive(Debug, Clone, Copy, PartialEq, Eq)]
enum Shift {
    Left,
    Right,
    Arithmetic,
}

impl Shift {
    spec fn abstraction(self, a: Tnum, k: u64) -> Tnum {
        match self {
            Shift::Left => a.lshifted(k),
            Shift::Right => a.rshifted(k),
            Shift::Arithmetic => a.arshifted(k),
        }
    }

    spec fn result(self, x: u64, k: u64) -> u64 {
        match self {
            Shift::Left => x << k,
            Shift::Right => x >> k,
            Shift::Arithmetic => tnum::ashr(x, k),
        }
    }
}

/// One shift by `k`: the solver's counterexample, if it gives one.
fn shift_round(shift: Shift, k: u64) -> (found: Option<Violation>)
    requires
        k < 64,
    ensures
        found is None,
{
    proof {
        reveal_strlit("a.v");
        reveal_strlit("a.m");
        reveal_strlit("x");
    }
    let a: SymTnum = fresh_tnum("a.v", "a.m");
    let x: Word = Word::fresh("x", 64);
    let amount: Word = Word::literal(k);
    let out: SymTnum = match shift {
        Shift::Left => encode_lshift(&a, &amount),
        Shift::Right => encode_rshift(&a, &amount),
        Shift::Arithmetic => encode_arshift(&a, &amount),
    };
    let r: Word = match shift {
        Shift::Left => x.shl(&amount),
        Shift::Right => x.lshr(&amount),
        Shift::Arithmetic => x.ashr(&amount),
    };
    let in_a: Claim = concretize(&a, &x);
    let contained: Claim = concretize(&out, &r);
    let miss: Claim = contained.not();
    let mut claims: Vec<Claim> = Vec::new();
    claims.push(in_a);
    claims.push(miss);
    match find_assignment(&claims) {
        Reply::Satisfied(answer) => {
            proof {
                let m = answer.assignment();
                assert(claims@[0].holds(m) && claims@[1].holds(m));
                assert(!contained.holds(m));
                assert(amount.word(m) == k);
                assert(out.at(m) == shift.abstraction(a.at(m), k));
                assert(r.word(m) == shift.result(x.word(m), k));
                tnum::shifts_are_sound(a.at(m), k, x.word(m));
                assert(false);
            }
            let name: &'static str = match shift {
                Shift::Left => "tnum_lshift",
                Shift::Right => "tnum_rshift",
                Shift::Arithmetic => "tnum_arshift",
            };
            Some(
                shift_violation(
                    name,
                    numbered_class("symbolic-64-shift-", k),
                    (answer.value_or_zero(&a.value), answer.value_or_zero(&a.mask)),
                    answer.value_or_zero(&x),
                    answer.value_or_zero(&r),
                    (answer.value_or_zero(&out.value), answer.value_or_zero(&out.mask)),
                ),
            )
        },
        _ => None,
    }
}

/// The check of the shifts, by each constant below 64.
pub fn symbolic_tnum_shifts(limit: usize) -> (found: Vec<Violation>)
    ensures
        found@.len() == 0,
{
    let mut found: Vec<Violation> = Vec::new();
    let mut k: u64 = 0;
    while k < 64
        invariant
            found@.len() == 0,
        decreases 64 - k,
    {
        let mut which: usize = 0;
        while which < 3
            invariant
                k < 64,
                found@.len() == 0,
            decreases 3 - which,
        {
            let shift: Shift = if which == 0 {
                Shift::Left
            } else if which == 1 {
                Shift::Right
            } else {
                Shift::Arithmetic
            };
            match shift_round(shift, k) {
                Some(v) => {
                    found.push(v);
                    if found.len() >= limit {
                        return found;
                    }
                },
                None => {},
            }
            which = which + 1;
        }
        k = k + 1;
    }
    found
}

// ── By sampling ─────────────────────────────────────────────────────────────

/// The state behind `s` of the generator.
pub open spec fn shifted_once(s: u64) -> u64 {
    let a = s ^ (s << 13u64);
    let b = a ^ (a >> 7u64);
    b ^ (b << 17u64)
}

/// A small deterministic generator.
#[derive(Debug)]
pub struct XorShift(pub u64);

impl XorShift {
    /// The next number, which is the next state. It is never zero.
    pub fn next(&mut self) -> (x: u64)
        requires
            old(self).0 != 0,
        ensures
            final(self).0 == shifted_once(old(self).0),
            x == final(self).0,
            x != 0,
    {
        let s: u64 = self.0;
        let a: u64 = s ^ (s << 13u64);
        let b: u64 = a ^ (a >> 7u64);
        let x: u64 = b ^ (b << 17u64);
        assert(shifted_once(s) != 0) by (bit_vector)
            requires
                s != 0,
        ;
        self.0 = x;
        x
    }
}

/// A member of a tracked number: its known bits, and the unknown ones by chance.
pub fn tnum_member(t: &Tnum, rng: &mut XorShift) -> (x: u64)
    requires
        old(rng).0 != 0,
    ensures
        final(rng).0 == shifted_once(old(rng).0),
        final(rng).0 != 0,
        x == t.value | (t.mask & final(rng).0),
        t.covers(x),
{
    let r: u64 = rng.next();
    let v: u64 = t.value;
    let m: u64 = t.mask;
    assert((v | (m & r)) & !m == v & !m) by (bit_vector);
    v | (m & r)
}

/// A normalized tracked number by chance.
fn random_tnum(rng: &mut XorShift) -> (t: Tnum)
    requires
        old(rng).0 != 0,
    ensures
        final(rng).0 != 0,
        t.normalized(),
{
    let v: u64 = rng.next();
    let m: u64 = rng.next();
    assert((v & !m) & m == 0) by (bit_vector);
    Tnum { value: v & !m, mask: m }
}

/// The check of `Tnum::mul` on random tracked numbers of 64 bits and random
/// members.
pub fn random_tnum_mul(pairs: usize, members_per_pair: usize) -> (found: Vec<Violation>)
    ensures
        found@.len() == 0,
{
    let mut rng: XorShift = XorShift(0x5EED_2026_0817);
    let mut found: Vec<Violation> = Vec::new();
    let mut i: usize = 0;
    while i < pairs
        invariant
            rng.0 != 0,
            found@.len() == 0,
        decreases pairs - i,
    {
        let a: Tnum = random_tnum(&mut rng);
        let b: Tnum = random_tnum(&mut rng);
        let out: Tnum = a.mul(b);
        let mut j: usize = 0;
        while j < members_per_pair
            invariant
                rng.0 != 0,
                found@.len() == 0,
                a.normalized(),
                b.normalized(),
                out == a.multiplied(b),
            decreases members_per_pair - j,
        {
            let x: u64 = tnum_member(&a, &mut rng);
            let y: u64 = tnum_member(&b, &mut rng);
            let r: u64 = mul64(x, y);
            proof {
                tnum::mul_is_sound(a, b, x, y);
            }
            if (r & !out.mask) != (out.value & !out.mask) {
                found.push(
                    binary_violation(
                        "tnum_mul",
                        plain_class("random-64"),
                        (a.value, a.mask),
                        (b.value, b.mask),
                        (x, y),
                        "x*y",
                        r,
                        (out.value, out.mask),
                    ),
                );
                if found.len() >= 100 {
                    return found;
                }
            }
            j = j + 1;
        }
        i = i + 1;
    }
    found
}

} // verus!
