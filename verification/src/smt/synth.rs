//! Precision witnesses: inputs on which one abstract operation is strictly more
//! precise than another, with concrete members, and programs that show them.

pub mod candidates;
pub mod opcodes;

use vstd::prelude::*;

use super::range_check::random_member;
use super::verify;
use super::verify::XorShift;
use super::violation;
use super::violation::{inputs_text, numbered_class, push_pair};
use crate::insn;
use crate::insn::BpfInsn;
use crate::interval;
use crate::interval::Range;
use crate::slot;
use crate::slot::{to_i32, Slot};
use crate::text;
use crate::text::push_dec;

verus! {

/// A precision gap: operands on which the candidate is strictly more precise.
#[derive(Debug, PartialEq, Eq)]
pub struct PrecisionWitness {
    /// The operator under test.
    pub operator: &'static str,
    /// The kind of inputs.
    pub input_class: String,
    /// The abstract inputs.
    pub inputs: String,
    /// A member of each input.
    pub concrete: (u64, u64),
    /// The result of the current operation.
    pub old_result: Range,
    /// The result of the candidate.
    pub new_result: Range,
    /// The widths of the two results: the smaller, the more precise.
    pub old_width: u64,
    pub new_width: u64,
}

/// The width of an interval; the largest one for bounds in the wrong order.
pub open spec fn breadth(r: Range) -> u64 {
    if r.0 <= r.1 {
        (r.1 - r.0) as u64
    } else {
        u64::MAX
    }
}

/// The width of an interval.
pub fn interval_width(r: Range) -> (w: u64)
    ensures
        w == breadth(r),
{
    if r.0 <= r.1 {
        r.1 - r.0
    } else {
        u64::MAX
    }
}

// ── The search ──────────────────────────────────────────────────────────────

/// The seed of the search.
pub const SEED: u64 = 0xD1FF_2026_0817;

/// A drawn number, cut to `width` bits.
pub open spec fn reduced(z: u64, width: u32) -> u64 {
    if width >= 64 {
        z
    } else {
        z % ((verify::top(width) + 1) as u64)
    }
}

/// Two numbers as an interval.
pub open spec fn ordered(x: u64, y: u64) -> Range {
    (interval::least(x, y), interval::greatest(x, y))
}

/// The interval that is drawn at state `s`.
pub open spec fn drawn(s: u64, width: u32) -> Range {
    let d1 = verify::shifted_once(s);
    let d2 = verify::shifted_once(d1);
    ordered(reduced(d1, width), reduced(d2, width))
}

/// The state behind two draws.
pub open spec fn after_two(s: u64) -> u64 {
    verify::shifted_once(verify::shifted_once(s))
}

/// The member of `r` that is drawn at state `s`.
pub open spec fn member(r: Range, s: u64) -> int {
    r.0 + verify::shifted_once(s) as int % (r.1 - r.0 + 1)
}

/// The two operations return `o` and `n` on the operands.
pub open spec fn results<F: Fn(Range, Range) -> Range, G: Fn(Range, Range) -> Range>(
    old_op: F,
    new_op: G,
    a: Range,
    b: Range,
    o: Range,
    n: Range,
) -> bool {
    call_ensures(old_op, (a, b), o) && call_ensures(new_op, (a, b), n)
}

/// `w` reports a gap on the operands `a` and `b`, with members drawn at `s`.
pub open spec fn is_witness(
    w: PrecisionWitness,
    operator: Seq<char>,
    width: u32,
    a: Range,
    b: Range,
    o: Range,
    n: Range,
    s: u64,
) -> bool {
    &&& w.operator@ == operator
    &&& w.input_class@ == "width-"@ + text::dec(width as nat)
    &&& w.inputs@ == violation::two_inputs(a, b)
    &&& w.concrete.0 == member(a, s)
    &&& w.concrete.1 == member(b, verify::shifted_once(s))
    &&& interval::holds(a, w.concrete.0)
    &&& interval::holds(b, w.concrete.1)
    &&& w.old_result == o
    &&& w.new_result == n
    &&& w.old_width == breadth(o)
    &&& w.new_width == breadth(n)
    &&& w.new_width < w.old_width
}

/// `out` are the gaps that `rounds` rounds find from state `s` on, up to
/// `limit`.
pub open spec fn gaps<F: Fn(Range, Range) -> Range, G: Fn(Range, Range) -> Range>(
    old_op: F,
    new_op: G,
    operator: Seq<char>,
    width: u32,
    limit: int,
    rounds: int,
    s: u64,
    out: Seq<PrecisionWitness>,
) -> bool
    decreases rounds,
{
    if rounds <= 0 {
        out.len() == 0
    } else {
        let a = drawn(s, width);
        let s2 = after_two(s);
        let b = drawn(s2, width);
        let s4 = after_two(s2);
        exists|o: Range, n: Range| #[trigger]
            results(old_op, new_op, a, b, o, n) && if breadth(n) < breadth(o) {
                &&& out.len() > 0
                &&& is_witness(out[0], operator, width, a, b, o, n, s4)
                &&& if limit <= 1 {
                    out.len() == 1
                } else {
                    gaps(
                        old_op,
                        new_op,
                        operator,
                        width,
                        limit - 1,
                        rounds - 1,
                        after_two(s4),
                        out.drop_first(),
                    )
                }
            } else {
                gaps(old_op, new_op, operator, width, limit, rounds - 1, s4, out)
            }
    }
}

/// Draws a number of `width` bits.
fn draw(rng: &mut XorShift, width: u32) -> (z: u64)
    requires
        old(rng).0 != 0,
        width <= 64,
    ensures
        final(rng).0 == verify::shifted_once(old(rng).0),
        final(rng).0 != 0,
        z == reduced(final(rng).0, width),
        width < 64 ==> z <= verify::top(width),
        width < 64 ==> verify::top(width) < 0x8000_0000_0000_0000,
        width >= 64 ==> z != 0,
{
    let z: u64 = rng.next();
    if width == 64 {
        z
    } else {
        let w: u32 = width;
        assert(1u64 << w >= 1 && 1u64 << w <= 0x8000_0000_0000_0000) by (bit_vector)
            requires
                w < 64,
        ;
        let count: u64 = 1u64 << width;
        z % count
    }
}

/// Draws an interval of `width` bits.
fn draw_range(rng: &mut XorShift, width: u32) -> (r: Range)
    requires
        old(rng).0 != 0,
        width <= 64,
    ensures
        final(rng).0 == after_two(old(rng).0),
        final(rng).0 != 0,
        r == drawn(old(rng).0, width),
        r.0 <= r.1,
        r != (0u64, u64::MAX),
{
    let x: u64 = draw(rng, width);
    let y: u64 = draw(rng, width);
    if x <= y {
        (x, y)
    } else {
        (y, x)
    }
}

/// The gap search: draws operands of `width` bits, `limit` times and at least
/// once, and reports those on which `new_op` is strictly more precise than
/// `old_op`.
pub fn find_gaps<F: Fn(Range, Range) -> Range, G: Fn(Range, Range) -> Range>(
    operator: &'static str,
    old_op: F,
    new_op: G,
    width: u32,
    limit: usize,
) -> (out: Vec<PrecisionWitness>)
    requires
        width <= 64,
        forall|a: Range, b: Range| call_requires(old_op, (a, b)),
        forall|a: Range, b: Range| call_requires(new_op, (a, b)),
    ensures
        gaps(
            old_op,
            new_op,
            operator@,
            width,
            limit as int,
            if limit == 0 {
                1
            } else {
                limit as int
            },
            SEED,
            out@,
        ),
{
    let rounds: usize = if limit == 0 {
        1
    } else {
        limit
    };
    let mut out: Vec<PrecisionWitness> = Vec::new();
    let mut rng: XorShift = XorShift(SEED);
    let mut i: usize = 0;
    proof {
        assert forall|rest: Seq<PrecisionWitness>| #[trigger]
            gaps(
                old_op,
                new_op,
                operator@,
                width,
                limit - out@.len(),
                rounds - i,
                rng.0,
                rest,
            ) implies gaps(
            old_op,
            new_op,
            operator@,
            width,
            limit as int,
            rounds as int,
            SEED,
            out@ + rest,
        ) by {
            assert(out@ + rest =~= rest);
        }
    }
    while i < rounds
        invariant
            width <= 64,
            i <= rounds,
            rng.0 != 0,
            limit > 0 ==> out@.len() < limit,
            limit == 0 ==> out@.len() == 0,
            forall|a: Range, b: Range| call_requires(old_op, (a, b)),
            forall|a: Range, b: Range| call_requires(new_op, (a, b)),
            forall|rest: Seq<PrecisionWitness>| #[trigger]
                gaps(
                    old_op,
                    new_op,
                    operator@,
                    width,
                    limit - out@.len(),
                    rounds - i,
                    rng.0,
                    rest,
                ) ==> gaps(
                    old_op,
                    new_op,
                    operator@,
                    width,
                    limit as int,
                    rounds as int,
                    SEED,
                    out@ + rest,
                ),
            rounds == if limit == 0 {
                1
            } else {
                limit
            },
        decreases rounds - i,
    {
        let ghost s = rng.0;
        let ghost before = out@;
        let a: Range = draw_range(&mut rng, width);
        let b: Range = draw_range(&mut rng, width);
        let ghost s4 = rng.0;
        let old_r: Range = old_op(a, b);
        let new_r: Range = new_op(a, b);
        assert(results(old_op, new_op, a, b, old_r, new_r));
        let old_w: u64 = interval_width(old_r);
        let new_w: u64 = interval_width(new_r);
        if new_w < old_w {
            let x: u64 = random_member(a, &mut rng);
            let y: u64 = random_member(b, &mut rng);
            let w: PrecisionWitness = PrecisionWitness {
                operator,
                input_class: numbered_class("width-", width as u64),
                inputs: inputs_text(a, b),
                concrete: (x, y),
                old_result: old_r,
                new_result: new_r,
                old_width: old_w,
                new_width: new_w,
            };
            assert(is_witness(w, operator@, width, a, b, old_r, new_r, s4));
            out.push(w);
            proof {
                let left = limit - before.len();
                if left <= 1 {
                    let rest = seq![w];
                    assert(gaps(old_op, new_op, operator@, width, left, rounds - i, s, rest));
                    assert(before + rest =~= out@);
                } else {
                    assert forall|rest: Seq<PrecisionWitness>| #[trigger]
                        gaps(
                            old_op,
                            new_op,
                            operator@,
                            width,
                            limit - out@.len(),
                            rounds - (i + 1),
                            rng.0,
                            rest,
                        ) implies gaps(
                        old_op,
                        new_op,
                        operator@,
                        width,
                        limit as int,
                        rounds as int,
                        SEED,
                        out@ + rest,
                    ) by {
                        let longer = seq![w] + rest;
                        assert(longer.drop_first() =~= rest);
                        assert(longer[0] == w);
                        assert(gaps(
                            old_op,
                            new_op,
                            operator@,
                            width,
                            left,
                            rounds - i,
                            s,
                            longer,
                        ));
                        assert(before + longer =~= out@ + rest);
                    }
                }
            }
            if out.len() >= limit {
                return out;
            }
        } else {
            proof {
                assert forall|rest: Seq<PrecisionWitness>| #[trigger]
                    gaps(
                        old_op,
                        new_op,
                        operator@,
                        width,
                        limit - out@.len(),
                        rounds - (i + 1),
                        rng.0,
                        rest,
                    ) implies gaps(
                    old_op,
                    new_op,
                    operator@,
                    width,
                    limit as int,
                    rounds as int,
                    SEED,
                    out@ + rest,
                ) by {
                    assert(gaps(
                        old_op,
                        new_op,
                        operator@,
                        width,
                        limit - out@.len(),
                        rounds - i,
                        s,
                        rest,
                    ));
                }
            }
        }
        i = i + 1;
    }
    proof {
        let rest = Seq::<PrecisionWitness>::empty();
        assert(gaps(
            old_op,
            new_op,
            operator@,
            width,
            limit - out@.len(),
            rounds - i,
            rng.0,
            rest,
        ));
        assert(out@ + rest =~= out@);
    }
    out
}

/// Every reported gap is one: the candidate's interval is strictly narrower, and
/// there are no more reports than rounds.
pub proof fn gaps_are_gaps<F: Fn(Range, Range) -> Range, G: Fn(Range, Range) -> Range>(
    old_op: F,
    new_op: G,
    operator: Seq<char>,
    width: u32,
    limit: int,
    rounds: int,
    s: u64,
    out: Seq<PrecisionWitness>,
)
    requires
        gaps(old_op, new_op, operator, width, limit, rounds, s, out),
        rounds >= 0,
    ensures
        out.len() <= rounds,
        forall|i: int|
            0 <= i < out.len() ==> (#[trigger] out[i]).new_width < out[i].old_width && out[i].new_width
                == breadth(out[i].new_result) && out[i].old_width == breadth(out[i].old_result),
    decreases rounds,
{
    if rounds > 0 {
        let a = drawn(s, width);
        let s2 = after_two(s);
        let b = drawn(s2, width);
        let s4 = after_two(s2);
        let (o, n) = choose|o: Range, n: Range| #[trigger]
            results(old_op, new_op, a, b, o, n) && if breadth(n) < breadth(o) {
                &&& out.len() > 0
                &&& is_witness(out[0], operator, width, a, b, o, n, s4)
                &&& if limit <= 1 {
                    out.len() == 1
                } else {
                    gaps(
                        old_op,
                        new_op,
                        operator,
                        width,
                        limit - 1,
                        rounds - 1,
                        after_two(s4),
                        out.drop_first(),
                    )
                }
            } else {
                gaps(old_op, new_op, operator, width, limit, rounds - 1, s4, out)
            };
        if breadth(n) < breadth(o) {
            if limit > 1 {
                let rest = out.drop_first();
                gaps_are_gaps(
                    old_op,
                    new_op,
                    operator,
                    width,
                    limit - 1,
                    rounds - 1,
                    after_two(s4),
                    rest,
                );
                assert forall|i: int| 0 <= i < out.len() implies (#[trigger] out[i]).new_width
                    < out[i].old_width && out[i].new_width == breadth(out[i].new_result)
                    && out[i].old_width == breadth(out[i].old_result) by {
                    if i > 0 {
                        assert(rest[i - 1] == out[i]);
                    }
                }
            }
        } else {
            gaps_are_gaps(old_op, new_op, operator, width, limit, rounds - 1, s4, out);
        }
    }
}

// ── Texts ───────────────────────────────────────────────────────────────────

impl PrecisionWitness {
    /// The line of the witness, behind its rank.
    pub open spec fn text(self) -> Seq<char> {
        self.operator@ + " ["@ + self.input_class@ + "] "@ + self.inputs@ + " -> old="@
            + violation::pair(self.old_result) + " width="@ + text::dec(self.old_width as nat)
            + " new="@ + violation::pair(self.new_result) + " width="@ + text::dec(
            self.new_width as nat,
        ) + " concrete="@ + violation::pair(self.concrete)
    }
}

/// The lines of the first `n` witnesses, by rank.
pub open spec fn ranked_lines(w: Seq<PrecisionWitness>, n: int) -> Seq<char>
    decreases n,
{
    if n <= 0 {
        Seq::empty()
    } else {
        ranked_lines(w, n - 1) + "  "@ + text::dec(n as nat) + ". "@ + w[n - 1].text() + "\n"@
    }
}

/// The list of the witnesses by rank.
pub open spec fn ranked(w: Seq<PrecisionWitness>) -> Seq<char> {
    "precision-witness candidates: "@ + text::dec(w.len()) + "\n"@ + ranked_lines(w, w.len() as int)
}

fn push_witness(s: &mut String, w: &PrecisionWitness)
    ensures
        final(s)@ == old(s)@ + w.text(),
{
    let ghost before = s@;
    s.append(w.operator);
    s.append(" [");
    s.append(w.input_class.as_str());
    s.append("] ");
    s.append(w.inputs.as_str());
    s.append(" -> old=");
    push_pair(s, w.old_result);
    s.append(" width=");
    push_dec(s, w.old_width);
    s.append(" new=");
    push_pair(s, w.new_result);
    s.append(" width=");
    push_dec(s, w.new_width);
    s.append(" concrete=");
    push_pair(s, w.concrete);
    assert(s@ =~= before + w.text());
}

/// Renders the witnesses by rank.
#[verifier::rlimit(60)]
#[verifier::spinoff_prover]
pub fn render_ranked(witnesses: &[PrecisionWitness]) -> (s: String)
    ensures
        s@ == ranked(witnesses@),
{
    let mut s: String = String::new();
    s.append("precision-witness candidates: ");
    push_dec(&mut s, witnesses.len() as u64);
    s.append("\n");
    let ghost head = s@;
    assert(head =~= "precision-witness candidates: "@ + text::dec(witnesses@.len()) + "\n"@);
    let mut i: usize = 0;
    while i < witnesses.len()
        invariant
            i <= witnesses@.len(),
            s@ == head + ranked_lines(witnesses@, i as int),
        decreases witnesses@.len() - i,
    {
        s.append("  ");
        i = i + 1;
        push_dec(&mut s, i as u64);
        s.append(". ");
        push_witness(&mut s, &witnesses[i - 1]);
        s.append("\n");
        assert(s@ =~= head + ranked_lines(witnesses@, i as int));
    }
    s
}

// ── Programs ────────────────────────────────────────────────────────────────

/// The slots that load `v`: a move where `v` is an immediate whose sign is clear,
/// a wide load otherwise.
pub open spec fn load_slots(dst: u8, v: u64) -> Seq<Slot> {
    if v < 0x8000_0000 {
        seq![Slot { op: 0xb7, dst, src: 0, off: 0, imm: slot::signed32(v as int) }]
    } else {
        seq![
            Slot { op: 0x18, dst, src: 0, off: 0, imm: slot::signed32(v as int % 0x1_0000_0000) },
            Slot { op: 0, dst: 0, src: 0, off: 0, imm: slot::signed32(v as int / 0x1_0000_0000) },
        ]
    }
}

/// The slots of a witness program: load `r1` and `r2`, apply the operator,
/// return `r1`.
pub open spec fn witness_slots(x: u64, y: u64, op: u8) -> Seq<Slot> {
    load_slots(1, x) + load_slots(2, y) + seq![
        Slot { op, dst: 1, src: 2, off: 0, imm: 0 },
        Slot { op: 0xbf, dst: 0, src: 1, off: 0, imm: 0 },
        Slot { op: 0x95, dst: 0, src: 0, off: 0, imm: 0 },
    ]
}

/// Slots one after the other.
pub open spec fn laid_out(slots: Seq<Slot>) -> Seq<u8> {
    Seq::new(8 * slots.len(), |k: int| slots[k / 8].bytes()[k % 8])
}

fn push_slot(out: &mut Vec<u8>, s: Slot, Ghost(slots): Ghost<Seq<Slot>>)
    requires
        old(out)@ == laid_out(slots),
    ensures
        final(out)@ == laid_out(slots.push(s)),
{
    let ghost before = out@;
    let bytes: [u8; 8] = s.write();
    let mut i: usize = 0;
    while i < 8
        invariant
            i <= 8,
            bytes@ == s.bytes(),
            out@ == before + s.bytes().take(i as int),
        decreases 8 - i,
    {
        out.push(bytes[i]);
        i = i + 1;
        assert(s.bytes().take(i as int) =~= s.bytes().take(i - 1).push(bytes@[i - 1]));
        assert(out@ =~= before + s.bytes().take(i as int));
    }
    proof {
        slot::lemma_slot_len(s);
        let longer = laid_out(slots.push(s));
        assert(out@.len() == longer.len());
        assert forall|k: int| 0 <= k < longer.len() implies out@[k] == longer[k] by {
            if k < before.len() {
                assert(slots.push(s)[k / 8] == slots[k / 8]);
            } else {
                assert(k / 8 == slots.len() && k % 8 == k - before.len());
            }
        }
        assert(out@ =~= longer);
    }
}

/// A witness as a program: it loads the members into `r1` and `r2`, applies the
/// operator with the given opcode, and returns the result.
pub fn witness_program(w: &PrecisionWitness, opcode: u8) -> (out: Vec<u8>)
    ensures
        out@ == laid_out(witness_slots(w.concrete.0, w.concrete.1, opcode)),
{
    let mut out: Vec<u8> = Vec::new();
    let ghost mut slots = Seq::<Slot>::empty();
    assert(out@ =~= laid_out(slots));
    let mut which: u8 = 1;
    while which <= 2
        invariant
            1 <= which <= 3,
            out@ == laid_out(slots),
            slots == if which == 1 {
                Seq::empty()
            } else if which == 2 {
                load_slots(1, w.concrete.0)
            } else {
                load_slots(1, w.concrete.0) + load_slots(2, w.concrete.1)
            },
        decreases 3 - which,
    {
        let v: u64 = if which == 1 {
            w.concrete.0
        } else {
            w.concrete.1
        };
        let ghost start = slots;
        // the move extends the sign of its immediate
        if v < 0x8000_0000 {
            let s: Slot = Slot { op: 0xb7, dst: which, src: 0, off: 0, imm: to_i32(v as u32) };
            push_slot(&mut out, s, Ghost(slots));
            proof {
                slots = slots.push(s);
                assert(slots =~= start + load_slots(which, v));
            }
        } else {
            let low: u32 = (v % 0x1_0000_0000) as u32;
            let high: u32 = (v / 0x1_0000_0000) as u32;
            let s: Slot = Slot { op: 0x18, dst: which, src: 0, off: 0, imm: to_i32(low) };
            let t: Slot = Slot { op: 0, dst: 0, src: 0, off: 0, imm: to_i32(high) };
            push_slot(&mut out, s, Ghost(slots));
            push_slot(&mut out, t, Ghost(slots.push(s)));
            proof {
                slots = slots.push(s).push(t);
                assert(slots =~= start + load_slots(which, v));
            }
        }
        proof {
            assert(Seq::<Slot>::empty() + load_slots(1, w.concrete.0) =~= load_slots(
                1,
                w.concrete.0,
            ));
        }
        which = which + 1;
    }
    let apply: Slot = Slot { op: opcode, dst: 1, src: 2, off: 0, imm: 0 };
    let result: Slot = Slot { op: 0xbf, dst: 0, src: 1, off: 0, imm: 0 };
    let exit: Slot = Slot { op: 0x95, dst: 0, src: 0, off: 0, imm: 0 };
    push_slot(&mut out, apply, Ghost(slots));
    push_slot(&mut out, result, Ghost(slots.push(apply)));
    push_slot(&mut out, exit, Ghost(slots.push(apply).push(result)));
    assert(slots.push(apply).push(result).push(exit) =~= witness_slots(
        w.concrete.0,
        w.concrete.1,
        opcode,
    ));
    out
}

/// The instructions that load `v`.
pub open spec fn load_insns(dst: u8, v: u64) -> Seq<BpfInsn> {
    if v < 0x8000_0000 {
        seq![BpfInsn::MovImm { dst, imm: slot::signed32(v as int) }]
    } else {
        seq![
            BpfInsn::LdImm64 { dst, imm: v },
            BpfInsn::LdImm64Second { imm_hi: (v as int / 0x1_0000_0000) as u32 },
        ]
    }
}

/// The operator with one of the five opcodes.
pub open spec fn operator_insn(op: u8) -> Option<BpfInsn> {
    if op == opcodes::ADD {
        Some(BpfInsn::AddReg { dst: 1, src: 2 })
    } else if op == opcodes::SUB {
        Some(BpfInsn::SubReg { dst: 1, src: 2 })
    } else if op == opcodes::AND {
        Some(BpfInsn::AndReg { dst: 1, src: 2 })
    } else if op == opcodes::OR {
        Some(BpfInsn::OrReg { dst: 1, src: 2 })
    } else if op == opcodes::XOR {
        Some(BpfInsn::XorReg { dst: 1, src: 2 })
    } else {
        None
    }
}

/// The instructions of a witness program.
pub open spec fn witness_insns(x: u64, y: u64, op: u8) -> Seq<BpfInsn> {
    load_insns(1, x) + load_insns(2, y) + seq![
        operator_insn(op)->0,
        BpfInsn::MovReg { dst: 0, src: 1 },
        BpfInsn::Exit,
    ]
}

/// A load and what it puts into which register: a move extends the sign of its
/// immediate.
pub open spec fn loaded(i: BpfInsn) -> Option<(u8, int)> {
    match i {
        BpfInsn::MovImm { dst, imm } => Some(
            (
                dst,
                if imm < 0 {
                    imm + 0x1_0000_0000_0000_0000
                } else {
                    imm as int
                },
            ),
        ),
        BpfInsn::LdImm64 { dst, imm } => Some((dst, imm as int)),
        _ => None,
    }
}

/// A witness program decodes, to the two loads, the operator, the move of its
/// result and the exit.
pub proof fn witness_program_decodes(x: u64, y: u64, op: u8)
    requires
        operator_insn(op) is Some,
    ensures
        insn::decode_from(laid_out(witness_slots(x, y, op)), 0) == Ok::<
            Seq<BpfInsn>,
            (int, insn::DecodeError),
        >(witness_insns(x, y, op)),
{
    reveal(BpfInsn::slot);
    let insns = witness_insns(x, y, op);
    let slots = witness_slots(x, y, op);
    assert(insns.len() == slots.len());
    assert forall|i: int| 0 <= i < insns.len() implies (#[trigger] insns[i]).slot() == slots[i] by {
    }
    assert forall|i: int| 0 <= i < insns.len() implies #[trigger] insn::well_formed_at(insns, i) by {
    }
    assert(insn::program_bytes(insns) =~= laid_out(slots));
    insn::decode_inverts_encode(insns);
}

/// A witness program loads its members: the first load leaves `x` in `r1`, the
/// second `y` in `r2`, and the operator comes behind them.
pub proof fn witness_program_loads(x: u64, y: u64, op: u8)
    ensures
        ({
            let insns = witness_insns(x, y, op);
            let second = load_insns(1, x).len() as int;
            let operator = second + load_insns(2, y).len();
            &&& loaded(insns[0]) == Some((1u8, x as int))
            &&& loaded(insns[second]) == Some((2u8, y as int))
            &&& forall|i: int|
                0 <= i < operator && i != 0 && i != second ==> (#[trigger] insns[i]) is LdImm64Second
            &&& insns[operator] == operator_insn(op)->0
        }),
{
}

} // verus!
