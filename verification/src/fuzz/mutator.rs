//! Mutation of seed programs: field replacement, insertion, deletion and
//! splicing.
//!
//! Mutations happen on instructions, never on raw bytes, so that the output
//! always decodes. Mutants that fail the structural checks are dropped. The
//! frame of a seed (its first instruction and its last) is never mutated.

use vstd::prelude::*;

use crate::cfg;
use crate::cfg::check_structure;
use crate::fuzz::generator;
use crate::fuzz::generator::gen_body_insn;
use crate::fuzz::insn_lib::{ALU_REGS, IMMEDIATES, OFFSETS};
use crate::fuzz::prng;
use crate::fuzz::prng::SplitMix64;
use crate::insn;
use crate::insn::BpfInsn;
use crate::slot::Slot;

verus! {

// ── Replacement of one field ────────────────────────────────────────────────

/// The instruction has a 32-bit immediate operand.
pub open spec fn has_imm(i: BpfInsn) -> bool {
    let op = i.slot().op;
    ||| i.is_single() && (insn::is_alu_op(op) || insn::is_compare_op(op)) && !insn::is_x_op(op)
    ||| i is StMemImm
    ||| i is Call
}

/// `r` is `i` with the immediate `imm`, where `i` has one.
pub open spec fn imm_replaced(i: BpfInsn, imm: i32, r: BpfInsn) -> bool {
    if has_imm(i) { r.is_single() && r.slot() == (Slot { imm, ..i.slot() }) } else { r == i }
}

/// The frame pointer R10, the base of every stack access.
pub const FRAME_POINTER: u8 = 10;

/// The instruction has an offset to replace: a jump or a stack access.
pub open spec fn has_offset(i: BpfInsn) -> bool {
    match i {
        BpfInsn::LdMem { base, .. } => base == FRAME_POINTER,
        BpfInsn::StMem { base, .. } => base == FRAME_POINTER,
        BpfInsn::StMemImm { base, .. } => base == FRAME_POINTER,
        _ => i is Jmp || i.is_compare(),
    }
}

/// `r` is `i` with the offset `off`, where `i` has one.
pub open spec fn off_replaced(i: BpfInsn, off: i16, r: BpfInsn) -> bool {
    if has_offset(i) { r.is_single() && r.slot() == (Slot { off, ..i.slot() }) } else { r == i }
}

/// `r` is `i` with another destination register, or for a store another
/// source; instructions without such an operand stay as they are.
pub open spec fn reg_replaced(i: BpfInsn, reg: u8, r: BpfInsn) -> bool {
    match i {
        BpfInsn::StMem { .. } => r.is_single() && r.slot() == (Slot { src: reg, ..i.slot() }),
        BpfInsn::LdImm64 { imm, .. } => r == (BpfInsn::LdImm64 { dst: reg, imm }),
        BpfInsn::LdMapFd { fd, key_size, value_size, map_type, .. } => r == (BpfInsn::LdMapFd {
            dst: reg,
            fd,
            key_size,
            value_size,
            map_type,
        }),
        BpfInsn::LdMapValue { fd, offset, key_size, value_size, .. } => r == (BpfInsn::LdMapValue {
            dst: reg,
            fd,
            offset,
            key_size,
            value_size,
        }),
        _ => if i is LdMem || insn::is_alu_op(i.slot().op) || i.is_compare() {
            r.is_single() && r.slot() == (Slot { dst: reg, ..i.slot() })
        } else {
            r == i
        },
    }
}

/// Replace the immediate of an instruction; instructions without an immediate
/// field are returned unchanged.
pub fn replace_imm(i: &BpfInsn, imm: i32) -> (r: BpfInsn)
    ensures
        imm_replaced(*i, imm, r),
{
    reveal(BpfInsn::slot);
    match *i {
        BpfInsn::MovImm { dst, .. } => BpfInsn::MovImm { dst, imm },
        BpfInsn::AddImm { dst, .. } => BpfInsn::AddImm { dst, imm },
        BpfInsn::SubImm { dst, .. } => BpfInsn::SubImm { dst, imm },
        BpfInsn::AndImm { dst, .. } => BpfInsn::AndImm { dst, imm },
        BpfInsn::OrImm { dst, .. } => BpfInsn::OrImm { dst, imm },
        BpfInsn::XorImm { dst, .. } => BpfInsn::XorImm { dst, imm },
        BpfInsn::LshImm { dst, .. } => BpfInsn::LshImm { dst, imm },
        BpfInsn::RshImm { dst, .. } => BpfInsn::RshImm { dst, imm },
        BpfInsn::ArshImm { dst, .. } => BpfInsn::ArshImm { dst, imm },
        BpfInsn::Add32Imm { dst, .. } => BpfInsn::Add32Imm { dst, imm },
        BpfInsn::Sub32Imm { dst, .. } => BpfInsn::Sub32Imm { dst, imm },
        BpfInsn::And32Imm { dst, .. } => BpfInsn::And32Imm { dst, imm },
        BpfInsn::Or32Imm { dst, .. } => BpfInsn::Or32Imm { dst, imm },
        BpfInsn::Xor32Imm { dst, .. } => BpfInsn::Xor32Imm { dst, imm },
        BpfInsn::Lsh32Imm { dst, .. } => BpfInsn::Lsh32Imm { dst, imm },
        BpfInsn::Rsh32Imm { dst, .. } => BpfInsn::Rsh32Imm { dst, imm },
        BpfInsn::Arsh32Imm { dst, .. } => BpfInsn::Arsh32Imm { dst, imm },
        BpfInsn::JeqImm { dst, offset, .. } => BpfInsn::JeqImm { dst, imm, offset },
        BpfInsn::JneImm { dst, offset, .. } => BpfInsn::JneImm { dst, imm, offset },
        BpfInsn::JgtImm { dst, offset, .. } => BpfInsn::JgtImm { dst, imm, offset },
        BpfInsn::JgeImm { dst, offset, .. } => BpfInsn::JgeImm { dst, imm, offset },
        BpfInsn::JltImm { dst, offset, .. } => BpfInsn::JltImm { dst, imm, offset },
        BpfInsn::JleImm { dst, offset, .. } => BpfInsn::JleImm { dst, imm, offset },
        BpfInsn::JsgtImm { dst, offset, .. } => BpfInsn::JsgtImm { dst, imm, offset },
        BpfInsn::JsgeImm { dst, offset, .. } => BpfInsn::JsgeImm { dst, imm, offset },
        BpfInsn::JsltImm { dst, offset, .. } => BpfInsn::JsltImm { dst, imm, offset },
        BpfInsn::JsleImm { dst, offset, .. } => BpfInsn::JsleImm { dst, imm, offset },
        BpfInsn::StMemImm { base, offset, size, .. } => BpfInsn::StMemImm { imm, base, offset, size },
        BpfInsn::Call { .. } => BpfInsn::Call { imm },
        other => other,
    }
}

/// Replace the offset of a jump or stack access; other instructions are
/// returned unchanged.
pub fn replace_off(i: &BpfInsn, offset: i16) -> (r: BpfInsn)
    ensures
        off_replaced(*i, offset, r),
{
    reveal(BpfInsn::slot);
    match *i {
        BpfInsn::LdMem { dst, base, size, sign_extend, .. } if base == FRAME_POINTER => BpfInsn::LdMem {
            dst,
            base,
            offset,
            size,
            sign_extend,
        },
        BpfInsn::StMem { src, base, size, .. } if base == FRAME_POINTER => BpfInsn::StMem {
            src,
            base,
            offset,
            size,
        },
        BpfInsn::StMemImm { imm, base, size, .. } if base == FRAME_POINTER => BpfInsn::StMemImm {
            imm,
            base,
            offset,
            size,
        },
        BpfInsn::Jeq { dst, src, .. } => BpfInsn::Jeq { dst, src, offset },
        BpfInsn::Jne { dst, src, .. } => BpfInsn::Jne { dst, src, offset },
        BpfInsn::Jgt { dst, src, .. } => BpfInsn::Jgt { dst, src, offset },
        BpfInsn::Jge { dst, src, .. } => BpfInsn::Jge { dst, src, offset },
        BpfInsn::Jlt { dst, src, .. } => BpfInsn::Jlt { dst, src, offset },
        BpfInsn::Jle { dst, src, .. } => BpfInsn::Jle { dst, src, offset },
        BpfInsn::Jsgt { dst, src, .. } => BpfInsn::Jsgt { dst, src, offset },
        BpfInsn::Jsge { dst, src, .. } => BpfInsn::Jsge { dst, src, offset },
        BpfInsn::Jslt { dst, src, .. } => BpfInsn::Jslt { dst, src, offset },
        BpfInsn::Jsle { dst, src, .. } => BpfInsn::Jsle { dst, src, offset },
        BpfInsn::JeqImm { dst, imm, .. } => BpfInsn::JeqImm { dst, imm, offset },
        BpfInsn::JneImm { dst, imm, .. } => BpfInsn::JneImm { dst, imm, offset },
        BpfInsn::JgtImm { dst, imm, .. } => BpfInsn::JgtImm { dst, imm, offset },
        BpfInsn::JgeImm { dst, imm, .. } => BpfInsn::JgeImm { dst, imm, offset },
        BpfInsn::JltImm { dst, imm, .. } => BpfInsn::JltImm { dst, imm, offset },
        BpfInsn::JleImm { dst, imm, .. } => BpfInsn::JleImm { dst, imm, offset },
        BpfInsn::JsgtImm { dst, imm, .. } => BpfInsn::JsgtImm { dst, imm, offset },
        BpfInsn::JsgeImm { dst, imm, .. } => BpfInsn::JsgeImm { dst, imm, offset },
        BpfInsn::JsltImm { dst, imm, .. } => BpfInsn::JsltImm { dst, imm, offset },
        BpfInsn::JsleImm { dst, imm, .. } => BpfInsn::JsleImm { dst, imm, offset },
        BpfInsn::Jmp { .. } => BpfInsn::Jmp { offset },
        other => other,
    }
}

/// Replace the destination register of an instruction (register forms keep
/// their source; a store changes its source); instructions without a register
/// operand are returned unchanged.
pub fn replace_reg(i: &BpfInsn, reg: u8) -> (r: BpfInsn)
    ensures
        reg_replaced(*i, reg, r),
{
    reveal(BpfInsn::slot);
    match *i {
        BpfInsn::MovImm { imm, .. } => BpfInsn::MovImm { dst: reg, imm },
        BpfInsn::MovReg { src, .. } => BpfInsn::MovReg { dst: reg, src },
        BpfInsn::AddImm { imm, .. } => BpfInsn::AddImm { dst: reg, imm },
        BpfInsn::AddReg { src, .. } => BpfInsn::AddReg { dst: reg, src },
        BpfInsn::SubImm { imm, .. } => BpfInsn::SubImm { dst: reg, imm },
        BpfInsn::SubReg { src, .. } => BpfInsn::SubReg { dst: reg, src },
        BpfInsn::AndImm { imm, .. } => BpfInsn::AndImm { dst: reg, imm },
        BpfInsn::AndReg { src, .. } => BpfInsn::AndReg { dst: reg, src },
        BpfInsn::OrImm { imm, .. } => BpfInsn::OrImm { dst: reg, imm },
        BpfInsn::OrReg { src, .. } => BpfInsn::OrReg { dst: reg, src },
        BpfInsn::XorImm { imm, .. } => BpfInsn::XorImm { dst: reg, imm },
        BpfInsn::XorReg { src, .. } => BpfInsn::XorReg { dst: reg, src },
        BpfInsn::LshImm { imm, .. } => BpfInsn::LshImm { dst: reg, imm },
        BpfInsn::LshReg { src, .. } => BpfInsn::LshReg { dst: reg, src },
        BpfInsn::RshImm { imm, .. } => BpfInsn::RshImm { dst: reg, imm },
        BpfInsn::RshReg { src, .. } => BpfInsn::RshReg { dst: reg, src },
        BpfInsn::ArshImm { imm, .. } => BpfInsn::ArshImm { dst: reg, imm },
        BpfInsn::ArshReg { src, .. } => BpfInsn::ArshReg { dst: reg, src },
        BpfInsn::Add32Imm { imm, .. } => BpfInsn::Add32Imm { dst: reg, imm },
        BpfInsn::Add32Reg { src, .. } => BpfInsn::Add32Reg { dst: reg, src },
        BpfInsn::Sub32Imm { imm, .. } => BpfInsn::Sub32Imm { dst: reg, imm },
        BpfInsn::Sub32Reg { src, .. } => BpfInsn::Sub32Reg { dst: reg, src },
        BpfInsn::And32Imm { imm, .. } => BpfInsn::And32Imm { dst: reg, imm },
        BpfInsn::And32Reg { src, .. } => BpfInsn::And32Reg { dst: reg, src },
        BpfInsn::Or32Imm { imm, .. } => BpfInsn::Or32Imm { dst: reg, imm },
        BpfInsn::Or32Reg { src, .. } => BpfInsn::Or32Reg { dst: reg, src },
        BpfInsn::Xor32Imm { imm, .. } => BpfInsn::Xor32Imm { dst: reg, imm },
        BpfInsn::Xor32Reg { src, .. } => BpfInsn::Xor32Reg { dst: reg, src },
        BpfInsn::Lsh32Imm { imm, .. } => BpfInsn::Lsh32Imm { dst: reg, imm },
        BpfInsn::Lsh32Reg { src, .. } => BpfInsn::Lsh32Reg { dst: reg, src },
        BpfInsn::Rsh32Imm { imm, .. } => BpfInsn::Rsh32Imm { dst: reg, imm },
        BpfInsn::Rsh32Reg { src, .. } => BpfInsn::Rsh32Reg { dst: reg, src },
        BpfInsn::Arsh32Imm { imm, .. } => BpfInsn::Arsh32Imm { dst: reg, imm },
        BpfInsn::Arsh32Reg { src, .. } => BpfInsn::Arsh32Reg { dst: reg, src },
        BpfInsn::Jeq { src, offset, .. } => BpfInsn::Jeq { dst: reg, src, offset },
        BpfInsn::Jne { src, offset, .. } => BpfInsn::Jne { dst: reg, src, offset },
        BpfInsn::Jgt { src, offset, .. } => BpfInsn::Jgt { dst: reg, src, offset },
        BpfInsn::Jge { src, offset, .. } => BpfInsn::Jge { dst: reg, src, offset },
        BpfInsn::Jlt { src, offset, .. } => BpfInsn::Jlt { dst: reg, src, offset },
        BpfInsn::Jle { src, offset, .. } => BpfInsn::Jle { dst: reg, src, offset },
        BpfInsn::Jsgt { src, offset, .. } => BpfInsn::Jsgt { dst: reg, src, offset },
        BpfInsn::Jsge { src, offset, .. } => BpfInsn::Jsge { dst: reg, src, offset },
        BpfInsn::Jslt { src, offset, .. } => BpfInsn::Jslt { dst: reg, src, offset },
        BpfInsn::Jsle { src, offset, .. } => BpfInsn::Jsle { dst: reg, src, offset },
        BpfInsn::JeqImm { imm, offset, .. } => BpfInsn::JeqImm { dst: reg, imm, offset },
        BpfInsn::JneImm { imm, offset, .. } => BpfInsn::JneImm { dst: reg, imm, offset },
        BpfInsn::JgtImm { imm, offset, .. } => BpfInsn::JgtImm { dst: reg, imm, offset },
        BpfInsn::JgeImm { imm, offset, .. } => BpfInsn::JgeImm { dst: reg, imm, offset },
        BpfInsn::JltImm { imm, offset, .. } => BpfInsn::JltImm { dst: reg, imm, offset },
        BpfInsn::JleImm { imm, offset, .. } => BpfInsn::JleImm { dst: reg, imm, offset },
        BpfInsn::JsgtImm { imm, offset, .. } => BpfInsn::JsgtImm { dst: reg, imm, offset },
        BpfInsn::JsgeImm { imm, offset, .. } => BpfInsn::JsgeImm { dst: reg, imm, offset },
        BpfInsn::JsltImm { imm, offset, .. } => BpfInsn::JsltImm { dst: reg, imm, offset },
        BpfInsn::JsleImm { imm, offset, .. } => BpfInsn::JsleImm { dst: reg, imm, offset },
        BpfInsn::LdMem { base, offset, size, sign_extend, .. } => BpfInsn::LdMem {
            dst: reg,
            base,
            offset,
            size,
            sign_extend,
        },
        BpfInsn::StMem { base, offset, size, .. } => BpfInsn::StMem { src: reg, base, offset, size },
        BpfInsn::LdImm64 { imm, .. } => BpfInsn::LdImm64 { dst: reg, imm },
        BpfInsn::LdMapFd { fd, key_size, value_size, map_type, .. } => BpfInsn::LdMapFd {
            dst: reg,
            fd,
            key_size,
            value_size,
            map_type,
        },
        BpfInsn::LdMapValue { fd, offset, key_size, value_size, .. } => BpfInsn::LdMapValue {
            dst: reg,
            fd,
            offset,
            key_size,
            value_size,
        },
        other => other,
    }
}

// ── The strategies ──────────────────────────────────────────────────────────

/// `out` is `seed` with one field of one body instruction replaced, as drawn
/// at `s`; the generator goes on at `t`.
pub open spec fn field_replaced(s: u64, seed: Seq<BpfInsn>, out: Seq<BpfInsn>, t: u64) -> bool {
    let s1 = prng::step(s);
    let s2 = prng::step(s1);
    let idx = 1 + prng::roll(s, seed.len() - 2);
    let kind = prng::roll(s1, 3);
    &&& t == prng::step(s2)
    &&& out.len() == seed.len()
    &&& forall|k: int| 0 <= k < seed.len() && k != idx ==> #[trigger] out[k] == seed[k]
    &&& if kind == 0 {
        imm_replaced(seed[idx], IMMEDIATES@[prng::roll(s2, 10)], out[idx])
    } else if kind == 1 {
        off_replaced(seed[idx], OFFSETS@[prng::roll(s2, 23)], out[idx])
    } else {
        reg_replaced(seed[idx], ALU_REGS@[prng::roll(s2, 10)], out[idx])
    }
}

/// `out` is `seed` with one fresh instruction, drawn like those of a
/// generated body, somewhere between its first and its last.
pub open spec fn inserted(s: u64, seed: Seq<BpfInsn>, out: Seq<BpfInsn>, t: u64) -> bool {
    let pos = 1 + prng::roll(s, seed.len() - 1);
    let (slot, u) = generator::body_draw(prng::step(s), pos, seed.len() as int);
    &&& t == u
    &&& out.len() == seed.len() + 1
    &&& out[pos].is_single()
    &&& out[pos].slot() == slot
    &&& out == seed.insert(pos, out[pos])
}

/// `out` is `seed` without one body instruction; a body of one instruction is
/// kept.
pub open spec fn deleted(s: u64, seed: Seq<BpfInsn>, out: Seq<BpfInsn>, t: u64) -> bool {
    if seed.len() > 3 {
        t == prng::step(s) && out == seed.remove(1 + prng::roll(s, seed.len() - 2))
    } else {
        t == s && out == seed
    }
}

/// `out` is a head of `a` and a tail of `b`.
pub open spec fn spliced(
    s: u64,
    a: Seq<BpfInsn>,
    b: Seq<BpfInsn>,
    out: Seq<BpfInsn>,
    t: u64,
) -> bool {
    let cut_a = 1 + prng::roll(s, a.len() - 1);
    let cut_b = 1 + prng::roll(prng::step(s), b.len() - 1);
    t == prng::step(prng::step(s)) && out == a.take(cut_a) + b.skip(cut_b)
}

/// `out` is the mutant of `seed` that is drawn at `s`: half of the draws
/// replace a field, a fifth insert, fifteen percent delete, and the rest
/// splice with `other`, or replace a field where that is no use.
pub open spec fn is_mutant(
    s: u64,
    seed: Seq<BpfInsn>,
    other: Option<Seq<BpfInsn>>,
    out: Seq<BpfInsn>,
    t: u64,
) -> bool {
    let roll = prng::roll(s, 100);
    let s1 = prng::step(s);
    if roll < 50 {
        field_replaced(s1, seed, out, t)
    } else if roll < 70 {
        inserted(s1, seed, out, t)
    } else if roll < 85 {
        deleted(s1, seed, out, t)
    } else {
        match other {
            Some(b) if b.len() >= 2 => spliced(s1, seed, b, out, t),
            _ => field_replaced(s1, seed, out, t),
        }
    }
}

/// A mutant keeps the frame: it begins as its seed and ends as the seed or as
/// the other seed.
pub proof fn mutation_keeps_frame(
    s: u64,
    seed: Seq<BpfInsn>,
    other: Option<Seq<BpfInsn>>,
    out: Seq<BpfInsn>,
    t: u64,
)
    requires
        seed.len() >= 3,
        is_mutant(s, seed, other, out, t),
    ensures
        out.len() >= 2,
        out[0] == seed[0],
        out.last() == seed.last() || (other is Some && out.last() == other->0.last()),
{
    let s1 = prng::step(s);
    let n = seed.len() as int;
    let roll = prng::roll(s, 100);
    assert(0 <= prng::roll(s1, n - 2) < n - 2);
    assert(0 <= prng::roll(s1, n - 1) < n - 1);
    if 85 <= roll && other is Some && other->0.len() >= 2 {
        let b = other->0;
        let cut_b = 1 + prng::roll(prng::step(s1), b.len() - 1);
        assert(1 <= cut_b < b.len());
    }
}

/// The instructions of a second seed.
pub open spec fn contents(other: Option<&[BpfInsn]>) -> Option<Seq<BpfInsn>> {
    match other {
        Some(insns) => Some(insns@),
        None => None,
    }
}

fn to_vec(insns: &[BpfInsn]) -> (out: Vec<BpfInsn>)
    ensures
        out@ == insns@,
{
    let mut out: Vec<BpfInsn> = Vec::new();
    append_range(&mut out, insns, 0, insns.len());
    out
}

/// Appends the instructions `from..to`.
fn append_range(out: &mut Vec<BpfInsn>, insns: &[BpfInsn], from: usize, to: usize)
    requires
        from <= to <= insns@.len(),
    ensures
        final(out)@ == old(out)@ + insns@.subrange(from as int, to as int),
{
    let mut i: usize = from;
    let ghost head = out@;
    proof {
        assert(head + insns@.subrange(from as int, from as int) == head);
    }
    while i < to
        invariant
            from <= i <= to <= insns@.len(),
            out@ == head + insns@.subrange(from as int, i as int),
        decreases to - i,
    {
        out.push(insns[i]);
        proof {
            assert(insns@.subrange(from as int, i + 1) == insns@.subrange(
                from as int,
                i as int,
            ).push(insns@[i as int]));
        }
        i = i + 1;
    }
}

/// Mutates one seed program per call. The seed of the generator fully
/// determines the sequence of mutations.
pub struct Mutator {
    rng: SplitMix64,
}

impl View for Mutator {
    type V = u64;

    closed spec fn view(&self) -> u64 {
        self.rng@
    }
}

impl Mutator {
    pub fn new(seed: u64) -> (m: Self)
        ensures
            m@ == seed,
    {
        Self { rng: SplitMix64::new(seed) }
    }

    /// A deterministic `percent`-chance roll.
    pub fn chance(&mut self, percent: u64) -> (hit: bool)
        ensures
            hit == (prng::roll(old(self)@, 100) < percent),
            final(self)@ == prng::step(old(self)@),
    {
        self.rng.below(100) < percent
    }

    /// An element of a non-empty pool.
    pub fn pick<'a, T>(&mut self, pool: &'a [T]) -> (x: &'a T)
        requires
            pool@.len() > 0,
        ensures
            *x == pool@[prng::roll(old(self)@, pool@.len() as int)],
            final(self)@ == prng::step(old(self)@),
    {
        self.rng.pick(pool)
    }

    /// One mutation of `seed`. `other` is the second seed for splicing.
    /// Returns `None` when the seed has no body or the mutant fails the
    /// structural checks.
    pub fn try_mutate(&mut self, seed: &[BpfInsn], other: Option<&[BpfInsn]>) -> (r: Option<
        Vec<BpfInsn>,
    >)
        requires
            seed@.len() < u32::MAX,
            seed@.len() <= isize::MAX,
            other is Some ==> seed@.len() + other->0@.len() <= u32::MAX,
        ensures
            seed@.len() < 3 ==> r is None && final(self)@ == old(self)@,
            seed@.len() >= 3 ==> exists|m: Seq<BpfInsn>|
                #[trigger] is_mutant(
                    old(self)@,
                    seed@,
                    contents(other),
                    m,
                    final(self)@,
                ) && (r is Some) == cfg::structurally_valid(m) && (r is Some ==> r->0@ == m),
    {
        if seed.len() < 3 {
            return None;
        }
        let roll: u64 = self.rng.below(100);
        let mutant: Vec<BpfInsn> = if roll < 50 {
            self.field_replace(seed)
        } else if roll < 70 {
            self.insert(seed)
        } else if roll < 85 {
            self.delete(seed)
        } else {
            match other {
                Some(b) if b.len() >= 2 => self.splice(seed, b),
                _ => self.field_replace(seed),
            }
        };
        proof {
            assert(is_mutant(old(self)@, seed@, contents(other), mutant@, self@));
        }
        if check_structure(&mutant) {
            Some(mutant)
        } else {
            None
        }
    }

    /// Replace one field (immediate, offset or register) of one body
    /// instruction, drawn from the pools.
    fn field_replace(&mut self, seed: &[BpfInsn]) -> (out: Vec<BpfInsn>)
        requires
            seed@.len() >= 3,
        ensures
            field_replaced(old(self)@, seed@, out@, final(self)@),
    {
        let mut out: Vec<BpfInsn> = to_vec(seed);
        let idx: usize = 1 + self.rng.below((out.len() - 2) as u64) as usize;
        let replaced: BpfInsn = match self.rng.below(3) {
            0 => replace_imm(&seed[idx], *self.rng.pick(&IMMEDIATES)),
            1 => replace_off(&seed[idx], *self.rng.pick(&OFFSETS)),
            _ => replace_reg(&seed[idx], *self.rng.pick(&ALU_REGS)),
        };
        out.set(idx, replaced);
        out
    }

    /// Insert one fresh instruction at a random body position. Branch offsets
    /// may break; the structural checks drop such mutants.
    fn insert(&mut self, seed: &[BpfInsn]) -> (out: Vec<BpfInsn>)
        requires
            3 <= seed@.len() <= isize::MAX,
        ensures
            inserted(old(self)@, seed@, out@, final(self)@),
    {
        let mut out: Vec<BpfInsn> = to_vec(seed);
        let pos: usize = 1 + self.rng.below((out.len() - 1) as u64) as usize;
        let len: usize = out.len();
        let fresh: BpfInsn = gen_body_insn(&mut self.rng, pos, len);
        out.insert(pos, fresh);
        out
    }

    /// Remove one random body instruction.
    fn delete(&mut self, seed: &[BpfInsn]) -> (out: Vec<BpfInsn>)
        requires
            seed@.len() >= 3,
        ensures
            deleted(old(self)@, seed@, out@, final(self)@),
    {
        let mut out: Vec<BpfInsn> = to_vec(seed);
        if out.len() > 3 {
            let pos: usize = 1 + self.rng.below((out.len() - 2) as u64) as usize;
            out.remove(pos);
        }
        out
    }

    /// Cut and join two seeds: the head of `a` and the tail of `b`.
    fn splice(&mut self, a: &[BpfInsn], b: &[BpfInsn]) -> (out: Vec<BpfInsn>)
        requires
            a@.len() >= 3,
            b@.len() >= 2,
        ensures
            spliced(old(self)@, a@, b@, out@, final(self)@),
    {
        let cut_a: usize = 1 + self.rng.below((a.len() - 1) as u64) as usize;
        let cut_b: usize = 1 + self.rng.below((b.len() - 1) as u64) as usize;
        let mut out: Vec<BpfInsn> = Vec::new();
        append_range(&mut out, a, 0, cut_a);
        append_range(&mut out, b, cut_b, b.len());
        proof {
            assert(out@ =~= a@.take(cut_a as int) + b@.skip(cut_b as int));
        }
        out
    }
}

} // verus!
