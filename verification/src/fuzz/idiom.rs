//! Idiom templates that exercise precision-sensitive semantics of a verifier:
//! overflow and wraparound, ALU32 truncation and zero-extension, signed and
//! unsigned refinement, branch narrowing, stack spill and fill, the NULL-check
//! idiom, and bounded loops.
//!
//! A template body is complete: it sets its own r0 and ends with an exit.

use vstd::prelude::*;

use crate::fuzz::insn_lib;
use crate::fuzz::insn_lib::{IMMEDIATES, LARGE_IMMEDIATES};
use crate::fuzz::prng;
use crate::fuzz::prng::SplitMix64;
use crate::insn::{BpfInsn, MemSize};

verus! {

/// The available idiom templates.
#[derive(Debug, Clone, Copy, PartialEq, Eq, Structural)]
pub enum Idiom {
    /// Unknown scalar (helper) or large constant, and repeated ADD/SUB with
    /// large immediates: wraparound and full-range fallback.
    OverflowChain,
    /// Boundary immediate, a chain of ALU32 operations, one ALU64 operation:
    /// truncation and zero-extension.
    Alu32Roundtrip,
    /// `call 7`, then a signed and an unsigned compare of the same register.
    DualRefine,
    /// `call 7`, then a chain of compares that shrinks the range.
    NarrowingChain,
    /// Store a register to the stack, clobber it, load it back, use it.
    SpillFill,
    /// `call 7`, the NULL-check idiom, then use.
    NullCheck,
    /// Counter register, increment, conditional backward edge.
    BoundedLoop,
}

/// All idioms.
pub const ALL_IDIOMS: [Idiom; 7] = [
    Idiom::OverflowChain,
    Idiom::Alu32Roundtrip,
    Idiom::DualRefine,
    Idiom::NarrowingChain,
    Idiom::SpillFill,
    Idiom::NullCheck,
    Idiom::BoundedLoop,
];

// ── What a state draws ──────────────────────────────────────────────────────

/// The work register R1 to R9 that is drawn at `s`.
pub open spec fn work(s: u64) -> u8 {
    (1 + prng::roll(s, 9)) as u8
}

/// The immediate of a pool that is drawn at `s`.
pub open spec fn large(s: u64) -> i32 {
    LARGE_IMMEDIATES@[prng::roll(s, 8)]
}

/// The immediate of the ordinary pool that is drawn at `s`.
pub open spec fn ordinary(s: u64) -> i32 {
    IMMEDIATES@[prng::roll(s, 10)]
}

/// One ADD or SUB on `dst`, with a large immediate or with `dst` itself as
/// the source, and the state behind it.
pub open spec fn add_sub_draw(s: u64, dst: u8) -> (BpfInsn, u64) {
    let s1 = prng::step(s);
    let s2 = prng::step(s1);
    let is_add = prng::roll(s, 2) == 0;
    if prng::roll(s1, 2) == 0 {
        let imm = large(s2);
        (
            if is_add { BpfInsn::AddImm { dst, imm } } else { BpfInsn::SubImm { dst, imm } },
            prng::step(s2),
        )
    } else {
        (
            if is_add { BpfInsn::AddReg { dst, src: dst } } else { BpfInsn::SubReg { dst, src: dst } },
            s2,
        )
    }
}

/// `n` such operations one after the other.
pub open spec fn add_sub_chain(s: u64, dst: u8, n: nat) -> (Seq<BpfInsn>, u64)
    decreases n,
{
    if n == 0 {
        (seq![], s)
    } else {
        let (head, t) = add_sub_chain(s, dst, (n - 1) as nat);
        let (insn, u) = add_sub_draw(t, dst);
        (head.push(insn), u)
    }
}

pub open spec fn overflow_draw(s: u64) -> (Seq<BpfInsn>, u64) {
    let s1 = prng::step(s);
    let s2 = prng::step(s1);
    let n = (2 + prng::roll(s1, 5)) as nat;
    if prng::roll(s, 2) == 0 {
        let (chain, t) = add_sub_chain(s2, 0, n);
        (seq![BpfInsn::Call { imm: 7 }] + chain + seq![BpfInsn::Exit], t)
    } else {
        let s3 = prng::step(s2);
        let reg = work(s2);
        let (chain, t) = add_sub_chain(prng::step(s3), reg, n);
        (
            seq![BpfInsn::MovImm { dst: reg, imm: large(s3) }] + chain + seq![
                BpfInsn::MovReg { dst: 0, src: reg },
                BpfInsn::Exit,
            ],
            t,
        )
    }
}

/// One ALU32 operation on `reg`, with an immediate or with `reg` itself as
/// the source, and the state behind it.
pub open spec fn alu32_draw(s: u64, reg: u8) -> (BpfInsn, u64) {
    let s1 = prng::step(s);
    let s2 = prng::step(s1);
    let op = prng::roll(s, 4);
    if prng::roll(s1, 2) == 0 {
        let imm = ordinary(s2);
        (
            if op == 0 {
                BpfInsn::Add32Imm { dst: reg, imm }
            } else if op == 1 {
                BpfInsn::Sub32Imm { dst: reg, imm }
            } else if op == 2 {
                BpfInsn::Xor32Imm { dst: reg, imm }
            } else {
                BpfInsn::And32Imm { dst: reg, imm }
            },
            prng::step(s2),
        )
    } else {
        (
            if op == 0 {
                BpfInsn::Add32Reg { dst: reg, src: reg }
            } else if op == 1 {
                BpfInsn::Sub32Reg { dst: reg, src: reg }
            } else if op == 2 {
                BpfInsn::Xor32Reg { dst: reg, src: reg }
            } else {
                BpfInsn::And32Reg { dst: reg, src: reg }
            },
            s2,
        )
    }
}

/// `n` such operations one after the other.
pub open spec fn alu32_chain(s: u64, reg: u8, n: nat) -> (Seq<BpfInsn>, u64)
    decreases n,
{
    if n == 0 {
        (seq![], s)
    } else {
        let (head, t) = alu32_chain(s, reg, (n - 1) as nat);
        let (insn, u) = alu32_draw(t, reg);
        (head.push(insn), u)
    }
}

pub open spec fn alu32_roundtrip_draw(s: u64) -> (Seq<BpfInsn>, u64) {
    let s1 = prng::step(s);
    let s2 = prng::step(s1);
    let reg = work(s);
    let (chain, t) = alu32_chain(prng::step(s2), reg, (1 + prng::roll(s2, 4)) as nat);
    let wide = if prng::roll(t, 2) == 0 {
        BpfInsn::AddImm { dst: reg, imm: 1 }
    } else {
        BpfInsn::SubImm { dst: reg, imm: 1 }
    };
    (
        seq![BpfInsn::MovImm { dst: reg, imm: ordinary(s1) }] + chain + seq![
            wide,
            BpfInsn::MovReg { dst: 0, src: reg },
            BpfInsn::Exit,
        ],
        prng::step(t),
    )
}

pub open spec fn dual_refine_draw(s: u64) -> (Seq<BpfInsn>, u64) {
    let s1 = prng::step(s);
    let c = work(s);
    (
        seq![
            BpfInsn::Call { imm: 7 },
            BpfInsn::MovImm { dst: c, imm: ordinary(s1) },
            BpfInsn::Jsgt { dst: 0, src: c, offset: 2 },
            BpfInsn::Jgt { dst: 0, src: c, offset: 1 },
            BpfInsn::MovReg { dst: 0, src: 0 },
            BpfInsn::Exit,
        ],
        prng::step(s1),
    )
}

/// The compare of r0 with `imm` or with `c` that is drawn at `s`.
pub open spec fn narrow_insn(s: u64, c: u8, imm: i32, offset: i16) -> BpfInsn {
    let op = prng::roll(s, 8);
    if prng::roll(prng::step(s), 2) == 0 {
        if op == 0 {
            BpfInsn::JgtImm { dst: 0, imm, offset }
        } else if op == 1 {
            BpfInsn::JgeImm { dst: 0, imm, offset }
        } else if op == 2 {
            BpfInsn::JltImm { dst: 0, imm, offset }
        } else if op == 3 {
            BpfInsn::JleImm { dst: 0, imm, offset }
        } else if op == 4 {
            BpfInsn::JsgtImm { dst: 0, imm, offset }
        } else if op == 5 {
            BpfInsn::JsgeImm { dst: 0, imm, offset }
        } else if op == 6 {
            BpfInsn::JsltImm { dst: 0, imm, offset }
        } else {
            BpfInsn::JsleImm { dst: 0, imm, offset }
        }
    } else if op == 0 {
        BpfInsn::Jgt { dst: 0, src: c, offset }
    } else if op == 1 {
        BpfInsn::Jge { dst: 0, src: c, offset }
    } else if op == 2 {
        BpfInsn::Jlt { dst: 0, src: c, offset }
    } else if op == 3 {
        BpfInsn::Jle { dst: 0, src: c, offset }
    } else if op == 4 {
        BpfInsn::Jsgt { dst: 0, src: c, offset }
    } else if op == 5 {
        BpfInsn::Jsge { dst: 0, src: c, offset }
    } else if op == 6 {
        BpfInsn::Jslt { dst: 0, src: c, offset }
    } else {
        BpfInsn::Jsle { dst: 0, src: c, offset }
    }
}

/// The first `k` of `n` compares. Each takes two draws, and its offset skips
/// the remaining compares, to the use behind them.
pub open spec fn narrow_chain(s: u64, c: u8, imm: i32, n: int, k: nat) -> (Seq<BpfInsn>, u64)
    decreases k,
{
    if k == 0 {
        (seq![], s)
    } else {
        let (head, t) = narrow_chain(s, c, imm, n, (k - 1) as nat);
        (
            head.push(narrow_insn(t, c, imm, (n - k) as i16)),
            prng::step(prng::step(t)),
        )
    }
}

pub open spec fn narrowing_draw(s: u64) -> (Seq<BpfInsn>, u64) {
    let s1 = prng::step(s);
    let s2 = prng::step(s1);
    let c = work(s);
    let imm = ordinary(s1);
    let n = 2 + prng::roll(s2, 5);
    let (chain, t) = narrow_chain(prng::step(s2), c, imm, n, n as nat);
    (
        seq![BpfInsn::Call { imm: 7 }, BpfInsn::MovImm { dst: c, imm }] + chain + seq![
            BpfInsn::MovReg { dst: 0, src: 0 },
            BpfInsn::Exit,
        ],
        t,
    )
}

pub open spec fn spill_fill_draw(s: u64) -> (Seq<BpfInsn>, u64) {
    let s1 = prng::step(s);
    let s2 = prng::step(s1);
    let reg = work(s);
    let offset = (-8 * (1 + prng::roll(s1, 4))) as i16;
    (
        seq![
            BpfInsn::MovImm { dst: reg, imm: ordinary(s2) },
            BpfInsn::StMem { src: reg, base: 10, offset, size: MemSize::DW },
            BpfInsn::MovImm { dst: reg, imm: 0 },
            BpfInsn::LdMem { dst: reg, base: 10, offset, size: MemSize::DW, sign_extend: false },
            BpfInsn::MovReg { dst: 0, src: reg },
            BpfInsn::Exit,
        ],
        prng::step(s2),
    )
}

pub open spec fn null_check_draw(s: u64) -> (Seq<BpfInsn>, u64) {
    let c = work(s);
    (
        seq![
            BpfInsn::Call { imm: 7 },
            BpfInsn::MovImm { dst: c, imm: 0 },
            BpfInsn::Jne { dst: 0, src: c, offset: 1 },
            BpfInsn::Exit,
            BpfInsn::MovImm { dst: 0, imm: 1 },
            BpfInsn::Exit,
        ],
        prng::step(s),
    )
}

/// The first work register that is drawn from `s` on and is not `avoid`, and
/// the state behind it.
pub open spec fn other_work(s: u64, avoid: u8) -> (u8, u64)
    decreases draws_left(s, avoid),
{
    if work(s) != avoid {
        (work(s), prng::step(s))
    } else {
        proof {
            lemma_draws_left(s, avoid);
        }
        other_work(prng::step(s), avoid)
    }
}

pub open spec fn bounded_loop_draw(s: u64) -> (Seq<BpfInsn>, u64) {
    let s1 = prng::step(s);
    let count = (1 + prng::roll(s, 100)) as i32;
    let cnt = work(s1);
    let (idx, t) = other_work(prng::step(s1), cnt);
    (
        seq![
            BpfInsn::MovImm { dst: cnt, imm: count },
            BpfInsn::MovImm { dst: idx, imm: 0 },
            BpfInsn::AddImm { dst: idx, imm: 1 },
            BpfInsn::Jlt { dst: idx, src: cnt, offset: (-2) as i16 },
            BpfInsn::MovReg { dst: 0, src: idx },
            BpfInsn::Exit,
        ],
        t,
    )
}

/// The body of an idiom that is drawn at `s`, and the state behind it.
pub open spec fn idiom_draw(s: u64, idiom: Idiom) -> (Seq<BpfInsn>, u64) {
    match idiom {
        Idiom::OverflowChain => overflow_draw(s),
        Idiom::Alu32Roundtrip => alu32_roundtrip_draw(s),
        Idiom::DualRefine => dual_refine_draw(s),
        Idiom::NarrowingChain => narrowing_draw(s),
        Idiom::SpillFill => spill_fill_draw(s),
        Idiom::NullCheck => null_check_draw(s),
        Idiom::BoundedLoop => bounded_loop_draw(s),
    }
}

// ── Two registers that differ are drawn in the end ──────────────────────────

/// The inverse of the generator's increment modulo 2^64.
pub const GAMMA_INVERSE: u64 = 0xF1DE_83E1_9937_733D;

/// How many increments lead from the state `s` to the state `t`.
pub closed spec fn distance(s: u64, t: u64) -> u64 {
    (((t - s) as u64) * GAMMA_INVERSE) as u64
}

/// A state whose output is not the register `avoid`: at state 0 the register
/// is R1, at state 1 it is R5.
pub closed spec fn good_state(avoid: u8) -> u64 {
    if avoid == 1 { 1 } else { 0 }
}

/// A bound on the draws until a register other than `avoid` comes.
pub closed spec fn draws_left(s: u64, avoid: u8) -> nat {
    distance(prng::step(s), good_state(avoid)) as nat
}

proof fn lemma_distance(s: u64, t: u64)
    ensures
        distance(s, t) == 0 ==> s == t,
        distance(s, t) != 0 ==> distance(prng::step(s), t) == distance(s, t) - 1,
{
    let n = prng::step(s);
    assert((s + 0x9E37_79B9_7F4A_7C15u64) as u64 == (if s + 0x9E37_79B9_7F4A_7C15u64
        > 0xffff_ffff_ffff_ffffu64 {
        s + 0x9E37_79B9_7F4A_7C15u64 - 0x1_0000_0000_0000_0000u128
    } else {
        s + 0x9E37_79B9_7F4A_7C15u64
    })) by (bit_vector);
    assert(n == (s + 0x9E37_79B9_7F4A_7C15u64) as u64);
    let x = (t - s) as u64;
    let d = (x * 0xF1DE_83E1_9937_733Du64) as u64;
    assert((t - n) as u64 == (((t - s) as u64) - 0x9E37_79B9_7F4A_7C15u64) as u64 && ((t - s) as u64
        == 0 ==> t == s)) by (bit_vector)
        requires
            n == (s + 0x9E37_79B9_7F4A_7C15u64) as u64,
    ;
    assert((((x - 0x9E37_79B9_7F4A_7C15u64) as u64) * 0xF1DE_83E1_9937_733Du64) as u64 == ((((x
        * 0xF1DE_83E1_9937_733Du64) as u64) - 1) as u64)) by (bit_vector);
    assert((((x * 0xF1DE_83E1_9937_733Du64) as u64) * 0x9E37_79B9_7F4A_7C15u64) as u64 == x)
        by (bit_vector);
}

/// The output at the good state is not `avoid`.
proof fn lemma_good_state(avoid: u8)
    ensures
        (1 + prng::mix(good_state(avoid)) as int % 9) != avoid,
{
    reveal(prng::mix);
    assert(0u64 ^ (0u64 >> 30) == 0 && 0u64 ^ (0u64 >> 27) == 0 && 0u64 ^ (0u64 >> 31) == 0 && 1u64
        ^ (1u64 >> 30) == 1 && 0xBF58_476D_1CE4_E5B9u64 ^ (0xBF58_476D_1CE4_E5B9u64 >> 27) == 0xbf58477af7ec081a
        && 0x5692161dbd2f29deu64 ^ (0x5692161dbd2f29deu64 >> 31) == 0x5692161d100b05e5) by (bit_vector);
}

/// While the register to be avoided comes, the bound shrinks.
pub proof fn lemma_draws_left(s: u64, avoid: u8)
    requires
        work(s) == avoid,
    ensures
        draws_left(prng::step(s), avoid) < draws_left(s, avoid),
{
    let t = good_state(avoid);
    lemma_distance(prng::step(s), t);
    lemma_good_state(avoid);
    if distance(prng::step(s), t) == 0 {
        assert(prng::step(s) == t);
        assert(work(s) == 1 + prng::mix(t) as int % 9);
        assert(false);
    }
}

// ── The templates ───────────────────────────────────────────────────────────

/// A work register R1 to R9, never R0, which carries the result.
fn work_reg(rng: &mut SplitMix64) -> (reg: u8)
    ensures
        reg == work(old(rng)@),
        final(rng)@ == prng::step(old(rng)@),
        1 <= reg <= 9,
{
    1 + rng.below(9) as u8
}

/// Generate the body of one idiom template. Random parameters come from
/// `rng`; the structure is fixed.
pub fn gen_idiom_body(idiom: Idiom, rng: &mut SplitMix64) -> (body: Vec<BpfInsn>)
    ensures
        (body@, final(rng)@) == idiom_draw(old(rng)@, idiom),
{
    match idiom {
        Idiom::OverflowChain => overflow_chain(rng),
        Idiom::Alu32Roundtrip => alu32_roundtrip(rng),
        Idiom::DualRefine => dual_refine(rng),
        Idiom::NarrowingChain => narrowing_chain(rng),
        Idiom::SpillFill => spill_fill(rng),
        Idiom::NullCheck => null_check(rng),
        Idiom::BoundedLoop => bounded_loop(rng),
    }
}

/// One random ADD or SUB on `dst`. The register form reads `dst` itself: any
/// other register may still be uninitialized here.
fn push_add_sub(rng: &mut SplitMix64, insns: &mut Vec<BpfInsn>, dst: u8)
    ensures
        final(insns)@ == old(insns)@.push(add_sub_draw(old(rng)@, dst).0),
        final(rng)@ == add_sub_draw(old(rng)@, dst).1,
{
    let op: u64 = rng.below(2);
    let k_form: bool = rng.below(2) == 0;
    match (op, k_form) {
        (0, true) => insns.push(insn_lib::add_imm(dst, *rng.pick(&LARGE_IMMEDIATES))),
        (0, false) => insns.push(insn_lib::add_reg(dst, dst)),
        (_, true) => insns.push(insn_lib::sub_imm(dst, *rng.pick(&LARGE_IMMEDIATES))),
        (_, false) => insns.push(insn_lib::sub_reg(dst, dst)),
    }
}

/// Unknown scalar or a large constant, then two to six ADD or SUB operations.
fn overflow_chain(rng: &mut SplitMix64) -> (insns: Vec<BpfInsn>)
    ensures
        (insns@, final(rng)@) == overflow_draw(old(rng)@),
{
    let mut insns: Vec<BpfInsn> = Vec::new();
    let from_helper: bool = rng.below(2) == 0;
    let chain_len: u64 = 2 + rng.below(5);
    let mut reg: u8 = 0;
    if from_helper {
        insns.push(insn_lib::call(7));
    } else {
        reg = work_reg(rng);
        insns.push(insn_lib::mov_imm(reg, *rng.pick(&LARGE_IMMEDIATES)));
    }
    let ghost head = insns@;
    let ghost start = rng@;
    let mut k: u64 = 0;
    proof {
        assert(head + Seq::<BpfInsn>::empty() == head);
    }
    while k < chain_len
        invariant
            k <= chain_len,
            insns@ == head + add_sub_chain(start, reg, k as nat).0,
            rng@ == add_sub_chain(start, reg, k as nat).1,
        decreases chain_len - k,
    {
        let ghost chain = add_sub_chain(start, reg, k as nat).0;
        push_add_sub(rng, &mut insns, reg);
        k = k + 1;
        proof {
            assert(add_sub_chain(start, reg, k as nat).0 == chain.push(insns@.last()));
        }
    }
    if !from_helper {
        insns.push(insn_lib::mov_reg(0, reg));
    }
    insns.push(insn_lib::exit());
    proof {
        assert(insns@ =~= overflow_draw(old(rng)@).0);
    }
    insns
}

/// One ALU32 operation on `reg`. The register form reads `reg` itself.
fn push_alu32(rng: &mut SplitMix64, insns: &mut Vec<BpfInsn>, reg: u8)
    ensures
        final(insns)@ == old(insns)@.push(alu32_draw(old(rng)@, reg).0),
        final(rng)@ == alu32_draw(old(rng)@, reg).1,
{
    let op: u64 = rng.below(4);
    let k_form: bool = rng.below(2) == 0;
    match (op, k_form) {
        (0, true) => insns.push(insn_lib::add32_imm(reg, *rng.pick(&IMMEDIATES))),
        (0, false) => insns.push(insn_lib::add32_reg(reg, reg)),
        (1, true) => insns.push(insn_lib::sub32_imm(reg, *rng.pick(&IMMEDIATES))),
        (1, false) => insns.push(insn_lib::sub32_reg(reg, reg)),
        (2, true) => insns.push(insn_lib::xor32_imm(reg, *rng.pick(&IMMEDIATES))),
        (2, false) => insns.push(insn_lib::xor32_reg(reg, reg)),
        (_, true) => insns.push(insn_lib::and32_imm(reg, *rng.pick(&IMMEDIATES))),
        (_, false) => insns.push(insn_lib::and32_reg(reg, reg)),
    }
}

/// Boundary immediate, one to four ALU32 operations, one ALU64 operation that
/// sees the zero-extended result, use.
fn alu32_roundtrip(rng: &mut SplitMix64) -> (insns: Vec<BpfInsn>)
    ensures
        (insns@, final(rng)@) == alu32_roundtrip_draw(old(rng)@),
{
    let reg: u8 = work_reg(rng);
    let mut insns: Vec<BpfInsn> = Vec::new();
    insns.push(insn_lib::mov_imm(reg, *rng.pick(&IMMEDIATES)));
    let n: u64 = 1 + rng.below(4);
    let ghost head = insns@;
    let ghost start = rng@;
    let mut k: u64 = 0;
    proof {
        assert(head + Seq::<BpfInsn>::empty() == head);
    }
    while k < n
        invariant
            k <= n,
            insns@ == head + alu32_chain(start, reg, k as nat).0,
            rng@ == alu32_chain(start, reg, k as nat).1,
        decreases n - k,
    {
        let ghost chain = alu32_chain(start, reg, k as nat).0;
        push_alu32(rng, &mut insns, reg);
        k = k + 1;
        proof {
            assert(alu32_chain(start, reg, k as nat).0 == chain.push(insns@.last()));
        }
    }
    if rng.below(2) == 0 {
        insns.push(insn_lib::add_imm(reg, 1));
    } else {
        insns.push(insn_lib::sub_imm(reg, 1));
    }
    insns.push(insn_lib::mov_reg(0, reg));
    insns.push(insn_lib::exit());
    proof {
        assert(insns@ =~= alu32_roundtrip_draw(old(rng)@).0);
    }
    insns
}

/// `call 7`, a signed and an unsigned compare with the same bound, use: the
/// taken paths exit, the fall-through narrows both maxima before the use.
fn dual_refine(rng: &mut SplitMix64) -> (insns: Vec<BpfInsn>)
    ensures
        (insns@, final(rng)@) == dual_refine_draw(old(rng)@),
{
    let c: u8 = work_reg(rng);
    let imm: i32 = *rng.pick(&IMMEDIATES);
    let insns: Vec<BpfInsn> = vec![
        insn_lib::call(7),
        insn_lib::mov_imm(c, imm),
        insn_lib::jsgt(0, c, 2),
        insn_lib::jgt(0, c, 1),
        insn_lib::mov_reg(0, 0),
        insn_lib::exit(),
    ];
    proof {
        assert(insns@ =~= dual_refine_draw(old(rng)@).0);
    }
    insns
}

/// One compare of r0 with `imm` or with `c`.
fn narrow_step(rng: &mut SplitMix64, c: u8, imm: i32, offset: i16) -> (insn: BpfInsn)
    ensures
        insn == narrow_insn(old(rng)@, c, imm, offset),
        final(rng)@ == prng::step(prng::step(old(rng)@)),
{
    let op: u64 = rng.below(8);
    let k_form: bool = rng.below(2) == 0;
    match (op, k_form) {
        (0, true) => insn_lib::jgt_imm(0, imm, offset),
        (0, false) => insn_lib::jgt(0, c, offset),
        (1, true) => insn_lib::jge_imm(0, imm, offset),
        (1, false) => insn_lib::jge(0, c, offset),
        (2, true) => insn_lib::jlt_imm(0, imm, offset),
        (2, false) => insn_lib::jlt(0, c, offset),
        (3, true) => insn_lib::jle_imm(0, imm, offset),
        (3, false) => insn_lib::jle(0, c, offset),
        (4, true) => insn_lib::jsgt_imm(0, imm, offset),
        (4, false) => insn_lib::jsgt(0, c, offset),
        (5, true) => insn_lib::jsge_imm(0, imm, offset),
        (5, false) => insn_lib::jsge(0, c, offset),
        (6, true) => insn_lib::jslt_imm(0, imm, offset),
        (6, false) => insn_lib::jslt(0, c, offset),
        (_, true) => insn_lib::jsle_imm(0, imm, offset),
        (_, false) => insn_lib::jsle(0, c, offset),
    }
}

/// `call 7`, two to six compares, use. Every compare narrows the range one
/// more step; its taken path skips the remaining compares, to the use.
fn narrowing_chain(rng: &mut SplitMix64) -> (insns: Vec<BpfInsn>)
    ensures
        (insns@, final(rng)@) == narrowing_draw(old(rng)@),
{
    let c: u8 = work_reg(rng);
    let imm: i32 = *rng.pick(&IMMEDIATES);
    let n: u64 = 2 + rng.below(5);
    let mut insns: Vec<BpfInsn> = vec![insn_lib::call(7), insn_lib::mov_imm(c, imm)];
    let ghost head = insns@;
    let ghost start = rng@;
    let mut j: u64 = 0;
    proof {
        assert(head + Seq::<BpfInsn>::empty() == head);
    }
    while j < n
        invariant
            j <= n <= 6,
            insns@ == head + narrow_chain(start, c, imm, n as int, j as nat).0,
            rng@ == narrow_chain(start, c, imm, n as int, j as nat).1,
        decreases n - j,
    {
        let ghost chain = narrow_chain(start, c, imm, n as int, j as nat).0;
        let remaining: u64 = n - j - 1;
        insns.push(narrow_step(rng, c, imm, remaining as i16));
        j = j + 1;
        proof {
            assert(narrow_chain(start, c, imm, n as int, j as nat).0 == chain.push(insns@.last()));
        }
    }
    insns.push(insn_lib::mov_reg(0, 0));
    insns.push(insn_lib::exit());
    proof {
        assert(head =~= seq![BpfInsn::Call { imm: 7 }, BpfInsn::MovImm { dst: c, imm }]);
        assert(insns@ =~= narrowing_draw(old(rng)@).0);
    }
    insns
}

/// Store a register to the stack, clobber it, reload it, use it.
fn spill_fill(rng: &mut SplitMix64) -> (insns: Vec<BpfInsn>)
    ensures
        (insns@, final(rng)@) == spill_fill_draw(old(rng)@),
{
    let reg: u8 = work_reg(rng);
    let offset: i16 = -8 * (1 + rng.below(4) as i16);
    let insns: Vec<BpfInsn> = vec![
        insn_lib::mov_imm(reg, *rng.pick(&IMMEDIATES)),
        insn_lib::st_stack(reg, offset),
        insn_lib::mov_imm(reg, 0),
        insn_lib::ld_stack(reg, offset),
        insn_lib::mov_reg(0, reg),
        insn_lib::exit(),
    ];
    proof {
        assert(insns@ =~= spill_fill_draw(old(rng)@).0);
    }
    insns
}

/// `call 7`, and an exit that a non-null result skips.
fn null_check(rng: &mut SplitMix64) -> (insns: Vec<BpfInsn>)
    ensures
        (insns@, final(rng)@) == null_check_draw(old(rng)@),
{
    let c: u8 = work_reg(rng);
    let insns: Vec<BpfInsn> = vec![
        insn_lib::call(7),
        insn_lib::mov_imm(c, 0),
        insn_lib::jne(0, c, 1),
        insn_lib::exit(),
        insn_lib::mov_imm(0, 1),
        insn_lib::exit(),
    ];
    proof {
        assert(insns@ =~= null_check_draw(old(rng)@).0);
    }
    insns
}

/// A counter of one to a hundred and an index in another register, which is
/// incremented until it reaches the counter.
fn bounded_loop(rng: &mut SplitMix64) -> (insns: Vec<BpfInsn>)
    ensures
        (insns@, final(rng)@) == bounded_loop_draw(old(rng)@),
{
    let count: i32 = 1 + rng.below(100) as i32;
    let cnt_reg: u8 = work_reg(rng);
    let ghost start = rng@;
    let ghost mut before: u64 = rng@;
    let mut idx_reg: u8 = work_reg(rng);
    while idx_reg == cnt_reg
        invariant
            idx_reg == work(before),
            rng@ == prng::step(before),
            other_work(before, cnt_reg) == other_work(start, cnt_reg),
        decreases draws_left(before, cnt_reg),
    {
        proof {
            lemma_draws_left(before, cnt_reg);
            before = rng@;
        }
        idx_reg = work_reg(rng);
    }
    let insns: Vec<BpfInsn> = vec![
        insn_lib::mov_imm(cnt_reg, count),
        insn_lib::mov_imm(idx_reg, 0),
        insn_lib::add_imm(idx_reg, 1),
        insn_lib::jlt(idx_reg, cnt_reg, -2),
        insn_lib::mov_reg(0, idx_reg),
        insn_lib::exit(),
    ];
    proof {
        assert(insns@ =~= bounded_loop_draw(old(rng)@).0);
    }
    insns
}

} // verus!
