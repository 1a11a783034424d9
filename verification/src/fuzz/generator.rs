//! Deterministic, weighted random generation of programs.
//!
//! Generation is framed: a program is `[r0 = 0, body.., exit]`, so that it
//! decodes, has no unreachable instruction and passes the structural checks by
//! construction. The body holds conditional branches only; an unconditional
//! jump appears at most as its last instruction, and leads to the exit.

use vstd::prelude::*;

use crate::cfg;
use crate::flow;
use crate::fuzz::idiom;
use crate::fuzz::idiom::{gen_idiom_body, Idiom, ALL_IDIOMS};
use crate::fuzz::insn_lib;
use crate::fuzz::insn_lib::{encode_program, ALU_REGS, IMMEDIATES, OFFSETS};
use crate::fuzz::prng;
use crate::fuzz::prng::SplitMix64;
use crate::graph;
use crate::insn;
use crate::insn::BpfInsn;
use crate::opcode;
use crate::slot::Slot;

verus! {

/// Generation parameters.
pub struct GenConfig {
    /// Minimum body length (instructions between the r0 init and the exit).
    pub min_len: usize,
    /// Maximum body length.
    pub max_len: usize,
}

impl Default for GenConfig {
    fn default() -> (cfg: Self)
        ensures
            cfg.min_len == 1,
            cfg.max_len == 100,
    {
        Self { min_len: 1, max_len: 100 }
    }
}

/// Weights of the families in percent: ALU64, ALU32, compare, stack, and
/// helper for the rest.
pub const WEIGHT_ALU64: u64 = 35;

pub const WEIGHT_ALU32: u64 = 15;

pub const WEIGHT_COMPARE: u64 = 30;

pub const WEIGHT_STACK: u64 = 15;

/// Probability (percent) of an unconditional jump as the last body
/// instruction.
pub const JMP_LAST_PERCENT: u64 = 20;

/// Probability (percent) of a backward edge when a branch is generated.
pub const BACKWARD_PERCENT: u64 = 30;

/// The kernel's operation codes of MOV, ADD, SUB, AND, OR, XOR, LSH, RSH and
/// ARSH.
pub open spec fn alu_code(op: int) -> int {
    seq![0xbint, 0x0, 0x1, 0x5, 0x4, 0xa, 0x6, 0x7, 0xc][op]
}

/// The kernel's operation codes of JEQ, JNE, JGT, JGE, JLT, JLE, JSGT, JSGE,
/// JSLT and JSLE.
pub open spec fn compare_code(op: int) -> int {
    seq![0x1int, 0x5, 0x2, 0x3, 0xa, 0xb, 0x6, 0x7, 0xc, 0xd][op]
}

/// The ALU instruction that is drawn at `s`, as its slot, and the state
/// behind it. There is no 32-bit MOV.
pub open spec fn alu_draw(s: u64, alu32: bool) -> (Slot, u64) {
    let s1 = prng::step(s);
    let s2 = prng::step(s1);
    let s3 = prng::step(s2);
    let op = if alu32 { 1 + prng::roll(s, 8) } else { prng::roll(s, 9) };
    let dst = ALU_REGS@[prng::roll(s1, 10)];
    let immediate = prng::roll(s2, 2) == 0;
    (
        Slot {
            op: (16 * alu_code(op) + (if immediate { 0int } else { 8 }) + (if alu32 {
                4int
            } else {
                7
            })) as u8,
            dst,
            src: if immediate { 0 } else { ALU_REGS@[prng::roll(s3, 10)] },
            off: 0,
            imm: if immediate { IMMEDIATES@[prng::roll(s3, 10)] } else { 0 },
        },
        prng::step(s3),
    )
}

/// Whether a branch at body index `pc` that is drawn at `s` goes backward.
pub open spec fn goes_back(s: u64, pc: int) -> bool {
    pc > 0 && prng::roll(s, 100) < BACKWARD_PERCENT
}

/// The target of a branch at body index `pc` that is drawn at `s`: for a
/// backward edge before `pc`, else behind it, at most at the exit.
pub open spec fn branch_target(s: u64, pc: int, body_len: int) -> int {
    if goes_back(s, pc) {
        prng::roll(prng::step(s), pc)
    } else if pc > 0 {
        pc + 1 + prng::roll(prng::step(s), body_len - pc)
    } else {
        pc + 1 + prng::roll(s, body_len - pc)
    }
}

/// The state behind the draw of a branch target.
pub open spec fn branch_state(s: u64, pc: int) -> u64 {
    if pc > 0 { prng::step(prng::step(s)) } else { prng::step(s) }
}

/// The compare that is drawn at `s`, and the state behind it. Both operands
/// are drawn, whichever form is taken.
pub open spec fn compare_draw(s: u64, pc: int, body_len: int) -> (Slot, u64) {
    let s1 = prng::step(s);
    let s2 = prng::step(s1);
    let s3 = prng::step(s2);
    let s4 = branch_state(s3, pc);
    let s5 = prng::step(s4);
    let immediate = prng::roll(s2, 2) == 0;
    (
        Slot {
            op: (16 * compare_code(prng::roll(s, 10)) + (if immediate { 0int } else { 8 }) + 5) as u8,
            dst: ALU_REGS@[prng::roll(s1, 10)],
            src: if immediate { 0 } else { ALU_REGS@[prng::roll(s4, 10)] },
            off: (branch_target(s3, pc, body_len) - pc - 1) as i16,
            imm: if immediate { IMMEDIATES@[prng::roll(s5, 10)] } else { 0 },
        },
        prng::step(s5),
    )
}

/// The stack access that is drawn at `s`, and the state behind it.
pub open spec fn stack_draw(s: u64) -> (Slot, u64) {
    let s1 = prng::step(s);
    let s2 = prng::step(s1);
    let reg = ALU_REGS@[prng::roll(s, 10)];
    let off = OFFSETS@[prng::roll(s1, 23)];
    let load = prng::roll(s2, 2) == 0;
    (
        if load {
            Slot { op: opcode::LD_STACK, dst: reg, src: 10, off, imm: 0 }
        } else {
            Slot { op: opcode::ST_STACK, dst: 10, src: reg, off, imm: 0 }
        },
        prng::step(s2),
    )
}

/// The body instruction that is drawn at `s`, and the state behind it. The
/// only helper is `get_prandom_u32` (id 7), which takes no argument.
pub open spec fn body_draw(s: u64, pc: int, body_len: int) -> (Slot, u64) {
    let family = prng::roll(s, 100);
    let s1 = prng::step(s);
    if family < WEIGHT_ALU64 {
        alu_draw(s1, false)
    } else if family < WEIGHT_ALU64 + WEIGHT_ALU32 {
        alu_draw(s1, true)
    } else if family < WEIGHT_ALU64 + WEIGHT_ALU32 + WEIGHT_COMPARE {
        compare_draw(s1, pc, body_len)
    } else if family < WEIGHT_ALU64 + WEIGHT_ALU32 + WEIGHT_COMPARE + WEIGHT_STACK {
        stack_draw(s1)
    } else {
        (Slot { op: opcode::CALL, dst: 0, src: 0, off: 0, imm: 7 }, s1)
    }
}

/// A random ALU instruction: operation, form and operands from the pools.
fn gen_alu(rng: &mut SplitMix64, alu32: bool) -> (i: BpfInsn)
    ensures
        i.is_single(),
        (i.slot(), final(rng)@) == alu_draw(old(rng)@, alu32),
{
    reveal(BpfInsn::slot);
    let op: u64 = if alu32 { 1 + rng.below(8) } else { rng.below(9) };
    let dst: u8 = *rng.pick(&ALU_REGS);
    let k_form: bool = rng.below(2) == 0;
    match (alu32, k_form, op) {
        (false, true, 0) => insn_lib::mov_imm(dst, *rng.pick(&IMMEDIATES)),
        (false, false, 0) => insn_lib::mov_reg(dst, *rng.pick(&ALU_REGS)),
        (false, true, 1) => insn_lib::add_imm(dst, *rng.pick(&IMMEDIATES)),
        (false, false, 1) => insn_lib::add_reg(dst, *rng.pick(&ALU_REGS)),
        (false, true, 2) => insn_lib::sub_imm(dst, *rng.pick(&IMMEDIATES)),
        (false, false, 2) => insn_lib::sub_reg(dst, *rng.pick(&ALU_REGS)),
        (false, true, 3) => insn_lib::and_imm(dst, *rng.pick(&IMMEDIATES)),
        (false, false, 3) => insn_lib::and_reg(dst, *rng.pick(&ALU_REGS)),
        (false, true, 4) => insn_lib::or_imm(dst, *rng.pick(&IMMEDIATES)),
        (false, false, 4) => insn_lib::or_reg(dst, *rng.pick(&ALU_REGS)),
        (false, true, 5) => insn_lib::xor_imm(dst, *rng.pick(&IMMEDIATES)),
        (false, false, 5) => insn_lib::xor_reg(dst, *rng.pick(&ALU_REGS)),
        (false, true, 6) => insn_lib::lsh_imm(dst, *rng.pick(&IMMEDIATES)),
        (false, false, 6) => insn_lib::lsh_reg(dst, *rng.pick(&ALU_REGS)),
        (false, true, 7) => insn_lib::rsh_imm(dst, *rng.pick(&IMMEDIATES)),
        (false, false, 7) => insn_lib::rsh_reg(dst, *rng.pick(&ALU_REGS)),
        (false, true, 8) => insn_lib::arsh_imm(dst, *rng.pick(&IMMEDIATES)),
        (false, false, 8) => insn_lib::arsh_reg(dst, *rng.pick(&ALU_REGS)),
        (true, true, 1) => insn_lib::add32_imm(dst, *rng.pick(&IMMEDIATES)),
        (true, false, 1) => insn_lib::add32_reg(dst, *rng.pick(&ALU_REGS)),
        (true, true, 2) => insn_lib::sub32_imm(dst, *rng.pick(&IMMEDIATES)),
        (true, false, 2) => insn_lib::sub32_reg(dst, *rng.pick(&ALU_REGS)),
        (true, true, 3) => insn_lib::and32_imm(dst, *rng.pick(&IMMEDIATES)),
        (true, false, 3) => insn_lib::and32_reg(dst, *rng.pick(&ALU_REGS)),
        (true, true, 4) => insn_lib::or32_imm(dst, *rng.pick(&IMMEDIATES)),
        (true, false, 4) => insn_lib::or32_reg(dst, *rng.pick(&ALU_REGS)),
        (true, true, 5) => insn_lib::xor32_imm(dst, *rng.pick(&IMMEDIATES)),
        (true, false, 5) => insn_lib::xor32_reg(dst, *rng.pick(&ALU_REGS)),
        (true, true, 6) => insn_lib::lsh32_imm(dst, *rng.pick(&IMMEDIATES)),
        (true, false, 6) => insn_lib::lsh32_reg(dst, *rng.pick(&ALU_REGS)),
        (true, true, 7) => insn_lib::rsh32_imm(dst, *rng.pick(&IMMEDIATES)),
        (true, false, 7) => insn_lib::rsh32_reg(dst, *rng.pick(&ALU_REGS)),
        (true, true, _) => insn_lib::arsh32_imm(dst, *rng.pick(&IMMEDIATES)),
        (_, _, _) => insn_lib::arsh32_reg(dst, *rng.pick(&ALU_REGS)),
    }
}

/// A branch offset for an instruction at body index `pc`. Forward edges point
/// into the remaining body or at the exit, backward edges at an earlier
/// instruction, which makes a loop.
fn gen_branch_offset(rng: &mut SplitMix64, pc: usize, body_len: usize) -> (offset: i16)
    requires
        pc < body_len <= isize::MAX,
    ensures
        offset == (branch_target(old(rng)@, pc as int, body_len as int) - pc - 1) as i16,
        final(rng)@ == branch_state(old(rng)@, pc as int),
{
    if pc > 0 && rng.below(100) < BACKWARD_PERCENT {
        let target: u64 = rng.below(pc as u64);
        (target as i64 - pc as i64 - 1) as i16
    } else {
        let ahead: u64 = rng.below((body_len - pc) as u64);
        let target: u64 = pc as u64 + 1 + ahead;
        (target as i64 - pc as i64 - 1) as i16
    }
}

/// A random conditional compare, with a branch offset that points at a valid
/// instruction.
fn gen_compare(rng: &mut SplitMix64, pc: usize, body_len: usize) -> (i: BpfInsn)
    requires
        pc < body_len <= isize::MAX,
    ensures
        i.is_single(),
        (i.slot(), final(rng)@) == compare_draw(old(rng)@, pc as int, body_len as int),
{
    reveal(BpfInsn::slot);
    let op: u64 = rng.below(10);
    let dst: u8 = *rng.pick(&ALU_REGS);
    let k_form: bool = rng.below(2) == 0;
    let offset: i16 = gen_branch_offset(rng, pc, body_len);
    let src: u8 = *rng.pick(&ALU_REGS);
    let imm: i32 = *rng.pick(&IMMEDIATES);
    match (k_form, op) {
        (false, 0) => insn_lib::jeq(dst, src, offset),
        (true, 0) => insn_lib::jeq_imm(dst, imm, offset),
        (false, 1) => insn_lib::jne(dst, src, offset),
        (true, 1) => insn_lib::jne_imm(dst, imm, offset),
        (false, 2) => insn_lib::jgt(dst, src, offset),
        (true, 2) => insn_lib::jgt_imm(dst, imm, offset),
        (false, 3) => insn_lib::jge(dst, src, offset),
        (true, 3) => insn_lib::jge_imm(dst, imm, offset),
        (false, 4) => insn_lib::jlt(dst, src, offset),
        (true, 4) => insn_lib::jlt_imm(dst, imm, offset),
        (false, 5) => insn_lib::jle(dst, src, offset),
        (true, 5) => insn_lib::jle_imm(dst, imm, offset),
        (false, 6) => insn_lib::jsgt(dst, src, offset),
        (true, 6) => insn_lib::jsgt_imm(dst, imm, offset),
        (false, 7) => insn_lib::jsge(dst, src, offset),
        (true, 7) => insn_lib::jsge_imm(dst, imm, offset),
        (false, 8) => insn_lib::jslt(dst, src, offset),
        (true, 8) => insn_lib::jslt_imm(dst, imm, offset),
        (false, _) => insn_lib::jsle(dst, src, offset),
        (true, _) => insn_lib::jsle_imm(dst, imm, offset),
    }
}

/// A load or store of a stack slot. Reading before writing is for the
/// verifier to reject.
fn gen_stack(rng: &mut SplitMix64) -> (i: BpfInsn)
    ensures
        i.is_single(),
        (i.slot(), final(rng)@) == stack_draw(old(rng)@),
{
    reveal(BpfInsn::slot);
    let reg: u8 = *rng.pick(&ALU_REGS);
    let offset: i16 = *rng.pick(&OFFSETS);
    if rng.below(2) == 0 {
        insn_lib::ld_stack(reg, offset)
    } else {
        insn_lib::st_stack(reg, offset)
    }
}

/// One body instruction, never the unconditional jump. `pc` is the body index
/// and `body_len` the body length; the exit sits at index `body_len`.
pub fn gen_body_insn(rng: &mut SplitMix64, pc: usize, body_len: usize) -> (i: BpfInsn)
    requires
        pc < body_len <= isize::MAX,
    ensures
        i.is_single(),
        (i.slot(), final(rng)@) == body_draw(old(rng)@, pc as int, body_len as int),
{
    let family: u64 = rng.below(100);
    if family < WEIGHT_ALU64 {
        gen_alu(rng, false)
    } else if family < WEIGHT_ALU64 + WEIGHT_ALU32 {
        gen_alu(rng, true)
    } else if family < WEIGHT_ALU64 + WEIGHT_ALU32 + WEIGHT_COMPARE {
        gen_compare(rng, pc, body_len)
    } else if family < WEIGHT_ALU64 + WEIGHT_ALU32 + WEIGHT_COMPARE + WEIGHT_STACK {
        gen_stack(rng)
    } else {
        reveal(BpfInsn::slot);
        insn_lib::call(7)
    }
}

// ── Programs ────────────────────────────────────────────────────────────────

/// The slots of the first `k` instructions of a body of `body_len` that is
/// drawn from `s` on, and the state behind them. The last instruction of the
/// body may become a jump to the exit.
pub open spec fn body_slots(s: u64, body_len: int, k: nat) -> (Seq<Slot>, u64)
    decreases k,
{
    if k == 0 {
        (seq![], s)
    } else {
        let pc = k - 1;
        let (head, t) = body_slots(s, body_len, pc as nat);
        let (slot, u) = if pc < body_len - 1 {
            body_draw(t, pc, body_len)
        } else if prng::roll(t, 100) < JMP_LAST_PERCENT {
            (Slot { op: opcode::JMP, dst: 0, src: 0, off: 0, imm: 0 }, prng::step(t))
        } else {
            body_draw(prng::step(t), pc, body_len)
        };
        (head.push(slot), u)
    }
}

/// The length of the body that is drawn at `s`.
pub open spec fn body_length(s: u64, min_len: int, max_len: int) -> int {
    min_len + prng::roll(s, if max_len > min_len { max_len - min_len + 1 } else { 1 })
}

/// The slots of the program that is drawn at `s`, and the state behind it.
pub open spec fn program_draw(s: u64, min_len: int, max_len: int) -> (Seq<Slot>, u64) {
    let n = body_length(s, min_len, max_len);
    let (body, t) = body_slots(prng::step(s), n, n as nat);
    (
        seq![Slot { op: opcode::MOV_IMM, dst: 0, src: 0, off: 0, imm: 0 }] + body + seq![
            Slot { op: opcode::EXIT, dst: 0, src: 0, off: 0, imm: 0 },
        ],
        t,
    )
}

/// `insns` are the single-slot instructions with these slots.
pub open spec fn has_slots(insns: Seq<BpfInsn>, slots: Seq<Slot>) -> bool {
    &&& insns.len() == slots.len()
    &&& forall|i: int|
        0 <= i < insns.len() ==> (#[trigger] insns[i]).is_single() && insns[i].slot() == slots[i]
}

/// The longest body whose branch offsets all fit their 16 bits.
pub const MAX_EXACT_BODY: usize = 0x8000;

/// What a slot that was drawn for body index `pc` is like: over R0 to R10,
/// with a valid form, and with a branch that stays in the program.
spec fn body_slot_ok(slot: Slot, pc: int, body_len: int) -> bool {
    &&& slot.dst <= 10
    &&& slot.src <= 10
    &&& slot.op != opcode::EXIT
    &&& slot.op == opcode::CALL ==> slot.src == 0
    &&& slot.op == opcode::JMP ==> pc == body_len - 1 && slot.off == 0
    &&& insn::is_compare_op(slot.op) ==> 0 <= pc + 1 + slot.off <= body_len
}

proof fn lemma_pools()
    ensures
        forall|k: int| 0 <= k < 10 ==> #[trigger] ALU_REGS@[k] <= 9,
{
    assert forall|k: int| 0 <= k < 10 implies #[trigger] ALU_REGS@[k] <= 9 by {
        if k == 0 {} else if k == 1 {} else if k == 2 {} else if k == 3 {} else if k == 4 {} else if k
            == 5 {} else if k == 6 {} else if k == 7 {} else if k == 8 {} else {}
    }
}

proof fn lemma_alu_draw_ok(s: u64, alu32: bool, pc: int, body_len: int)
    ensures
        body_slot_ok(alu_draw(s, alu32).0, pc, body_len),
{
    lemma_pools();
    let op = if alu32 { 1 + prng::roll(s, 8) } else { prng::roll(s, 9) };
    assert(0 <= op <= 8);
    assert(alu_code(op) <= 0xc);
}

proof fn lemma_compare_draw_ok(s: u64, pc: int, body_len: int)
    requires
        0 <= pc < body_len <= MAX_EXACT_BODY,
    ensures
        body_slot_ok(compare_draw(s, pc, body_len).0, pc, body_len),
{
    lemma_pools();
    let s3 = prng::step(prng::step(prng::step(s)));
    let t = branch_target(s3, pc, body_len);
    assert(0 <= t <= body_len) by {
        if goes_back(s3, pc) {
            assert(0 <= prng::roll(prng::step(s3), pc) < pc);
        } else if pc > 0 {
            assert(0 <= prng::roll(prng::step(s3), body_len - pc) < body_len - pc);
        } else {
            assert(0 <= prng::roll(s3, body_len - pc) < body_len - pc);
        }
    }
    let op = prng::roll(s, 10);
    assert(0 <= op <= 9);
    assert(compare_code(op) <= 0xd && compare_code(op) != 0 && compare_code(op) != 8 && compare_code(
        op,
    ) != 9);
}

proof fn lemma_body_draw_ok(s: u64, pc: int, body_len: int)
    requires
        0 <= pc < body_len <= MAX_EXACT_BODY,
    ensures
        body_slot_ok(body_draw(s, pc, body_len).0, pc, body_len),
{
    lemma_pools();
    lemma_alu_draw_ok(prng::step(s), false, pc, body_len);
    lemma_alu_draw_ok(prng::step(s), true, pc, body_len);
    lemma_compare_draw_ok(prng::step(s), pc, body_len);
    assert(body_slot_ok(stack_draw(prng::step(s)).0, pc, body_len));
}

proof fn lemma_body_slots_ok(s: u64, body_len: int, k: nat)
    requires
        k <= body_len <= MAX_EXACT_BODY,
    ensures
        body_slots(s, body_len, k).0.len() == k,
        forall|i: int|
            0 <= i < k ==> body_slot_ok(#[trigger] body_slots(s, body_len, k).0[i], i, body_len),
    decreases k,
{
    if k > 0 {
        let pc = k - 1;
        lemma_body_slots_ok(s, body_len, pc as nat);
        let (head, t) = body_slots(s, body_len, pc as nat);
        lemma_body_draw_ok(t, pc, body_len);
        lemma_body_draw_ok(prng::step(t), pc, body_len);
        assert forall|i: int| 0 <= i < k implies body_slot_ok(
            #[trigger] body_slots(s, body_len, k).0[i],
            i,
            body_len,
        ) by {
            if i < pc {
                assert(body_slots(s, body_len, k).0[i] == head[i]);
            }
        }
    }
}

/// The slot of a single-slot instruction tells its kind.
proof fn lemma_kind_by_op(i: BpfInsn)
    requires
        i.is_single(),
    ensures
        (i is Exit) == (i.slot().op == opcode::EXIT),
        (i is Jmp) == (i.slot().op == opcode::JMP),
        i is CallSub ==> i.slot().op == opcode::CALL && i.slot().src == 1,
{
    reveal(BpfInsn::slot);
}

/// A generated program is well-formed, so that it survives encoding and
/// decoding, and it passes the structural checks: every jump has a valid
/// target, it ends with an exit, and every instruction is reachable. (The
/// offsets of a body beyond [`MAX_EXACT_BODY`] need not fit their field.)
pub proof fn generated_program_is_valid(insns: Seq<BpfInsn>, s: u64, min_len: int, max_len: int)
    requires
        0 <= min_len <= MAX_EXACT_BODY,
        0 <= max_len <= MAX_EXACT_BODY,
        has_slots(insns, program_draw(s, min_len, max_len).0),
    ensures
        insn::well_formed(insns),
        cfg::structurally_valid(insns),
{
    let n = body_length(s, min_len, max_len);
    let slots = program_draw(s, min_len, max_len).0;
    let span = if max_len > min_len { max_len - min_len + 1 } else { 1 };
    assert(0 <= prng::roll(s, span) < span);
    lemma_body_slots_ok(prng::step(s), n, n as nat);
    let body = body_slots(prng::step(s), n, n as nat).0;
    assert(slots.len() == n + 2);
    assert forall|i: int| 0 <= i < n implies body_slot_ok(#[trigger] slots[i + 1], i, n) by {
        assert(slots[i + 1] == body[i]);
    }
    assert forall|pc: int| 0 <= pc < insns.len() implies #[trigger] insn::well_formed_at(
        insns,
        pc,
    ) by {
        if 1 <= pc <= n {
            assert(body_slot_ok(slots[pc - 1 + 1], pc - 1, n));
        }
    }
    assert forall|pc: int| 0 <= pc < insns.len() implies #[trigger] cfg::targets_valid_at(
        insns,
        pc,
    ) by {
        lemma_kind_by_op(insns[pc]);
        if 1 <= pc <= n {
            assert(body_slot_ok(slots[pc - 1 + 1], pc - 1, n));
        }
        if insns[pc].jump_offset() is Some {
            let t = flow::target(pc, insns[pc].jump_offset()->0 as int);
            assert(insns[t].is_single());
        }
    }
    assert forall|pc: int| 0 <= pc < insns.len() - 1 implies !(#[trigger] insns[pc] is Exit) && (
    insns[pc] is Jmp ==> insns[pc].slot().off == 0) by {
        lemma_kind_by_op(insns[pc]);
        if 1 <= pc <= n {
            assert(body_slot_ok(slots[pc - 1 + 1], pc - 1, n));
        }
    }
    lemma_kind_by_op(insns.last());
    assert forall|pc: int| 0 <= pc < insns.len() implies #[trigger] graph::reaches(
        cfg::code_edges(insns),
        0,
        pc,
    ) by {
        lemma_straight_reach(insns, pc);
    }
}

/// Where every instruction but the last leads on to the next, all are
/// reachable.
proof fn lemma_straight_reach(insns: Seq<BpfInsn>, pc: int)
    requires
        0 <= pc < insns.len(),
        forall|i: int|
            0 <= i < insns.len() - 1 ==> !(#[trigger] insns[i] is Exit) && (insns[i] is Jmp
                ==> insns[i].slot().off == 0),
    ensures
        graph::reaches(cfg::code_edges(insns), 0, pc),
    decreases pc,
{
    let e = cfg::code_edges(insns);
    if pc == 0 {
        graph::reaches_refl(e, 0);
    } else {
        lemma_straight_reach(insns, pc - 1);
        let list = flow::successor_list(insns, pc - 1);
        assert(!(insns[pc - 1] is Exit));
        assert(list[0] == pc);
        assert(list.contains(pc));
        graph::reaches_step(e, 0, pc - 1, pc);
    }
}

/// A program out of an idiom body: r0 is set first, and an exit is appended
/// when the body does not end in one.
pub open spec fn framed(body: Seq<BpfInsn>) -> Seq<BpfInsn> {
    let head = seq![BpfInsn::MovImm { dst: 0, imm: 0 }] + body;
    if body.len() > 0 && body.last() is Exit { head } else { head.push(BpfInsn::Exit) }
}

/// The program that is drawn at `s`, and the state behind it: one draw in a hundred
/// for each `percent` is an idiom.
pub open spec fn is_mixed(
    s: u64,
    min: int,
    max: int,
    percent: int,
    insns: Seq<BpfInsn>,
    behind: u64,
) -> bool {
    let t = prng::step(s);
    if prng::roll(s, 100) < percent {
        let (body, u) = idiom::idiom_draw(prng::step(t), ALL_IDIOMS@[prng::roll(t, 7)]);
        insns == framed(body) && behind == u
    } else {
        has_slots(insns, program_draw(t, min, max).0) && behind == program_draw(t, min, max).1
    }
}

/// The weighted random program generator.
pub struct Generator {
    rng: SplitMix64,
}

impl View for Generator {
    type V = u64;

    closed spec fn view(&self) -> u64 {
        self.rng@
    }
}

impl Generator {
    /// A new generator with the given seed.
    pub fn new(seed: u64) -> (g: Self)
        ensures
            g@ == seed,
    {
        Self { rng: SplitMix64::new(seed) }
    }

    /// Generate a framed program: `[r0 = 0, body.., exit]`.
    pub fn gen_program(&mut self, cfg: &GenConfig) -> (insns: Vec<BpfInsn>)
        requires
            cfg.min_len <= isize::MAX - 2,
            cfg.max_len <= isize::MAX - 2,
        ensures
            has_slots(
                insns@,
                program_draw(old(self)@, cfg.min_len as int, cfg.max_len as int).0,
            ),
            final(self)@ == program_draw(old(self)@, cfg.min_len as int, cfg.max_len as int).1,
            insns@[0] == (BpfInsn::MovImm { dst: 0, imm: 0 }),
            insns@.last() == BpfInsn::Exit,
            cfg.min_len <= MAX_EXACT_BODY && cfg.max_len <= MAX_EXACT_BODY
                ==> cfg::structurally_valid(insns@) && insn::well_formed(insns@),
    {
        let ghost s = self.rng@;
        let span: usize = cfg.max_len.saturating_sub(cfg.min_len) + 1;
        let body_len: usize = cfg.min_len + self.rng.below(span as u64) as usize;
        let ghost n = body_len as int;
        let ghost start = prng::step(s);
        assert(n == body_length(s, cfg.min_len as int, cfg.max_len as int));

        let mut insns: Vec<BpfInsn> = Vec::new();
        insns.push(insn_lib::mov_imm(0, 0));
        let ghost first = Slot { op: opcode::MOV_IMM, dst: 0, src: 0, off: 0, imm: 0 };
        proof {
            reveal(BpfInsn::slot);
        }
        let mut pc: usize = 0;
        while pc < body_len
            invariant
                pc <= body_len <= isize::MAX - 2,
                n == body_len,
                has_slots(insns@, seq![first] + body_slots(start, n, pc as nat).0),
                insns@[0] == (BpfInsn::MovImm { dst: 0, imm: 0 }),
                insns@.len() == pc + 1,
                self.rng@ == body_slots(start, n, pc as nat).1,
            decreases body_len - pc,
        {
            let ghost before = insns@;
            let ghost slots = body_slots(start, n, pc as nat).0;
            let is_last: bool = pc == body_len - 1;
            if is_last && self.rng.below(100) < JMP_LAST_PERCENT {
                // a jump to the exit: a backward jump would leave the exit unreachable
                insns.push(insn_lib::jmp(0));
                proof {
                    reveal(BpfInsn::slot);
                }
            } else {
                insns.push(gen_body_insn(&mut self.rng, pc, body_len));
            }
            pc = pc + 1;
            proof {
                let all = seq![first] + body_slots(start, n, pc as nat).0;
                assert(body_slots(start, n, pc as nat).0 == slots.push(insns@.last().slot()));
                assert forall|i: int| 0 <= i < insns@.len() implies (
                #[trigger] insns@[i]).is_single() && insns@[i].slot() == all[i] by {
                    if i < before.len() {
                        assert(insns@[i] == before[i]);
                        assert(all[i] == (seq![first] + slots)[i]);
                    }
                }
            }
        }
        let ghost before = insns@;
        insns.push(insn_lib::exit());
        proof {
            reveal(BpfInsn::slot);
            let all = program_draw(s, cfg.min_len as int, cfg.max_len as int).0;
            assert forall|i: int| 0 <= i < insns@.len() implies (#[trigger] insns@[i]).is_single()
                && insns@[i].slot() == all[i] by {
                if i < before.len() {
                    assert(insns@[i] == before[i]);
                }
            }
            if cfg.min_len <= MAX_EXACT_BODY && cfg.max_len <= MAX_EXACT_BODY {
                generated_program_is_valid(insns@, s, cfg.min_len as int, cfg.max_len as int);
            }
        }
        insns
    }

    /// Generate a program and encode it as raw bytes.
    pub fn gen_program_bytes(&mut self, cfg: &GenConfig) -> (bytes: Vec<u8>)
        requires
            cfg.min_len <= isize::MAX - 2,
            cfg.max_len <= isize::MAX - 2,
        ensures
            final(self)@ == program_draw(old(self)@, cfg.min_len as int, cfg.max_len as int).1,
            exists|insns: Seq<BpfInsn>|
                #[trigger] has_slots(
                    insns,
                    program_draw(old(self)@, cfg.min_len as int, cfg.max_len as int).0,
                ) && bytes@ == insn::program_bytes(insns),
    {
        let insns: Vec<BpfInsn> = self.gen_program(cfg);
        encode_program(&insns)
    }

    /// Generate a program out of an idiom template.
    pub fn gen_idiom_program(&mut self, idiom: Idiom) -> (insns: Vec<BpfInsn>)
        ensures
            insns@ == framed(idiom::idiom_draw(old(self)@, idiom).0),
            final(self)@ == idiom::idiom_draw(old(self)@, idiom).1,
    {
        let body: Vec<BpfInsn> = gen_idiom_body(idiom, &mut self.rng);
        let mut insns: Vec<BpfInsn> = Vec::new();
        insns.push(insn_lib::mov_imm(0, 0));
        let mut i: usize = 0;
        while i < body.len()
            invariant
                i <= body@.len(),
                insns@ == seq![BpfInsn::MovImm { dst: 0, imm: 0 }] + body@.take(i as int),
            decreases body@.len() - i,
        {
            insns.push(body[i]);
            proof {
                assert(body@.take(i + 1) == body@.take(i as int).push(body@[i as int]));
            }
            i = i + 1;
        }
        proof {
            assert(body@.take(i as int) == body@);
        }
        let ended: bool = body.len() > 0 && matches!(body[body.len() - 1], BpfInsn::Exit);
        if !ended {
            insns.push(insn_lib::exit());
        }
        insns
    }

    /// Generate an idiom program with a `percent` chance, a weighted random
    /// program otherwise.
    pub fn gen_mixed_program(&mut self, cfg: &GenConfig, percent: u64) -> (insns: Vec<BpfInsn>)
        requires
            cfg.min_len <= isize::MAX - 2,
            cfg.max_len <= isize::MAX - 2,
        ensures
            is_mixed(
                old(self)@,
                cfg.min_len as int,
                cfg.max_len as int,
                percent as int,
                insns@,
                final(self)@,
            ),
    {
        if self.rng.below(100) < percent {
            let idiom: Idiom = *self.rng.pick(&ALL_IDIOMS);
            self.gen_idiom_program(idiom)
        } else {
            self.gen_program(cfg)
        }
    }
}

} // verus!
