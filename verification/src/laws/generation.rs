//! Generation and mutation: which program the numbers of the generator give.

use vstd::prelude::*;

use crate::fuzz::generator;
use crate::fuzz::insn_lib::{ALU_REGS, IMMEDIATES, OFFSETS};
use crate::fuzz::mutator;
use crate::fuzz::prng;
use crate::insn;
use crate::insn::{BpfInsn, MemSize};
use crate::laws::names;
use crate::slot::Slot;

verus! {

// ── Numbers ─────────────────────────────────────────────────────────────────

/// The state of the generator behind `k` numbers.
pub open spec fn ahead(s: u64, k: nat) -> u64
    decreases k,
{
    if k == 0 {
        s
    } else {
        ahead(prng::step(s), (k - 1) as nat)
    }
}

/// The number that comes behind `k` others.
pub open spec fn number(s: u64, k: nat) -> int {
    prng::mix(ahead(s, k + 1)) as int
}

/// A state is one increment behind the other.
pub proof fn states_are_equidistant(s: u64)
    ensures
        prng::step(s) == (s + 0x9E37_79B9_7F4A_7C15) % 0x1_0000_0000_0000_0000,
{
}

// ── Body instructions ───────────────────────────────────────────────────────

/// The immediates that occur in generated programs.
pub open spec fn immediate(k: int) -> i32 {
    (seq![0int, 1, 4, 8, 16, -1, -4, -16, -0x8000_0000, 0x7fff_ffff][k]) as i32
}

/// The offsets that occur in generated programs.
pub open spec fn offset(k: int) -> i16 {
    (seq![
        0int,
        1,
        2,
        4,
        6,
        8,
        12,
        16,
        24,
        32,
        48,
        64,
        80,
        128,
        256,
        -1,
        -2,
        -4,
        -8,
        -12,
        -16,
        -32,
        -64,
    ][k]) as i16
}

/// An operation of 64 bits by its number, with an immediate or a register.
pub open spec fn operation(op: int, dst: u8, imm: Option<i32>, src: u8) -> BpfInsn {
    match imm {
        Some(imm) => if op == 0 {
            BpfInsn::MovImm { dst, imm }
        } else if op == 1 {
            BpfInsn::AddImm { dst, imm }
        } else if op == 2 {
            BpfInsn::SubImm { dst, imm }
        } else if op == 3 {
            BpfInsn::AndImm { dst, imm }
        } else if op == 4 {
            BpfInsn::OrImm { dst, imm }
        } else if op == 5 {
            BpfInsn::XorImm { dst, imm }
        } else if op == 6 {
            BpfInsn::LshImm { dst, imm }
        } else if op == 7 {
            BpfInsn::RshImm { dst, imm }
        } else {
            BpfInsn::ArshImm { dst, imm }
        },
        None => if op == 0 {
            BpfInsn::MovReg { dst, src }
        } else if op == 1 {
            BpfInsn::AddReg { dst, src }
        } else if op == 2 {
            BpfInsn::SubReg { dst, src }
        } else if op == 3 {
            BpfInsn::AndReg { dst, src }
        } else if op == 4 {
            BpfInsn::OrReg { dst, src }
        } else if op == 5 {
            BpfInsn::XorReg { dst, src }
        } else if op == 6 {
            BpfInsn::LshReg { dst, src }
        } else if op == 7 {
            BpfInsn::RshReg { dst, src }
        } else {
            BpfInsn::ArshReg { dst, src }
        },
    }
}

/// An operation of 32 bits by its number; there is no 32-bit move.
pub open spec fn operation32(op: int, dst: u8, imm: Option<i32>, src: u8) -> BpfInsn {
    match imm {
        Some(imm) => if op == 0 {
            BpfInsn::Add32Imm { dst, imm }
        } else if op == 1 {
            BpfInsn::Sub32Imm { dst, imm }
        } else if op == 2 {
            BpfInsn::And32Imm { dst, imm }
        } else if op == 3 {
            BpfInsn::Or32Imm { dst, imm }
        } else if op == 4 {
            BpfInsn::Xor32Imm { dst, imm }
        } else if op == 5 {
            BpfInsn::Lsh32Imm { dst, imm }
        } else if op == 6 {
            BpfInsn::Rsh32Imm { dst, imm }
        } else {
            BpfInsn::Arsh32Imm { dst, imm }
        },
        None => if op == 0 {
            BpfInsn::Add32Reg { dst, src }
        } else if op == 1 {
            BpfInsn::Sub32Reg { dst, src }
        } else if op == 2 {
            BpfInsn::And32Reg { dst, src }
        } else if op == 3 {
            BpfInsn::Or32Reg { dst, src }
        } else if op == 4 {
            BpfInsn::Xor32Reg { dst, src }
        } else if op == 5 {
            BpfInsn::Lsh32Reg { dst, src }
        } else if op == 6 {
            BpfInsn::Rsh32Reg { dst, src }
        } else {
            BpfInsn::Arsh32Reg { dst, src }
        },
    }
}

/// A compare by its number.
pub open spec fn compare(op: int, dst: u8, imm: Option<i32>, src: u8, offset: i16) -> BpfInsn {
    match imm {
        Some(imm) => if op == 0 {
            BpfInsn::JeqImm { dst, imm, offset }
        } else if op == 1 {
            BpfInsn::JneImm { dst, imm, offset }
        } else if op == 2 {
            BpfInsn::JgtImm { dst, imm, offset }
        } else if op == 3 {
            BpfInsn::JgeImm { dst, imm, offset }
        } else if op == 4 {
            BpfInsn::JltImm { dst, imm, offset }
        } else if op == 5 {
            BpfInsn::JleImm { dst, imm, offset }
        } else if op == 6 {
            BpfInsn::JsgtImm { dst, imm, offset }
        } else if op == 7 {
            BpfInsn::JsgeImm { dst, imm, offset }
        } else if op == 8 {
            BpfInsn::JsltImm { dst, imm, offset }
        } else {
            BpfInsn::JsleImm { dst, imm, offset }
        },
        None => if op == 0 {
            BpfInsn::Jeq { dst, src, offset }
        } else if op == 1 {
            BpfInsn::Jne { dst, src, offset }
        } else if op == 2 {
            BpfInsn::Jgt { dst, src, offset }
        } else if op == 3 {
            BpfInsn::Jge { dst, src, offset }
        } else if op == 4 {
            BpfInsn::Jlt { dst, src, offset }
        } else if op == 5 {
            BpfInsn::Jle { dst, src, offset }
        } else if op == 6 {
            BpfInsn::Jsgt { dst, src, offset }
        } else if op == 7 {
            BpfInsn::Jsge { dst, src, offset }
        } else if op == 8 {
            BpfInsn::Jslt { dst, src, offset }
        } else {
            BpfInsn::Jsle { dst, src, offset }
        },
    }
}

/// The register with a number below ten.
pub open spec fn register(k: int) -> u8 {
    k as u8
}

/// The immediate form is taken in half of the draws.
pub open spec fn form(k: int, z: int) -> Option<i32> {
    if k % 2 == 0 {
        Some(immediate(z % 10))
    } else {
        None
    }
}

/// The source register, which an immediate form does not have.
pub open spec fn source(k: int, z: int) -> u8 {
    if k % 2 == 0 {
        0
    } else {
        register(z % 10)
    }
}

/// Where a branch at body index `pc` leads: in thirty of a hundred draws back to an
/// earlier instruction, else on to a later one, the exit among them.
pub open spec fn destination(s: u64, pc: int, len: int) -> int {
    if pc == 0 {
        1 + number(s, 0) % len
    } else if number(s, 0) % 100 < 30 {
        number(s, 1) % pc
    } else {
        pc + 1 + number(s, 1) % (len - pc)
    }
}

/// The instruction at body index `pc` of a body of `len`, from the numbers behind
/// `s`: of a hundred draws 35 give an operation of 64 bits, 15 one of 32 bits, 30 a
/// compare, 15 an access to the stack, and 5 a call of helper 7.
pub open spec fn body_insn(s: u64, pc: int, len: int) -> BpfInsn {
    let family = number(s, 0) % 100;
    let t = ahead(s, 4);
    let u = ahead(t, if pc == 0 { 1 } else { 2 });
    if family < 35 {
        operation(
            number(s, 1) % 9,
            register(number(s, 2) % 10),
            form(number(s, 3), number(s, 4)),
            source(number(s, 3), number(s, 4)),
        )
    } else if family < 50 {
        operation32(
            number(s, 1) % 8,
            register(number(s, 2) % 10),
            form(number(s, 3), number(s, 4)),
            source(number(s, 3), number(s, 4)),
        )
    } else if family < 80 {
        compare(
            number(s, 1) % 10,
            register(number(s, 2) % 10),
            form(number(s, 3), number(u, 1)),
            source(number(s, 3), number(u, 0)),
            (destination(t, pc, len) - pc - 1) as i16,
        )
    } else if family < 95 {
        if number(s, 3) % 2 == 0 {
            BpfInsn::LdMem {
                dst: register(number(s, 1) % 10),
                base: 10,
                offset: offset(number(s, 2) % 23),
                size: MemSize::DW,
                sign_extend: false,
            }
        } else {
            BpfInsn::StMem {
                src: register(number(s, 1) % 10),
                base: 10,
                offset: offset(number(s, 2) % 23),
                size: MemSize::DW,
            }
        }
    } else {
        BpfInsn::Call { imm: 7 }
    }
}

/// How many numbers the instruction takes.
pub open spec fn numbers_taken(s: u64, pc: int) -> nat {
    let family = number(s, 0) % 100;
    if family < 50 {
        5
    } else if family < 80 {
        if pc == 0 {
            7
        } else {
            8
        }
    } else if family < 95 {
        4
    } else {
        1
    }
}

pub proof fn lemma_ahead(s: u64, k: nat, m: nat)
    ensures
        ahead(ahead(s, k), m) == ahead(s, k + m),
    decreases k,
{
    if k > 0 {
        lemma_ahead(prng::step(s), (k - 1) as nat, m);
    }
}

pub proof fn lemma_steps(s: u64)
    ensures
        ahead(s, 0) == s,
        ahead(s, 1) == prng::step(s),
        ahead(s, 2) == prng::step(ahead(s, 1)),
        ahead(s, 3) == prng::step(ahead(s, 2)),
        ahead(s, 4) == prng::step(ahead(s, 3)),
        ahead(s, 5) == prng::step(ahead(s, 4)),
        ahead(s, 6) == prng::step(ahead(s, 5)),
        ahead(s, 7) == prng::step(ahead(s, 6)),
        ahead(s, 8) == prng::step(ahead(s, 7)),
{
    reveal_with_fuel(ahead, 10);
}

pub proof fn lemma_immediates(k: int)
    requires
        0 <= k < 10,
    ensures
        IMMEDIATES@[k] == immediate(k),
        ALU_REGS@[k] == register(k),
{
    if k == 0 {} else if k == 1 {} else if k == 2 {} else if k == 3 {} else if k == 4 {} else if k
        == 5 {} else if k == 6 {} else if k == 7 {} else if k == 8 {} else {}
}

proof fn lemma_offsets(k: int)
    requires
        0 <= k < 23,
    ensures
        OFFSETS@[k] == offset(k),
{
    if k == 0 {} else if k == 1 {} else if k == 2 {} else if k == 3 {} else if k == 4 {} else if k
        == 5 {} else if k == 6 {} else if k == 7 {} else if k == 8 {} else if k == 9 {} else if k
        == 10 {} else if k == 11 {} else if k == 12 {} else if k == 13 {} else if k == 14 {} else if k
        == 15 {} else if k == 16 {} else if k == 17 {} else if k == 18 {} else if k == 19 {} else if k
        == 20 {} else if k == 21 {} else {}
}

proof fn lemma_operation(op: int, dst: u8, imm: Option<i32>, src: u8)
    requires
        0 <= op < 9,
        imm is Some ==> src == 0,
    ensures
        operation(op, dst, imm, src).is_single(),
        operation(op, dst, imm, src).slot() == (Slot {
            op: (16 * generator::alu_code(op) + (if imm is Some { 0int } else { 8 }) + 7) as u8,
            dst,
            src,
            off: 0,
            imm: if imm is Some { imm->0 } else { 0 },
        }),
{
    reveal(BpfInsn::slot);
}

proof fn lemma_operation32(op: int, dst: u8, imm: Option<i32>, src: u8)
    requires
        0 <= op < 8,
        imm is Some ==> src == 0,
    ensures
        operation32(op, dst, imm, src).is_single(),
        operation32(op, dst, imm, src).slot() == (Slot {
            op: (16 * generator::alu_code(op + 1) + (if imm is Some { 0int } else { 8 }) + 4) as u8,
            dst,
            src,
            off: 0,
            imm: if imm is Some { imm->0 } else { 0 },
        }),
{
    reveal(BpfInsn::slot);
}

proof fn lemma_compare(op: int, dst: u8, imm: Option<i32>, src: u8, offset: i16)
    requires
        0 <= op < 10,
        imm is Some ==> src == 0,
    ensures
        compare(op, dst, imm, src, offset).is_single(),
        compare(op, dst, imm, src, offset).slot() == (Slot {
            op: (16 * generator::compare_code(op) + (if imm is Some { 0int } else { 8 }) + 5) as u8,
            dst,
            src,
            off: offset,
            imm: if imm is Some { imm->0 } else { 0 },
        }),
{
    reveal(BpfInsn::slot);
}

/// A body instruction is the one that the numbers of the generator name.
#[verifier::rlimit(60)]
#[verifier::spinoff_prover]
pub proof fn body_instruction_by_numbers(s: u64, pc: int, len: int)
    requires
        0 <= pc < len,
    ensures
        body_insn(s, pc, len).is_single(),
        body_insn(s, pc, len).slot() == generator::body_draw(s, pc, len).0,
        ahead(s, numbers_taken(s, pc)) == generator::body_draw(s, pc, len).1,
{
    lemma_steps(s);
    let t = ahead(s, 4);
    lemma_steps(t);
    lemma_ahead(s, 4, 1);
    lemma_ahead(s, 4, 2);
    lemma_ahead(s, 4, 3);
    lemma_ahead(s, 4, 4);
    let k: nat = if pc == 0 { 1 } else { 2 };
    let u = ahead(t, k);
    lemma_steps(u);
    lemma_ahead(t, k, 1);
    lemma_ahead(t, k, 2);
    lemma_immediates(number(s, 1) % 10);
    lemma_immediates(number(s, 2) % 10);
    lemma_immediates(number(s, 4) % 10);
    lemma_immediates(number(u, 0) % 10);
    lemma_immediates(number(u, 1) % 10);
    lemma_offsets(number(s, 2) % 23);
    lemma_operation(
        number(s, 1) % 9,
        register(number(s, 2) % 10),
        form(number(s, 3), number(s, 4)),
        source(number(s, 3), number(s, 4)),
    );
    lemma_operation32(
        number(s, 1) % 8,
        register(number(s, 2) % 10),
        form(number(s, 3), number(s, 4)),
        source(number(s, 3), number(s, 4)),
    );
    lemma_compare(
        number(s, 1) % 10,
        register(number(s, 2) % 10),
        form(number(s, 3), number(u, 1)),
        source(number(s, 3), number(u, 0)),
        (destination(t, pc, len) - pc - 1) as i16,
    );
    let family = number(s, 0) % 100;
    if 50 <= family < 80 {
        assert(generator::branch_target(t, pc, len) == destination(t, pc, len));
    } else if 80 <= family {
        reveal(BpfInsn::slot);
    }
}

// ── Programs ────────────────────────────────────────────────────────────────

/// The state of the generator in front of body index `pc`.
pub open spec fn state_at(s: u64, pc: int) -> u64
    decreases pc,
{
    if pc <= 0 {
        ahead(s, 1)
    } else {
        ahead(state_at(s, pc - 1), numbers_taken(state_at(s, pc - 1), pc - 1))
    }
}

/// The last body instruction: a jump to the exit in twenty of a hundred draws.
pub open spec fn last_insn(s: u64, pc: int, len: int) -> BpfInsn {
    if number(s, 0) % 100 < 20 {
        BpfInsn::Jmp { offset: 0 }
    } else {
        body_insn(ahead(s, 1), pc, len)
    }
}

proof fn lemma_body(s: u64, len: int, k: nat)
    requires
        k < len,
    ensures
        generator::body_slots(ahead(s, 1), len, k).1 == state_at(s, k as int),
        generator::body_slots(ahead(s, 1), len, k).0.len() == k,
        forall|i: int|
            0 <= i < k ==> (#[trigger] generator::body_slots(ahead(s, 1), len, k).0[i])
                == body_insn(state_at(s, i), i, len).slot(),
    decreases k,
{
    if k > 0 {
        lemma_body(s, len, (k - 1) as nat);
        body_instruction_by_numbers(state_at(s, k - 1), k - 1, len);
    }
}

/// Where the greatest length is below the least, the least is meant.
pub proof fn least_length_wins(s: u64, min: int, max: int)
    requires
        max < min,
    ensures
        generator::program_draw(s, min, max) == generator::program_draw(s, min, min),
{
}

/// A generated program: its length is drawn from the whole of `min..=max`, it sets
/// r0 first and ends in an exit, and every instruction between is the one that the
/// numbers name.
pub proof fn program_by_numbers(insns: Seq<BpfInsn>, s: u64, min: int, max: int)
    requires
        0 <= min <= max,
        generator::has_slots(insns, generator::program_draw(s, min, max).0),
    ensures
        ({
            let n = min + number(s, 0) % (max - min + 1);
            &&& min <= n <= max
            &&& insns.len() == n + 2
            &&& insns[0] == (BpfInsn::MovImm { dst: 0, imm: 0 })
            &&& insns[n + 1] == BpfInsn::Exit
            &&& forall|pc: int|
                0 <= pc < n - 1 ==> #[trigger] insns[pc + 1] == body_insn(state_at(s, pc), pc, n)
            &&& n > 0 ==> insns[n] == last_insn(state_at(s, n - 1), n - 1, n)
        }),
{
    lemma_steps(s);
    let n = generator::body_length(s, min, max);
    let span = max - min + 1;
    assert(0 <= number(s, 0) % span < span);
    let slots = generator::program_draw(s, min, max).0;
    let body = generator::body_slots(prng::step(s), n, n as nat).0;
    if n > 0 {
        lemma_body(s, n, (n - 1) as nat);
    }
    assert(slots.len() == n + 2);
    assert(BpfInsn::Exit.slot() == insns[n + 1].slot() && (BpfInsn::MovImm { dst: 0, imm: 0 }).slot()
        == insns[0].slot()) by {
        reveal(BpfInsn::slot);
    }
    insn::slot_injective(insns[n + 1], BpfInsn::Exit);
    insn::slot_injective(insns[0], BpfInsn::MovImm { dst: 0, imm: 0 });
    if n > 0 {
        lemma_body(s, n, (n - 1) as nat);
        let head = generator::body_slots(prng::step(s), n, (n - 1) as nat).0;
        assert forall|pc: int| 0 <= pc < n - 1 implies #[trigger] insns[pc + 1] == body_insn(
            state_at(s, pc),
            pc,
            n,
        ) by {
            assert(slots[pc + 1] == body[pc]);
            assert(body[pc] == head[pc]);
            body_instruction_by_numbers(state_at(s, pc), pc, n);
            insn::slot_injective(insns[pc + 1], body_insn(state_at(s, pc), pc, n));
        }
        let t = state_at(s, n - 1);
        lemma_steps(t);
        body_instruction_by_numbers(ahead(t, 1), n - 1, n);
        assert(slots[n] == body[n - 1]);
        let last = last_insn(t, n - 1, n);
        assert(last.is_single() && last.slot() == body[n - 1]) by {
            reveal(BpfInsn::slot);
        }
        insn::slot_injective(insns[n], last);
    }
}

/// Every length is drawn: a number with the remainder `n - min` gives a body of `n`.
pub proof fn every_length_is_drawn(insns: Seq<BpfInsn>, s: u64, min: int, max: int, n: int)
    requires
        0 <= min <= n <= max,
        generator::has_slots(insns, generator::program_draw(s, min, max).0),
        number(s, 0) % (max - min + 1) == n - min,
    ensures
        insns.len() == n + 2,
{
    program_by_numbers(insns, s, min, max);
}

// ── Mutation ────────────────────────────────────────────────────────────────

/// The instruction with another destination register; a store with another source.
pub open spec fn with_reg(i: BpfInsn, reg: u8) -> BpfInsn {
    match i {
        BpfInsn::MovImm { imm, .. } => BpfInsn::MovImm { dst: reg, imm },
        BpfInsn::MovReg { src, .. } => BpfInsn::MovReg { dst: reg, src },
        BpfInsn::AddImm { imm, .. } => BpfInsn::AddImm { dst: reg, imm },
        BpfInsn::AddReg { src, .. } => BpfInsn::AddReg { dst: reg, src },
        BpfInsn::SubImm { imm, .. } => BpfInsn::SubImm { dst: reg, imm },
        BpfInsn::SubReg { src, .. } => BpfInsn::SubReg { dst: reg, src },
        BpfInsn::AndImm { imm, .. } => BpfInsn::AndImm { dst: reg, imm },
        BpfInsn::AndReg { src, .. } => BpfInsn::AndReg { dst: reg, src },
        BpfInsn::OrImm { imm, .. } => BpfInsn::OrImm { dst: reg, imm },
        BpfInsn::OrReg { src, .. } => BpfInsn::OrReg { dst: reg, src },
        BpfInsn::XorImm { imm, .. } => BpfInsn::XorImm { dst: reg, imm },
        BpfInsn::XorReg { src, .. } => BpfInsn::XorReg { dst: reg, src },
        BpfInsn::LshImm { imm, .. } => BpfInsn::LshImm { dst: reg, imm },
        BpfInsn::LshReg { src, .. } => BpfInsn::LshReg { dst: reg, src },
        BpfInsn::RshImm { imm, .. } => BpfInsn::RshImm { dst: reg, imm },
        BpfInsn::RshReg { src, .. } => BpfInsn::RshReg { dst: reg, src },
        BpfInsn::ArshImm { imm, .. } => BpfInsn::ArshImm { dst: reg, imm },
        BpfInsn::ArshReg { src, .. } => BpfInsn::ArshReg { dst: reg, src },
        BpfInsn::Add32Imm { imm, .. } => BpfInsn::Add32Imm { dst: reg, imm },
        BpfInsn::Add32Reg { src, .. } => BpfInsn::Add32Reg { dst: reg, src },
        BpfInsn::Sub32Imm { imm, .. } => BpfInsn::Sub32Imm { dst: reg, imm },
        BpfInsn::Sub32Reg { src, .. } => BpfInsn::Sub32Reg { dst: reg, src },
        BpfInsn::And32Imm { imm, .. } => BpfInsn::And32Imm { dst: reg, imm },
        BpfInsn::And32Reg { src, .. } => BpfInsn::And32Reg { dst: reg, src },
        BpfInsn::Or32Imm { imm, .. } => BpfInsn::Or32Imm { dst: reg, imm },
        BpfInsn::Or32Reg { src, .. } => BpfInsn::Or32Reg { dst: reg, src },
        BpfInsn::Xor32Imm { imm, .. } => BpfInsn::Xor32Imm { dst: reg, imm },
        BpfInsn::Xor32Reg { src, .. } => BpfInsn::Xor32Reg { dst: reg, src },
        BpfInsn::Lsh32Imm { imm, .. } => BpfInsn::Lsh32Imm { dst: reg, imm },
        BpfInsn::Lsh32Reg { src, .. } => BpfInsn::Lsh32Reg { dst: reg, src },
        BpfInsn::Rsh32Imm { imm, .. } => BpfInsn::Rsh32Imm { dst: reg, imm },
        BpfInsn::Rsh32Reg { src, .. } => BpfInsn::Rsh32Reg { dst: reg, src },
        BpfInsn::Arsh32Imm { imm, .. } => BpfInsn::Arsh32Imm { dst: reg, imm },
        BpfInsn::Arsh32Reg { src, .. } => BpfInsn::Arsh32Reg { dst: reg, src },
        BpfInsn::Jeq { src, offset, .. } => BpfInsn::Jeq { dst: reg, src, offset },
        BpfInsn::JeqImm { imm, offset, .. } => BpfInsn::JeqImm { dst: reg, imm, offset },
        BpfInsn::Jne { src, offset, .. } => BpfInsn::Jne { dst: reg, src, offset },
        BpfInsn::JneImm { imm, offset, .. } => BpfInsn::JneImm { dst: reg, imm, offset },
        BpfInsn::Jgt { src, offset, .. } => BpfInsn::Jgt { dst: reg, src, offset },
        BpfInsn::JgtImm { imm, offset, .. } => BpfInsn::JgtImm { dst: reg, imm, offset },
        BpfInsn::Jge { src, offset, .. } => BpfInsn::Jge { dst: reg, src, offset },
        BpfInsn::JgeImm { imm, offset, .. } => BpfInsn::JgeImm { dst: reg, imm, offset },
        BpfInsn::Jlt { src, offset, .. } => BpfInsn::Jlt { dst: reg, src, offset },
        BpfInsn::JltImm { imm, offset, .. } => BpfInsn::JltImm { dst: reg, imm, offset },
        BpfInsn::Jle { src, offset, .. } => BpfInsn::Jle { dst: reg, src, offset },
        BpfInsn::JleImm { imm, offset, .. } => BpfInsn::JleImm { dst: reg, imm, offset },
        BpfInsn::Jsgt { src, offset, .. } => BpfInsn::Jsgt { dst: reg, src, offset },
        BpfInsn::JsgtImm { imm, offset, .. } => BpfInsn::JsgtImm { dst: reg, imm, offset },
        BpfInsn::Jsge { src, offset, .. } => BpfInsn::Jsge { dst: reg, src, offset },
        BpfInsn::JsgeImm { imm, offset, .. } => BpfInsn::JsgeImm { dst: reg, imm, offset },
        BpfInsn::Jslt { src, offset, .. } => BpfInsn::Jslt { dst: reg, src, offset },
        BpfInsn::JsltImm { imm, offset, .. } => BpfInsn::JsltImm { dst: reg, imm, offset },
        BpfInsn::Jsle { src, offset, .. } => BpfInsn::Jsle { dst: reg, src, offset },
        BpfInsn::JsleImm { imm, offset, .. } => BpfInsn::JsleImm { dst: reg, imm, offset },
        BpfInsn::LdMem { base, offset, size, sign_extend, .. } => BpfInsn::LdMem {
            dst: reg,
            base,
            offset,
            size,
            sign_extend,
        },
        BpfInsn::StMem { base, offset, size, .. } => BpfInsn::StMem { src: reg, base, offset, size },
        BpfInsn::LdImm64 { imm, .. } => BpfInsn::LdImm64 { dst: reg, imm },
        BpfInsn::LdMapFd { fd, key_size, value_size, map_type, .. } => BpfInsn::LdMapFd {
            dst: reg,
            fd,
            key_size,
            value_size,
            map_type,
        },
        BpfInsn::LdMapValue { fd, offset, key_size, value_size, .. } => BpfInsn::LdMapValue {
            dst: reg,
            fd,
            offset,
            key_size,
            value_size,
        },
        other => other,
    }
}

/// The instruction with another offset: a jump, a compare, or an access to the
/// stack.
pub open spec fn with_offset(i: BpfInsn, offset: i16) -> BpfInsn {
    match i {
        BpfInsn::LdMem { dst, base, size, sign_extend, .. } => if base == 10 {
            BpfInsn::LdMem { dst, base, offset, size, sign_extend }
        } else {
            i
        },
        BpfInsn::StMem { src, base, size, .. } => if base == 10 {
            BpfInsn::StMem { src, base, offset, size }
        } else {
            i
        },
        BpfInsn::StMemImm { imm, base, size, .. } => if base == 10 {
            BpfInsn::StMemImm { imm, base, offset, size }
        } else {
            i
        },
        _ => names::with_target(i, offset),
    }
}

/// The instruction with another immediate: an operation, a compare, a store of an
/// immediate, or the helper of a call.
pub open spec fn with_immediate(i: BpfInsn, imm: i32) -> BpfInsn {
    match i {
        BpfInsn::StMemImm { base, offset, size, .. } => BpfInsn::StMemImm { imm, base, offset, size },
        BpfInsn::Call { .. } => BpfInsn::Call { imm },
        _ => names::with_imm(i, imm),
    }
}

/// A replacement of an immediate changes it and nothing else.
#[verifier::rlimit(60)]
#[verifier::spinoff_prover]
pub proof fn immediates_by_name(i: BpfInsn, imm: i32, r: BpfInsn)
    requires
        mutator::imm_replaced(i, imm, r),
    ensures
        r == with_immediate(i, imm),
{
    let named = with_immediate(i, imm);
    assert(mutator::has_imm(i) ==> named.is_single() && named.slot() == (Slot { imm, ..i.slot() }))
        by {
        reveal(BpfInsn::slot);
    }
    assert(!mutator::has_imm(i) ==> named == i) by {
        reveal(BpfInsn::slot);
    }
    if mutator::has_imm(i) {
        insn::slot_injective(r, named);
    }
}

/// A replacement of an offset changes it in jumps, compares and accesses to the
/// stack, and nothing else.
#[verifier::rlimit(60)]
#[verifier::spinoff_prover]
pub proof fn offsets_by_name(i: BpfInsn, off: i16, r: BpfInsn)
    requires
        mutator::off_replaced(i, off, r),
    ensures
        r == with_offset(i, off),
{
    let named = with_offset(i, off);
    assert(mutator::has_offset(i) ==> named.is_single() && named.slot() == (Slot { off, ..i.slot() }))
        by {
        reveal(BpfInsn::slot);
    }
    assert(!mutator::has_offset(i) ==> named == i) by {
        reveal(BpfInsn::slot);
    }
    if mutator::has_offset(i) {
        insn::slot_injective(r, named);
    }
}

/// A replacement of a register changes the destination, of a store the source, and
/// nothing else.
#[verifier::rlimit(60)]
#[verifier::spinoff_prover]
pub proof fn registers_by_name(i: BpfInsn, reg: u8, r: BpfInsn)
    requires
        mutator::reg_replaced(i, reg, r),
    ensures
        r == with_reg(i, reg),
{
    let named = with_reg(i, reg);
    assert(named.slot() == (if i is StMem {
        Slot { src: reg, ..i.slot() }
    } else if i is LdMem || insn::is_alu_op(i.slot().op) || i.is_compare() || i.is_wide() {
        Slot { dst: reg, ..i.slot() }
    } else {
        i.slot()
    })) by {
        reveal(BpfInsn::slot);
    }
    assert(i is LdMem || i is StMem || i.is_wide() || insn::is_alu_op(i.slot().op) || i.is_compare()
        || named == i) by {
        reveal(BpfInsn::slot);
    }
    assert(named.is_single() == i.is_single());
    assert(insn::is_alu_op(i.slot().op) || i.is_compare() ==> i.is_single()) by {
        reveal(BpfInsn::slot);
    }
    if i.is_single() && r.is_single() {
        if named.slot() == r.slot() {
            insn::slot_injective(r, named);
        }
    }
}

/// A mutant is what its numbers say: in fifty of a hundred draws one field of one
/// instruction of the body changes, in twenty one instruction is inserted, in
/// fifteen one is deleted, and in the rest the head of the seed is joined with the
/// tail of the other seed, where there is one.
pub proof fn mutant_by_numbers(
    s: u64,
    seed: Seq<BpfInsn>,
    other: Option<Seq<BpfInsn>>,
    out: Seq<BpfInsn>,
    t: u64,
)
    requires
        seed.len() >= 3,
        mutator::is_mutant(s, seed, other, out, t),
    ensures
        ({
            let n = seed.len() as int;
            let roll = number(s, 0) % 100;
            let splices = other is Some && other->0.len() >= 2;
            if roll < 50 || (roll >= 85 && !splices) {
                let at = 1 + number(s, 1) % (n - 2);
                &&& t == ahead(s, 4)
                &&& out == seed.update(
                    at,
                    if number(s, 2) % 3 == 0 {
                        with_immediate(seed[at], immediate(number(s, 3) % 10))
                    } else if number(s, 2) % 3 == 1 {
                        with_offset(seed[at], offset(number(s, 3) % 23))
                    } else {
                        with_reg(seed[at], register(number(s, 3) % 10))
                    },
                )
            } else if roll < 70 {
                let at = 1 + number(s, 1) % (n - 1);
                let from = ahead(s, 2);
                &&& t == ahead(from, numbers_taken(from, at))
                &&& out == seed.insert(at, body_insn(from, at, n))
            } else if roll < 85 {
                if n == 3 {
                    t == ahead(s, 1) && out == seed
                } else {
                    t == ahead(s, 2) && out == seed.remove(1 + number(s, 1) % (n - 2))
                }
            } else {
                let b = other->0;
                let cut = 1 + number(s, 1) % (n - 1);
                let rest = 1 + number(s, 2) % (b.len() - 1);
                t == ahead(s, 3) && out == seed.take(cut) + b.skip(rest)
            }
        }),
{
    lemma_steps(s);
    let n = seed.len() as int;
    let roll = number(s, 0) % 100;
    let s1 = ahead(s, 1);
    assert(0 <= number(s, 1) % (n - 2) < n - 2);
    assert(0 <= number(s, 1) % (n - 1) < n - 1);
    let splices = other is Some && other->0.len() >= 2;
    if roll < 50 || (roll >= 85 && !splices) {
        let at = 1 + number(s, 1) % (n - 2);
        assert(mutator::field_replaced(s1, seed, out, t));
        lemma_immediates(number(s, 3) % 10);
        lemma_offsets(number(s, 3) % 23);
        if number(s, 2) % 3 == 0 {
            immediates_by_name(seed[at], immediate(number(s, 3) % 10), out[at]);
        } else if number(s, 2) % 3 == 1 {
            offsets_by_name(seed[at], offset(number(s, 3) % 23), out[at]);
        } else {
            registers_by_name(seed[at], register(number(s, 3) % 10), out[at]);
        }
        assert(out =~= seed.update(at, out[at]));
    } else if roll < 70 {
        let at = 1 + number(s, 1) % (n - 1);
        body_instruction_by_numbers(ahead(s, 2), at, n);
        insn::slot_injective(out[at], body_insn(ahead(s, 2), at, n));
    }
}

} // verus!
