//! Idioms: which body the numbers of the generator give for each template.

use vstd::prelude::*;

use crate::fuzz::generator;
use crate::fuzz::idiom;
use crate::fuzz::idiom::Idiom;
use crate::fuzz::insn_lib::LARGE_IMMEDIATES;
use crate::fuzz::prng;
use crate::insn::{BpfInsn, MemSize};
use crate::laws::generation;
use crate::laws::generation::{ahead, immediate, number};

verus! {

/// The immediates that make sums and differences wrap soon.
pub open spec fn great(k: int) -> i32 {
    (seq![
        1_000_000_000int,
        -1_000_000_000,
        2_000_000_000,
        -2_000_000_000,
        0x7fff_ffff,
        -0x8000_0000,
        0x7fff_ffff,
        -0x4000_0000,
    ][k]) as i32
}

/// A register of work, R1 to R9, by a number.
pub open spec fn worker(z: int) -> u8 {
    (1 + z % 9) as u8
}

proof fn lemma_great(k: int)
    requires
        0 <= k < 8,
    ensures
        LARGE_IMMEDIATES@[k] == great(k),
{
}

proof fn lemma_draws(s: u64)
    ensures
        idiom::work(s) == worker(number(s, 0)),
        idiom::large(s) == great(number(s, 0) % 8),
        idiom::ordinary(s) == immediate(number(s, 0) % 10),
{
    generation::lemma_steps(s);
    lemma_great(number(s, 0) % 8);
    generation::lemma_immediates(number(s, 0) % 10);
}

proof fn lemma_here(s: u64, k: nat)
    ensures
        number(ahead(s, k), 0) == number(s, k),
        prng::step(ahead(s, k)) == ahead(s, k + 1),
        prng::mix(prng::step(ahead(s, k))) as int == number(s, k),
{
    generation::lemma_ahead(s, k, 1);
    generation::lemma_steps(ahead(s, k));
}

proof fn lemma_first(s: u64)
    ensures
        ahead(s, 0) == s,
        ahead(s, 1) == prng::step(s),
        ahead(s, 2) == prng::step(prng::step(s)),
        ahead(s, 3) == prng::step(prng::step(prng::step(s))),
        ahead(s, 4) == prng::step(prng::step(prng::step(prng::step(s)))),
{
    lemma_here(s, 0);
    lemma_here(s, 1);
    lemma_here(s, 2);
    lemma_here(s, 3);
}

// ── Templates without a chain ───────────────────────────────────────────────

/// The signed and the unsigned compare of an unknown number with a constant.
pub proof fn dual_refinement_by_numbers(s: u64)
    ensures
        ({
            let c = worker(number(s, 0));
            let body = idiom::idiom_draw(s, Idiom::DualRefine).0;
            &&& body.len() == 6
            &&& body[0] == BpfInsn::Call { imm: 7 }
            &&& body[1] == BpfInsn::MovImm { dst: c, imm: immediate(number(s, 1) % 10) }
            &&& body[2] == BpfInsn::Jsgt { dst: 0, src: c, offset: 2 }
            &&& body[3] == BpfInsn::Jgt { dst: 0, src: c, offset: 1 }
            &&& body[4] == BpfInsn::MovReg { dst: 0, src: 0 }
            &&& body[5] == BpfInsn::Exit
        }),
        idiom::idiom_draw(s, Idiom::DualRefine).1 == ahead(s, 2),
{
    lemma_first(s);
    lemma_draws(s);
    lemma_here(s, 1);
    lemma_draws(ahead(s, 1));
}

/// The null check of an unknown number: an exit where it is null, one as the
/// result where it is not.
pub proof fn null_check_by_numbers(s: u64)
    ensures
        ({
            let c = worker(number(s, 0));
            let body = idiom::idiom_draw(s, Idiom::NullCheck).0;
            &&& body.len() == 6
            &&& body[0] == BpfInsn::Call { imm: 7 }
            &&& body[1] == BpfInsn::MovImm { dst: c, imm: 0 }
            &&& body[2] == BpfInsn::Jne { dst: 0, src: c, offset: 1 }
            &&& body[3] == BpfInsn::Exit
            &&& body[4] == BpfInsn::MovImm { dst: 0, imm: 1 }
            &&& body[5] == BpfInsn::Exit
        }),
        idiom::idiom_draw(s, Idiom::NullCheck).1 == ahead(s, 1),
{
    lemma_first(s);
    lemma_draws(s);
}

/// A constant goes to one of the four upper stack slots, its register is cleared,
/// and is loaded from that slot again.
pub proof fn spill_and_fill_by_numbers(s: u64)
    ensures
        ({
            let r = worker(number(s, 0));
            let offset = (-8 * (1 + number(s, 1) % 4)) as i16;
            let body = idiom::idiom_draw(s, Idiom::SpillFill).0;
            &&& body.len() == 6
            &&& body[0] == BpfInsn::MovImm { dst: r, imm: immediate(number(s, 2) % 10) }
            &&& body[1] == BpfInsn::StMem { src: r, base: 10, offset, size: MemSize::DW }
            &&& body[2] == BpfInsn::MovImm { dst: r, imm: 0 }
            &&& body[3] == BpfInsn::LdMem {
                dst: r,
                base: 10,
                offset,
                size: MemSize::DW,
                sign_extend: false,
            }
            &&& body[4] == BpfInsn::MovReg { dst: 0, src: r }
            &&& body[5] == BpfInsn::Exit
        }),
        idiom::idiom_draw(s, Idiom::SpillFill).1 == ahead(s, 3),
{
    lemma_first(s);
    lemma_draws(s);
    lemma_here(s, 1);
    lemma_here(s, 2);
    lemma_draws(ahead(s, 2));
}

proof fn lemma_other(s: u64, avoid: u8) -> (k: nat)
    ensures
        idiom::other_work(s, avoid).0 == worker(number(s, k)),
        worker(number(s, k)) != avoid,
        forall|j: nat| j < k ==> worker(#[trigger] number(s, j)) == avoid,
        idiom::other_work(s, avoid).1 == ahead(s, k + 1),
    decreases idiom::draws_left(s, avoid),
{
    lemma_draws(s);
    lemma_here(s, 0);
    lemma_first(s);
    if idiom::work(s) != avoid {
        0
    } else {
        idiom::lemma_draws_left(s, avoid);
        let t = prng::step(s);
        let k = lemma_other(t, avoid);
        assert forall|j: nat| j < k + 1 implies worker(#[trigger] number(s, j)) == avoid by {
            if j > 0 {
                assert(ahead(s, j + 1) == ahead(t, j));
                assert(number(s, j) == number(t, (j - 1) as nat));
            }
        }
        assert(ahead(s, k + 2) == ahead(t, k + 1));
        k + 1
    }
}

/// An index counts from zero to a counter of one to a hundred in another register,
/// the first that is drawn and is not the counter's.
pub proof fn bounded_loop_by_numbers(s: u64) -> (k: nat)
    ensures
        ({
            let cnt = worker(number(s, 1));
            let idx = worker(number(s, k));
            let body = idiom::idiom_draw(s, Idiom::BoundedLoop).0;
            &&& k >= 2
            &&& idx != cnt
            &&& forall|j: nat| 2 <= j < k ==> worker(#[trigger] number(s, j)) == cnt
            &&& body.len() == 6
            &&& body[0] == BpfInsn::MovImm { dst: cnt, imm: (1 + number(s, 0) % 100) as i32 }
            &&& body[1] == BpfInsn::MovImm { dst: idx, imm: 0 }
            &&& body[2] == BpfInsn::AddImm { dst: idx, imm: 1 }
            &&& body[3] == BpfInsn::Jlt { dst: idx, src: cnt, offset: (-2) as i16 }
            &&& body[4] == BpfInsn::MovReg { dst: 0, src: idx }
            &&& body[5] == BpfInsn::Exit
        }),
        idiom::idiom_draw(s, Idiom::BoundedLoop).1 == ahead(s, k + 1),
{
    lemma_first(s);
    lemma_draws(s);
    lemma_here(s, 0);
    lemma_here(s, 1);
    lemma_draws(ahead(s, 1));
    let t = ahead(s, 2);
    let cnt = worker(number(s, 1));
    let m = lemma_other(t, cnt);
    assert forall|j: nat| j <= m implies #[trigger] number(t, j) == number(s, j + 2) by {
        generation::lemma_ahead(s, 2, j + 1);
    }
    assert forall|j: nat| 2 <= j < m + 2 implies worker(#[trigger] number(s, j)) == cnt by {
        assert(number(t, (j - 2) as nat) == number(s, j));
    }
    assert(number(t, m) == number(s, m + 2));
    generation::lemma_ahead(s, 2, m + 1);
    m + 2
}

// ── Templates with a chain ──────────────────────────────────────────────────

/// A sum or a difference, with a great immediate or with the register itself.
pub open spec fn wrap_insn(s: u64, r: u8) -> BpfInsn {
    let imm = great(number(s, 2) % 8);
    if number(s, 1) % 2 == 0 {
        if number(s, 0) % 2 == 0 {
            BpfInsn::AddImm { dst: r, imm }
        } else {
            BpfInsn::SubImm { dst: r, imm }
        }
    } else if number(s, 0) % 2 == 0 {
        BpfInsn::AddReg { dst: r, src: r }
    } else {
        BpfInsn::SubReg { dst: r, src: r }
    }
}

/// An operation of 32 bits, with an immediate or with the register itself.
pub open spec fn narrow_op(s: u64, r: u8) -> BpfInsn {
    let imm = immediate(number(s, 2) % 10);
    let op = number(s, 0) % 4;
    if number(s, 1) % 2 == 0 {
        if op == 0 {
            BpfInsn::Add32Imm { dst: r, imm }
        } else if op == 1 {
            BpfInsn::Sub32Imm { dst: r, imm }
        } else if op == 2 {
            BpfInsn::Xor32Imm { dst: r, imm }
        } else {
            BpfInsn::And32Imm { dst: r, imm }
        }
    } else if op == 0 {
        BpfInsn::Add32Reg { dst: r, src: r }
    } else if op == 1 {
        BpfInsn::Sub32Reg { dst: r, src: r }
    } else if op == 2 {
        BpfInsn::Xor32Reg { dst: r, src: r }
    } else {
        BpfInsn::And32Reg { dst: r, src: r }
    }
}

/// The state in front of the `k`-th operation of such a chain: an immediate takes
/// one number more than a register.
pub open spec fn chain_state(s: u64, k: int) -> u64
    decreases k,
{
    if k <= 0 {
        s
    } else {
        let t = chain_state(s, k - 1);
        ahead(t, if number(t, 1) % 2 == 0 { 3 } else { 2 })
    }
}

proof fn lemma_wrap(s: u64, r: u8)
    ensures
        idiom::add_sub_draw(s, r) == (
            wrap_insn(s, r),
            ahead(s, if number(s, 1) % 2 == 0 { 3 } else { 2 }),
        ),
        idiom::alu32_draw(s, r) == (
            narrow_op(s, r),
            ahead(s, if number(s, 1) % 2 == 0 { 3 } else { 2 }),
        ),
{
    lemma_first(s);
    lemma_here(s, 0);
    lemma_here(s, 1);
    lemma_here(s, 2);
    lemma_draws(ahead(s, 2));
}

proof fn lemma_chains(s: u64, r: u8, n: nat)
    ensures
        idiom::add_sub_chain(s, r, n).0.len() == n,
        idiom::add_sub_chain(s, r, n).1 == chain_state(s, n as int),
        forall|i: int|
            0 <= i < n ==> #[trigger] idiom::add_sub_chain(s, r, n).0[i] == wrap_insn(
                chain_state(s, i),
                r,
            ),
        idiom::alu32_chain(s, r, n).0.len() == n,
        idiom::alu32_chain(s, r, n).1 == chain_state(s, n as int),
        forall|i: int|
            0 <= i < n ==> #[trigger] idiom::alu32_chain(s, r, n).0[i] == narrow_op(
                chain_state(s, i),
                r,
            ),
    decreases n,
{
    if n > 0 {
        lemma_chains(s, r, (n - 1) as nat);
        lemma_wrap(chain_state(s, n - 1), r);
    }
}

/// Two to six sums and differences that wrap, on the result of a helper or on a
/// great constant.
pub proof fn overflow_chain_by_numbers(s: u64)
    ensures
        ({
            let n = 2 + number(s, 1) % 5;
            let (body, behind) = idiom::idiom_draw(s, Idiom::OverflowChain);
            if number(s, 0) % 2 == 0 {
                &&& body.len() == n + 2
                &&& body[0] == BpfInsn::Call { imm: 7 }
                &&& forall|i: int|
                    0 <= i < n ==> #[trigger] body[i + 1] == wrap_insn(
                        chain_state(ahead(s, 2), i),
                        0,
                    )
                &&& body[n + 1] == BpfInsn::Exit
                &&& behind == chain_state(ahead(s, 2), n)
            } else {
                let r = worker(number(s, 2));
                &&& body.len() == n + 3
                &&& body[0] == BpfInsn::MovImm { dst: r, imm: great(number(s, 3) % 8) }
                &&& forall|i: int|
                    0 <= i < n ==> #[trigger] body[i + 1] == wrap_insn(
                        chain_state(ahead(s, 4), i),
                        r,
                    )
                &&& body[n + 1] == BpfInsn::MovReg { dst: 0, src: r }
                &&& body[n + 2] == BpfInsn::Exit
                &&& behind == chain_state(ahead(s, 4), n)
            }
        }),
{
    lemma_first(s);
    lemma_here(s, 0);
    lemma_here(s, 1);
    lemma_here(s, 2);
    lemma_here(s, 3);
    lemma_draws(ahead(s, 2));
    lemma_draws(ahead(s, 3));
    let n = (2 + number(s, 1) % 5) as nat;
    lemma_chains(ahead(s, 2), 0, n);
    lemma_chains(ahead(s, 4), worker(number(s, 2)), n);
}

/// One to four operations of 32 bits on a constant, and one of 64 bits.
pub proof fn roundtrip_by_numbers(s: u64)
    ensures
        ({
            let n = 1 + number(s, 2) % 4;
            let r = worker(number(s, 0));
            let t = chain_state(ahead(s, 3), n);
            let (body, behind) = idiom::idiom_draw(s, Idiom::Alu32Roundtrip);
            &&& body.len() == n + 4
            &&& body[0] == BpfInsn::MovImm { dst: r, imm: immediate(number(s, 1) % 10) }
            &&& forall|i: int|
                0 <= i < n ==> #[trigger] body[i + 1] == narrow_op(chain_state(ahead(s, 3), i), r)
            &&& body[n + 1] == if number(t, 0) % 2 == 0 {
                BpfInsn::AddImm { dst: r, imm: 1 }
            } else {
                BpfInsn::SubImm { dst: r, imm: 1 }
            }
            &&& body[n + 2] == BpfInsn::MovReg { dst: 0, src: r }
            &&& body[n + 3] == BpfInsn::Exit
            &&& behind == ahead(t, 1)
        }),
{
    lemma_first(s);
    lemma_here(s, 0);
    lemma_here(s, 1);
    lemma_here(s, 2);
    lemma_draws(s);
    lemma_draws(ahead(s, 1));
    let n = (1 + number(s, 2) % 4) as nat;
    lemma_chains(ahead(s, 3), worker(number(s, 0)), n);
    let t = chain_state(ahead(s, 3), n as int);
    lemma_here(t, 0);
    lemma_first(t);
}

/// The compare of an unknown number in r0, with a constant or with its register.
pub open spec fn narrowing_compare(op: int, constant: bool, c: u8, imm: i32, offset: i16) -> BpfInsn {
    generation::compare(
        op + 2,
        0,
        if constant {
            Some(imm)
        } else {
            None
        },
        c,
        offset,
    )
}

proof fn lemma_narrow(s: u64, c: u8, imm: i32, n: int, k: nat)
    requires
        k <= n,
    ensures
        idiom::narrow_chain(s, c, imm, n, k).0.len() == k,
        idiom::narrow_chain(s, c, imm, n, k).1 == ahead(s, 2 * k),
        forall|i: int|
            0 <= i < k ==> #[trigger] idiom::narrow_chain(s, c, imm, n, k).0[i]
                == narrowing_compare(
                number(s, (2 * i) as nat) % 8,
                number(s, (2 * i + 1) as nat) % 2 == 0,
                c,
                imm,
                (n - 1 - i) as i16,
            ),
    decreases k,
{
    if k > 0 {
        lemma_narrow(s, c, imm, n, (k - 1) as nat);
        let j = (2 * (k - 1)) as nat;
        lemma_here(s, j);
        lemma_here(s, j + 1);
    } else {
        lemma_first(s);
    }
}

/// Two to six compares of an unknown number with one constant, each of which leads
/// behind the last of them.
pub proof fn narrowing_by_numbers(s: u64)
    ensures
        ({
            let n = 2 + number(s, 2) % 5;
            let c = worker(number(s, 0));
            let imm = immediate(number(s, 1) % 10);
            let (body, behind) = idiom::idiom_draw(s, Idiom::NarrowingChain);
            &&& body.len() == n + 4
            &&& body[0] == BpfInsn::Call { imm: 7 }
            &&& body[1] == BpfInsn::MovImm { dst: c, imm }
            &&& forall|i: int|
                0 <= i < n ==> #[trigger] body[i + 2] == narrowing_compare(
                    number(s, (2 * i + 3) as nat) % 8,
                    number(s, (2 * i + 4) as nat) % 2 == 0,
                    c,
                    imm,
                    (n - 1 - i) as i16,
                )
            &&& body[n + 2] == BpfInsn::MovReg { dst: 0, src: 0 }
            &&& body[n + 3] == BpfInsn::Exit
            &&& behind == ahead(s, (2 * n + 3) as nat)
        }),
{
    lemma_first(s);
    lemma_here(s, 0);
    lemma_here(s, 1);
    lemma_here(s, 2);
    lemma_draws(s);
    lemma_draws(ahead(s, 1));
    let n = 2 + number(s, 2) % 5;
    let c = worker(number(s, 0));
    let imm = immediate(number(s, 1) % 10);
    let t = ahead(s, 3);
    lemma_narrow(t, c, imm, n, n as nat);
    generation::lemma_ahead(s, 3, (2 * n) as nat);
    let body = idiom::idiom_draw(s, Idiom::NarrowingChain).0;
    let chain = idiom::narrow_chain(t, c, imm, n, n as nat).0;
    assert forall|i: int| 0 <= i < n implies #[trigger] body[i + 2] == narrowing_compare(
        number(s, (2 * i + 3) as nat) % 8,
        number(s, (2 * i + 4) as nat) % 2 == 0,
        c,
        imm,
        (n - 1 - i) as i16,
    ) by {
        assert(body[i + 2] == chain[i]);
        generation::lemma_ahead(s, 3, (2 * i + 1) as nat);
        generation::lemma_ahead(s, 3, (2 * i + 2) as nat);
        assert(number(t, (2 * i) as nat) == number(s, (2 * i + 3) as nat));
        assert(number(t, (2 * i + 1) as nat) == number(s, (2 * i + 4) as nat));
    }
}

// ── Programs ────────────────────────────────────────────────────────────────

/// A framed body sets r0 first, holds the body behind it, and ends in an exit, its
/// own where it has one.
pub proof fn frames_hold_the_body(body: Seq<BpfInsn>)
    ensures
        ({
            let p = generator::framed(body);
            &&& p[0] == BpfInsn::MovImm { dst: 0, imm: 0 }
            &&& p.subrange(1, 1 + body.len() as int) == body
            &&& p.last() is Exit
            &&& p.len() <= body.len() + 2
            &&& body.len() > 0 && body.last() is Exit ==> p.len() == body.len() + 1
        }),
{
    assert(generator::framed(body).subrange(1, 1 + body.len() as int) =~= body);
}

/// The idiom by its number.
pub open spec fn template(k: int) -> Idiom {
    if k == 0 {
        Idiom::OverflowChain
    } else if k == 1 {
        Idiom::Alu32Roundtrip
    } else if k == 2 {
        Idiom::DualRefine
    } else if k == 3 {
        Idiom::NarrowingChain
    } else if k == 4 {
        Idiom::SpillFill
    } else if k == 5 {
        Idiom::NullCheck
    } else {
        Idiom::BoundedLoop
    }
}

/// As many draws of a hundred as `percent` says are an idiom, any of the seven; the
/// others are random programs of the lengths asked for.
pub proof fn mixtures_by_numbers(
    s: u64,
    min: int,
    max: int,
    percent: int,
    insns: Seq<BpfInsn>,
    behind: u64,
)
    requires
        generator::is_mixed(s, min, max, percent, insns, behind),
    ensures
        number(s, 0) % 100 < percent ==> ({
            let (body, t) = idiom::idiom_draw(ahead(s, 2), template(number(s, 1) % 7));
            insns == generator::framed(body) && behind == t
        }),
        number(s, 0) % 100 >= percent ==> generator::has_slots(
            insns,
            generator::program_draw(ahead(s, 1), min, max).0,
        ) && behind == generator::program_draw(ahead(s, 1), min, max).1,
{
    lemma_first(s);
    lemma_here(s, 0);
    lemma_here(s, 1);
}

} // verus!
