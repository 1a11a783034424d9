//! Every idiom program passes the structural checks, whatever was drawn.

use vstd::prelude::*;

use crate::cfg;
use crate::flow;
use crate::fuzz::generator;
use crate::fuzz::idiom;
use crate::fuzz::idiom::Idiom;
use crate::fuzz::prng;
use crate::graph;
use crate::insn;
use crate::insn::{BpfInsn, MemSize};

verus! {

/// An instruction over R0 to R10 that is neither branch, call of a
/// subprogram nor exit.
spec fn is_plain(i: BpfInsn) -> bool {
    i.is_single() && i.regs_valid() && i.jump_offset() is None && !(i is Exit) && !(i is CallSub)
}

/// An instruction over R0 to R10 that may stand at `pc` of a program of
/// `len` instructions: plain, or a compare whose target lies in it.
spec fn is_step(i: BpfInsn, pc: int, len: int) -> bool {
    ||| is_plain(i)
    ||| i.is_single() && i.regs_valid() && i.is_compare() && !(i is Jmp) && !(i is Exit) && !(
    i is CallSub) && 0 <= pc + 1 + i.slot().off < len
}

/// Steps that fall through one into the other, and an exit behind them.
proof fn lemma_steps_valid(insns: Seq<BpfInsn>)
    requires
        insns.len() > 0,
        insns.last() is Exit,
        forall|i: int|
            0 <= i < insns.len() - 1 ==> is_step(#[trigger] insns[i], i, insns.len() as int),
    ensures
        insn::well_formed(insns),
        cfg::structurally_valid(insns),
{
    let len = insns.len() as int;
    assert(BpfInsn::Exit.regs_valid() && BpfInsn::Exit.jump_offset() is None) by {
        reveal(BpfInsn::slot);
    }
    assert forall|pc: int| 0 <= pc < len implies #[trigger] insn::well_formed_at(insns, pc) by {
        if pc < len - 1 {
            assert(is_step(insns[pc], pc, len));
        }
    }
    assert forall|pc: int| 0 <= pc < len implies #[trigger] cfg::targets_valid_at(insns, pc) by {
        if pc < len - 1 {
            assert(is_step(insns[pc], pc, len));
            if insns[pc].is_compare() {
                let t = flow::target(pc, insns[pc].slot().off as int);
                if t < len - 1 {
                    assert(is_step(insns[t], t, len));
                }
            }
        }
    }
    assert forall|pc: int| 0 <= pc < len implies #[trigger] graph::reaches(
        cfg::code_edges(insns),
        0,
        pc,
    ) by {
        lemma_steps_reach(insns, pc);
    }
}

proof fn lemma_steps_reach(insns: Seq<BpfInsn>, pc: int)
    requires
        0 <= pc < insns.len(),
        forall|i: int|
            0 <= i < insns.len() - 1 ==> is_step(#[trigger] insns[i], i, insns.len() as int),
    ensures
        graph::reaches(cfg::code_edges(insns), 0, pc),
    decreases pc,
{
    let e = cfg::code_edges(insns);
    if pc == 0 {
        graph::reaches_refl(e, 0);
    } else {
        lemma_steps_reach(insns, pc - 1);
        assert(is_step(insns[pc - 1], pc - 1, insns.len() as int));
        let list = flow::successor_list(insns, pc - 1);
        assert(list[0] == pc);
        assert(list.contains(pc));
        graph::reaches_step(e, 0, pc - 1, pc);
    }
}

proof fn lemma_add_sub_plain(s: u64, dst: u8, n: nat)
    requires
        dst <= 10,
    ensures
        idiom::add_sub_chain(s, dst, n).0.len() == n,
        forall|i: int| 0 <= i < n ==> is_plain(#[trigger] idiom::add_sub_chain(s, dst, n).0[i]),
    decreases n,
{
    if n > 0 {
        lemma_add_sub_plain(s, dst, (n - 1) as nat);
        reveal(BpfInsn::slot);
        let (head, t) = idiom::add_sub_chain(s, dst, (n - 1) as nat);
        assert(is_plain(idiom::add_sub_draw(t, dst).0));
        assert forall|i: int| 0 <= i < n implies is_plain(
            #[trigger] idiom::add_sub_chain(s, dst, n).0[i],
        ) by {
            if i < n - 1 {
                assert(idiom::add_sub_chain(s, dst, n).0[i] == head[i]);
            }
        }
    }
}

proof fn lemma_alu32_plain(s: u64, reg: u8, n: nat)
    requires
        reg <= 10,
    ensures
        idiom::alu32_chain(s, reg, n).0.len() == n,
        forall|i: int| 0 <= i < n ==> is_plain(#[trigger] idiom::alu32_chain(s, reg, n).0[i]),
    decreases n,
{
    if n > 0 {
        lemma_alu32_plain(s, reg, (n - 1) as nat);
        reveal(BpfInsn::slot);
        let (head, t) = idiom::alu32_chain(s, reg, (n - 1) as nat);
        assert(is_plain(idiom::alu32_draw(t, reg).0));
        assert forall|i: int| 0 <= i < n implies is_plain(
            #[trigger] idiom::alu32_chain(s, reg, n).0[i],
        ) by {
            if i < n - 1 {
                assert(idiom::alu32_chain(s, reg, n).0[i] == head[i]);
            }
        }
    }
}

/// The `i`-th compare of a narrowing chain leads to the use behind the chain.
spec fn is_narrow(insn: BpfInsn, n: int, i: int) -> bool {
    insn.is_single() && insn.regs_valid() && insn.is_compare() && !(insn is Jmp) && !(
    insn is Exit) && !(insn is CallSub) && insn.slot().off == n - i - 1
}

proof fn lemma_narrow_chain(s: u64, c: u8, imm: i32, n: int, k: nat)
    requires
        c <= 10,
        k <= n <= 6,
    ensures
        idiom::narrow_chain(s, c, imm, n, k).0.len() == k,
        forall|i: int|
            0 <= i < k ==> is_narrow(#[trigger] idiom::narrow_chain(s, c, imm, n, k).0[i], n, i),
    decreases k,
{
    if k > 0 {
        lemma_narrow_chain(s, c, imm, n, (k - 1) as nat);
        let (head, t) = idiom::narrow_chain(s, c, imm, n, (k - 1) as nat);
        let last = idiom::narrow_insn(t, c, imm, (n - k) as i16);
        assert(is_narrow(last, n, k - 1)) by {
            reveal(BpfInsn::slot);
        }
        assert forall|i: int| 0 <= i < k implies is_narrow(
            #[trigger] idiom::narrow_chain(s, c, imm, n, k).0[i],
            n,
            i,
        ) by {
            if i < k - 1 {
                assert(idiom::narrow_chain(s, c, imm, n, k).0[i] == head[i]);
            }
        }
    }
}

/// A compare over R0 to R10 with this offset.
spec fn is_compare_with(i: BpfInsn, offset: int) -> bool {
    i.is_single() && i.regs_valid() && i.is_compare() && !(i is Jmp) && !(i is Exit) && !(
    i is CallSub) && i.slot().off == offset
}

/// The fixed instructions of the templates.
proof fn lemma_fixed_insns(dst: u8, src: u8, imm: i32, offset: i16)
    requires
        dst <= 10,
        src <= 10,
    ensures
        is_plain(BpfInsn::MovImm { dst, imm }),
        is_plain(BpfInsn::MovReg { dst, src }),
        is_plain(BpfInsn::AddImm { dst, imm }),
        is_plain(BpfInsn::SubImm { dst, imm }),
        is_plain(BpfInsn::Call { imm }),
        is_plain(BpfInsn::StMem { src, base: 10, offset, size: MemSize::DW }),
        is_plain(
            BpfInsn::LdMem { dst, base: 10, offset, size: MemSize::DW, sign_extend: false },
        ),
        is_compare_with(BpfInsn::Jsgt { dst, src, offset }, offset as int),
        is_compare_with(BpfInsn::Jgt { dst, src, offset }, offset as int),
        is_compare_with(BpfInsn::Jne { dst, src, offset }, offset as int),
        is_compare_with(BpfInsn::Jlt { dst, src, offset }, offset as int),
{
    reveal(BpfInsn::slot);
}

proof fn lemma_overflow_valid(s: u64)
    ensures
        insn::well_formed(generator::framed(idiom::overflow_draw(s).0)),
        cfg::structurally_valid(generator::framed(idiom::overflow_draw(s).0)),
{
    let insns = generator::framed(idiom::overflow_draw(s).0);
    let s1 = prng::step(s);
    let s2 = prng::step(s1);
    let s3 = prng::step(s2);
    let n = (2 + prng::roll(s1, 5)) as nat;
    let reg = idiom::work(s2);
    lemma_add_sub_plain(s2, 0, n);
    lemma_add_sub_plain(prng::step(s3), reg, n);
    lemma_fixed_insns(0, reg, 0, 0);
    lemma_fixed_insns(0, 0, 7, 0);
    lemma_fixed_insns(reg, 0, idiom::large(s3), 0);
    let chain0 = idiom::add_sub_chain(s2, 0, n).0;
    let chain1 = idiom::add_sub_chain(prng::step(s3), reg, n).0;
    assert forall|i: int| 0 <= i < insns.len() - 1 implies is_step(
        #[trigger] insns[i],
        i,
        insns.len() as int,
    ) by {
        if 2 <= i < 2 + n {
            if prng::roll(s, 2) == 0 {
                assert(insns[i] == chain0[i - 2]);
            } else {
                assert(insns[i] == chain1[i - 2]);
            }
        }
    }
    lemma_steps_valid(insns);
}

proof fn lemma_alu32_valid(s: u64)
    ensures
        insn::well_formed(generator::framed(idiom::alu32_roundtrip_draw(s).0)),
        cfg::structurally_valid(generator::framed(idiom::alu32_roundtrip_draw(s).0)),
{
    let insns = generator::framed(idiom::alu32_roundtrip_draw(s).0);
    let s1 = prng::step(s);
    let s2 = prng::step(s1);
    let n = (1 + prng::roll(s2, 4)) as nat;
    let reg = idiom::work(s);
    lemma_alu32_plain(prng::step(s2), reg, n);
    lemma_fixed_insns(0, reg, 0, 0);
    lemma_fixed_insns(reg, 0, 1, 0);
    lemma_fixed_insns(reg, 0, idiom::ordinary(s1), 0);
    let chain = idiom::alu32_chain(prng::step(s2), reg, n).0;
    assert forall|i: int| 0 <= i < insns.len() - 1 implies is_step(
        #[trigger] insns[i],
        i,
        insns.len() as int,
    ) by {
        if 2 <= i < 2 + n {
            assert(insns[i] == chain[i - 2]);
        }
    }
    lemma_steps_valid(insns);
}

/// A narrowing chain calls for a value, compares it two to six times, and uses
/// it: every compare that is taken skips the rest, to the use.
pub proof fn narrowing_skips_to_the_use(s: u64)
    ensures
        ({
            let body = idiom::narrowing_draw(s).0;
            let n = body.len() - 4;
            &&& 2 <= n <= 6
            &&& body[0] == (BpfInsn::Call { imm: 7 })
            &&& body[1] is MovImm
            &&& forall|i: int|
                2 <= i < n + 2 ==> (#[trigger] body[i]).is_compare() && flow::target(
                    i,
                    body[i].jump_offset()->0 as int,
                ) == n + 2
            &&& body[n + 2] == (BpfInsn::MovReg { dst: 0, src: 0 })
            &&& body[n + 3] == BpfInsn::Exit
        }),
{
    let body = idiom::narrowing_draw(s).0;
    let s1 = prng::step(s);
    let s2 = prng::step(s1);
    let n = 2 + prng::roll(s2, 5);
    let (c, imm) = (idiom::work(s), idiom::ordinary(s1));
    lemma_narrow_chain(prng::step(s2), c, imm, n, n as nat);
    let chain = idiom::narrow_chain(prng::step(s2), c, imm, n, n as nat).0;
    assert forall|i: int| 2 <= i < n + 2 implies (#[trigger] body[i]).is_compare()
        && flow::target(i, body[i].jump_offset()->0 as int) == n + 2 by {
        assert(body[i] == chain[i - 2]);
    }
}

proof fn lemma_narrowing_valid(s: u64)
    ensures
        insn::well_formed(generator::framed(idiom::narrowing_draw(s).0)),
        cfg::structurally_valid(generator::framed(idiom::narrowing_draw(s).0)),
{
    let insns = generator::framed(idiom::narrowing_draw(s).0);
    let s1 = prng::step(s);
    let s2 = prng::step(s1);
    let n = 2 + prng::roll(s2, 5);
    let c = idiom::work(s);
    let imm = idiom::ordinary(s1);
    lemma_narrow_chain(prng::step(s2), c, imm, n, n as nat);
    lemma_fixed_insns(0, 0, 0, 0);
    lemma_fixed_insns(0, 0, 7, 0);
    lemma_fixed_insns(c, 0, imm, 0);
    let chain = idiom::narrow_chain(prng::step(s2), c, imm, n, n as nat).0;
    assert forall|i: int| 0 <= i < insns.len() - 1 implies is_step(
        #[trigger] insns[i],
        i,
        insns.len() as int,
    ) by {
        if 3 <= i < 3 + n {
            assert(insns[i] == chain[i - 3]);
        }
    }
    lemma_steps_valid(insns);
}

proof fn lemma_fixed_templates_valid(s: u64, kind: Idiom)
    requires
        kind is DualRefine || kind is SpillFill || kind is BoundedLoop,
    ensures
        insn::well_formed(generator::framed(idiom::idiom_draw(s, kind).0)),
        cfg::structurally_valid(generator::framed(idiom::idiom_draw(s, kind).0)),
{
    let insns = generator::framed(idiom::idiom_draw(s, kind).0);
    let s1 = prng::step(s);
    let s2 = prng::step(s1);
    let c = idiom::work(s);
    lemma_fixed_insns(0, 0, 0, 0);
    if kind is DualRefine {
        lemma_fixed_insns(0, c, 7, 2);
        lemma_fixed_insns(0, c, 7, 1);
        lemma_fixed_insns(c, 0, idiom::ordinary(s1), 0);
    } else if kind is SpillFill {
        let offset = (-8 * (1 + prng::roll(s1, 4))) as i16;
        lemma_fixed_insns(c, c, idiom::ordinary(s2), offset);
        lemma_fixed_insns(c, c, 0, offset);
        lemma_fixed_insns(0, c, 0, 0);
    } else {
        let cnt = idiom::work(s1);
        lemma_other_work(s2, cnt);
        let idx = idiom::other_work(s2, cnt).0;
        lemma_fixed_insns(cnt, 0, (1 + prng::roll(s, 100)) as i32, 0);
        lemma_fixed_insns(idx, cnt, 0, (-2) as i16);
        lemma_fixed_insns(idx, cnt, 1, 0);
        lemma_fixed_insns(0, idx, 0, 0);
    }
    assert(insns.len() == 7);
    assert forall|i: int| 0 <= i < insns.len() - 1 implies is_step(
        #[trigger] insns[i],
        i,
        insns.len() as int,
    ) by {
        if i == 0 {} else if i == 1 {} else if i == 2 {} else if i == 3 {} else if i == 4 {} else {}
    }
    lemma_steps_valid(insns);
}

/// The edge to the next instruction.
proof fn lemma_fall_edge(insns: Seq<BpfInsn>, pc: int)
    requires
        0 <= pc < insns.len() - 1,
        !(insns[pc] is Exit),
        !(insns[pc] is Jmp),
    ensures
        cfg::code_edges(insns)(pc, pc + 1),
{
    assert(flow::successor_list(insns, pc)[0] == pc + 1);
}

proof fn lemma_null_check_valid(s: u64)
    ensures
        insn::well_formed(generator::framed(idiom::null_check_draw(s).0)),
        cfg::structurally_valid(generator::framed(idiom::null_check_draw(s).0)),
{
    let insns = generator::framed(idiom::null_check_draw(s).0);
    let c = idiom::work(s);
    assert(BpfInsn::Exit.regs_valid() && BpfInsn::Exit.jump_offset() is None) by {
        reveal(BpfInsn::slot);
    }
    lemma_fixed_insns(0, c, 7, 1);
    lemma_fixed_insns(c, 0, 0, 0);
    lemma_fixed_insns(0, 0, 0, 0);
    lemma_fixed_insns(0, 0, 1, 0);
    assert(insns.len() == 7);
    assert(insns[0] == BpfInsn::MovImm { dst: 0, imm: 0 });
    assert(insns[1] == BpfInsn::Call { imm: 7 });
    assert(insns[2] == BpfInsn::MovImm { dst: c, imm: 0 });
    assert(insns[3] == BpfInsn::Jne { dst: 0, src: c, offset: 1 });
    assert(insns[4] == BpfInsn::Exit);
    assert(insns[5] == BpfInsn::MovImm { dst: 0, imm: 1 });
    assert(insns[6] == BpfInsn::Exit);
    let e = cfg::code_edges(insns);
    graph::reaches_refl(e, 0);
    lemma_fall_edge(insns, 0);
    graph::reaches_step(e, 0, 0, 1);
    lemma_fall_edge(insns, 1);
    graph::reaches_step(e, 0, 1, 2);
    lemma_fall_edge(insns, 2);
    graph::reaches_step(e, 0, 2, 3);
    lemma_fall_edge(insns, 3);
    graph::reaches_step(e, 0, 3, 4);
    assert(flow::jump_target(insns, 3) == seq![5int]);
    assert(flow::successor_list(insns, 3)[1] == 5);
    assert(e(3, 5));
    graph::reaches_step(e, 0, 3, 5);
    lemma_fall_edge(insns, 5);
    graph::reaches_step(e, 0, 5, 6);
    assert forall|pc: int| 0 <= pc < insns.len() implies #[trigger] insn::well_formed_at(
        insns,
        pc,
    ) by {
        if pc == 0 {} else if pc == 1 {} else if pc == 2 {} else if pc == 3 {} else if pc
            == 4 {} else if pc == 5 {} else {}
    }
    assert forall|pc: int| 0 <= pc < insns.len() implies #[trigger] cfg::targets_valid_at(
        insns,
        pc,
    ) by {
        if pc == 0 {} else if pc == 1 {} else if pc == 2 {} else if pc == 3 {} else if pc
            == 4 {} else if pc == 5 {} else {}
    }
    assert forall|pc: int| 0 <= pc < insns.len() implies #[trigger] graph::reaches(e, 0, pc) by {
        if pc == 0 {} else if pc == 1 {} else if pc == 2 {} else if pc == 3 {} else if pc
            == 4 {} else if pc == 5 {} else {}
    }
}

/// The program of every idiom, for every state of the generator, is
/// well-formed and passes the structural checks.
pub proof fn idiom_program_is_valid(s: u64, kind: Idiom)
    ensures
        insn::well_formed(generator::framed(idiom::idiom_draw(s, kind).0)),
        cfg::structurally_valid(generator::framed(idiom::idiom_draw(s, kind).0)),
{
    match kind {
        Idiom::OverflowChain => lemma_overflow_valid(s),
        Idiom::Alu32Roundtrip => lemma_alu32_valid(s),
        Idiom::NarrowingChain => lemma_narrowing_valid(s),
        Idiom::NullCheck => lemma_null_check_valid(s),
        _ => lemma_fixed_templates_valid(s, kind),
    }
}

/// A second register that is drawn is a work register and not the first.
pub proof fn lemma_other_work(s: u64, avoid: u8)
    ensures
        1 <= idiom::other_work(s, avoid).0 <= 9,
        idiom::other_work(s, avoid).0 != avoid,
    decreases idiom::draws_left(s, avoid),
{
    if idiom::work(s) == avoid {
        idiom::lemma_draws_left(s, avoid);
        lemma_other_work(prng::step(s), avoid);
    }
}

} // verus!
