use rand_verifier::insn::{BpfInsn, MemSize};
use rand_verifier::liveness::{analyze, Liveness, NUM_REGS, STACK_SLOTS};


fn live_regs(l: &Liveness, pc: u32) -> Vec<u8> {
    let mask = l.live_regs_before(pc);
    (0..NUM_REGS as u8)
        .filter(|r| mask & (1 << r) != 0)
        .collect()
}

fn live_slots(l: &Liveness, pc: u32) -> Vec<usize> {
    let mask = l.live_stack_before(pc);
    (0..STACK_SLOTS).filter(|s| mask & (1 << s) != 0).collect()
}

#[test]
fn straight_line_reg_liveness() {
    // r1 = 5; r0 = r1; r2 = 7; exit
    // - r1 is read at insn 1, but written at insn 0 before that
    //   read → its pre-insn-0 value is dead (liveness is "read
    //   before written", kernel in = (out \ def) ∪ use)
    // - r0 is read at exit → live before insn 2 (and later)
    // - r2 is written at insn 2 but never read → dead everywhere
    let program = vec![
        BpfInsn::MovImm { dst: 1, imm: 5 },
        BpfInsn::MovReg { dst: 0, src: 1 },
        BpfInsn::MovImm { dst: 2, imm: 7 },
        BpfInsn::Exit,
    ];
    let l = analyze(&program);
    assert_eq!(live_regs(&l, 0), Vec::<u8>::new());
    assert_eq!(live_regs(&l, 1), vec![1]);
    assert_eq!(live_regs(&l, 2), vec![0]);
    assert_eq!(live_regs(&l, 3), vec![0]);
}

#[test]
fn alu_reads_dst_and_src() {
    // r1 = 1; r2 = 2; r1 += r2; exit — r1 (dst) and r2 (src) are
    // live before the add; r0 is live too (read at exit)
    let program = vec![
        BpfInsn::MovImm { dst: 1, imm: 1 },
        BpfInsn::MovImm { dst: 2, imm: 2 },
        BpfInsn::AddReg { dst: 1, src: 2 },
        BpfInsn::Exit,
    ];
    let l = analyze(&program);
    assert_eq!(live_regs(&l, 0), vec![0]);
    assert_eq!(live_regs(&l, 1), vec![0, 1]);
    assert_eq!(live_regs(&l, 2), vec![0, 1, 2]);
    assert_eq!(live_regs(&l, 3), vec![0]);
}

#[test]
fn call_clobbers_caller_saved() {
    // r6 = 5; call 7; r0 = r6; exit — r6 (callee-saved) survives
    // the call; r1..r5 are read (args) before the call and clobbered
    // after it
    let program = vec![
        BpfInsn::MovImm { dst: 6, imm: 5 },
        BpfInsn::Call { imm: 7 },
        BpfInsn::MovReg { dst: 0, src: 6 },
        BpfInsn::Exit,
    ];
    let l = analyze(&program);
    assert_eq!(live_regs(&l, 0), vec![1, 2, 3, 4, 5]);
    assert_eq!(live_regs(&l, 1), vec![1, 2, 3, 4, 5, 6]);
    // after the call only r6 is live before the mov (r0 is written
    // there and read at exit)
    assert_eq!(live_regs(&l, 2), vec![6]);
    assert_eq!(live_regs(&l, 3), vec![0]);
}

#[test]
fn exit_reads_r0() {
    // r0 = 42; exit — r0 is live before exit because exit reads it
    // (kernel BPF_EXIT: use = r0); before the mov it is dead (the
    // mov writes it first)
    let program = vec![BpfInsn::MovImm { dst: 0, imm: 42 }, BpfInsn::Exit];
    let l = analyze(&program);
    assert_eq!(live_regs(&l, 0), Vec::<u8>::new());
    assert_eq!(live_regs(&l, 1), vec![0]);
}

#[test]
fn stack_slot_liveness() {
    // r1 = 5; [r10-8] = r1; r2 = [r10-8]; exit
    // slot 0 is read at insn 2 and written at insn 1 → live before
    // insn 2 only (the write kills it before insn 1)
    let program = vec![
        BpfInsn::MovImm { dst: 1, imm: 5 },
        BpfInsn::StMem {
            src: 1,
            base: 10,
            offset: -8,
            size: MemSize::DW,
        },
        BpfInsn::LdMem {
            dst: 2,
            base: 10,
            offset: -8,
            size: MemSize::DW,
            sign_extend: false,
        },
        BpfInsn::Exit,
    ];
    let l = analyze(&program);
    assert_eq!(live_slots(&l, 0), Vec::<usize>::new());
    assert_eq!(live_slots(&l, 1), Vec::<usize>::new());
    assert_eq!(live_slots(&l, 2), vec![0]);
    assert_eq!(live_slots(&l, 3), Vec::<usize>::new());
}

#[test]
fn dead_stack_slot_not_live() {
    // r1 = 5; [r10-8] = r1; r1 = 7; exit — slot 0 is written but
    // never read → dead everywhere
    let program = vec![
        BpfInsn::MovImm { dst: 1, imm: 5 },
        BpfInsn::StMem {
            src: 1,
            base: 10,
            offset: -8,
            size: MemSize::DW,
        },
        BpfInsn::MovImm { dst: 1, imm: 7 },
        BpfInsn::Exit,
    ];
    let l = analyze(&program);
    assert_eq!(live_slots(&l, 0), Vec::<usize>::new());
}

#[test]
fn loop_back_edge_liveness() {
    // the counter loop: r0 = 0; r2 = 100; r1 = 0; r1 += 1;
    // if r1 < r2 goto -2; exit — r1/r2 live across the back edge
    let program = vec![
        BpfInsn::MovImm { dst: 0, imm: 0 },
        BpfInsn::MovImm { dst: 2, imm: 100 },
        BpfInsn::MovImm { dst: 1, imm: 0 },
        BpfInsn::AddImm { dst: 1, imm: 1 },
        BpfInsn::Jlt {
            dst: 1,
            src: 2,
            offset: -2,
        },
        BpfInsn::Exit,
    ];
    let l = analyze(&program);
    // before the increment: r1 is live (read by the add and the jlt),
    // r2 is live (read by the jlt), r0 is live (read at exit)
    assert_eq!(live_regs(&l, 3), vec![0, 1, 2]);
    // before the branch: r1 and r2 are live (read by the jlt)
    assert_eq!(live_regs(&l, 4), vec![0, 1, 2]);
    // r0 is live at exit
    assert_eq!(live_regs(&l, 5), vec![0]);
}

#[test]
fn indirect_base_is_conservative() {
    // r6 = r10; r6 += -8; r1 = [r6]; exit — the load's base is not
    // the frame pointer, so the analysis conservatively marks every
    // slot live before it
    let program = vec![
        BpfInsn::MovReg { dst: 6, src: 10 },
        BpfInsn::AddImm { dst: 6, imm: -8 },
        BpfInsn::LdMem {
            dst: 1,
            base: 6,
            offset: 0,
            size: MemSize::DW,
            sign_extend: false,
        },
        BpfInsn::Exit,
    ];
    let l = analyze(&program);
    assert_eq!(live_slots(&l, 2), (0..STACK_SLOTS).collect::<Vec<_>>());
}

#[test]
fn indirect_base_shifted_offset_is_conservative() {
    // r6 = r10; r6 += -8; r1 = [r6 - 8] — the real access is at
    // r10-16 (slot 1), but the static analysis cannot know the
    // base's offset, so EVERY slot must stay live — attributing
    // slot 0 here would let dead-slot cleaning erase slot 1 and
    // unsoundly prune a state whose slot-1 contents differ
    let program = vec![
        BpfInsn::MovReg { dst: 6, src: 10 },
        BpfInsn::AddImm { dst: 6, imm: -8 },
        BpfInsn::LdMem {
            dst: 1,
            base: 6,
            offset: -8,
            size: MemSize::DW,
            sign_extend: false,
        },
        BpfInsn::Exit,
    ];
    let l = analyze(&program);
    assert_eq!(live_slots(&l, 2), (0..STACK_SLOTS).collect::<Vec<_>>());
}

#[test]
fn indirect_base_write_kills_nothing() {
    // r6 = r10; r6 += -8; [r6] = r1; r2 = [r10-8]; exit — the
    // indirect store's target is unknown, so the analysis must NOT
    // kill any slot's liveness: slot 0 stays live because the
    // direct load at [r10-8] reads it
    let program = vec![
        BpfInsn::MovReg { dst: 6, src: 10 },
        BpfInsn::AddImm { dst: 6, imm: -8 },
        BpfInsn::StMem {
            src: 1,
            base: 6,
            offset: 0,
            size: MemSize::DW,
        },
        BpfInsn::LdMem {
            dst: 2,
            base: 10,
            offset: -8,
            size: MemSize::DW,
            sign_extend: false,
        },
        BpfInsn::Exit,
    ];
    let l = analyze(&program);
    // slot 0 is live before the indirect store (the direct load
    // after it reads slot 0); an all-slots write attribution would
    // kill it here
    assert_eq!(live_slots(&l, 2), vec![0]);
}
