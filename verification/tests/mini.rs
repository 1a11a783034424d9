use std::collections::{BTreeMap, BTreeSet};

use rand_verifier::cfg::check_structure;
use rand_verifier::concrete::{ConcreteReport, ConcreteVerdict};
use rand_verifier::diff::SideVerdict;
use rand_verifier::error::VerificationFailure;
use rand_verifier::fuzz::generator::{GenConfig, Generator};
use rand_verifier::fuzz::idiom::{Idiom, ALL_IDIOMS};
use rand_verifier::fuzz::insn_lib;
use rand_verifier::fuzz::oracle::{classify_env, concrete_side, ConcreteSide, Finding, SpecSide};
use rand_verifier::helper::helper_prototype;
use rand_verifier::insn::{decode_program, BpfInsn, MemSize};
use rand_verifier::klog::categorize_reason;
use rand_verifier::mini::{
    self, compute_prune_points, is_store_due, is_store_throttled, Domain, ExactLevel, ExitValue,
    VerifierLimits,
};

// ── A small abstract domain ─────────────────────────────────────────────────

/// What is known of a register or of a stack slot.
#[derive(Debug, Clone, Copy, PartialEq, Eq)]
enum Val {
    Uninit,
    Known(u64),
    Unknown,
    /// The context.
    Ctx,
    /// The frame pointer and an offset.
    Stack(i64),
}

impl Val {
    fn is_scalar(self) -> bool {
        matches!(self, Val::Known(_) | Val::Unknown)
    }
}

#[derive(Debug, Clone, Copy, PartialEq, Eq)]
struct State {
    regs: [Val; 11],
    /// Slot `k` is at offset `-8 * (k + 1)`.
    stack: [Val; 64],
}

fn initial() -> State {
    let mut regs = [Val::Uninit; 11];
    regs[1] = Val::Ctx;
    regs[10] = Val::Stack(0);
    State { regs, stack: [Val::Uninit; 64] }
}

fn fail<T>(pc: u32, message: &str) -> Result<T, VerificationFailure> {
    Err(VerificationFailure::new(pc, message))
}

fn read(pc: u32, s: &State, r: u8) -> Result<Val, VerificationFailure> {
    match s.regs[r as usize] {
        Val::Uninit => fail(pc, &format!("r{r} is uninitialized")),
        v => Ok(v),
    }
}

/// The stack slot behind `base + offset`.
fn slot(pc: u32, s: &State, base: u8, offset: i16) -> Result<Option<usize>, VerificationFailure> {
    match read(pc, s, base)? {
        Val::Stack(b) => {
            let at = b + offset as i64;
            if !(-512..=-8).contains(&at) || at % 8 != 0 {
                return fail(pc, &format!("invalid stack offset {at}"));
            }
            Ok(Some((-at / 8 - 1) as usize))
        }
        Val::Ctx => Ok(None),
        _ => fail(pc, "memory access through a scalar"),
    }
}

/// `dst op= b`.
fn alu(
    pc: u32,
    s: &State,
    dst: u8,
    b: Val,
    wide: bool,
    op: fn(u64, u64) -> u64,
    additive: i64,
) -> Result<State, VerificationFailure> {
    let a = read(pc, s, dst)?;
    let v = match (a, b) {
        (Val::Known(x), Val::Known(y)) => {
            if wide {
                Val::Known(op(x, y))
            } else {
                Val::Known(op(x as u32 as u64, y as u32 as u64) as u32 as u64)
            }
        }
        (Val::Stack(o), Val::Known(y)) if wide && additive != 0 => {
            Val::Stack(o.wrapping_add((y as i64).wrapping_mul(additive)))
        }
        (x, y) if x.is_scalar() && y.is_scalar() => Val::Unknown,
        _ => return fail(pc, "pointer arithmetic prohibited"),
    };
    let mut n = *s;
    n.regs[dst as usize] = v;
    Ok(n)
}

fn arsh(x: u64, y: u64) -> u64 {
    ((x as i64) >> (y & 63)) as u64
}

fn arsh32(x: u64, y: u64) -> u64 {
    ((x as u32 as i32) >> (y & 31)) as u32 as u64
}

fn lsh32(x: u64, y: u64) -> u64 {
    ((x as u32) << (y & 31)) as u64
}

fn rsh32(x: u64, y: u64) -> u64 {
    ((x as u32) >> (y & 31)) as u64
}

fn imm(i: i32) -> Val {
    Val::Known(i as i64 as u64)
}

/// Both outcomes of a comparison, or the one that is certain.
fn branch(
    pc: u32,
    s: &State,
    dst: u8,
    b: Val,
    offset: i16,
    holds: fn(u64, u64) -> bool,
) -> Result<Vec<(u32, State)>, VerificationFailure> {
    let a = read(pc, s, dst)?;
    let taken = (pc as i64 + 1 + offset as i64) as u32;
    Ok(match (a, b) {
        (Val::Known(x), Val::Known(y)) => {
            vec![(if holds(x, y) { taken } else { pc + 1 }, *s)]
        }
        _ => vec![(taken, *s), (pc + 1, *s)],
    })
}

/// The states behind an instruction: of a branch, the taken one first.
fn successors(
    pc: u32,
    insn: &BpfInsn,
    s: &State,
) -> Result<Vec<(u32, State)>, VerificationFailure> {
    let next = |n: State| Ok(vec![(pc + 1, n)]);
    let add = |x: u64, y: u64| x.wrapping_add(y);
    let sub = |x: u64, y: u64| x.wrapping_sub(y);
    let lsh = |x: u64, y: u64| x << (y & 63);
    let rsh = |x: u64, y: u64| x >> (y & 63);
    match *insn {
        BpfInsn::MovImm { dst, imm: i } => {
            let mut n = *s;
            n.regs[dst as usize] = imm(i);
            next(n)
        }
        BpfInsn::MovReg { dst, src } => {
            let v = read(pc, s, src)?;
            let mut n = *s;
            n.regs[dst as usize] = v;
            next(n)
        }
        BpfInsn::AddImm { dst, imm: i } => next(alu(pc, s, dst, imm(i), true, add, 1)?),
        BpfInsn::AddReg { dst, src } => next(alu(pc, s, dst, read(pc, s, src)?, true, add, 1)?),
        BpfInsn::SubImm { dst, imm: i } => next(alu(pc, s, dst, imm(i), true, sub, -1)?),
        BpfInsn::SubReg { dst, src } => next(alu(pc, s, dst, read(pc, s, src)?, true, sub, -1)?),
        BpfInsn::AndImm { dst, imm: i } => next(alu(pc, s, dst, imm(i), true, |x, y| x & y, 0)?),
        BpfInsn::AndReg { dst, src } => {
            next(alu(pc, s, dst, read(pc, s, src)?, true, |x, y| x & y, 0)?)
        }
        BpfInsn::OrImm { dst, imm: i } => next(alu(pc, s, dst, imm(i), true, |x, y| x | y, 0)?),
        BpfInsn::OrReg { dst, src } => {
            next(alu(pc, s, dst, read(pc, s, src)?, true, |x, y| x | y, 0)?)
        }
        BpfInsn::XorImm { dst, imm: i } => next(alu(pc, s, dst, imm(i), true, |x, y| x ^ y, 0)?),
        BpfInsn::XorReg { dst, src } => {
            next(alu(pc, s, dst, read(pc, s, src)?, true, |x, y| x ^ y, 0)?)
        }
        BpfInsn::LshImm { dst, imm: i } => next(alu(pc, s, dst, imm(i), true, lsh, 0)?),
        BpfInsn::LshReg { dst, src } => next(alu(pc, s, dst, read(pc, s, src)?, true, lsh, 0)?),
        BpfInsn::RshImm { dst, imm: i } => next(alu(pc, s, dst, imm(i), true, rsh, 0)?),
        BpfInsn::RshReg { dst, src } => next(alu(pc, s, dst, read(pc, s, src)?, true, rsh, 0)?),
        BpfInsn::ArshImm { dst, imm: i } => next(alu(pc, s, dst, imm(i), true, arsh, 0)?),
        BpfInsn::ArshReg { dst, src } => next(alu(pc, s, dst, read(pc, s, src)?, true, arsh, 0)?),
        BpfInsn::Add32Imm { dst, imm: i } => next(alu(pc, s, dst, imm(i), false, add, 0)?),
        BpfInsn::Add32Reg { dst, src } => next(alu(pc, s, dst, read(pc, s, src)?, false, add, 0)?),
        BpfInsn::Sub32Imm { dst, imm: i } => next(alu(pc, s, dst, imm(i), false, sub, 0)?),
        BpfInsn::Sub32Reg { dst, src } => next(alu(pc, s, dst, read(pc, s, src)?, false, sub, 0)?),
        BpfInsn::And32Imm { dst, imm: i } => next(alu(pc, s, dst, imm(i), false, |x, y| x & y, 0)?),
        BpfInsn::And32Reg { dst, src } => {
            next(alu(pc, s, dst, read(pc, s, src)?, false, |x, y| x & y, 0)?)
        }
        BpfInsn::Or32Imm { dst, imm: i } => next(alu(pc, s, dst, imm(i), false, |x, y| x | y, 0)?),
        BpfInsn::Or32Reg { dst, src } => {
            next(alu(pc, s, dst, read(pc, s, src)?, false, |x, y| x | y, 0)?)
        }
        BpfInsn::Xor32Imm { dst, imm: i } => next(alu(pc, s, dst, imm(i), false, |x, y| x ^ y, 0)?),
        BpfInsn::Xor32Reg { dst, src } => {
            next(alu(pc, s, dst, read(pc, s, src)?, false, |x, y| x ^ y, 0)?)
        }
        BpfInsn::Lsh32Imm { dst, imm: i } => next(alu(pc, s, dst, imm(i), false, lsh32, 0)?),
        BpfInsn::Lsh32Reg { dst, src } => {
            next(alu(pc, s, dst, read(pc, s, src)?, false, lsh32, 0)?)
        }
        BpfInsn::Rsh32Imm { dst, imm: i } => next(alu(pc, s, dst, imm(i), false, rsh32, 0)?),
        BpfInsn::Rsh32Reg { dst, src } => {
            next(alu(pc, s, dst, read(pc, s, src)?, false, rsh32, 0)?)
        }
        BpfInsn::Arsh32Imm { dst, imm: i } => next(alu(pc, s, dst, imm(i), false, arsh32, 0)?),
        BpfInsn::Arsh32Reg { dst, src } => {
            next(alu(pc, s, dst, read(pc, s, src)?, false, arsh32, 0)?)
        }
        BpfInsn::LdMem { dst, base, offset, .. } => {
            let v = match slot(pc, s, base, offset)? {
                Some(k) => match s.stack[k] {
                    Val::Uninit => {
                        return fail(
                            pc,
                            &format!(
                                "stack slot at offset {} is uninitialized (write before read)",
                                -8 * (k as i64 + 1)
                            ),
                        )
                    }
                    v => v,
                },
                None => Val::Unknown,
            };
            let mut n = *s;
            n.regs[dst as usize] = v;
            next(n)
        }
        BpfInsn::StMem { src, base, offset, .. } => {
            let v = read(pc, s, src)?;
            let mut n = *s;
            if let Some(k) = slot(pc, s, base, offset)? {
                n.stack[k] = v;
            }
            next(n)
        }
        BpfInsn::StMemImm { imm: i, base, offset, .. } => {
            let mut n = *s;
            if let Some(k) = slot(pc, s, base, offset)? {
                n.stack[k] = imm(i);
            }
            next(n)
        }
        BpfInsn::Jmp { offset } => Ok(vec![((pc as i64 + 1 + offset as i64) as u32, *s)]),
        BpfInsn::Call { imm: id } => match helper_prototype(id) {
            None => fail(pc, &format!("unknown helper {id}")),
            Some(h) if !h.args.is_empty() => fail(pc, "helper arg 1: not a map"),
            Some(_) => {
                let mut n = *s;
                n.regs[0] = Val::Unknown;
                for r in 1..6 {
                    n.regs[r] = Val::Uninit;
                }
                next(n)
            }
        },
        BpfInsn::Jeq { dst, src, offset } => {
            branch(pc, s, dst, read(pc, s, src)?, offset, |x, y| x == y)
        }
        BpfInsn::Jne { dst, src, offset } => {
            branch(pc, s, dst, read(pc, s, src)?, offset, |x, y| x != y)
        }
        BpfInsn::Jgt { dst, src, offset } => {
            branch(pc, s, dst, read(pc, s, src)?, offset, |x, y| x > y)
        }
        BpfInsn::Jge { dst, src, offset } => {
            branch(pc, s, dst, read(pc, s, src)?, offset, |x, y| x >= y)
        }
        BpfInsn::Jlt { dst, src, offset } => {
            branch(pc, s, dst, read(pc, s, src)?, offset, |x, y| x < y)
        }
        BpfInsn::Jle { dst, src, offset } => {
            branch(pc, s, dst, read(pc, s, src)?, offset, |x, y| x <= y)
        }
        BpfInsn::Jsgt { dst, src, offset } => {
            branch(pc, s, dst, read(pc, s, src)?, offset, |x, y| x as i64 > y as i64)
        }
        BpfInsn::Jsge { dst, src, offset } => {
            branch(pc, s, dst, read(pc, s, src)?, offset, |x, y| x as i64 >= y as i64)
        }
        BpfInsn::Jslt { dst, src, offset } => {
            branch(pc, s, dst, read(pc, s, src)?, offset, |x, y| (x as i64) < (y as i64))
        }
        BpfInsn::Jsle { dst, src, offset } => {
            branch(pc, s, dst, read(pc, s, src)?, offset, |x, y| x as i64 <= y as i64)
        }
        BpfInsn::JeqImm { dst, imm: i, offset } => {
            branch(pc, s, dst, imm(i), offset, |x, y| x == y)
        }
        BpfInsn::JneImm { dst, imm: i, offset } => {
            branch(pc, s, dst, imm(i), offset, |x, y| x != y)
        }
        BpfInsn::JgtImm { dst, imm: i, offset } => branch(pc, s, dst, imm(i), offset, |x, y| x > y),
        BpfInsn::JgeImm { dst, imm: i, offset } => {
            branch(pc, s, dst, imm(i), offset, |x, y| x >= y)
        }
        BpfInsn::JltImm { dst, imm: i, offset } => branch(pc, s, dst, imm(i), offset, |x, y| x < y),
        BpfInsn::JleImm { dst, imm: i, offset } => {
            branch(pc, s, dst, imm(i), offset, |x, y| x <= y)
        }
        BpfInsn::JsgtImm { dst, imm: i, offset } => {
            branch(pc, s, dst, imm(i), offset, |x, y| x as i64 > y as i64)
        }
        BpfInsn::JsgeImm { dst, imm: i, offset } => {
            branch(pc, s, dst, imm(i), offset, |x, y| x as i64 >= y as i64)
        }
        BpfInsn::JsltImm { dst, imm: i, offset } => {
            branch(pc, s, dst, imm(i), offset, |x, y| (x as i64) < (y as i64))
        }
        BpfInsn::JsleImm { dst, imm: i, offset } => {
            branch(pc, s, dst, imm(i), offset, |x, y| x as i64 <= y as i64)
        }
        _ => fail(pc, "unsupported instruction"),
    }
}

fn clean(s: &State, regs: u16, slots: u64) -> State {
    let mut n = *s;
    for r in 0..11 {
        if regs & (1 << r) == 0 {
            n.regs[r] = Val::Uninit;
        }
    }
    for k in 0..64 {
        if slots & (1u64 << k) == 0 {
            n.stack[k] = Val::Uninit;
        }
    }
    n
}

/// Whether what was explored covers what arrives.
fn covers(old: Val, new: Val) -> bool {
    old == Val::Uninit || old == new || (old == Val::Unknown && new.is_scalar())
}

fn equal(old: &State, new: &State, level: ExactLevel, live: u16) -> bool {
    let ok = |a: Val, b: Val| match level {
        ExactLevel::Exact => a == b,
        ExactLevel::NotExact => covers(a, b),
    };
    (0..11).all(|r| live & (1 << r) == 0 || ok(old.regs[r], new.regs[r]))
        && (0..64).all(|k| ok(old.stack[k], new.stack[k]))
}

fn exit_value(s: &State) -> ExitValue {
    match s.regs[0] {
        Val::Uninit => ExitValue::Uninit,
        v if v.is_scalar() => ExitValue::Scalar,
        _ => ExitValue::Other,
    }
}

fn verify_mini_with_states(
    program: &[BpfInsn],
    heads: &[u32],
    limits: &VerifierLimits,
) -> Result<(usize, BTreeMap<u32, Vec<State>>), VerificationFailure> {
    let domain = Domain {
        initial: initial(),
        clean,
        maybe_looping: |a: &State, b: &State| a.regs == b.regs,
        equal,
        successors,
        exit_value,
    };
    let (count, states) = mini::verify_mini_with_states(program, heads, limits, &domain)?;
    let mut map = BTreeMap::new();
    for (pc, list) in states.into_iter().enumerate() {
        if !list.is_empty() {
            map.insert(pc as u32, list);
        }
    }
    Ok((count, map))
}

fn verify_mini_with_limits(
    program: &[BpfInsn],
    heads: &[u32],
    limits: &VerifierLimits,
) -> Result<usize, VerificationFailure> {
    let domain = Domain {
        initial: initial(),
        clean,
        maybe_looping: |a: &State, b: &State| a.regs == b.regs,
        equal,
        successors,
        exit_value,
    };
    mini::verify_mini_with_limits(program, heads, limits, &domain)
}

fn verify_mini(program: &[BpfInsn], heads: &[u32]) -> Result<usize, VerificationFailure> {
    let domain = Domain {
        initial: initial(),
        clean,
        maybe_looping: |a: &State, b: &State| a.regs == b.regs,
        equal,
        successors,
        exit_value,
    };
    mini::verify_mini(program, heads, &domain)
}

/// The targets of the backward jumps of a structurally valid program.
fn back_edge_targets(program: &[BpfInsn]) -> Vec<u32> {
    assert!(check_structure(program), "structurally invalid");
    let mut heads = Vec::new();
    for (pc, insn) in program.iter().enumerate() {
        let slot = insn_lib::encode(insn);
        let offset = i16::from_le_bytes([slot[2], slot[3]]);
        if insn.is_control_flow() && offset < 0 {
            heads.push((pc as i64 + 1 + offset as i64) as u32);
        }
    }
    heads.sort_unstable();
    heads.dedup();
    heads
}

/// A concrete run: the domain on known values, with zero for what is unknown.
fn run_concretely(program: &[BpfInsn]) -> ConcreteReport {
    let mut s = initial();
    let mut pc = 0u32;
    for _ in 0..10_000 {
        let verdict = |verdict| ConcreteReport { verdict, violations: vec![] };
        if pc as usize >= program.len() {
            return verdict(ConcreteVerdict::Unsafe);
        }
        if program[pc as usize] == BpfInsn::Exit {
            return verdict(match exit_value(&s) {
                ExitValue::Scalar => ConcreteVerdict::Safe,
                _ => ConcreteVerdict::Unsafe,
            });
        }
        match successors(pc, &program[pc as usize], &s) {
            Ok(next) => {
                pc = next[0].0;
                s = next[0].1;
                for r in s.regs.iter_mut() {
                    if *r == Val::Unknown {
                        *r = Val::Known(0);
                    }
                }
            }
            Err(_) => return verdict(ConcreteVerdict::Unsafe),
        }
    }
    ConcreteReport { verdict: ConcreteVerdict::Inconclusive, violations: vec![] }
}

// ── The exploration ─────────────────────────────────────────────────────────


#[test]
fn verify_mini_straight_line() {
    // r0 = 42; exit → R0 is set before exit
    let program = vec![BpfInsn::MovImm { dst: 0, imm: 42 }, BpfInsn::Exit];
    assert!(verify_mini(&program, &[]).is_ok());
}

#[test]
fn verify_mini_error_carries_real_insn_idx() {
    // r0 = 1; r0 += r2; exit — r2 is uninitialized at insn 1
    let program = vec![
        BpfInsn::MovImm { dst: 0, imm: 1 },
        BpfInsn::AddReg { dst: 0, src: 2 },
        BpfInsn::Exit,
    ];
    let err = verify_mini(&program, &[]).unwrap_err();
    assert_eq!(err.insn_idx, 1);
    assert!(err.to_text().contains("at insn 1"));
}

#[test]
fn verify_mini_stack_error_carries_real_insn_idx() {
    // r0 = 1; r0 = [r10-8]; exit — uninitialized stack slot at insn 1
    let program = vec![
        BpfInsn::MovImm { dst: 0, imm: 1 },
        BpfInsn::LdMem {
            dst: 0,
            base: 10,
            offset: -8,
            size: MemSize::DW,
            sign_extend: false,
        },
        BpfInsn::Exit,
    ];
    let err = verify_mini(&program, &[]).unwrap_err();
    assert_eq!(err.insn_idx, 1);
}

#[test]
fn verify_mini_exit_r0_uninit_rejected() {
    // exit with R0 never written → REJECT
    let program = vec![BpfInsn::Exit];
    let err = verify_mini(&program, &[]).unwrap_err();
    assert!(err.message.contains("r0 is uninitialized at exit"));
}

#[test]
fn verify_mini_exit_r0_pointer_rejected() {
    // spill the ctx pointer, reload it into R0, exit — the kernel
    // rejects a pointer in R0 at exit ("R0 leaks addr as return
    // value" unprivileged / "R0 is not a known value" privileged,
    // check_return_code); the mini must mirror the rule
    let program = vec![
        BpfInsn::StMem {
            src: 1,
            base: 10,
            offset: -8,
            size: MemSize::DW,
        },
        BpfInsn::LdMem {
            dst: 0,
            base: 10,
            offset: -8,
            size: MemSize::DW,
            sign_extend: false,
        },
        BpfInsn::MovImm { dst: 5, imm: 0 },
        BpfInsn::Exit,
    ];
    let err = verify_mini(&program, &[]).unwrap_err();
    assert_eq!(err.insn_idx, 3);
    assert!(err.message.contains("r0 is not a scalar value at exit"));
}

#[test]
fn verify_mini_diamond_both_paths() {
    // both paths must reach exit with R0 set:
    // 0: r1 = 5
    // 1: r2 = 5
    // 2: jeq r1, r2, +2 → taken 5, fall 3
    // 3: r0 = 1
    // 4: jmp +1 → 6
    // 5: r0 = 2
    // 6: exit
    let program = vec![
        BpfInsn::MovImm { dst: 1, imm: 5 },
        BpfInsn::MovImm { dst: 2, imm: 5 },
        BpfInsn::Jeq {
            dst: 1,
            src: 2,
            offset: 2,
        },
        BpfInsn::MovImm { dst: 0, imm: 1 },
        BpfInsn::Jmp { offset: 1 },
        BpfInsn::MovImm { dst: 0, imm: 2 },
        BpfInsn::Exit,
    ];
    assert!(verify_mini(&program, &[]).is_ok());
}

#[test]
fn verify_mini_feasible_path_missing_r0_rejected() {
    // r1=1 vs r2=2: jeq is always false (is_branch_taken), so only the
    // fall path runs — and it reaches exit without writing R0 → REJECT:
    // 0: r1 = 1
    // 1: r2 = 2
    // 2: jeq r1, r2, +1 → taken 4 (pruned), fall 3
    // 3: jmp +1 → 5
    // 4: r0 = 42
    // 5: exit
    let program = vec![
        BpfInsn::MovImm { dst: 1, imm: 1 },
        BpfInsn::MovImm { dst: 2, imm: 2 },
        BpfInsn::Jeq {
            dst: 1,
            src: 2,
            offset: 1,
        },
        BpfInsn::Jmp { offset: 1 },
        BpfInsn::MovImm { dst: 0, imm: 42 },
        BpfInsn::Exit,
    ];
    let err = verify_mini(&program, &[]).unwrap_err();
    assert!(err.message.contains("r0 is uninitialized at exit"));
}

#[test]
fn verify_mini_infeasible_taken_branch_pruned() {
    // jeq with disjoint constants: the taken branch (exit directly, R0
    // unset) is infeasible and must be pruned, otherwise this would reject
    // 0: r1 = 7
    // 1: r2 = 5
    // 2: jeq r1, r2, +1 → taken 4 (infeasible), fall 3
    // 3: r0 = 1
    // 4: exit
    let program = vec![
        BpfInsn::MovImm { dst: 1, imm: 7 },
        BpfInsn::MovImm { dst: 2, imm: 5 },
        BpfInsn::Jeq {
            dst: 1,
            src: 2,
            offset: 1,
        },
        BpfInsn::MovImm { dst: 0, imm: 1 },
        BpfInsn::Exit,
    ];
    assert!(verify_mini(&program, &[]).is_ok());

    // the expansion itself yields a single (fall) successor
    let mut state = initial();
    state = successors(0, &BpfInsn::MovImm { dst: 1, imm: 7 }, &state).unwrap()[0].1;
    state = successors(1, &BpfInsn::MovImm { dst: 2, imm: 5 }, &state).unwrap()[0].1;
    let nexts = successors(
        2,
        &BpfInsn::Jeq {
            dst: 1,
            src: 2,
            offset: 1,
        },
        &state,
    )
    .unwrap();
    assert_eq!(nexts.len(), 1);
    assert_eq!(nexts[0].0, 3);
}

#[test]
fn verify_mini_unknown_helper() {
    let program = vec![BpfInsn::Call { imm: 99 }, BpfInsn::Exit];
    let err = verify_mini(&program, &[]).unwrap_err();
    assert!(err.message.contains("unknown helper"));
}

#[test]
fn verify_mini_base_helpers_accepted() {
    // the kernel's bpf_base_func_proto family (no-argument scalar
    // returns) — ktime_get_ns (5), get_smp_processor_id (8),
    // get_numa_node_id (10), ktime_get_boot_ns (125),
    // ktime_get_coarse_ns (160), ktime_get_tai_ns (208) — must be
    // accepted like get_prandom_u32 (7); the kernel accepts them
    // even under unprivileged-equivalent rules
    for imm in [5, 7, 8, 10, 125, 160, 208] {
        let program = vec![BpfInsn::Call { imm }, BpfInsn::Exit];
        assert!(
            verify_mini(&program, &[]).is_ok(),
            "helper {imm} should be accepted"
        );
    }
}

#[test]
fn verify_mini_jmp_out_of_range() {
    // branch target beyond the program → defensive error
    let program = vec![BpfInsn::Jmp { offset: 100 }, BpfInsn::Exit];
    let err = verify_mini(&program, &[]).unwrap_err();
    assert!(err.message.contains("pc out of program range"));
}

#[test]
fn verify_mini_stack_pointer_in_branch() {
    // pointer arithmetic + stack roundtrip inside a diamond, both paths OK:
    // 0: r10 += -8
    // 1: r2 = 7
    // 2: [r10-8] = r2
    // 3: r1 = 1
    // 4: r3 = 1
    // 5: jeq r1, r3, +2 → taken 8, fall 6
    // 6: r0 = [r10-8]
    // 7: jmp +1 → 9
    // 8: r0 = [r10-8]
    // 9: exit
    let program = vec![
        BpfInsn::AddImm { dst: 10, imm: -8 },
        BpfInsn::MovImm { dst: 2, imm: 7 },
        BpfInsn::StMem {
            src: 2,
            base: 10,
            offset: -8,
            size: MemSize::DW,
        },
        BpfInsn::MovImm { dst: 1, imm: 1 },
        BpfInsn::MovImm { dst: 3, imm: 1 },
        BpfInsn::Jeq {
            dst: 1,
            src: 3,
            offset: 2,
        },
        BpfInsn::LdMem {
            dst: 0,
            base: 10,
            offset: -8,
            size: MemSize::DW,
            sign_extend: false,
        },
        BpfInsn::Jmp { offset: 1 },
        BpfInsn::LdMem {
            dst: 0,
            base: 10,
            offset: -8,
            size: MemSize::DW,
            sign_extend: false,
        },
        BpfInsn::Exit,
    ];
    assert!(verify_mini(&program, &[]).is_ok());
}

// ── Bounded loops ─────────────────────────────────────────────

#[test]
fn verify_mini_bounded_counter_loop() {
    // r0 = 0; r1 = 0; loop: r1 += 1; if r1 < 100
    // goto loop; exit — 100 iterations, all within the loop budget
    let program = vec![
        BpfInsn::MovImm { dst: 0, imm: 0 },
        BpfInsn::MovImm { dst: 2, imm: 100 },
        BpfInsn::MovImm { dst: 1, imm: 0 },
        BpfInsn::AddImm { dst: 1, imm: 1 },
        BpfInsn::Jlt {
            dst: 1,
            src: 2,
            offset: -2, // target = 4 + 1 - 2 = 3 (loop head)
        },
        BpfInsn::Exit,
    ];
    assert!(verify_mini(&program, &[3]).is_ok());
}

#[test]
fn verify_mini_bounded_loop_without_declared_head() {
    // a genuinely bounded loop terminates even without a declared
    // loop head: the counter exits by its value range, so the
    // exploration completes on its own (the head budget only bounds
    // loops that never converge)
    let program = vec![
        BpfInsn::MovImm { dst: 0, imm: 0 },
        BpfInsn::MovImm { dst: 2, imm: 100 },
        BpfInsn::MovImm { dst: 1, imm: 0 },
        BpfInsn::AddImm { dst: 1, imm: 1 },
        BpfInsn::Jlt {
            dst: 1,
            src: 2,
            offset: -2,
        },
        BpfInsn::Exit,
    ];
    assert!(verify_mini_with_limits(&program, &[], &VerifierLimits::default()).is_ok());
}

#[test]
fn verify_mini_non_converging_loop_rejected() {
    // the counter never stops changing and the loop never exits:
    // the loop-head budget fires → REJECT with the kernel's message
    let program = vec![
        BpfInsn::MovImm { dst: 0, imm: 0 },
        BpfInsn::MovImm { dst: 1, imm: 0 },
        BpfInsn::AddImm { dst: 1, imm: 1 },
        BpfInsn::Jeq {
            dst: 1,
            src: 1,
            offset: -2, // always taken back to pc 2 (loop head)
        },
        BpfInsn::Exit,
    ];
    let err = verify_mini(&program, &[2]).unwrap_err();
    assert!(
        err.message.contains("back-edge exceeds max loops"),
        "{}",
        err.message
    );
}

#[test]
fn verify_mini_loop_read_error_before_loop_machinery() {
    // the loop's branch reads an uninitialized register: the read
    // error fires on the first analysis of the branch insn, before
    // any loop detection or budget machinery (r2 is uninit at the
    // jeq; convergence itself is covered by the bounded-loop tests)
    let program = vec![
        BpfInsn::MovImm { dst: 0, imm: 0 },
        BpfInsn::MovImm { dst: 1, imm: 0 },
        BpfInsn::AddImm { dst: 1, imm: 1 },
        BpfInsn::Jeq {
            dst: 1,
            src: 2,
            offset: -2,
        },
        BpfInsn::Exit,
    ];
    let err = verify_mini(&program, &[2]).unwrap_err();
    assert!(err.message.contains("uninitialized"), "{}", err.message);
}

#[test]
fn verify_mini_loop_limits_are_bounded() {
    // a tiny loop budget rejects even a small counter loop
    let program = vec![
        BpfInsn::MovImm { dst: 0, imm: 0 },
        BpfInsn::MovImm { dst: 2, imm: 100 },
        BpfInsn::MovImm { dst: 1, imm: 0 },
        BpfInsn::AddImm { dst: 1, imm: 1 },
        BpfInsn::Jlt {
            dst: 1,
            src: 2,
            offset: -2,
        },
        BpfInsn::Exit,
    ];
    let tight = VerifierLimits {
        max_states: 1024,
        max_steps: 100_000,
        max_loop_iterations: 10,
    };
    // (the default also works: 512 < max_states 1024 fires first)
    let err = verify_mini_with_limits(&program, &[3], &tight).unwrap_err();
    assert!(err.message.contains("back-edge exceeds max loops"));
}

// ── Branch verdict (v0.3) ────────────────────────────────────────────────

#[test]
fn verify_mini_jgt_always_taken_prunes_fall() {
    // 35 > 10 is always true: the fall path (exit without R0) must be
    // pruned, otherwise verification would reject:
    // 0: r1 = 35
    // 1: r2 = 10
    // 2: jgt r1, r2, +1 → taken 4, fall 3 (pruned)
    // 3: exit
    // 4: r0 = 1
    // 5: exit
    let program = vec![
        BpfInsn::MovImm { dst: 1, imm: 35 },
        BpfInsn::MovImm { dst: 2, imm: 10 },
        BpfInsn::Jgt {
            dst: 1,
            src: 2,
            offset: 1,
        },
        BpfInsn::Exit,
        BpfInsn::MovImm { dst: 0, imm: 1 },
        BpfInsn::Exit,
    ];
    assert!(verify_mini(&program, &[]).is_ok());
}

#[test]
fn verify_mini_jgt_never_taken_prunes_taken() {
    // 5 > 40 is always false: the taken path (exit without R0) must be
    // pruned:
    // 0: r1 = 5
    // 1: r2 = 40
    // 2: jgt r1, r2, +1 → taken 4 (pruned), fall 3
    // 3: r0 = 1
    // 4: exit
    let program = vec![
        BpfInsn::MovImm { dst: 1, imm: 5 },
        BpfInsn::MovImm { dst: 2, imm: 40 },
        BpfInsn::Jgt {
            dst: 1,
            src: 2,
            offset: 1,
        },
        BpfInsn::MovImm { dst: 0, imm: 1 },
        BpfInsn::Exit,
    ];
    assert!(verify_mini(&program, &[]).is_ok());
}

// ── Kernel-style pruning ─────────────────────────────────────

/// The kernel-style diamond shape (26 insns, join at pc 25):
/// both paths are long enough (≥ 8 insns and ≥ 2 jumps between
/// stores) for the add_new_state heuristic to store checkpoints at
/// the join, so the tests exercise the pruning machinery itself.
/// `taken_r0` / `fall_r0` are the paths' r0 values; both paths also
/// write a *dead* r7 (taken: 2, fall: 1) that is never read after
/// the join:
/// 0-5: r1..r6 = 1 (filler)
/// 6: jeq r10, r10, +9 → taken 16, fall 7
/// 7: r0 = fall_r0 ; 8: r7 = 1 ; 9-14: filler
/// 15: jmp +6 → 22
/// 16: r0 = taken_r0 ; 17: r7 = 2 ; 18-20: filler
/// 21: jmp +3 → 25
/// 22-23: filler ; 24: jmp +0 → 25
/// 25: exit
fn diamond(taken_r0: i32, fall_r0: i32) -> Vec<BpfInsn> {
    vec![
        BpfInsn::MovImm { dst: 1, imm: 1 },
        BpfInsn::MovImm { dst: 2, imm: 1 },
        BpfInsn::MovImm { dst: 3, imm: 1 },
        BpfInsn::MovImm { dst: 4, imm: 1 },
        BpfInsn::MovImm { dst: 5, imm: 1 },
        BpfInsn::MovImm { dst: 6, imm: 1 },
        BpfInsn::Jeq {
            dst: 10,
            src: 10,
            offset: 9,
        },
        BpfInsn::MovImm {
            dst: 0,
            imm: fall_r0,
        },
        BpfInsn::MovImm { dst: 7, imm: 1 },
        BpfInsn::MovImm { dst: 9, imm: 1 },
        BpfInsn::MovImm { dst: 5, imm: 5 },
        BpfInsn::MovImm { dst: 6, imm: 6 },
        BpfInsn::MovImm { dst: 4, imm: 4 },
        BpfInsn::MovImm { dst: 3, imm: 3 },
        BpfInsn::MovImm { dst: 2, imm: 2 },
        BpfInsn::Jmp { offset: 6 },
        BpfInsn::MovImm {
            dst: 0,
            imm: taken_r0,
        },
        BpfInsn::MovImm { dst: 7, imm: 2 },
        BpfInsn::MovImm { dst: 9, imm: 2 },
        BpfInsn::MovImm { dst: 8, imm: 2 },
        BpfInsn::MovImm { dst: 5, imm: 5 },
        BpfInsn::Jmp { offset: 3 },
        BpfInsn::MovImm { dst: 6, imm: 6 },
        BpfInsn::MovImm { dst: 4, imm: 4 },
        BpfInsn::Jmp { offset: 0 },
        BpfInsn::Exit,
    ]
}

#[test]
fn verify_mini_dedup_join_state() {
    // both branches rejoin at pc 25 with the same state; the second
    // arrival is pruned against the taken path's checkpoint
    // (states_equal), so exactly ONE checkpoint is stored at the
    // join — without the kernel-style pruning a second checkpoint
    // would be stored there
    let program = diamond(1, 1);
    // checkpoints: the taken path stores at the join (pc 25) and
    // the fall path at its own jump target (pc 22, also a prune
    // point) — 2 total. The dedup shows in the coverage map: the
    // fall's arrival at the join is pruned, so only ONE state is
    // analyzed at pc 25.
    let (count, states) =
        verify_mini_with_states(&program, &[], &VerifierLimits::default()).unwrap();
    assert_eq!(count, 2);
    assert_eq!(states.get(&25).unwrap().len(), 1);
}

#[test]
fn verify_mini_dedup_distinct_join_states_not_merged() {
    // different r0 values (live at exit) → the join states differ
    // and both are stored
    let program = diamond(2, 1);
    // different r0 values (live at exit) → the join states differ,
    // so the fall's arrival is ANALYZED (not pruned): TWO states at
    // the join. The add_new_state heuristic still gates the third
    // store (fewer than 8 insns since the fall's own pc 22
    // checkpoint), so the checkpoint count stays 2 — like the
    // kernel's total_states.
    let (count, states) =
        verify_mini_with_states(&program, &[], &VerifierLimits::default()).unwrap();
    assert_eq!(count, 2);
    assert_eq!(states.get(&25).unwrap().len(), 2);
}

#[test]
fn verify_mini_dead_register_difference_still_dedups() {
    // the paths write different r7 values, but r7 is never read
    // after the join: the liveness masks drop it from the
    // comparison (the kernel's live_regs_before behavior), so the
    // join states are still equal and the second arrival is pruned
    // (diamond(1, 1) has the built-in dead r7 = 2 vs 1 difference)
    let program = diamond(1, 1);
    let (_, states) =
        verify_mini_with_states(&program, &[], &VerifierLimits::default()).unwrap();
    // the dead r7 difference does not block the dedup: only ONE
    // state is analyzed at the join
    assert_eq!(states.get(&25).unwrap().len(), 1);
}

#[test]
fn verify_mini_live_register_difference_blocks_dedup() {
    // the same shape, but r7 is read on the shared tail after the
    // join (25: r0 = r7; 26: exit): the paths' different r7 values
    // are live at the join, so the join states differ and both are
    // stored
    let mut program = diamond(1, 1);
    program.push(BpfInsn::MovReg { dst: 0, src: 7 });
    program.push(BpfInsn::Exit);
    // retarget the jumps to the new join at 26
    program[21] = BpfInsn::Jmp { offset: 4 };
    program[24] = BpfInsn::Jmp { offset: 1 };
    let (count, states) =
        verify_mini_with_states(&program, &[], &VerifierLimits::default()).unwrap();
    // r7 is live at the join → the two arrivals differ → both are
    // analyzed (TWO states at the join pc 26)
    assert_eq!(count, 2);
    assert_eq!(states.get(&26).unwrap().len(), 2);
}

#[test]
fn verify_mini_taken_branch_processed_first() {
    // the kernel processes the taken branch before the fall-through
    // (check_cond_jmp_op pushes the fall-through): with different
    // r0 values the join stores both checkpoints, and the coverage
    // map records the taken path's arrival (r0 = 2) first
    let program = diamond(2, 1);
    let (count, states) =
        verify_mini_with_states(&program, &[], &VerifierLimits::default()).unwrap();
    assert_eq!(count, 2);
    let join = states.get(&25).expect("join pc recorded");
    assert_eq!(join.len(), 2);
    assert_eq!(
        join[0].regs[0],
        Val::Known(2),
        "the taken path (r0 = 2) is analyzed first"
    );
    assert_eq!(join[1].regs[0], Val::Known(1));
}

#[test]
fn verify_mini_indirect_base_liveness_unsoundness_regression() {
    // the load at
    // [r6-8] (r6 = r10-8) really reads r10-16 (slot 1), but the
    // static liveness analysis cannot know the base's offset. The
    // taken path writes slot 1, the fall path does not; the fall's
    // read at the join must be REJECTED. Attributing the read to
    // the immediate offset alone (slot 0) would mark slot 1 dead,
    // clean it from the stored state, prune the fall path at the
    // join, and falsely ACCEPT the program:
    // 0: r6 = r10
    // 1: r6 += -8
    // 2: jeq r10, r10, +2 → taken 5, fall 3
    // 3: r0 = 0 ; 4: jmp +4 → 9
    // 5: r7 = 42 ; 6: [r10-16] = r7 ; 7: r0 = 0 ; 8: jmp +0 → 9
    // 9: r2 = [r6-8]  ← r10-16: uninit on the fall path → REJECT
    // 10: r0 = r2 ; 11: exit
    let program = vec![
        BpfInsn::MovReg { dst: 6, src: 10 },
        BpfInsn::AddImm { dst: 6, imm: -8 },
        BpfInsn::Jeq {
            dst: 10,
            src: 10,
            offset: 2,
        },
        BpfInsn::MovImm { dst: 0, imm: 0 },
        BpfInsn::Jmp { offset: 4 },
        BpfInsn::MovImm { dst: 7, imm: 42 },
        BpfInsn::StMem {
            src: 7,
            base: 10,
            offset: -16,
            size: MemSize::DW,
        },
        BpfInsn::MovImm { dst: 0, imm: 0 },
        BpfInsn::Jmp { offset: 0 },
        BpfInsn::LdMem {
            dst: 2,
            base: 6,
            offset: -8,
            size: MemSize::DW,
            sign_extend: false,
        },
        BpfInsn::MovReg { dst: 0, src: 2 },
        BpfInsn::Exit,
    ];
    let heads = back_edge_targets(&program);
    let err = verify_mini(&program, &heads).unwrap_err();
    assert!(err.message.contains("uninitialized"), "{}", err.message);
}

#[test]
fn verify_mini_prandom_branch() {
    // end-to-end range program: prandom yields an unknown scalar, then a
    // branch refines it:
    // 0: call 7         → R0 = [MIN, MAX]
    // 1: r1 = 0
    // 2: jeq r0, r1, +1 → taken 4, fall 3
    // 3: exit           (R0 = [MIN, MAX])
    // 4: exit           (R0 = [0, 0])
    let program = vec![
        BpfInsn::Call { imm: 7 },
        BpfInsn::MovImm { dst: 1, imm: 0 },
        BpfInsn::Jeq {
            dst: 0,
            src: 1,
            offset: 1,
        },
        BpfInsn::Exit,
        BpfInsn::Exit,
    ];
    // both branches reach exit with R0 set (scalar in both cases)
    assert!(verify_mini(&program, &[]).is_ok());
}

// ── Verifier limits (v0.3) ───────────────────────────────────────────────

#[test]
fn verify_mini_limits_default_ok() {
    // the default limits accept normal programs
    let program = vec![BpfInsn::MovImm { dst: 0, imm: 1 }, BpfInsn::Exit];
    assert!(verify_mini(&program, &[]).is_ok());
}

#[test]
fn verify_mini_max_states_exceeded() {
    // max_states bounds the stored checkpoints: a bounded counter
    // loop stores one checkpoint per iteration at its prune point
    // (after the add_new_state threshold), so a tight budget rejects
    // it while the default budget accepts it
    let program = vec![
        BpfInsn::MovImm { dst: 0, imm: 0 },
        BpfInsn::MovImm { dst: 2, imm: 100 },
        BpfInsn::MovImm { dst: 1, imm: 0 },
        BpfInsn::AddImm { dst: 1, imm: 1 },
        BpfInsn::Jlt {
            dst: 1,
            src: 2,
            offset: -2,
        },
        BpfInsn::Exit,
    ];
    // the kernel's in-progress store throttle (20 jmps / 100 insns
    // since the last store) keeps loop checkpoints sparse: the
    // 100-iteration loop stores 5, so a budget of 4 rejects it
    let tight = VerifierLimits {
        max_states: 4,
        max_steps: 100_000,
        max_loop_iterations: 4096,
    };
    let err = verify_mini_with_limits(&program, &[3], &tight).unwrap_err();
    assert!(
        err.message
            .contains("verification complexity limit exceeded")
    );
    assert!(err.message.contains("max_states"));

    // with enough room the same program is accepted
    let roomy = VerifierLimits {
        max_states: 1024,
        max_steps: 100_000,
        max_loop_iterations: 4096,
    };
    assert!(verify_mini_with_limits(&program, &[3], &roomy).is_ok());
}

#[test]
fn verify_mini_max_steps_exceeded() {
    let program = vec![BpfInsn::MovImm { dst: 0, imm: 1 }, BpfInsn::Exit];
    let limits = VerifierLimits {
        max_states: 100,
        max_steps: 1,
        max_loop_iterations: 4096,
    };
    let err = verify_mini_with_limits(&program, &[], &limits).unwrap_err();
    assert!(
        err.message
            .contains("verification complexity limit exceeded")
    );
    assert!(err.message.contains("max_steps"));
}

#[test]
fn verify_mini_limits_defaults() {
    // sane defaults: generous enough for the corpus, small enough to
    // catch runaway exploration
    let limits = VerifierLimits::default();
    assert_eq!(limits.max_states, 1024);
    assert_eq!(limits.max_steps, 100_000);
    assert_eq!(limits.max_loop_iterations, 256);
}

#[test]
fn verify_mini_helper_clobber_detected() {
    // reusing an argument register after a call is an error:
    // 0: call 7   → R1..R5 invalidated
    // 1: r0 = r1  → R1 is uninitialized → REJECT
    // 2: exit
    let program = vec![
        BpfInsn::Call { imm: 7 },
        BpfInsn::MovReg { dst: 0, src: 1 },
        BpfInsn::Exit,
    ];
    let err = verify_mini(&program, &[]).unwrap_err();
    assert!(err.message.contains("r1 is uninitialized"));
}

#[test]
fn verify_mini_helper_preserves_callee_saved() {
    // a callee-saved register survives the call:
    // 0: r6 = 5
    // 1: call 7
    // 2: r0 = r6  → preserved → OK
    // 3: exit
    let program = vec![
        BpfInsn::MovImm { dst: 6, imm: 5 },
        BpfInsn::Call { imm: 7 },
        BpfInsn::MovReg { dst: 0, src: 6 },
        BpfInsn::Exit,
    ];
    assert!(verify_mini(&program, &[]).is_ok());
}


/// A subsumed state at a loop pc whose successor loops back onto
/// itself is a no-progress (infinite) loop. Regression: the old
/// subsumption pruning used to hide it — the kernel rejects such
/// programs with "infinite loop detected" (r0 = prandom();
/// if r0 >= 0x7fffffff goto -2).
#[test]
fn subsumed_fixed_point_loop_detected() {
    let program = vec![
        BpfInsn::Call { imm: 7 }, // r0 = prandom() — unknown scalar
        BpfInsn::MovImm { dst: 3, imm: 42 },
        BpfInsn::JgeImm {
            dst: 0,
            imm: 2147483647,
            offset: -2, // r0 >= 0x7fffffff → loop; r0 never changes
        },
        BpfInsn::Jle {
            dst: 0,
            src: 3,
            offset: 1,
        },
        BpfInsn::Exit,
        BpfInsn::MovImm { dst: 4, imm: 42 },
        BpfInsn::Jeq {
            dst: 0,
            src: 4,
            offset: 1,
        },
        BpfInsn::Exit,
        BpfInsn::Exit,
    ];
    let loop_heads = back_edge_targets(&program);
    let err = verify_mini(&program, &loop_heads).unwrap_err();
    assert!(err.message.contains("infinite loop"), "{}", err.message);
}

/// A bounded narrowing loop must still converge (no false
/// infinite-loop detection).
#[test]
fn bounded_narrowing_loop_still_accepted() {
    // r2 = 3; loop: r2 -= 1; if r2 > 0 goto -2; r0 = 0; exit
    let program = vec![
        BpfInsn::MovImm { dst: 2, imm: 3 },
        BpfInsn::SubImm { dst: 2, imm: 1 },
        BpfInsn::JgtImm {
            dst: 2,
            imm: 0,
            offset: -2,
        },
        BpfInsn::MovImm { dst: 0, imm: 0 },
        BpfInsn::Exit,
    ];
    let loop_heads = back_edge_targets(&program);
    assert!(verify_mini(&program, &loop_heads).is_ok());
}

// ── Idioms and campaigns ────────────────────────────────────────────────────

fn gen_idiom(seed: u64, idiom: Idiom) -> Vec<BpfInsn> {
    Generator::new(seed).gen_idiom_program(idiom)
}

/// Every idiom (multiple seeds) is accepted and runs to its end.
#[test]
fn idiom_verdict_reproduction() {
    for idiom in ALL_IDIOMS {
        for seed in 0..5 {
            let insns = gen_idiom(seed, idiom);
            let outcome = verify_mini(&insns, &back_edge_targets(&insns));
            assert!(outcome.is_ok(), "{idiom:?} seed {seed}: {outcome:?}");
            let report = run_concretely(&insns);
            assert_eq!(concrete_side(&report), ConcreteSide::Safe, "{idiom:?} seed {seed}");
            assert!(report.violations.is_empty(), "{idiom:?} seed {seed}");
        }
    }
}

/// One program through generation and verification, with the sides that a
/// classification takes.
struct Case {
    bytes: Vec<u8>,
    verdict: Result<usize, VerificationFailure>,
    mini: SideVerdict,
    mini_reason: Option<String>,
    report: ConcreteReport,
}

fn judge(bytes: &[u8]) -> Case {
    let insns = decode_program(bytes).expect("decodes");
    let verdict = verify_mini(&insns, &back_edge_targets(&insns));
    let (mini, mini_reason) = match &verdict {
        Ok(_) => (SideVerdict::Accept, None),
        Err(f) => (
            SideVerdict::Reject { category: categorize_reason(&f.message) },
            Some(f.message.clone()),
        ),
    };
    let report = run_concretely(&insns);
    Case { bytes: bytes.to_vec(), verdict, mini, mini_reason, report }
}

fn run_case(seed: u64) -> Case {
    let mut g = Generator::new(seed);
    let insns = g.gen_mixed_program(&GenConfig::default(), 30);
    judge(&insn_lib::encode_program(&insns))
}

/// A program that is accepted and fails concretely is the loud classification,
/// and nothing panics.
#[test]
fn campaign_invariants() {
    for seed in 0..200u64 {
        let case = run_case(seed);
        let f = classify_env(
            Some(&case.report),
            &format!("seed-{seed}"),
            &case.mini,
            case.mini_reason.as_deref(),
            &SideVerdict::Skipped,
            false,
            SpecSide::Inconclusive,
        );
        let bug = case.mini == SideVerdict::Accept
            && concrete_side(&case.report) == ConcreteSide::Unsafe;
        assert_eq!(f == Finding::RvSoundnessBug, bug, "seed {seed}: {f:?}");
    }
}

/// The whole pipeline is deterministic: same seed, identical program bytes,
/// verdict and concrete report.
#[test]
fn campaign_deterministic_stream() {
    for seed in 0..20u64 {
        let a = run_case(seed);
        let b = run_case(seed);
        assert_eq!(a.bytes, b.bytes, "seed {seed}: program bytes");
        assert_eq!(a.verdict, b.verdict, "seed {seed}: verdict");
        assert_eq!(a.report, b.report, "seed {seed}: concrete report");
    }
}

/// The mixed mode (30% idioms) covers every supported opcode family over a fixed
/// seed set.
#[test]
fn campaign_opcode_coverage() {
    let mut seen = BTreeSet::new();
    for seed in 0..500u64 {
        let mut g = Generator::new(seed);
        let insns = g.gen_mixed_program(&GenConfig::default(), 30);
        for insn in &insns {
            seen.insert(insn_lib::opcode_family(insn));
        }
    }
    for family in [
        "alu64",
        "alu32",
        "cmp_eq",
        "cmp_unsigned",
        "cmp_signed",
        "stack",
        "helper",
        "jmp",
        "exit",
    ] {
        assert!(seen.contains(family), "family '{family}' never generated");
    }
}

/// A finding reproduces its classification from its bytes (with a kernel that
/// accepts).
#[test]
fn campaign_finding_replay() {
    let mut replayed = 0;
    for seed in 0..200u64 {
        let case = run_case(seed);
        let name = format!("seed-{seed}");
        let finding = |c: &Case| {
            classify_env(
                Some(&c.report),
                &name,
                &c.mini,
                c.mini_reason.as_deref(),
                &SideVerdict::Accept,
                false,
                SpecSide::Inconclusive,
            )
        };
        let f = finding(&case);
        if !f.is_finding() {
            continue;
        }
        let again = judge(&case.bytes);
        assert_eq!(case.verdict, again.verdict, "seed {seed}: verdict changed");
        assert_eq!(f, finding(&again), "seed {seed}: classification changed");
        replayed += 1;
    }
    assert!(replayed > 0, "no findings in the fixed-seed campaign");
}

/// Generation and verification never panic and every program decodes.
#[test]
fn campaign_smoke_no_panic() {
    for seed in 0..100u64 {
        for _ in 0..3 {
            let case = run_case(seed);
            assert_eq!(case.bytes.len() % 8, 0);
        }
    }
}

// ── When states are remembered ──────────────────────────────────────────────

#[test]
fn states_are_stored_sparsely() {
    assert!(is_store_due(8, 2));
    assert!(!is_store_due(7, 2));
    assert!(!is_store_due(8, 1));
    assert!(is_store_throttled(99, 19));
    assert!(!is_store_throttled(100, 0));
    assert!(!is_store_throttled(0, 20));
}

#[test]
fn prune_points_are_branches_and_jump_targets() {
    // 0: r0 = 0 ; 1: if r0 == 0 goto 3 ; 2: goto 4 ; 3: r0 = 1 ; 4: exit
    let program = vec![
        BpfInsn::MovImm { dst: 0, imm: 0 },
        BpfInsn::JeqImm { dst: 0, imm: 0, offset: 1 },
        BpfInsn::Jmp { offset: 1 },
        BpfInsn::MovImm { dst: 0, imm: 1 },
        BpfInsn::Exit,
    ];
    assert_eq!(compute_prune_points(&program), vec![false, true, false, false, true]);
}

// ── The verdict ─────────────────────────────────────────────────────────────

/// The counter loop makes a hundred turns. A state is remembered at the third
/// arrival at the branch, and then at every twentieth.
#[test]
fn verdict_of_a_counter_loop_is_determined() {
    let program = vec![
        BpfInsn::MovImm { dst: 0, imm: 0 },
        BpfInsn::MovImm { dst: 2, imm: 100 },
        BpfInsn::MovImm { dst: 1, imm: 0 },
        BpfInsn::AddImm { dst: 1, imm: 1 },
        BpfInsn::Jlt { dst: 1, src: 2, offset: -2 },
        BpfInsn::Exit,
    ];
    let limits = VerifierLimits::default();
    let (count, states) = verify_mini_with_states(&program, &[3], &limits).unwrap();
    assert_eq!(count, 5);
    assert_eq!(states[&3].len(), 100);
    assert_eq!(states[&4].len(), 100);
    assert_eq!(states[&5].len(), 1);
    let (again, same) = verify_mini_with_states(&program, &[3], &limits).unwrap();
    assert_eq!(again, count);
    assert!(same == states);
    // one arrival fewer than it takes
    let steps = states.values().map(|list| list.len()).sum::<usize>();
    let short = VerifierLimits { max_steps: steps - 1, ..limits };
    let err = verify_mini_with_limits(&program, &[3], &short).unwrap_err();
    assert_eq!(err.insn_idx, 5);
    assert_eq!(
        err.message,
        format!("verification complexity limit exceeded (max_steps {})", steps - 1)
    );
    let enough = VerifierLimits { max_steps: steps, ..limits };
    assert_eq!(verify_mini_with_limits(&program, &[3], &enough), Ok(5));
}
