use std::collections::BTreeSet;

use rand_verifier::cfg::check_structure;
use rand_verifier::concrete::{ConcreteReport, ConcreteVerdict, CoverageViolation};
use rand_verifier::diff::SideVerdict;
use rand_verifier::fuzz::generator::{GenConfig, Generator};
use rand_verifier::fuzz::insn_lib::encode_program;
use rand_verifier::fuzz::oracle::{ConcreteSide, Finding, SpecSide};
use rand_verifier::fuzz::prng::SplitMix64;
use rand_verifier::fuzz::reduce::ddmin::{ddmin, OracleCache};
use rand_verifier::fuzz::reduce::driver::{
    json_escape, reduce_finding, reduce_program, ReduceConfig, Reduction,
};
use rand_verifier::fuzz::reduce::fixup::delete_insns;
use rand_verifier::fuzz::reduce::operand::operand_candidates;
use rand_verifier::fuzz::reduce::passes::{
    dead_code, decode, failure_anchor, simplify_dead_side, slice_to_anchor, MiniRun,
};
use rand_verifier::fuzz::reduce::replay::{
    evaluate_bytes, is_kernel_dependent, load_and_replay, load_finding, meta_value, parse_finding,
    parse_side, parse_spec_side, replay_check, side_str, Baseline, FindingSpec, Invariant, KernelAnswer,
    MiniVerdict, ReduceError, Sides,
};
use rand_verifier::insn::{decode_program, parse_insn, BpfInsn};
use rand_verifier::klog::ReasonCategory;

// ── Programs and a small verifier ───────────────────────────────────────────

/// The eight bytes of one slot.
fn insn_bytes(op: u8, dst: u8, src: u8, off: i16, imm: i32) -> [u8; 8] {
    let o = off.to_le_bytes();
    let i = imm.to_le_bytes();
    [op, (src << 4) | (dst & 0x0f), o[0], o[1], i[0], i[1], i[2], i[3]]
}

fn prog_bytes(insns: &[[u8; 8]]) -> Vec<u8> {
    insns.iter().flatten().copied().collect()
}

/// Why a program is rejected: the instruction, the category and the message.
type Rejection = (u32, ReasonCategory, String);

/// Checks the structure of a program and that no path reads a register before
/// it is written.
fn verdict(bytes: &[u8]) -> Option<Rejection> {
    let other = |pc: u32, m: &str| Some((pc, ReasonCategory::Other, m.to_string()));
    let insns = match decode_program(bytes) {
        Ok(insns) => insns,
        Err((at, e)) => return other(at as u32, &e.message()),
    };
    if !check_structure(&insns) {
        return other(0, "invalid structure");
    }
    let mut seen = BTreeSet::new();
    // r1 and r10 are set at entry
    let mut work = vec![(0usize, 0b100_0000_0010u16)];
    while let Some((pc, set)) = work.pop() {
        if pc >= insns.len() || !seen.insert((pc, set)) {
            continue;
        }
        let b = &bytes[8 * pc..8 * pc + 8];
        let (op, dst, src) = (b[0], b[1] & 0x0f, b[1] >> 4);
        let off = i16::from_le_bytes([b[2], b[3]]) as i64;
        let class = op & 0x07;
        let by_reg = op & 0x08 != 0;
        let mut reads = Vec::new();
        let mut writes = set;
        match class {
            0x04 | 0x07 => {
                if op & 0xf0 != 0xb0 {
                    reads.push(dst);
                }
                if by_reg {
                    reads.push(src);
                }
                writes |= 1 << dst;
            }
            0x01 => {
                reads.push(src);
                writes |= 1 << dst;
            }
            0x03 => {
                reads.push(dst);
                reads.push(src);
            }
            0x05 if op == 0x95 => reads.push(0),
            0x05 if op == 0x85 => writes = (writes & !0b11_1110) | 1,
            0x05 if op != 0x05 => {
                reads.push(dst);
                if by_reg {
                    reads.push(src);
                }
            }
            _ => {}
        }
        for r in reads {
            if set & (1 << r) == 0 {
                return Some((
                    pc as u32,
                    ReasonCategory::UninitRead,
                    format!("register r{r} is uninitialized"),
                ));
            }
        }
        let target = (pc as i64 + 1 + off) as usize;
        match (class, op) {
            (0x05, 0x95) => {}
            (0x05, 0x05) => work.push((target, writes)),
            (0x05, 0x85) => work.push((pc + 1, writes)),
            (0x05, _) => {
                work.push((pc + 1, writes));
                work.push((target, writes));
            }
            _ => work.push((pc + 1, writes)),
        }
    }
    None
}

/// The program is rejected for the read of r4, and for nothing else.
fn r4_uninit_oracle(bytes: &[u8]) -> bool {
    match verdict(bytes) {
        Some((_, _, m)) => m.contains("register r4 is uninitialized"),
        None => false,
    }
}

fn anchor_of(bytes: &[u8]) -> Option<u32> {
    let mini = match verdict(bytes) {
        Some((insn_idx, _, _)) => MiniRun::Rejected { insn_idx },
        None => MiniRun::Passed,
    };
    failure_anchor(mini, None)
}

/// The sides of a program without a kernel.
fn sides_without_kernel(bytes: &[u8]) -> Result<Sides, ReduceError> {
    let (mini, run) = match verdict(bytes) {
        Some((_, category, message)) => (
            MiniVerdict::Unsafe { category, message },
            ConcreteVerdict::Unsafe,
        ),
        None => (MiniVerdict::Safe, ConcreteVerdict::Safe),
    };
    let report = ConcreteReport { verdict: run, violations: vec![] };
    evaluate_bytes(Ok(mini), Some(&report), KernelAnswer::NotAsked, SpecSide::Inconclusive)
}

fn replay(meta: &str, bytes: &[u8], strict: bool) -> Result<Baseline, ReduceError> {
    load_and_replay(
        Ok(meta.to_string()),
        Ok(bytes.to_vec()),
        "finding/prog.bin",
        &sides_without_kernel,
        strict,
    )
    .map(|(baseline, _)| baseline)
}

fn reduce(meta: &str, bytes: &[u8], config: &ReduceConfig) -> Result<Reduction, ReduceError> {
    reduce_finding(
        Ok(meta.to_string()),
        Ok(bytes.to_vec()),
        "finding/prog.bin",
        &sides_without_kernel,
        &anchor_of,
        config,
    )
}

/// The offset of a branch.
fn branch_offset(insn: &BpfInsn) -> Option<i16> {
    let b = rand_verifier::fuzz::insn_lib::encode(insn);
    if insn.is_control_flow() && *insn != BpfInsn::Exit {
        Some(i16::from_le_bytes([b[2], b[3]]))
    } else {
        None
    }
}

/// A padded program whose failure is the uninit r4 read.
fn padded(extra: usize) -> Vec<u8> {
    padded_program(extra)
}
/// A padded program whose minimal core is `[r4 -= r0; exit]`
/// (removing either instruction changes the failure reason).
fn padded_program(pad: usize) -> Vec<u8> {
    let mut insns: Vec<[u8; 8]> = Vec::new();
    for i in 0..pad {
        insns.push(insn_bytes(0xb7, 1, 0, 0, i as i32 + 1)); // r1 = i+1
    }
    insns.push(insn_bytes(0x1f, 4, 0, 0, 0)); // r4 -= r0 (uninit)
    insns.push(insn_bytes(0xb7, 0, 0, 0, 1)); // r0 = 1
    insns.push(insn_bytes(0x95, 0, 0, 0, 0)); // exit
    prog_bytes(&insns)
}

#[test]
fn ddmin_reduces_to_known_minimal_core() {
    let bytes = padded_program(20);
    let mut cache = OracleCache::new(0); // unlimited
    let mut oracle = r4_uninit_oracle;
    let out = ddmin(&bytes, &mut cache, &mut oracle).unwrap();
    // exactly [r4 -= r0; exit] — 1-minimal
    assert_eq!(out.len(), 16, "{:?}", out);
    assert!(oracle(&out));
    // the minimal core still fails for the r4 read
    assert!(r4_uninit_oracle(&out));
    // and no single instruction can be removed
    for i in 0..(out.len() / 8) {
        let removed = delete_insns(&out, &[i as u32]).unwrap();
        assert!(!r4_uninit_oracle(&removed), "insn {i} should be essential");
    }
}

#[test]
fn ddmin_padding_variants() {
    // padding before, interleaved and with duplicates — all must
    // collapse to the same minimal core
    for pad in [0usize, 1, 5, 32] {
        let bytes = padded_program(pad);
        let mut cache = OracleCache::new(0);
        let mut oracle = r4_uninit_oracle;
        let out = ddmin(&bytes, &mut cache, &mut oracle).unwrap();
        assert_eq!(out.len(), 16, "pad {pad}");
    }
}

#[test]
fn ddmin_cache_avoids_re_evaluation() {
    // identical padding instructions produce duplicate byte
    // streams under deletion — the cache must absorb them
    let bytes = padded_program(40);
    let mut cache = OracleCache::new(0);
    let mut oracle = r4_uninit_oracle;
    let out = ddmin(&bytes, &mut cache, &mut oracle).unwrap();
    assert_eq!(out.len(), 16);
    assert!(
        cache.hits > 0,
        "expected cache hits, checks={} hits={}",
        cache.checks,
        cache.hits
    );
    // and the cache size equals the miss count
    assert_eq!(cache.results.len(), cache.checks);
}

#[test]
fn ddmin_budget_stops_and_returns_best_so_far() {
    // a tiny budget must stop the search and return a program that
    // still satisfies the oracle (the original, if nothing was
    // tried yet)
    let bytes = padded_program(10);
    let mut cache = OracleCache::new(3);
    let mut oracle = r4_uninit_oracle;
    let out = ddmin(&bytes, &mut cache, &mut oracle).unwrap();
    assert!(r4_uninit_oracle(&out), "best-so-far must stay valid");
    assert!(cache.budget_exhausted());
    assert_eq!(cache.checks, 3);
}

/// Eight moves without a jump; the first one carries the number 100.
fn eight_moves() -> Vec<u8> {
    let insns: Vec<[u8; 8]> = (0..8).map(|i| insn_bytes(0xb7, 1, 0, 0, 100 + i)).collect();
    prog_bytes(&insns)
}

fn has_first_move(bytes: &[u8]) -> bool {
    bytes.chunks_exact(8).any(|c| c == insn_bytes(0xb7, 1, 0, 0, 100))
}

#[test]
fn ddmin_best_so_far_for_each_budget() {
    // the program, its second half, its first half (accepted), then a
    // quarter that is rejected and one that is accepted
    let bytes = eight_moves();
    for (budget, left) in [(1, 64), (2, 64), (3, 32), (4, 32), (5, 16), (6, 16), (7, 8)] {
        let mut cache = OracleCache::new(budget);
        let mut oracle = has_first_move;
        let out = ddmin(&bytes, &mut cache, &mut oracle).unwrap();
        assert_eq!(out, bytes[..left].to_vec(), "budget {budget}");
        assert_eq!(cache.checks, budget);
        for (program, accepted) in &cache.results {
            assert!(!accepted || out.len() <= program.len());
        }
    }
}

#[test]
fn ddmin_spends_its_budget_on_deletions() {
    let bytes = eight_moves();
    let mut cache = OracleCache::new(5);
    let mut oracle = has_first_move;
    ddmin(&bytes, &mut cache, &mut oracle).unwrap();
    let asked: Vec<(Vec<u8>, bool)> = vec![
        (bytes.clone(), true),
        (bytes[32..].to_vec(), false),
        (bytes[..32].to_vec(), true),
        (bytes[16..32].to_vec(), false),
        (bytes[..16].to_vec(), true),
    ];
    assert_eq!(cache.results, asked);
}

#[test]
fn reduce_program_keeps_the_best_when_the_budget_is_spent() {
    let bytes = eight_moves();
    let mut oracle = has_first_move;
    let (out, timeline, cache) = reduce_program(&bytes, 3, &mut oracle, &|_: &[u8]| None);
    assert_eq!(out, bytes[..32].to_vec());
    assert_eq!(timeline, vec![("start".to_string(), 8), ("ddmin".to_string(), 4)]);
    assert_eq!((cache.checks, cache.hits), (3, 1));
}

#[test]
fn two_searches_tell_the_same() {
    let bytes = padded_program(12);
    let (mut a, mut b) = (OracleCache::new(9), OracleCache::new(9));
    let mut oracle = r4_uninit_oracle;
    assert_eq!(ddmin(&bytes, &mut a, &mut oracle), ddmin(&bytes, &mut b, &mut oracle));
    assert_eq!(a.results, b.results);
    assert_eq!((a.checks, a.hits), (b.checks, b.hits));
}

#[test]
fn ddmin_rejects_input_without_the_property() {
    // an accepted program does not satisfy the r4-uninit oracle —
    // ddmin refuses to reduce it instead of deleting blindly
    let bytes = prog_bytes(&[insn_bytes(0xb7, 0, 0, 0, 42), insn_bytes(0x95, 0, 0, 0, 0)]);
    let mut cache = OracleCache::new(0);
    let mut oracle = r4_uninit_oracle;
    assert!(ddmin(&bytes, &mut cache, &mut oracle).is_none());
}

#[test]
fn ddmin_single_insn_program_unchanged() {
    let bytes = prog_bytes(&[insn_bytes(0x95, 0, 0, 0, 0)]);
    let mut cache = OracleCache::new(0);
    let mut oracle = r4_uninit_oracle;
    assert_eq!(ddmin(&bytes, &mut cache, &mut oracle).unwrap(), bytes);
}

#[test]
fn ddmin_is_deterministic() {
    let bytes = padded_program(25);
    let mut cache_a = OracleCache::new(0);
    let mut cache_b = OracleCache::new(0);
    let mut oracle_a = r4_uninit_oracle;
    let mut oracle_b = r4_uninit_oracle;
    let a = ddmin(&bytes, &mut cache_a, &mut oracle_a).unwrap();
    let b = ddmin(&bytes, &mut cache_b, &mut oracle_b).unwrap();
    assert_eq!(a, b);
    assert_eq!(cache_a.checks, cache_b.checks);
}

#[test]
fn cache_hits_counted() {
    let mut cache = OracleCache::new(100);
    let mut oracle = r4_uninit_oracle;
    let bytes = padded_program(2);
    assert_eq!(cache.check(&bytes, &mut oracle), Some(true));
    assert_eq!(cache.check(&bytes, &mut oracle), Some(true));
    assert_eq!(cache.checks, 1);
    assert_eq!(cache.hits, 1);
}

fn insns(bytes: &[u8]) -> Vec<BpfInsn> {
    bytes
        .chunks_exact(8)
        .map(|c| parse_insn(c).unwrap())
        .collect()
}

/// The decoded jump target of every branch: `(src, target)` pairs.
fn jump_targets(bytes: &[u8]) -> Vec<(u32, u32)> {
    let insns = insns(bytes);
    let mut out = Vec::new();
    for (i, insn) in insns.iter().enumerate() {
        if let Some(off) = branch_offset(insn) {
            let target = i as i64 + 1 + off as i64;
            assert!(target >= 0, "branch target before the program start");
            out.push((i as u32, target as u32));
        }
    }
    out
}

// ── basic behavior ──────────────────────────────────────────────────────

#[test]
fn delete_middle_insn_adjusts_offsets() {
    // r0 = 0; jeq r0, 0 +2; r1 = 1; r0 = 2; exit
    let bytes = prog_bytes(&[
        insn_bytes(0xb7, 0, 0, 0, 0),
        insn_bytes(0x15, 0, 0, 2, 0), // if r0 == 0 goto +2 (→ insn 4)
        insn_bytes(0xb7, 1, 0, 0, 1),
        insn_bytes(0xb7, 0, 0, 0, 2),
        insn_bytes(0x95, 0, 0, 0, 0),
    ]);
    // delete insn 2 (r1 = 1): the branch now skips only r0 = 2
    let out = delete_insns(&bytes, &[2]).unwrap();
    let decoded = insns(&out);
    assert_eq!(decoded.len(), 4);
    match &decoded[1] {
        BpfInsn::JeqImm { offset, .. } => assert_eq!(*offset, 1),
        other => panic!("expected jeq, got {other:?}"),
    }
    assert!(jump_targets(&out).contains(&(1, 3)));
}

#[test]
fn delete_branch_target_rejected() {
    // r0 = 0; jmp +1; r1 = 1; exit — the jmp's target is insn 3
    // (kernel pc + 1 + off); deleting it must be rejected
    let bytes = prog_bytes(&[
        insn_bytes(0xb7, 0, 0, 0, 0),
        insn_bytes(0x05, 0, 0, 1, 0), // jmp +1 → insn 3
        insn_bytes(0xb7, 1, 0, 0, 1),
        insn_bytes(0x95, 0, 0, 0, 0),
    ]);
    assert!(delete_insns(&bytes, &[3]).is_none());
    // deleting a non-target insn stays fine
    assert!(delete_insns(&bytes, &[2]).is_some());
}

#[test]
fn empty_deletion_is_identity() {
    let bytes = prog_bytes(&[insn_bytes(0xb7, 0, 0, 0, 42), insn_bytes(0x95, 0, 0, 0, 0)]);
    assert_eq!(delete_insns(&bytes, &[]).unwrap(), bytes);
}

#[test]
fn delete_everything_leaves_one_or_empty() {
    let bytes = prog_bytes(&[insn_bytes(0xb7, 0, 0, 0, 1), insn_bytes(0x95, 0, 0, 0, 0)]);
    // deleting both is allowed — the caller's oracle rejects the
    // result (an empty program), the fixup itself never panics
    let out = delete_insns(&bytes, &[0, 1]).unwrap();
    assert!(out.is_empty());
    // deleting one leaves one instruction
    let out = delete_insns(&bytes, &[0]).unwrap();
    assert_eq!(out.len(), 8);
}

#[test]
fn call_imm_and_stack_offsets_untouched() {
    // r1 = 5; [r10-8] = r1; r0 = [r10-8]; call 1; exit — with a
    // dead branch in between that gets deleted
    let bytes = prog_bytes(&[
        insn_bytes(0xb7, 1, 0, 0, 5),
        insn_bytes(0x7b, 10, 1, -8, 0), // [r10-8] = r1
        insn_bytes(0x05, 0, 0, 1, 0),   // jmp +1 (dead hop)
        insn_bytes(0x79, 0, 10, -8, 0), // r0 = [r10-8]
        insn_bytes(0x85, 0, 0, 0, 1),   // call 1
        insn_bytes(0x95, 0, 0, 0, 0),
    ]);
    let out = delete_insns(&bytes, &[2]).unwrap();
    let decoded = insns(&out);
    assert_eq!(decoded.len(), 5);
    assert!(matches!(
        decoded[1],
        BpfInsn::StMem { src: 1, base: 10, offset: -8, .. }
    ));
    assert!(matches!(
        decoded[2],
        BpfInsn::LdMem { dst: 0, base: 10, offset: -8, .. }
    ));
    assert!(matches!(decoded[3], BpfInsn::Call { imm: 1 }));
}

#[test]
fn unsorted_and_duplicate_removal_set() {
    let bytes = prog_bytes(&[
        insn_bytes(0xb7, 0, 0, 0, 0),
        insn_bytes(0xb7, 1, 0, 0, 1),
        insn_bytes(0xb7, 2, 0, 0, 2),
        insn_bytes(0x95, 0, 0, 0, 0),
    ]);
    let out = delete_insns(&bytes, &[2, 0, 2]).unwrap();
    assert_eq!(out.len(), 16);
    assert!(matches!(insns(&out)[0], BpfInsn::MovImm { dst: 1, .. }));
}

#[test]
fn invalid_inputs_rejected() {
    // not a multiple of 8
    assert!(delete_insns(&[0u8; 7], &[]).is_none());
    // empty input
    assert!(delete_insns(&[], &[]).is_none());
    // out-of-range removal index
    let bytes = prog_bytes(&[insn_bytes(0xb7, 0, 0, 0, 1)]);
    assert!(delete_insns(&bytes, &[5]).is_none());
    // undecodable input
    assert!(delete_insns(&[0xef, 0, 0, 0, 0, 0, 0, 0], &[]).is_none());
}

// ── property: fixup preserves kernel-identical jump targets ────────────

/// Random framed programs of the generator and random
/// deletion sets: the fixup must preserve kernel-identical jump
/// *targets* — for every surviving branch, the re-based target
/// index must equal the mapped original target index. (Decoded
/// instruction *text* comparison is too strict: a branch that is
/// itself a jump target has its offset re-based too.)
#[test]
fn fixup_preserves_jump_targets_1000_cases() {
    let cfg = GenConfig {
        min_len: 8,
        max_len: 60,
    };
    let mut kept = 0;
    let mut rejected = 0;
    for seed in 0..1000u64 {
        let mut generator = Generator::new(seed);
        let program = generator.gen_mixed_program(&cfg, 30);
        let bytes: Vec<u8> = encode_program(&program);

        let mut rng = SplitMix64::new(seed.wrapping_mul(0x9E37_79B9));
        let mut remove = Vec::new();
        for i in 0..program.len() {
            if rng.below(4) == 0 {
                remove.push(i as u32);
            }
        }
        // keep the deletion meaningful: at least one instruction
        if remove.is_empty() {
            remove.push(rng.below(program.len() as u64) as u32);
        }

        let Some(out) = delete_insns(&bytes, &remove) else {
            rejected += 1;
            continue;
        };
        kept += 1;

        // the old->new index map (same rule as the fixup)
        let mut remove = remove.clone();
        remove.sort_unstable();
        remove.dedup();
        let removed: std::collections::BTreeSet<u32> = remove.iter().copied().collect();
        let mut mapped = vec![None; program.len()];
        let mut next = 0u32;
        for (old, slot) in mapped.iter_mut().enumerate() {
            if !removed.contains(&(old as u32)) {
                *slot = Some(next);
                next += 1;
            }
        }

        // every output chunk decodes cleanly (no reserved-field
        // violations introduced by the re-base)
        let new_insns = insns(&out);
        assert_eq!(new_insns.len(), next as usize, "seed {seed}");

        // every surviving branch's re-based target equals the
        // mapped original target
        let new_branches = jump_targets(&out);
        let expect_branches = jump_targets(&bytes)
            .iter()
            .filter(|(src, _)| !removed.contains(src))
            .count();
        assert_eq!(new_branches.len(), expect_branches, "seed {seed}");
        for (src, target) in jump_targets(&bytes) {
            let Some(new_src) = mapped[src as usize] else {
                continue; // deleted branch
            };
            let Some(new_target) = mapped[target as usize] else {
                panic!("seed {seed}: fixup kept a branch to a deleted target");
            };
            assert!(
                new_branches.contains(&(new_src, new_target)),
                "seed {seed}: branch {src}->{target} became {new_src}->? — target changed"
            );
        }
    }
    // the test must actually exercise both paths
    assert!(kept > 300, "too few successful deletions ({kept})");
    assert!(
        rejected > 300,
        "no rejected deletions — property too weak ({rejected})"
    );
}

#[test]
fn fixup_is_deterministic() {
    let bytes = prog_bytes(&[
        insn_bytes(0xb7, 0, 0, 0, 0),
        insn_bytes(0x15, 0, 0, 2, 0),
        insn_bytes(0xb7, 1, 0, 0, 1),
        insn_bytes(0xb7, 0, 0, 0, 2),
        insn_bytes(0x95, 0, 0, 0, 0),
    ]);
    let a = delete_insns(&bytes, &[2]).unwrap();
    let b = delete_insns(&bytes, &[2]).unwrap();
    assert_eq!(a, b);
}

fn decode_all(bytes: &[u8]) -> Vec<BpfInsn> {
    bytes
        .chunks_exact(8)
        .map(|c| parse_insn(c).unwrap())
        .collect()
}

#[test]
fn immediate_shrinking_candidates() {
    // r0 = 12345; exit — 0, 1, -1 are strictly smaller
    let bytes = prog_bytes(&[
        insn_bytes(0xb7, 0, 0, 0, 12345),
        insn_bytes(0x95, 0, 0, 0, 0),
    ]);
    let candidates = operand_candidates(&bytes);
    let values: Vec<(usize, i32)> = candidates
        .iter()
        .filter(|(name, _)| *name == "immediate")
        .map(|(_, c)| {
            let insns = decode_all(c);
            match insns[0] {
                BpfInsn::MovImm { imm, .. } => (0, imm),
                _ => panic!("unexpected insn"),
            }
        })
        .collect();
    assert!(values.contains(&(0, 0)));
    assert!(values.contains(&(0, 1)));
    assert!(values.contains(&(0, -1)));
    // nothing equal or larger
    assert!(
        !values
            .iter()
            .any(|&(_, v)| v == 12345 || v.unsigned_abs() > 12345)
    );
}

#[test]
fn call_imm_never_rewritten() {
    // call 2 must keep its helper id
    let bytes = prog_bytes(&[
        insn_bytes(0xb7, 1, 0, 0, 5),
        insn_bytes(0x85, 0, 0, 0, 2), // call 2
        insn_bytes(0x95, 0, 0, 0, 0),
    ]);
    for (_, candidate) in operand_candidates(&bytes) {
        let insns = decode_all(&candidate);
        for insn in &insns {
            if let BpfInsn::Call { imm } = insn {
                assert_eq!(*imm, 2);
            }
        }
    }
}

#[test]
fn alu_x_form_to_k_form() {
    // r2 = 5; r1 += r2 → r1 += 5 (the constant is known)
    let bytes = prog_bytes(&[
        insn_bytes(0xb7, 2, 0, 0, 5),
        insn_bytes(0x0f, 1, 2, 0, 0), // r1 += r2
        insn_bytes(0xb7, 0, 0, 0, 0),
        insn_bytes(0x95, 0, 0, 0, 0),
    ]);
    let candidates = operand_candidates(&bytes);
    assert!(
        candidates.iter().any(|(name, c)| {
            *name == "alu-form"
                && matches!(decode_all(c)[1], BpfInsn::AddImm { dst: 1, imm: 5 })
        }),
        "expected an alu-form candidate, got {candidates:?}"
    );
}

#[test]
fn alu_x_form_uses_latest_known_constant() {
    // r2 = 5; r2 = 9; r1 += r2 — the known value at the use is the
    // latest MovImm (9), and the rewrite is exactly that
    let bytes = prog_bytes(&[
        insn_bytes(0xb7, 2, 0, 0, 5),
        insn_bytes(0xb7, 2, 0, 0, 9),
        insn_bytes(0x0f, 1, 2, 0, 0),
        insn_bytes(0xb7, 0, 0, 0, 0),
        insn_bytes(0x95, 0, 0, 0, 0),
    ]);
    assert!(
        operand_candidates(&bytes).iter().any(|(name, c)| {
            *name == "alu-form"
                && matches!(decode_all(c)[2], BpfInsn::AddImm { dst: 1, imm: 9 })
        }),
        "the rewrite must use the latest known constant (9)"
    );
}

#[test]
fn alu_x_form_cleared_by_alu_write() {
    // r2 = 5; r2 += 1; r1 += r2 — r2 is computed, not a constant
    let bytes = prog_bytes(&[
        insn_bytes(0xb7, 2, 0, 0, 5),
        insn_bytes(0x07, 2, 0, 0, 1), // r2 += 1
        insn_bytes(0x0f, 1, 2, 0, 0),
        insn_bytes(0xb7, 0, 0, 0, 0),
        insn_bytes(0x95, 0, 0, 0, 0),
    ]);
    assert!(
        !operand_candidates(&bytes)
            .iter()
            .any(|(name, _)| *name == "alu-form")
    );
}

#[test]
fn register_lowering_moves_high_to_low() {
    // r9 = 1; r0 = r9; exit — r9 lowers to the lowest unused (r1)
    let bytes = prog_bytes(&[
        insn_bytes(0xb7, 9, 0, 0, 1),
        insn_bytes(0xbf, 0, 9, 0, 0), // r0 = r9
        insn_bytes(0x95, 0, 0, 0, 0),
    ]);
    let candidates = operand_candidates(&bytes);
    assert!(
        candidates.iter().any(|(name, c)| {
            *name == "reg-lower"
                && decode_all(c)
                    .iter()
                    .all(|i| !matches!(i, BpfInsn::MovImm { dst: 9, .. }))
        }),
        "expected a reg-lower candidate, got {candidates:?}"
    );
}

#[test]
fn register_lowering_keeps_r10_and_r0() {
    // r9 = 5; [r10-8] = r9; r0 = [r10-8]; exit — R10 and R0 fixed
    let bytes = prog_bytes(&[
        insn_bytes(0xb7, 9, 0, 0, 5),
        insn_bytes(0x7b, 10, 9, -8, 0), // [r10-8] = r9
        insn_bytes(0x79, 0, 10, -8, 0), // r0 = [r10-8]
        insn_bytes(0x95, 0, 0, 0, 0),
    ]);
    let candidates = operand_candidates(&bytes);
    let lower = candidates
        .iter()
        .find(|(name, _)| *name == "reg-lower")
        .expect("expected a reg-lower candidate");
    for insn in decode_all(&lower.1) {
        match insn {
            BpfInsn::StMem {
                src,
                base: 10,
                offset,
                ..
            } => {
                assert_eq!(offset, -8);
                assert_ne!(src, 10);
            }
            BpfInsn::LdMem {
                dst,
                base: 10,
                offset,
                ..
            } => {
                assert_eq!(offset, -8);
                assert_eq!(dst, 0);
            }
            _ => {}
        }
    }
}

#[test]
fn register_lowering_none_when_compact() {
    // r1 = 1; r0 = r1; exit — no lowering possible
    let bytes = prog_bytes(&[
        insn_bytes(0xb7, 1, 0, 0, 1),
        insn_bytes(0xbf, 0, 1, 0, 0),
        insn_bytes(0x95, 0, 0, 0, 0),
    ]);
    assert!(
        !operand_candidates(&bytes)
            .iter()
            .any(|(name, _)| *name == "reg-lower")
    );
}

#[test]
fn stack_offset_shrinks_toward_zero() {
    // [r10-80] = r1; r0 = [r10-80]; exit
    let bytes = prog_bytes(&[
        insn_bytes(0xb7, 1, 0, 0, 5),
        insn_bytes(0x7b, 10, 1, -80, 0),
        insn_bytes(0x79, 0, 10, -80, 0),
        insn_bytes(0x95, 0, 0, 0, 0),
    ]);
    let candidates = operand_candidates(&bytes);
    // collect the patched stack offsets from both stack insns
    let mut offsets = Vec::new();
    for (name, c) in &candidates {
        if *name != "stack-offset" {
            continue;
        }
        for insn in decode_all(c) {
            if let BpfInsn::StMem { offset, .. } | BpfInsn::LdMem { offset, .. } = insn {
                if offset != -80 {
                    offsets.push(offset); // the patched one
                }
            }
        }
    }
    assert!(offsets.contains(&-8));
    assert!(offsets.contains(&-16));
    assert!(
        offsets.iter().all(|&o| o > -80 && o < 0 && o % 8 == 0),
        "unexpected offsets: {offsets:?}"
    );
}

#[test]
fn operand_candidates_are_deterministic() {
    let bytes = prog_bytes(&[
        insn_bytes(0xb7, 9, 0, 0, 12345),
        insn_bytes(0x7b, 10, 9, -40, 0),
        insn_bytes(0x0f, 1, 9, 0, 0),
        insn_bytes(0x79, 0, 10, -40, 0),
        insn_bytes(0x95, 0, 0, 0, 0),
    ]);
    assert_eq!(operand_candidates(&bytes), operand_candidates(&bytes));
}

#[test]
fn operand_candidates_rewritten_programs_decode() {
    // every candidate must be a valid instruction stream
    let bytes = prog_bytes(&[
        insn_bytes(0xb7, 2, 0, 0, 7),
        insn_bytes(0x1f, 3, 2, 0, 0), // r3 -= r2
        insn_bytes(0x7b, 10, 3, -24, 0),
        insn_bytes(0x79, 0, 10, -24, 0),
        insn_bytes(0xb7, 1, 0, 0, 999999),
        insn_bytes(0x5d, 1, 3, 2, 0), // if r1 != r3 goto +2
        insn_bytes(0x95, 0, 0, 0, 0),
        insn_bytes(0xb7, 0, 0, 0, 1),
        insn_bytes(0x95, 0, 0, 0, 0),
    ]);
    for (name, candidate) in operand_candidates(&bytes) {
        let insns = decode_all(&candidate);
        assert_eq!(insns.len(), 9, "{name}: bad decode");
    }
}

#[test]
fn dead_code_removes_unreachable_tail() {
    // r0 = 1; jmp +1; r1 = 5; r0 = 0; exit — the jmp's target is
    // insn 3 (pc + 1 + off), so only insn 2 (r1 = 5) is unreachable
    let bytes = prog_bytes(&[
        insn_bytes(0xb7, 0, 0, 0, 1),
        insn_bytes(0x05, 0, 0, 1, 0), // jmp +1 → insn 3
        insn_bytes(0xb7, 1, 0, 0, 5),
        insn_bytes(0xb7, 0, 0, 0, 0),
        insn_bytes(0x95, 0, 0, 0, 0),
    ]);
    let out = dead_code(&bytes).unwrap();
    let decoded: Vec<BpfInsn> = decode(&out).unwrap();
    assert_eq!(decoded.len(), 4);
    assert!(
        !decoded
            .iter()
            .any(|i| matches!(i, BpfInsn::MovImm { dst: 1, .. }))
    );
    // the jmp now points at the insn right after it
    assert!(matches!(decoded[1], BpfInsn::Jmp { offset: 0 }));
    assert!(matches!(decoded[3], BpfInsn::Exit));
}

#[test]
fn dead_code_none_when_fully_reachable() {
    let bytes = prog_bytes(&[insn_bytes(0xb7, 0, 0, 0, 1), insn_bytes(0x95, 0, 0, 0, 0)]);
    assert!(dead_code(&bytes).is_none());
}

#[test]
fn slice_keeps_only_paths_to_the_failure() {
    // the taken side of the branch (r3 + its exit) never reaches
    // the failure — the slice must drop it, keeping the fall side
    let bytes = prog_bytes(&[
        insn_bytes(0xb7, 1, 0, 0, 1), // r1 = 1
        insn_bytes(0xb7, 2, 0, 0, 2), // r2 = 2
        insn_bytes(0x5d, 1, 2, 2, 0), // if r1 != r2 goto +2 (→ 5)
        insn_bytes(0xb7, 3, 0, 0, 3), // r3 = 3 (taken side)
        insn_bytes(0x95, 0, 0, 0, 0), // exit (taken side)
        insn_bytes(0xb7, 4, 0, 0, 4), // r4 = 4 (fall side)
        insn_bytes(0x1f, 4, 0, 0, 0), // r4 -= r0  ← anchor (uninit)
        insn_bytes(0x95, 0, 0, 0, 0), // exit
    ]);
    let out = slice_to_anchor(&bytes, Some(6)).unwrap();
    let decoded: Vec<BpfInsn> = decode(&out).unwrap();
    // the taken side (r3) is off the failure path and removed
    assert_eq!(decoded.len(), 7, "{decoded:?}");
    assert!(
        !decoded
            .iter()
            .any(|i| matches!(i, BpfInsn::MovImm { dst: 3, .. }))
    );
    assert!(
        decoded
            .iter()
            .any(|i| matches!(i, BpfInsn::MovImm { dst: 4, .. }))
    );
}

#[test]
fn slice_keeps_exits() {
    // the failure is the last insn before a jump over the exit:
    // the exit must survive the slice
    let bytes = prog_bytes(&[
        insn_bytes(0xb7, 4, 0, 0, 1), // r4 = 1
        insn_bytes(0x1f, 4, 0, 0, 0), // r4 -= r0  ← anchor
        insn_bytes(0x05, 0, 0, 1, 0), // jmp +1 → 4
        insn_bytes(0x95, 0, 0, 0, 0), // exit (3)
        insn_bytes(0x95, 0, 0, 0, 0), // exit (4)
    ]);
    let out = slice_to_anchor(&bytes, Some(1)).unwrap();
    let decoded: Vec<BpfInsn> = decode(&out).unwrap();
    assert!(
        decoded
            .iter()
            .filter(|i| matches!(i, BpfInsn::Exit))
            .count()
            >= 1
    );
}

#[test]
fn slice_no_anchor_yields_nothing() {
    let bytes = prog_bytes(&[insn_bytes(0xb7, 0, 0, 0, 1), insn_bytes(0x95, 0, 0, 0, 0)]);
    assert!(slice_to_anchor(&bytes, None).is_none());
}

#[test]
fn simplify_dead_fallthrough_becomes_unconditional_jump() {
    // r0 = 0; jeq r0, 0, +3; r1 = 5; r2 = 6; exit; r0 = 1; exit
    // the fall-through (2,3,4) is only reachable via the branch —
    // dead without the branch's fall-through edge
    let bytes = prog_bytes(&[
        insn_bytes(0xb7, 0, 0, 0, 0),
        insn_bytes(0x15, 0, 0, 3, 0), // if r0 == 0 goto +3 (→ 5)
        insn_bytes(0xb7, 1, 0, 0, 5),
        insn_bytes(0xb7, 2, 0, 0, 6),
        insn_bytes(0x95, 0, 0, 0, 0),
        insn_bytes(0xb7, 0, 0, 0, 1),
        insn_bytes(0x95, 0, 0, 0, 0),
    ]);
    let candidates = simplify_dead_side(&bytes);
    let rewritten = candidates
        .iter()
        .find(|c| decode(c).is_some_and(|d| matches!(d[1], BpfInsn::Jmp { offset: 3 })))
        .expect("a dead fall-through must rewrite the branch to a jump");
    assert_eq!(decode(rewritten).unwrap().len(), 7);
}

#[test]
fn simplify_dead_target_deletes_branch() {
    // r0 = 0; jeq r0, 0, +2; r1 = 5; exit; r2 = 7; exit
    // the target (4) is only reachable via the branch — dead
    // without the branch's jump edge: the branch is deletable
    let bytes = prog_bytes(&[
        insn_bytes(0xb7, 0, 0, 0, 0),
        insn_bytes(0x15, 0, 0, 2, 0), // if r0 == 0 goto +2 (→ 4)
        insn_bytes(0xb7, 1, 0, 0, 5),
        insn_bytes(0x95, 0, 0, 0, 0),
        insn_bytes(0xb7, 2, 0, 0, 7),
        insn_bytes(0x95, 0, 0, 0, 0),
    ]);
    let candidates = simplify_dead_side(&bytes);
    assert!(
        candidates.iter().any(|c| {
            decode(c).is_some_and(|d| {
                !d.iter().any(|i| i.is_conditional_branch()) // the branch is gone
            })
        }),
        "the dead-target branch must be deletable"
    );
}

#[test]
fn simplify_zero_offset_branch_is_deletable() {
    // jeq r0, 0, +0: taken and fall-through land on the same
    // instruction — a control-flow no-op, deletable
    let bytes = prog_bytes(&[
        insn_bytes(0xb7, 0, 0, 0, 0),
        insn_bytes(0x15, 0, 0, 0, 0), // if r0 == 0 goto +0
        insn_bytes(0xb7, 1, 0, 0, 5),
        insn_bytes(0x95, 0, 0, 0, 0),
    ]);
    let candidates = simplify_dead_side(&bytes);
    assert!(
        candidates.iter().any(|c| decode(c)
            .is_some_and(|d| d.len() == 3 && !d.iter().any(|i| i.is_conditional_branch()))),
        "a zero-offset branch must be deletable"
    );
}

#[test]
fn failure_anchor_finds_mini_failure_pc() {
    // uninit r4 at insn 1
    let bytes = prog_bytes(&[
        insn_bytes(0xb7, 1, 0, 0, 5),
        insn_bytes(0x1f, 4, 0, 0, 0), // r4 -= r0 (uninit)
        insn_bytes(0xb7, 0, 0, 0, 1),
        insn_bytes(0x95, 0, 0, 0, 0),
    ]);
    assert_eq!(anchor_of(&bytes), Some(1));
    let violated = ConcreteReport {
        verdict: ConcreteVerdict::Safe,
        violations: vec![CoverageViolation { pc: 7 }],
    };
    assert_eq!(failure_anchor(MiniRun::Passed, Some(&violated)), Some(7));
    assert_eq!(failure_anchor(MiniRun::Failed, Some(&violated)), None);
}

#[test]
fn failure_anchor_none_on_clean_accept() {
    let bytes = prog_bytes(&[insn_bytes(0xb7, 0, 0, 0, 42), insn_bytes(0x95, 0, 0, 0, 0)]);
    assert_eq!(anchor_of(&bytes), None);
}

const PAD_META: &str = r#"{
  "label": "verdict-flip",
  "name": "pad-1",
  "finding": "agree",
  "mini": "REJECT(UninitRead)",
  "kernel": "SKIPPED"
}"#;

#[test]
fn reduce_synthetic_finding_to_minimal() {
    let bytes = padded(20);
    let report = reduce(
        PAD_META,
        &bytes,
        &ReduceConfig {
            budget: 0,
            kernel: false,
            strict: false,
            qemu_dir: None,
        },
    )
    .unwrap();
    let json = report.json;
    let report = report.report;

    // the padded 23-insn program collapses to the single failing
    // instruction (the verdict-flip invariant only demands REJECT)
    assert_eq!(report.final_insns, 1, "{:?}", report.timeline);
    assert_eq!(report.original_insns, 23);
    assert_eq!(report.final_mini, "REJECT");
    // timeline is monotonic non-increasing
    let counts: Vec<usize> = report.timeline.iter().map(|(_, c)| *c).collect();
    assert!(counts.windows(2).all(|w| w[0] >= w[1]), "{counts:?}");

    // the record
    assert!(json.contains("\"final_insns\": 1"), "{json}");
    assert!(json.contains("\"checks\""));
}

#[test]
fn reduce_rejects_kernel_dependent_findings_without_kernel() {
    let bytes = padded(5);
    let meta = r#"{
  "label": "rv-precision-gap",
  "name": "mseed-5-99",
  "finding": "rv-precision-gap",
  "mini": "REJECT(StackBounds)",
  "kernel": "ACCEPT"
}"#;
    let err = reduce(
        meta,
        &bytes,
        &ReduceConfig {
            budget: 0,
            kernel: false,
            strict: false,
            qemu_dir: None,
        },
    )
    .unwrap_err();
    assert!(matches!(err, ReduceError::KernelRequired(_)), "{err:?}");
}

#[test]
fn reduce_deterministic() {
    let bytes = padded(12);
    let report_a = reduce(
        PAD_META,
        &bytes,
        &ReduceConfig {
            budget: 0,
            kernel: false,
            strict: false,
            qemu_dir: None,
        },
    )
    .unwrap();
    let report_b = reduce(
        PAD_META,
        &bytes,
        &ReduceConfig {
            budget: 0,
            kernel: false,
            strict: false,
            qemu_dir: None,
        },
    )
    .unwrap();
    assert_eq!(report_a.report.timeline, report_b.report.timeline);
    assert_eq!(report_a.report.checks, report_b.report.checks);
    assert_eq!(report_a.program, report_b.program);
}

#[test]
fn reduce_budget_returns_best_so_far() {
    let bytes = padded(30);
    let report = reduce(
        PAD_META,
        &bytes,
        &ReduceConfig {
            budget: 3,
            kernel: false,
            strict: false,
            qemu_dir: None,
        },
    )
    .unwrap();
    let report = report.report;
    // budget respected, final re-check still passes, and the
    // search stopped with a strictly smaller program
    assert_eq!(report.checks, 3);
    assert!(report.final_insns < report.original_insns);
    assert_eq!(report.final_mini, "REJECT");
}

// the record of a verdict flip
const FLIP_META: &str = r#"{
  "label": "verdict-flip",
  "name": "mseed-5-3",
  "finding": "agree",
  "mini": "REJECT(UninitRead)",
  "kernel": "REJECT(UninitRead)"
}"#;

fn reject(category: ReasonCategory) -> SideVerdict {
    SideVerdict::Reject { category }
}

fn sides_of(mini: SideVerdict, concrete: ConcreteSide, kernel: SideVerdict) -> Sides {
    Sides {
        mini,
        mini_reason: None,
        concrete,
        kernel,
        spec: SpecSide::Inconclusive,
    }
}

// ── meta.json parsing ───────────────────────────────────────────────────

#[test]
fn meta_value_extracts_keys() {
    assert_eq!(meta_value(FLIP_META, "label"), Some("verdict-flip".into()));
    assert_eq!(meta_value(FLIP_META, "name"), Some("mseed-5-3".into()));
    assert_eq!(meta_value(FLIP_META, "finding"), Some("agree".into()));
    assert_eq!(
        meta_value(FLIP_META, "mini"),
        Some("REJECT(UninitRead)".into())
    );
    assert_eq!(
        meta_value(FLIP_META, "kernel"),
        Some("REJECT(UninitRead)".into())
    );
    assert_eq!(meta_value(FLIP_META, "missing"), None);
}

#[test]
fn parse_spec_side_strings() {
    assert_eq!(parse_spec_side(Some("ACCEPT")), SpecSide::Accept);
    assert_eq!(parse_spec_side(Some("REJECT")), SpecSide::Reject);
    assert_eq!(
        parse_spec_side(Some("INCONCLUSIVE")),
        SpecSide::Inconclusive
    );
    // old finding dirs (no "spec" key) default to Inconclusive —
    // the classic three-axis semantics
    assert_eq!(parse_spec_side(None), SpecSide::Inconclusive);
    assert_eq!(parse_spec_side(Some("bogus")), SpecSide::Inconclusive);
}

/// The spec-backed classes reduce with the spec verdict preserved:
/// a kernel-unsound candidate whose spec verdict flips to Accept
/// during reduction must not silently change class.
#[test]
fn invariant_preserves_spec_verdict() {
    let u = ReasonCategory::UninitRead;
    let spec = FindingSpec {
        name: "seed-1".into(),
        label: "kernel-unsound-candidate".into(),
        finding: Some(Finding::KernelUnsoundCandidate),
        mini: SideVerdict::Reject { category: u },
        kernel: SideVerdict::Accept,
        spec: SpecSide::Reject,
        spec_recorded: true,
    };
    let invariant = Invariant::Classification {
        finding: Finding::KernelUnsoundCandidate,
        kernel_category: None,
    };
    // the original sides preserve the class
    let sides = Sides {
        mini: SideVerdict::Reject { category: u },
        mini_reason: None,
        concrete: ConcreteSide::Safe,
        kernel: SideVerdict::Accept,
        spec: SpecSide::Reject,
    };
    assert!(invariant.preserves(&spec.name, &sides, false));
    // a reduction that flips the spec verdict to Accept changes the
    // classification (kernel-unsound needs spec REJECT) — the
    // invariant must reject the candidate
    let flipped = Sides {
        spec: SpecSide::Accept,
        ..sides.clone()
    };
    assert!(!invariant.preserves(&spec.name, &flipped, false));
    // the kernel column is mandatory for these classes
    assert!(is_kernel_dependent("kernel-unsound-candidate"));
    assert!(is_kernel_dependent("kernel-overstrict-candidate"));
}

#[test]
fn parse_side_strings() {
    assert_eq!(parse_side("ACCEPT"), Some(SideVerdict::Accept));
    assert_eq!(parse_side("SKIPPED"), Some(SideVerdict::Skipped));
    assert_eq!(
        parse_side("REJECT(StackBounds)"),
        Some(reject(ReasonCategory::StackBounds))
    );
    assert_eq!(
        parse_side("REJECT(UninitRead)"),
        Some(reject(ReasonCategory::UninitRead))
    );
    assert_eq!(parse_side("REJECT(Unknown)"), None);
    assert_eq!(parse_side("REJECT"), None);
    assert_eq!(parse_side(""), None);
}

#[test]
fn parse_finding_labels() {
    assert_eq!(
        parse_finding("precision-candidate"),
        Some(Finding::PrecisionCandidate)
    );
    assert_eq!(
        parse_finding("rv-precision-gap"),
        Some(Finding::RvPrecisionGap)
    );
    assert_eq!(parse_finding("verdict-flip"), None);
    assert_eq!(parse_finding("nonsense"), None);
}

// ── kernel dependency ───────────────────────────────────────────────────

#[test]
fn kernel_dependency_per_class() {
    assert!(is_kernel_dependent("precision-candidate"));
    assert!(is_kernel_dependent("soundness-candidate"));
    assert!(is_kernel_dependent("rv-precision-gap"));
    assert!(is_kernel_dependent("kernel-unsound-candidate"));
    assert!(is_kernel_dependent("kernel-overstrict-candidate"));
    assert!(is_kernel_dependent("whitelisted"));
    assert!(!is_kernel_dependent("rv-soundness-bug"));
    assert!(!is_kernel_dependent("verdict-flip"));
    assert!(!is_kernel_dependent("agree"));
}

// ── invariant preserves ─────────────────────────────────────────────────

#[test]
fn invariant_classification_passes_and_fails() {
    let inv = Invariant::Classification {
        finding: Finding::PrecisionCandidate,
        kernel_category: Some(ReasonCategory::StackBounds),
    };
    // the same finding (mini accepts, kernel rejects) passes
    assert!(inv.preserves(
        "seed-0-1",
        &sides_of(
            SideVerdict::Accept,
            ConcreteSide::Safe,
            reject(ReasonCategory::StackBounds)
        ),
        false
    ));
    // a changed kernel category fails — the root cause moved
    assert!(!inv.preserves(
        "seed-0-1",
        &sides_of(
            SideVerdict::Accept,
            ConcreteSide::Safe,
            reject(ReasonCategory::PointerArith)
        ),
        false
    ));
    // kernel now accepts — the finding is gone
    assert!(!inv.preserves(
        "seed-0-1",
        &sides_of(SideVerdict::Accept, ConcreteSide::Safe, SideVerdict::Accept),
        false
    ));
    // concrete now unsafe — no longer a precision candidate
    assert!(!inv.preserves(
        "seed-0-1",
        &sides_of(
            SideVerdict::Accept,
            ConcreteSide::Unsafe,
            reject(ReasonCategory::StackBounds)
        ),
        false
    ));
    // kernel skipped (unprivileged) — the reducer must not reduce blind
    assert!(!inv.preserves(
        "seed-0-1",
        &sides_of(
            SideVerdict::Accept,
            ConcreteSide::Safe,
            SideVerdict::Skipped
        ),
        false
    ));
}

#[test]
fn invariant_rv_gap_and_soundness_bug() {
    // rv-precision-gap: mini REJECT + kernel ACCEPT, concrete SAFE
    let inv = Invariant::Classification {
        finding: Finding::RvPrecisionGap,
        kernel_category: None,
    };
    assert!(inv.preserves(
        "mseed-5-99",
        &sides_of(
            reject(ReasonCategory::StackBounds),
            ConcreteSide::Safe,
            SideVerdict::Accept
        ),
        false
    ));
    // kernel REJECT now — re-classifies to precision candidate
    assert!(!inv.preserves(
        "mseed-5-99",
        &sides_of(
            reject(ReasonCategory::StackBounds),
            ConcreteSide::Safe,
            reject(ReasonCategory::UninitRead)
        ),
        false
    ));
    // rv-soundness-bug: kernel column irrelevant
    let inv = Invariant::Classification {
        finding: Finding::RvSoundnessBug,
        kernel_category: None,
    };
    assert!(inv.preserves(
        "seed-0-0",
        &sides_of(
            SideVerdict::Accept,
            ConcreteSide::Unsafe,
            SideVerdict::Skipped
        ),
        false
    ));
    // mini now rejects too — the model bug is gone
    assert!(!inv.preserves(
        "seed-0-0",
        &sides_of(
            reject(ReasonCategory::UninitRead),
            ConcreteSide::Unsafe,
            SideVerdict::Skipped
        ),
        false
    ));
}

#[test]
fn invariant_verdict_flip() {
    let inv = Invariant::VerdictFlip { after: "REJECT" };
    // the flip direction preserved
    assert!(inv.preserves(
        "mseed-5-3",
        &sides_of(
            reject(ReasonCategory::UninitRead),
            ConcreteSide::Unsafe,
            SideVerdict::Skipped
        ),
        false
    ));
    // flipped back — the finding is gone
    assert!(!inv.preserves(
        "mseed-5-3",
        &sides_of(
            SideVerdict::Accept,
            ConcreteSide::Safe,
            SideVerdict::Skipped
        ),
        false
    ));
}

#[test]
fn invariant_strict_mode_whitelists() {
    // strict mode: the `!root` kernel rules (PointerArith,
    // Complexity) are design behaviour, not findings
    let inv = Invariant::Classification {
        finding: Finding::Whitelisted,
        kernel_category: None,
    };
    assert!(inv.preserves(
        "seed-1-3",
        &sides_of(
            reject(ReasonCategory::UninitRead),
            ConcreteSide::Safe,
            reject(ReasonCategory::PointerArith)
        ),
        true
    ));
    // default mode: a mini-accepting precision candidate is NOT
    // whitelisted (the strict `!root` rules only apply in strict)
    assert!(!inv.preserves(
        "seed-1-3",
        &sides_of(
            SideVerdict::Accept,
            ConcreteSide::Safe,
            reject(ReasonCategory::PointerArith)
        ),
        false
    ));
}

// ── replay (real programs) ──────────────────────────────────────────────

#[test]
fn replay_verdict_flip_unprivileged() {
    // the mseed-5-3 shape: r4 is uninitialized at the SubReg (mini
    // REJECT(UninitRead)) — replay must reproduce the flip verdict
    let insns = [
        insn_bytes(0xb7, 1, 0, 0, 5), // r1 = 5
        insn_bytes(0xb7, 2, 0, 0, 7), // r2 = 7
        insn_bytes(0x5d, 1, 2, 2, 0), // if r1 != r2 goto +2
        insn_bytes(0xb7, 0, 0, 0, 0), // r0 = 0
        insn_bytes(0x95, 0, 0, 0, 0), // exit
        insn_bytes(0x1f, 4, 0, 0, 0), // r4 -= r0  ← uninit r4
        insn_bytes(0xb7, 0, 0, 0, 1), // r0 = 1
        insn_bytes(0x95, 0, 0, 0, 0), // exit
    ];
    let baseline = replay(FLIP_META, &prog_bytes(&insns), false).unwrap();
    assert_eq!(baseline.spec.label, "verdict-flip");
    assert_eq!(baseline.spec.finding, None);
    assert_eq!(baseline.sides.mini.name(), "REJECT");
    assert!(
        baseline
            .invariant
            .preserves(&baseline.spec.name, &baseline.sides, false)
    );
}

#[test]
fn replay_kernel_dependent_without_kernel_refused() {
    // a kernel-dependent finding (rv-precision-gap) cannot be
    // replayed unprivileged — the reducer must refuse, not guess
    let meta = r#"{
  "label": "rv-precision-gap",
  "name": "mseed-5-99",
  "finding": "rv-precision-gap",
  "mini": "REJECT(StackBounds)",
  "kernel": "ACCEPT"
}"#;
    // the mseed-5-99 shape: pointer arithmetic that mini rejects at
    // arithmetic time (StackBounds) — the exact program is not
    // needed for the refusal path
    let insns = [
        insn_bytes(0xb7, 6, 0, 0, 8), // r6 = 8
        insn_bytes(0xb7, 1, 0, 0, 1), // r1 = 1
        insn_bytes(0x0f, 1, 6, 0, 0), // r1 += r6  (pointer-ish arith)
        insn_bytes(0xb7, 0, 0, 0, 0), // r0 = 0
        insn_bytes(0x95, 0, 0, 0, 0), // exit
    ];
    let err = replay(meta, &prog_bytes(&insns), false).unwrap_err();
    assert!(matches!(err, ReduceError::KernelRequired(_)), "{err:?}");
}

#[test]
fn replay_mismatch_is_loud() {
    // tampered meta.json: the recorded mini side is ACCEPT, but the
    // program rejects — replay must fail loudly
    let meta = r#"{
  "label": "verdict-flip",
  "name": "mseed-5-x",
  "finding": "agree",
  "mini": "ACCEPT",
  "kernel": "SKIPPED"
}"#;
    let insns = [
        insn_bytes(0xb7, 1, 0, 0, 5),
        insn_bytes(0x1f, 4, 0, 0, 0), // r4 -= r0 — uninit r4
        insn_bytes(0xb7, 0, 0, 0, 1),
        insn_bytes(0x95, 0, 0, 0, 0),
    ];
    let err = replay(meta, &prog_bytes(&insns), false).unwrap_err();
    assert!(
        matches!(
            err,
            ReduceError::ReplayMismatch {
                ref expected,
                ref actual
            } if expected == "ACCEPT" && actual == "REJECT(UninitRead)"
        ),
        "{err:?}"
    );
}

#[test]
fn load_finding_rejects_bad_layout() {
    // missing meta.json
    let prog = prog_bytes(&[insn_bytes(0xb7, 0, 0, 0, 1), insn_bytes(0x95, 0, 0, 0, 0)]);
    let err = load_finding(
        Err("cannot read meta.json".to_string()),
        Ok(prog.clone()),
        "x/prog.bin",
    )
    .unwrap_err();
    assert!(matches!(err, ReduceError::InvalidFinding(_)), "{err:?}");
    // malformed side encoding
    let meta =
        r#"{"label": "verdict-flip", "name": "x", "mini": "REJECT(Nope)", "kernel": "ACCEPT"}"#;
    let err = load_finding(Ok(meta.to_string()), Ok(prog), "x/prog.bin").unwrap_err();
    assert!(matches!(err, ReduceError::InvalidFinding(_)), "{err:?}");
}

// ── Further ─────────────────────────────────────────────────────────────────

#[test]
fn json_escape_quotes_and_controls() {
    assert_eq!(json_escape("a\"b\\c\nd"), "a\\\"b\\\\c\\nd");
    assert_eq!(json_escape("plain"), "plain");
}

#[test]
fn side_strings_round_trip() {
    for side in [
        SideVerdict::Accept,
        SideVerdict::Skipped,
        reject(ReasonCategory::Ref),
        reject(ReasonCategory::Complexity),
    ] {
        assert_eq!(parse_side(&side_str(&side)), Some(side));
    }
}

#[test]
fn reduction_of_a_program_keeps_its_property() {
    let bytes = padded_program(9);
    let mut oracle = r4_uninit_oracle;
    let (out, timeline, cache) = reduce_program(&bytes, 0, &mut oracle, &anchor_of);
    assert!(r4_uninit_oracle(&out));
    assert_eq!(out.len(), 16);
    assert_eq!(timeline[0], ("start".to_string(), 12));
    assert_eq!(timeline[timeline.len() - 1].1, 2);
    for (pass, _) in &timeline[1..] {
        assert!(["cfg", "ddmin", "operand"].contains(&pass.as_str()), "{pass}");
    }
    assert!(cache.checks > 0);
}

#[test]
fn errors_speak() {
    let e = ReduceError::InvalidFinding("no name".to_string());
    assert!(e.message().contains("no name"), "{}", e.message());
    let e = sides_err(KernelAnswer::GuestFailed("gone".to_string()));
    assert!(matches!(e, ReduceError::KernelRequired(_)), "{e:?}");
    let e = evaluate_bytes(
        Err("broken".to_string()),
        None,
        KernelAnswer::NotAsked,
        SpecSide::Inconclusive,
    )
    .unwrap_err();
    assert!(matches!(e, ReduceError::Pipeline(_)), "{e:?}");
}

fn sides_err(kernel: KernelAnswer) -> ReduceError {
    evaluate_bytes(Ok(MiniVerdict::Safe), None, kernel, SpecSide::Inconclusive).unwrap_err()
}

/// The record of a finding without a side of the specification.
fn record(label: &str, finding: Option<Finding>, mini: SideVerdict, kernel: SideVerdict) -> FindingSpec {
    FindingSpec {
        name: "seed-0-1".into(),
        label: label.into(),
        finding,
        mini,
        kernel,
        spec: SpecSide::Inconclusive,
        spec_recorded: false,
    }
}

#[test]
fn replay_holds_the_kernel_side_against_the_record() {
    let recorded = reject(ReasonCategory::StackBounds);
    let spec = record(
        "precision-candidate",
        Some(Finding::PrecisionCandidate),
        SideVerdict::Accept,
        recorded,
    );
    let replayed =
        |kernel| replay_check(&spec, &sides_of(SideVerdict::Accept, ConcreteSide::Safe, kernel), false);
    assert_eq!(replayed(recorded), Ok(()));
    assert_eq!(
        replayed(reject(ReasonCategory::UninitRead)),
        Err(ReduceError::ReplayMismatch {
            expected: "REJECT(StackBounds)".into(),
            actual: "REJECT(UninitRead)".into(),
        })
    );
    assert_eq!(
        replayed(SideVerdict::Accept),
        Err(ReduceError::ReplayMismatch {
            expected: "REJECT(StackBounds)".into(),
            actual: "ACCEPT".into(),
        })
    );
    assert!(matches!(replayed(SideVerdict::Skipped), Err(ReduceError::KernelRequired(_))));
}

#[test]
fn model_bug_replays_without_a_kernel() {
    let spec = record(
        "rv-soundness-bug",
        Some(Finding::RvSoundnessBug),
        SideVerdict::Accept,
        reject(ReasonCategory::StackBounds),
    );
    let sides = |kernel| sides_of(SideVerdict::Accept, ConcreteSide::Unsafe, kernel);
    assert_eq!(replay_check(&spec, &sides(SideVerdict::Skipped), false), Ok(()));
    let kept = Invariant::Classification {
        finding: Finding::RvSoundnessBug,
        kernel_category: Some(ReasonCategory::StackBounds),
    };
    assert!(kept.preserves("seed-0-1", &sides(SideVerdict::Skipped), false));
    assert!(kept.preserves("seed-0-1", &sides(reject(ReasonCategory::StackBounds)), false));
    assert!(!kept.preserves("seed-0-1", &sides(reject(ReasonCategory::UninitRead)), false));
    assert!(!kept.preserves("seed-0-1", &sides(SideVerdict::Accept), false));
}

#[test]
fn a_mismatch_comes_before_an_unknown_label() {
    let program = prog_bytes(&[insn_bytes(0xb7, 0, 0, 0, 0), insn_bytes(0x95, 0, 0, 0, 0)]);
    let replayed = |mini: &str| {
        let meta = format!(
            r#"{{"label": "no-such-label", "name": "x", "mini": "{mini}", "kernel": "SKIPPED"}}"#
        );
        let evaluate = |_: &[u8]| -> Result<Sides, ReduceError> {
            Ok(sides_of(SideVerdict::Accept, ConcreteSide::Safe, SideVerdict::Skipped))
        };
        load_and_replay(Ok(meta), Ok(program.clone()), "prog.bin", &evaluate, false).unwrap_err()
    };
    assert!(matches!(replayed("REJECT(UninitRead)"), ReduceError::ReplayMismatch { .. }));
    assert!(matches!(replayed("ACCEPT"), ReduceError::InvalidFinding(_)));
}

#[test]
fn dead_code_leaves_the_live_part() {
    // a jump over one instruction, which nothing reaches
    let program = prog_bytes(&[
        insn_bytes(0xb7, 0, 0, 0, 0),
        insn_bytes(0x05, 0, 0, 1, 0),
        insn_bytes(0xb7, 0, 0, 0, 1),
        insn_bytes(0x95, 0, 0, 0, 0),
    ]);
    let out = dead_code(&program).expect("dead code");
    assert_eq!(
        out,
        prog_bytes(&[
            insn_bytes(0xb7, 0, 0, 0, 0),
            insn_bytes(0x05, 0, 0, 0, 0),
            insn_bytes(0x95, 0, 0, 0, 0),
        ])
    );
    assert_eq!(dead_code(&out), None);
}
