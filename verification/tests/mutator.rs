use rand_verifier::cfg::check_structure;
use rand_verifier::fuzz::generator::{GenConfig, Generator};
use rand_verifier::fuzz::mutator::{replace_imm, replace_off, replace_reg, Mutator};
use rand_verifier::insn::{BpfInsn, MemSize};

/// Seeds for mutation: generated programs.
fn seeds() -> Vec<Vec<BpfInsn>> {
    (0..40u64)
        .map(|s| Generator::new(s).gen_mixed_program(&GenConfig::default(), 30))
        .collect()
}

/// Returned mutants always pass the structural checks, and more than half of the
/// attempts return one.
#[test]
fn mutate_validity() {
    let mut total = 0usize;
    let mut valid = 0usize;
    for (si, insns) in seeds().iter().enumerate() {
        for m in 0..10 {
            let mut mutator = Mutator::new((si as u64) * 10 + m);
            total += 1;
            if let Some(mutant) = mutator.try_mutate(insns, None) {
                assert!(check_structure(&mutant));
                valid += 1;
            }
        }
    }
    assert!(valid > total / 2, "mutation validity rate too low: {valid}/{total}");
}

/// Same seed, the same mutation sequence and outcome.
#[test]
fn mutate_deterministic() {
    let seeds = seeds();
    let insns = &seeds[0];
    let mut a = Mutator::new(9);
    let mut b = Mutator::new(9);
    for _ in 0..20 {
        assert_eq!(a.try_mutate(insns, None), b.try_mutate(insns, None));
    }
}

#[test]
fn replacements_touch_one_field() {
    let i = BpfInsn::JeqImm { dst: 1, imm: 5, offset: 2 };
    assert_eq!(replace_imm(&i, 7), BpfInsn::JeqImm { dst: 1, imm: 7, offset: 2 });
    assert_eq!(replace_off(&i, -3), BpfInsn::JeqImm { dst: 1, imm: 5, offset: -3 });
    assert_eq!(replace_reg(&i, 4), BpfInsn::JeqImm { dst: 4, imm: 5, offset: 2 });
    assert_eq!(replace_imm(&BpfInsn::Exit, 7), BpfInsn::Exit);
}

#[test]
fn offsets_change_in_jumps_and_stack_accesses_alone() {
    let load = |base: u8, offset: i16| BpfInsn::LdMem {
        dst: 2,
        base,
        offset,
        size: MemSize::W,
        sign_extend: false,
    };
    let store = |base: u8, offset: i16| BpfInsn::StMem { src: 3, base, offset, size: MemSize::DW };
    let store_imm =
        |base: u8, offset: i16| BpfInsn::StMemImm { imm: 5, base, offset, size: MemSize::DW };
    assert_eq!(replace_off(&load(10, -8), -16), load(10, -16));
    assert_eq!(replace_off(&store(10, -8), -16), store(10, -16));
    assert_eq!(replace_off(&store_imm(10, -8), -16), store_imm(10, -16));
    // other bases are no stack access
    assert_eq!(replace_off(&load(1, 4), 8), load(1, 4));
    assert_eq!(replace_off(&store(1, 4), 8), store(1, 4));
    assert_eq!(replace_off(&store_imm(1, 4), 8), store_imm(1, 4));
    assert_eq!(replace_off(&BpfInsn::Jmp { offset: 1 }, 3), BpfInsn::Jmp { offset: 3 });
    assert_eq!(replace_off(&BpfInsn::Call { imm: 1 }, 3), BpfInsn::Call { imm: 1 });
}
