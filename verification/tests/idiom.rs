use rand_verifier::cfg::check_structure;
use rand_verifier::fuzz::generator::Generator;
use rand_verifier::fuzz::idiom::{Idiom, ALL_IDIOMS};
use rand_verifier::insn::BpfInsn;


fn gen_idiom(seed: u64, idiom: Idiom) -> Vec<BpfInsn> {
    Generator::new(seed).gen_idiom_program(idiom)
}

/// Each template contains its expected opcode/pattern mix.
#[test]
fn idiom_patterns() {
    // OverflowChain: an ADD/SUB somewhere (large-immediate imm
    // forms come from LARGE_IMMEDIATES by construction)
    for seed in 0..20 {
        let insns = gen_idiom(seed, Idiom::OverflowChain);
        let has_add_sub = insns.iter().any(|i| {
            matches!(
                i,
                BpfInsn::AddImm { .. }
                    | BpfInsn::AddReg { .. }
                    | BpfInsn::SubImm { .. }
                    | BpfInsn::SubReg { .. }
            )
        });
        assert!(has_add_sub, "overflow chain seed {seed}: no ADD/SUB");
    }

    // Alu32Roundtrip: at least one ALU32 op and one ALU64 op
    for seed in 0..20 {
        let insns = gen_idiom(seed, Idiom::Alu32Roundtrip);
        let has_alu32 = insns.iter().any(|i| {
            matches!(
                i,
                BpfInsn::Add32Imm { .. }
                    | BpfInsn::Add32Reg { .. }
                    | BpfInsn::Sub32Imm { .. }
                    | BpfInsn::Sub32Reg { .. }
                    | BpfInsn::Xor32Imm { .. }
                    | BpfInsn::Xor32Reg { .. }
                    | BpfInsn::And32Imm { .. }
                    | BpfInsn::And32Reg { .. }
            )
        });
        let has_alu64 = insns
            .iter()
            .any(|i| matches!(i, BpfInsn::AddImm { .. } | BpfInsn::SubImm { .. }));
        assert!(has_alu32 && has_alu64, "alu32 roundtrip seed {seed}");
    }

    // DualRefine: both a signed and an unsigned greater-than compare
    for seed in 0..20 {
        let insns = gen_idiom(seed, Idiom::DualRefine);
        let has_jsgt = insns
            .iter()
            .any(|i| matches!(i, BpfInsn::Jsgt { .. } | BpfInsn::JsgtImm { .. }));
        let has_jgt = insns
            .iter()
            .any(|i| matches!(i, BpfInsn::Jgt { .. } | BpfInsn::JgtImm { .. }));
        assert!(has_jsgt && has_jgt, "dual refine seed {seed}");
    }

    // NarrowingChain: at least two compares
    for seed in 0..20 {
        let insns = gen_idiom(seed, Idiom::NarrowingChain);
        let cmp_count = insns.iter().filter(|i| is_compare(i)).count();
        assert!(
            cmp_count >= 2,
            "narrowing chain seed {seed}: {cmp_count} compares"
        );
    }

    // SpillFill: store before load
    for seed in 0..20 {
        let insns = gen_idiom(seed, Idiom::SpillFill);
        let st = insns
            .iter()
            .position(|i| matches!(i, BpfInsn::StMem { .. }));
        let ld = insns
            .iter()
            .position(|i| matches!(i, BpfInsn::LdMem { .. }));
        assert!(
            matches!((st, ld), (Some(s), Some(l)) if s < l),
            "spill/fill seed {seed}"
        );
    }

    // NullCheck: helper call + jne + two exits
    for seed in 0..20 {
        let insns = gen_idiom(seed, Idiom::NullCheck);
        let has_call = insns.iter().any(|i| matches!(i, BpfInsn::Call { .. }));
        let has_jne = insns
            .iter()
            .any(|i| matches!(i, BpfInsn::Jne { .. } | BpfInsn::JneImm { .. }));
        let exits = insns.iter().filter(|i| matches!(i, BpfInsn::Exit)).count();
        assert!(has_call && has_jne && exits >= 2, "null check seed {seed}");
    }

    // BoundedLoop: a conditional branch with a negative offset
    for seed in 0..20 {
        let insns = gen_idiom(seed, Idiom::BoundedLoop);
        let has_back_edge = insns.iter().any(|i| {
            matches!(
                i,
                BpfInsn::Jlt { offset, .. }
                    | BpfInsn::JltImm { offset, .. }
                    | BpfInsn::Jle { offset, .. }
                    | BpfInsn::JleImm { offset, .. }
                    | BpfInsn::Jslt { offset, .. }
                    | BpfInsn::JsltImm { offset, .. }
                    | BpfInsn::Jsle { offset, .. }
                    | BpfInsn::JsleImm { offset, .. }
                    if *offset < 0
            )
        });
        assert!(has_back_edge, "bounded loop seed {seed}: no backward edge");
    }
}

/// Same seed → identical idiom output.
#[test]
fn idiom_deterministic() {
    for idiom in ALL_IDIOMS {
        assert_eq!(gen_idiom(42, idiom), gen_idiom(42, idiom));
    }
}

/// Every idiom output passes the structural checks (the
/// templates are complete: no mid-body exit, valid offsets).
#[test]
fn idiom_nano_valid() {
    for idiom in ALL_IDIOMS {
        for seed in 0..50 {
            let insns = gen_idiom(seed, idiom);
            assert!(check_structure(&insns), "{idiom:?} seed {seed}: rejected");
        }
    }
}

fn is_compare(insn: &BpfInsn) -> bool {
    matches!(
        insn,
        BpfInsn::Jeq { .. }
            | BpfInsn::Jne { .. }
            | BpfInsn::Jgt { .. }
            | BpfInsn::Jge { .. }
            | BpfInsn::Jlt { .. }
            | BpfInsn::Jle { .. }
            | BpfInsn::Jsgt { .. }
            | BpfInsn::Jsge { .. }
            | BpfInsn::Jslt { .. }
            | BpfInsn::Jsle { .. }
            | BpfInsn::JeqImm { .. }
            | BpfInsn::JneImm { .. }
            | BpfInsn::JgtImm { .. }
            | BpfInsn::JgeImm { .. }
            | BpfInsn::JltImm { .. }
            | BpfInsn::JleImm { .. }
            | BpfInsn::JsgtImm { .. }
            | BpfInsn::JsgeImm { .. }
            | BpfInsn::JsltImm { .. }
            | BpfInsn::JsleImm { .. }
    )
}

/// Every compare of a narrowing chain that is taken leads to the use.
#[test]
fn narrowing_chain_skips_to_the_use() {
    for seed in 0..50 {
        let insns = gen_idiom(seed, Idiom::NarrowingChain);
        let to = insns.len() - 2;
        assert_eq!(insns[to], BpfInsn::MovReg { dst: 0, src: 0 });
        assert_eq!(insns[to + 1], BpfInsn::Exit);
        for (pc, insn) in insns.iter().enumerate() {
            if let Some(offset) = rand_verifier::flow::branch_offset(insn) {
                assert_eq!(pc as i64 + 1 + offset as i64, to as i64, "seed {seed} at {pc}");
            }
        }
    }
}
