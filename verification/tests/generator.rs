use rand_verifier::cfg::check_structure;
use rand_verifier::fuzz::generator::{GenConfig, Generator};
use rand_verifier::fuzz::insn_lib;
use rand_verifier::insn::BpfInsn;


fn gen_prog(seed: u64, cfg: &GenConfig) -> Vec<BpfInsn> {
    Generator::new(seed).gen_program(cfg)
}

/// The opcode family of an instruction, for the distribution check.
fn family_of(insn: &BpfInsn) -> &'static str {
    match insn {
        BpfInsn::MovImm { .. }
        | BpfInsn::MovReg { .. }
        | BpfInsn::AddImm { .. }
        | BpfInsn::AddReg { .. }
        | BpfInsn::SubImm { .. }
        | BpfInsn::SubReg { .. }
        | BpfInsn::AndImm { .. }
        | BpfInsn::AndReg { .. }
        | BpfInsn::OrImm { .. }
        | BpfInsn::OrReg { .. }
        | BpfInsn::XorImm { .. }
        | BpfInsn::XorReg { .. }
        | BpfInsn::LshImm { .. }
        | BpfInsn::LshReg { .. }
        | BpfInsn::RshImm { .. }
        | BpfInsn::RshReg { .. }
        | BpfInsn::ArshImm { .. }
        | BpfInsn::ArshReg { .. } => "alu64",
        BpfInsn::Add32Imm { .. }
        | BpfInsn::Add32Reg { .. }
        | BpfInsn::Sub32Imm { .. }
        | BpfInsn::Sub32Reg { .. }
        | BpfInsn::And32Imm { .. }
        | BpfInsn::And32Reg { .. }
        | BpfInsn::Or32Imm { .. }
        | BpfInsn::Or32Reg { .. }
        | BpfInsn::Xor32Imm { .. }
        | BpfInsn::Xor32Reg { .. }
        | BpfInsn::Lsh32Imm { .. }
        | BpfInsn::Lsh32Reg { .. }
        | BpfInsn::Rsh32Imm { .. }
        | BpfInsn::Rsh32Reg { .. }
        | BpfInsn::Arsh32Imm { .. }
        | BpfInsn::Arsh32Reg { .. } => "alu32",
        BpfInsn::Jgt { .. }
        | BpfInsn::JgtImm { .. }
        | BpfInsn::Jge { .. }
        | BpfInsn::JgeImm { .. }
        | BpfInsn::Jlt { .. }
        | BpfInsn::JltImm { .. }
        | BpfInsn::Jle { .. }
        | BpfInsn::JleImm { .. } => "cmp_unsigned",
        BpfInsn::Jsgt { .. }
        | BpfInsn::JsgtImm { .. }
        | BpfInsn::Jsge { .. }
        | BpfInsn::JsgeImm { .. }
        | BpfInsn::Jslt { .. }
        | BpfInsn::JsltImm { .. }
        | BpfInsn::Jsle { .. }
        | BpfInsn::JsleImm { .. } => "cmp_signed",
        BpfInsn::Jeq { .. }
        | BpfInsn::JeqImm { .. }
        | BpfInsn::Jne { .. }
        | BpfInsn::JneImm { .. } => "cmp_eq",
        BpfInsn::LdMem { .. } | BpfInsn::StMem { .. } => "stack",
        BpfInsn::Call { .. } => "helper",
        BpfInsn::Jmp { .. } => "jmp",
        BpfInsn::Exit => "exit",
        _ => "other",
    }
}

/// Same seed → byte-identical output; different seeds → the output
/// differs (checked over 100 programs).
#[test]
fn gen_deterministic() {
    let cfg = GenConfig::default();
    assert_eq!(gen_prog(42, &cfg), gen_prog(42, &cfg));
    assert_eq!(gen_prog(42, &cfg), gen_prog(42, &cfg));

    let base = gen_prog(0, &cfg);
    let mut any_diff = false;
    for seed in 1..100 {
        if gen_prog(seed, &cfg) != base {
            any_diff = true;
            break;
        }
    }
    assert!(any_diff, "all seeds produced identical programs");
}

/// Every generated program passes the structural checks by construction (no unreachable instructions, valid jump
/// targets, subprogram ends with exit, back edges allowed).
#[test]
fn gen_nano_valid() {
    let cfg = GenConfig::default();
    for seed in 0..100 {
        let insns = gen_prog(seed, &cfg);
        assert!(check_structure(&insns), "seed {seed}: a generated program was rejected");
    }
}

/// Over many programs every opcode family appears at least once.
#[test]
fn gen_distribution() {
    let cfg = GenConfig::default();
    let mut seen = std::collections::HashSet::new();
    for seed in 0..500 {
        for insn in gen_prog(seed, &cfg) {
            seen.insert(family_of(&insn));
        }
    }
    for family in [
        "alu64",
        "alu32",
        "cmp_unsigned",
        "cmp_signed",
        "cmp_eq",
        "stack",
        "helper",
        "jmp",
    ] {
        assert!(seen.contains(family), "family '{family}' never generated");
    }
}

/// The body length honours the configured bounds (the full program
/// is body + 2 for the r0 init and the exit).
#[test]
fn gen_length_bounds() {
    // fixed length
    let cfg = GenConfig {
        min_len: 3,
        max_len: 3,
    };
    for seed in 0..20 {
        assert_eq!(gen_prog(seed, &cfg).len(), 5, "seed {seed}");
    }
    // default bounds
    let cfg = GenConfig::default();
    for seed in 0..100 {
        let len = gen_prog(seed, &cfg).len();
        assert!((3..=102).contains(&len), "seed {seed}: len {len}");
    }
}

/// The frame shape is fixed: r0 = 0 first, EXIT last.
#[test]
fn gen_frame_shape() {
    let cfg = GenConfig::default();
    for seed in 0..100 {
        let insns = gen_prog(seed, &cfg);
        assert_eq!(insns[0], insn_lib::mov_imm(0, 0), "seed {seed}");
        assert_eq!(*insns.last().unwrap(), BpfInsn::Exit, "seed {seed}");
    }
}

/// gen_program_bytes produces the raw kernel encoding of the same
/// program.
#[test]
fn gen_bytes_matches_encoding() {
    let cfg = GenConfig {
        min_len: 5,
        max_len: 5,
    };
    let mut g = Generator::new(11);
    let insns = g.gen_program(&cfg);
    let mut g2 = Generator::new(11);
    let bytes = g2.gen_program_bytes(&cfg);
    assert_eq!(bytes.len(), insns.len() * 8);
    for (i, insn) in insns.iter().enumerate() {
        assert_eq!(&bytes[i * 8..(i + 1) * 8], &insn_lib::encode(insn));
    }
}
