use rand_verifier::disasm::disassemble;
use rand_verifier::insn::{parse_insn, parse_ldimm64, BpfInsn, DecodeError, MemSize};
use rand_verifier::opcode;

/// The eight bytes of one slot.
fn insn_bytes(op: u8, dst: u8, src: u8, off: i16, imm: i32) -> [u8; 8] {
    let o = off.to_le_bytes();
    let i = imm.to_le_bytes();
    [op, (src << 4) | (dst & 0x0f), o[0], o[1], i[0], i[1], i[2], i[3]]
}

/// The instruction in one slot.
fn parse(op: u8, dst: u8, src: u8, off: i16, imm: i32) -> BpfInsn {
    parse_insn(&insn_bytes(op, dst, src, off, imm)).expect("decodes")
}


#[test]
fn parse_insn_mov_imm() {
    let insn = parse(opcode::MOV_IMM, 1, 0, 0, 42);
    assert!(matches!(insn, BpfInsn::MovImm { dst: 1, imm: 42 }));
}

#[test]
fn parse_insn_mov_reg() {
    let insn = parse(opcode::MOV_REG, 2, 3, 0, 0);
    assert!(matches!(insn, BpfInsn::MovReg { dst: 2, src: 3 }));
}

#[test]
fn parse_insn_add_imm() {
    // negative imm must be preserved
    let insn = parse(opcode::ADD_IMM, 1, 0, 0, -7);
    assert!(matches!(insn, BpfInsn::AddImm { dst: 1, imm: -7 }));
}

#[test]
fn parse_insn_add_reg() {
    let insn = parse(opcode::ADD_REG, 0, 6, 0, 0);
    assert!(matches!(insn, BpfInsn::AddReg { dst: 0, src: 6 }));
}

#[test]
fn parse_insn_ld_stack() {
    // BPF_LDX|BPF_MEM|BPF_DW: src_reg is the base register
    let insn = parse(opcode::LD_STACK, 0, 10, -8, 0);
    assert!(matches!(
        insn,
        BpfInsn::LdMem {
            dst: 0,
            base: 10,
            offset: -8,
            size: MemSize::DW,
            sign_extend: false
        }
    ));
    let insn = parse(opcode::LD_STACK, 0, 6, -8, 0);
    assert!(matches!(
        insn,
        BpfInsn::LdMem {
            dst: 0,
            base: 6,
            offset: -8,
            size: MemSize::DW,
            sign_extend: false
        }
    ));
}

#[test]
fn parse_insn_st_stack() {
    // BPF_STX|BPF_MEM|BPF_DW: dst_reg is the base register
    let insn = parse(opcode::ST_STACK, 10, 1, -8, 0);
    assert!(matches!(
        insn,
        BpfInsn::StMem {
            src: 1,
            base: 10,
            offset: -8,
            size: MemSize::DW
        }
    ));
    let insn = parse(opcode::ST_STACK, 6, 1, -8, 0);
    assert!(matches!(
        insn,
        BpfInsn::StMem {
            src: 1,
            base: 6,
            offset: -8,
            size: MemSize::DW
        }
    ));
}

#[test]
fn parse_insn_jeq() {
    let insn = parse(opcode::JEQ, 1, 2, 4, 0);
    assert!(matches!(
        insn,
        BpfInsn::Jeq {
            dst: 1,
            src: 2,
            offset: 4
        }
    ));
}

#[test]
fn parse_ldimm64_variants() {
    // plain 64-bit constant: imm64 = low | high << 32
    let first = insn_bytes(opcode::LD_IMM64, 2, 0, 0, 0x90abcdef_u32 as i32);
    let second = insn_bytes(0x00, 0, 0, 0, 0x12345678_u32 as i32);
    assert_eq!(
        parse_ldimm64(&first, &second).unwrap(),
        BpfInsn::LdImm64 {
            dst: 2,
            imm: 0x1234567890abcdef,
        }
    );
    // BPF_PSEUDO_MAP_FD: fd in the low imm, the high imm is reserved
    let first = insn_bytes(opcode::LD_IMM64, 1, opcode::PSEUDO_MAP_FD, 0, 3);
    let insn = parse_ldimm64(&first, &[0u8; 8]).unwrap();
    assert!(matches!(insn, BpfInsn::LdMapFd { dst: 1, fd: 3, .. }));
    let err = parse_ldimm64(&first, &insn_bytes(0x00, 0, 0, 0, 7)).unwrap_err();
    assert!(err.message().contains("reserved"), "{err:?}");
    // BPF_PSEUDO_MAP_VALUE: the high imm is the value offset
    let first = insn_bytes(opcode::LD_IMM64, 4, opcode::PSEUDO_MAP_VALUE, 0, 3);
    let second = insn_bytes(0x00, 0, 0, 0, 8);
    let insn = parse_ldimm64(&first, &second).unwrap();
    assert!(matches!(
        insn,
        BpfInsn::LdMapValue {
            dst: 4,
            fd: 3,
            offset: 8,
            ..
        }
    ));
    // unknown pseudo classes are unsupported
    let first = insn_bytes(opcode::LD_IMM64, 1, 9, 0, 3);
    assert!(matches!(
        parse_ldimm64(&first, &[0u8; 8]).unwrap_err(),
        DecodeError::Unsupported { .. }
    ));
    // reserved fields in the second slot
    let first = insn_bytes(opcode::LD_IMM64, 1, 0, 0, 3);
    let err = parse_ldimm64(&first, &insn_bytes(0x01, 0, 0, 0, 0)).unwrap_err();
    assert!(err.message().contains("second part"), "{err:?}");
    // a lone first slot is truncated
    assert!(matches!(
        parse_insn(&insn_bytes(opcode::LD_IMM64, 1, 0, 0, 3)),
        Err(DecodeError::LdImm64Truncated)
    ));
}

#[test]
fn parse_insn_jgt() {
    let insn = parse(opcode::JGT, 1, 2, -4, 0);
    assert!(matches!(
        insn,
        BpfInsn::Jgt {
            dst: 1,
            src: 2,
            offset: -4
        }
    ));
}

#[test]
fn parse_insn_jmp() {
    let insn = parse(opcode::JMP, 0, 0, 3, 0);
    assert!(matches!(insn, BpfInsn::Jmp { offset: 3 }));
}

#[test]
fn parse_insn_call() {
    // the immediate is the helper id (kernel convention)
    let insn = parse(opcode::CALL, 0, 0, 0, 100);
    assert!(matches!(insn, BpfInsn::Call { imm: 100 }));
}

#[test]
fn parse_insn_exit() {
    let insn = parse(opcode::EXIT, 0, 0, 0, 0);
    assert!(matches!(insn, BpfInsn::Exit));
}

// ── ALU extension ─────────────────────────────────────────────

#[test]
fn parse_insn_sub_imm() {
    let insn = parse(opcode::SUB_IMM, 1, 0, 0, -7);
    assert!(matches!(insn, BpfInsn::SubImm { dst: 1, imm: -7 }));
}

#[test]
fn parse_insn_sub_reg() {
    let insn = parse(opcode::SUB_REG, 0, 6, 0, 0);
    assert!(matches!(insn, BpfInsn::SubReg { dst: 0, src: 6 }));
}

#[test]
fn parse_insn_and_or_xor() {
    assert!(matches!(
        parse(opcode::AND_IMM, 1, 0, 0, 8),
        BpfInsn::AndImm { dst: 1, imm: 8 }
    ));
    assert!(matches!(
        parse(opcode::AND_REG, 1, 2, 0, 0),
        BpfInsn::AndReg { dst: 1, src: 2 }
    ));
    assert!(matches!(
        parse(opcode::OR_IMM, 1, 0, 0, 8),
        BpfInsn::OrImm { dst: 1, imm: 8 }
    ));
    assert!(matches!(
        parse(opcode::OR_REG, 1, 2, 0, 0),
        BpfInsn::OrReg { dst: 1, src: 2 }
    ));
    assert!(matches!(
        parse(opcode::XOR_IMM, 1, 0, 0, 8),
        BpfInsn::XorImm { dst: 1, imm: 8 }
    ));
    assert!(matches!(
        parse(opcode::XOR_REG, 1, 2, 0, 0),
        BpfInsn::XorReg { dst: 1, src: 2 }
    ));
}

#[test]
fn parse_insn_shifts() {
    assert!(matches!(
        parse(opcode::LSH_IMM, 1, 0, 0, 4),
        BpfInsn::LshImm { dst: 1, imm: 4 }
    ));
    assert!(matches!(
        parse(opcode::LSH_REG, 1, 2, 0, 0),
        BpfInsn::LshReg { dst: 1, src: 2 }
    ));
    assert!(matches!(
        parse(opcode::RSH_IMM, 1, 0, 0, 4),
        BpfInsn::RshImm { dst: 1, imm: 4 }
    ));
    assert!(matches!(
        parse(opcode::RSH_REG, 1, 2, 0, 0),
        BpfInsn::RshReg { dst: 1, src: 2 }
    ));
    assert!(matches!(
        parse(opcode::ARSH_IMM, 1, 0, 0, 4),
        BpfInsn::ArshImm { dst: 1, imm: 4 }
    ));
    assert!(matches!(
        parse(opcode::ARSH_REG, 1, 2, 0, 0),
        BpfInsn::ArshReg { dst: 1, src: 2 }
    ));
}

#[test]
fn parse_insn_alu32_forms() {
    // ALU32 is the BPF_ALU class (0x04), not a flag on the ALU64 op
    assert!(matches!(
        parse(opcode::ADD32_IMM, 1, 0, 0, 5),
        BpfInsn::Add32Imm { dst: 1, imm: 5 }
    ));
    assert!(matches!(
        parse(opcode::ADD32_REG, 1, 2, 0, 0),
        BpfInsn::Add32Reg { dst: 1, src: 2 }
    ));
    assert!(matches!(
        parse(opcode::SUB32_IMM, 1, 0, 0, 5),
        BpfInsn::Sub32Imm { dst: 1, imm: 5 }
    ));
    assert!(matches!(
        parse(opcode::AND32_REG, 1, 2, 0, 0),
        BpfInsn::And32Reg { dst: 1, src: 2 }
    ));
    assert!(matches!(
        parse(opcode::OR32_IMM, 1, 0, 0, 5),
        BpfInsn::Or32Imm { dst: 1, imm: 5 }
    ));
    assert!(matches!(
        parse(opcode::XOR32_REG, 1, 2, 0, 0),
        BpfInsn::Xor32Reg { dst: 1, src: 2 }
    ));
    assert!(matches!(
        parse(opcode::LSH32_IMM, 1, 0, 0, 4),
        BpfInsn::Lsh32Imm { dst: 1, imm: 4 }
    ));
    assert!(matches!(
        parse(opcode::RSH32_REG, 1, 2, 0, 0),
        BpfInsn::Rsh32Reg { dst: 1, src: 2 }
    ));
    assert!(matches!(
        parse(opcode::ARSH32_IMM, 1, 0, 0, 4),
        BpfInsn::Arsh32Imm { dst: 1, imm: 4 }
    ));
}

#[test]
fn parse_insn_compare_variants() {
    assert!(matches!(
        parse(opcode::JNE, 1, 2, 1, 0),
        BpfInsn::Jne {
            dst: 1,
            src: 2,
            offset: 1
        }
    ));
    assert!(matches!(
        parse(opcode::JGE, 1, 2, 1, 0),
        BpfInsn::Jge {
            dst: 1,
            src: 2,
            offset: 1
        }
    ));
    assert!(matches!(
        parse(opcode::JLT, 1, 2, 1, 0),
        BpfInsn::Jlt {
            dst: 1,
            src: 2,
            offset: 1
        }
    ));
    assert!(matches!(
        parse(opcode::JLE, 1, 2, 1, 0),
        BpfInsn::Jle {
            dst: 1,
            src: 2,
            offset: 1
        }
    ));
    assert!(matches!(
        parse(opcode::JSGT, 1, 2, 1, 0),
        BpfInsn::Jsgt {
            dst: 1,
            src: 2,
            offset: 1
        }
    ));
    assert!(matches!(
        parse(opcode::JSGE, 1, 2, 1, 0),
        BpfInsn::Jsge {
            dst: 1,
            src: 2,
            offset: 1
        }
    ));
    assert!(matches!(
        parse(opcode::JSLT, 1, 2, 1, 0),
        BpfInsn::Jslt {
            dst: 1,
            src: 2,
            offset: 1
        }
    ));
    assert!(matches!(
        parse(opcode::JSLE, 1, 2, 1, 0),
        BpfInsn::Jsle {
            dst: 1,
            src: 2,
            offset: 1
        }
    ));
}

// ── Real-ISA decode rules ───────────────────────────────────

#[test]
fn parse_insn_unknown_opcode_rejected() {
    // an opcode outside the kernel's instruction table is a decode
    // error, not a panic (0xef: ALU64 class with an unused op bits)
    let err = parse_insn(&insn_bytes(0xEF, 0, 0, 0, 0)).unwrap_err();
    assert_eq!(err, DecodeError::UnknownOpcode { op: 0xEF });
    assert_eq!(err.message(), "unknown opcode 0xef");
}

#[test]
fn parse_insn_invalid_register() {
    // register fields above R10 are rejected like the kernel
    // ("R%d is invalid"), before any opcode check
    let err = parse_insn(&insn_bytes(opcode::MOV_IMM, 11, 0, 0, 0)).unwrap_err();
    assert_eq!(err, DecodeError::InvalidRegister { reg: 11 });
    let err = parse_insn(&insn_bytes(opcode::MOV_REG, 0, 15, 0, 0)).unwrap_err();
    assert_eq!(err, DecodeError::InvalidRegister { reg: 15 });
}

#[test]
fn parse_insn_reserved_fields() {
    // BPF_K form with a non-zero src_reg
    let err = parse_insn(&insn_bytes(opcode::ADD_IMM, 1, 2, 0, 5)).unwrap_err();
    assert_eq!(
        err,
        DecodeError::ReservedFields {
            message: "BPF_ALU uses reserved fields"
        }
    );
    // BPF_X form with a non-zero imm
    let err = parse_insn(&insn_bytes(opcode::ADD_REG, 1, 2, 0, 5)).unwrap_err();
    assert_eq!(
        err,
        DecodeError::ReservedFields {
            message: "BPF_ALU uses reserved fields"
        }
    );
    // MOV uses its own message
    let err = parse_insn(&insn_bytes(opcode::MOV_IMM, 1, 2, 0, 5)).unwrap_err();
    assert_eq!(
        err,
        DecodeError::ReservedFields {
            message: "BPF_MOV uses reserved fields"
        }
    );
    // compare X-form with a non-zero imm
    let err = parse_insn(&insn_bytes(opcode::JEQ, 1, 2, 1, 3)).unwrap_err();
    assert_eq!(
        err,
        DecodeError::ReservedFields {
            message: "BPF_JMP uses reserved fields"
        }
    );
    // JA with a non-zero src_reg / dst_reg / imm
    let err = parse_insn(&insn_bytes(opcode::JMP, 1, 0, 2, 0)).unwrap_err();
    assert_eq!(
        err,
        DecodeError::ReservedFields {
            message: "BPF_JA uses reserved fields"
        }
    );
    // EXIT with a non-zero imm
    let err = parse_insn(&insn_bytes(opcode::EXIT, 0, 0, 0, 1)).unwrap_err();
    assert_eq!(
        err,
        DecodeError::ReservedFields {
            message: "BPF_EXIT uses reserved fields"
        }
    );
    // CALL with a non-zero dst_reg or off
    let err = parse_insn(&insn_bytes(opcode::CALL, 1, 0, 0, 7)).unwrap_err();
    assert_eq!(
        err,
        DecodeError::ReservedFields {
            message: "BPF_CALL uses reserved fields"
        }
    );
    let err = parse_insn(&insn_bytes(opcode::CALL, 0, 0, 1, 7)).unwrap_err();
    assert_eq!(
        err,
        DecodeError::ReservedFields {
            message: "BPF_CALL uses reserved fields"
        }
    );
    // LDX/STX with a non-zero imm
    let err = parse_insn(&insn_bytes(opcode::LD_STACK, 0, 10, -8, 1)).unwrap_err();
    assert_eq!(
        err,
        DecodeError::ReservedFields {
            message: "memory access uses reserved fields"
        }
    );
    let err = parse_insn(&insn_bytes(opcode::ST_STACK, 10, 1, -8, 1)).unwrap_err();
    assert_eq!(
        err,
        DecodeError::ReservedFields {
            message: "memory access uses reserved fields"
        }
    );
}

#[test]
fn parse_insn_ld_st_base_register() {
    // LDX/STX accept any base register at decode; the
    // verifier requires a stack pointer at exec time
    let insn = parse_insn(&insn_bytes(opcode::LD_STACK, 0, 1, -8, 0)).unwrap();
    assert!(matches!(
        insn,
        BpfInsn::LdMem {
            dst: 0,
            base: 1,
            offset: -8,
            size: MemSize::DW,
            sign_extend: false
        }
    ));
    let insn = parse_insn(&insn_bytes(opcode::ST_STACK, 1, 2, -8, 0)).unwrap();
    assert!(matches!(
        insn,
        BpfInsn::StMem {
            src: 2,
            base: 1,
            offset: -8,
            size: MemSize::DW
        }
    ));
}

#[test]
fn parse_insn_call_src_reg_rules() {
    // src_reg 1 is BPF_PSEUDO_CALL — decoded as a subprogram call
    // with the pc-relative offset
    assert_eq!(
        parse_insn(&insn_bytes(opcode::CALL, 0, 1, 0, 7)).unwrap(),
        BpfInsn::CallSub { offset: 7 }
    );
    // src_reg 2 is BPF_PSEUDO_KFUNC_CALL — decoded as a kfunc call
    // with the BTF id
    assert_eq!(
        parse_insn(&insn_bytes(opcode::CALL, 0, 2, 0, 7)).unwrap(),
        BpfInsn::CallKfunc { btf_id: 7 }
    );
    // src_reg 3+ is a reserved field violation
    let err = parse_insn(&insn_bytes(opcode::CALL, 0, 3, 0, 7)).unwrap_err();
    assert_eq!(
        err,
        DecodeError::ReservedFields {
            message: "BPF_CALL uses reserved fields"
        }
    );
}

#[test]
fn parse_insn_unsupported_opcodes() {
    // every unimplemented kernel opcode class gets a structured
    // Unsupported error with a reason
    let unsupported = [
        // BPF_ST|BPF_XADD (store-immediate atomic, unmapped)
        (0xc2, "BPF_ST"),
        // BPF_JMP32|BPF_JA
        (0x06, "BPF_JMP32"),
        // BPF_ALU64|BPF_MUL|BPF_K
        (0x27, "MUL"),
        // BPF_ALU|BPF_NEG
        (0x84, "BPF_NEG"),
        // BPF_ALU64|BPF_END
        (0xd7, "BPF_END"),
        // BPF_ALU|BPF_MOV|BPF_K (32-bit MOV)
        (0xb4, "MOV"),
        // BPF_JMP|BPF_JSET|BPF_K
        (0x45, "BPF_JSET"),
        // BPF_LD|BPF_ABS (the legacy absolute load)
        (0x60, "BPF_LD"),
        // BPF_STX|BPF_ATOMIC|BPF_DW
        (0xdb, "stores"),
    ];
    for (op, needle) in unsupported {
        let err = parse_insn(&insn_bytes(op, 0, 0, 0, 0)).unwrap_err();
        assert!(
            matches!(err, DecodeError::Unsupported { .. }),
            "op {:#04x} should be unsupported, got {:?}",
            op,
            err
        );
        let text = err.message();
        assert!(
            text.contains(needle),
            "op {:#04x}: {:?} does not mention {:?}",
            op,
            err,
            needle
        );
    }
}

#[test]
fn parse_insn_compare_imm_forms() {
    // the BPF_J*_K forms decode to the immediate compare variants
    //; the immediate is the compare operand
    assert!(matches!(
        parse(opcode::JEQ_IMM, 1, 0, 2, 42),
        BpfInsn::JeqImm {
            dst: 1,
            imm: 42,
            offset: 2
        }
    ));
    assert!(matches!(
        parse(opcode::JNE_IMM, 1, 0, 2, -1),
        BpfInsn::JneImm {
            dst: 1,
            imm: -1,
            offset: 2
        }
    ));
    assert!(matches!(
        parse(opcode::JGT_IMM, 1, 0, 2, 5),
        BpfInsn::JgtImm {
            dst: 1,
            imm: 5,
            offset: 2
        }
    ));
    assert!(matches!(
        parse(opcode::JGE_IMM, 1, 0, 2, 5),
        BpfInsn::JgeImm {
            dst: 1,
            imm: 5,
            offset: 2
        }
    ));
    assert!(matches!(
        parse(opcode::JLT_IMM, 1, 0, 2, 5),
        BpfInsn::JltImm {
            dst: 1,
            imm: 5,
            offset: 2
        }
    ));
    assert!(matches!(
        parse(opcode::JLE_IMM, 1, 0, 2, 5),
        BpfInsn::JleImm {
            dst: 1,
            imm: 5,
            offset: 2
        }
    ));
    assert!(matches!(
        parse(opcode::JSGT_IMM, 1, 0, 2, -7),
        BpfInsn::JsgtImm {
            dst: 1,
            imm: -7,
            offset: 2
        }
    ));
    assert!(matches!(
        parse(opcode::JSGE_IMM, 1, 0, 2, -7),
        BpfInsn::JsgeImm {
            dst: 1,
            imm: -7,
            offset: 2
        }
    ));
    assert!(matches!(
        parse(opcode::JSLT_IMM, 1, 0, 2, -7),
        BpfInsn::JsltImm {
            dst: 1,
            imm: -7,
            offset: 2
        }
    ));
    assert!(matches!(
        parse(opcode::JSLE_IMM, 1, 0, 2, -7),
        BpfInsn::JsleImm {
            dst: 1,
            imm: -7,
            offset: 2
        }
    ));
}

#[test]
fn parse_insn_compare_imm_reserved_src() {
    // the BPF_J*_K form reserves src_reg (check_jmp_fields)
    let err = parse_insn(&insn_bytes(opcode::JEQ_IMM, 1, 2, 1, 5)).unwrap_err();
    assert_eq!(
        err,
        DecodeError::ReservedFields {
            message: "BPF_JMP uses reserved fields"
        }
    );
}

#[test]
fn parse_insn_real_layout() {
    // pin the raw byte layout of one instruction: kernel
    // bpf_insn is [code, dst|src, off_le16, imm_le32]
    // r1 = 42  →  BPF_ALU64|BPF_MOV|BPF_K, dst_reg = 1
    let insn = parse_insn(&[0xb7, 0x01, 0x00, 0x00, 0x2a, 0x00, 0x00, 0x00]).unwrap();
    assert!(matches!(insn, BpfInsn::MovImm { dst: 1, imm: 42 }));
}

// ── RegState (v0.2) ─────────────────────────────────────────────────────

#[test]
fn disassemble_instructions() {
    assert_eq!(disassemble(&BpfInsn::MovImm { dst: 2, imm: 10 }), "r2 = 10");
    assert_eq!(disassemble(&BpfInsn::MovReg { dst: 0, src: 2 }), "r0 = r2");
    assert_eq!(disassemble(&BpfInsn::AddImm { dst: 2, imm: 5 }), "r2 += 5");
    assert_eq!(disassemble(&BpfInsn::AddReg { dst: 1, src: 2 }), "r1 += r2");
    assert_eq!(
        disassemble(&BpfInsn::LdMem {
            dst: 0,
            base: 10,
            offset: -8,
            size: MemSize::DW,
            sign_extend: false
        }),
        "r0 = [r10-8]"
    );
    assert_eq!(
        disassemble(&BpfInsn::StMem {
            src: 2,
            base: 10,
            offset: -16,
            size: MemSize::DW
        }),
        "[r10-16] = r2"
    );
    assert_eq!(
        disassemble(&BpfInsn::LdMem {
            dst: 0,
            base: 6,
            offset: 0,
            size: MemSize::DW,
            sign_extend: false
        }),
        "r0 = [r6+0]"
    );
    assert_eq!(
        disassemble(&BpfInsn::Jeq {
            dst: 1,
            src: 2,
            offset: 1
        }),
        "if r1 == r2 goto +1"
    );
    assert_eq!(
        disassemble(&BpfInsn::Jgt {
            dst: 1,
            src: 2,
            offset: -2
        }),
        "if r1 > r2 goto -2"
    );
    assert_eq!(disassemble(&BpfInsn::Jmp { offset: 3 }), "goto +3");
    assert_eq!(disassemble(&BpfInsn::Call { imm: 2 }), "call 2");
    assert_eq!(disassemble(&BpfInsn::Exit), "exit");
}

// ── ALU extension ─────────────────────────────────────────────

#[test]
fn disassemble_alu_extension() {
    assert_eq!(disassemble(&BpfInsn::SubImm { dst: 2, imm: 3 }), "r2 -= 3");
    assert_eq!(disassemble(&BpfInsn::SubReg { dst: 1, src: 2 }), "r1 -= r2");
    assert_eq!(disassemble(&BpfInsn::AndImm { dst: 2, imm: 3 }), "r2 &= 3");
    assert_eq!(disassemble(&BpfInsn::AndReg { dst: 1, src: 2 }), "r1 &= r2");
    assert_eq!(disassemble(&BpfInsn::OrImm { dst: 2, imm: 3 }), "r2 |= 3");
    assert_eq!(disassemble(&BpfInsn::OrReg { dst: 1, src: 2 }), "r1 |= r2");
    assert_eq!(disassemble(&BpfInsn::XorImm { dst: 2, imm: 3 }), "r2 ^= 3");
    assert_eq!(disassemble(&BpfInsn::XorReg { dst: 1, src: 2 }), "r1 ^= r2");
    assert_eq!(disassemble(&BpfInsn::LshImm { dst: 2, imm: 4 }), "r2 <<= 4");
    assert_eq!(
        disassemble(&BpfInsn::LshReg { dst: 1, src: 2 }),
        "r1 <<= r2"
    );
    assert_eq!(disassemble(&BpfInsn::RshImm { dst: 2, imm: 4 }), "r2 >>= 4");
    assert_eq!(
        disassemble(&BpfInsn::RshReg { dst: 1, src: 2 }),
        "r1 >>= r2"
    );
    assert_eq!(
        disassemble(&BpfInsn::ArshImm { dst: 2, imm: 4 }),
        "r2 s>>= 4"
    );
    assert_eq!(
        disassemble(&BpfInsn::ArshReg { dst: 1, src: 2 }),
        "r1 s>>= r2"
    );
}

#[test]
fn disassemble_alu32_forms() {
    // ALU32 uses the kernel's w-register notation
    assert_eq!(
        disassemble(&BpfInsn::Add32Imm { dst: 2, imm: 5 }),
        "w2 += 5"
    );
    assert_eq!(
        disassemble(&BpfInsn::Add32Reg { dst: 1, src: 2 }),
        "w1 += r2"
    );
    assert_eq!(
        disassemble(&BpfInsn::Sub32Imm { dst: 2, imm: 5 }),
        "w2 -= 5"
    );
    assert_eq!(
        disassemble(&BpfInsn::And32Imm { dst: 2, imm: 3 }),
        "w2 &= 3"
    );
    assert_eq!(
        disassemble(&BpfInsn::Or32Reg { dst: 1, src: 2 }),
        "w1 |= r2"
    );
    assert_eq!(
        disassemble(&BpfInsn::Xor32Imm { dst: 2, imm: 3 }),
        "w2 ^= 3"
    );
    assert_eq!(
        disassemble(&BpfInsn::Lsh32Imm { dst: 2, imm: 4 }),
        "w2 <<= 4"
    );
    assert_eq!(
        disassemble(&BpfInsn::Rsh32Imm { dst: 2, imm: 4 }),
        "w2 >>= 4"
    );
    assert_eq!(
        disassemble(&BpfInsn::Arsh32Imm { dst: 2, imm: 4 }),
        "w2 s>>= 4"
    );
}

#[test]
fn disassemble_compare_variants() {
    assert_eq!(
        disassemble(&BpfInsn::Jne {
            dst: 1,
            src: 2,
            offset: 1
        }),
        "if r1 != r2 goto +1"
    );
    assert_eq!(
        disassemble(&BpfInsn::Jge {
            dst: 1,
            src: 2,
            offset: 1
        }),
        "if r1 >= r2 goto +1"
    );
    assert_eq!(
        disassemble(&BpfInsn::Jlt {
            dst: 1,
            src: 2,
            offset: 1
        }),
        "if r1 < r2 goto +1"
    );
    assert_eq!(
        disassemble(&BpfInsn::Jle {
            dst: 1,
            src: 2,
            offset: 1
        }),
        "if r1 <= r2 goto +1"
    );
    assert_eq!(
        disassemble(&BpfInsn::Jsgt {
            dst: 1,
            src: 2,
            offset: 1
        }),
        "if r1 s> r2 goto +1"
    );
    assert_eq!(
        disassemble(&BpfInsn::Jsge {
            dst: 1,
            src: 2,
            offset: 1
        }),
        "if r1 s>= r2 goto +1"
    );
    assert_eq!(
        disassemble(&BpfInsn::Jslt {
            dst: 1,
            src: 2,
            offset: 1
        }),
        "if r1 s< r2 goto +1"
    );
    assert_eq!(
        disassemble(&BpfInsn::Jsle {
            dst: 1,
            src: 2,
            offset: 1
        }),
        "if r1 s<= r2 goto +1"
    );
}

#[test]
fn disassemble_compare_imm_forms() {
    assert_eq!(
        disassemble(&BpfInsn::JeqImm {
            dst: 1,
            imm: 5,
            offset: 2
        }),
        "if r1 == 5 goto +2"
    );
    assert_eq!(
        disassemble(&BpfInsn::JneImm {
            dst: 1,
            imm: 5,
            offset: 2
        }),
        "if r1 != 5 goto +2"
    );
    assert_eq!(
        disassemble(&BpfInsn::JgtImm {
            dst: 1,
            imm: 5,
            offset: 2
        }),
        "if r1 > 5 goto +2"
    );
    assert_eq!(
        disassemble(&BpfInsn::JgeImm {
            dst: 1,
            imm: 5,
            offset: 2
        }),
        "if r1 >= 5 goto +2"
    );
    assert_eq!(
        disassemble(&BpfInsn::JltImm {
            dst: 1,
            imm: 5,
            offset: 2
        }),
        "if r1 < 5 goto +2"
    );
    assert_eq!(
        disassemble(&BpfInsn::JleImm {
            dst: 1,
            imm: 5,
            offset: 2
        }),
        "if r1 <= 5 goto +2"
    );
    assert_eq!(
        disassemble(&BpfInsn::JsgtImm {
            dst: 1,
            imm: -1,
            offset: 2
        }),
        "if r1 s> -1 goto +2"
    );
    assert_eq!(
        disassemble(&BpfInsn::JsgeImm {
            dst: 1,
            imm: -1,
            offset: 2
        }),
        "if r1 s>= -1 goto +2"
    );
    assert_eq!(
        disassemble(&BpfInsn::JsltImm {
            dst: 1,
            imm: -1,
            offset: 2
        }),
        "if r1 s< -1 goto +2"
    );
    assert_eq!(
        disassemble(&BpfInsn::JsleImm {
            dst: 1,
            imm: -1,
            offset: 2
        }),
        "if r1 s<= -1 goto +2"
    );
}
