use rand_verifier::fuzz::insn_lib::{
    add32_imm, add32_reg, add_imm, add_reg, and32_imm, and32_reg, and_imm, and_reg, arsh32_imm, arsh32_reg, arsh_imm, arsh_reg, call, encode, exit, jeq, jeq_imm, jge, jge_imm, jgt, jgt_imm, jle, jle_imm, jlt, jlt_imm, jmp, jne, jne_imm, jsge, jsge_imm, jsgt, jsgt_imm, jsle, jsle_imm, jslt, jslt_imm, ld_stack, lsh32_imm, lsh32_reg, lsh_imm, lsh_reg, mov_imm, mov_reg, or32_imm, or32_reg, or_imm, or_reg, rsh32_imm, rsh32_reg, rsh_imm, rsh_reg, st_stack, sub32_imm, sub32_reg, sub_imm, sub_reg, xor32_imm, xor32_reg, xor_imm, xor_reg,
    ALU_REGS, IMMEDIATES, OFFSETS, REGS,
};
use rand_verifier::insn::{parse_insn, BpfInsn};
use rand_verifier::opcode;

/// The eight bytes of one slot.
fn insn_bytes(op: u8, dst: u8, src: u8, off: i16, imm: i32) -> [u8; 8] {
    let o = off.to_le_bytes();
    let i = imm.to_le_bytes();
    [op, (src << 4) | (dst & 0x0f), o[0], o[1], i[0], i[1], i[2], i[3]]
}


/// One builder output per supported opcode — the exhaustive builder
/// inventory. Used by the round-trip and coverage tests.
fn all_builders() -> Vec<BpfInsn> {
    vec![
        // ALU64 K/X
        mov_imm(0, 0),
        mov_reg(0, 1),
        add_imm(1, 0),
        add_reg(1, 2),
        sub_imm(2, 0),
        sub_reg(2, 3),
        and_imm(3, 0),
        and_reg(3, 4),
        or_imm(4, 0),
        or_reg(4, 5),
        xor_imm(5, 0),
        xor_reg(5, 6),
        lsh_imm(6, 0),
        lsh_reg(6, 7),
        rsh_imm(7, 0),
        rsh_reg(7, 8),
        arsh_imm(8, 0),
        arsh_reg(8, 9),
        // ALU32 K/X
        add32_imm(1, 0),
        add32_reg(1, 2),
        sub32_imm(2, 0),
        sub32_reg(2, 3),
        and32_imm(3, 0),
        and32_reg(3, 4),
        or32_imm(4, 0),
        or32_reg(4, 5),
        xor32_imm(5, 0),
        xor32_reg(5, 6),
        lsh32_imm(6, 0),
        lsh32_reg(6, 7),
        rsh32_imm(7, 0),
        rsh32_reg(7, 8),
        arsh32_imm(8, 0),
        arsh32_reg(8, 9),
        // stack
        ld_stack(6, -8),
        st_stack(6, -8),
        // compares X
        jeq(0, 1, 1),
        jne(0, 1, 1),
        jgt(0, 1, 1),
        jge(0, 1, 1),
        jlt(0, 1, 1),
        jle(0, 1, 1),
        jsgt(0, 1, 1),
        jsge(0, 1, 1),
        jslt(0, 1, 1),
        jsle(0, 1, 1),
        // compares K
        jeq_imm(0, 0, 1),
        jne_imm(0, 0, 1),
        jgt_imm(0, 0, 1),
        jge_imm(0, 0, 1),
        jlt_imm(0, 0, 1),
        jle_imm(0, 0, 1),
        jsgt_imm(0, 0, 1),
        jsge_imm(0, 0, 1),
        jslt_imm(0, 0, 1),
        jsle_imm(0, 0, 1),
        // control
        jmp(1),
        call(7),
        exit(),
    ]
}

/// Every builder output must encode and decode back to itself.
#[test]
fn encode_roundtrip() {
    for insn in all_builders() {
        let bytes = encode(&insn);
        let decoded =
            parse_insn(&bytes).unwrap_or_else(|e| panic!("{insn:?} failed to decode: {e:?}"));
        assert_eq!(decoded, insn, "round-trip mismatch");
    }
}

/// The encoder must reproduce the exact kernel byte encoding.
#[test]
fn encode_known_bytes() {
    assert_eq!(
        encode(&mov_imm(0, 42)),
        insn_bytes(opcode::MOV_IMM, 0, 0, 0, 42)
    );
    assert_eq!(
        encode(&add_reg(0, 2)),
        insn_bytes(opcode::ADD_REG, 0, 2, 0, 0)
    );
    assert_eq!(
        encode(&add32_imm(3, -1)),
        insn_bytes(opcode::ADD32_IMM, 3, 0, 0, -1)
    );
    assert_eq!(
        encode(&jeq_imm(1, 0, 2)),
        insn_bytes(opcode::JEQ_IMM, 1, 0, 2, 0)
    );
    assert_eq!(
        encode(&ld_stack(6, -8)),
        insn_bytes(opcode::LD_STACK, 6, 10, -8, 0)
    );
    assert_eq!(
        encode(&st_stack(6, -8)),
        insn_bytes(opcode::ST_STACK, 10, 6, -8, 0)
    );
    assert_eq!(encode(&call(7)), insn_bytes(opcode::CALL, 0, 0, 0, 7));
    assert_eq!(encode(&exit()), insn_bytes(opcode::EXIT, 0, 0, 0, 0));
}

/// The builder inventory covers exactly the supported opcode table:
/// every opcode constant decodes from some builder output, and no
/// builder output uses an opcode outside the table.
#[test]
fn opcode_coverage() {
    let supported = [
        opcode::MOV_IMM,
        opcode::MOV_REG,
        opcode::ADD_IMM,
        opcode::ADD_REG,
        opcode::SUB_IMM,
        opcode::SUB_REG,
        opcode::AND_IMM,
        opcode::AND_REG,
        opcode::OR_IMM,
        opcode::OR_REG,
        opcode::XOR_IMM,
        opcode::XOR_REG,
        opcode::LSH_IMM,
        opcode::LSH_REG,
        opcode::RSH_IMM,
        opcode::RSH_REG,
        opcode::ARSH_IMM,
        opcode::ARSH_REG,
        opcode::ADD32_IMM,
        opcode::ADD32_REG,
        opcode::SUB32_IMM,
        opcode::SUB32_REG,
        opcode::AND32_IMM,
        opcode::AND32_REG,
        opcode::OR32_IMM,
        opcode::OR32_REG,
        opcode::XOR32_IMM,
        opcode::XOR32_REG,
        opcode::LSH32_IMM,
        opcode::LSH32_REG,
        opcode::RSH32_IMM,
        opcode::RSH32_REG,
        opcode::ARSH32_IMM,
        opcode::ARSH32_REG,
        opcode::LD_STACK,
        opcode::ST_STACK,
        opcode::JEQ,
        opcode::JEQ_IMM,
        opcode::JNE,
        opcode::JNE_IMM,
        opcode::JGT,
        opcode::JGT_IMM,
        opcode::JGE,
        opcode::JGE_IMM,
        opcode::JLT,
        opcode::JLT_IMM,
        opcode::JLE,
        opcode::JLE_IMM,
        opcode::JSGT,
        opcode::JSGT_IMM,
        opcode::JSGE,
        opcode::JSGE_IMM,
        opcode::JSLT,
        opcode::JSLT_IMM,
        opcode::JSLE,
        opcode::JSLE_IMM,
        opcode::JMP,
        opcode::CALL,
        opcode::EXIT,
    ];

    let mut builder_codes: Vec<u8> = all_builders().iter().map(|i| encode(i)[0]).collect();
    builder_codes.sort_unstable();
    let mut supported_codes = supported.to_vec();
    supported_codes.sort_unstable();

    assert_eq!(
        builder_codes, supported_codes,
        "builder inventory and the opcode table drifted apart"
    );
    assert_eq!(all_builders().len(), supported.len());
}

/// The value pools stay within their field widths and carry the
/// boundary values the fuzzer relies on.
#[test]
fn value_pool_bounds() {
    assert!(OFFSETS.contains(&0));
    assert!(OFFSETS.contains(&256));
    assert!(OFFSETS.contains(&-64));
    assert!(IMMEDIATES.contains(&i32::MIN));
    assert!(IMMEDIATES.contains(&i32::MAX));
    assert!(IMMEDIATES.contains(&0));
    assert!(IMMEDIATES.contains(&-1));
    assert_eq!(REGS.len(), 11);
    assert!(REGS.contains(&10));
    assert_eq!(ALU_REGS.len(), 10);
    assert!(!ALU_REGS.contains(&10), "R10 must not be an ALU operand");
}
