use rand_verifier::insn::{decode_program, BpfInsn};
use rand_verifier::interval::{rng_add, rng_and, rng_mul, rng_or, rng_sub, rng_xor, Range};
use rand_verifier::smt::range::{
    encode_cmp, encode_uadd, encode_uand, encode_umul, encode_uor, encode_usub, encode_uxor,
    in_range, rust_cmp, sign_extend32, truncate32, zero_extend32, RangeCmp, RANGE_WIDTH,
};
use rand_verifier::smt::range_check::search_range;
use rand_verifier::smt::synth::{
    candidates, find_gaps, interval_width, opcodes, render_ranked, witness_program,
    PrecisionWitness,
};
use rand_verifier::smt::tnum::{
    concretize, encode_add, encode_and, encode_arshift, encode_from_range, encode_lshift,
    encode_or, encode_rshift, encode_sub, encode_subreg, encode_xor, TNUM_WIDTH,
};
use rand_verifier::smt::verify::{
    exhaustive_range_binary, exhaustive_tnum_binary, exhaustive_tnum_mul, fresh_tnum, range_op_w,
    random_range_binary, random_tnum_mul, render_catalog, search_tnum, symbolic_range_binary,
    symbolic_tnum_binary, symbolic_tnum_shifts, tnum_members, Arith, RangeOp, TnumConcreteOp,
    Violation, XorShift,
};
use rand_verifier::smt::word::{
    find_assignment, number_or_zero, satisfiable, Claim, Reply, Word,
};
use rand_verifier::smt::{Sym, SymRange, SymTnum};
use rand_verifier::tnum::Tnum;

// ── Terms ───────────────────────────────────────────────────────────────────

fn word(v: u64, width: u32) -> Word {
    Sym::const_u64(v, width).bv
}

fn sym_tnum(t: Tnum) -> SymTnum {
    SymTnum { value: word(t.value, TNUM_WIDTH), mask: word(t.mask, TNUM_WIDTH) }
}

fn sym(r: Range) -> SymRange {
    SymRange { lo: word(r.0, RANGE_WIDTH), hi: word(r.1, RANGE_WIDTH) }
}

/// The claim that a term of 64 bits is a number.
fn is(w: &Word, v: u64) -> Claim {
    encode_cmp(RangeCmp::Eq, w, &word(v, 64))
}

/// The solver decides whether the claims can hold together.
fn holds(claims: &[Claim]) -> bool {
    satisfiable(claims).expect("decided")
}

fn is_tnum(out: &SymTnum, expected: Tnum) -> bool {
    holds(&[is(&out.value, expected.value), is(&out.mask, expected.mask)])
}

fn is_range(out: &(Word, Word), expected: Range) -> bool {
    holds(&[is(&out.0, expected.0), is(&out.1, expected.1)])
}

fn t(v: u64, m: u64) -> Tnum {
    Tnum { value: v, mask: m }
}

// ── The encodings of the operators on tracked numbers ───────────────────────

#[test]
fn tnum_encodings_match_rust() {
    let cases = [
        t(0, 0),
        t(0x1234, 0),
        t(0, u64::MAX),
        t(0x0101, 0x1010),
        t(0xFFFF_FFFF_0000_0000, 0x0000_0000_FFFF_FFFF),
        t(0x8000_0000_0000_0000, 0x7FFF_FFFF_FFFF_FFFF),
    ];
    for a in cases {
        for b in cases {
            let (sa, sb) = (sym_tnum(a), sym_tnum(b));
            assert!(is_tnum(&encode_add(&sa, &sb), a.add(b)), "add {a:?} {b:?}");
            assert!(is_tnum(&encode_sub(&sa, &sb), a.sub(b)), "sub {a:?} {b:?}");
            assert!(is_tnum(&encode_xor(&sa, &sb), a.xor(b)), "xor {a:?} {b:?}");
            assert!(is_tnum(&encode_and(&sa, &sb), a.and(b)), "and {a:?} {b:?}");
            assert!(is_tnum(&encode_or(&sa, &sb), a.or(b)), "or {a:?} {b:?}");
        }
    }
    // a wrong result is not accepted
    assert!(!is_tnum(&encode_add(&sym_tnum(t(1, 0)), &sym_tnum(t(2, 0))), t(4, 0)));
}

#[test]
fn tnum_shift_encodings_match_rust() {
    for k in [0u32, 1, 7, 31, 32, 63] {
        let a = t(0xFFFF_FFFF_0000_0001, 0x0000_0000_FFFF_FFFE);
        let sa = sym_tnum(a);
        let kk = word(k as u64, TNUM_WIDTH);
        for (rust, enc) in [
            (a.lshift(k), encode_lshift(&sa, &kk)),
            (a.rshift(k), encode_rshift(&sa, &kk)),
            (a.arshift(k), encode_arshift(&sa, &kk)),
        ] {
            assert!(is_tnum(&enc, rust), "shift {k}");
        }
    }
}

#[test]
fn tnum_subreg_and_range_encode() {
    // subreg: high bits cleared
    let a = t(0xFFFF_FFFF_0000_0001, 0x0000_0000_FFFF_FFFE);
    let out = encode_subreg(&sym_tnum(a));
    let subreg = a.subreg();
    assert!(is_tnum(&out, subreg));
    // from_range: the known prefix above the highest differing bit
    let out = encode_from_range(&word(0x100, TNUM_WIDTH), &word(0x1FF, TNUM_WIDTH));
    assert!(is_tnum(&out, t(0x100, 0xFF)));
    assert_eq!(Tnum::from_range(0x100, 0x1FF), t(0x100, 0xFF));
    // from_range constant
    let out = encode_from_range(&word(42, TNUM_WIDTH), &word(42, TNUM_WIDTH));
    assert!(holds(&[is(&out.mask, 0)]));
    assert_eq!(Tnum::from_range(42, 42), t(42, 0));
    assert_eq!(Tnum::from_range(0, u64::MAX), t(0, u64::MAX));
}

// ── The encodings of the operations on intervals ────────────────────────────

#[test]
fn range_encodings_match_rust() {
    let cases: [(u64, u64); 6] = [
        (0, 0),
        (5, 5),
        (0, 100),
        (u64::MAX - 2, u64::MAX),
        (0x8000_0000_0000_0000, 0xFFFF_FFFF_FFFF_FFFF),
        (0x0000_0000_0000_0001, 0x0000_0001_0000_0000),
    ];
    for a in cases {
        for b in cases {
            let (sa, sb) = (sym(a), sym(b));
            assert!(is_range(&encode_uadd(&sa, &sb), rng_add(a, b)), "add {a:?} {b:?}");
            assert!(is_range(&encode_usub(&sa, &sb), rng_sub(a, b)), "sub {a:?} {b:?}");
            assert!(is_range(&encode_umul(&sa, &sb), rng_mul(a, b)), "mul {a:?} {b:?}");
            assert!(is_range(&encode_uand(&sa, &sb), rng_and(a, b)), "and {a:?} {b:?}");
            assert!(is_range(&encode_uor(&sa, &sb), rng_or(a, b)), "or {a:?} {b:?}");
            assert!(is_range(&encode_uxor(&sa, &sb), rng_xor(a, b)), "xor {a:?} {b:?}");
        }
    }
}

/// The comparison encodings match the semantics on concrete pairs (with the sign
/// bit too).
#[test]
fn comparison_encodings_match_rust() {
    let pairs = [
        (0u64, 0u64),
        (1, 2),
        (2, 1),
        (u64::MAX, 1),
        (1, u64::MAX),
        (0x8000_0000_0000_0000, 1),
        (1, 0x8000_0000_0000_0000),
        (0xFFFF_FFFF_FFFF_FFFF, 0xFFFF_FFFF_FFFF_FFFE),
    ];
    for (d, s) in pairs {
        for how in [
            RangeCmp::Eq,
            RangeCmp::Ne,
            RangeCmp::Ult,
            RangeCmp::Ule,
            RangeCmp::Ugt,
            RangeCmp::Uge,
            RangeCmp::Slt,
            RangeCmp::Sle,
            RangeCmp::Sgt,
            RangeCmp::Sge,
        ] {
            let claim = encode_cmp(how, &word(d, RANGE_WIDTH), &word(s, RANGE_WIDTH));
            assert_eq!(holds(&[claim]), rust_cmp(how, d, s), "{how:?} {d:#x} {s:#x}");
        }
    }
    assert!(rust_cmp(RangeCmp::Slt, u64::MAX, 0));
    assert!(!rust_cmp(RangeCmp::Ult, u64::MAX, 0));
}

/// A 32-bit value with its sign bit set sign-extends to all ones in the high
/// half; zero-extension clears it.
#[test]
fn alu32_sign_extension_encoding() {
    let v = word(0x8000_0000, 32);
    let z = zero_extend32(&v);
    let s = sign_extend32(&v);
    assert!(holds(&[
        is(&z, 0x0000_0000_8000_0000),
        is(&s, 0xFFFF_FFFF_8000_0000),
    ]));
}

#[test]
fn alu32_truncation_encoding() {
    // [0x1_0000_0001, 0x1_0000_0003] becomes [1, 3]
    let (lo, hi) = truncate32(&word(0x1_0000_0001, 64), &word(0x1_0000_0003, 64));
    assert!(holds(&[is(&zero_extend32(&lo), 1), is(&zero_extend32(&hi), 3)]));
    // a range over two 32-bit blocks widens
    let (lo, hi) = truncate32(&word(0, 64), &word(u64::MAX, 64));
    assert!(holds(&[
        is(&zero_extend32(&lo), 0),
        is(&zero_extend32(&hi), u32::MAX as u64),
    ]));
}

#[test]
fn membership_claims() {
    assert!(holds(&[in_range(&word(7, 64), &sym((5, 9)))]));
    assert!(!holds(&[in_range(&word(4, 64), &sym((5, 9)))]));
    assert!(holds(&[concretize(&sym_tnum(t(4, 1)), &word(5, 64))]));
    assert!(!holds(&[concretize(&sym_tnum(t(4, 1)), &word(6, 64))]));
    assert_eq!(Sym::const_u64(255, 64).name, "0xff");
    assert_eq!(Sym::fresh("x", 8).bv.size(), 8);
}

// ── Soundness ───────────────────────────────────────────────────────────────

#[test]
fn exhaustive_tnum_add_is_sound_4bit() {
    let v = exhaustive_tnum_binary(TnumConcreteOp::Add, 4);
    assert!(v.is_empty(), "{}", render_catalog(&v));
}

#[test]
fn exhaustive_tnum_sub_and_xor_4bit() {
    for op in [TnumConcreteOp::Sub, TnumConcreteOp::Xor] {
        let v = exhaustive_tnum_binary(op, 4);
        assert!(v.is_empty(), "{}", render_catalog(&v));
    }
}

#[test]
fn exhaustive_tnum_and_or_4bit() {
    for op in [TnumConcreteOp::And, TnumConcreteOp::Or] {
        let v = exhaustive_tnum_binary(op, 4);
        assert!(v.is_empty(), "{}", render_catalog(&v));
    }
}

#[test]
fn exhaustive_tnum_add_is_sound_6bit() {
    let v = exhaustive_tnum_binary(TnumConcreteOp::Add, 6);
    assert!(v.is_empty(), "{}", render_catalog(&v));
}

#[test]
fn symbolic_tnum_operators_are_sound() {
    for op in [
        TnumConcreteOp::Add,
        TnumConcreteOp::Sub,
        TnumConcreteOp::Xor,
        TnumConcreteOp::And,
        TnumConcreteOp::Or,
    ] {
        let v = symbolic_tnum_binary(op, 20);
        assert!(v.is_empty(), "{}", render_catalog(&v));
    }
}

#[test]
fn symbolic_tnum_shifts_are_sound() {
    let v = symbolic_tnum_shifts(20);
    assert!(v.is_empty(), "{}", render_catalog(&v));
}

#[test]
fn dbg_range_exhaustive_only() {
    for op in [RangeOp::Add, RangeOp::Sub, RangeOp::Mul] {
        let v = exhaustive_range_binary(op, 4);
        println!("{op:?}: {} violations", v.len());
        assert!(v.is_empty(), "{}", render_catalog(&v));
    }
}

/// The range operators are sound: exhaustively on 4-bit ranges, by one round of
/// the solver for add (the queries for the others are too slow), and on random
/// 64-bit ranges.
#[test]
fn range_operators_are_sound() {
    for op in [RangeOp::Add, RangeOp::Sub, RangeOp::Mul] {
        let v = exhaustive_range_binary(op, 4);
        assert!(v.is_empty(), "{}", render_catalog(&v));
    }
    let v = symbolic_range_binary(RangeOp::Add, 1);
    assert!(v.is_empty(), "{}", render_catalog(&v));
    for op in [RangeOp::Add, RangeOp::Sub, RangeOp::Mul] {
        let v = random_range_binary(op, 2000, 16);
        assert!(v.is_empty(), "{}", render_catalog(&v));
    }
}

#[test]
fn tnum_mul_is_sound() {
    let v = exhaustive_tnum_mul(4);
    assert!(v.is_empty(), "{}", render_catalog(&v));
    let v = random_tnum_mul(2000, 8);
    assert!(v.is_empty(), "{}", render_catalog(&v));
}

/// The harness can find violations: that the result equals the value field
/// exactly does not hold in general.
#[test]
fn harness_catches_unsound_encoding() {
    let a = fresh_tnum("a.v", "a.m");
    let b = fresh_tnum("b.v", "b.m");
    let x = Sym::fresh("x", 64).bv;
    let y = Sym::fresh("y", 64).bv;
    let out = encode_and(&a, &b);
    let r = TnumConcreteOp::And.apply_bv(&x, &y);
    let caught = holds(&[
        concretize(&a, &x),
        concretize(&b, &y),
        encode_cmp(RangeCmp::Ne, &r, &out.value),
    ]);
    assert!(caught);
}

/// The exhaustive search reports what an unsound operator misses.
#[test]
fn search_catches_unsound_operators() {
    let forgets = |a: Tnum, b: Tnum| Tnum { value: a.value & b.value, mask: 0 };
    let v = search_tnum(&forgets, Arith::And, "broken_and", "x op y", 1, 10);
    assert_eq!(v.len(), 3);
    assert_eq!(v[0].operator, "broken_and");
    assert_eq!(v[0].input_class, "exhaustive-1");
    assert_eq!(v[0].inputs, "a=(0x0,0x1) b=(0x0,0x1)");
    assert_eq!(v[0].counterexample, "x=0x1 y=0x1 x op y=0x1 out=(0x0,0x0)");
    assert_eq!(search_tnum(&forgets, Arith::And, "broken_and", "x op y", 1, 2).len(), 2);

    let narrow = |a: Range, _b: Range| a;
    let v = search_range(&narrow, RangeOp::Add, 1, 100);
    assert_eq!(v[0].operator, "range_add");
    assert_eq!(v[0].inputs, "a=(0x0,0x0) b=(0x0,0x1)");
    assert_eq!(v[0].counterexample, "x=0x0 y=0x1 r=0x1 out=(0x0,0x0)");
}

#[test]
fn catalog_of_violations() {
    assert_eq!(render_catalog(&[]), "violation count: 0\n");
    let v = Violation {
        operator: "tnum_add",
        input_class: "exhaustive-4".to_string(),
        inputs: "a=(0x0,0x0) b=(0x0,0x0)".to_string(),
        counterexample: "x=0x0".to_string(),
    };
    assert_eq!(
        render_catalog(&[v]),
        "violation count: 1\n  tnum_add [exhaustive-4] inputs=a=(0x0,0x0) b=(0x0,0x0) cex=x=0x0\n"
    );
}

#[test]
fn members_and_narrow_ranges() {
    assert_eq!(tnum_members(&t(0b100, 0b011), 3), vec![4, 5, 6, 7]);
    assert_eq!(tnum_members(&t(0b100, 0), 3), vec![4]);
    assert_eq!(range_op_w(RangeOp::Add, (1, 2), (3, 4), 4), (4, 6));
    assert_eq!(range_op_w(RangeOp::Add, (14, 15), (0, 2), 4), (0, 15));
    assert_eq!(range_op_w(RangeOp::Add, (15, 15), (2, 3), 4), (1, 2));
    assert_eq!(range_op_w(RangeOp::Sub, (5, 7), (1, 2), 4), (3, 6));
    assert_eq!(range_op_w(RangeOp::Mul, (5, 5), (7, 7), 4), (3, 3));
    assert_eq!(range_op_w(RangeOp::Mul, (5, 6), (7, 7), 4), (0, 15));
}

#[test]
fn generator_of_the_samples() {
    let mut rng = XorShift(1);
    assert_eq!(rng.next(), 0x4082_2041);
    assert_ne!(rng.next(), 0);
}

// ── Operators on numbers ────────────────────────────────────────────────────

#[test]
fn tnum_operators_on_examples() {
    // [4, 5] + 1
    assert_eq!(t(4, 1).add(t(1, 0)), t(4, 3));
    assert_eq!(t(6, 0).sub(t(2, 0)), t(4, 0));
    assert_eq!(t(0b1100, 0b0010).and(t(0b0110, 0)), t(0b0100, 0b0010));
    assert_eq!(t(0b1000, 0b0001).or(t(0b0010, 0)), t(0b1010, 0b0001));
    assert_eq!(t(0b1000, 0b0001).xor(t(0b1011, 0)), t(0b0010, 0b0001));
    assert_eq!(t(3, 0).mul(t(5, 0)), t(15, 0));
    let product = t(2, 1).mul(t(3, 0));
    for x in [2u64, 3] {
        assert_eq!((x * 3) & !product.mask, product.value & !product.mask);
    }
    assert_eq!(t(1, 2).lshift(4), t(16, 32));
    assert_eq!(t(0x8000_0000_0000_0000, 0).arshift(63), t(u64::MAX, 0));
}

#[test]
fn interval_operations_on_examples() {
    assert_eq!(rng_add((1, 2), (10, 20)), (11, 22));
    assert_eq!(rng_add((u64::MAX, u64::MAX), (1, 3)), (0, 2));
    assert_eq!(rng_add((0, u64::MAX), (1, 1)), (0, u64::MAX));
    assert_eq!(rng_sub((10, 20), (1, 2)), (8, 19));
    assert_eq!(rng_sub((0, 1), (1, 1)), (0, u64::MAX));
    assert_eq!(rng_mul((3, 3), (4, 4)), (12, 12));
    assert_eq!(rng_mul((3, 4), (4, 4)), (0, u64::MAX));
    assert_eq!(rng_or((3, 9), (5, 6)), (5, u64::MAX));
    assert_eq!(rng_and((3, 9), (5, 6)), (0, 6));
    assert_eq!(rng_xor((3, 9), (5, 6)), (0, u64::MAX));
}

// ── Precision witnesses ─────────────────────────────────────────────────────

#[test]
fn xor_gap_is_found() {
    // the interval result is [0, MAX]; the candidate is tighter
    let gaps = find_gaps("xor", rng_xor, candidates::xor_tnum, 8, 20);
    assert!(!gaps.is_empty(), "no xor gap found");
    for g in &gaps {
        assert!(g.new_width < g.old_width);
    }
}

#[test]
fn or_and_gaps_are_found() {
    let gaps = find_gaps("or", rng_or, candidates::or_tnum, 8, 20);
    assert!(!gaps.is_empty(), "no or gap found");
    let gaps = find_gaps("and", rng_and, candidates::and_tnum, 8, 20);
    assert!(!gaps.is_empty(), "no and gap found");
}

fn witness(concrete: (u64, u64)) -> PrecisionWitness {
    PrecisionWitness {
        operator: "xor",
        input_class: "width-8".into(),
        inputs: "a=(0x0,0xff) b=(0x0,0x0)".into(),
        concrete,
        old_result: (0, u64::MAX),
        new_result: (0x5a, 0x5a),
        old_width: u64::MAX,
        new_width: 0,
    }
}

#[test]
fn witness_program_encodes() {
    let w = witness((0x5a, 0x00));
    let prog = witness_program(&w, opcodes::XOR);
    // two moves, xor, move, exit
    assert_eq!(prog.len(), 8 * 5, "{prog:?}");
    let decoded = decode_program(&prog).expect("decodes");
    assert_eq!(decoded.len(), 5, "{decoded:?}");
    assert!(matches!(
        decoded[2],
        BpfInsn::XorReg { dst: 1, src: 2 }
    ));
}

#[test]
fn witness_program_loads_wide_members() {
    let w = witness((0x1_0000_0002, 7));
    let decoded = decode_program(&witness_program(&w, opcodes::ADD)).expect("decodes");
    assert_eq!(
        decoded,
        vec![
            BpfInsn::LdImm64 { dst: 1, imm: 0x1_0000_0002 },
            BpfInsn::LdImm64Second { imm_hi: 1 },
            BpfInsn::MovImm { dst: 2, imm: 7 },
            BpfInsn::AddReg { dst: 1, src: 2 },
            BpfInsn::MovReg { dst: 0, src: 1 },
            BpfInsn::Exit,
        ]
    );
}

#[test]
fn candidates_on_examples() {
    assert_eq!(candidates::add_tnum((4, 5), (1, 1)), (4, 7));
    assert_eq!(candidates::sub_tnum((6, 6), (2, 2)), (4, 4));
    assert_eq!(candidates::and_tnum((0, 255), (0, 0)), (0, 0));
    assert_eq!(candidates::or_tnum((8, 8), (0, 1)), (8, 9));
    assert_eq!(candidates::xor_tnum((0, 1), (2, 2)), (2, 3));
    assert_eq!(interval_width((2, 5)), 3);
    assert_eq!(interval_width((5, 2)), u64::MAX);
}

#[test]
fn ranked_list() {
    let gaps = find_gaps("add", rng_add, candidates::add_tnum, 64, 0);
    assert!(gaps.len() <= 1);
    assert_eq!(
        render_ranked(&[witness((1, 2))]),
        "precision-witness candidates: 1\n  1. xor [width-8] a=(0x0,0xff) b=(0x0,0x0) -> \
         old=(0x0,0xffffffffffffffff) width=18446744073709551615 new=(0x5a,0x5a) width=0 \
         concrete=(0x1,0x2)\n"
    );
}

/// What follows the solver's reply: the decision, and the numbers of a model.
#[test]
fn replies_are_read() {
    let x = Sym::fresh("x", 64).bv;
    let seven = [is(&x, 7)];
    let reply = find_assignment(&seven);
    assert_eq!(reply.decision(), Some(true));
    match &reply {
        Reply::Satisfied(answer) => assert_eq!(answer.value_or_zero(&x), 7),
        _ => panic!("satisfiable"),
    }
    let both = [is(&x, 7), is(&x, 8)];
    assert_eq!(find_assignment(&both).decision(), Some(false));
    assert_eq!(Reply::Unknown.decision(), None);
    assert_eq!(satisfiable(&[]), Some(true));
    assert_eq!(number_or_zero(Some(7)), 7);
    assert_eq!(number_or_zero(None), 0);
}

#[test]
fn witness_program_loads_members_with_a_high_bit() {
    let w = witness((0x8000_0000, 0xffff_ffff));
    let decoded = decode_program(&witness_program(&w, opcodes::OR)).expect("decodes");
    assert_eq!(
        decoded,
        vec![
            BpfInsn::LdImm64 { dst: 1, imm: 0x8000_0000 },
            BpfInsn::LdImm64Second { imm_hi: 0 },
            BpfInsn::LdImm64 { dst: 2, imm: 0xffff_ffff },
            BpfInsn::LdImm64Second { imm_hi: 0 },
            BpfInsn::OrReg { dst: 1, src: 2 },
            BpfInsn::MovReg { dst: 0, src: 1 },
            BpfInsn::Exit,
        ]
    );
    let w = witness((0x7fff_ffff, 0));
    let decoded = decode_program(&witness_program(&w, opcodes::OR)).expect("decodes");
    assert_eq!(decoded[0], BpfInsn::MovImm { dst: 1, imm: i32::MAX });
}
