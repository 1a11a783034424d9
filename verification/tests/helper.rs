use rand_verifier::error::VerificationFailure;
use rand_verifier::helper::{
    check_call_args, check_helper_args, helper_acquires_ref, helper_prototype,
    helper_releases_ref, kfunc_prototype, ArgType,
};
use rand_verifier::instruction::{Instruction, Reg};
use rand_verifier::program::{InsnIndex, Program};
use rand_verifier::state::{read_reg, RegState, ScalarBounds, VerifierState};

fn state(regs: &[(usize, RegState)]) -> VerifierState {
    let mut s = VerifierState { regs: [RegState::NotInit; 11] };
    for (r, v) in regs {
        s.regs[*r] = *v;
    }
    s
}

const MAP: RegState = RegState::PtrToMap { map_type: 0, key_size: 4, value_size: 8 };
const STACK: RegState = RegState::PtrToStack { offset: -8 };

#[test]
fn lookup_takes_a_map_and_a_key() {
    let h = helper_prototype(1).unwrap();
    assert_eq!(h.args, vec![ArgType::PtrToMap, ArgType::PtrToStack]);
    assert_eq!(h.return_type, RegState::PtrToMapValueOrNull { value_size: 0, id: 0 });
    assert!(check_helper_args(3, &h, &state(&[(1, MAP), (2, STACK)])).is_ok());
    // the key is never written
    let err = check_helper_args(3, &h, &state(&[(1, MAP)])).unwrap_err();
    assert_eq!(err, VerificationFailure::new(3, "r2 is uninitialized"));
    // the map is a number
    let scalar = RegState::Scalar(ScalarBounds::constant(1));
    let err = check_helper_args(3, &h, &state(&[(1, scalar), (2, STACK)])).unwrap_err();
    assert_eq!(
        err.message,
        "helper arg 1: r1 has type scalar, expected PtrToMap"
    );
    assert_eq!(err.insn_idx(), 3);
}

#[test]
fn helpers_without_arguments_return_scalars() {
    for id in [5, 7, 8, 10, 125, 160, 208] {
        let h = helper_prototype(id).unwrap();
        assert!(h.args.is_empty());
        assert_eq!(h.return_type, RegState::Scalar(ScalarBounds::unknown()));
    }
    assert!(helper_prototype(99).is_none());
    let h = helper_prototype(2).unwrap();
    assert_eq!(h.args.len(), 4);
    assert_eq!(h.return_type, RegState::Scalar(ScalarBounds::constant(0)));
}

#[test]
fn dynptr_helpers() {
    assert_eq!(helper_prototype(197).unwrap().args[3], ArgType::PtrToDynptr);
    assert_eq!(helper_prototype(201).unwrap().args[2], ArgType::PtrToDynptr);
    assert_eq!(helper_prototype(202).unwrap().args[0], ArgType::PtrToDynptr);
    assert_eq!(
        helper_prototype(203).unwrap().return_type,
        RegState::PtrToMemOrNull { id: 0, parent_id: 0, size: 0 }
    );
    // a stack address serves as a dynptr
    assert!(check_call_args(0, &[ArgType::PtrToDynptr], &state(&[(1, STACK)])).is_ok());
}

#[test]
fn references_are_acquired_and_released() {
    assert!(helper_acquires_ref(131));
    assert!(!helper_acquires_ref(132));
    assert!(helper_releases_ref(132));
    assert!(helper_releases_ref(133));
    assert!(!helper_releases_ref(131));
    let drop = kfunc_prototype(94599).unwrap();
    assert!(drop.releases_ref && !drop.acquires_ref);
    assert_eq!(drop.args, vec![ArgType::PtrToBtf]);
    let xchg = kfunc_prototype(94041).unwrap();
    assert!(xchg.acquires_ref && !xchg.releases_ref);
    assert_eq!(xchg.args, vec![ArgType::PtrToMap, ArgType::PtrToBtf]);
    assert!(kfunc_prototype(94881).unwrap().acquires_ref);
    assert!(kfunc_prototype(0).is_none());
}

#[test]
fn registers_are_read_after_they_are_written() {
    let s = state(&[(0, STACK)]);
    assert_eq!(read_reg(1, &s, 0), Ok(STACK));
    let err = read_reg(1, &s, 10).unwrap_err();
    assert_eq!(err.to_text(), "verification failed at insn 1: r10 is uninitialized");
}

#[test]
fn scalar_bounds_of_constants() {
    let b = ScalarBounds::constant(u64::MAX);
    assert_eq!((b.smin, b.umax, b.s32_min, b.u32_max), (-1, u64::MAX, -1, u32::MAX));
    let u = ScalarBounds::unknown();
    assert_eq!((u.smin, u.smax, u.tnum.mask), (i64::MIN, i64::MAX, u64::MAX));
}

#[test]
fn programs_are_lists() {
    let p = Program::new(vec![
        Instruction::MovImm { dst: Reg::R0, imm: 1 },
        Instruction::Exit,
    ]);
    assert_eq!(p.len(), 2);
    assert!(!p.is_empty());
    assert_eq!(p.get(InsnIndex(1)), Some(&Instruction::Exit));
    assert_eq!(p.get(InsnIndex(2)), None);
    assert!(Program::new(vec![]).is_empty());
}
