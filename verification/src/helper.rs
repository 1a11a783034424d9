//! The prototypes of the helper functions and of the kernel functions, and the
//! check of a call's arguments.

use vstd::prelude::*;

use crate::error::VerificationFailure;
use crate::state;
use crate::state::{read_reg, RegState, ScalarBounds, VerifierState};
use crate::text;
use crate::text::push_dec;

verus! {

/// The expected type of an argument.
#[derive(Debug, Clone, Copy, PartialEq, Eq, Structural)]
pub enum ArgType {
    /// A map.
    PtrToMap,
    /// An address in the stack frame.
    PtrToStack,
    /// Any scalar.
    Scalar,
    /// A referenced memory area.
    PtrToMem,
    /// A stack address of a dynptr of 16 bytes.
    PtrToDynptr,
    /// A kernel object with its type.
    PtrToBtf,
    /// The value of a map, not null.
    PtrToMapValue,
}

impl ArgType {
    pub open spec fn name(self) -> Seq<char> {
        match self {
            ArgType::PtrToMap => "PtrToMap"@,
            ArgType::PtrToStack => "PtrToStack"@,
            ArgType::Scalar => "Scalar"@,
            ArgType::PtrToMem => "PtrToMem"@,
            ArgType::PtrToDynptr => "PtrToDynptr"@,
            ArgType::PtrToBtf => "PtrToBtf"@,
            ArgType::PtrToMapValue => "PtrToMapValue"@,
        }
    }

    fn label(self) -> (s: &'static str)
        ensures
            s@ == self.name(),
    {
        match self {
            ArgType::PtrToMap => "PtrToMap",
            ArgType::PtrToStack => "PtrToStack",
            ArgType::Scalar => "Scalar",
            ArgType::PtrToMem => "PtrToMem",
            ArgType::PtrToDynptr => "PtrToDynptr",
            ArgType::PtrToBtf => "PtrToBtf",
            ArgType::PtrToMapValue => "PtrToMapValue",
        }
    }
}

/// The prototype of a kernel function.
#[derive(Debug)]
pub struct KfuncPrototype {
    pub args: Vec<ArgType>,
    pub return_type: RegState,
    pub acquires_ref: bool,
    pub releases_ref: bool,
}

/// The prototype of a helper: its arguments, and what it leaves in R0.
#[derive(Debug)]
pub struct HelperPrototype {
    pub args: Vec<ArgType>,
    pub return_type: RegState,
}

/// An unknown scalar.
pub open spec fn any_scalar() -> RegState {
    RegState::Scalar(ScalarBounds::anything())
}

/// The scalar zero.
pub open spec fn zero_scalar() -> RegState {
    RegState::Scalar(ScalarBounds::exactly(0))
}

/// A kernel object that the call site numbers.
pub open spec fn some_object() -> RegState {
    RegState::PtrToBtfId { btf_id: 0, ref_obj_id: 0 }
}

/// A nullable memory area that the call site numbers.
pub open spec fn some_memory() -> RegState {
    RegState::PtrToMemOrNull { id: 0, parent_id: 0, size: 0 }
}

// ── The tables ──────────────────────────────────────────────────────────────

/// The kernel functions by BTF id: `bpf_obj_drop`, `bpf_kptr_xchg` and
/// `bpf_refcount_acquire`, each with its arguments, its result, and whether it
/// acquires or releases a reference.
pub open spec fn kfunc_table(btf_id: i32) -> Option<(Seq<ArgType>, RegState, bool, bool)> {
    if btf_id == 94599 {
        Some((seq![ArgType::PtrToBtf], zero_scalar(), false, true))
    } else if btf_id == 94041 {
        Some((seq![ArgType::PtrToMap, ArgType::PtrToBtf], some_object(), true, false))
    } else if btf_id == 94881 {
        Some((seq![ArgType::PtrToBtf], some_object(), true, false))
    } else {
        None
    }
}

/// The helpers by number.
pub open spec fn helper_table(id: i32) -> Option<(Seq<ArgType>, RegState)> {
    if id == 1 {
        // map_lookup_elem(map, key)
        Some(
            (
                seq![ArgType::PtrToMap, ArgType::PtrToStack],
                RegState::PtrToMapValueOrNull { value_size: 0, id: 0 },
            ),
        )
    } else if id == 2 {
        // map_update_elem(map, key, value, flags)
        Some(
            (
                seq![ArgType::PtrToMap, ArgType::PtrToStack, ArgType::PtrToStack, ArgType::Scalar],
                zero_scalar(),
            ),
        )
    } else if id == 5 || id == 7 || id == 8 || id == 10 || id == 125 || id == 160 || id == 208 {
        // the clocks, get_prandom_u32, get_smp_processor_id, get_numa_node_id
        Some((seq![], any_scalar()))
    } else if id == 131 {
        // ringbuf_reserve(ringbuf, size, flags)
        Some((seq![ArgType::PtrToMap, ArgType::Scalar, ArgType::Scalar], some_memory()))
    } else if id == 132 || id == 133 {
        // ringbuf_submit and ringbuf_discard(mem, flags)
        Some((seq![ArgType::PtrToMem, ArgType::Scalar], zero_scalar()))
    } else if id == 197 {
        // dynptr_from_mem(data, size, flags, ptr)
        Some(
            (
                seq![
                    ArgType::PtrToMapValue,
                    ArgType::Scalar,
                    ArgType::Scalar,
                    ArgType::PtrToDynptr,
                ],
                zero_scalar(),
            ),
        )
    } else if id == 201 {
        // dynptr_read(dst, len, src, offset, flags)
        Some(
            (
                seq![
                    ArgType::PtrToStack,
                    ArgType::Scalar,
                    ArgType::PtrToDynptr,
                    ArgType::Scalar,
                    ArgType::Scalar,
                ],
                zero_scalar(),
            ),
        )
    } else if id == 202 {
        // dynptr_write(dst, offset, src, len, flags)
        Some(
            (
                seq![
                    ArgType::PtrToDynptr,
                    ArgType::Scalar,
                    ArgType::PtrToStack,
                    ArgType::Scalar,
                    ArgType::Scalar,
                ],
                zero_scalar(),
            ),
        )
    } else if id == 203 {
        // dynptr_data(ptr, offset, len)
        Some((seq![ArgType::PtrToDynptr, ArgType::Scalar, ArgType::Scalar], some_memory()))
    } else {
        None
    }
}

/// The prototype of a kernel function.
pub fn kfunc_prototype(btf_id: i32) -> (p: Option<KfuncPrototype>)
    ensures
        match p {
            Some(f) => kfunc_table(btf_id) == Some(
                (f.args@, f.return_type, f.acquires_ref, f.releases_ref),
            ),
            None => kfunc_table(btf_id) is None,
        },
{
    let object: RegState = RegState::PtrToBtfId { btf_id: 0, ref_obj_id: 0 };
    let p: Option<KfuncPrototype> = match btf_id {
        94599 => Some(
            KfuncPrototype {
                args: vec![ArgType::PtrToBtf],
                return_type: RegState::Scalar(ScalarBounds::constant(0)),
                acquires_ref: false,
                releases_ref: true,
            },
        ),
        94041 => Some(
            KfuncPrototype {
                args: vec![ArgType::PtrToMap, ArgType::PtrToBtf],
                return_type: object,
                acquires_ref: true,
                releases_ref: false,
            },
        ),
        94881 => Some(
            KfuncPrototype {
                args: vec![ArgType::PtrToBtf],
                return_type: object,
                acquires_ref: true,
                releases_ref: false,
            },
        ),
        _ => None,
    };
    proof {
        if p is Some {
            assert((p->0).args@ =~= (kfunc_table(btf_id)->0).0);
        }
    }
    p
}

/// Whether a helper leaves a new reference in R0.
pub fn helper_acquires_ref(id: i32) -> (b: bool)
    ensures
        b == (id == 131),
{
    id == 131
}

/// Whether a helper gives up the reference in R1.
pub fn helper_releases_ref(id: i32) -> (b: bool)
    ensures
        b == (id == 132 || id == 133),
{
    id == 132 || id == 133
}

/// The prototype of a helper.
pub fn helper_prototype(id: i32) -> (p: Option<HelperPrototype>)
    ensures
        match p {
            Some(h) => helper_table(id) == Some((h.args@, h.return_type)),
            None => helper_table(id) is None,
        },
{
    let zero: RegState = RegState::Scalar(ScalarBounds::constant(0));
    let memory: RegState = RegState::PtrToMemOrNull { id: 0, parent_id: 0, size: 0 };
    let p: Option<HelperPrototype> = match id {
        1 => Some(
            HelperPrototype {
                args: vec![ArgType::PtrToMap, ArgType::PtrToStack],
                return_type: RegState::PtrToMapValueOrNull { value_size: 0, id: 0 },
            },
        ),
        2 => Some(
            HelperPrototype {
                args: vec![
                    ArgType::PtrToMap,
                    ArgType::PtrToStack,
                    ArgType::PtrToStack,
                    ArgType::Scalar,
                ],
                return_type: zero,
            },
        ),
        5 | 7 | 8 | 10 | 125 | 160 | 208 => Some(
            HelperPrototype {
                args: Vec::new(),
                return_type: RegState::Scalar(ScalarBounds::unknown()),
            },
        ),
        131 => Some(
            HelperPrototype {
                args: vec![ArgType::PtrToMap, ArgType::Scalar, ArgType::Scalar],
                return_type: memory,
            },
        ),
        132 | 133 => Some(
            HelperPrototype { args: vec![ArgType::PtrToMem, ArgType::Scalar], return_type: zero },
        ),
        197 => Some(
            HelperPrototype {
                args: vec![
                    ArgType::PtrToMapValue,
                    ArgType::Scalar,
                    ArgType::Scalar,
                    ArgType::PtrToDynptr,
                ],
                return_type: zero,
            },
        ),
        201 => Some(
            HelperPrototype {
                args: vec![
                    ArgType::PtrToStack,
                    ArgType::Scalar,
                    ArgType::PtrToDynptr,
                    ArgType::Scalar,
                    ArgType::Scalar,
                ],
                return_type: zero,
            },
        ),
        202 => Some(
            HelperPrototype {
                args: vec![
                    ArgType::PtrToDynptr,
                    ArgType::Scalar,
                    ArgType::PtrToStack,
                    ArgType::Scalar,
                    ArgType::Scalar,
                ],
                return_type: zero,
            },
        ),
        203 => Some(
            HelperPrototype {
                args: vec![ArgType::PtrToDynptr, ArgType::Scalar, ArgType::Scalar],
                return_type: memory,
            },
        ),
        _ => None,
    };
    proof {
        if p is Some {
            assert((p->0).args@ =~= (helper_table(id)->0).0);
        }
    }
    p
}

// ── The arguments of a call ─────────────────────────────────────────────────

/// A register state satisfies an argument type.
pub open spec fn satisfies(expected: ArgType, actual: RegState) -> bool {
    match expected {
        ArgType::PtrToMap => actual is PtrToMap,
        ArgType::PtrToStack => actual is PtrToStack,
        ArgType::PtrToMem => actual is PtrToMem,
        ArgType::PtrToDynptr => actual is PtrToStack,
        ArgType::PtrToBtf => actual is PtrToBtfId,
        ArgType::PtrToMapValue => actual is PtrToMapValue,
        ArgType::Scalar => actual is Scalar,
    }
}

fn arg_matches(expected: ArgType, actual: RegState) -> (b: bool)
    ensures
        b == satisfies(expected, actual),
{
    match (expected, actual) {
        (ArgType::PtrToMap, RegState::PtrToMap { .. }) => true,
        (ArgType::PtrToStack, RegState::PtrToStack { .. }) => true,
        (ArgType::PtrToMem, RegState::PtrToMem { .. }) => true,
        (ArgType::PtrToDynptr, RegState::PtrToStack { .. }) => true,
        (ArgType::PtrToBtf, RegState::PtrToBtfId { .. }) => true,
        (ArgType::PtrToMapValue, RegState::PtrToMapValue { .. }) => true,
        (ArgType::Scalar, RegState::Scalar(_)) => true,
        _ => false,
    }
}

/// Why the `i`-th argument, which stands in register `i + 1`, is rejected.
pub open spec fn arg_error(args: Seq<ArgType>, regs: Seq<RegState>, i: int) -> Option<Seq<char>> {
    let actual = regs[i + 1];
    if actual is NotInit {
        Some(state::uninit_text((i + 1) as u8))
    } else if !satisfies(args[i], actual) {
        Some(
            "helper arg "@ + text::dec((i + 1) as nat) + ": r"@ + text::dec((i + 1) as nat)
                + " has type "@ + actual.kind() + ", expected "@ + args[i].name(),
        )
    } else {
        None
    }
}

/// The arguments before the `n`-th are accepted.
pub open spec fn args_pass(args: Seq<ArgType>, regs: Seq<RegState>, n: int) -> bool {
    forall|i: int| 0 <= i < n ==> #[trigger] arg_error(args, regs, i) is None
}

/// Checks the registers from R1 on against the argument types; the first that
/// does not fit rejects the call.
pub fn check_call_args(pc: u32, args: &[ArgType], state: &VerifierState) -> (r: Result<
    (),
    VerificationFailure,
>)
    requires
        args@.len() <= 10,
    ensures
        match r {
            Ok(_) => args_pass(args@, state.regs@, args@.len() as int),
            Err(f) => f.insn_idx == pc && exists|i: int|
                0 <= i < args@.len() && args_pass(args@, state.regs@, i) && #[trigger] arg_error(
                    args@,
                    state.regs@,
                    i,
                ) == Some(f.message@),
        },
{
    let mut i: usize = 0;
    while i < args.len()
        invariant
            i <= args@.len() <= 10,
            args_pass(args@, state.regs@, i as int),
        decreases args@.len() - i,
    {
        let reg: u8 = (i + 1) as u8;
        match read_reg(pc, state, reg) {
            Ok(actual) => {
                if !arg_matches(args[i], actual) {
                    let mut s: String = String::new();
                    s.append("helper arg ");
                    push_dec(&mut s, reg as u64);
                    s.append(": r");
                    push_dec(&mut s, reg as u64);
                    s.append(" has type ");
                    s.append(actual.kind_name());
                    s.append(", expected ");
                    s.append(args[i].label());
                    proof {
                        assert(s@ =~= arg_error(args@, state.regs@, i as int)->0);
                    }
                    let f: VerificationFailure = VerificationFailure::new(pc, s.as_str());
                    assert(arg_error(args@, state.regs@, i as int) == Some(f.message@));
                    return Err(f);
                }
            },
            Err(f) => {
                assert(arg_error(args@, state.regs@, i as int) == Some(f.message@));
                return Err(f);
            },
        }
        assert(arg_error(args@, state.regs@, i as int) is None);
        i = i + 1;
    }
    Ok(())
}

/// Checks the registers against the arguments of a helper.
pub fn check_helper_args(pc: u32, helper: &HelperPrototype, state: &VerifierState) -> (r: Result<
    (),
    VerificationFailure,
>)
    requires
        helper.args@.len() <= 10,
    ensures
        match r {
            Ok(_) => args_pass(helper.args@, state.regs@, helper.args@.len() as int),
            Err(f) => f.insn_idx == pc && exists|i: int|
                0 <= i < helper.args@.len() && args_pass(helper.args@, state.regs@, i)
                    && #[trigger] arg_error(helper.args@, state.regs@, i) == Some(f.message@),
        },
{
    check_call_args(pc, &helper.args, state)
}

// ── Laws ────────────────────────────────────────────────────────────────────

/// No call takes more than the five arguments of the registers R1 to R5.
pub proof fn calls_take_five_arguments(id: i32)
    ensures
        helper_table(id) matches Some(h) ==> h.0.len() <= 5,
        kfunc_table(id) matches Some(f) ==> f.0.len() <= 5,
{
}

/// A helper that gives up a reference takes it as its first argument, and one
/// that acquires a reference returns it as a nullable pointer; none does both.
pub proof fn references_are_paired(id: i32)
    ensures
        id == 132 || id == 133 ==> (helper_table(id)->0).0[0] == ArgType::PtrToMem,
        id == 131 ==> (helper_table(id)->0).1 is PtrToMemOrNull,
        kfunc_table(id) matches Some(f) ==> !(f.2 && f.3),
        kfunc_table(id) matches Some(f) ==> (f.3 ==> f.0[0] == ArgType::PtrToBtf),
        kfunc_table(id) matches Some(f) ==> (f.2 ==> f.1 is PtrToBtfId),
{
}

} // verus!
