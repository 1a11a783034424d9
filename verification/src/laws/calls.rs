//! Calls: what the helpers and the kernel functions take and leave, and when the
//! registers fit them.

use vstd::prelude::*;

use crate::error::VerificationFailure;
use crate::helper;
use crate::helper::{ArgType, HelperPrototype};
use crate::state;
use crate::state::{RegState, ScalarBounds, VerifierState};
use crate::text;

verus! {

/// The helpers that take nothing and leave a number that nobody knows: the clocks,
/// the random number, the processor and the node.
pub open spec fn is_source(id: i32) -> bool {
    id == 5 || id == 7 || id == 8 || id == 10 || id == 125 || id == 160 || id == 208
}

/// The helpers there are.
pub open spec fn is_helper(id: i32) -> bool {
    ||| is_source(id)
    ||| id == 1 || id == 2
    ||| 131 <= id <= 133
    ||| id == 197
    ||| 201 <= id <= 203
}

/// Where the arguments of a helper have to be maps: the first of the map and ring
/// buffer helpers.
pub open spec fn takes_map(id: i32, arg: int) -> bool {
    arg == 1 && (id == 1 || id == 2 || id == 131)
}

/// Where they have to be addresses in the frame: a key, a value, a buffer.
pub open spec fn takes_stack(id: i32, arg: int) -> bool {
    ||| id == 1 && arg == 2
    ||| id == 2 && (arg == 2 || arg == 3)
    ||| id == 201 && arg == 1
    ||| id == 202 && arg == 3
}

/// Where they have to be dynptrs.
pub open spec fn takes_dynptr(id: i32, arg: int) -> bool {
    ||| id == 197 && arg == 4
    ||| id == 201 && arg == 3
    ||| (id == 202 || id == 203) && arg == 1
}

/// How many arguments a helper takes.
pub open spec fn arity(id: i32) -> int {
    if is_source(id) {
        0
    } else if id == 1 || id == 132 || id == 133 {
        2
    } else if id == 131 || id == 203 {
        3
    } else if id == 2 || id == 197 {
        4
    } else {
        5
    }
}

/// The helpers there are, with the number of their arguments, and the kind of each
/// of these: what is no map, no address, no dynptr and no memory is a number.
#[verifier::rlimit(60)]
#[verifier::spinoff_prover]
pub proof fn helpers_by_number(id: i32, p: Option<HelperPrototype>)
    requires
        call_ensures(helper::helper_prototype, (id,), p),
    ensures
        p is Some <==> is_helper(id),
        p is Some ==> (p->0).args@.len() == arity(id),
        p is Some ==> forall|arg: int|
            1 <= arg <= arity(id) ==> {
                let kind = #[trigger] (p->0).args@[arg - 1];
                &&& kind is PtrToMap <==> takes_map(id, arg)
                &&& kind is PtrToStack <==> takes_stack(id, arg)
                &&& kind is PtrToDynptr <==> takes_dynptr(id, arg)
                &&& kind is PtrToMem <==> arg == 1 && (id == 132 || id == 133)
                &&& kind is PtrToMapValue <==> arg == 1 && id == 197
                &&& !(kind is PtrToBtf)
            },
{
}

/// What a helper leaves in R0: a map's value or memory, either perhaps null, any
/// number where it is a source, and zero otherwise.
pub proof fn results_by_number(id: i32, p: Option<HelperPrototype>)
    requires
        call_ensures(helper::helper_prototype, (id,), p),
        p is Some,
    ensures
        (p->0).return_type is PtrToMapValueOrNull <==> id == 1,
        (p->0).return_type is PtrToMemOrNull <==> id == 131 || id == 203,
        (p->0).return_type is Scalar <==> id != 1 && id != 131 && id != 203,
        is_source(id) ==> forall|x: u64| #[trigger]
            state::within((p->0).return_type->Scalar_0, x),
        !is_source(id) && (p->0).return_type is Scalar ==> forall|x: u64| #[trigger]
            state::within((p->0).return_type->Scalar_0, x) ==> x == 0,
{
    if is_source(id) {
        assert forall|x: u64| #[trigger] state::within((p->0).return_type->Scalar_0, x) by {
            state::bounds_are_sound(x);
        }
    }
}

/// A reference is acquired by the reservation in a ring buffer alone, and given up
/// by its submission and its discard alone.
pub proof fn references_by_number(id: i32, acquires: bool, releases: bool)
    requires
        call_ensures(helper::helper_acquires_ref, (id,), acquires),
        call_ensures(helper::helper_releases_ref, (id,), releases),
    ensures
        acquires <==> id == 131,
        releases <==> id == 132 || id == 133,
{
}

/// The kernel functions there are: a drop gives its object up and leaves zero; an
/// exchange with a map and another acquisition leave an object that was acquired.
pub proof fn kernel_functions_by_number(id: i32, p: Option<helper::KfuncPrototype>)
    requires
        call_ensures(helper::kfunc_prototype, (id,), p),
    ensures
        p is Some <==> id == 94599 || id == 94041 || id == 94881,
        p is Some ==> {
            let f = p->0;
            &&& f.args@.last() is PtrToBtf
            &&& f.args@.len() == (if id == 94041 { 2int } else { 1 })
            &&& id == 94041 ==> f.args@[0] is PtrToMap
            &&& f.releases_ref <==> id == 94599
            &&& f.acquires_ref <==> id != 94599
            &&& f.return_type is PtrToBtfId <==> id != 94599
            &&& f.return_type is Scalar <==> id == 94599
            &&& id == 94599 ==> forall|x: u64| #[trigger]
                state::within(f.return_type->Scalar_0, x) ==> x == 0
        },
{
}

/// The bounds of a constant hold it alone, at each width and sign; those of an
/// unknown number hold every one.
pub proof fn bounds_hold_what_they_say(v: u64, x: u64)
    ensures
        state::within(ScalarBounds::exactly(v), x) <==> x == v,
        state::within(ScalarBounds::anything(), x),
        ScalarBounds::exactly(v).smin == v as i64 && ScalarBounds::exactly(v).smax == v as i64,
        ScalarBounds::exactly(v).s32_min == v as i32 && ScalarBounds::exactly(v).s32_max == v as i32,
        ScalarBounds::exactly(v).u32_min == v as u32 && ScalarBounds::exactly(v).u32_max == v as u32,
        ScalarBounds::exactly(v).tnum.mask == 0 && ScalarBounds::exactly(v).tnum.value == v,
{
    state::bounds_are_sound(x);
}

/// The value has the kind that the argument asks for.
pub open spec fn fits(kind: ArgType, value: RegState) -> bool {
    match value {
        RegState::NotInit => false,
        RegState::Scalar(_) => kind is Scalar,
        RegState::PtrToMap { .. } => kind is PtrToMap,
        RegState::PtrToStack { .. } => kind is PtrToStack || kind is PtrToDynptr,
        RegState::PtrToMem { .. } => kind is PtrToMem,
        RegState::PtrToBtfId { .. } => kind is PtrToBtf,
        RegState::PtrToMapValue { .. } => kind is PtrToMapValue,
        RegState::PtrToMemOrNull { .. } => false,
        RegState::PtrToMapValueOrNull { .. } => false,
    }
}

/// A call passes exactly where each of its arguments, from R1 on, has the kind
/// that is asked for; what may be null never has. It fails at its own place.
pub proof fn calls_pass_when_registers_fit(
    pc: u32,
    args: &[ArgType],
    st: &VerifierState,
    r: Result<(), VerificationFailure>,
)
    requires
        args@.len() <= 10,
        call_ensures(helper::check_call_args, (pc, args, st), r),
    ensures
        r is Ok <==> forall|i: int|
            0 <= i < args@.len() ==> fits(#[trigger] args@[i], st.regs@[i + 1]),
        r matches Err(f) ==> f.insn_idx == pc,
{
    match r {
        Ok(_) => {
            assert forall|i: int| 0 <= i < args@.len() implies fits(
                #[trigger] args@[i],
                st.regs@[i + 1],
            ) by {
                assert(helper::arg_error(args@, st.regs@, i) is None);
            }
        },
        Err(f) => {
            let i = choose|i: int|
                0 <= i < args@.len() && helper::args_pass(args@, st.regs@, i)
                    && #[trigger] helper::arg_error(args@, st.regs@, i) == Some(f.message@);
            assert(!fits(args@[i], st.regs@[i + 1]));
        },
    }
}

/// The message of a failed call is on the first argument that does not fit: that
/// its register was never written, or which kind it has.
pub proof fn first_misfit_is_reported(
    pc: u32,
    args: &[ArgType],
    st: &VerifierState,
    f: VerificationFailure,
    i: int,
)
    requires
        args@.len() <= 10,
        call_ensures(helper::check_call_args, (pc, args, st), Err(f)),
        0 <= i < args@.len(),
        !fits(args@[i], st.regs@[i + 1]),
        forall|k: int| 0 <= k < i ==> fits(#[trigger] args@[k], st.regs@[k + 1]),
    ensures
        f.message@ == if st.regs@[i + 1] is NotInit {
            "r"@ + text::dec((i + 1) as nat) + " is uninitialized"@
        } else {
            "helper arg "@ + text::dec((i + 1) as nat) + ": r"@ + text::dec((i + 1) as nat)
                + " has type "@ + st.regs@[i + 1].kind() + ", expected "@ + args@[i].name()
        },
{
    let j = choose|j: int|
        0 <= j < args@.len() && helper::args_pass(args@, st.regs@, j)
            && #[trigger] helper::arg_error(args@, st.regs@, j) == Some(f.message@);
    if j < i {
        assert(fits(args@[j], st.regs@[j + 1]));
    }
    if i < j {
        assert(helper::arg_error(args@, st.regs@, i) is None);
    }
}

/// A register is read exactly where it was written, and gives what it holds.
pub proof fn written_registers_are_read(
    pc: u32,
    st: &VerifierState,
    reg: u8,
    r: Result<RegState, VerificationFailure>,
)
    requires
        reg <= 10,
        call_ensures(state::read_reg, (pc, st, reg), r),
    ensures
        r is Ok <==> !(st.regs@[reg as int] is NotInit),
        r matches Ok(v) ==> v == st.regs@[reg as int],
        r matches Err(f) ==> f.insn_idx == pc,
{
}

} // verus!
