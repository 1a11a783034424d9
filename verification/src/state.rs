//! What the verifier knows of the registers.

use vstd::prelude::*;

use crate::error::VerificationFailure;
use crate::text;
use crate::text::push_dec;
use crate::tnum::Tnum;

verus! {

/// The bounds of a scalar: signed and unsigned, at 64 and at 32 bits, with its
/// bits.
#[derive(Debug, Clone, Copy, PartialEq, Eq, Structural)]
pub struct ScalarBounds {
    pub smin: i64,
    pub smax: i64,
    pub umin: u64,
    pub umax: u64,
    pub s32_min: i32,
    pub s32_max: i32,
    pub u32_min: u32,
    pub u32_max: u32,
    pub tnum: Tnum,
    pub precise: bool,
    pub id: u32,
    pub delta: i64,
}

/// `x` lies within every bound.
pub open spec fn within(b: ScalarBounds, x: u64) -> bool {
    &&& b.umin <= x <= b.umax
    &&& b.smin <= x as i64 <= b.smax
    &&& b.u32_min <= x as u32 <= b.u32_max
    &&& b.s32_min <= x as i32 <= b.s32_max
    &&& b.tnum.covers(x)
}

impl ScalarBounds {
    pub open spec fn exactly(v: u64) -> ScalarBounds {
        ScalarBounds {
            smin: v as i64,
            smax: v as i64,
            umin: v,
            umax: v,
            s32_min: v as i32,
            s32_max: v as i32,
            u32_min: v as u32,
            u32_max: v as u32,
            tnum: Tnum { value: v, mask: 0 },
            precise: false,
            id: 0,
            delta: 0,
        }
    }

    pub open spec fn anything() -> ScalarBounds {
        ScalarBounds {
            smin: i64::MIN,
            smax: i64::MAX,
            umin: 0,
            umax: u64::MAX,
            s32_min: i32::MIN,
            s32_max: i32::MAX,
            u32_min: 0,
            u32_max: u32::MAX,
            tnum: Tnum { value: 0, mask: u64::MAX },
            precise: false,
            id: 0,
            delta: 0,
        }
    }

    /// The bounds of a constant.
    pub fn constant(v: u64) -> (b: ScalarBounds)
        ensures
            b == ScalarBounds::exactly(v),
    {
        ScalarBounds {
            smin: v as i64,
            smax: v as i64,
            umin: v,
            umax: v,
            s32_min: v as i32,
            s32_max: v as i32,
            u32_min: v as u32,
            u32_max: v as u32,
            tnum: Tnum { value: v, mask: 0 },
            precise: false,
            id: 0,
            delta: 0,
        }
    }

    /// The bounds of an unknown scalar.
    pub fn unknown() -> (b: ScalarBounds)
        ensures
            b == ScalarBounds::anything(),
    {
        ScalarBounds {
            smin: i64::MIN,
            smax: i64::MAX,
            umin: 0,
            umax: u64::MAX,
            s32_min: i32::MIN,
            s32_max: i32::MAX,
            u32_min: 0,
            u32_max: u32::MAX,
            tnum: Tnum { value: 0, mask: u64::MAX },
            precise: false,
            id: 0,
            delta: 0,
        }
    }
}

/// Every number lies within the bounds of an unknown scalar, and a constant
/// within its own bounds.
pub proof fn bounds_are_sound(x: u64)
    ensures
        within(ScalarBounds::anything(), x),
        within(ScalarBounds::exactly(x), x),
{
    assert(x & !0xffff_ffff_ffff_ffffu64 == 0u64 & !0xffff_ffff_ffff_ffffu64) by (bit_vector);
}

/// What is known of a register.
#[derive(Debug, Clone, Copy, PartialEq, Eq, Structural)]
pub enum RegState {
    /// Never written.
    NotInit,
    Scalar(ScalarBounds),
    /// A map.
    PtrToMap { map_type: u8, key_size: u32, value_size: u32 },
    /// An address in the stack frame.
    PtrToStack { offset: i32 },
    /// A referenced memory area.
    PtrToMem { id: u32, parent_id: u32, size: u32 },
    /// The same, or null.
    PtrToMemOrNull { id: u32, parent_id: u32, size: u32 },
    /// A kernel object with its type.
    PtrToBtfId { btf_id: i32, ref_obj_id: u32 },
    /// The value of a map.
    PtrToMapValue { value_size: u32, offset: i32 },
    /// The same, or null.
    PtrToMapValueOrNull { value_size: u32, id: u32 },
}

impl RegState {
    pub open spec fn kind(self) -> Seq<char> {
        match self {
            RegState::NotInit => "not_init"@,
            RegState::Scalar(_) => "scalar"@,
            RegState::PtrToMap { .. } => "ptr_to_map"@,
            RegState::PtrToStack { .. } => "ptr_to_stack"@,
            RegState::PtrToMem { .. } => "ptr_to_mem"@,
            RegState::PtrToMemOrNull { .. } => "ptr_to_mem_or_null"@,
            RegState::PtrToBtfId { .. } => "ptr_to_btf_id"@,
            RegState::PtrToMapValue { .. } => "ptr_to_map_value"@,
            RegState::PtrToMapValueOrNull { .. } => "ptr_to_map_value_or_null"@,
        }
    }

    /// The name of the kind of value.
    pub fn kind_name(&self) -> (s: &'static str)
        ensures
            s@ == self.kind(),
    {
        match self {
            RegState::NotInit => "not_init",
            RegState::Scalar(_) => "scalar",
            RegState::PtrToMap { .. } => "ptr_to_map",
            RegState::PtrToStack { .. } => "ptr_to_stack",
            RegState::PtrToMem { .. } => "ptr_to_mem",
            RegState::PtrToMemOrNull { .. } => "ptr_to_mem_or_null",
            RegState::PtrToBtfId { .. } => "ptr_to_btf_id",
            RegState::PtrToMapValue { .. } => "ptr_to_map_value",
            RegState::PtrToMapValueOrNull { .. } => "ptr_to_map_value_or_null",
        }
    }
}

/// The registers R0 to R10.
#[derive(Debug, Clone, Copy)]
pub struct VerifierState {
    pub regs: [RegState; 11],
}

/// Why a register that was never written is not read.
pub open spec fn uninit_text(reg: u8) -> Seq<char> {
    "r"@ + text::dec(reg as nat) + " is uninitialized"@
}

/// Reads a register; one that was never written is rejected.
pub fn read_reg(pc: u32, state: &VerifierState, reg: u8) -> (r: Result<RegState, VerificationFailure>)
    requires
        reg <= 10,
    ensures
        match r {
            Ok(v) => v == state.regs@[reg as int] && !(v is NotInit),
            Err(f) => state.regs@[reg as int] is NotInit && f.insn_idx == pc && f.message@
                == uninit_text(reg),
        },
{
    let v: RegState = state.regs[reg as usize];
    match v {
        RegState::NotInit => {
            let mut s: String = String::new();
            s.append("r");
            push_dec(&mut s, reg as u64);
            s.append(" is uninitialized");
            assert(s@ =~= uninit_text(reg));
            Err(VerificationFailure::new(pc, s.as_str()))
        },
        _ => Ok(v),
    }
}

} // verus!
