//! The eight-byte instruction slot of the kernel's `struct bpf_insn`:
//! `[code, src_reg << 4 | dst_reg, off (le16), imm (le32)]`.

use vstd::prelude::*;

verus! {

/// The fields of one slot.
#[derive(Debug, Clone, Copy, PartialEq, Eq, Structural)]
pub struct Slot {
    pub op: u8,
    pub dst: u8,
    pub src: u8,
    pub off: i16,
    pub imm: i32,
}

/// The two's complement value of a 16-bit pattern.
pub open spec fn signed16(u: int) -> i16 {
    (if u >= 0x8000 { u - 0x1_0000 } else { u }) as i16
}

/// The 16-bit pattern of a value in two's complement.
pub open spec fn unsigned16(x: i16) -> int {
    if x < 0 { x + 0x1_0000 } else { x as int }
}

/// The two's complement value of a 32-bit pattern.
pub open spec fn signed32(u: int) -> i32 {
    (if u >= 0x8000_0000 { u - 0x1_0000_0000 } else { u }) as i32
}

/// The 32-bit pattern of a value in two's complement.
pub open spec fn unsigned32(x: i32) -> int {
    if x < 0 { x + 0x1_0000_0000 } else { x as int }
}

/// Reinterprets a 16-bit pattern as a signed value.
pub fn to_i16(u: u16) -> (x: i16)
    ensures
        x == signed16(u as int),
{
    if u >= 0x8000 {
        (u as i32 - 0x1_0000) as i16
    } else {
        u as i16
    }
}

/// Reinterprets a signed value as its 16-bit pattern.
pub fn to_u16(x: i16) -> (u: u16)
    ensures
        u == unsigned16(x),
{
    if x < 0 {
        (x as i32 + 0x1_0000) as u16
    } else {
        x as u16
    }
}

/// Reinterprets a 32-bit pattern as a signed value.
pub fn to_i32(u: u32) -> (x: i32)
    ensures
        x == signed32(u as int),
{
    if u >= 0x8000_0000 {
        (u as i64 - 0x1_0000_0000) as i32
    } else {
        u as i32
    }
}

/// Reinterprets a signed value as its 32-bit pattern.
pub fn to_u32(x: i32) -> (u: u32)
    ensures
        u == unsigned32(x),
{
    if x < 0 {
        (x as i64 + 0x1_0000_0000) as u32
    } else {
        x as u32
    }
}

/// The 32-bit little-endian number in four bytes.
pub open spec fn le32(b: Seq<u8>) -> int {
    b[0] + 0x100 * b[1] + 0x1_0000 * b[2] + 0x100_0000 * b[3]
}

impl Slot {
    /// The eight bytes of the slot. A register field holds four bits.
    #[verifier::opaque]
    pub open spec fn bytes(self) -> Seq<u8> {
        let off = unsigned16(self.off);
        let imm = unsigned32(self.imm);
        seq![
            self.op,
            (self.src % 16 * 16 + self.dst % 16) as u8,
            (off % 0x100) as u8,
            (off / 0x100) as u8,
            (imm % 0x100) as u8,
            (imm / 0x100 % 0x100) as u8,
            (imm / 0x1_0000 % 0x100) as u8,
            (imm / 0x100_0000) as u8,
        ]
    }

    /// The slot that eight bytes hold.
    #[verifier::opaque]
    pub open spec fn of(b: Seq<u8>) -> Slot {
        Slot {
            op: b[0],
            dst: b[1] % 16,
            src: b[1] / 16,
            off: signed16(b[2] + 0x100 * b[3]),
            imm: signed32(le32(b.subrange(4, 8))),
        }
    }

    /// Both register fields fit their four bits.
    pub open spec fn fits(self) -> bool {
        self.dst < 16 && self.src < 16
    }

    /// Reads a slot from eight bytes.
    pub fn read(bytes: &[u8]) -> (slot: Slot)
        requires
            bytes@.len() >= 8,
        ensures
            slot == Slot::of(bytes@.take(8)),
    {
        reveal(Slot::of);
        let imm: u32 = bytes[4] as u32 + 0x100 * bytes[5] as u32 + 0x1_0000 * bytes[6] as u32
            + 0x100_0000 * bytes[7] as u32;
        Slot {
            op: bytes[0],
            dst: bytes[1] % 16,
            src: bytes[1] / 16,
            off: to_i16(bytes[2] as u16 + 0x100 * bytes[3] as u16),
            imm: to_i32(imm),
        }
    }

    /// Writes the slot as eight bytes.
    pub fn write(&self) -> (bytes: [u8; 8])
        ensures
            bytes@ == self.bytes(),
    {
        reveal(Slot::bytes);
        let off: u16 = to_u16(self.off);
        let imm: u32 = to_u32(self.imm);
        [
            self.op,
            self.src % 16 * 16 + self.dst % 16,
            (off % 0x100) as u8,
            (off / 0x100) as u8,
            (imm % 0x100) as u8,
            (imm / 0x100 % 0x100) as u8,
            (imm / 0x1_0000 % 0x100) as u8,
            (imm / 0x100_0000) as u8,
        ]
    }
}

/// A slot is eight bytes long.
pub proof fn lemma_slot_len(slot: Slot)
    ensures
        slot.bytes().len() == 8,
{
    reveal(Slot::bytes);
}

/// Reading back what was written gives the slot, wherever its register
/// fields fit.
pub proof fn slot_round_trip(slot: Slot)
    requires
        slot.fits(),
    ensures
        Slot::of(slot.bytes()) == slot,
{
    reveal(Slot::bytes);
    reveal(Slot::of);
    let b = slot.bytes();
    let off = unsigned16(slot.off);
    let imm = unsigned32(slot.imm);
    assert(b[2] + 0x100 * b[3] == off);
    assert(le32(b.subrange(4, 8)) == imm);
}

/// The four base-256 digits of a number.
proof fn lemma_le32_digits(b0: int, b1: int, b2: int, b3: int)
    requires
        0 <= b0 < 0x100,
        0 <= b1 < 0x100,
        0 <= b2 < 0x100,
        0 <= b3 < 0x100,
    ensures
        ({
            let n = b0 + 0x100 * b1 + 0x1_0000 * b2 + 0x100_0000 * b3;
            &&& n % 0x100 == b0
            &&& n / 0x100 % 0x100 == b1
            &&& n / 0x1_0000 % 0x100 == b2
            &&& n / 0x100_0000 == b3
        }),
{
    let n = b0 + 0x100 * b1 + 0x1_0000 * b2 + 0x100_0000 * b3;
    let n1 = b1 + 0x100 * b2 + 0x1_0000 * b3;
    let n2 = b2 + 0x100 * b3;
    assert(n / 0x100 == n1);
    assert(n / 0x1_0000 == n2);
}

/// Writing back what was read gives the same eight bytes.
pub proof fn bytes_round_trip(b: Seq<u8>)
    requires
        b.len() == 8,
    ensures
        Slot::of(b).bytes() == b,
        Slot::of(b).fits(),
{
    reveal(Slot::bytes);
    reveal(Slot::of);
    let slot = Slot::of(b);
    let imm = le32(b.subrange(4, 8));
    lemma_le32_digits(b[4] as int, b[5] as int, b[6] as int, b[7] as int);
    assert(unsigned16(slot.off) == b[2] + 0x100 * b[3]);
    assert(unsigned32(slot.imm) == imm);
    assert(slot.src % 16 * 16 + slot.dst % 16 == b[1]);
    assert(slot.bytes()[4] == b[4] && slot.bytes()[5] == b[5]);
    assert(slot.bytes()[6] == b[6] && slot.bytes()[7] == b[7]);
    assert(slot.bytes() =~= b);
}

} // verus!
