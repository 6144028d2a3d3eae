//! Instruction codec: the packing of an instruction's four byte-sized fields
//! into one 32-bit word, and the 16-bit little-endian immediate.

use vstd::prelude::*;

verus! {

/// Terminate execution; the result is the value of register `dst`.
pub const OP_HALT: u8 = 0;
/// Load the 16-bit immediate into register `dst`.
pub const OP_LOADI: u8 = 1;
/// `dst = a + b` on registers, wrapping.
pub const OP_ADD: u8 = 2;
/// `dst = a - b` on registers, wrapping.
pub const OP_SUB: u8 = 3;
/// `dst = a * b` on registers, wrapping.
pub const OP_MUL: u8 = 4;
/// `dst = a / b` on registers; a zero divisor yields 0.
pub const OP_DIV: u8 = 5;
/// `dst = a % b` on registers; a zero divisor yields 0.
pub const OP_MOD: u8 = 6;
/// `dst += 1`, wrapping.
pub const OP_INC: u8 = 7;
/// `dst -= 1`, wrapping.
pub const OP_DEC: u8 = 8;
/// If register `dst` is nonzero, set the program counter to the immediate.
pub const OP_JMPNZ: u8 = 9;
/// `dst = a` on registers.
pub const OP_MOV: u8 = 10;

/// Number of registers in the register file.
pub const NREGS: usize = 16;

/// Opcode field of a packed instruction word: bits [0, 8).
pub open spec fn op_of(w: u32) -> u8 {
    (w & 0xff) as u8
}

/// Destination-register field of a packed instruction word: bits [8, 16).
pub open spec fn dst_of(w: u32) -> u8 {
    ((w >> 8) & 0xff) as u8
}

/// First operand field of a packed instruction word: bits [16, 24).
pub open spec fn a_of(w: u32) -> u8 {
    ((w >> 16) & 0xff) as u8
}

/// Second operand field of a packed instruction word: bits [24, 32).
pub open spec fn b_of(w: u32) -> u8 {
    ((w >> 24) & 0xff) as u8
}

/// The packed word holding the four fields of an instruction.
pub open spec fn word_of(op: u8, dst: u8, a: u8, b: u8) -> u32 {
    (op as u32) | ((dst as u32) << 8) | ((a as u32) << 16) | ((b as u32) << 24)
}

/// The 16-bit immediate encoded by the two operand bytes, low byte first.
/// It is always non-negative.
pub open spec fn imm16_val(a: u8, b: u8) -> i64 {
    ((a as int) + 256 * (b as int)) as i64
}

/// Packing then unpacking a word recovers all four fields exactly; this is
/// the round-trip property of the codec.
pub proof fn lemma_codec_roundtrip(op: u8, dst: u8, a: u8, b: u8)
    ensures
        op_of(word_of(op, dst, a, b)) == op,
        dst_of(word_of(op, dst, a, b)) == dst,
        a_of(word_of(op, dst, a, b)) == a,
        b_of(word_of(op, dst, a, b)) == b,
{
    assert((((op as u32) | ((dst as u32) << 8) | ((a as u32) << 16) | ((b as u32) << 24)) & 0xff)
        as u8 == op) by (bit_vector);
    assert(((((op as u32) | ((dst as u32) << 8) | ((a as u32) << 16) | ((b as u32) << 24)) >> 8)
        & 0xff) as u8 == dst) by (bit_vector);
    assert(((((op as u32) | ((dst as u32) << 8) | ((a as u32) << 16) | ((b as u32) << 24)) >> 16)
        & 0xff) as u8 == a) by (bit_vector);
    assert(((((op as u32) | ((dst as u32) << 8) | ((a as u32) << 16) | ((b as u32) << 24)) >> 24)
        & 0xff) as u8 == b) by (bit_vector);
}

/// Packs the four fields of an instruction into one 32-bit word:
/// bits [0,8) opcode, [8,16) destination register, [16,24) and [24,32) the
/// two operands. No validation is performed; callers bound the fields.
#[inline(always)]
pub fn encode(op: u8, dst: u8, a: u8, b: u8) -> (w: u32)
    ensures
        w == word_of(op, dst, a, b),
{
    (op as u32) | ((dst as u32) << 8) | ((a as u32) << 16) | ((b as u32) << 24)
}

/// Reconstructs the non-negative 16-bit immediate from its two bytes,
/// low byte first.
#[inline(always)]
pub fn imm16(a: u8, b: u8) -> (r: i64)
    ensures
        r == imm16_val(a, b),
{
    (a as i64) + 256 * (b as i64)
}

} // verus!
