//! Opcode nibble decomposition.
//!
//! A CHIP-8 opcode is a 16-bit word made of four nibbles. The high nibble
//! selects an instruction family; the remaining bits are read as register
//! indices `X` and `Y`, a low nibble `N`, a low byte `NN` or a 12-bit
//! address `NNN`, depending on the family.

use vstd::prelude::*;

verus! {

/// High nibble: the instruction family selector.
pub open spec fn op_hi(op: u16) -> u16 {
    op >> 12
}

/// Second nibble: the register index X.
pub open spec fn op_x(op: u16) -> u16 {
    (op >> 8) & 0xF
}

/// Third nibble: the register index Y.
pub open spec fn op_y(op: u16) -> u16 {
    (op >> 4) & 0xF
}

/// Low nibble N.
pub open spec fn op_n(op: u16) -> u16 {
    op & 0xF
}

/// Low byte NN.
pub open spec fn op_nn(op: u16) -> u16 {
    op & 0xFF
}

/// Low 12 bits NNN.
pub open spec fn op_nnn(op: u16) -> u16 {
    op & 0xFFF
}

pub fn nib_hi(op: u16) -> (r: u16)
    ensures
        r == op_hi(op),
        r < 16,
{
    proof {
        assert(op >> 12 < 16) by (bit_vector);
    }
    op >> 12
}

pub fn nib_x(op: u16) -> (r: u16)
    ensures
        r == op_x(op),
        r < 16,
{
    proof {
        assert((op >> 8) & 0xF < 16) by (bit_vector);
    }
    (op >> 8) & 0xF
}

pub fn nib_y(op: u16) -> (r: u16)
    ensures
        r == op_y(op),
        r < 16,
{
    proof {
        assert((op >> 4) & 0xF < 16) by (bit_vector);
    }
    (op >> 4) & 0xF
}

pub fn nib_n(op: u16) -> (r: u16)
    ensures
        r == op_n(op),
        r < 16,
{
    proof {
        assert(op & 0xF < 16) by (bit_vector);
    }
    op & 0xF
}

pub fn low_byte(op: u16) -> (r: u8)
    ensures
        r == op_nn(op),
{
    proof {
        assert(op & 0xFF < 256) by (bit_vector);
        assert((op & 0xFF) as u8 == op & 0xFF) by (bit_vector);
    }
    (op & 0xFF) as u8
}

pub fn low_tribble(op: u16) -> (r: u16)
    ensures
        r == op_nnn(op),
        r < 0x1000,
{
    proof {
        assert(op & 0xFFF < 0x1000) by (bit_vector);
    }
    op & 0xFFF
}

/// Decomposing an opcode into its nibbles is consistent and
/// order-preserving with the documented bit positions: the four nibbles
/// reassemble to the opcode, `NN` is exactly the low byte `Y * 16 + N`,
/// and `NNN` is exactly the low 12 bits `X * 256 + NN`.
pub proof fn lemma_nibble_decomposition(op: u16)
    ensures
        op == op_hi(op) * 0x1000 + op_x(op) * 0x100 + op_y(op) * 0x10 + op_n(op),
        op_nn(op) == op_y(op) * 0x10 + op_n(op),
        op_nnn(op) == op_x(op) * 0x100 + op_nn(op),
        op_hi(op) < 16,
        op_x(op) < 16,
        op_y(op) < 16,
        op_n(op) < 16,
        op_nn(op) < 0x100,
        op_nnn(op) < 0x1000,
{
    assert(op == (op >> 12) * 0x1000 + ((op >> 8) & 0xF) * 0x100 + ((op >> 4) & 0xF) * 0x10 + (
    op & 0xF)) by (bit_vector);
    assert((op & 0xFF) == ((op >> 4) & 0xF) * 0x10 + (op & 0xF)) by (bit_vector);
    assert((op & 0xFFF) == ((op >> 8) & 0xF) * 0x100 + (op & 0xFF)) by (bit_vector);
    assert(op >> 12 < 16) by (bit_vector);
    assert((op >> 8) & 0xF < 16) by (bit_vector);
    assert((op >> 4) & 0xF < 16) by (bit_vector);
    assert(op & 0xF < 16) by (bit_vector);
    assert(op & 0xFF < 0x100) by (bit_vector);
    assert(op & 0xFFF < 0x1000) by (bit_vector);
}

} // verus!
