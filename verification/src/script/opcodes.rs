//! Script opcodes.

use vstd::prelude::*;

verus! {

/// Script opcodes (subset for P2PKH/P2WPKH support)
#[derive(Debug, Clone, Copy, PartialEq, Eq, Structural)]
#[allow(non_camel_case_types)]
pub enum OpCode {
    OP_0,
    OP_PUSHDATA1,
    OP_PUSHDATA2,
    OP_PUSHDATA4,
    OP_1NEGATE,
    OP_1,
    OP_2,
    OP_3,
    OP_4,
    OP_5,
    OP_6,
    OP_7,
    OP_8,
    OP_9,
    OP_10,
    OP_11,
    OP_12,
    OP_13,
    OP_14,
    OP_15,
    OP_16,
    OP_DUP,
    OP_DROP,
    OP_HASH160,
    OP_EQUAL,
    OP_EQUALVERIFY,
    OP_CHECKSIG,
    OP_CHECKSIGVERIFY,
    OP_VERIFY,
    OP_RETURN,
}

/// The byte of an opcode.
pub open spec fn opcode_byte(op: OpCode) -> u8 {
    match op {
        OpCode::OP_0 => 0x00,
        OpCode::OP_PUSHDATA1 => 0x4c,
        OpCode::OP_PUSHDATA2 => 0x4d,
        OpCode::OP_PUSHDATA4 => 0x4e,
        OpCode::OP_1NEGATE => 0x4f,
        OpCode::OP_1 => 0x51,
        OpCode::OP_2 => 0x52,
        OpCode::OP_3 => 0x53,
        OpCode::OP_4 => 0x54,
        OpCode::OP_5 => 0x55,
        OpCode::OP_6 => 0x56,
        OpCode::OP_7 => 0x57,
        OpCode::OP_8 => 0x58,
        OpCode::OP_9 => 0x59,
        OpCode::OP_10 => 0x5a,
        OpCode::OP_11 => 0x5b,
        OpCode::OP_12 => 0x5c,
        OpCode::OP_13 => 0x5d,
        OpCode::OP_14 => 0x5e,
        OpCode::OP_15 => 0x5f,
        OpCode::OP_16 => 0x60,
        OpCode::OP_DUP => 0x76,
        OpCode::OP_DROP => 0x75,
        OpCode::OP_HASH160 => 0xa9,
        OpCode::OP_EQUAL => 0x87,
        OpCode::OP_EQUALVERIFY => 0x88,
        OpCode::OP_CHECKSIG => 0xac,
        OpCode::OP_CHECKSIGVERIFY => 0xad,
        OpCode::OP_VERIFY => 0x69,
        OpCode::OP_RETURN => 0x6a,
    }
}

impl OpCode {
    /// The opcode of a byte, or nothing where the byte is none.
    pub fn from_u8(byte: u8) -> (r: Option<OpCode>)
        ensures
            match r {
                Some(op) => opcode_byte(op) == byte,
                None => forall|op: OpCode| opcode_byte(op) != byte,
            },
    {
        match byte {
            0x00 => Some(OpCode::OP_0),
            0x4c => Some(OpCode::OP_PUSHDATA1),
            0x4d => Some(OpCode::OP_PUSHDATA2),
            0x4e => Some(OpCode::OP_PUSHDATA4),
            0x4f => Some(OpCode::OP_1NEGATE),
            0x51 => Some(OpCode::OP_1),
            0x52 => Some(OpCode::OP_2),
            0x53 => Some(OpCode::OP_3),
            0x54 => Some(OpCode::OP_4),
            0x55 => Some(OpCode::OP_5),
            0x56 => Some(OpCode::OP_6),
            0x57 => Some(OpCode::OP_7),
            0x58 => Some(OpCode::OP_8),
            0x59 => Some(OpCode::OP_9),
            0x5a => Some(OpCode::OP_10),
            0x5b => Some(OpCode::OP_11),
            0x5c => Some(OpCode::OP_12),
            0x5d => Some(OpCode::OP_13),
            0x5e => Some(OpCode::OP_14),
            0x5f => Some(OpCode::OP_15),
            0x60 => Some(OpCode::OP_16),
            0x76 => Some(OpCode::OP_DUP),
            0x75 => Some(OpCode::OP_DROP),
            0xa9 => Some(OpCode::OP_HASH160),
            0x87 => Some(OpCode::OP_EQUAL),
            0x88 => Some(OpCode::OP_EQUALVERIFY),
            0xac => Some(OpCode::OP_CHECKSIG),
            0xad => Some(OpCode::OP_CHECKSIGVERIFY),
            0x69 => Some(OpCode::OP_VERIFY),
            0x6a => Some(OpCode::OP_RETURN),
            _ => None,
        }
    }
}

/// Different opcodes have different bytes.
pub proof fn lemma_opcode_bytes_differ(a: OpCode, b: OpCode)
    requires
        opcode_byte(a) == opcode_byte(b),
    ensures
        a == b,
{
}

} // verus!
