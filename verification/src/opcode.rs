use vstd::prelude::*;

verus! {

/// The instructions of the virtual machine. Operands follow the opcode byte;
/// wide operands are two bytes, little-endian.
#[derive(Debug, Clone, Copy, PartialEq, Eq)]
pub enum OpCode {
    MOVE,
    LOADK,
    LOADBOOL,
    LOADNIL,
    LOADFUN,
    GETGLB,
    SETGLB,
    CALL,
    CALLK,
    RETURN,
    JMP,
    TEST,
    CLOSURE,
    NEWSTRUCT,
    GETUPVAL,
    SETUPVAL,
    GETFIELD,
    SETFIELD,
}

/// The byte that encodes each opcode: its position in the declaration.
pub open spec fn spec_op_byte(op: OpCode) -> u8 {
    match op {
        OpCode::MOVE => 0,
        OpCode::LOADK => 1,
        OpCode::LOADBOOL => 2,
        OpCode::LOADNIL => 3,
        OpCode::LOADFUN => 4,
        OpCode::GETGLB => 5,
        OpCode::SETGLB => 6,
        OpCode::CALL => 7,
        OpCode::CALLK => 8,
        OpCode::RETURN => 9,
        OpCode::JMP => 10,
        OpCode::TEST => 11,
        OpCode::CLOSURE => 12,
        OpCode::NEWSTRUCT => 13,
        OpCode::GETUPVAL => 14,
        OpCode::SETUPVAL => 15,
        OpCode::GETFIELD => 16,
        OpCode::SETFIELD => 17,
    }
}

/// Number of opcodes; every byte below it decodes to an opcode.
pub const OPCODE_COUNT: u8 = 18;

impl OpCode {
    /// The byte that encodes this opcode.
    pub fn to_byte(self) -> (res: u8)
        ensures
            res == spec_op_byte(self),
            res < OPCODE_COUNT,
    {
        match self {
            OpCode::MOVE => 0,
            OpCode::LOADK => 1,
            OpCode::LOADBOOL => 2,
            OpCode::LOADNIL => 3,
            OpCode::LOADFUN => 4,
            OpCode::GETGLB => 5,
            OpCode::SETGLB => 6,
            OpCode::CALL => 7,
            OpCode::CALLK => 8,
            OpCode::RETURN => 9,
            OpCode::JMP => 10,
            OpCode::TEST => 11,
            OpCode::CLOSURE => 12,
            OpCode::NEWSTRUCT => 13,
            OpCode::GETUPVAL => 14,
            OpCode::SETUPVAL => 15,
            OpCode::GETFIELD => 16,
            OpCode::SETFIELD => 17,
        }
    }

    /// Decodes a byte: the opcode it encodes, or `None` for a byte that encodes none.
    pub fn from_repr(byte: u8) -> (res: Option<OpCode>)
        ensures
            res is Some <==> byte < OPCODE_COUNT,
            res matches Some(op) ==> spec_op_byte(op) == byte,
    {
        match byte {
            0 => Some(OpCode::MOVE),
            1 => Some(OpCode::LOADK),
            2 => Some(OpCode::LOADBOOL),
            3 => Some(OpCode::LOADNIL),
            4 => Some(OpCode::LOADFUN),
            5 => Some(OpCode::GETGLB),
            6 => Some(OpCode::SETGLB),
            7 => Some(OpCode::CALL),
            8 => Some(OpCode::CALLK),
            9 => Some(OpCode::RETURN),
            10 => Some(OpCode::JMP),
            11 => Some(OpCode::TEST),
            12 => Some(OpCode::CLOSURE),
            13 => Some(OpCode::NEWSTRUCT),
            14 => Some(OpCode::GETUPVAL),
            15 => Some(OpCode::SETUPVAL),
            16 => Some(OpCode::GETFIELD),
            17 => Some(OpCode::SETFIELD),
            _ => None,
        }
    }
}

/// Decoding the byte of an opcode gives back that opcode.
pub proof fn lemma_opcode_roundtrip(op: OpCode)
    ensures
        spec_op_byte(op) < OPCODE_COUNT,
        forall|o: OpCode| spec_op_byte(o) == spec_op_byte(op) ==> o == op,
{
}

} // verus!
