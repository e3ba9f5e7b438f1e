//! The instruction set of the bytecode.

use vstd::prelude::*;

verus! {

/// One instruction of the virtual machine.
/// Each is a single byte in the bytecode;
/// some are followed by one variable-length number, their operand.
#[derive(Debug, Clone, Copy, PartialEq, Eq, Structural)]
pub enum Opcode {
    /// Push the constant at the operand's index.
    Con,
    /// Reserve a slot for a declared variable that has no value yet.
    NotInit,
    /// Pop and discard the top of the stack.
    Del,
    /// Move the local at the operand's index to the heap.
    Capture,
    /// Pop the top and store it in the local at the operand's index.
    Save,
    /// Pop the top and store it in the captured cell at the operand's index.
    SaveCap,
    /// Push the local at the operand's index.
    Load,
    /// Push the value of the captured cell at the operand's index.
    LoadCap,
    /// Pop an argument, then a function; call it and push the result.
    Call,
    /// Pop the result, drop as many locals as the operand says, push the result.
    Return,
    /// Wrap the chunk at the operand's index in the constants into a closure and push it.
    Closure,
    /// Pop the top and print it.
    Print,
    /// Wrap the top of the stack in a label.
    Label,
    /// Unwrap a label.
    UnLabel,
    /// Match the top of the stack against a single literal.
    UnData,
    /// Pop as many values as the operand says and push a tuple of them.
    Tuple,
    /// Reach for the item at the operand's index in the tuple on top.
    UnTuple,
    /// Duplicate the top of the stack.
    Copy,
    /// Call the foreign function at the operand's index.
    FFICall,
}

impl Opcode {
    /// The byte that stands for this instruction.
    pub open spec fn byte(self) -> u8 {
        match self {
            Opcode::Con => 0,
            Opcode::NotInit => 1,
            Opcode::Del => 2,
            Opcode::Capture => 3,
            Opcode::Save => 4,
            Opcode::SaveCap => 5,
            Opcode::Load => 6,
            Opcode::LoadCap => 7,
            Opcode::Call => 8,
            Opcode::Return => 9,
            Opcode::Closure => 10,
            Opcode::Print => 11,
            Opcode::Label => 12,
            Opcode::UnLabel => 13,
            Opcode::UnData => 14,
            Opcode::Tuple => 15,
            Opcode::UnTuple => 16,
            Opcode::Copy => 17,
            Opcode::FFICall => 18,
        }
    }

    /// The instruction that a byte stands for, if it stands for one.
    pub open spec fn of_byte(byte: u8) -> Option<Opcode> {
        if byte == 0 {
            Some(Opcode::Con)
        } else if byte == 1 {
            Some(Opcode::NotInit)
        } else if byte == 2 {
            Some(Opcode::Del)
        } else if byte == 3 {
            Some(Opcode::Capture)
        } else if byte == 4 {
            Some(Opcode::Save)
        } else if byte == 5 {
            Some(Opcode::SaveCap)
        } else if byte == 6 {
            Some(Opcode::Load)
        } else if byte == 7 {
            Some(Opcode::LoadCap)
        } else if byte == 8 {
            Some(Opcode::Call)
        } else if byte == 9 {
            Some(Opcode::Return)
        } else if byte == 10 {
            Some(Opcode::Closure)
        } else if byte == 11 {
            Some(Opcode::Print)
        } else if byte == 12 {
            Some(Opcode::Label)
        } else if byte == 13 {
            Some(Opcode::UnLabel)
        } else if byte == 14 {
            Some(Opcode::UnData)
        } else if byte == 15 {
            Some(Opcode::Tuple)
        } else if byte == 16 {
            Some(Opcode::UnTuple)
        } else if byte == 17 {
            Some(Opcode::Copy)
        } else if byte == 18 {
            Some(Opcode::FFICall)
        } else {
            None
        }
    }

    /// Whether a number follows this instruction in the bytecode.
    pub open spec fn takes_operand(self) -> bool {
        match self {
            Opcode::Con
            | Opcode::Capture
            | Opcode::Save
            | Opcode::SaveCap
            | Opcode::Load
            | Opcode::LoadCap
            | Opcode::Return
            | Opcode::Closure
            | Opcode::Tuple
            | Opcode::UnTuple
            | Opcode::FFICall => true,
            _ => false,
        }
    }

    /// The byte that stands for this instruction.
    pub fn to_byte(self) -> (byte: u8)
        ensures
            byte == self.byte(),
    {
        match self {
            Opcode::Con => 0,
            Opcode::NotInit => 1,
            Opcode::Del => 2,
            Opcode::Capture => 3,
            Opcode::Save => 4,
            Opcode::SaveCap => 5,
            Opcode::Load => 6,
            Opcode::LoadCap => 7,
            Opcode::Call => 8,
            Opcode::Return => 9,
            Opcode::Closure => 10,
            Opcode::Print => 11,
            Opcode::Label => 12,
            Opcode::UnLabel => 13,
            Opcode::UnData => 14,
            Opcode::Tuple => 15,
            Opcode::UnTuple => 16,
            Opcode::Copy => 17,
            Opcode::FFICall => 18,
        }
    }

    /// Reads a byte as an instruction; `None` for a byte that stands for none.
    pub fn from_byte(byte: u8) -> (op: Option<Opcode>)
        ensures
            op == Opcode::of_byte(byte),
    {
        match byte {
            0 => Some(Opcode::Con),
            1 => Some(Opcode::NotInit),
            2 => Some(Opcode::Del),
            3 => Some(Opcode::Capture),
            4 => Some(Opcode::Save),
            5 => Some(Opcode::SaveCap),
            6 => Some(Opcode::Load),
            7 => Some(Opcode::LoadCap),
            8 => Some(Opcode::Call),
            9 => Some(Opcode::Return),
            10 => Some(Opcode::Closure),
            11 => Some(Opcode::Print),
            12 => Some(Opcode::Label),
            13 => Some(Opcode::UnLabel),
            14 => Some(Opcode::UnData),
            15 => Some(Opcode::Tuple),
            16 => Some(Opcode::UnTuple),
            17 => Some(Opcode::Copy),
            18 => Some(Opcode::FFICall),
            _ => None,
        }
    }

    /// Whether a number follows this instruction in the bytecode.
    pub fn has_operand(self) -> (yes: bool)
        ensures
            yes == self.takes_operand(),
    {
        match self {
            Opcode::Con
            | Opcode::Capture
            | Opcode::Save
            | Opcode::SaveCap
            | Opcode::Load
            | Opcode::LoadCap
            | Opcode::Return
            | Opcode::Closure
            | Opcode::Tuple
            | Opcode::UnTuple
            | Opcode::FFICall => true,
            _ => false,
        }
    }

    /// Every instruction is read back from its own byte, and from that byte only.
    pub proof fn lemma_byte_round_trip(self, byte: u8)
        ensures
            Opcode::of_byte(self.byte()) == Some(self),
            Opcode::of_byte(byte) == Some(self) <==> byte == self.byte(),
            self.byte() < 128,
    {
    }
}

} // verus!
