use vstd::prelude::*;

verus! {

/// The instructions of the virtual machine.
#[derive(Debug, Clone, Copy, PartialEq, Eq, Structural)]
pub enum OpCode {
    Return,
    Constant,
    Negate,
    Print,
    Equal,
    Greater,
    Less,
    Add,
    Subtract,
    Multiply,
    Divide,
}

/// The byte that stands for an opcode in a chunk.
pub open spec fn tag_of(op: OpCode) -> u8 {
    match op {
        OpCode::Return => 0,
        OpCode::Constant => 1,
        OpCode::Negate => 2,
        OpCode::Print => 3,
        OpCode::Equal => 4,
        OpCode::Greater => 5,
        OpCode::Less => 6,
        OpCode::Add => 7,
        OpCode::Subtract => 8,
        OpCode::Multiply => 9,
        OpCode::Divide => 10,
    }
}

impl OpCode {
    /// The byte that encodes this opcode.
    pub fn tag(self) -> (r: u8)
        ensures
            r == tag_of(self),
    {
        match self {
            OpCode::Return => 0,
            OpCode::Constant => 1,
            OpCode::Negate => 2,
            OpCode::Print => 3,
            OpCode::Equal => 4,
            OpCode::Greater => 5,
            OpCode::Less => 6,
            OpCode::Add => 7,
            OpCode::Subtract => 8,
            OpCode::Multiply => 9,
            OpCode::Divide => 10,
        }
    }

    /// The opcode that a byte encodes, if any.
    pub fn from_tag(b: u8) -> (r: Option<OpCode>)
        ensures
            r matches Some(op) ==> tag_of(op) == b,
            r is None <==> b > 10,
    {
        match b {
            0 => Some(OpCode::Return),
            1 => Some(OpCode::Constant),
            2 => Some(OpCode::Negate),
            3 => Some(OpCode::Print),
            4 => Some(OpCode::Equal),
            5 => Some(OpCode::Greater),
            6 => Some(OpCode::Less),
            7 => Some(OpCode::Add),
            8 => Some(OpCode::Subtract),
            9 => Some(OpCode::Multiply),
            10 => Some(OpCode::Divide),
            _ => None,
        }
    }
}

} // verus!
