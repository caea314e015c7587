use vstd::prelude::*;

verus! {

/// Binding strength of operators, from loosest to tightest.
#[derive(Debug, Clone, Copy, PartialEq, Eq, Structural)]
pub enum Precedence {
    NONE,
    ASSIGNMENT,
    OR,
    AND,
    EQUALITY,
    COMPARISON,
    TERM,
    FACTOR,
    UNARY,
    CALL,
    PRIMARY,
}

/// The rank of a precedence on the ladder.
pub open spec fn rank(p: Precedence) -> nat {
    match p {
        Precedence::NONE => 0,
        Precedence::ASSIGNMENT => 1,
        Precedence::OR => 2,
        Precedence::AND => 3,
        Precedence::EQUALITY => 4,
        Precedence::COMPARISON => 5,
        Precedence::TERM => 6,
        Precedence::FACTOR => 7,
        Precedence::UNARY => 8,
        Precedence::CALL => 9,
        Precedence::PRIMARY => 10,
    }
}

/// The precedence one step tighter; `PRIMARY` stays.
pub open spec fn next_spec(p: Precedence) -> Precedence {
    match p {
        Precedence::NONE => Precedence::ASSIGNMENT,
        Precedence::ASSIGNMENT => Precedence::OR,
        Precedence::OR => Precedence::AND,
        Precedence::AND => Precedence::EQUALITY,
        Precedence::EQUALITY => Precedence::COMPARISON,
        Precedence::COMPARISON => Precedence::TERM,
        Precedence::TERM => Precedence::FACTOR,
        Precedence::FACTOR => Precedence::UNARY,
        Precedence::UNARY => Precedence::CALL,
        Precedence::CALL => Precedence::PRIMARY,
        Precedence::PRIMARY => Precedence::PRIMARY,
    }
}

impl Precedence {
    pub fn next(self) -> (r: Precedence)
        ensures
            r == next_spec(self),
            rank(r) == if rank(self) == 10 { 10 } else { rank(self) + 1 },
    {
        match self {
            Precedence::NONE => Precedence::ASSIGNMENT,
            Precedence::ASSIGNMENT => Precedence::OR,
            Precedence::OR => Precedence::AND,
            Precedence::AND => Precedence::EQUALITY,
            Precedence::EQUALITY => Precedence::COMPARISON,
            Precedence::COMPARISON => Precedence::TERM,
            Precedence::TERM => Precedence::FACTOR,
            Precedence::FACTOR => Precedence::UNARY,
            Precedence::UNARY => Precedence::CALL,
            Precedence::CALL => Precedence::PRIMARY,
            Precedence::PRIMARY => Precedence::PRIMARY,
        }
    }

    /// The rank of this precedence on the ladder.
    pub fn level(self) -> (r: u8)
        ensures
            r == rank(self),
    {
        match self {
            Precedence::NONE => 0,
            Precedence::ASSIGNMENT => 1,
            Precedence::OR => 2,
            Precedence::AND => 3,
            Precedence::EQUALITY => 4,
            Precedence::COMPARISON => 5,
            Precedence::TERM => 6,
            Precedence::FACTOR => 7,
            Precedence::UNARY => 8,
            Precedence::CALL => 9,
            Precedence::PRIMARY => 10,
        }
    }
}

} // verus!
