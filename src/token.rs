use vstd::prelude::*;

verus! {

/// The kinds of tokens of the language.
#[derive(Debug, Clone, Copy, PartialEq, Eq, Structural)]
pub enum TokenType {
    LeftParent,
    RightParent,
    LeftBrace,
    RightBrace,
    Comma,
    Dot,
    Minus,
    Plus,
    Semicolon,
    Slash,
    Star,
    Bang,
    BangEqual,
    Equal,
    EqualEqual,
    Greater,
    GreaterEqual,
    Less,
    LessEqual,
    Identifier,
    Text,
    Integer,
    Float,
    And,
    Class,
    Else,
    False,
    For,
    Fun,
    If,
    Null,
    Or,
    Print,
    Return,
    Super,
    This,
    True,
    Var,
    While,
    Error,
    EndOfFile,
}

/// A token: its kind, the byte range `start..end` of its lexeme, and its line.
#[derive(Debug, Clone, Copy, PartialEq, Eq)]
pub struct Token {
    pub token_type: TokenType,
    pub range: (u32, u32),
    pub line: u32,
}

impl Token {
    /// The byte range of the lexeme.
    pub fn get_range(&self) -> (r: std::ops::Range<usize>)
        ensures
            r.start == self.range.0,
            r.end == self.range.1,
    {
        std::ops::Range { start: self.range.0 as usize, end: self.range.1 as usize }
    }

    /// The byte range of a string literal's contents: the lexeme without its quotes.
    pub fn get_strrange(&self) -> (r: std::ops::Range<usize>)
        requires
            self.range.0 + 2 <= self.range.1,
        ensures
            r.start == self.range.0 + 1,
            r.end == self.range.1 - 1,
    {
        std::ops::Range { start: self.range.0 as usize + 1, end: self.range.1 as usize - 1 }
    }
}

} // verus!
