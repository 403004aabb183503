//! Plain values shared by the parser, the brewer and the interpreter.
use vstd::prelude::*;

verus! {

/// An interned word, such as an identifier or the text of a literal.
#[derive(Clone, Copy, Debug, PartialEq, Eq, Structural)]
pub struct Word {
    pub index: u32,
}

/// A range of source text, from `start` up to but not including `end`.
#[derive(Clone, Copy, Debug, PartialEq, Eq, Structural)]
pub struct Span {
    pub start: u32,
    pub end: u32,
}

impl Span {
    /// The span that begins where `self` begins and ends where `other` ends.
    pub open spec fn up_to(self, other: Span) -> Span {
        Span { start: self.start, end: other.end }
    }

    /// The span that begins where `self` begins and ends where `other` ends.
    pub fn to(self, other: Span) -> (span: Span)
        ensures
            span == self.up_to(other),
    {
        Span { start: self.start, end: other.end }
    }
}

/// Operator tokens.
#[derive(Clone, Copy, Debug, PartialEq, Eq, Structural)]
pub enum Op {
    Colon,
    Comma,
    Dot,
    Plus,
    Minus,
    Times,
    DividedBy,
}

/// Reserved words.
#[derive(Clone, Copy, Debug, PartialEq, Eq, Structural)]
pub enum Keyword {
    If,
    Else,
    While,
    Loop,
    Continue,
    Break,
    Return,
}

impl Op {
    /// How the operator is written.
    pub open spec fn text(self) -> Seq<char> {
        match self {
            Op::Colon => ":"@,
            Op::Comma => ","@,
            Op::Dot => "."@,
            Op::Plus => "+"@,
            Op::Minus => "-"@,
            Op::Times => "*"@,
            Op::DividedBy => "/"@,
        }
    }

    /// How the operator is written.
    pub fn str(self) -> (text: &'static str)
        ensures
            text@ == self.text(),
    {
        match self {
            Op::Colon => ":",
            Op::Comma => ",",
            Op::Dot => ".",
            Op::Plus => "+",
            Op::Minus => "-",
            Op::Times => "*",
            Op::DividedBy => "/",
        }
    }
}

impl Keyword {
    /// How the keyword is written.
    pub open spec fn text(self) -> Seq<char> {
        match self {
            Keyword::If => "if"@,
            Keyword::Else => "else"@,
            Keyword::While => "while"@,
            Keyword::Loop => "loop"@,
            Keyword::Continue => "continue"@,
            Keyword::Break => "break"@,
            Keyword::Return => "return"@,
        }
    }

    /// How the keyword is written.
    pub fn str(self) -> (text: &'static str)
        ensures
            text@ == self.text(),
    {
        match self {
            Keyword::If => "if",
            Keyword::Else => "else",
            Keyword::While => "while",
            Keyword::Loop => "loop",
            Keyword::Continue => "continue",
            Keyword::Break => "break",
            Keyword::Return => "return",
        }
    }
}

/// How a local variable holds its value.
#[derive(Clone, Copy, Debug, PartialEq, Eq, Structural)]
pub enum StorageMode {
    /// The variable may not be assigned again.
    Shared,
    /// The variable may be assigned again.
    Var,
}

/// Whether others may hold the same access at the same time.
#[derive(Clone, Copy, Debug, PartialEq, Eq, Structural)]
pub enum Joint {
    No,
    Yes,
}

/// Whether access was lent by another permission.
#[derive(Clone, Copy, Debug, PartialEq, Eq, Structural)]
pub enum Leased {
    No,
    Yes,
}

} // verus!
