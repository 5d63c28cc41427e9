use vstd::prelude::*;

use crate::cursor::{CurV, Cursor};

verus! {

/// Every kind of token the scanner can produce: operators, punctuation,
/// literals, keywords, the end-of-line marker and the end-of-file
/// sentinel.
#[derive(Clone, Copy, Debug, PartialEq, Eq, Structural)]
pub enum LexerTokenKind {
    EOL,
    EOF,
    Equal,
    EqualEqual,
    Arrow,
    Plus,
    PlusEqual,
    Minus,
    MinusEqual,
    Multiply,
    MultiplyEqual,
    Divide,
    DivideEqual,
    Not,
    NotEqual,
    LesserThan,
    LesserEqualThan,
    GreaterThan,
    GreaterEqualThan,
    And,
    Or,
    LParen,
    RParen,
    LBracket,
    RBracket,
    Comma,
    Colon,
    Range,
    RangeInclusive,
    Integer,
    Boolean,
    String,
    Identifier,
    ShellCommand,
    Var,
    Function,
    For,
    While,
    Loop,
    If,
    Else,
    Match,
    Break,
    Continue,
    Return,
    In,
    Is,
    Include,
    Const,
}

/// The decoded payload carried by the value-bearing token kinds.
#[derive(Clone, Debug, PartialEq, Eq)]
pub enum LexerLiteral {
    Integer(isize),
    Boolean(bool),
    String(Vec<char>),
    Identifier(Vec<char>),
    ShellCommand(Vec<char>, Option<Vec<char>>),
}

/// Mathematical counterpart of [`LexerLiteral`].
pub ghost enum LitV {
    Integer(int),
    Boolean(bool),
    String(Seq<char>),
    Identifier(Seq<char>),
    ShellCommand(Seq<char>, Option<Seq<char>>),
}

impl View for LexerLiteral {
    type V = LitV;

    open spec fn view(&self) -> LitV {
        match self {
            LexerLiteral::Integer(n) => LitV::Integer(*n as int),
            LexerLiteral::Boolean(b) => LitV::Boolean(*b),
            LexerLiteral::String(s) => LitV::String(s@),
            LexerLiteral::Identifier(s) => LitV::Identifier(s@),
            LexerLiteral::ShellCommand(name, args) => LitV::ShellCommand(
                name@,
                match args {
                    Some(a) => Some(a@),
                    None => None,
                },
            ),
        }
    }
}

/// One classified, spanned unit of lexical input. `start` and `end` are
/// immutable snapshots of the cursor, not live positions.
#[derive(Clone, Debug, PartialEq, Eq)]
pub struct LexerToken {
    pub kind: LexerTokenKind,
    pub start: Cursor,
    pub end: Cursor,
    pub value: Option<LexerLiteral>,
}

/// Mathematical counterpart of [`LexerToken`].
pub ghost struct TokV {
    pub kind: LexerTokenKind,
    pub start: CurV,
    pub end: CurV,
    pub value: Option<LitV>,
}

impl View for LexerToken {
    type V = TokV;

    open spec fn view(&self) -> TokV {
        TokV {
            kind: self.kind,
            start: self.start@,
            end: self.end@,
            value: match &self.value {
                Some(v) => Some(v@),
                None => None,
            },
        }
    }
}

/// The ordered token sequence a scan produces.
pub type LexerTokenList = Vec<LexerToken>;

/// The view of an optional literal payload.
pub open spec fn opt_lit_view(v: Option<LexerLiteral>) -> Option<LitV> {
    match v {
        Some(l) => Some(l@),
        None => None,
    }
}

} // verus!
