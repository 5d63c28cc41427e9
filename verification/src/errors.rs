use vstd::prelude::*;

use crate::cursor::{CurV, Cursor};
use crate::source::SourceFile;

verus! {

/// Every way a single dispatch step can fail. A failure is always local:
/// it is recorded and the scan resumes at the next character.
#[derive(Clone, Debug, PartialEq, Eq)]
pub enum LexerErrorKind {
    /// No classification matched the character that started the step.
    UnknownToken,
    /// A required delimiter or terminator was missing or wrong.
    ExpectedCharacter { expected: Vec<char>, found: Option<char> },
    /// The input ran out before even a first required character.
    UnexpectedEnd,
    /// `0` was followed by a letter that names no radix.
    InvalidNumberNotation,
    /// The digits were valid but the value exceeds the machine range;
    /// the raw digit text is kept for the diagnostic.
    IntegerOverflow(Vec<char>),
}

/// Mathematical counterpart of [`LexerErrorKind`].
pub ghost enum ErrKindV {
    UnknownToken,
    ExpectedCharacter { expected: Seq<char>, found: Option<char> },
    UnexpectedEnd,
    InvalidNumberNotation,
    IntegerOverflow(Seq<char>),
}

impl View for LexerErrorKind {
    type V = ErrKindV;

    open spec fn view(&self) -> ErrKindV {
        match self {
            LexerErrorKind::UnknownToken => ErrKindV::UnknownToken,
            LexerErrorKind::ExpectedCharacter { expected, found } => ErrKindV::ExpectedCharacter {
                expected: expected@,
                found: *found,
            },
            LexerErrorKind::UnexpectedEnd => ErrKindV::UnexpectedEnd,
            LexerErrorKind::InvalidNumberNotation => ErrKindV::InvalidNumberNotation,
            LexerErrorKind::IntegerOverflow(raw) => ErrKindV::IntegerOverflow(raw@),
        }
    }
}

/// A recorded lexical error: its kind, its span, and an independently
/// owned slice of the offending source text.
#[derive(Clone, Debug, PartialEq, Eq)]
pub struct LexerError {
    pub source_file: SourceFile,
    pub start: Cursor,
    pub end: Cursor,
    pub kind: LexerErrorKind,
}

/// Mathematical counterpart of [`LexerError`].
pub ghost struct ErrV {
    pub slice: Seq<char>,
    pub start: CurV,
    pub end: CurV,
    pub kind: ErrKindV,
}

impl View for LexerError {
    type V = ErrV;

    open spec fn view(&self) -> ErrV {
        ErrV { slice: self.source_file@, start: self.start@, end: self.end@, kind: self.kind@ }
    }
}

/// The result of one dispatch step or sub-scan.
pub type LexerResult<T> = Result<T, LexerErrorKind>;

} // verus!
