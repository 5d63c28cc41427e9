use vstd::prelude::*;

use crate::cursor::Cursor;

verus! {

/// The text handed to the scanner, owned as a sequence of characters.
/// Errors carry an independently owned slice of it, so diagnostics never
/// hold a reference into a live scan.
#[derive(Clone, Debug, PartialEq, Eq)]
pub struct SourceFile {
    pub code: Vec<char>,
}

impl View for SourceFile {
    type V = Seq<char>;

    open spec fn view(&self) -> Seq<char> {
        self.code@
    }
}

impl SourceFile {
    /// Wrap a character sequence as a source.
    pub fn create(code: Vec<char>) -> (r: SourceFile)
        ensures
            r@ == code@,
    {
        SourceFile { code }
    }

    /// The raw text.
    pub fn get_code(&self) -> (r: &Vec<char>)
        ensures
            r@ == self@,
    {
        &self.code
    }

    /// An independently owned sub-source holding the characters of
    /// `self` from offset `from` (inclusive) to `to` (exclusive).
    pub fn sliced(&self, from: usize, to: usize) -> (r: SourceFile)
        requires
            from <= to <= self@.len(),
        ensures
            r@ == self@.subrange(from as int, to as int),
    {
        let mut piece: Vec<char> = Vec::new();
        let mut i: usize = from;
        while i < to
            invariant
                from <= i <= to <= self@.len(),
                piece@ == self@.subrange(from as int, i as int),
            decreases to - i,
        {
            piece.push(self.code[i]);
            proof {
                assert(piece@ =~= self@.subrange(from as int, i + 1 as int));
            }
            i = i + 1;
        }
        SourceFile { code: piece }
    }
}

} // verus!
