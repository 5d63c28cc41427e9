use vstd::prelude::*;

verus! {

/// A line/column position in the scanned text. Both fields are 1-based:
/// the cursor starts at line 1, column 1, and always points at the place
/// where the next character would be read.
#[derive(Clone, Copy, Debug, PartialEq, Eq, Structural)]
pub struct Cursor {
    pub line: usize,
    pub column: usize,
}

/// Mathematical counterpart of [`Cursor`], with unbounded coordinates, so
/// that specifications never have to reason about machine-width truncation.
pub ghost struct CurV {
    pub line: int,
    pub col: int,
}

impl View for Cursor {
    type V = CurV;

    open spec fn view(&self) -> CurV {
        CurV { line: self.line as int, col: self.column as int }
    }
}

/// The position of the very first character of a text.
pub open spec fn cur_start() -> CurV {
    CurV { line: 1, col: 1 }
}

/// The single advancement rule: a newline moves to the start of the next
/// line, any other character moves one column to the right.
pub open spec fn cur_adv(c: CurV, ch: char) -> CurV {
    if ch == '\n' {
        CurV { line: c.line + 1, col: 1 }
    } else {
        CurV { line: c.line, col: c.col + 1 }
    }
}

/// The cursor after advancing past every character of `s` in order.
pub open spec fn cur_adv_seq(c: CurV, s: Seq<char>) -> CurV
    decreases s.len(),
{
    if s.len() == 0 {
        c
    } else {
        cur_adv_seq(cur_adv(c, s[0]), s.skip(1))
    }
}

/// Advancing past a concatenation advances past both parts in order.
pub proof fn lemma_cur_adv_seq_app(c: CurV, s1: Seq<char>, s2: Seq<char>)
    ensures
        cur_adv_seq(c, s1 + s2) == cur_adv_seq(cur_adv_seq(c, s1), s2),
    decreases s1.len(),
{
    if s1.len() == 0 {
        assert(s1 + s2 =~= s2);
    } else {
        assert((s1 + s2).skip(1) =~= s1.skip(1) + s2);
        lemma_cur_adv_seq_app(cur_adv(c, s1[0]), s1.skip(1), s2);
    }
}

/// Advancing past a single further character extends the advancement.
pub proof fn lemma_cur_adv_seq_snoc(c: CurV, s: Seq<char>, ch: char)
    ensures
        cur_adv_seq(c, s.push(ch)) == cur_adv(cur_adv_seq(c, s), ch),
    decreases s.len(),
{
    if s.len() == 0 {
        assert(s.push(ch)[0] == ch);
        assert(s.push(ch).skip(1) =~= Seq::<char>::empty());
        assert(cur_adv_seq(cur_adv(c, ch), Seq::<char>::empty()) == cur_adv(c, ch));
    } else {
        assert(s.push(ch)[0] == s[0]);
        assert(s.push(ch).skip(1) =~= s.skip(1).push(ch));
        lemma_cur_adv_seq_snoc(cur_adv(c, s[0]), s.skip(1), ch);
    }
}

/// Advancing past a single character is one advancement step.
pub proof fn lemma_cur_adv_one(c: CurV, ch: char)
    ensures
        cur_adv_seq(c, seq![ch]) == cur_adv(c, ch),
{
    assert(seq![ch].skip(1) =~= Seq::<char>::empty());
    assert(cur_adv_seq(cur_adv(c, ch), Seq::<char>::empty()) == cur_adv(c, ch));
}

/// Advancing over `inp[a..c]` is advancing over `inp[a..b]` then over
/// `inp[b..c]`.
pub proof fn lemma_cursor_compose(c0: CurV, inp: Seq<char>, a: int, b: int, c: int)
    requires
        0 <= a <= b <= c <= inp.len(),
    ensures
        cur_adv_seq(c0, inp.subrange(a, c)) == cur_adv_seq(
            cur_adv_seq(c0, inp.subrange(a, b)),
            inp.subrange(b, c),
        ),
{
    assert(inp.subrange(a, c) =~= inp.subrange(a, b) + inp.subrange(b, c));
    lemma_cur_adv_seq_app(c0, inp.subrange(a, b), inp.subrange(b, c));
}

impl Cursor {
    /// The position of the first character of a text.
    pub fn create() -> (r: Cursor)
        ensures
            r@ == cur_start(),
    {
        Cursor { line: 1, column: 1 }
    }

    /// Advance past a newline: next line, first column.
    pub fn next_line(&mut self)
        requires
            old(self).line < usize::MAX,
        ensures
            final(self)@ == cur_adv(old(self)@, '\n'),
    {
        self.line = self.line + 1;
        self.column = 1;
    }

    /// Advance past an ordinary (non-newline) character: next column.
    pub fn next_col(&mut self)
        requires
            old(self).column < usize::MAX,
        ensures
            final(self)@.line == old(self)@.line,
            final(self)@.col == old(self)@.col + 1,
    {
        self.column = self.column + 1;
    }
}

} // verus!
