use vstd::prelude::*;

use crate::classify::{digit_val, digits_value, is_digit_in, is_ident_char, unicode_whitespace};
use crate::component::{lemma_skip_count_bounds, skip_count};
use crate::cursor::{cur_adv, cur_adv_seq, CurV};
use crate::errors::{ErrKindV, ErrV};
use crate::tokens::{LexerTokenKind, LitV, TokV};

verus! {

// ---------------------------------------------------------------------
// Trimming
// ---------------------------------------------------------------------
/// How many leading whitespace characters `s` has.
pub open spec fn ws_prefix(s: Seq<char>) -> int
    decreases s.len(),
{
    if s.len() == 0 {
        0
    } else if unicode_whitespace(s[0]) {
        1 + ws_prefix(s.skip(1))
    } else {
        0
    }
}

/// How many trailing whitespace characters `s` has.
pub open spec fn ws_suffix(s: Seq<char>) -> int
    decreases s.len(),
{
    if s.len() == 0 {
        0
    } else if unicode_whitespace(s.last()) {
        1 + ws_suffix(s.drop_last())
    } else {
        0
    }
}

/// `s` with leading and trailing whitespace removed.
pub open spec fn trim_spec(s: Seq<char>) -> Seq<char> {
    if ws_prefix(s) == s.len() {
        Seq::empty()
    } else {
        s.subrange(ws_prefix(s), s.len() - ws_suffix(s))
    }
}

pub proof fn lemma_ws_prefix_char(s: Seq<char>)
    ensures
        0 <= ws_prefix(s) <= s.len(),
        forall|j: int| 0 <= j < ws_prefix(s) ==> unicode_whitespace(s[j]),
        ws_prefix(s) < s.len() ==> !unicode_whitespace(s[ws_prefix(s)]),
    decreases s.len(),
{
    if s.len() > 0 && unicode_whitespace(s[0]) {
        lemma_ws_prefix_char(s.skip(1));
        assert forall|j: int| 0 <= j < ws_prefix(s) implies unicode_whitespace(s[j]) by {
            if j > 0 {
                assert(s[j] == s.skip(1)[j - 1]);
            }
        }
        if ws_prefix(s) < s.len() {
            assert(s[ws_prefix(s)] == s.skip(1)[ws_prefix(s) - 1]);
        }
    }
}

pub proof fn lemma_ws_suffix_char(s: Seq<char>)
    ensures
        0 <= ws_suffix(s) <= s.len(),
        forall|j: int| s.len() - ws_suffix(s) <= j < s.len() ==> unicode_whitespace(s[j]),
        ws_suffix(s) < s.len() ==> !unicode_whitespace(s[s.len() - 1 - ws_suffix(s)]),
    decreases s.len(),
{
    if s.len() > 0 && unicode_whitespace(s.last()) {
        lemma_ws_suffix_char(s.drop_last());
        assert forall|j: int| s.len() - ws_suffix(s) <= j < s.len() implies unicode_whitespace(
            s[j],
        ) by {
            if j < s.len() - 1 {
                assert(s[j] == s.drop_last()[j]);
            }
        }
        if ws_suffix(s) < s.len() {
            assert(s[s.len() - 1 - ws_suffix(s)] == s.drop_last()[s.len() - 1 - ws_suffix(s)]);
        }
    }
}

/// Under `p` whitespace-only leading characters the prefix count is at
/// least `p`.
pub proof fn lemma_ws_prefix_ge(s: Seq<char>, p: int)
    requires
        0 <= p <= s.len(),
        forall|j: int| 0 <= j < p ==> unicode_whitespace(s[j]),
    ensures
        ws_prefix(s) >= p,
    decreases p,
{
    lemma_ws_prefix_char(s);
    if p > 0 {
        assert(unicode_whitespace(s[0]));
        assert forall|j: int| 0 <= j < p - 1 implies unicode_whitespace(s.skip(1)[j]) by {
            assert(s.skip(1)[j] == s[j + 1]);
        }
        lemma_ws_prefix_ge(s.skip(1), p - 1);
        assert(ws_prefix(s) == 1 + ws_prefix(s.skip(1)));
    }
}

/// Under `q` whitespace-only trailing characters the suffix count is at
/// least `q`.
pub proof fn lemma_ws_suffix_ge(s: Seq<char>, q: int)
    requires
        0 <= q <= s.len(),
        forall|j: int| s.len() - q <= j < s.len() ==> unicode_whitespace(s[j]),
    ensures
        ws_suffix(s) >= q,
    decreases q,
{
    lemma_ws_suffix_char(s);
    if q > 0 {
        assert(unicode_whitespace(s.last()));
        assert forall|j: int| s.drop_last().len() - (q - 1) <= j < s.drop_last().len() implies
            unicode_whitespace(s.drop_last()[j]) by {
            assert(s.drop_last()[j] == s[j]);
        }
        lemma_ws_suffix_ge(s.drop_last(), q - 1);
        assert(ws_suffix(s) == 1 + ws_suffix(s.drop_last()));
    }
}

// ---------------------------------------------------------------------
// Collecting sub-scans
// ---------------------------------------------------------------------
/// What a backslash escape decodes to: the usual control characters, and
/// any other character stands for itself.
pub open spec fn esc_map(c: char) -> char {
    if c == '0' {
        '\0'
    } else if c == 't' {
        '\t'
    } else if c == 'n' {
        '\n'
    } else if c == 'r' {
        '\r'
    } else {
        c
    }
}

/// The collecting scan from offset `pos`: characters are gathered until
/// a member of `term` is reached (left unconsumed) or the input ends.
/// With `esc` set, a backslash consumes the following character and
/// contributes its decoded form instead, terminator or not; a trailing
/// lone backslash is consumed and contributes nothing. The result is
/// the offset after the scan and the gathered characters.
pub open spec fn eat_spec(inp: Seq<char>, pos: int, term: Seq<char>, esc: bool) -> (int, Seq<char>)
    decreases inp.len() - pos,
{
    if pos < 0 || pos >= inp.len() {
        (pos, Seq::empty())
    } else if esc && inp[pos] == '\\' {
        if pos + 1 < inp.len() {
            let r = eat_spec(inp, pos + 2, term, esc);
            (r.0, seq![esc_map(inp[pos + 1])] + r.1)
        } else {
            (pos + 1, Seq::empty())
        }
    } else if term.contains(inp[pos]) {
        (pos, Seq::empty())
    } else {
        let r = eat_spec(inp, pos + 1, term, esc);
        (r.0, seq![inp[pos]] + r.1)
    }
}

pub proof fn lemma_eat_spec_bounds(inp: Seq<char>, pos: int, term: Seq<char>, esc: bool)
    requires
        0 <= pos <= inp.len(),
    ensures
        pos <= eat_spec(inp, pos, term, esc).0 <= inp.len(),
    decreases inp.len() - pos,
{
    if pos < inp.len() {
        if esc && inp[pos] == '\\' {
            if pos + 1 < inp.len() {
                lemma_eat_spec_bounds(inp, pos + 2, term, esc);
            }
        } else if !term.contains(inp[pos]) {
            lemma_eat_spec_bounds(inp, pos + 1, term, esc);
        }
    }
}

/// The collecting scan stops only at a terminator or at the input's
/// end.
pub proof fn lemma_eat_spec_stop(inp: Seq<char>, pos: int, term: Seq<char>, esc: bool)
    requires
        0 <= pos <= inp.len(),
    ensures
        eat_spec(inp, pos, term, esc).0 < inp.len() ==> term.contains(
            inp[eat_spec(inp, pos, term, esc).0],
        ),
    decreases inp.len() - pos,
{
    if pos < inp.len() {
        if esc && inp[pos] == '\\' {
            if pos + 1 < inp.len() {
                lemma_eat_spec_stop(inp, pos + 2, term, esc);
            }
        } else if !term.contains(inp[pos]) {
            lemma_eat_spec_stop(inp, pos + 1, term, esc);
        }
    }
}

/// Without escapes, the collecting scan advances exactly past the
/// items that `skip_count` counts.
pub proof fn lemma_eat_skip_count(inp: Seq<char>, pos: int, term: Seq<char>)
    requires
        0 <= pos <= inp.len(),
    ensures
        eat_spec(inp, pos, term, false).0 == pos + skip_count(inp.skip(pos), term),
    decreases inp.len() - pos,
{
    if pos < inp.len() {
        assert(inp.skip(pos)[0] == inp[pos]);
        if !term.contains(inp[pos]) {
            lemma_eat_skip_count(inp, pos + 1, term);
            assert(inp.skip(pos).skip(1) =~= inp.skip(pos + 1));
        }
    } else {
        assert(inp.skip(pos) =~= Seq::<char>::empty());
    }
}

/// The word scan: gather identifier characters until the first that is
/// none (left unconsumed) or the input ends.
pub open spec fn word_spec(inp: Seq<char>, pos: int) -> (int, Seq<char>)
    decreases inp.len() - pos,
{
    if pos < 0 || pos >= inp.len() {
        (pos, Seq::empty())
    } else if !is_ident_char(inp[pos]) {
        (pos, Seq::empty())
    } else {
        let r = word_spec(inp, pos + 1);
        (r.0, seq![inp[pos]] + r.1)
    }
}

pub proof fn lemma_word_spec_bounds(inp: Seq<char>, pos: int)
    requires
        0 <= pos <= inp.len(),
    ensures
        pos <= word_spec(inp, pos).0 <= inp.len(),
    decreases inp.len() - pos,
{
    if pos < inp.len() && is_ident_char(inp[pos]) {
        lemma_word_spec_bounds(inp, pos + 1);
    }
}

// ---------------------------------------------------------------------
// Numeric literals
// ---------------------------------------------------------------------
/// The digit-gathering loop: starting with `count` digits already taken,
/// gather further digits of `radix` while under the `max` ceiling,
/// skipping underscore separators, and stop at the first character that
/// is neither (left unconsumed) or at the input's end.
pub open spec fn collect_digits(inp: Seq<char>, pos: int, radix: int, max: int, count: int) -> (
    int,
    Seq<char>,
)
    decreases inp.len() - pos,
{
    if pos < 0 || pos >= inp.len() || count >= max {
        (pos, Seq::empty())
    } else if inp[pos] == '_' {
        collect_digits(inp, pos + 1, radix, max, count)
    } else if !is_digit_in(inp[pos], radix) {
        (pos, Seq::empty())
    } else {
        let r = collect_digits(inp, pos + 1, radix, max, count + 1);
        (r.0, seq![inp[pos]] + r.1)
    }
}

pub proof fn lemma_collect_digits_bounds(inp: Seq<char>, pos: int, radix: int, max: int, count: int)
    requires
        0 <= pos <= inp.len(),
    ensures
        pos <= collect_digits(inp, pos, radix, max, count).0 <= inp.len(),
    decreases inp.len() - pos,
{
    if pos < inp.len() && count < max {
        if inp[pos] == '_' {
            lemma_collect_digits_bounds(inp, pos + 1, radix, max, count);
        } else if is_digit_in(inp[pos], radix) {
            lemma_collect_digits_bounds(inp, pos + 1, radix, max, count + 1);
        }
    }
}

/// The payload of the invalid-digit diagnostic.
pub open spec fn expected_digits() -> Seq<char> {
    seq!['0', '.', '.', '9']
}

/// The outcome of a numeric-literal scan: the offset after it and either
/// the (non-negative) value read or the failure.
pub ghost struct NumRes {
    pub npos: int,
    pub out: Result<int, ErrKindV>,
}

/// Closing step of the numeric scan: an empty digit string is the
/// expected-digit failure (nothing was found where digits were due), a
/// value beyond the machine range is the overflow failure carrying the
/// raw digits, anything else the value.
pub open spec fn num_finish(npos: int, digits: Seq<char>, radix: int) -> NumRes {
    if digits.len() == 0 {
        NumRes {
            npos,
            out: Err(ErrKindV::ExpectedCharacter { expected: expected_digits(), found: None }),
        }
    } else if digits_value(digits, radix) > isize::MAX as int {
        NumRes { npos, out: Err(ErrKindV::IntegerOverflow(digits)) }
    } else {
        NumRes { npos, out: Ok(digits_value(digits, radix)) }
    }
}

/// Whether `c` is an ASCII letter.
pub open spec fn is_ascii_alpha(c: char) -> bool {
    ('a' as int <= c as int && c as int <= 'z' as int) || ('A' as int <= c as int && c as int
        <= 'Z' as int)
}

/// The radix a letter after a leading `0` selects, or none.
pub open spec fn radix_of(c: char) -> Option<int> {
    if c == 'b' {
        Some(2)
    } else if c == 'o' {
        Some(8)
    } else if c == 'd' {
        Some(10)
    } else if c == 'x' {
        Some(16)
    } else {
        None
    }
}

/// The numeric-literal scan. `first` is the already consumed leading
/// character and `pos` the offset just after it. A leading `1`-`9`
/// starts a decimal with one digit counted; a leading `0` must be
/// followed by a radix letter (`b`, `o`, `d`, `x`) — another letter is
/// consumed, the fallback decimal scan still runs, and the
/// invalid-notation failure is reported; no letter at all reads as the
/// bare value 0. Any other leading character is the (defensively kept)
/// expected-digit failure.
pub open spec fn num_spec(inp: Seq<char>, pos: int, first: char, max: int) -> NumRes {
    if '1' as int <= first as int && first as int <= '9' as int {
        let r = collect_digits(inp, pos, 10, max, 1);
        num_finish(r.0, seq![first] + r.1, 10)
    } else if first == '0' {
        if pos < inp.len() && is_ascii_alpha(inp[pos]) {
            match radix_of(inp[pos]) {
                Some(radix) => {
                    let r = collect_digits(inp, pos + 1, radix, max, 0);
                    num_finish(r.0, r.1, radix)
                },
                None => {
                    let r = collect_digits(inp, pos + 1, 10, max, 0);
                    NumRes { npos: r.0, out: Err(ErrKindV::InvalidNumberNotation) }
                },
            }
        } else {
            NumRes { npos: pos, out: Ok(0) }
        }
    } else {
        NumRes {
            npos: pos,
            out: Err(
                ErrKindV::ExpectedCharacter { expected: expected_digits(), found: Some(first) },
            ),
        }
    }
}

pub proof fn lemma_num_spec_bounds(inp: Seq<char>, pos: int, first: char, max: int)
    requires
        0 <= pos <= inp.len(),
    ensures
        pos <= num_spec(inp, pos, first, max).npos <= inp.len(),
{
    lemma_collect_digits_bounds(inp, pos, 10, max, 1);
    if pos < inp.len() {
        lemma_collect_digits_bounds(inp, pos + 1, 2, max, 0);
        lemma_collect_digits_bounds(inp, pos + 1, 8, max, 0);
        lemma_collect_digits_bounds(inp, pos + 1, 10, max, 0);
        lemma_collect_digits_bounds(inp, pos + 1, 16, max, 0);
    }
}

// ---------------------------------------------------------------------
// Dispatch steps
// ---------------------------------------------------------------------
/// What one dispatch step yields: a token (kind and payload), silently
/// elided text, or a failure.
pub ghost enum OutV {
    Tok(LexerTokenKind, Option<LitV>),
    Skip,
    Fail(ErrKindV),
}

/// The outcome of one dispatch step: the offset after it, whether the
/// cursor was additionally run past the (unconsumed) character at that
/// offset before an error was reported, and what the step yielded.
pub ghost struct StepRes {
    pub npos: int,
    pub quirk: bool,
    pub out: OutV,
}

/// The string-literal scan from just after the opening quote: collect
/// with escapes until a quote or newline; a quote closes the literal; a
/// newline is the expected-quote failure whose end span is first run
/// past that newline; exhausted input is the same failure with nothing
/// found.
pub open spec fn string_spec(inp: Seq<char>, pos: int) -> StepRes {
    let e = eat_spec(inp, pos, seq!['"', '\n'], true);
    if e.0 < inp.len() && inp[e.0] == '"' {
        StepRes {
            npos: e.0 + 1,
            quirk: false,
            out: OutV::Tok(LexerTokenKind::String, Some(LitV::String(e.1))),
        }
    } else if e.0 < inp.len() {
        StepRes {
            npos: e.0,
            quirk: true,
            out: OutV::Fail(
                ErrKindV::ExpectedCharacter { expected: seq!['"'], found: Some(inp[e.0]) },
            ),
        }
    } else {
        StepRes {
            npos: e.0,
            quirk: false,
            out: OutV::Fail(ErrKindV::ExpectedCharacter { expected: seq!['"'], found: None }),
        }
    }
}

pub proof fn lemma_string_spec_bounds(inp: Seq<char>, pos: int)
    requires
        0 <= pos <= inp.len(),
    ensures
        pos <= string_spec(inp, pos).npos <= inp.len(),
        string_spec(inp, pos).quirk ==> string_spec(inp, pos).npos < inp.len(),
{
    lemma_eat_spec_bounds(inp, pos, seq!['"', '\n'], true);
}

/// The shell-command scan from just after the dollar sign: the name
/// runs to the first space, tab, newline or opening parenthesis and may
/// not be empty (else the unexpected-end failure). A space or tab
/// starts argument text running to the end of the line; a parenthesis
/// starts escaped argument text running to a newline, NUL or closing
/// parenthesis, and the construct must then be closed by that matching
/// parenthesis (else the expected-character failure) — an empty list
/// closes with no argument text; any other character means no
/// arguments.
pub open spec fn shell_spec(inp: Seq<char>, pos: int) -> StepRes {
    let e1 = eat_spec(inp, pos, seq![' ', '\t', '\n', '('], false);
    if e1.1.len() == 0 {
        StepRes { npos: e1.0, quirk: false, out: OutV::Fail(ErrKindV::UnexpectedEnd) }
    } else {
        let np1 = e1.0;
        if np1 < inp.len() && (inp[np1] == ' ' || inp[np1] == '\t') {
            let e2 = eat_spec(inp, np1 + 1, seq!['\n'], false);
            let args = if e2.1.len() == 0 {
                Option::<Seq<char>>::None
            } else {
                Some(e2.1)
            };
            StepRes {
                npos: e2.0,
                quirk: false,
                out: OutV::Tok(
                    LexerTokenKind::ShellCommand,
                    Some(LitV::ShellCommand(e1.1, args)),
                ),
            }
        } else if np1 < inp.len() && inp[np1] == '(' {
            let e2 = eat_spec(inp, np1 + 1, seq!['\n', '\0', ')'], true);
            if e2.0 < inp.len() && inp[e2.0] == ')' {
                StepRes {
                    npos: e2.0 + 1,
                    quirk: false,
                    out: OutV::Tok(
                        LexerTokenKind::ShellCommand,
                        Some(
                            LitV::ShellCommand(
                                e1.1,
                                if e2.1.len() == 0 {
                                    Option::<Seq<char>>::None
                                } else {
                                    Some(e2.1)
                                },
                            ),
                        ),
                    ),
                }
            } else if e2.0 < inp.len() {
                StepRes {
                    npos: e2.0,
                    quirk: false,
                    out: OutV::Fail(
                        ErrKindV::ExpectedCharacter { expected: seq![')'], found: Some(inp[e2.0]) },
                    ),
                }
            } else {
                StepRes {
                    npos: e2.0,
                    quirk: false,
                    out: OutV::Fail(
                        ErrKindV::ExpectedCharacter { expected: seq![')'], found: None },
                    ),
                }
            }
        } else {
            StepRes {
                npos: np1,
                quirk: false,
                out: OutV::Tok(
                    LexerTokenKind::ShellCommand,
                    Some(LitV::ShellCommand(e1.1, None)),
                ),
            }
        }
    }
}

pub proof fn lemma_shell_spec_bounds(inp: Seq<char>, pos: int)
    requires
        0 <= pos <= inp.len(),
    ensures
        pos <= shell_spec(inp, pos).npos <= inp.len(),
{
    lemma_eat_spec_bounds(inp, pos, seq![' ', '\t', '\n', '('], false);
    let np1 = eat_spec(inp, pos, seq![' ', '\t', '\n', '('], false).0;
    if np1 < inp.len() {
        lemma_eat_spec_bounds(inp, np1 + 1, seq!['\n'], false);
        lemma_eat_spec_bounds(inp, np1 + 1, seq!['\n', '\0', ')'], true);
    }
}

/// The single-line comment skip: everything up to the next newline and
/// the newline itself are consumed.
pub open spec fn single_comment_spec(inp: Seq<char>, pos: int) -> int {
    let np = eat_spec(inp, pos, seq!['\n'], false).0;
    if np < inp.len() {
        np + 1
    } else {
        np
    }
}

pub proof fn lemma_single_comment_spec_bounds(inp: Seq<char>, pos: int)
    requires
        0 <= pos <= inp.len(),
    ensures
        pos <= single_comment_spec(inp, pos) <= inp.len(),
{
    lemma_eat_spec_bounds(inp, pos, seq!['\n'], false);
}

/// The multi-line comment skip: skip to the next star; input exhausted
/// first is the expected-star failure; a star followed by a slash closes
/// the comment; a lone star is skipped past and the search repeats.
pub open spec fn multi_comment_spec(inp: Seq<char>, pos: int) -> (int, Option<ErrKindV>)
    decreases inp.len() - pos,
        when 0 <= pos <= inp.len()
        via multi_comment_spec_dec
{
    let np = eat_spec(inp, pos, seq!['*'], false).0;
    if np >= inp.len() {
        (np, Some(ErrKindV::ExpectedCharacter { expected: seq!['*'], found: None }))
    } else if np + 1 < inp.len() && inp[np + 1] == '/' {
        (np + 2, None)
    } else {
        multi_comment_spec(inp, np + 1)
    }
}

#[via_fn]
proof fn multi_comment_spec_dec(inp: Seq<char>, pos: int) {
    lemma_eat_spec_bounds(inp, pos, seq!['*'], false);
}

pub proof fn lemma_multi_comment_spec_bounds(inp: Seq<char>, pos: int)
    requires
        0 <= pos <= inp.len(),
    ensures
        pos <= multi_comment_spec(inp, pos).0 <= inp.len(),
    decreases inp.len() - pos,
{
    lemma_eat_spec_bounds(inp, pos, seq!['*'], false);
    let np = eat_spec(inp, pos, seq!['*'], false).0;
    if np >= inp.len() {
    } else if np + 1 < inp.len() && inp[np + 1] == '/' {
    } else {
        lemma_multi_comment_spec_bounds(inp, np + 1);
    }
}


// ---------------------------------------------------------------------
// Words and keywords
// ---------------------------------------------------------------------
/// The fixed keyword table: the kind a whole word selects, or none.
pub open spec fn keyword_of(w: Seq<char>) -> Option<LexerTokenKind> {
    if w == seq!['v', 'a', 'r'] {
        Some(LexerTokenKind::Var)
    } else if w == seq!['f', 'n'] {
        Some(LexerTokenKind::Function)
    } else if w == seq!['f', 'o', 'r'] {
        Some(LexerTokenKind::For)
    } else if w == seq!['w', 'h', 'i', 'l', 'e'] {
        Some(LexerTokenKind::While)
    } else if w == seq!['l', 'o', 'o', 'p'] {
        Some(LexerTokenKind::Loop)
    } else if w == seq!['i', 'f'] {
        Some(LexerTokenKind::If)
    } else if w == seq!['e', 'l', 's', 'e'] {
        Some(LexerTokenKind::Else)
    } else if w == seq!['m', 'a', 't', 'c', 'h'] {
        Some(LexerTokenKind::Match)
    } else if w == seq!['b', 'r', 'e', 'a', 'k'] {
        Some(LexerTokenKind::Break)
    } else if w == seq!['c', 'o', 'n', 't', 'i', 'n', 'u', 'e'] {
        Some(LexerTokenKind::Continue)
    } else if w == seq!['r', 'e', 't', 'u', 'r', 'n'] {
        Some(LexerTokenKind::Return)
    } else if w == seq!['i', 'n'] {
        Some(LexerTokenKind::In)
    } else if w == seq!['i', 's'] {
        Some(LexerTokenKind::Is)
    } else if w == seq!['@', 'i', 'n', 'c', 'l', 'u', 'd', 'e'] {
        Some(LexerTokenKind::Include)
    } else if w == seq!['@', 'c', 'o', 'n', 's', 't'] {
        Some(LexerTokenKind::Const)
    } else if w == seq!['n', 'o', 't'] {
        Some(LexerTokenKind::Not)
    } else if w == seq!['a', 'n', 'd'] {
        Some(LexerTokenKind::And)
    } else if w == seq!['o', 'r'] {
        Some(LexerTokenKind::Or)
    } else {
        None
    }
}

/// The word-accumulation step: the classification character plus the
/// following identifier characters, matched against the keyword table;
/// `true` and `false` become boolean literals; any other word whose
/// first character passes the identifier predicate is an identifier;
/// anything else is the unknown-token failure.
pub open spec fn word_fallback_spec(inp: Seq<char>, pos: int, ch: char) -> StepRes {
    let wr = word_spec(inp, pos);
    let word = seq![ch] + wr.1;
    match keyword_of(word) {
        Some(k) => StepRes { npos: wr.0, quirk: false, out: OutV::Tok(k, None) },
        None => {
            if word == seq!['t', 'r', 'u', 'e'] {
                StepRes {
                    npos: wr.0,
                    quirk: false,
                    out: OutV::Tok(LexerTokenKind::Boolean, Some(LitV::Boolean(true))),
                }
            } else if word == seq!['f', 'a', 'l', 's', 'e'] {
                StepRes {
                    npos: wr.0,
                    quirk: false,
                    out: OutV::Tok(LexerTokenKind::Boolean, Some(LitV::Boolean(false))),
                }
            } else if is_ident_char(ch) {
                StepRes {
                    npos: wr.0,
                    quirk: false,
                    out: OutV::Tok(LexerTokenKind::Identifier, Some(LitV::Identifier(word))),
                }
            } else {
                StepRes { npos: wr.0, quirk: false, out: OutV::Fail(ErrKindV::UnknownToken) }
            }
        },
    }
}

/// A single-character operator that folds a trailing `second` into its
/// two-character variant.
pub open spec fn pair_spec(
    inp: Seq<char>,
    pos: int,
    second: char,
    double_kind: LexerTokenKind,
    single_kind: LexerTokenKind,
) -> StepRes {
    if pos < inp.len() && inp[pos] == second {
        StepRes { npos: pos + 1, quirk: false, out: OutV::Tok(double_kind, None) }
    } else {
        StepRes { npos: pos, quirk: false, out: OutV::Tok(single_kind, None) }
    }
}

/// The character-classification step. `ch` is the already consumed
/// character and `pos` the offset just after it; the lookahead folds a
/// second character in where grammars overlap, exactly as each branch
/// spells out.
pub open spec fn dispatch_spec(inp: Seq<char>, pos: int, ch: char, max: int) -> StepRes {
    if ch == ' ' {
        StepRes { npos: pos, quirk: false, out: OutV::Skip }
    } else if ch == '\n' {
        StepRes { npos: pos, quirk: false, out: OutV::Tok(LexerTokenKind::EOL, None) }
    } else if ch == '=' {
        if pos < inp.len() && inp[pos] == '=' {
            StepRes { npos: pos + 1, quirk: false, out: OutV::Tok(LexerTokenKind::EqualEqual, None) }
        } else if pos < inp.len() && inp[pos] == '>' {
            StepRes { npos: pos + 1, quirk: false, out: OutV::Tok(LexerTokenKind::Arrow, None) }
        } else {
            StepRes { npos: pos, quirk: false, out: OutV::Tok(LexerTokenKind::Equal, None) }
        }
    } else if ch == '+' {
        pair_spec(inp, pos, '=', LexerTokenKind::PlusEqual, LexerTokenKind::Plus)
    } else if ch == '-' {
        if pos < inp.len() && inp[pos] == '=' {
            StepRes { npos: pos + 1, quirk: false, out: OutV::Tok(LexerTokenKind::MinusEqual, None) }
        } else if pos < inp.len() && '0' as int <= inp[pos] as int && inp[pos] as int <= '9' as int {
            let n = num_spec(inp, pos + 1, inp[pos], max);
            match n.out {
                Ok(v) => StepRes {
                    npos: n.npos,
                    quirk: false,
                    out: OutV::Tok(LexerTokenKind::Integer, Some(LitV::Integer(-v))),
                },
                Err(e) => StepRes { npos: n.npos, quirk: false, out: OutV::Fail(e) },
            }
        } else {
            StepRes { npos: pos, quirk: false, out: OutV::Tok(LexerTokenKind::Minus, None) }
        }
    } else if ch == '*' {
        pair_spec(inp, pos, '=', LexerTokenKind::MultiplyEqual, LexerTokenKind::Multiply)
    } else if ch == '/' {
        if pos < inp.len() && inp[pos] == '/' {
            StepRes { npos: single_comment_spec(inp, pos), quirk: false, out: OutV::Skip }
        } else if pos < inp.len() && inp[pos] == '*' {
            let m = multi_comment_spec(inp, pos);
            match m.1 {
                None => StepRes { npos: m.0, quirk: false, out: OutV::Skip },
                Some(e) => StepRes { npos: m.0, quirk: false, out: OutV::Fail(e) },
            }
        } else if pos < inp.len() && inp[pos] == '=' {
            StepRes { npos: pos + 1, quirk: false, out: OutV::Tok(LexerTokenKind::DivideEqual, None) }
        } else {
            StepRes { npos: pos, quirk: false, out: OutV::Tok(LexerTokenKind::Divide, None) }
        }
    } else if ch == '!' {
        pair_spec(inp, pos, '=', LexerTokenKind::NotEqual, LexerTokenKind::Not)
    } else if ch == '<' {
        pair_spec(inp, pos, '=', LexerTokenKind::LesserEqualThan, LexerTokenKind::LesserThan)
    } else if ch == '>' {
        pair_spec(inp, pos, '=', LexerTokenKind::GreaterEqualThan, LexerTokenKind::GreaterThan)
    } else if ch == '&' && pos < inp.len() && inp[pos] == '&' {
        StepRes { npos: pos + 1, quirk: false, out: OutV::Tok(LexerTokenKind::And, None) }
    } else if ch == '|' && pos < inp.len() && inp[pos] == '|' {
        StepRes { npos: pos + 1, quirk: false, out: OutV::Tok(LexerTokenKind::Or, None) }
    } else if ch == '(' {
        StepRes { npos: pos, quirk: false, out: OutV::Tok(LexerTokenKind::LParen, None) }
    } else if ch == ')' {
        StepRes { npos: pos, quirk: false, out: OutV::Tok(LexerTokenKind::RParen, None) }
    } else if ch == '{' {
        StepRes { npos: pos, quirk: false, out: OutV::Tok(LexerTokenKind::LBracket, None) }
    } else if ch == '}' {
        StepRes { npos: pos, quirk: false, out: OutV::Tok(LexerTokenKind::RBracket, None) }
    } else if ch == ',' {
        StepRes { npos: pos, quirk: false, out: OutV::Tok(LexerTokenKind::Comma, None) }
    } else if ch == ':' {
        StepRes { npos: pos, quirk: false, out: OutV::Tok(LexerTokenKind::Colon, None) }
    } else if ch == '.' && pos < inp.len() && inp[pos] == '.' {
        if pos + 1 < inp.len() && inp[pos + 1] == '=' {
            StepRes {
                npos: pos + 2,
                quirk: false,
                out: OutV::Tok(LexerTokenKind::RangeInclusive, None),
            }
        } else {
            StepRes { npos: pos + 1, quirk: false, out: OutV::Tok(LexerTokenKind::Range, None) }
        }
    } else if '0' as int <= ch as int && ch as int <= '9' as int {
        let n = num_spec(inp, pos, ch, max);
        match n.out {
            Ok(v) => StepRes {
                npos: n.npos,
                quirk: false,
                out: OutV::Tok(LexerTokenKind::Integer, Some(LitV::Integer(v))),
            },
            Err(e) => StepRes { npos: n.npos, quirk: false, out: OutV::Fail(e) },
        }
    } else if ch == '"' {
        string_spec(inp, pos)
    } else if ch == '$' {
        shell_spec(inp, pos)
    } else {
        word_fallback_spec(inp, pos, ch)
    }
}

pub proof fn lemma_dispatch_spec_bounds(inp: Seq<char>, pos: int, ch: char, max: int)
    requires
        0 <= pos <= inp.len(),
    ensures
        pos <= dispatch_spec(inp, pos, ch, max).npos <= inp.len(),
        dispatch_spec(inp, pos, ch, max).quirk ==> dispatch_spec(inp, pos, ch, max).npos
            < inp.len(),
{
    lemma_single_comment_spec_bounds(inp, pos);
    lemma_multi_comment_spec_bounds(inp, pos);
    lemma_string_spec_bounds(inp, pos);
    lemma_shell_spec_bounds(inp, pos);
    lemma_word_spec_bounds(inp, pos);
    lemma_num_spec_bounds(inp, pos, ch, max);
    if pos < inp.len() {
        lemma_num_spec_bounds(inp, pos + 1, inp[pos], max);
    }
}

// ---------------------------------------------------------------------
// Digit-string values
// ---------------------------------------------------------------------
/// How many decimal digits the non-negative part of `n` has; values
/// under 10 (negatives included) count as one digit.
pub open spec fn dec_digit_count(n: int) -> int
    decreases n,
{
    if n < 10 {
        1
    } else {
        1 + dec_digit_count(n / 10)
    }
}

pub proof fn lemma_dec_digit_count_pos(n: int)
    ensures
        dec_digit_count(n) >= 1,
    decreases n,
{
    if n >= 10 {
        lemma_dec_digit_count_pos(n / 10);
    }
}

pub proof fn lemma_dec_digit_count_mono(a: int, b: int)
    requires
        0 <= a <= b,
    ensures
        dec_digit_count(a) <= dec_digit_count(b),
    decreases b,
{
    lemma_dec_digit_count_pos(b);
    if a >= 10 {
        lemma_dec_digit_count_mono(a / 10, b / 10);
    }
}

/// The value of a valid digit string is never negative.
pub proof fn lemma_digits_value_nonneg(s: Seq<char>, radix: int)
    requires
        radix >= 2,
        forall|j: int| 0 <= j < s.len() ==> is_digit_in(s[j], radix),
    ensures
        digits_value(s, radix) >= 0,
    decreases s.len(),
{
    if s.len() > 0 {
        lemma_digits_value_nonneg(s.drop_last(), radix);
        assert(digits_value(s.drop_last(), radix) * radix >= 0) by (nonlinear_arith)
            requires
                digits_value(s.drop_last(), radix) >= 0,
                radix >= 2,
        ;
    }
}

/// Appending digits never lowers the value of a valid digit string.
pub proof fn lemma_digits_value_prefix_le(s: Seq<char>, i: int, radix: int)
    requires
        radix >= 2,
        0 <= i <= s.len(),
        forall|j: int| 0 <= j < s.len() ==> is_digit_in(s[j], radix),
    ensures
        digits_value(s.subrange(0, i), radix) <= digits_value(s, radix),
    decreases s.len() - i,
{
    if i < s.len() {
        lemma_digits_value_prefix_le(s, i + 1, radix);
        let p = s.subrange(0, i);
        let q = s.subrange(0, i + 1);
        assert(q.drop_last() =~= p);
        assert(forall|j: int| 0 <= j < p.len() ==> is_digit_in(p[j], radix));
        lemma_digits_value_nonneg(p, radix);
        assert(digits_value(p, radix) * radix >= digits_value(p, radix)) by (nonlinear_arith)
            requires
                digits_value(p, radix) >= 0,
                radix >= 2,
        ;
        assert(digits_value(q, radix) >= digits_value(p, radix));
    } else {
        assert(s.subrange(0, i) =~= s);
    }
}

// ---------------------------------------------------------------------
// The whole scan
// ---------------------------------------------------------------------
/// Everything a scan of the remaining input produces: the tokens, the
/// errors (each with its span and its slice of the text), and the
/// cursor position after the last character.
pub ghost struct ScanOut {
    pub toks: Seq<TokV>,
    pub errs: Seq<ErrV>,
    pub endcur: CurV,
}

/// The drive loop, mathematically: while a character remains, snapshot
/// the cursor, consume the character, dispatch it, and record the
/// token or the error spanning from the snapshot to the cursor after
/// the step — an error's slice is the consumed text and its end span
/// honours the extra cursor bump of an unterminated string. Elided
/// text (whitespace, comments) records nothing. The end-of-file token
/// is the caller's to append.
pub open spec fn run_spec(inp: Seq<char>, pos: int, cur: CurV, max: int) -> ScanOut
    decreases inp.len() - pos,
        when 0 <= pos <= inp.len()
        via run_spec_dec
{
    if pos >= inp.len() {
        ScanOut { toks: Seq::empty(), errs: Seq::empty(), endcur: cur }
    } else {
        let ch = inp[pos];
        let cur1 = cur_adv(cur, ch);
        let st = dispatch_spec(inp, pos + 1, ch, max);
        let endc = cur_adv_seq(cur1, inp.subrange(pos + 1, st.npos));
        let endc2 = if st.quirk {
            cur_adv(endc, inp[st.npos])
        } else {
            endc
        };
        let rest = run_spec(inp, st.npos, endc2, max);
        match st.out {
            OutV::Tok(k, v) => ScanOut {
                toks: seq![TokV { kind: k, start: cur, end: endc2, value: v }] + rest.toks,
                errs: rest.errs,
                endcur: rest.endcur,
            },
            OutV::Skip => rest,
            OutV::Fail(e) => ScanOut {
                toks: rest.toks,
                errs: seq![
                    ErrV {
                        slice: inp.subrange(pos, st.npos),
                        start: cur,
                        end: endc2,
                        kind: e,
                    },
                ] + rest.errs,
                endcur: rest.endcur,
            },
        }
    }
}

#[via_fn]
proof fn run_spec_dec(inp: Seq<char>, pos: int, cur: CurV, max: int) {
    if pos < inp.len() {
        lemma_dispatch_spec_bounds(inp, pos + 1, inp[pos], max);
    }
}

/// No dispatch step ever yields the end-of-file kind: that token is
/// appended once, by the drive loop itself.
pub proof fn lemma_dispatch_spec_no_eof(inp: Seq<char>, pos: int, ch: char, max: int)
    ensures
        match dispatch_spec(inp, pos, ch, max).out {
            OutV::Tok(k, v) => k != LexerTokenKind::EOF,
            _ => true,
        },
{
}

/// Hence the whole scan emits no end-of-file token.
pub proof fn lemma_run_spec_no_eof(inp: Seq<char>, pos: int, cur: CurV, max: int)
    requires
        0 <= pos <= inp.len(),
    ensures
        forall|i: int|
            0 <= i < run_spec(inp, pos, cur, max).toks.len() ==> (#[trigger] run_spec(
                inp,
                pos,
                cur,
                max,
            ).toks[i]).kind != LexerTokenKind::EOF,
    decreases inp.len() - pos,
{
    if pos < inp.len() {
        let ch = inp[pos];
        let st = dispatch_spec(inp, pos + 1, ch, max);
        lemma_dispatch_spec_bounds(inp, pos + 1, ch, max);
        lemma_dispatch_spec_no_eof(inp, pos + 1, ch, max);
        let cur1 = cur_adv(cur, ch);
        let endc = cur_adv_seq(cur1, inp.subrange(pos + 1, st.npos));
        let endc2 = if st.quirk {
            cur_adv(endc, inp[st.npos])
        } else {
            endc
        };
        lemma_run_spec_no_eof(inp, st.npos, endc2, max);
    }
}

/// The canonical character of a single digit: decimal digits, then
/// lowercase letters.
pub open spec fn digit_char(d: int) -> char {
    if d == 0 {
        '0'
    } else if d == 1 {
        '1'
    } else if d == 2 {
        '2'
    } else if d == 3 {
        '3'
    } else if d == 4 {
        '4'
    } else if d == 5 {
        '5'
    } else if d == 6 {
        '6'
    } else if d == 7 {
        '7'
    } else if d == 8 {
        '8'
    } else if d == 9 {
        '9'
    } else if d == 10 {
        'a'
    } else if d == 11 {
        'b'
    } else if d == 12 {
        'c'
    } else if d == 13 {
        'd'
    } else if d == 14 {
        'e'
    } else if d == 15 {
        'f'
    } else {
        '0'
    }
}

/// The value `n` written in `radix`, most significant digit first,
/// without leading zeros.
pub open spec fn value_digits(n: int, radix: int) -> Seq<char>
    decreases n,
        when n >= 0 && radix >= 2
        via value_digits_dec
{
    if n < radix {
        seq![digit_char(n)]
    } else {
        value_digits(n / radix, radix).push(digit_char(n % radix))
    }
}

#[via_fn]
proof fn value_digits_dec(n: int, radix: int) {
    if n >= radix {
        assert(0 <= n / radix < n) by (nonlinear_arith)
            requires
                n >= radix >= 2,
        ;
    }
}

/// A valid digit string whose leading digit is not zero reads as a
/// positive value.
pub proof fn lemma_digits_value_pos(s: Seq<char>, radix: int)
    requires
        radix >= 2,
        s.len() >= 1,
        forall|j: int| 0 <= j < s.len() ==> is_digit_in(s[j], radix),
        digit_val(s[0]) >= 1,
    ensures
        digits_value(s, radix) >= 1,
    decreases s.len(),
{
    assert(is_digit_in(s[s.len() - 1], radix));
    if s.len() == 1 {
        assert(s.drop_last().len() == 0);
        assert(digits_value(s.drop_last(), radix) == 0);
        assert(s.last() == s[0]);
    } else {
        let sp = s.drop_last();
        assert(forall|j: int| 0 <= j < sp.len() ==> sp[j] == s[j]);
        lemma_digits_value_pos(sp, radix);
        assert(digits_value(sp, radix) * radix >= radix) by (nonlinear_arith)
            requires
                digits_value(sp, radix) >= 1,
                radix >= 2,
        ;
        assert(digit_val(s.last()) >= 0);
    }
}

/// The round trip of numeric literals: a well-formed digit string with
/// no leading zero and in canonical case (decimal digits and lowercase
/// letter digits) is reproduced exactly by writing its value back in
/// the same radix. Leading zeros are erased by reading, and an
/// uppercase letter digit is rewritten in lowercase, so those inputs
/// stand outside this statement.
pub proof fn lemma_digits_round_trip(ds: Seq<char>, radix: int)
    requires
        2 <= radix <= 16,
        ds.len() >= 1,
        forall|j: int| 0 <= j < ds.len() ==> is_digit_in(#[trigger] ds[j], radix),
        forall|j: int| 0 <= j < ds.len() ==> #[trigger] ds[j] == digit_char(digit_val(ds[j])),
        digit_val(ds[0]) >= 1,
    ensures
        value_digits(digits_value(ds, radix), radix) == ds,
    decreases ds.len(),
{
    let v = digits_value(ds, radix);
    lemma_digits_value_nonneg(ds, radix);
    assert(is_digit_in(ds[ds.len() - 1], radix));
    if ds.len() == 1 {
        assert(ds.drop_last().len() == 0);
        assert(digits_value(ds.drop_last(), radix) == 0);
        assert(ds.last() == ds[0]);
        assert(v == digit_val(ds[0]));
        assert(value_digits(v, radix) =~= seq![digit_char(v)]);
        assert(seq![digit_char(v)] =~= ds);
    } else {
        let dsp = ds.drop_last();
        let d = digit_val(ds.last());
        let vp = digits_value(dsp, radix);
        assert(forall|j: int| 0 <= j < dsp.len() ==> dsp[j] == ds[j]);
        lemma_digits_value_nonneg(dsp, radix);
        lemma_digits_value_pos(dsp, radix);
        assert(v == vp * radix + d);
        assert(vp * radix >= radix) by (nonlinear_arith)
            requires
                vp >= 1,
                radix >= 2,
        ;
        assert(v >= radix);
        vstd::arithmetic::div_mod::lemma_fundamental_div_mod_converse(v, radix, vp, d);
        lemma_digits_round_trip(dsp, radix);
        assert(value_digits(v, radix) =~= dsp.push(digit_char(d)));
        assert(dsp.push(digit_char(d)) =~= ds);
    }
}

} // verus!
