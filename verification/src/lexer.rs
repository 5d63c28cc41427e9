use vstd::prelude::*;

use crate::classify::{
    char_is_alphanumeric, char_is_whitespace, digit_in, digits_value, is_digit_in,
    unicode_whitespace,
};
use crate::cursor::{
    cur_adv, cur_adv_seq, cur_start, lemma_cur_adv_one, lemma_cur_adv_seq_snoc,
    lemma_cursor_compose, CurV, Cursor,
};
use crate::component::{skip_count, ComponentErrors, ComponentIter};
use crate::errors::{ErrKindV, ErrV, LexerError, LexerErrorKind, LexerResult};
use crate::scan::{
    collect_digits, dec_digit_count, dispatch_spec, eat_spec, esc_map, expected_digits,
    is_ascii_alpha, keyword_of, lemma_dec_digit_count_mono, lemma_dec_digit_count_pos,
    lemma_digits_value_nonneg, lemma_digits_value_prefix_le, lemma_dispatch_spec_bounds,
    lemma_eat_skip_count, lemma_eat_spec_bounds, lemma_eat_spec_stop, lemma_num_spec_bounds,
    lemma_run_spec_no_eof, lemma_ws_prefix_char, lemma_ws_prefix_ge, lemma_ws_suffix_char,
    lemma_ws_suffix_ge, multi_comment_spec, num_finish, num_spec, pair_spec, run_spec, shell_spec,
    single_comment_spec, string_spec, trim_spec, word_fallback_spec, word_spec, ws_prefix,
    ws_suffix, OutV, StepRes,
};
use crate::source::SourceFile;
use crate::tokens::{
    opt_lit_view, LexerLiteral, LexerToken, LexerTokenKind, LexerTokenList, LitV, TokV,
};

verus! {

/// The scanner. It owns the trimmed character stream, the live cursor,
/// and the accumulated tokens and errors; the scan runs at most once.
pub struct Lexer {
    pub chars: Vec<char>,
    pub pos: usize,
    pub errors: Vec<LexerError>,
    pub cursor: Cursor,
    pub tokens: LexerTokenList,
    pub max_int_len: u8,
    pub source_file: SourceFile,
}

impl Lexer {
    /// Internal well-formedness, with `slack` spare room in the cursor
    /// bound: the position stays inside the stream, the stream is small
    /// enough that no cursor coordinate can reach the machine limit,
    /// and the cursor coordinates are bounded by the consumed count
    /// plus one extra step per recorded error (see the string scan).
    pub open spec fn wf_c(self, slack: int) -> bool {
        &&& self.pos <= self.chars@.len()
        &&& self.chars@.len() < usize::MAX / 2
        &&& self.errors@.len() <= self.pos
        &&& 1 <= self.cursor@.line
        &&& 1 <= self.cursor@.col
        &&& self.cursor@.line + self.cursor@.col <= 2 + self.pos + self.errors@.len() + slack
    }

    /// Internal well-formedness.
    pub open spec fn wf(self) -> bool {
        self.wf_c(0)
    }

    /// The characters not yet consumed.
    pub open spec fn rest(self) -> Seq<char> {
        self.chars@.skip(self.pos as int)
    }

    /// The stream, configuration and source are those of `a`.
    pub open spec fn same_core(self, a: Lexer) -> bool {
        &&& self.chars == a.chars
        &&& self.max_int_len == a.max_int_len
        &&& self.source_file == a.source_file
    }

    /// The recorded output is that of `a`.
    pub open spec fn same_out(self, a: Lexer) -> bool {
        &&& self.tokens == a.tokens
        &&& self.errors == a.errors
    }

    /// The next unconsumed character, if any, without advancing.
    pub fn peek_next(&self) -> (r: Option<char>)
        ensures
            r == (if self.pos < self.chars@.len() {
                Some(self.chars@[self.pos as int])
            } else {
                Option::<char>::None
            }),
    {
        if self.pos < self.chars.len() {
            Some(self.chars[self.pos])
        } else {
            None
        }
    }

    /// Run the cursor past `ch` without consuming anything.
    pub fn bump_cursor(&mut self, ch: char)
        requires
            old(self).cursor@.line < usize::MAX,
            old(self).cursor@.col < usize::MAX,
        ensures
            final(self).cursor@ == cur_adv(old(self).cursor@, ch),
            final(self).pos == old(self).pos,
            final(self).same_core(*old(self)),
            final(self).same_out(*old(self)),
    {
        if ch == '\n' {
            self.cursor.next_line();
        } else {
            self.cursor.next_col();
        }
    }

    /// Consume one character, running the cursor past it.
    pub fn advance(&mut self) -> (r: Option<char>)
        requires
            old(self).wf(),
        ensures
            final(self).wf(),
            final(self).same_core(*old(self)),
            final(self).same_out(*old(self)),
            old(self).pos == old(self).chars@.len() ==> r is None && *final(self) == *old(self),
            old(self).pos < old(self).chars@.len() ==> {
                &&& r == Some(old(self).chars@[old(self).pos as int])
                &&& final(self).pos == old(self).pos + 1
                &&& final(self).cursor@ == cur_adv(
                    old(self).cursor@,
                    old(self).chars@[old(self).pos as int],
                )
            },
    {
        if self.pos < self.chars.len() {
            let ch = self.chars[self.pos];
            self.bump_cursor(ch);
            self.pos = self.pos + 1;
            Some(ch)
        } else {
            None
        }
    }

    /// Consume the next character only when it equals `expected`.
    pub fn advance_if_eq(&mut self, expected: char) -> (r: bool)
        requires
            old(self).wf(),
        ensures
            final(self).wf(),
            final(self).same_core(*old(self)),
            final(self).same_out(*old(self)),
            r == (old(self).pos < old(self).chars@.len() && old(self).chars@[old(self).pos as int]
                == expected),
            r ==> final(self).pos == old(self).pos + 1 && final(self).cursor@ == cur_adv(
                old(self).cursor@,
                expected,
            ),
            !r ==> *final(self) == *old(self),
    {
        if self.pos < self.chars.len() && self.chars[self.pos] == expected {
            self.advance();
            true
        } else {
            false
        }
    }

    /// Consume and return the next character when it equals `expected`;
    /// otherwise return the offending character (or none at the end of
    /// the input) without consuming anything.
    pub fn expect_ch(&mut self, expected: char) -> (r: Result<char, Option<char>>)
        requires
            old(self).wf(),
        ensures
            final(self).wf(),
            final(self).same_core(*old(self)),
            final(self).same_out(*old(self)),
            old(self).pos == old(self).chars@.len() ==> r == Result::<char, Option<char>>::Err(
                Option::<char>::None,
            ) && *final(self) == *old(self),
            old(self).pos < old(self).chars@.len() && old(self).chars@[old(self).pos as int]
                == expected ==> r == Result::<char, Option<char>>::Ok(expected) && final(self).pos
                == old(self).pos + 1 && final(self).cursor@ == cur_adv(old(self).cursor@, expected),
            old(self).pos < old(self).chars@.len() && old(self).chars@[old(self).pos as int]
                != expected ==> r == Result::<char, Option<char>>::Err(
                Some(old(self).chars@[old(self).pos as int]),
            ) && *final(self) == *old(self),
    {
        if self.pos < self.chars.len() {
            let c = self.chars[self.pos];
            if c == expected {
                self.advance();
                Ok(c)
            } else {
                Err(Some(c))
            }
        } else {
            Err(None)
        }
    }

    /// Consume characters until one of `term` is next (left unconsumed)
    /// or the input ends; nothing is collected.
    pub fn skip_to_any(&mut self, term: &[char])
        requires
            old(self).wf(),
        ensures
            final(self).wf(),
            final(self).same_core(*old(self)),
            final(self).same_out(*old(self)),
            final(self).pos as int == eat_spec(
                old(self).chars@,
                old(self).pos as int,
                term@,
                false,
            ).0,
            final(self).cursor@ == cur_adv_seq(
                old(self).cursor@,
                old(self).chars@.subrange(old(self).pos as int, final(self).pos as int),
            ),
    {
        let ghost l0 = *self;
        let ghost inp = self.chars@;
        let ghost pos0 = self.pos as int;
        loop
            invariant
                self.wf(),
                self.same_core(l0),
                self.same_out(l0),
                inp == self.chars@,
                l0.wf(),
                l0.chars@ == inp,
                l0.pos as int == pos0,
                0 <= pos0 <= self.pos as int <= inp.len(),
                eat_spec(inp, pos0, term@, false).0 == eat_spec(inp, self.pos as int, term@, false).0,
                self.cursor@ == cur_adv_seq(l0.cursor@, inp.subrange(pos0, self.pos as int)),
            ensures
                self.wf(),
                self.same_core(l0),
                self.same_out(l0),
                self.pos as int == eat_spec(inp, pos0, term@, false).0,
                self.cursor@ == cur_adv_seq(l0.cursor@, inp.subrange(pos0, self.pos as int)),
            decreases inp.len() - self.pos as int,
        {
            let c_opt = self.peek_next();
            match c_opt {
                None => {
                    break ;
                },
                Some(c) => {
                    if contains_char(term, c) {
                        break ;
                    }
                    let ghost p = self.pos as int;
                    self.advance();
                    proof {
                        assert(inp.subrange(pos0, p + 1) =~= inp.subrange(pos0, p).push(inp[p]));
                        lemma_cur_adv_seq_snoc(l0.cursor@, inp.subrange(pos0, p), inp[p]);
                    }
                },
            }
        }
    }

    /// Consume characters until one of `term` is next (left unconsumed)
    /// or the input ends, honouring backslash escapes when `escapeable`
    /// is set, and return the collected characters — or nothing when
    /// none were collected.
    pub fn eat_until(&mut self, term: &[char], escapeable: bool) -> (r: Option<Vec<char>>)
        requires
            old(self).wf(),
        ensures
            final(self).wf(),
            final(self).same_core(*old(self)),
            final(self).same_out(*old(self)),
            ({
                let e = eat_spec(old(self).chars@, old(self).pos as int, term@, escapeable);
                &&& final(self).pos as int == e.0
                &&& match r {
                    Some(v) => v@ == e.1 && e.1.len() > 0,
                    None => e.1.len() == 0,
                }
                &&& final(self).cursor@ == cur_adv_seq(
                    old(self).cursor@,
                    old(self).chars@.subrange(old(self).pos as int, final(self).pos as int),
                )
            }),
    {
        let ghost l0 = *self;
        let ghost inp = self.chars@;
        let ghost pos0 = self.pos as int;
        let mut collector: Vec<char> = Vec::new();
        loop
            invariant
                self.wf(),
                self.same_core(l0),
                self.same_out(l0),
                inp == self.chars@,
                l0.wf(),
                l0.chars@ == inp,
                l0.pos as int == pos0,
                0 <= pos0 <= self.pos as int <= inp.len(),
                eat_spec(inp, pos0, term@, escapeable).0 == eat_spec(
                    inp,
                    self.pos as int,
                    term@,
                    escapeable,
                ).0,
                eat_spec(inp, pos0, term@, escapeable).1 == collector@ + eat_spec(
                    inp,
                    self.pos as int,
                    term@,
                    escapeable,
                ).1,
                self.cursor@ == cur_adv_seq(l0.cursor@, inp.subrange(pos0, self.pos as int)),
            ensures
                self.wf(),
                self.same_core(l0),
                self.same_out(l0),
                self.pos as int == eat_spec(inp, pos0, term@, escapeable).0,
                collector@ == eat_spec(inp, pos0, term@, escapeable).1,
                self.cursor@ == cur_adv_seq(l0.cursor@, inp.subrange(pos0, self.pos as int)),
            decreases inp.len() - self.pos as int,
        {
            let c_opt = self.peek_next();
            match c_opt {
                None => {
                    proof {
                        assert(eat_spec(inp, pos0, term@, escapeable).1 =~= collector@);
                    }
                    break ;
                },
                Some(c) => {
                    if escapeable && c == '\\' {
                        let ghost p = self.pos as int;
                        self.advance();
                        proof {
                            assert(inp.subrange(pos0, p + 1) =~= inp.subrange(pos0, p).push(
                                inp[p],
                            ));
                            lemma_cur_adv_seq_snoc(l0.cursor@, inp.subrange(pos0, p), inp[p]);
                        }
                        let c2_opt = self.peek_next();
                        match c2_opt {
                            Some(c2) => {
                                let mapped = map_escape(c2);
                                collector.push(mapped);
                                self.advance();
                                proof {
                                    assert(inp.subrange(pos0, p + 2) =~= inp.subrange(
                                        pos0,
                                        p + 1,
                                    ).push(inp[p + 1]));
                                    lemma_cur_adv_seq_snoc(
                                        l0.cursor@,
                                        inp.subrange(pos0, p + 1),
                                        inp[p + 1],
                                    );
                                    assert(collector@ + eat_spec(
                                        inp,
                                        p + 2,
                                        term@,
                                        escapeable,
                                    ).1 =~= collector@.drop_last() + (seq![esc_map(inp[p + 1])]
                                        + eat_spec(inp, p + 2, term@, escapeable).1));
                                }
                            },
                            None => {},
                        }
                    } else if contains_char(term, c) {
                        proof {
                            assert(eat_spec(inp, pos0, term@, escapeable).1 =~= collector@);
                        }
                        break ;
                    } else {
                        let ghost p = self.pos as int;
                        collector.push(c);
                        self.advance();
                        proof {
                            assert(inp.subrange(pos0, p + 1) =~= inp.subrange(pos0, p).push(
                                inp[p],
                            ));
                            lemma_cur_adv_seq_snoc(l0.cursor@, inp.subrange(pos0, p), inp[p]);
                            assert(collector@ + eat_spec(inp, p + 1, term@, escapeable).1
                                =~= collector@.drop_last() + (seq![inp[p]] + eat_spec(
                                inp,
                                p + 1,
                                term@,
                                escapeable,
                            ).1));
                        }
                    }
                },
            }
        }
        if collector.len() == 0 {
            None
        } else {
            Some(collector)
        }
    }

    /// Whether a character may open or continue an identifier:
    /// underscore, or alphanumeric under the Unicode classification.
    pub fn is_valid_identifier(c: &char) -> (r: bool)
        ensures
            r == crate::classify::is_ident_char(*c),
    {
        if *c == '_' {
            true
        } else {
            char_is_alphanumeric(*c)
        }
    }

    /// Consume identifier characters until the first that is none, and
    /// return them — or nothing when none were collected.
    pub fn eat_word(&mut self) -> (r: Option<Vec<char>>)
        requires
            old(self).wf(),
        ensures
            final(self).wf(),
            final(self).same_core(*old(self)),
            final(self).same_out(*old(self)),
            ({
                let e = word_spec(old(self).chars@, old(self).pos as int);
                &&& final(self).pos as int == e.0
                &&& match r {
                    Some(v) => v@ == e.1 && e.1.len() > 0,
                    None => e.1.len() == 0,
                }
                &&& final(self).cursor@ == cur_adv_seq(
                    old(self).cursor@,
                    old(self).chars@.subrange(old(self).pos as int, final(self).pos as int),
                )
            }),
    {
        let ghost l0 = *self;
        let ghost inp = self.chars@;
        let ghost pos0 = self.pos as int;
        let mut collector: Vec<char> = Vec::new();
        loop
            invariant
                self.wf(),
                self.same_core(l0),
                self.same_out(l0),
                inp == self.chars@,
                l0.wf(),
                l0.chars@ == inp,
                l0.pos as int == pos0,
                0 <= pos0 <= self.pos as int <= inp.len(),
                word_spec(inp, pos0).0 == word_spec(inp, self.pos as int).0,
                word_spec(inp, pos0).1 == collector@ + word_spec(inp, self.pos as int).1,
                self.cursor@ == cur_adv_seq(l0.cursor@, inp.subrange(pos0, self.pos as int)),
            ensures
                self.wf(),
                self.same_core(l0),
                self.same_out(l0),
                self.pos as int == word_spec(inp, pos0).0,
                collector@ == word_spec(inp, pos0).1,
                self.cursor@ == cur_adv_seq(l0.cursor@, inp.subrange(pos0, self.pos as int)),
            decreases inp.len() - self.pos as int,
        {
            let c_opt = self.peek_next();
            match c_opt {
                None => {
                    proof {
                        assert(word_spec(inp, pos0).1 =~= collector@);
                    }
                    break ;
                },
                Some(c) => {
                    if !Self::is_valid_identifier(&c) {
                        proof {
                            assert(word_spec(inp, pos0).1 =~= collector@);
                        }
                        break ;
                    }
                    let ghost p = self.pos as int;
                    collector.push(c);
                    self.advance();
                    proof {
                        assert(inp.subrange(pos0, p + 1) =~= inp.subrange(pos0, p).push(inp[p]));
                        lemma_cur_adv_seq_snoc(l0.cursor@, inp.subrange(pos0, p), inp[p]);
                        assert(collector@ + word_spec(inp, p + 1).1 =~= collector@.drop_last() + (
                        seq![inp[p]] + word_spec(inp, p + 1).1));
                    }
                },
            }
        }
        if collector.len() == 0 {
            None
        } else {
            Some(collector)
        }
    }

    /// Append a token spanning from the saved `start` snapshot to the
    /// current cursor.
    pub fn add_token(&mut self, token_type: LexerTokenKind, value: Option<LexerLiteral>, start: Cursor)
        ensures
            final(self).same_core(*old(self)),
            final(self).errors == old(self).errors,
            final(self).pos == old(self).pos,
            final(self).cursor == old(self).cursor,
            old(self).wf() ==> final(self).wf(),
            final(self).tokens@.len() == old(self).tokens@.len() + 1,
            final(self).tokens@.drop_last() == old(self).tokens@,
            final(self).tokens@.last()@ == (TokV {
                kind: token_type,
                start: start@,
                end: old(self).cursor@,
                value: opt_lit_view(value),
            }),
    {
        let end = self.cursor;
        let ghost t0 = self.tokens@;
        self.tokens.push(LexerToken { kind: token_type, start, end, value });
        proof {
            assert(self.tokens@.drop_last() =~= t0);
        }
    }

    /// Record an error spanning from the saved `start` snapshot to the
    /// current cursor, carrying an owned slice of the offending text
    /// (from offset `start_pos` to the consumption point).
    pub fn add_error(&mut self, start: Cursor, start_pos: usize, err: LexerErrorKind)
        requires
            old(self).wf_c(1),
            old(self).errors@.len() < old(self).pos,
            start_pos <= old(self).pos,
        ensures
            final(self).wf(),
            final(self).same_core(*old(self)),
            final(self).tokens == old(self).tokens,
            final(self).pos == old(self).pos,
            final(self).cursor == old(self).cursor,
            final(self).errors@.len() == old(self).errors@.len() + 1,
            final(self).errors@.drop_last() == old(self).errors@,
            final(self).errors@.last()@ == (ErrV {
                slice: old(self).chars@.subrange(start_pos as int, old(self).pos as int),
                start: start@,
                end: old(self).cursor@,
                kind: err@,
            }),
    {
        let slice = copy_range(&self.chars, start_pos, self.pos);
        let ghost e0 = self.errors@;
        self.errors.push(
            LexerError {
                source_file: SourceFile { code: slice },
                start,
                end: self.cursor,
                kind: err,
            },
        );
        proof {
            assert(self.errors@.drop_last() =~= e0);
        }
    }

    /// Consume and return the next character when it equals `expected`;
    /// a wrong or missing character becomes the expected-character
    /// failure and nothing is consumed.
    pub fn expect_char(&mut self, expected: &char) -> (r: LexerResult<char>)
        requires
            old(self).wf(),
        ensures
            final(self).wf(),
            final(self).same_core(*old(self)),
            final(self).same_out(*old(self)),
            old(self).pos == old(self).chars@.len() ==> *final(self) == *old(self) && (match r {
                Err(e) => e@ == (ErrKindV::ExpectedCharacter {
                    expected: seq![*expected],
                    found: None,
                }),
                _ => false,
            }),
            old(self).pos < old(self).chars@.len() && old(self).chars@[old(self).pos as int]
                == *expected ==> r == LexerResult::<char>::Ok(*expected) && final(self).pos == old(
                self,
            ).pos + 1 && final(self).cursor@ == cur_adv(old(self).cursor@, *expected),
            old(self).pos < old(self).chars@.len() && old(self).chars@[old(self).pos as int]
                != *expected ==> *final(self) == *old(self) && (match r {
                Err(e) => e@ == (ErrKindV::ExpectedCharacter {
                    expected: seq![*expected],
                    found: Some(old(self).chars@[old(self).pos as int]),
                }),
                _ => false,
            }),
    {
        match self.expect_ch(*expected) {
            Ok(c) => Ok(c),
            Err(found) => Err(
                LexerErrorKind::ExpectedCharacter { expected: one_char_vec(*expected), found },
            ),
        }
    }

    /// Skip to the end of the line and consume the newline itself,
    /// yielding no token.
    pub fn consume_single_line_comment(&mut self) -> (r: LexerResult<()>)
        requires
            old(self).wf(),
        ensures
            final(self).wf(),
            final(self).same_core(*old(self)),
            final(self).same_out(*old(self)),
            r is Ok,
            final(self).pos as int == single_comment_spec(old(self).chars@, old(self).pos as int),
            final(self).cursor@ == cur_adv_seq(
                old(self).cursor@,
                old(self).chars@.subrange(old(self).pos as int, final(self).pos as int),
            ),
    {
        let ghost l0 = *self;
        let ghost inp = self.chars@;
        let ghost pos0 = self.pos as int;
        let term = ['\n'];
        self.skip_to_any(&term);
        let ghost p1 = self.pos as int;
        proof {
            assert(term@ =~= seq!['\n']);
            lemma_eat_spec_bounds(inp, pos0, seq!['\n'], false);
        }
        self.advance();
        proof {
            if p1 < inp.len() {
                assert(inp.subrange(pos0, p1 + 1) =~= inp.subrange(pos0, p1).push(inp[p1]));
                lemma_cur_adv_seq_snoc(l0.cursor@, inp.subrange(pos0, p1), inp[p1]);
            }
        }
        Ok(())
    }

    /// Skip to the closing star-slash of a multi-line comment, retrying
    /// past lone stars, yielding no token; exhausting the input first is
    /// the expected-star failure.
    pub fn consume_multi_line_comment(&mut self) -> (r: LexerResult<()>)
        requires
            old(self).wf(),
        ensures
            final(self).wf(),
            final(self).same_core(*old(self)),
            final(self).same_out(*old(self)),
            ({
                let m = multi_comment_spec(old(self).chars@, old(self).pos as int);
                &&& final(self).pos as int == m.0
                &&& match r {
                    Ok(u) => m.1 is None,
                    Err(e) => m.1 == Some(e@),
                }
                &&& final(self).cursor@ == cur_adv_seq(
                    old(self).cursor@,
                    old(self).chars@.subrange(old(self).pos as int, final(self).pos as int),
                )
            }),
    {
        let ghost l0 = *self;
        let ghost inp = self.chars@;
        let ghost pos0 = self.pos as int;
        loop
            invariant
                l0 == *old(self),
                self.wf(),
                self.same_core(l0),
                self.same_out(l0),
                l0.wf(),
                inp == self.chars@,
                l0.pos as int == pos0,
                0 <= pos0 <= self.pos as int <= inp.len(),
                multi_comment_spec(inp, pos0) == multi_comment_spec(inp, self.pos as int),
                self.cursor@ == cur_adv_seq(l0.cursor@, inp.subrange(pos0, self.pos as int)),
            decreases inp.len() - self.pos as int,
        {
            let ghost p = self.pos as int;
            let term = ['*'];
            self.skip_to_any(&term);
            let ghost np = self.pos as int;
            proof {
                assert(term@ =~= seq!['*']);
                lemma_eat_spec_bounds(inp, p, seq!['*'], false);
                lemma_eat_spec_stop(inp, p, seq!['*'], false);
                lemma_cursor_compose(l0.cursor@, inp, pos0, p, np);
            }
            match self.expect_char(&'*') {
                Err(e) => {
                    return Err(e);
                },
                Ok(u) => {},
            }
            proof {
                assert(inp.subrange(pos0, np + 1) =~= inp.subrange(pos0, np).push(inp[np]));
                lemma_cur_adv_seq_snoc(l0.cursor@, inp.subrange(pos0, np), inp[np]);
            }
            match self.expect_ch('/') {
                Ok(u) => {
                    proof {
                        assert(inp.subrange(pos0, np + 2) =~= inp.subrange(pos0, np + 1).push(
                            inp[np + 1],
                        ));
                        lemma_cur_adv_seq_snoc(l0.cursor@, inp.subrange(pos0, np + 1), inp[np + 1]);
                    }
                    return Ok(());
                },
                Err(u) => {},
            }
        }
    }

    /// Scan a string literal from just after the opening quote: the
    /// collected characters (escapes decoded) become the token's value;
    /// a newline or the end of the input instead is the expected-quote
    /// failure, the newline case first running the error's end span
    /// past that character.
    pub fn consume_string(&mut self) -> (r: LexerResult<(LexerTokenKind, Option<LexerLiteral>)>)
        requires
            old(self).wf(),
        ensures
            final(self).same_core(*old(self)),
            final(self).same_out(*old(self)),
            ({
                let st = string_spec(old(self).chars@, old(self).pos as int);
                &&& final(self).pos as int == st.npos
                &&& final(self).wf_c(
                    if st.quirk {
                        1int
                    } else {
                        0int
                    },
                )
                &&& match r {
                    Ok(kv) => st.out == OutV::Tok(kv.0, opt_lit_view(kv.1)),
                    Err(e) => st.out == OutV::Fail(e@),
                }
                &&& final(self).cursor@ == (if st.quirk {
                    cur_adv(
                        cur_adv_seq(
                            old(self).cursor@,
                            old(self).chars@.subrange(old(self).pos as int, st.npos),
                        ),
                        old(self).chars@[st.npos],
                    )
                } else {
                    cur_adv_seq(
                        old(self).cursor@,
                        old(self).chars@.subrange(old(self).pos as int, st.npos),
                    )
                })
            }),
    {
        let ghost l0 = *self;
        let ghost inp = self.chars@;
        let ghost pos0 = self.pos as int;
        let term = ['"', '\n'];
        let collected = self.eat_until(&term, true);
        let s = match collected {
            Some(v) => v,
            None => Vec::new(),
        };
        proof {
            assert(term@ =~= seq!['"', '\n']);
            lemma_eat_spec_bounds(inp, pos0, seq!['"', '\n'], true);
            assert(s@ =~= eat_spec(inp, pos0, seq!['"', '\n'], true).1);
        }
        let ghost np = self.pos as int;
        match self.expect_ch('"') {
            Ok(u) => {
                proof {
                    assert(inp.subrange(pos0, np + 1) =~= inp.subrange(pos0, np).push(inp[np]));
                    lemma_cur_adv_seq_snoc(l0.cursor@, inp.subrange(pos0, np), inp[np]);
                }
                Ok((LexerTokenKind::String, Some(LexerLiteral::String(s))))
            },
            Err(found_opt) => match found_opt {
                Some(f) => {
                    proof {
                        assert(usize::MAX / 2 + usize::MAX / 2 < usize::MAX);
                    }
                    self.bump_cursor(f);
                    Err(
                        LexerErrorKind::ExpectedCharacter {
                            expected: one_char_vec('"'),
                            found: Some(f),
                        },
                    )
                },
                None => Err(
                    LexerErrorKind::ExpectedCharacter { expected: one_char_vec('"'), found: None },
                ),
            },
        }
    }

    /// Scan a shell-command literal from just after the dollar sign:
    /// the command name runs to the first space, tab, newline or
    /// opening parenthesis (its absence is the unexpected-end failure),
    /// then a space or tab introduces argument text to the end of the
    /// line, a parenthesis introduces escaped argument text that must
    /// close with its matching parenthesis, and anything else means no
    /// arguments.
    pub fn consume_shell_command(&mut self) -> (r: LexerResult<
        (LexerTokenKind, Option<LexerLiteral>),
    >)
        requires
            old(self).wf(),
        ensures
            final(self).wf(),
            final(self).same_core(*old(self)),
            final(self).same_out(*old(self)),
            ({
                let st = shell_spec(old(self).chars@, old(self).pos as int);
                &&& final(self).pos as int == st.npos
                &&& match r {
                    Ok(kv) => st.out == OutV::Tok(kv.0, opt_lit_view(kv.1)),
                    Err(e) => st.out == OutV::Fail(e@),
                }
                &&& final(self).cursor@ == cur_adv_seq(
                    old(self).cursor@,
                    old(self).chars@.subrange(old(self).pos as int, st.npos),
                )
            }),
    {
        let ghost l0 = *self;
        let ghost inp = self.chars@;
        let ghost pos0 = self.pos as int;
        let term_name = [' ', '\t', '\n', '('];
        let name_opt = self.eat_until(&term_name, false);
        proof {
            assert(term_name@ =~= seq![' ', '\t', '\n', '(']);
        }
        let name = match name_opt {
            Some(v) => v,
            None => {
                return Err(LexerErrorKind::UnexpectedEnd);
            },
        };
        let ghost np1 = self.pos as int;
        proof {
            lemma_eat_spec_bounds(inp, pos0, seq![' ', '\t', '\n', '('], false);
        }
        let pk = self.peek_next();
        if let Some(c) = pk {
            if c == ' ' || c == '\t' {
                self.advance();
                proof {
                    assert(inp.subrange(pos0, np1 + 1) =~= inp.subrange(pos0, np1).push(inp[np1]));
                    lemma_cur_adv_seq_snoc(l0.cursor@, inp.subrange(pos0, np1), inp[np1]);
                }
                let term_line = ['\n'];
                let args_opt = self.eat_until(&term_line, false);
                proof {
                    assert(term_line@ =~= seq!['\n']);
                    lemma_eat_spec_bounds(inp, np1 + 1, seq!['\n'], false);
                    lemma_cursor_compose(l0.cursor@, inp, pos0, np1 + 1, self.pos as int);
                }
                Ok((LexerTokenKind::ShellCommand, Some(LexerLiteral::ShellCommand(name, args_opt))))
            } else if c == '(' {
                self.advance();
                proof {
                    assert(inp.subrange(pos0, np1 + 1) =~= inp.subrange(pos0, np1).push(inp[np1]));
                    lemma_cur_adv_seq_snoc(l0.cursor@, inp.subrange(pos0, np1), inp[np1]);
                }
                let term_paren = ['\n', '\0', ')'];
                let args_opt = self.eat_until(&term_paren, true);
                let ghost np2 = self.pos as int;
                proof {
                    assert(term_paren@ =~= seq!['\n', '\0', ')']);
                    lemma_eat_spec_bounds(inp, np1 + 1, seq!['\n', '\0', ')'], true);
                    lemma_cursor_compose(l0.cursor@, inp, pos0, np1 + 1, np2);
                }
                match self.expect_char(&')') {
                    Ok(u) => {
                        proof {
                            assert(inp.subrange(pos0, np2 + 1) =~= inp.subrange(pos0, np2).push(
                                inp[np2],
                            ));
                            lemma_cur_adv_seq_snoc(l0.cursor@, inp.subrange(pos0, np2), inp[np2]);
                        }
                        Ok(
                            (
                                LexerTokenKind::ShellCommand,
                                Some(LexerLiteral::ShellCommand(name, args_opt)),
                            ),
                        )
                    },
                    Err(e) => Err(e),
                }
            } else {
                Ok((LexerTokenKind::ShellCommand, Some(LexerLiteral::ShellCommand(name, None))))
            }
        } else {
            Ok((LexerTokenKind::ShellCommand, Some(LexerLiteral::ShellCommand(name, None))))
        }
    }

    /// Scan a numeric literal whose leading character `first` is already
    /// consumed: pick the radix (a bare `1`-`9` is decimal; `0` demands
    /// a radix letter; a bare `0` is the value 0), gather digits under
    /// the configured ceiling with underscores ignored, and read their
    /// value — reporting the invalid-notation, overflow, unknown-token
    /// or expected-digit failure exactly as each case demands.
    #[verifier::rlimit(50)]
    #[verifier::spinoff_prover]
    pub fn eat_number(&mut self, first: char) -> (r: LexerResult<isize>)
        requires
            old(self).wf(),
        ensures
            final(self).wf(),
            final(self).same_core(*old(self)),
            final(self).same_out(*old(self)),
            ({
                let n = num_spec(
                    old(self).chars@,
                    old(self).pos as int,
                    first,
                    old(self).max_int_len as int,
                );
                &&& final(self).pos as int == n.npos
                &&& (match r {
                    Ok(v) => n.out == Result::<int, ErrKindV>::Ok(v as int) && v >= 0,
                    Err(e) => n.out == Result::<int, ErrKindV>::Err(e@),
                })
                &&& final(self).cursor@ == cur_adv_seq(
                    old(self).cursor@,
                    old(self).chars@.subrange(old(self).pos as int, n.npos),
                )
            }),
    {
        let ghost l0 = *self;
        let ghost inp = self.chars@;
        let ghost pos0 = self.pos as int;
        proof {
            assert(inp.subrange(pos0, pos0) =~= Seq::<char>::empty());
        }
        let max = self.max_int_len;
        let mut collector: Vec<char> = Vec::new();
        let mut count: u8 = 0;
        let mut bad_notation = false;
        let mut radix: u32 = 10;
        if first >= '1' && first <= '9' {
            collector.push(first);
            count = 1;
        } else if first == '0' {
            let pk = self.peek_next();
            let mut letter = ' ';
            let mut is_alpha = false;
            if let Some(c) = pk {
                if ascii_alpha(c) {
                    is_alpha = true;
                    letter = c;
                }
            }
            if !is_alpha {
                return Ok(0);
            }
            if letter == 'b' {
                radix = 2;
            } else if letter == 'o' {
                radix = 8;
            } else if letter == 'd' {
                radix = 10;
            } else if letter == 'x' {
                radix = 16;
            } else {
                bad_notation = true;
            }
            self.advance();
            proof {
                assert(inp.subrange(pos0, pos0 + 1) =~= seq![inp[pos0]]);
                lemma_cur_adv_one(l0.cursor@, inp[pos0]);
            }
        } else {
            return Err(
                LexerErrorKind::ExpectedCharacter {
                    expected: expected_digits_vec(),
                    found: Some(first),
                },
            );
        }
        let ghost cpos = self.pos as int;
        let ghost ccount = count as int;
        let ghost base = collector@;
        let ghost cur1 = self.cursor@;
        loop
            invariant
                self.wf(),
                self.same_core(l0),
                self.same_out(l0),
                l0.wf(),
                inp == self.chars@,
                radix == 2 || radix == 8 || radix == 10 || radix == 16,
                max == l0.max_int_len,
                0 <= cpos <= self.pos as int <= inp.len(),
                base.len() <= collector@.len(),
                collector@.subrange(0, base.len() as int) == base,
                forall|j: int|
                    0 <= j < collector@.len() ==> is_digit_in(#[trigger] collector@[j], radix as int),
                collect_digits(inp, cpos, radix as int, max as int, ccount).0 == collect_digits(
                    inp,
                    self.pos as int,
                    radix as int,
                    max as int,
                    count as int,
                ).0,
                collect_digits(inp, cpos, radix as int, max as int, ccount).1 == collector@.skip(
                    base.len() as int,
                ) + collect_digits(inp, self.pos as int, radix as int, max as int, count as int).1,
                self.cursor@ == cur_adv_seq(cur1, inp.subrange(cpos, self.pos as int)),
            ensures
                self.wf(),
                self.same_core(l0),
                self.same_out(l0),
                inp == self.chars@,
                0 <= cpos <= self.pos as int <= inp.len(),
                base.len() <= collector@.len(),
                collector@.subrange(0, base.len() as int) == base,
                forall|j: int|
                    0 <= j < collector@.len() ==> is_digit_in(#[trigger] collector@[j], radix as int),
                collect_digits(inp, cpos, radix as int, max as int, ccount).0 == self.pos as int,
                collect_digits(inp, cpos, radix as int, max as int, ccount).1 == collector@.skip(
                    base.len() as int,
                ),
                self.cursor@ == cur_adv_seq(cur1, inp.subrange(cpos, self.pos as int)),
            decreases inp.len() - self.pos as int,
        {
            if count >= max {
                proof {
                    assert(collector@.skip(base.len() as int) + collect_digits(
                        inp,
                        self.pos as int,
                        radix as int,
                        max as int,
                        count as int,
                    ).1 =~= collector@.skip(base.len() as int));
                }
                break ;
            }
            let pk = self.peek_next();
            let c = match pk {
                Some(c) => c,
                None => {
                    proof {
                        assert(collector@.skip(base.len() as int) + collect_digits(
                            inp,
                            self.pos as int,
                            radix as int,
                            max as int,
                            count as int,
                        ).1 =~= collector@.skip(base.len() as int));
                    }
                    break ;
                },
            };
            if c == '_' {
                let ghost p = self.pos as int;
                self.advance();
                proof {
                    assert(inp.subrange(cpos, p + 1) =~= inp.subrange(cpos, p).push(inp[p]));
                    lemma_cur_adv_seq_snoc(cur1, inp.subrange(cpos, p), inp[p]);
                }
                continue ;
            }
            match digit_in(c, radix) {
                Some(d) => {
                    let ghost p = self.pos as int;
                    let ghost col0 = collector@;
                    collector.push(c);
                    count = count + 1;
                    self.advance();
                    proof {
                        assert(inp.subrange(cpos, p + 1) =~= inp.subrange(cpos, p).push(inp[p]));
                        lemma_cur_adv_seq_snoc(cur1, inp.subrange(cpos, p), inp[p]);
                        assert(collector@.subrange(0, base.len() as int) =~= base);
                        assert(col0.skip(base.len() as int) + (seq![inp[p]] + collect_digits(
                            inp,
                            p + 1,
                            radix as int,
                            max as int,
                            count as int,
                        ).1) =~= collector@.skip(base.len() as int) + collect_digits(
                            inp,
                            p + 1,
                            radix as int,
                            max as int,
                            count as int,
                        ).1);
                    }
                },
                None => {
                    proof {
                        assert(collector@.skip(base.len() as int) + collect_digits(
                            inp,
                            self.pos as int,
                            radix as int,
                            max as int,
                            count as int,
                        ).1 =~= collector@.skip(base.len() as int));
                    }
                    break ;
                },
            }
        }
        proof {
            lemma_cursor_compose(l0.cursor@, inp, pos0, cpos, self.pos as int);
            assert(base + collector@.skip(base.len() as int) =~= collector@);
        }
        if bad_notation {
            return Err(LexerErrorKind::InvalidNumberNotation);
        }
        if collector.len() == 0 {
            return Err(
                LexerErrorKind::ExpectedCharacter { expected: expected_digits_vec(), found: None },
            );
        }
        let ghost digits = collector@;
        proof {
            if ccount == 1 {
                assert(seq![first] + collector@.skip(1) =~= collector@);
            }
            lemma_digits_value_nonneg(digits, radix as int);
            assert(num_spec(inp, pos0, first, l0.max_int_len as int) == num_finish(
                self.pos as int,
                digits,
                radix as int,
            ));
        }
        let mut acc: isize = 0;
        let mut i: usize = 0;
        let mut overflow = false;
        while i < collector.len()
            invariant_except_break
                digits == collector@,
                0 <= i as int <= digits.len(),
                radix == 2 || radix == 8 || radix == 10 || radix == 16,
                forall|j: int|
                    0 <= j < digits.len() ==> is_digit_in(#[trigger] digits[j], radix as int),
                acc >= 0,
                acc as int == digits_value(digits.subrange(0, i as int), radix as int),
                !overflow,
            ensures
                digits == collector@,
                overflow ==> digits_value(digits, radix as int) > isize::MAX as int,
                !overflow ==> acc >= 0 && acc as int == digits_value(
                    digits.subrange(0, digits.len() as int),
                    radix as int,
                ),
            decreases digits.len() - i,
        {
            let c = collector[i];
            let d = match digit_in(c, radix) {
                Some(d) => d,
                None => {
                    proof {
                        assert(false);
                    }
                    return Err(
                        LexerErrorKind::ExpectedCharacter {
                            expected: expected_digits_vec(),
                            found: None,
                        },
                    );
                },
            };
            let ghost pre = digits.subrange(0, i as int);
            let ghost pre1 = digits.subrange(0, i + 1 as int);
            proof {
                assert(pre1.drop_last() =~= pre);
                assert(pre1.last() == digits[i as int]);
                assert(acc as int * radix as int >= acc as int) by (nonlinear_arith)
                    requires
                        acc as int >= 0,
                        radix as int >= 2,
                ;
            }
            let m = match acc.checked_mul(radix as isize) {
                Some(m) => m,
                None => {
                    proof {
                        assert(digits_value(pre1, radix as int) > isize::MAX as int);
                        lemma_digits_value_prefix_le(digits, i + 1 as int, radix as int);
                        assert(digits.subrange(0, digits.len() as int) =~= digits);
                    }
                    overflow = true;
                    break ;
                },
            };
            let acc2 = match m.checked_add(d as isize) {
                Some(a) => a,
                None => {
                    proof {
                        assert(digits_value(pre1, radix as int) > isize::MAX as int);
                        lemma_digits_value_prefix_le(digits, i + 1 as int, radix as int);
                        assert(digits.subrange(0, digits.len() as int) =~= digits);
                    }
                    overflow = true;
                    break ;
                },
            };
            proof {
                assert(acc2 as int == digits_value(pre1, radix as int));
            }
            acc = acc2;
            i = i + 1;
            proof {
                if i as int == digits.len() {
                    assert(digits.subrange(0, digits.len() as int) =~= digits);
                }
            }
        }
        if overflow {
            return Err(LexerErrorKind::IntegerOverflow(collector));
        }
        proof {
            assert(digits.subrange(0, digits.len() as int) =~= digits);
        }
        Ok(acc)
    }

    /// Fold a trailing `second` character into the two-character
    /// operator kind, else keep the single-character kind.
    pub fn fold_double(&mut self, second: char, double_kind: LexerTokenKind, single_kind: LexerTokenKind) -> (kk:
        LexerTokenKind)
        requires
            old(self).wf(),
        ensures
            final(self).wf(),
            final(self).same_core(*old(self)),
            final(self).same_out(*old(self)),
            ({
                let st = pair_spec(
                    old(self).chars@,
                    old(self).pos as int,
                    second,
                    double_kind,
                    single_kind,
                );
                &&& final(self).pos as int == st.npos
                &&& st.out == OutV::Tok(kk, None)
                &&& final(self).cursor@ == cur_adv_seq(
                    old(self).cursor@,
                    old(self).chars@.subrange(old(self).pos as int, st.npos),
                )
            }),
    {
        let ghost l0 = *self;
        let ghost inp = self.chars@;
        let ghost pos0 = self.pos as int;
        proof {
            assert(inp.subrange(pos0, pos0) =~= Seq::<char>::empty());
        }
        if self.advance_if_eq(second) {
            proof {
                assert(inp.subrange(pos0, pos0 + 1) =~= seq![inp[pos0]]);
                lemma_cur_adv_one(l0.cursor@, inp[pos0]);
            }
            double_kind
        } else {
            single_kind
        }
    }

    /// The word-accumulation step: gather the word that starts with the
    /// already consumed `ch`, match it against the keyword table, the
    /// boolean literals and the identifier predicate, in that order.
    pub fn word_fallback(&mut self, ch: char) -> (r: LexerResult<
        Option<(LexerTokenKind, Option<LexerLiteral>)>,
    >)
        requires
            old(self).wf(),
        ensures
            final(self).wf(),
            final(self).same_core(*old(self)),
            final(self).same_out(*old(self)),
            ({
                let st = word_fallback_spec(old(self).chars@, old(self).pos as int, ch);
                &&& final(self).pos as int == st.npos
                &&& (match r {
                    Ok(opt) => (match opt {
                        Some(kv) => st.out == OutV::Tok(kv.0, opt_lit_view(kv.1)),
                        None => st.out is Skip,
                    }),
                    Err(e) => st.out == OutV::Fail(e@),
                })
                &&& final(self).cursor@ == cur_adv_seq(
                    old(self).cursor@,
                    old(self).chars@.subrange(old(self).pos as int, st.npos),
                )
            }),
    {
        let ghost inp = self.chars@;
        let ghost pos0 = self.pos as int;
        let consumed = self.eat_word();
        let mut word: Vec<char> = Vec::new();
        word.push(ch);
        match consumed {
            Some(mut v) => {
                word.append(&mut v);
            },
            None => {},
        }
        proof {
            assert(word@ =~= seq![ch] + word_spec(inp, pos0).1);
        }
        match keyword_lookup(&word) {
            Some(k) => Ok(Some((k, None))),
            None => {
                let p_true = ['t', 'r', 'u', 'e'];
                let p_false = ['f', 'a', 'l', 's', 'e'];
                proof {
                    assert(p_true@ =~= seq!['t', 'r', 'u', 'e']);
                    assert(p_false@ =~= seq!['f', 'a', 'l', 's', 'e']);
                }
                if word_matches(&word, &p_true) {
                    Ok(Some((LexerTokenKind::Boolean, Some(LexerLiteral::Boolean(true)))))
                } else if word_matches(&word, &p_false) {
                    Ok(Some((LexerTokenKind::Boolean, Some(LexerLiteral::Boolean(false)))))
                } else if Self::is_valid_identifier(&ch) {
                    Ok(Some((LexerTokenKind::Identifier, Some(LexerLiteral::Identifier(word)))))
                } else {
                    Err(LexerErrorKind::UnknownToken)
                }
            },
        }
    }

    /// Classify one consumed character, folding in lookahead where the
    /// grammars overlap, and hand back the token kind and payload it
    /// yields — or nothing for elided text, or the failure.
    #[verifier::rlimit(100)]
    #[verifier::spinoff_prover]
    pub fn scan_char(&mut self, c: &char) -> (r: LexerResult<
        Option<(LexerTokenKind, Option<LexerLiteral>)>,
    >)
        requires
            old(self).wf(),
        ensures
            final(self).same_core(*old(self)),
            final(self).same_out(*old(self)),
            ({
                let st = dispatch_spec(
                    old(self).chars@,
                    old(self).pos as int,
                    *c,
                    old(self).max_int_len as int,
                );
                &&& final(self).pos as int == st.npos
                &&& final(self).wf_c(
                    if st.quirk {
                        1int
                    } else {
                        0int
                    },
                )
                &&& (match r {
                    Ok(opt) => (match opt {
                        Some(kv) => st.out == OutV::Tok(kv.0, opt_lit_view(kv.1)),
                        None => st.out is Skip,
                    }),
                    Err(e) => st.out == OutV::Fail(e@),
                })
                &&& final(self).cursor@ == (if st.quirk {
                    cur_adv(
                        cur_adv_seq(
                            old(self).cursor@,
                            old(self).chars@.subrange(old(self).pos as int, st.npos),
                        ),
                        old(self).chars@[st.npos],
                    )
                } else {
                    cur_adv_seq(
                        old(self).cursor@,
                        old(self).chars@.subrange(old(self).pos as int, st.npos),
                    )
                })
            }),
    {
        let ghost l0 = *self;
        let ghost inp = self.chars@;
        let ghost pos0 = self.pos as int;
        proof {
            assert(inp.subrange(pos0, pos0) =~= Seq::<char>::empty());
        }
        let ch = *c;
        if ch == ' ' {
            return Ok(None);
        }
        if ch == '\n' {
            return Ok(Some((LexerTokenKind::EOL, None)));
        }
        if ch == '=' {
            if self.advance_if_eq('=') {
                proof {
                    assert(inp.subrange(pos0, pos0 + 1) =~= seq![inp[pos0]]);
                    lemma_cur_adv_one(l0.cursor@, inp[pos0]);
                }
                return Ok(Some((LexerTokenKind::EqualEqual, None)));
            }
            if self.advance_if_eq('>') {
                proof {
                    assert(inp.subrange(pos0, pos0 + 1) =~= seq![inp[pos0]]);
                    lemma_cur_adv_one(l0.cursor@, inp[pos0]);
                }
                return Ok(Some((LexerTokenKind::Arrow, None)));
            }
            return Ok(Some((LexerTokenKind::Equal, None)));
        }
        if ch == '+' {
            let k = self.fold_double('=', LexerTokenKind::PlusEqual, LexerTokenKind::Plus);
            return Ok(Some((k, None)));
        }
        if ch == '-' {
            if self.advance_if_eq('=') {
                proof {
                    assert(inp.subrange(pos0, pos0 + 1) =~= seq![inp[pos0]]);
                    lemma_cur_adv_one(l0.cursor@, inp[pos0]);
                }
                return Ok(Some((LexerTokenKind::MinusEqual, None)));
            }
            let pk = self.peek_next();
            if let Some(d0) = pk {
                if d0 >= '0' && d0 <= '9' {
                    proof {
                        assert(pos0 < inp.len() && '0' as int <= inp[pos0] as int && inp[pos0] as int <= '9' as int);
                    }
                    let c2 = match self.advance() {
                        Some(x) => x,
                        None => {
                            proof {
                                assert(false);
                            }
                            return Ok(None);
                        },
                    };
                    proof {
                        assert(inp.subrange(pos0, pos0 + 1) =~= seq![inp[pos0]]);
                        lemma_cur_adv_one(l0.cursor@, inp[pos0]);
                    }
                    let ghost l1 = *self;
                    proof {
                        assert(c2 == inp[pos0]);
                        assert(l1.pos as int == pos0 + 1);
                        assert(l1.chars@ == inp);
                        assert(l1.max_int_len == l0.max_int_len);
                    }
                    match self.eat_number(c2) {
                        Ok(v) => {
                            proof {
                                lemma_num_spec_bounds(
                                    inp,
                                    pos0 + 1,
                                    inp[pos0],
                                    l0.max_int_len as int,
                                );
                                lemma_cursor_compose(
                                    l0.cursor@,
                                    inp,
                                    pos0,
                                    pos0 + 1,
                                    self.pos as int,
                                );
                                let nn = num_spec(inp, pos0 + 1, inp[pos0], l0.max_int_len as int);
                                let stt = dispatch_spec(inp, pos0, *c, l0.max_int_len as int);
                                assert(*c == '-' && pos0 < inp.len());
                                assert('0' as int <= inp[pos0] as int && inp[pos0] as int
                                    <= '9' as int);
                                assert(inp[pos0] != '=');
                                match nn.out {
                                    Ok(v2) => {
                                        assert(stt == (StepRes {
                                            npos: nn.npos,
                                            quirk: false,
                                            out: OutV::Tok(
                                                LexerTokenKind::Integer,
                                                Some(LitV::Integer(-v2)),
                                            ),
                                        }));
                                    },
                                    Err(e2) => {
                                        assert(stt == (StepRes {
                                            npos: nn.npos,
                                            quirk: false,
                                            out: OutV::Fail(e2),
                                        }));
                                    },
                                }
                            }
                            return Ok(
                                Some(
                                    (
                                        LexerTokenKind::Integer,
                                        Some(LexerLiteral::Integer(-v)),
                                    ),
                                ),
                            );
                        },
                        Err(e) => {
                            proof {
                                lemma_num_spec_bounds(
                                    inp,
                                    pos0 + 1,
                                    inp[pos0],
                                    l0.max_int_len as int,
                                );
                                lemma_cursor_compose(
                                    l0.cursor@,
                                    inp,
                                    pos0,
                                    pos0 + 1,
                                    self.pos as int,
                                );
                                let nn = num_spec(inp, pos0 + 1, inp[pos0], l0.max_int_len as int);
                                let stt = dispatch_spec(inp, pos0, *c, l0.max_int_len as int);
                                assert(*c == '-' && pos0 < inp.len());
                                assert('0' as int <= inp[pos0] as int && inp[pos0] as int
                                    <= '9' as int);
                                assert(inp[pos0] != '=');
                                match nn.out {
                                    Ok(v2) => {
                                        assert(stt == (StepRes {
                                            npos: nn.npos,
                                            quirk: false,
                                            out: OutV::Tok(
                                                LexerTokenKind::Integer,
                                                Some(LitV::Integer(-v2)),
                                            ),
                                        }));
                                    },
                                    Err(e2) => {
                                        assert(stt == (StepRes {
                                            npos: nn.npos,
                                            quirk: false,
                                            out: OutV::Fail(e2),
                                        }));
                                    },
                                }
                            }
                            return Err(e);
                        },
                    }
                }
            }
            return Ok(Some((LexerTokenKind::Minus, None)));
        }
        if ch == '*' {
            let k = self.fold_double('=', LexerTokenKind::MultiplyEqual, LexerTokenKind::Multiply);
            return Ok(Some((k, None)));
        }
        if ch == '/' {
            let pk = self.peek_next();
            if let Some(c2) = pk {
                if c2 == '/' {
                    match self.consume_single_line_comment() {
                        Ok(u) => {
                            return Ok(None);
                        },
                        Err(e) => {
                            proof {
                                assert(false);
                            }
                            return Err(e);
                        },
                    }
                }
                if c2 == '*' {
                    match self.consume_multi_line_comment() {
                        Ok(u) => {
                            return Ok(None);
                        },
                        Err(e) => {
                            return Err(e);
                        },
                    }
                }
                if c2 == '=' {
                    self.advance();
                    proof {
                        assert(inp.subrange(pos0, pos0 + 1) =~= seq![inp[pos0]]);
                        lemma_cur_adv_one(l0.cursor@, inp[pos0]);
                    }
                    return Ok(Some((LexerTokenKind::DivideEqual, None)));
                }
            }
            return Ok(Some((LexerTokenKind::Divide, None)));
        }
        if ch == '!' {
            let k = self.fold_double('=', LexerTokenKind::NotEqual, LexerTokenKind::Not);
            return Ok(Some((k, None)));
        }
        if ch == '<' {
            let k = self.fold_double('=', LexerTokenKind::LesserEqualThan, LexerTokenKind::LesserThan);
            return Ok(Some((k, None)));
        }
        if ch == '>' {
            let k = self.fold_double(
                '=',
                LexerTokenKind::GreaterEqualThan,
                LexerTokenKind::GreaterThan,
            );
            return Ok(Some((k, None)));
        }
        if ch == '&' {
            if self.advance_if_eq('&') {
                proof {
                    assert(inp.subrange(pos0, pos0 + 1) =~= seq![inp[pos0]]);
                    lemma_cur_adv_one(l0.cursor@, inp[pos0]);
                }
                return Ok(Some((LexerTokenKind::And, None)));
            }
            return self.word_fallback(ch);
        }
        if ch == '|' {
            if self.advance_if_eq('|') {
                proof {
                    assert(inp.subrange(pos0, pos0 + 1) =~= seq![inp[pos0]]);
                    lemma_cur_adv_one(l0.cursor@, inp[pos0]);
                }
                return Ok(Some((LexerTokenKind::Or, None)));
            }
            return self.word_fallback(ch);
        }
        if ch == '(' {
            return Ok(Some((LexerTokenKind::LParen, None)));
        }
        if ch == ')' {
            return Ok(Some((LexerTokenKind::RParen, None)));
        }
        if ch == '{' {
            return Ok(Some((LexerTokenKind::LBracket, None)));
        }
        if ch == '}' {
            return Ok(Some((LexerTokenKind::RBracket, None)));
        }
        if ch == ',' {
            return Ok(Some((LexerTokenKind::Comma, None)));
        }
        if ch == ':' {
            return Ok(Some((LexerTokenKind::Colon, None)));
        }
        if ch == '.' {
            if self.advance_if_eq('.') {
                proof {
                    assert(inp.subrange(pos0, pos0 + 1) =~= seq![inp[pos0]]);
                    lemma_cur_adv_one(l0.cursor@, inp[pos0]);
                }
                if self.advance_if_eq('=') {
                    proof {
                        assert(inp.subrange(pos0, pos0 + 2) =~= inp.subrange(pos0, pos0 + 1).push(
                            inp[pos0 + 1],
                        ));
                        lemma_cur_adv_seq_snoc(l0.cursor@, inp.subrange(pos0, pos0 + 1), inp[pos0 + 1]);
                    }
                    return Ok(Some((LexerTokenKind::RangeInclusive, None)));
                }
                return Ok(Some((LexerTokenKind::Range, None)));
            }
            return self.word_fallback(ch);
        }
        if ch >= '0' && ch <= '9' {
            proof {
                assert('0' as int <= ch as int && ch as int <= '9' as int);
            }
            match self.eat_number(ch) {
                Ok(v) => {
                    return Ok(Some((LexerTokenKind::Integer, Some(LexerLiteral::Integer(v)))));
                },
                Err(e) => {
                    return Err(e);
                },
            }
        }
        if ch == '"' {
            return match self.consume_string() {
                Ok(kv) => Ok(Some(kv)),
                Err(e) => Err(e),
            };
        }
        if ch == '$' {
            return match self.consume_shell_command() {
                Ok(kv) => Ok(Some(kv)),
                Err(e) => Err(e),
            };
        }
        self.word_fallback(ch)
    }

    /// Build a scanner over the already trimmed text of `source_file`,
    /// with `max_int_len` as the numeric-literal digit ceiling.
    #[verifier::loop_isolation(false)]
    pub fn create_bits(source_file: &SourceFile, max_int_len: u8) -> (r: Lexer)
        requires
            source_file@.len() < usize::MAX / 2,
        ensures
            r.wf(),
            r.chars@ == trim_spec(source_file@),
            r.pos == 0,
            r.cursor@ == cur_start(),
            r.tokens@.len() == 0,
            r.errors@.len() == 0,
            r.max_int_len == max_int_len,
            r.source_file@ == source_file@,
    {
        let ghost src = source_file@;
        let code = source_file.get_code();
        let n = code.len();
        let mut lo: usize = 0;
        while lo < n && char_is_whitespace(code[lo])
            invariant
                lo <= n,
                forall|j: int| 0 <= j < lo ==> unicode_whitespace(src[j]),
            decreases n - lo,
        {
            lo = lo + 1;
        }
        proof {
            lemma_ws_prefix_ge(src, lo as int);
            lemma_ws_prefix_char(src);
            if ws_prefix(src) > lo {
                assert(unicode_whitespace(src[lo as int]));
            }
            assert(ws_prefix(src) == lo);
        }
        let mut hi: usize = n;
        while hi > lo && char_is_whitespace(code[hi - 1])
            invariant
                lo <= hi <= n,
                forall|j: int| hi <= j < n ==> unicode_whitespace(src[j]),
            decreases hi,
        {
            hi = hi - 1;
        }
        proof {
            lemma_ws_suffix_char(src);
            if lo < n {
                lemma_ws_suffix_ge(src, n - hi);
                if ws_suffix(src) > n - hi {
                    assert(unicode_whitespace(src[hi - 1]));
                }
                assert(ws_suffix(src) == n - hi);
            }
        }
        let chars = copy_range(code, lo, hi);
        proof {
            if lo == n {
                assert(chars@ =~= trim_spec(src));
            } else {
                assert(chars@ =~= trim_spec(src));
            }
        }
        Lexer {
            chars,
            pos: 0,
            errors: Vec::new(),
            cursor: Cursor::create(),
            tokens: Vec::new(),
            max_int_len,
            source_file: source_file.sliced(0, n),
        }
    }

    /// Build a scanner with the digit ceiling of this machine's native
    /// signed integer width.
    pub fn create(source_file: &SourceFile) -> (r: Lexer)
        requires
            source_file@.len() < usize::MAX / 2,
        ensures
            r.wf(),
            r.chars@ == trim_spec(source_file@),
            r.pos == 0,
            r.cursor@ == cur_start(),
            r.tokens@.len() == 0,
            r.errors@.len() == 0,
            1 <= r.max_int_len,
            r.max_int_len as int == dec_digit_count(isize::MAX as int),
            r.source_file@ == source_file@,
    {
        let cap = isize_digit_capacity();
        Self::create_bits(source_file, cap)
    }

    /// The token sequence as mathematical values.
    pub open spec fn toks_view(self) -> Seq<TokV> {
        self.tokens@.map_values(|t: LexerToken| t@)
    }

    /// The error sequence as mathematical values.
    pub open spec fn errs_view(self) -> Seq<ErrV> {
        self.errors@.map_values(|e: LexerError| e@)
    }

    /// Run the scan once and return the token sequence: the produced
    /// tokens and errors are exactly those of `run_spec` over the
    /// remaining text, followed by exactly one end-of-file token
    /// spanning the final cursor position. A second call returns the
    /// sequence unchanged.
    pub fn tokens(&mut self) -> (r: &LexerTokenList)
        requires
            old(self).wf(),
        ensures
            final(self).wf(),
            final(self).same_core(*old(self)),
            r@ == final(self).tokens@,
            old(self).tokens@.len() > 0 ==> *final(self) == *old(self),
            old(self).tokens@.len() == 0 ==> ({
                let out = run_spec(
                    old(self).chars@,
                    old(self).pos as int,
                    old(self).cursor@,
                    old(self).max_int_len as int,
                );
                &&& final(self).toks_view() == out.toks.push(
                    (TokV { kind: LexerTokenKind::EOF, start: out.endcur, end: out.endcur, value: None }),
                )
                &&& final(self).errs_view() == old(self).errs_view() + out.errs
                &&& final(self).cursor@ == out.endcur
                &&& final(self).pos == final(self).chars@.len()
                &&& final(self).tokens@.len() >= 1
                &&& final(self).tokens@.last()@.kind == LexerTokenKind::EOF
                &&& final(self).tokens@.last()@.start == final(self).cursor@
                &&& final(self).tokens@.last()@.end == final(self).cursor@
                &&& final(self).tokens@.last()@.value is None
                &&& forall|i: int|
                    0 <= i < final(self).tokens@.len() - 1
                        ==> (#[trigger] final(self).tokens@[i])@.kind != LexerTokenKind::EOF
            }),
    {
        if self.tokens.len() > 0 {
            return &self.tokens;
        }
        let ghost l0 = *self;
        let ghost inp = self.chars@;
        let ghost pos0 = self.pos as int;
        let ghost cur0 = self.cursor@;
        let ghost maxg = self.max_int_len as int;
        let ghost out0 = run_spec(inp, pos0, cur0, maxg);
        let ghost e0len = l0.errors@.len() as int;
        loop
            invariant
                l0 == *old(self),
                self.wf(),
                self.same_core(l0),
                l0.wf(),
                l0.tokens@.len() == 0,
                inp == self.chars@,
                l0.pos as int == pos0,
                l0.cursor@ == cur0,
                l0.max_int_len as int == maxg,
                out0 == run_spec(inp, pos0, cur0, maxg),
                e0len == l0.errors@.len() as int,
                0 <= pos0 <= self.pos as int <= inp.len(),
                e0len <= self.errors@.len(),
                out0.toks == self.toks_view() + run_spec(
                    inp,
                    self.pos as int,
                    self.cursor@,
                    maxg,
                ).toks,
                out0.errs == self.errs_view().skip(e0len) + run_spec(
                    inp,
                    self.pos as int,
                    self.cursor@,
                    maxg,
                ).errs,
                self.errs_view().take(e0len) == l0.errs_view(),
                out0.endcur == run_spec(inp, self.pos as int, self.cursor@, maxg).endcur,
            ensures
                l0 == *old(self),
                self.wf(),
                self.same_core(l0),
                self.pos == self.chars@.len(),
                out0.toks == self.toks_view() + run_spec(
                    inp,
                    self.pos as int,
                    self.cursor@,
                    maxg,
                ).toks,
                out0.errs == self.errs_view().skip(e0len) + run_spec(
                    inp,
                    self.pos as int,
                    self.cursor@,
                    maxg,
                ).errs,
                self.errs_view().take(e0len) == l0.errs_view(),
                out0.endcur == run_spec(inp, self.pos as int, self.cursor@, maxg).endcur,
            decreases inp.len() - self.pos as int,
        {
            let pk = self.peek_next();
            match pk {
                None => {
                    break ;
                },
                Some(u) => {},
            }
            let start = self.cursor;
            let start_pos = self.pos;
            let ghost p = self.pos as int;
            let ghost cb = self.cursor@;
            let ghost rest = run_spec(inp, p, cb, maxg);
            let cch = match self.advance() {
                Some(x) => x,
                None => {
                    proof {
                        assert(false);
                    }
                    break ;
                },
            };
            let ghost st = dispatch_spec(inp, p + 1, cch, maxg);
            proof {
                lemma_dispatch_spec_bounds(inp, p + 1, cch, maxg);
            }
            match self.scan_char(&cch) {
                Ok(opt) => {
                    match opt {
                        Some(kv) => {
                            let ghost lmid = *self;
                            let ghost tokv = (TokV {
                                kind: kv.0,
                                start: cb,
                                end: lmid.cursor@,
                                value: opt_lit_view(kv.1),
                            });
                            self.add_token(kv.0, kv.1, start);
                            proof {
                                assert(self.tokens@ =~= lmid.tokens@.push(self.tokens@.last()));
                                assert(self.toks_view() =~= lmid.toks_view().push(tokv));
                                assert(out0.toks =~= self.toks_view() + run_spec(
                                    inp,
                                    self.pos as int,
                                    self.cursor@,
                                    maxg,
                                ).toks);
                            }
                        },
                        None => {},
                    }
                },
                Err(e) => {
                    let ghost lmid = *self;
                    let ghost erv = (ErrV {
                        slice: inp.subrange(p, st.npos),
                        start: cb,
                        end: lmid.cursor@,
                        kind: e@,
                    });
                    self.add_error(start, start_pos, e);
                    proof {
                        assert(self.errors@ =~= lmid.errors@.push(self.errors@.last()));
                        assert(self.errs_view() =~= lmid.errs_view().push(erv));
                        assert(self.errs_view().take(e0len) =~= lmid.errs_view().take(e0len));
                        assert(self.errs_view().skip(e0len) =~= lmid.errs_view().skip(e0len).push(
                            erv,
                        ));
                        assert(out0.errs =~= self.errs_view().skip(e0len) + run_spec(
                            inp,
                            self.pos as int,
                            self.cursor@,
                            maxg,
                        ).errs);
                    }
                },
            }
        }
        proof {
            assert(out0.toks =~= self.toks_view());
            assert(out0.errs =~= self.errs_view().skip(e0len));
            assert(self.errs_view() =~= l0.errs_view() + out0.errs);
            lemma_run_spec_no_eof(inp, pos0, cur0, maxg);
        }
        let ghost lend = *self;
        let ghost eofv = (TokV {
            kind: LexerTokenKind::EOF,
            start: out0.endcur,
            end: out0.endcur,
            value: None,
        });
        self.add_token(LexerTokenKind::EOF, None, self.cursor);
        proof {
            assert(self.tokens@ =~= lend.tokens@.push(self.tokens@.last()));
            assert(self.toks_view() =~= lend.toks_view().push(eofv));
            assert(self.toks_view() == out0.toks.push(eofv));
            assert forall|i: int| 0 <= i < self.tokens@.len() - 1 implies (#[trigger] self.tokens@[i])@.kind
                != LexerTokenKind::EOF by {
                assert(self.toks_view()[i] == self.tokens@[i]@);
                assert(self.toks_view()[i] == out0.toks[i]);
            }
        }
        &self.tokens
    }
}

impl ComponentErrors<LexerError> for Lexer {
    open spec fn errors_view(&self) -> Seq<LexerError> {
        self.errors@
    }

    fn fetch_errors(&self) -> (r: &Vec<LexerError>) {
        &self.errors
    }

    fn source(&self) -> &SourceFile {
        &self.source_file
    }
}

impl ComponentIter for Lexer {
    open spec fn remaining(&self) -> Seq<char> {
        self.rest()
    }

    open spec fn iter_inv(&self) -> bool {
        self.wf()
    }

    fn cursor_next(&mut self, item: &char) {
        proof {
            assert(usize::MAX / 2 + usize::MAX / 2 < usize::MAX);
        }
        self.bump_cursor(*item);
    }

    fn peek(&self) -> (r: Option<char>) {
        let r = self.peek_next();
        proof {
            if self.pos < self.chars@.len() {
                assert(self.rest()[0] == self.chars@[self.pos as int]);
            }
        }
        r
    }

    fn peek_is(&self, item: &char) -> (r: bool) {
        match self.peek_next() {
            Some(c) => {
                proof {
                    assert(self.rest()[0] == self.chars@[self.pos as int]);
                }
                c == *item
            },
            None => false,
        }
    }

    fn next(&mut self) -> (r: Option<char>) {
        let ghost l0 = *self;
        let r = self.advance();
        proof {
            if l0.pos < l0.chars@.len() {
                assert(l0.rest()[0] == l0.chars@[l0.pos as int]);
                assert(self.rest() =~= l0.rest().skip(1));
            }
        }
        r
    }

    fn next_if_eq(&mut self, item: &char) -> (r: Option<char>) {
        let ghost l0 = *self;
        if self.advance_if_eq(*item) {
            proof {
                assert(l0.rest()[0] == l0.chars@[l0.pos as int]);
                assert(self.rest() =~= l0.rest().skip(1));
            }
            Some(*item)
        } else {
            None
        }
    }

    fn next_if_eq_mul(&mut self, items: &[char]) -> (r: Option<char>) {
        let ghost l0 = *self;
        let pk = self.peek_next();
        match pk {
            Some(c) => {
                proof {
                    assert(l0.rest()[0] == l0.chars@[l0.pos as int]);
                }
                if contains_char(items, c) {
                    self.advance();
                    proof {
                        assert(self.rest() =~= l0.rest().skip(1));
                    }
                    Some(c)
                } else {
                    None
                }
            },
            None => None,
        }
    }

    fn expect(&mut self, expected: &char) -> (r: Result<char, Option<char>>) {
        let ghost l0 = *self;
        let r = self.expect_ch(*expected);
        proof {
            if l0.pos < l0.chars@.len() {
                assert(l0.rest()[0] == l0.chars@[l0.pos as int]);
                if l0.chars@[l0.pos as int] == *expected {
                    assert(self.rest() =~= l0.rest().skip(1));
                }
            }
        }
        r
    }

    fn expect_any(&mut self, expected: &[char]) -> (r: Result<char, Option<char>>) {
        let ghost l0 = *self;
        let pk = self.peek_next();
        match pk {
            Some(c) => {
                proof {
                    assert(l0.rest()[0] == l0.chars@[l0.pos as int]);
                }
                if contains_char(expected, c) {
                    self.advance();
                    proof {
                        assert(self.rest() =~= l0.rest().skip(1));
                    }
                    Ok(c)
                } else {
                    Err(Some(c))
                }
            },
            None => Err(None),
        }
    }

    fn skip_until(&mut self, term: &[char]) {
        let ghost l0 = *self;
        self.skip_to_any(term);
        proof {
            lemma_eat_skip_count(l0.chars@, l0.pos as int, term@);
            lemma_eat_spec_bounds(l0.chars@, l0.pos as int, term@, false);
            assert(self.rest() =~= l0.rest().skip(skip_count(l0.rest(), term@)));
        }
    }
}

/// The number of decimal digits of this machine's largest native
/// signed integer, counted by repeated division.
fn isize_digit_capacity() -> (r: u8)
    ensures
        1 <= r,
        r as int == dec_digit_count(isize::MAX as int),
{
    proof {
        assert(isize::MAX as int <= i64::MAX as int);
        assert(dec_digit_count(i64::MAX as int) == 19) by {
            reveal_with_fuel(dec_digit_count, 25);
        }
        lemma_dec_digit_count_mono(isize::MAX as int, i64::MAX as int);
        lemma_dec_digit_count_pos(isize::MAX as int);
    }
    let mut n: isize = isize::MAX;
    let mut d: u8 = 0;
    while n > 0
        invariant
            n >= 0,
            dec_digit_count(isize::MAX as int) <= 19,
            n > 0 ==> d as int + dec_digit_count(n as int) == dec_digit_count(isize::MAX as int),
            n == 0 ==> d as int == dec_digit_count(isize::MAX as int),
            d as int <= dec_digit_count(isize::MAX as int),
        decreases n,
    {
        proof {
            lemma_dec_digit_count_pos(n as int / 10);
        }
        n = n / 10;
        d = d + 1;
    }
    d
}

/// Executable ASCII-letter test, exact against `is_ascii_alpha`.
fn ascii_alpha(c: char) -> (r: bool)
    ensures
        r == is_ascii_alpha(c),
{
    let u = c as u32;
    (u >= 'a' as u32 && u <= 'z' as u32) || (u >= 'A' as u32 && u <= 'Z' as u32)
}

/// The expected-digit diagnostic payload.
fn expected_digits_vec() -> (v: Vec<char>)
    ensures
        v@ == expected_digits(),
{
    let mut v: Vec<char> = Vec::new();
    v.push('0');
    v.push('.');
    v.push('.');
    v.push('9');
    proof {
        assert(v@ =~= expected_digits());
    }
    v
}

/// Whether the word equals the pattern, character for character.
fn word_matches(w: &Vec<char>, pat: &[char]) -> (r: bool)
    ensures
        r == (w@ == pat@),
{
    if w.len() != pat.len() {
        return false;
    }
    let mut i: usize = 0;
    while i < w.len()
        invariant
            i <= w@.len(),
            w@.len() == pat@.len(),
            forall|j: int| 0 <= j < i ==> w@[j] == pat@[j],
        decreases w@.len() - i,
    {
        if w[i] != pat[i] {
            return false;
        }
        i = i + 1;
    }
    proof {
        assert(w@ =~= pat@);
    }
    true
}

/// The executable keyword table, exact against `keyword_of`.
fn keyword_lookup(w: &Vec<char>) -> (r: Option<LexerTokenKind>)
    ensures
        r == keyword_of(w@),
{
    let p_var = ['v', 'a', 'r'];
    let p_fn = ['f', 'n'];
    let p_for = ['f', 'o', 'r'];
    let p_while = ['w', 'h', 'i', 'l', 'e'];
    let p_loop = ['l', 'o', 'o', 'p'];
    let p_if = ['i', 'f'];
    let p_else = ['e', 'l', 's', 'e'];
    let p_match = ['m', 'a', 't', 'c', 'h'];
    let p_break = ['b', 'r', 'e', 'a', 'k'];
    let p_continue = ['c', 'o', 'n', 't', 'i', 'n', 'u', 'e'];
    let p_return = ['r', 'e', 't', 'u', 'r', 'n'];
    let p_in = ['i', 'n'];
    let p_is = ['i', 's'];
    let p_include = ['@', 'i', 'n', 'c', 'l', 'u', 'd', 'e'];
    let p_const = ['@', 'c', 'o', 'n', 's', 't'];
    let p_not = ['n', 'o', 't'];
    let p_and = ['a', 'n', 'd'];
    let p_or = ['o', 'r'];
    proof {
        assert(p_var@ =~= seq!['v', 'a', 'r']);
        assert(p_fn@ =~= seq!['f', 'n']);
        assert(p_for@ =~= seq!['f', 'o', 'r']);
        assert(p_while@ =~= seq!['w', 'h', 'i', 'l', 'e']);
        assert(p_loop@ =~= seq!['l', 'o', 'o', 'p']);
        assert(p_if@ =~= seq!['i', 'f']);
        assert(p_else@ =~= seq!['e', 'l', 's', 'e']);
        assert(p_match@ =~= seq!['m', 'a', 't', 'c', 'h']);
        assert(p_break@ =~= seq!['b', 'r', 'e', 'a', 'k']);
        assert(p_continue@ =~= seq!['c', 'o', 'n', 't', 'i', 'n', 'u', 'e']);
        assert(p_return@ =~= seq!['r', 'e', 't', 'u', 'r', 'n']);
        assert(p_in@ =~= seq!['i', 'n']);
        assert(p_is@ =~= seq!['i', 's']);
        assert(p_include@ =~= seq!['@', 'i', 'n', 'c', 'l', 'u', 'd', 'e']);
        assert(p_const@ =~= seq!['@', 'c', 'o', 'n', 's', 't']);
        assert(p_not@ =~= seq!['n', 'o', 't']);
        assert(p_and@ =~= seq!['a', 'n', 'd']);
        assert(p_or@ =~= seq!['o', 'r']);
    }
    if word_matches(w, &p_var) {
        Some(LexerTokenKind::Var)
    } else if word_matches(w, &p_fn) {
        Some(LexerTokenKind::Function)
    } else if word_matches(w, &p_for) {
        Some(LexerTokenKind::For)
    } else if word_matches(w, &p_while) {
        Some(LexerTokenKind::While)
    } else if word_matches(w, &p_loop) {
        Some(LexerTokenKind::Loop)
    } else if word_matches(w, &p_if) {
        Some(LexerTokenKind::If)
    } else if word_matches(w, &p_else) {
        Some(LexerTokenKind::Else)
    } else if word_matches(w, &p_match) {
        Some(LexerTokenKind::Match)
    } else if word_matches(w, &p_break) {
        Some(LexerTokenKind::Break)
    } else if word_matches(w, &p_continue) {
        Some(LexerTokenKind::Continue)
    } else if word_matches(w, &p_return) {
        Some(LexerTokenKind::Return)
    } else if word_matches(w, &p_in) {
        Some(LexerTokenKind::In)
    } else if word_matches(w, &p_is) {
        Some(LexerTokenKind::Is)
    } else if word_matches(w, &p_include) {
        Some(LexerTokenKind::Include)
    } else if word_matches(w, &p_const) {
        Some(LexerTokenKind::Const)
    } else if word_matches(w, &p_not) {
        Some(LexerTokenKind::Not)
    } else if word_matches(w, &p_and) {
        Some(LexerTokenKind::And)
    } else if word_matches(w, &p_or) {
        Some(LexerTokenKind::Or)
    } else {
        None
    }
}

/// A one-element character vector.
fn one_char_vec(c: char) -> (v: Vec<char>)
    ensures
        v@ == seq![c],
{
    let mut v: Vec<char> = Vec::new();
    v.push(c);
    proof {
        assert(v@ =~= seq![c]);
    }
    v
}

/// An owned copy of `v[from..to]`.
#[verifier::loop_isolation(false)]
fn copy_range(v: &Vec<char>, from: usize, to: usize) -> (r: Vec<char>)
    requires
        from <= to <= v@.len(),
    ensures
        r@ == v@.subrange(from as int, to as int),
{
    let mut piece: Vec<char> = Vec::new();
    let mut i: usize = from;
    while i < to
        invariant
            from <= i <= to,
            piece@ == v@.subrange(from as int, i as int),
        decreases to - i,
    {
        piece.push(v[i]);
        proof {
            assert(piece@ =~= v@.subrange(from as int, i + 1 as int));
        }
        i = i + 1;
    }
    piece
}

/// Whether `c` occurs in `term`.
#[verifier::loop_isolation(false)]
fn contains_char(term: &[char], c: char) -> (r: bool)
    ensures
        r == term@.contains(c),
{
    let mut i: usize = 0;
    while i < term.len()
        invariant
            i <= term@.len(),
            forall|j: int| 0 <= j < i ==> term@[j] != c,
        decreases term@.len() - i,
    {
        if term[i] == c {
            return true;
        }
        i = i + 1;
    }
    false
}

/// The executable escape decoding, exact against `esc_map`.
fn map_escape(c: char) -> (r: char)
    ensures
        r == esc_map(c),
{
    match c {
        '0' => '\0',
        't' => '\t',
        'n' => '\n',
        'r' => '\r',
        _ => c,
    }
}

} // verus!
