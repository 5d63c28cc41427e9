use vstd::prelude::*;

use crate::source::SourceFile;

verus! {

/// A component that accumulates recoverable errors while it works and
/// exposes them, together with the source they came from, when done.
pub trait ComponentErrors<E> {
    /// The errors recorded so far, as a mathematical sequence.
    spec fn errors_view(&self) -> Seq<E>;

    /// The recorded errors, in the order they were found.
    fn fetch_errors(&self) -> (r: &Vec<E>)
        ensures
            r@ == self.errors_view(),
    ;

    /// Whether any error was recorded.
    fn has_errors(&self) -> (r: bool)
        ensures
            r == (self.errors_view().len() > 0),
    {
        self.fetch_errors().len() > 0
    }

    /// The source the component is working on.
    fn source(&self) -> &SourceFile;
}

/// How many leading items of `s` come before the first member of `term`
/// (all of `s` when no member occurs at all).
pub open spec fn skip_count(s: Seq<char>, term: Seq<char>) -> int
    decreases s.len(),
{
    if s.len() == 0 {
        0
    } else if term.contains(s[0]) {
        0
    } else {
        1 + skip_count(s.skip(1), term)
    }
}

pub proof fn lemma_skip_count_bounds(s: Seq<char>, term: Seq<char>)
    ensures
        0 <= skip_count(s, term) <= s.len(),
    decreases s.len(),
{
    if s.len() > 0 && !term.contains(s[0]) {
        lemma_skip_count_bounds(s.skip(1), term);
    }
}

/// The lookahead protocol: peek, consume, consume-if-equal, expect and
/// skip-until over a buffered sequence of characters. Every lexical
/// sub-scanner is a short series of these calls; the same contract is
/// meant for reuse by any later stream consumer.
pub trait ComponentIter {
    /// The items not yet consumed, in order.
    spec fn remaining(&self) -> Seq<char>;

    /// The implementation's internal well-formedness.
    spec fn iter_inv(&self) -> bool;

    /// The position-update hook, run once for each consumed item. It
    /// never consumes; an implementation may move other bookkeeping
    /// that its callers restore.
    fn cursor_next(&mut self, item: &char)
        requires
            old(self).iter_inv(),
        ensures
            final(self).remaining() == old(self).remaining(),
    ;

    /// The next unconsumed item, if any, without advancing. Repeated
    /// calls return the same item.
    fn peek(&self) -> (r: Option<char>)
        requires
            self.iter_inv(),
        ensures
            match r {
                Some(c) => self.remaining().len() > 0 && c == self.remaining()[0],
                None => self.remaining().len() == 0,
            },
    ;

    /// Whether the next item equals `item`; never advances.
    fn peek_is(&self, item: &char) -> (r: bool)
        requires
            self.iter_inv(),
        ensures
            r == (self.remaining().len() > 0 && self.remaining()[0] == *item),
    ;

    /// Advance one item, running the position hook, and return it;
    /// an exhausted sequence yields none and changes nothing.
    fn next(&mut self) -> (r: Option<char>)
        requires
            old(self).iter_inv(),
        ensures
            final(self).iter_inv(),
            old(self).remaining().len() == 0 ==> r is None && final(self).remaining()
                == old(self).remaining(),
            old(self).remaining().len() > 0 ==> r == Some(old(self).remaining()[0]) && final(self).remaining() == old(self).remaining().skip(1),
    ;

    /// Advance only when the next item equals `item`.
    fn next_if_eq(&mut self, item: &char) -> (r: Option<char>)
        requires
            old(self).iter_inv(),
        ensures
            final(self).iter_inv(),
            old(self).remaining().len() > 0 && old(self).remaining()[0] == *item ==> r == Some(
                *item,
            ) && final(self).remaining() == old(self).remaining().skip(1),
            !(old(self).remaining().len() > 0 && old(self).remaining()[0] == *item) ==> r is None
                && final(self).remaining() == old(self).remaining(),
    ;

    /// Advance only when the next item equals one of `items`.
    fn next_if_eq_mul(&mut self, items: &[char]) -> (r: Option<char>)
        requires
            old(self).iter_inv(),
        ensures
            final(self).iter_inv(),
            old(self).remaining().len() > 0 && items@.contains(old(self).remaining()[0]) ==> r
                == Some(old(self).remaining()[0]) && final(self).remaining() == old(self).remaining().skip(1),
            !(old(self).remaining().len() > 0 && items@.contains(old(self).remaining()[0])) ==> r
                is None && final(self).remaining() == old(self).remaining(),
    ;

    /// Consume and return the next item when it equals `expected`;
    /// otherwise return the offending item (or none at exhaustion)
    /// without consuming anything.
    fn expect(&mut self, expected: &char) -> (r: Result<char, Option<char>>)
        requires
            old(self).iter_inv(),
        ensures
            final(self).iter_inv(),
            old(self).remaining().len() == 0 ==> r == Result::<char, Option<char>>::Err(
                Option::<char>::None,
            ) && final(self).remaining() == old(self).remaining(),
            old(self).remaining().len() > 0 && old(self).remaining()[0] == *expected ==> r
                == Result::<char, Option<char>>::Ok(*expected) && final(self).remaining() == old(self).remaining().skip(1),
            old(self).remaining().len() > 0 && old(self).remaining()[0] != *expected ==> r
                == Result::<char, Option<char>>::Err(Some(old(self).remaining()[0])) && final(self).remaining() == old(self).remaining(),
    ;

    /// Consume and return the next item when it equals one of
    /// `expected`; otherwise as [`Self::expect`].
    fn expect_any(&mut self, expected: &[char]) -> (r: Result<char, Option<char>>)
        requires
            old(self).iter_inv(),
        ensures
            final(self).iter_inv(),
            old(self).remaining().len() == 0 ==> r == Result::<char, Option<char>>::Err(
                Option::<char>::None,
            ) && final(self).remaining() == old(self).remaining(),
            old(self).remaining().len() > 0 && expected@.contains(old(self).remaining()[0]) ==> r
                == Result::<char, Option<char>>::Ok(old(self).remaining()[0]) && final(self).remaining() == old(self).remaining().skip(1),
            old(self).remaining().len() > 0 && !expected@.contains(old(self).remaining()[0]) ==> r
                == Result::<char, Option<char>>::Err(Some(old(self).remaining()[0])) && final(self).remaining() == old(self).remaining(),
    ;

    /// Advance while the next item is no member of `term`; the found
    /// terminator itself stays unconsumed. An exhausted sequence stops
    /// the skip (the caller checks separately).
    fn skip_until(&mut self, term: &[char])
        requires
            old(self).iter_inv(),
        ensures
            final(self).iter_inv(),
            final(self).remaining() == old(self).remaining().skip(
                skip_count(old(self).remaining(), term@),
            ),
    ;
}

} // verus!
