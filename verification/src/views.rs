//! Word-by-word and line-by-line traversal of a cursor's text.

use crate::cursor::Cursor;
use crate::text::{lemma_run_end, newlines, prefix_bytes, run_end, slice_end, Stop};
use vstd::prelude::*;

verus! {

/// Whether a word starts at character `k` of `s`: whether a scan for a word
/// from there moves at all.
pub open spec fn has_word(s: Seq<char>, k: int) -> bool {
    k < run_end(s, k, Stop::Whitespace)
}

/// Index one past the last character of the slice for the word at `k`: the
/// whitespace character that ends the word belongs to the slice.
pub open spec fn word_slice_end(s: Seq<char>, k: int) -> int {
    slice_end(s, run_end(s, k, Stop::Whitespace))
}

/// Where the cursor stands once the word at `k` has been handed out: behind
/// the word and the whitespace that follows it.
pub open spec fn after_word(s: Seq<char>, k: int) -> int {
    run_end(s, run_end(s, k, Stop::Whitespace), Stop::NonWhitespace)
}

/// Whether a line starts at character `k` of `s`: whether a scan for a line
/// from there moves at all.
pub open spec fn has_line(s: Seq<char>, k: int) -> bool {
    k < run_end(s, k, Stop::Newline)
}

/// Where the cursor stands once the line at `k` has been handed out: behind
/// the line and the `'\n'` that ends it. The slice for the line ends there too.
pub open spec fn after_line(s: Seq<char>, k: int) -> int {
    slice_end(s, run_end(s, k, Stop::Newline))
}

/// The words that a pass from character `k` of `s` hands out, each as the
/// index of its first character and the index one past the last character
/// of its slice.
pub open spec fn words_from(s: Seq<char>, k: int) -> Seq<(int, int)>
    decreases s.len() - k,
    via words_from_decreases
{
    if 0 <= k <= s.len() && has_word(s, k) {
        seq![(k, word_slice_end(s, k))] + words_from(s, after_word(s, k))
    } else {
        seq![]
    }
}

#[via_fn]
proof fn words_from_decreases(s: Seq<char>, k: int) {
    if 0 <= k <= s.len() && has_word(s, k) {
        lemma_run_end(s, k, Stop::Whitespace);
        lemma_run_end(s, run_end(s, k, Stop::Whitespace), Stop::NonWhitespace);
    }
}

/// The lines that a pass from character `k` of `s` hands out, each as the
/// index of its first character and the index one past the last character
/// of its slice.
pub open spec fn lines_from(s: Seq<char>, k: int) -> Seq<(int, int)>
    decreases s.len() - k,
    via lines_from_decreases
{
    if 0 <= k <= s.len() && has_line(s, k) {
        seq![(k, after_line(s, k))] + lines_from(s, after_line(s, k))
    } else {
        seq![]
    }
}

#[via_fn]
proof fn lines_from_decreases(s: Seq<char>, k: int) {
    if 0 <= k <= s.len() && has_line(s, k) {
        lemma_run_end(s, k, Stop::Newline);
    }
}

/// Where a pass over the words from character `k` of `s` leaves the cursor
/// once it has handed out every word.
pub open spec fn words_end(s: Seq<char>, k: int) -> int
    decreases s.len() - k,
    via words_end_decreases
{
    if 0 <= k <= s.len() && has_word(s, k) {
        words_end(s, after_word(s, k))
    } else {
        k
    }
}

#[via_fn]
proof fn words_end_decreases(s: Seq<char>, k: int) {
    if 0 <= k <= s.len() && has_word(s, k) {
        lemma_run_end(s, k, Stop::Whitespace);
        lemma_run_end(s, run_end(s, k, Stop::Whitespace), Stop::NonWhitespace);
    }
}

/// Where a pass over the lines from character `k` of `s` leaves the cursor
/// once it has handed out every line.
pub open spec fn lines_end(s: Seq<char>, k: int) -> int
    decreases s.len() - k,
    via lines_end_decreases
{
    if 0 <= k <= s.len() && has_line(s, k) {
        lines_end(s, after_line(s, k))
    } else {
        k
    }
}

#[via_fn]
proof fn lines_end_decreases(s: Seq<char>, k: int) {
    if 0 <= k <= s.len() && has_line(s, k) {
        lemma_run_end(s, k, Stop::Newline);
    }
}

/// Exhaustion of a pass over words: it hands out no more words than there
/// are characters ahead, it ends within the text, and where it ends no word
/// starts, so that nothing more comes however often it is asked.
pub proof fn lemma_words_exhausted(s: Seq<char>, k: int)
    requires
        0 <= k <= s.len(),
    ensures
        words_from(s, k).len() <= s.len() - k,
        k <= words_end(s, k) <= s.len(),
        !has_word(s, words_end(s, k)),
        words_from(s, words_end(s, k)).len() == 0,
        words_end(s, words_end(s, k)) == words_end(s, k),
    decreases s.len() - k,
{
    if has_word(s, k) {
        lemma_run_end(s, k, Stop::Whitespace);
        lemma_run_end(s, run_end(s, k, Stop::Whitespace), Stop::NonWhitespace);
        lemma_words_exhausted(s, after_word(s, k));
    }
}

/// Exhaustion of a pass over lines: it hands out no more lines than there
/// are characters ahead, it ends within the text, and where it ends no line
/// starts, so that nothing more comes however often it is asked.
pub proof fn lemma_lines_exhausted(s: Seq<char>, k: int)
    requires
        0 <= k <= s.len(),
    ensures
        lines_from(s, k).len() <= s.len() - k,
        k <= lines_end(s, k) <= s.len(),
        !has_line(s, lines_end(s, k)),
        lines_from(s, lines_end(s, k)).len() == 0,
        lines_end(s, lines_end(s, k)) == lines_end(s, k),
    decreases s.len() - k,
{
    if has_line(s, k) {
        lemma_run_end(s, k, Stop::Newline);
        lemma_lines_exhausted(s, after_line(s, k));
    }
}

/// A single forward pass over the words ahead of a cursor. With `LINES` set,
/// each word comes with the number of the line on which it starts.
pub struct CursorWords<'a, 'b, const LINES: bool> {
    /// The cursor that the pass moves.
    pub cursor: &'b mut Cursor<'a>,
}

impl<'a, 'b> CursorWords<'a, 'b, false> {
    /// A pass over the words ahead of `cursor`.
    pub fn new(cursor: &'b mut Cursor<'a>) -> (w: Self)
        ensures
            *w.cursor == *old(cursor),
            *final(w.cursor) == *final(cursor),
    {
        Self { cursor }
    }

    /// The next word: the byte offset at which it starts, and the slice from
    /// there through the whitespace character that ends it, or to the end of
    /// the text. The cursor moves on to the start of the word after it.
    /// Nothing, and no move, where no word starts at the cursor.
    pub fn next(&mut self) -> (r: Option<(usize, &'a str)>)
        requires
            old(self).cursor.wf(),
        ensures
            final(self).cursor.wf(),
            *final(final(self).cursor) == *final(old(self).cursor),
            final(self).cursor.text() == old(self).cursor.text(),
            r is Some <==> has_word(old(self).cursor.text(), old(self).cursor.position()),
            r is None ==> *final(self).cursor == *old(self).cursor,
            r is Some ==> final(self).cursor.position() == after_word(
                old(self).cursor.text(),
                old(self).cursor.position(),
            ),
            match r {
                Some((start, word)) => start == old(self).cursor.byte_offset() && word@ == old(
                    self,
                ).cursor.text().subrange(
                    old(self).cursor.position(),
                    word_slice_end(old(self).cursor.text(), old(self).cursor.position()),
                ),
                None => true,
            },
    {
        match self.cursor.next_word() {
            Some(item) => {
                self.cursor.skip_whitespace();
                Some(item)
            },
            None => None,
        }
    }

    /// All the words ahead, in order, each as `next` hands it out. The pass
    /// is then exhausted: no word starts where it leaves the cursor.
    pub fn collect(self) -> (v: Vec<(usize, &'a str)>)
        requires
            old(self.cursor).wf(),
        ensures
            final(self.cursor).wf(),
            final(self.cursor).text() == old(self.cursor).text(),
            final(self.cursor).position() == words_end(
                old(self.cursor).text(),
                old(self.cursor).position(),
            ),
            !has_word(final(self.cursor).text(), final(self.cursor).position()),
            v@.len() == words_from(old(self.cursor).text(), old(self.cursor).position()).len(),
            forall|i: int|
                0 <= i < v@.len() ==> is_item(
                    old(self.cursor).text(),
                    words_from(old(self.cursor).text(), old(self.cursor).position())[i],
                    (#[trigger] v@[i]).0,
                    v@[i].1,
                ),
    {
        let ghost s = self.cursor.text();
        let ghost from = self.cursor.position();
        let mut pass = self;
        let mut v: Vec<(usize, &'a str)> = Vec::new();
        let mut done = false;
        let ghost all = words_from(s, from);
        while !done
            invariant
                pass.cursor.wf(),
                *final(pass.cursor) == *final(self.cursor),
                pass.cursor.text() == s,
                all == words_from(s, from),
                v@.len() <= all.len(),
                all =~= all.take(v@.len() as int) + words_from(s, pass.cursor.position()),
                done ==> !has_word(s, pass.cursor.position()),
                words_end(s, pass.cursor.position()) == words_end(s, from),
                forall|i: int| 0 <= i < v@.len() ==> is_item(s, all[i], (#[trigger] v@[i]).0, v@[i].1),
            decreases s.len() - pass.cursor.position() + if done {
                0int
            } else {
                1int
            },
        {
            let ghost k = pass.cursor.position();
            proof {
                lemma_run_end(s, k, Stop::Whitespace);
                lemma_run_end(s, run_end(s, k, Stop::Whitespace), Stop::NonWhitespace);
            }
            match pass.next() {
                Some(item) => {
                    proof {
                        assert(all[v@.len() as int] == (k, word_slice_end(s, k)));
                        assert(all.take(v@.len() as int + 1) =~= all.take(v@.len() as int) + seq![
                            (k, word_slice_end(s, k)),
                        ]);
                    }
                    v.push(item);
                },
                None => {
                    done = true;
                },
            }
        }
        v
    }
}

impl<'a, 'b> CursorWords<'a, 'b, true> {
    /// A pass over the words ahead of `cursor` that numbers their lines.
    pub fn with_lines(cursor: &'b mut Cursor<'a>) -> (w: Self)
        ensures
            *w.cursor == *old(cursor),
            *final(w.cursor) == *final(cursor),
    {
        Self { cursor }
    }

    /// The next word: the byte offset at which it starts, the number of
    /// newlines before it, and the slice from its start through the
    /// whitespace character that ends it, or to the end of the text. The
    /// cursor moves on to the start of the word after it. Nothing, and no
    /// move, where no word starts at the cursor.
    pub fn next(&mut self) -> (r: Option<(usize, usize, &'a str)>)
        requires
            old(self).cursor.wf(),
        ensures
            final(self).cursor.wf(),
            *final(final(self).cursor) == *final(old(self).cursor),
            final(self).cursor.text() == old(self).cursor.text(),
            r is Some <==> has_word(old(self).cursor.text(), old(self).cursor.position()),
            r is None ==> *final(self).cursor == *old(self).cursor,
            r is Some ==> final(self).cursor.position() == after_word(
                old(self).cursor.text(),
                old(self).cursor.position(),
            ),
            match r {
                Some((start, line, word)) => start == old(self).cursor.byte_offset() && line
                    == newlines(old(self).cursor.text().take(old(self).cursor.position()))
                    && word@ == old(self).cursor.text().subrange(
                    old(self).cursor.position(),
                    word_slice_end(old(self).cursor.text(), old(self).cursor.position()),
                ),
                None => true,
            },
    {
        let line = self.cursor.line();
        match self.cursor.next_word() {
            Some((start, word)) => {
                self.cursor.skip_whitespace();
                Some((start, line, word))
            },
            None => None,
        }
    }

    /// All the words ahead, in order, each as `next` hands it out. The pass
    /// is then exhausted: no word starts where it leaves the cursor.
    pub fn collect(self) -> (v: Vec<(usize, usize, &'a str)>)
        requires
            old(self.cursor).wf(),
        ensures
            final(self.cursor).wf(),
            final(self.cursor).text() == old(self.cursor).text(),
            final(self.cursor).position() == words_end(
                old(self.cursor).text(),
                old(self.cursor).position(),
            ),
            !has_word(final(self.cursor).text(), final(self.cursor).position()),
            v@.len() == words_from(old(self.cursor).text(), old(self.cursor).position()).len(),
            forall|i: int|
                0 <= i < v@.len() ==> is_item(
                    old(self.cursor).text(),
                    words_from(old(self.cursor).text(), old(self.cursor).position())[i],
                    (#[trigger] v@[i]).0,
                    v@[i].2,
                ) && v@[i].1 == newlines(
                    old(self.cursor).text().take(
                        words_from(old(self.cursor).text(), old(self.cursor).position())[i].0,
                    ),
                ),
    {
        let ghost s = self.cursor.text();
        let ghost from = self.cursor.position();
        let mut pass = self;
        let mut v: Vec<(usize, usize, &'a str)> = Vec::new();
        let mut done = false;
        let ghost all = words_from(s, from);
        while !done
            invariant
                pass.cursor.wf(),
                *final(pass.cursor) == *final(self.cursor),
                pass.cursor.text() == s,
                all == words_from(s, from),
                v@.len() <= all.len(),
                all =~= all.take(v@.len() as int) + words_from(s, pass.cursor.position()),
                done ==> !has_word(s, pass.cursor.position()),
                words_end(s, pass.cursor.position()) == words_end(s, from),
                forall|i: int|
                    0 <= i < v@.len() ==> is_item(s, all[i], (#[trigger] v@[i]).0, v@[i].2)
                        && v@[i].1 == newlines(s.take(all[i].0)),
            decreases s.len() - pass.cursor.position() + if done {
                0int
            } else {
                1int
            },
        {
            let ghost k = pass.cursor.position();
            proof {
                lemma_run_end(s, k, Stop::Whitespace);
                lemma_run_end(s, run_end(s, k, Stop::Whitespace), Stop::NonWhitespace);
            }
            match pass.next() {
                Some(item) => {
                    proof {
                        assert(all[v@.len() as int] == (k, word_slice_end(s, k)));
                        assert(all.take(v@.len() as int + 1) =~= all.take(v@.len() as int) + seq![
                            (k, word_slice_end(s, k)),
                        ]);
                    }
                    v.push(item);
                },
                None => {
                    done = true;
                },
            }
        }
        v
    }
}

/// A single forward pass over the lines ahead of a cursor.
pub struct CursorLines<'a, 'b> {
    /// The cursor that the pass moves.
    pub cursor: &'b mut Cursor<'a>,
}

impl<'a, 'b> CursorLines<'a, 'b> {
    /// A pass over the lines ahead of `cursor`.
    pub fn new(cursor: &'b mut Cursor<'a>) -> (w: Self)
        ensures
            *w.cursor == *old(cursor),
            *final(w.cursor) == *final(cursor),
    {
        Self { cursor }
    }

    /// The next line: the number of newlines before it, and the slice from
    /// the cursor through the `'\n'` that ends the line, or to the end of the
    /// text. The cursor moves behind that slice. Nothing, and no move, where
    /// the cursor stands on a `'\n'` or at the end of the text.
    pub fn next(&mut self) -> (r: Option<(usize, &'a str)>)
        requires
            old(self).cursor.wf(),
        ensures
            final(self).cursor.wf(),
            *final(final(self).cursor) == *final(old(self).cursor),
            final(self).cursor.text() == old(self).cursor.text(),
            r is Some <==> has_line(old(self).cursor.text(), old(self).cursor.position()),
            r is None ==> *final(self).cursor == *old(self).cursor,
            r is Some ==> final(self).cursor.position() == after_line(
                old(self).cursor.text(),
                old(self).cursor.position(),
            ),
            match r {
                Some((number, line)) => number == newlines(
                    old(self).cursor.text().take(old(self).cursor.position()),
                ) && line@ == old(self).cursor.text().subrange(
                    old(self).cursor.position(),
                    after_line(old(self).cursor.text(), old(self).cursor.position()),
                ),
                None => true,
            },
    {
        let number = self.cursor.line();
        match self.cursor.next_line() {
            Some((_, line)) => Some((number, line)),
            None => None,
        }
    }

    /// All the lines ahead, in order, each as `next` hands it out. The pass
    /// is then exhausted: no line starts where it leaves the cursor.
    pub fn collect(self) -> (v: Vec<(usize, &'a str)>)
        requires
            old(self.cursor).wf(),
        ensures
            final(self.cursor).wf(),
            final(self.cursor).text() == old(self.cursor).text(),
            final(self.cursor).position() == lines_end(
                old(self.cursor).text(),
                old(self.cursor).position(),
            ),
            !has_line(final(self.cursor).text(), final(self.cursor).position()),
            v@.len() == lines_from(old(self.cursor).text(), old(self.cursor).position()).len(),
            forall|i: int|
                0 <= i < v@.len() ==> (#[trigger] v@[i]).0 == newlines(
                    old(self.cursor).text().take(
                        lines_from(old(self.cursor).text(), old(self.cursor).position())[i].0,
                    ),
                ) && v@[i].1@ == old(self.cursor).text().subrange(
                    lines_from(old(self.cursor).text(), old(self.cursor).position())[i].0,
                    lines_from(old(self.cursor).text(), old(self.cursor).position())[i].1,
                ),
    {
        let ghost s = self.cursor.text();
        let ghost from = self.cursor.position();
        let mut pass = self;
        let mut v: Vec<(usize, &'a str)> = Vec::new();
        let mut done = false;
        let ghost all = lines_from(s, from);
        while !done
            invariant
                pass.cursor.wf(),
                *final(pass.cursor) == *final(self.cursor),
                pass.cursor.text() == s,
                all == lines_from(s, from),
                v@.len() <= all.len(),
                all =~= all.take(v@.len() as int) + lines_from(s, pass.cursor.position()),
                done ==> !has_line(s, pass.cursor.position()),
                lines_end(s, pass.cursor.position()) == lines_end(s, from),
                forall|i: int|
                    0 <= i < v@.len() ==> (#[trigger] v@[i]).0 == newlines(s.take(all[i].0))
                        && v@[i].1@ == s.subrange(all[i].0, all[i].1),
            decreases s.len() - pass.cursor.position() + if done {
                0int
            } else {
                1int
            },
        {
            let ghost k = pass.cursor.position();
            proof {
                lemma_run_end(s, k, Stop::Newline);
            }
            match pass.next() {
                Some(item) => {
                    proof {
                        assert(all[v@.len() as int] == (k, after_line(s, k)));
                        assert(all.take(v@.len() as int + 1) =~= all.take(v@.len() as int) + seq![
                            (k, after_line(s, k)),
                        ]);
                    }
                    v.push(item);
                },
                None => {
                    done = true;
                },
            }
        }
        v
    }
}

/// Whether a byte offset and a slice are what a pass hands out for the word
/// that `range` gives by the indices of its characters.
pub open spec fn is_item(s: Seq<char>, range: (int, int), start: usize, slice: &str) -> bool {
    start == prefix_bytes(s, range.0) && slice@ == s.subrange(range.0, range.1)
}

} // verus!
