//! The cursor: one position in a borrowed text, moved a character at a time.

use crate::text::{
    byte_len, char_width, first_char, head_to, is_newline, lemma_char_width_bounds,
    lemma_newlines_bound, lemma_newlines_step, lemma_no_boundary_inside, lemma_prefix_full,
    lemma_prefix_increases, lemma_prefix_is_boundary, lemma_prefix_step, newlines, prefix_bytes,
    run_end, slice_end, stops_at, tail_from, utf8_len, Stop,
};
use crate::views::{CursorLines, CursorWords};
use vstd::prelude::*;
use vstd::string::*;
use vstd::utf8::*;

verus! {

/// A position in a borrowed text that can move forward and backward by whole
/// characters, and knows its byte offset and how many lines lie behind it.
#[derive(Clone, Debug)]
pub struct Cursor<'a> {
    data: &'a str,
    offset: usize,
    line: usize,
}

impl<'a> Cursor<'a> {
    /// The characters of the text that the cursor walks over.
    pub closed spec fn text(&self) -> Seq<char> {
        self.data@
    }

    /// How many characters lie behind the cursor.
    pub closed spec fn position(&self) -> int {
        choose|k: int| 0 <= k <= self.data@.len() && prefix_bytes(self.data@, k) == self.offset
    }

    /// The cursor has `k` characters behind it when character `k` starts at
    /// its byte offset.
    pub proof fn lemma_position(&self, k: int)
        requires
            0 <= k <= self.text().len(),
            self.byte_offset() == prefix_bytes(self.text(), k),
        ensures
            self.position() == k,
    {
        let p = self.position();
        if p < k {
            lemma_prefix_increases(self.data@, p, k);
        } else if k < p {
            lemma_prefix_increases(self.data@, k, p);
        }
    }

    /// The byte offset of the cursor in the encoded text.
    pub closed spec fn byte_offset(&self) -> int {
        self.offset as int
    }

    /// The line count that the cursor carries.
    pub closed spec fn line_count(&self) -> int {
        self.line as int
    }

    /// The cursor stands between two characters, its byte offset is where the
    /// character ahead starts, and its line count is the number of newlines
    /// behind it. The encoded text is no longer than an offset can count.
    pub open spec fn wf(&self) -> bool {
        &&& encode_utf8(self.text()).len() <= usize::MAX
        &&& 0 <= self.position() <= self.text().len()
        &&& self.byte_offset() == prefix_bytes(self.text(), self.position())
        &&& self.line_count() == newlines(self.text().take(self.position()))
    }

    /// The cursor never stands inside the encoding of a character: its
    /// byte offset is a character boundary of the encoded text.
    pub proof fn lemma_on_char_boundary(&self)
        requires
            self.wf(),
        ensures
            is_char_boundary(encode_utf8(self.text()), self.byte_offset()),
            0 <= self.byte_offset() <= encode_utf8(self.text()).len(),
    {
        lemma_prefix_is_boundary(self.data@, self.position());
        lemma_prefix_increases(self.data@, self.position(), self.data@.len() as int);
        lemma_prefix_full(self.data@);
    }

    /// A move back undoes a move forward: from the place that a move forward
    /// has reached, a move back yields the character and the byte offset that
    /// the move forward yielded, and the two places are one character apart.
    pub proof fn lemma_back_undoes_forward(before: Self, after: Self)
        requires
            before.wf(),
            after.wf(),
            after.text() == before.text(),
            after.position() == before.position() + 1,
        ensures
            before.peek_spec() is Some,
            after.lookback_spec() == before.peek_spec(),
            after.byte_offset() == before.byte_offset() + char_width(
                before.text()[before.position()],
            ),
    {
        lemma_prefix_step(before.data@, before.position());
    }

    /// Round trip: where `places` are the places that a cursor passes on its
    /// way forward from the start of the text, one move apart, each move
    /// back from the last place yields what the move forward to that place
    /// yielded, so the moves back yield the same characters in reverse
    /// order; and the first place, where they end, is byte offset 0 on line 0.
    pub proof fn lemma_round_trip(places: Seq<Self>)
        requires
            places.len() > 0,
            forall|i: int|
                0 <= i < places.len() ==> (#[trigger] places[i]).wf() && places[i].text()
                    == places[0].text() && places[i].position() == i,
        ensures
            forall|i: int|
                0 <= i < places.len() - 1 ==> (#[trigger] places[i + 1]).lookback_spec()
                    == places[i].peek_spec() && places[i].peek_spec() is Some,
            places[0].lookback_spec() is None,
            places[0].byte_offset() == 0,
            places[0].line_count() == 0,
    {
        assert forall|i: int| 0 <= i < places.len() - 1 implies (#[trigger] places[i
            + 1]).lookback_spec() == places[i].peek_spec() && places[i].peek_spec() is Some by {
            assert(places[i].wf());
            Self::lemma_back_undoes_forward(places[i], places[i + 1]);
        }
        assert(places[0].wf());
        lemma_prefix_full(places[0].data@);
        assert(places[0].data@.take(0) =~= Seq::<char>::empty());
    }

    /// A cursor at the start of `data`.
    pub fn new(data: &'a str) -> (c: Self)
        ensures
            c.wf(),
            c.text() == data@,
            c.position() == 0,
            c.byte_offset() == 0,
            c.line_count() == 0,
    {
        // The length of `data` in bytes is a `usize`, so every offset into it is one too.
        let _ = byte_len(data);
        let c = Self { data, offset: 0, line: 0 };
        proof {
            lemma_prefix_full(data@);
            assert(data@.take(0) =~= Seq::<char>::empty());
            c.lemma_position(0);
        }
        c
    }

    /// The character ahead of the cursor and the byte offset at which it
    /// starts; nothing at the end of the text. The cursor stays where it is.
    pub fn peek(&self) -> (r: Option<(usize, char)>)
        requires
            self.wf(),
        ensures
            r == self.peek_spec(),
    {
        let rest = tail_from(self.data, self.offset, Ghost(self.position()));
        match first_char(rest) {
            Some(c) => Some((self.offset, c)),
            None => None,
        }
    }

    /// Moves over the character ahead and returns it with the byte offset at
    /// which it starts; at the end of the text nothing moves.
    pub fn next(&mut self) -> (r: Option<(usize, char)>)
        requires
            old(self).wf(),
        ensures
            final(self).wf(),
            final(self).text() == old(self).text(),
            r == old(self).peek_spec(),
            final(self).position() == old(self).position() + if r is Some {
                1int
            } else {
                0int
            },
            r is None ==> *final(self) == *old(self),
            r is Some ==> final(self).lookback_spec() == r,
    {
        match self.peek() {
            Some((pos, c)) => {
                proof {
                    let s = self.data@;
                    let k = self.position();
                    lemma_prefix_step(s, k);
                    lemma_newlines_step(s, k);
                    lemma_prefix_increases(s, k + 1, s.len() as int);
                    lemma_prefix_increases(s, 0, k + 1);
                    lemma_prefix_full(s);
                    lemma_newlines_bound(s.take(k + 1));
                }
                self.offset = self.offset + utf8_len(c);
                if is_newline(c) {
                    self.line = self.line + 1;
                }
                proof {
                    self.lemma_position(old(self).position() + 1);
                }
                Some((pos, c))
            },
            None => None,
        }
    }

    /// What `peek` returns: the character ahead and where it starts.
    pub open spec fn peek_spec(&self) -> Option<(usize, char)> {
        if self.position() < self.text().len() {
            Some((self.byte_offset() as usize, self.text()[self.position()]))
        } else {
            None
        }
    }

    /// What `lookback` returns: the character behind the cursor and where it starts.
    pub open spec fn lookback_spec(&self) -> Option<(usize, char)> {
        if 0 < self.position() {
            Some(
                (
                    prefix_bytes(self.text(), self.position() - 1) as usize,
                    self.text()[self.position() - 1],
                ),
            )
        } else {
            None
        }
    }

    /// The character behind the cursor and the byte offset at which it
    /// starts; nothing at the start of the text. The cursor stays where it is.
    pub fn lookback(&self) -> (r: Option<(usize, char)>)
        requires
            self.wf(),
        ensures
            r == self.lookback_spec(),
    {
        if self.offset == 0 {
            proof {
                self.lemma_position(0);
            }
            return None;
        }
        let ghost s = self.data@;
        let ghost k = self.position();
        proof {
            lemma_prefix_full(s);
            lemma_prefix_step(s, k - 1);
            lemma_char_width_bounds(s[k - 1]);
            lemma_prefix_is_boundary(s, k - 1);
        }
        let mut start: usize = self.offset - 1;
        while !self.data.is_char_boundary(start)
            invariant
                self.wf(),
                s == self.data@,
                k == self.position(),
                0 < k,
                prefix_bytes(s, k - 1) <= start < self.offset,
                is_char_boundary(encode_utf8(s), prefix_bytes(s, k - 1) as int),
            decreases start,
        {
            start = start - 1;
        }
        proof {
            if prefix_bytes(s, k - 1) < start {
                lemma_no_boundary_inside(s, k - 1, start as int);
            }
        }
        let rest = tail_from(self.data, start, Ghost(k - 1));
        match first_char(rest) {
            Some(c) => Some((start, c)),
            None => None,
        }
    }

    /// Moves back over the character behind the cursor and returns it with
    /// the byte offset at which it starts; at the start of the text nothing
    /// moves.
    pub fn prev(&mut self) -> (r: Option<(usize, char)>)
        requires
            old(self).wf(),
        ensures
            final(self).wf(),
            final(self).text() == old(self).text(),
            r == old(self).lookback_spec(),
            final(self).position() == old(self).position() - if r is Some {
                1int
            } else {
                0int
            },
            r is None ==> *final(self) == *old(self),
            r is Some ==> final(self).peek_spec() == r,
    {
        match self.lookback() {
            Some((start, c)) => {
                proof {
                    lemma_newlines_step(self.data@, self.position() - 1);
                    lemma_prefix_increases(self.data@, self.position() - 1, self.position());
                }
                self.offset = start;
                if is_newline(c) {
                    self.line = self.line - 1;
                }
                proof {
                    self.lemma_position(old(self).position() - 1);
                }
                Some((start, c))
            },
            None => None,
        }
    }

    /// Moves over the character ahead and returns it.
    pub fn next_char(&mut self) -> (r: Option<char>)
        requires
            old(self).wf(),
        ensures
            final(self).wf(),
            final(self).text() == old(self).text(),
            r == char_of(old(self).peek_spec()),
            final(self).position() == old(self).position() + if r is Some {
                1int
            } else {
                0int
            },
            r is None ==> *final(self) == *old(self),
    {
        match self.next() {
            Some((_, c)) => Some(c),
            None => None,
        }
    }

    /// Moves back over the character behind the cursor and returns it.
    pub fn prev_char(&mut self) -> (r: Option<char>)
        requires
            old(self).wf(),
        ensures
            final(self).wf(),
            final(self).text() == old(self).text(),
            r == char_of(old(self).lookback_spec()),
            final(self).position() == old(self).position() - if r is Some {
                1int
            } else {
                0int
            },
            r is None ==> *final(self) == *old(self),
    {
        match self.prev() {
            Some((_, c)) => Some(c),
            None => None,
        }
    }

    /// The character ahead of the cursor.
    pub fn peek_char(&self) -> (r: Option<char>)
        requires
            self.wf(),
        ensures
            r == char_of(self.peek_spec()),
    {
        match self.peek() {
            Some((_, c)) => Some(c),
            None => None,
        }
    }

    /// The character behind the cursor.
    pub fn lookback_char(&self) -> (r: Option<char>)
        requires
            self.wf(),
        ensures
            r == char_of(self.lookback_spec()),
    {
        match self.lookback() {
            Some((_, c)) => Some(c),
            None => None,
        }
    }

    /// Moves forward to the end of the run ahead: to the first character
    /// before which the run stops, or to the end of the text.
    fn scan_to(&mut self, stop: Stop)
        requires
            old(self).wf(),
        ensures
            final(self).wf(),
            final(self).text() == old(self).text(),
            old(self).position() <= final(self).position(),
            final(self).position() == run_end(old(self).text(), old(self).position(), stop),
            final(self).position() == old(self).position() ==> *final(self) == *old(self),
    {
        let mut done = false;
        while !done
            invariant
                self.wf(),
                self.text() == old(self).text(),
                old(self).position() <= self.position(),
                self.position() == old(self).position() ==> *self == *old(self),
                run_end(self.text(), self.position(), stop) == run_end(
                    old(self).text(),
                    old(self).position(),
                    stop,
                ),
                done ==> self.position() == run_end(self.text(), self.position(), stop),
            decreases self.text().len() - self.position() + if done {
                0int
            } else {
                1int
            },
        {
            match self.peek() {
                Some((_, c)) => {
                    if stops(stop, c) {
                        done = true;
                    } else {
                        self.next();
                    }
                },
                None => {
                    done = true;
                },
            }
        }
    }

    /// The slice that a scan hands out once it has run from `start` to the
    /// cursor: the characters it walked over, and the delimiter ahead of the
    /// cursor where there is one.
    fn scanned(&self, start: usize, Ghost(from): Ghost<int>) -> (r: &'a str)
        requires
            self.wf(),
            0 <= from <= self.position(),
            start == prefix_bytes(self.text(), from),
        ensures
            r@ == self.text().subrange(from, slice_end(self.text(), self.position())),
    {
        let ghost s = self.data@;
        let ghost k = self.position();
        let ghost to = slice_end(s, k);
        let end = match self.peek() {
            Some((_, c)) => {
                proof {
                    lemma_prefix_step(s, k);
                    lemma_prefix_increases(s, k + 1, s.len() as int);
                    lemma_prefix_full(s);
                }
                self.offset + utf8_len(c)
            },
            None => self.offset,
        };
        let head = head_to(self.data, end, Ghost(to));
        proof {
            assert(s.take(to).take(from) =~= s.take(from));
            assert(s.take(to).skip(from) =~= s.subrange(from, to));
        }
        tail_from(head, start, Ghost(from))
    }

    /// Scans the word ahead: moves to the first whitespace character or to
    /// the end of the text. Where that moved the cursor, returns the byte
    /// offset at which the scan began and the slice from there through the
    /// whitespace character that ended it, or to the end of the text.
    pub fn next_word(&mut self) -> (r: Option<(usize, &'a str)>)
        requires
            old(self).wf(),
        ensures
            final(self).wf(),
            final(self).text() == old(self).text(),
            final(self).position() == run_end(
                old(self).text(),
                old(self).position(),
                Stop::Whitespace,
            ),
            r is Some <==> old(self).position() < final(self).position(),
            r is None ==> *final(self) == *old(self),
            match r {
                Some((start, word)) => start == old(self).byte_offset() && word@ == old(
                    self,
                ).text().subrange(
                    old(self).position(),
                    slice_end(old(self).text(), final(self).position()),
                ),
                None => true,
            },
    {
        let start = self.offset;
        let ghost from = self.position();
        self.scan_to(Stop::Whitespace);
        if start < self.offset {
            proof {
                if self.position() == from {
                    assert(false);
                }
            }
            Some((start, self.scanned(start, Ghost(from))))
        } else {
            proof {
                if from < self.position() {
                    lemma_prefix_increases(self.data@, from, self.position());
                }
            }
            None
        }
    }

    /// Scans the line ahead: moves to the first `'\n'` or to the end of the
    /// text, and where that moved the cursor, over the `'\n'` too. Returns
    /// the byte offset at which the scan began and the slice from there
    /// through the `'\n'`, or to the end of the text; nothing, and no move,
    /// where the cursor stands on a `'\n'` or at the end.
    pub fn next_line(&mut self) -> (r: Option<(usize, &'a str)>)
        requires
            old(self).wf(),
        ensures
            final(self).wf(),
            final(self).text() == old(self).text(),
            r is Some <==> old(self).position() < run_end(
                old(self).text(),
                old(self).position(),
                Stop::Newline,
            ),
            r is None ==> *final(self) == *old(self),
            r is Some ==> final(self).position() == slice_end(
                old(self).text(),
                run_end(old(self).text(), old(self).position(), Stop::Newline),
            ),
            match r {
                Some((start, line)) => start == old(self).byte_offset() && line@ == old(
                    self,
                ).text().subrange(old(self).position(), final(self).position()),
                None => true,
            },
    {
        let start = self.offset;
        let ghost from = self.position();
        self.scan_to(Stop::Newline);
        if start < self.offset {
            proof {
                if self.position() == from {
                    assert(false);
                }
            }
            let line = self.scanned(start, Ghost(from));
            self.next();
            Some((start, line))
        } else {
            proof {
                if from < self.position() {
                    lemma_prefix_increases(self.data@, from, self.position());
                }
            }
            None
        }
    }

    /// Moves over the whitespace ahead: to the first character that is not
    /// whitespace, or to the end of the text.
    pub fn skip_whitespace(&mut self)
        requires
            old(self).wf(),
        ensures
            final(self).wf(),
            final(self).text() == old(self).text(),
            final(self).position() == run_end(
                old(self).text(),
                old(self).position(),
                Stop::NonWhitespace,
            ),
    {
        self.scan_to(Stop::NonWhitespace);
    }

    /// A pass over the words ahead of the cursor.
    pub fn words(&mut self) -> (w: CursorWords<'a, '_, false>)
        ensures
            *w.cursor == *old(self),
            *final(w.cursor) == *final(self),
    {
        CursorWords::<false>::new(self)
    }

    /// A pass over the words ahead of the cursor that numbers their lines.
    pub fn words_with_lines(&mut self) -> (w: CursorWords<'a, '_, true>)
        ensures
            *w.cursor == *old(self),
            *final(w.cursor) == *final(self),
    {
        CursorWords::<true>::with_lines(self)
    }

    /// A pass over the lines ahead of the cursor.
    pub fn lines(&mut self) -> (w: CursorLines<'a, '_>)
        ensures
            *w.cursor == *old(self),
            *final(w.cursor) == *final(self),
    {
        CursorLines::new(self)
    }

    /// Walks to the end of the text and returns each character on the way
    /// with the byte offset at which it starts.
    pub fn collect(self) -> (v: Vec<(usize, char)>)
        requires
            self.wf(),
        ensures
            v@.len() == self.text().len() - self.position(),
            forall|i: int|
                0 <= i < v@.len() ==> #[trigger] v@[i] == (
                    prefix_bytes(self.text(), self.position() + i) as usize,
                    self.text()[self.position() + i],
                ),
    {
        let mut cursor = self;
        let mut v: Vec<(usize, char)> = Vec::new();
        let mut done = false;
        while !done
            invariant
                cursor.wf(),
                cursor.text() == self.text(),
                self.position() <= cursor.position(),
                v@.len() == cursor.position() - self.position(),
                done ==> cursor.position() == cursor.text().len(),
                forall|i: int|
                    0 <= i < v@.len() ==> #[trigger] v@[i] == (
                        prefix_bytes(self.text(), self.position() + i) as usize,
                        self.text()[self.position() + i],
                    ),
            decreases cursor.text().len() - cursor.position() + if done {
                0int
            } else {
                1int
            },
        {
            match cursor.next() {
                Some(item) => {
                    v.push(item);
                },
                None => {
                    done = true;
                },
            }
        }
        v
    }

    /// The number of newlines behind the cursor.
    pub fn line(&self) -> (n: usize)
        requires
            self.wf(),
        ensures
            n == self.line_count(),
            n == newlines(self.text().take(self.position())),
    {
        self.line
    }
}

/// The character of a pair of byte offset and character.
pub open spec fn char_of(item: Option<(usize, char)>) -> Option<char> {
    match item {
        Some((_, c)) => Some(c),
        None => None,
    }
}

/// Whether a run with the given end stops before `c`.
fn stops(stop: Stop, c: char) -> (b: bool)
    ensures
        b == stops_at(stop, c),
{
    match stop {
        Stop::Whitespace => c.is_whitespace(),
        Stop::NonWhitespace => !c.is_whitespace(),
        Stop::Newline => is_newline(c),
    }
}

} // verus!
