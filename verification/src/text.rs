//! The mathematical model of text: characters, the bytes that encode them,
//! newlines, and the runs of characters that scans walk over.

use vstd::prelude::*;
use vstd::string::*;
use vstd::utf8::*;

verus! {

/// Number of bytes in the UTF-8 encoding of `c`.
pub open spec fn char_width(c: char) -> nat {
    encode_scalar(c as u32).len()
}

/// Number of bytes in the UTF-8 encoding of the first `k` characters of `s`:
/// the byte offset at which character `k` starts.
pub open spec fn prefix_bytes(s: Seq<char>, k: int) -> nat {
    encode_utf8(s.take(k)).len()
}

/// Number of `'\n'` characters in `s`.
pub open spec fn newlines(s: Seq<char>) -> nat
    decreases s.len(),
{
    if s.len() == 0 {
        0
    } else {
        newlines(s.drop_last()) + if s.last() == '\n' {
            1nat
        } else {
            0nat
        }
    }
}

/// Whether `c` is whitespace as Unicode classifies it (`White_Space`), which is
/// what `char::is_whitespace` reports.
pub uninterp spec fn is_whitespace_char(c: char) -> bool;

/// `char::is_whitespace`: the result depends on the character alone and is
/// the value that `is_whitespace_char` names.
pub assume_specification[ char::is_whitespace ](c: char) -> (b: bool)
    ensures
        b == is_whitespace_char(c),
;

/// The number of bytes that `c` takes when it is encoded as UTF-8.
pub fn utf8_len(c: char) -> (n: usize)
    ensures
        n == char_width(c),
        1 <= n <= 4,
{
    let code = c as u32;
    if code < 0x80 {
        1
    } else if code < 0x800 {
        2
    } else if code < 0x10000 {
        3
    } else {
        4
    }
}

/// Whether `c` ends a line.
pub fn is_newline(c: char) -> (b: bool)
    ensures
        b == (c == '\n'),
{
    c == '\n'
}

/// What ends a run of characters.
#[derive(Clone, Copy, Debug, PartialEq, Eq, Structural)]
pub enum Stop {
    /// The run ends before the first whitespace character.
    Whitespace,
    /// The run ends before the first character that is not whitespace.
    NonWhitespace,
    /// The run ends before the first `'\n'`.
    Newline,
}

/// Whether a run with the given end stops before `c`.
pub open spec fn stops_at(stop: Stop, c: char) -> bool {
    match stop {
        Stop::Whitespace => is_whitespace_char(c),
        Stop::NonWhitespace => !is_whitespace_char(c),
        Stop::Newline => c == '\n',
    }
}

/// Index of the first character at or after `k` before which a run stops,
/// or the length of `s` when there is none.
pub open spec fn run_end(s: Seq<char>, k: int, stop: Stop) -> int
    decreases s.len() - k,
{
    if k >= s.len() {
        s.len() as int
    } else if stops_at(stop, s[k]) {
        k
    } else {
        run_end(s, k + 1, stop)
    }
}

/// Index one past the last character of the slice that a scan hands out when
/// its run ends at `end`: the delimiter at `end` belongs to the slice where
/// there is one, and at the end of the text nothing is added.
pub open spec fn slice_end(s: Seq<char>, end: int) -> int {
    if end < s.len() {
        end + 1
    } else {
        end
    }
}

/// A run ends at or after its start and within the text, no character of it
/// stops it, and the character at its end, if there is one, does.
pub proof fn lemma_run_end(s: Seq<char>, k: int, stop: Stop)
    requires
        0 <= k <= s.len(),
    ensures
        k <= run_end(s, k, stop) <= s.len(),
        forall|i: int| k <= i < run_end(s, k, stop) ==> !stops_at(stop, #[trigger] s[i]),
        run_end(s, k, stop) < s.len() ==> stops_at(stop, s[run_end(s, k, stop)]),
    decreases s.len() - k,
{
    if k < s.len() && !stops_at(stop, s[k]) {
        lemma_run_end(s, k + 1, stop);
    }
}

/// Every character is encoded in one to four bytes.
pub proof fn lemma_char_width_bounds(c: char)
    ensures
        1 <= char_width(c) <= 4,
{
}

/// Encoding a concatenation gives the concatenation of the encodings.
pub proof fn lemma_encode_concat(a: Seq<char>, b: Seq<char>)
    ensures
        encode_utf8(a + b) == encode_utf8(a) + encode_utf8(b),
    decreases a.len(),
{
    if a.len() == 0 {
        assert(a + b =~= b);
        assert(encode_utf8(a) + encode_utf8(b) =~= encode_utf8(b));
    } else {
        assert((a + b).drop_first() =~= a.drop_first() + b);
        lemma_encode_concat(a.drop_first(), b);
        assert(encode_utf8(a + b) =~= encode_utf8(a) + encode_utf8(b));
    }
}

/// The encoding of a single character.
pub proof fn lemma_encode_single(c: char)
    ensures
        encode_utf8(seq![c]) == encode_scalar(c as u32),
{
    let s = seq![c];
    assert(s.drop_first() =~= Seq::<char>::empty());
    assert(encode_utf8(s.drop_first()) =~= Seq::<u8>::empty());
    assert(encode_utf8(s) =~= encode_scalar(c as u32));
}

/// Character `k` starts where the first `k` characters end, and takes
/// `char_width` bytes.
pub proof fn lemma_prefix_step(s: Seq<char>, k: int)
    requires
        0 <= k < s.len(),
    ensures
        prefix_bytes(s, k + 1) == prefix_bytes(s, k) + char_width(s[k]),
{
    assert(s.take(k + 1) =~= s.take(k) + seq![s[k]]);
    lemma_encode_concat(s.take(k), seq![s[k]]);
    lemma_encode_single(s[k]);
}

/// The whole text is its own longest prefix.
pub proof fn lemma_prefix_full(s: Seq<char>)
    ensures
        prefix_bytes(s, 0) == 0,
        prefix_bytes(s, s.len() as int) == encode_utf8(s).len(),
{
    assert(s.take(s.len() as int) =~= s);
    assert(s.take(0) =~= Seq::<char>::empty());
}

/// A text takes at least one byte for each of its characters.
pub proof fn lemma_encode_len(s: Seq<char>)
    ensures
        s.len() <= encode_utf8(s).len(),
    decreases s.len(),
{
    if s.len() > 0 {
        lemma_char_width_bounds(s[0]);
        lemma_encode_len(s.drop_first());
    }
}

/// Later characters start at greater byte offsets.
pub proof fn lemma_prefix_increases(s: Seq<char>, i: int, j: int)
    requires
        0 <= i <= j <= s.len(),
    ensures
        prefix_bytes(s, i) + (j - i) <= prefix_bytes(s, j),
{
    assert(s.take(j) =~= s.take(i) + s.subrange(i, j));
    lemma_encode_concat(s.take(i), s.subrange(i, j));
    lemma_encode_len(s.subrange(i, j));
}

/// A text has no more newlines than characters.
pub proof fn lemma_newlines_bound(s: Seq<char>)
    ensures
        newlines(s) <= s.len(),
    decreases s.len(),
{
    if s.len() > 0 {
        lemma_newlines_bound(s.drop_last());
    }
}

/// Taking one character more adds one newline exactly when that character is `'\n'`.
pub proof fn lemma_newlines_step(s: Seq<char>, k: int)
    requires
        0 <= k < s.len(),
    ensures
        newlines(s.take(k + 1)) == newlines(s.take(k)) + if s[k] == '\n' {
            1nat
        } else {
            0nat
        },
{
    assert(s.take(k + 1).drop_last() =~= s.take(k));
}

/// The start of every character is a character boundary of the encoded text.
pub proof fn lemma_prefix_is_boundary(s: Seq<char>, k: int)
    requires
        0 <= k <= s.len(),
    ensures
        is_char_boundary(encode_utf8(s), prefix_bytes(s, k) as int),
    decreases k,
{
    broadcast use encode_utf8_valid_utf8;

    lemma_prefix_full(s);
    if k > 0 {
        let bytes = encode_utf8(s);
        let rest = s.drop_first();
        encode_utf8_first_scalar(s);
        assert(pop_first_scalar(bytes) =~= encode_utf8(rest));
        lemma_prefix_is_boundary(rest, k - 1);
        assert(s.take(k).drop_first() =~= rest.take(k - 1));
        assert(prefix_bytes(s, k) == char_width(s[0]) + prefix_bytes(rest, k - 1));
        lemma_prefix_increases(s, k, s.len() as int);
        lemma_char_width_bounds(s[0]);
    }
}

/// No character boundary lies strictly inside the encoding of a character.
pub proof fn lemma_no_boundary_inside(s: Seq<char>, k: int, i: int)
    requires
        0 <= k < s.len(),
        prefix_bytes(s, k) < i < prefix_bytes(s, k + 1),
    ensures
        !is_char_boundary(encode_utf8(s), i),
    decreases k,
{
    broadcast use encode_utf8_valid_utf8;

    let bytes = encode_utf8(s);
    let rest = s.drop_first();
    let w = char_width(s[0]) as int;
    encode_utf8_first_scalar(s);
    assert(pop_first_scalar(bytes) =~= encode_utf8(rest));
    lemma_prefix_full(s);
    if i <= bytes.len() {
        if k == 0 {
            lemma_prefix_step(s, 0);
            assert(!is_char_boundary(encode_utf8(rest), i - w));
        } else {
            assert(s.take(k).drop_first() =~= rest.take(k - 1));
            assert(s.take(k + 1).drop_first() =~= rest.take(k));
            assert(prefix_bytes(s, k) == w + prefix_bytes(rest, k - 1));
            assert(prefix_bytes(s, k + 1) == w + prefix_bytes(rest, k));
            lemma_no_boundary_inside(rest, k - 1, i - w);
        }
        assert(is_char_boundary(bytes, i) == is_char_boundary(pop_first_scalar(bytes), i - w));
    }
}

/// The part of `data` from character `k` on, which starts at byte `offset`.
pub(crate) fn tail_from<'a>(data: &'a str, offset: usize, Ghost(k): Ghost<int>) -> (rest: &'a str)
    requires
        0 <= k <= data@.len(),
        offset == prefix_bytes(data@, k),
    ensures
        rest@ == data@.skip(k),
{
    broadcast use {encode_utf8_valid_utf8, encode_utf8_decode_utf8};

    proof {
        lemma_prefix_is_boundary(data@, k);
    }
    let (_, rest) = data.split_at(offset);
    proof {
        assert(data@ =~= data@.take(k) + data@.skip(k));
        lemma_encode_concat(data@.take(k), data@.skip(k));
        assert(encode_utf8(rest@) =~= encode_utf8(data@.skip(k)));
        assert(decode_utf8(encode_utf8(rest@)) == rest@);
        assert(decode_utf8(encode_utf8(data@.skip(k))) == data@.skip(k));
    }
    rest
}

/// The first `k` characters of `data`, which end at byte `offset`.
pub(crate) fn head_to<'a>(data: &'a str, offset: usize, Ghost(k): Ghost<int>) -> (head: &'a str)
    requires
        0 <= k <= data@.len(),
        offset == prefix_bytes(data@, k),
    ensures
        head@ == data@.take(k),
{
    broadcast use {encode_utf8_valid_utf8, encode_utf8_decode_utf8};

    proof {
        lemma_prefix_is_boundary(data@, k);
    }
    let (head, _) = data.split_at(offset);
    proof {
        assert(data@ =~= data@.take(k) + data@.skip(k));
        lemma_encode_concat(data@.take(k), data@.skip(k));
        assert(encode_utf8(head@) =~= encode_utf8(data@.take(k)));
        assert(decode_utf8(encode_utf8(head@)) == head@);
        assert(decode_utf8(encode_utf8(data@.take(k))) == data@.take(k));
    }
    head
}

/// The number of bytes that encode `data`.
pub(crate) fn byte_len(data: &str) -> (n: usize)
    ensures
        n == encode_utf8(data@).len(),
{
    data.as_bytes().len()
}

/// The first character of `s`, if it has one.
pub(crate) fn first_char(s: &str) -> (r: Option<char>)
    ensures
        s@.len() == 0 ==> r is None,
        s@.len() > 0 ==> r == Some(s@[0]),
{
    broadcast use {axiom_spec_iter, next_postcondition};

    let mut chars = s.chars();
    chars.next()
}

} // verus!
