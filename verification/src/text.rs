//! Text documents: what a rope holds, and how it divides into lines.
//!
//! A document is a [`ropey::Rope`]. Contracts speak of the characters that it
//! holds, [`rope_chars`], and of their division into [`lines`]. The crate is
//! built without ropey's `cr_lines` and `unicode_lines` features, so a line
//! ends after a line feed and nowhere else.

use ropey::{Rope, RopeSlice};
use vstd::prelude::*;

verus! {

/// Declares [`ropey::Rope`].
#[verifier::external_type_specification]
#[verifier::external_body]
pub struct ExRope(ropey::Rope);

/// Declares [`ropey::RopeSlice`].
#[verifier::external_type_specification]
#[verifier::external_body]
pub struct ExRopeSlice<'a>(ropey::RopeSlice<'a>);

/// The characters that a rope holds, in order.
pub uninterp spec fn rope_chars(rope: ropey::Rope) -> Seq<char>;

/// The characters that a slice of a rope spans, in order.
pub uninterp spec fn slice_chars(part: ropey::RopeSlice<'_>) -> Seq<char>;

/// The texts of a list of slices.
pub open spec fn slice_texts(parts: Seq<RopeSlice<'_>>) -> Seq<Seq<char>> {
    parts.map_values(|part: RopeSlice<'_>| slice_chars(part))
}

// ── Lines ────────────────────────────────────────────────────────────────────

/// The lines of a text, each with the line feed that ends it.
///
/// There is always a last line without a line feed; it is empty when the text
/// is empty or ends in a line feed.
pub open spec fn lines(text: Seq<char>) -> Seq<Seq<char>>
    decreases text.len(),
{
    if text.len() == 0 {
        seq![Seq::<char>::empty()]
    } else {
        let before = lines(text.drop_last());
        let grown = before.update(before.len() - 1, before.last().push(text.last()));
        if text.last() == '\n' {
            grown.push(Seq::empty())
        } else {
            grown
        }
    }
}

/// The position at which line `k` starts: the total length of the lines before it.
pub open spec fn line_start(lines: Seq<Seq<char>>, k: int) -> int
    decreases k,
{
    if k <= 0 {
        0
    } else {
        line_start(lines, k - 1) + lines[k - 1].len()
    }
}

/// How many line feeds a text holds.
pub open spec fn breaks(text: Seq<char>) -> nat
    decreases text.len(),
{
    if text.len() == 0 {
        0
    } else {
        breaks(text.drop_last()) + if text.last() == '\n' {
            1nat
        } else {
            0nat
        }
    }
}

/// The number of the line that holds position `pos`: the line feeds before it.
pub open spec fn line_of(text: Seq<char>, pos: int) -> int {
    breaks(text.take(pos)) as int
}

/// The position just past the line that holds position `pos`.
pub open spec fn line_end(text: Seq<char>, pos: int) -> int {
    line_start(lines(text), line_of(text, pos) + 1)
}

// ── What the document type provides ──────────────────────────────────────────

/// [`ropey::Rope::len_chars`] counts the characters of the rope.
pub assume_specification[ ropey::Rope::len_chars ](rope: &Rope) -> (n: usize)
    ensures
        n == rope_chars(*rope).len(),
;

/// [`ropey::Rope::char`] returns the character at a position inside the rope.
pub assume_specification[ ropey::Rope::char ](rope: &Rope, char_idx: usize) -> (c: char)
    requires
        char_idx < rope_chars(*rope).len(),
    ensures
        c == rope_chars(*rope)[char_idx as int],
;

/// [`ropey::Rope::char_to_line`] counts the line feeds before a position, which
/// may be the one just past the end.
pub assume_specification[ ropey::Rope::char_to_line ](rope: &Rope, char_idx: usize) -> (line: usize)
    requires
        char_idx <= rope_chars(*rope).len(),
    ensures
        line == line_of(rope_chars(*rope), char_idx as int),
;

/// [`ropey::Rope::line_to_char`] returns the position at which a line starts; for
/// the number just past the last line that is the length of the rope.
pub assume_specification[ ropey::Rope::line_to_char ](rope: &Rope, line_idx: usize) -> (pos: usize)
    requires
        line_idx <= lines(rope_chars(*rope)).len(),
    ensures
        pos == line_start(lines(rope_chars(*rope)), line_idx as int),
;

/// [`ropey::Rope::lines`] yields the lines of the rope, in order.
#[verifier::external_body]
pub(crate) fn rope_lines(text: &Rope) -> (parts: Vec<RopeSlice<'_>>)
    ensures
        slice_texts(parts@) == lines(rope_chars(*text)),
{
    text.lines().collect()
}

/// [`ropey::Rope::slice`] takes the characters from `start` up to `end`.
#[verifier::external_body]
pub(crate) fn slice(text: &Rope, start: usize, end: usize) -> (part: RopeSlice<'_>)
    requires
        start <= end <= rope_chars(*text).len(),
    ensures
        slice_chars(part) == rope_chars(*text).subrange(start as int, end as int),
{
    text.slice(start..end)
}

/// [`ropey::RopeSlice::lines`] yields the lines of the slice, as if its text were
/// the whole document.
#[verifier::external_body]
pub(crate) fn slice_lines<'a>(part: RopeSlice<'a>) -> (parts: Vec<RopeSlice<'a>>)
    ensures
        slice_texts(parts@) == lines(slice_chars(part)),
{
    part.lines().collect()
}

/// [`ropey::RopeSlice::chars`] yields the characters of the slice, in order.
#[verifier::external_body]
pub(crate) fn slice_to_chars(part: RopeSlice<'_>) -> (chars: Vec<char>)
    ensures
        chars@ == slice_chars(part),
{
    part.chars().collect()
}

/// The `Display` impl of [`ropey::RopeSlice`] writes the characters of the slice.
#[verifier::external_body]
pub(crate) fn slice_to_string(part: RopeSlice<'_>) -> (s: String)
    ensures
        s@ == slice_chars(part),
{
    part.to_string()
}

// ── Facts about lines ────────────────────────────────────────────────────────

/// A text has one line more than line feeds.
pub proof fn lemma_lines_len(text: Seq<char>)
    ensures
        lines(text).len() == breaks(text) + 1,
    decreases text.len(),
{
    if text.len() > 0 {
        lemma_lines_len(text.drop_last());
    }
}

/// A text has no more line feeds than characters.
pub proof fn lemma_breaks_bound(text: Seq<char>)
    ensures
        breaks(text) <= text.len(),
    decreases text.len(),
{
    if text.len() > 0 {
        lemma_breaks_bound(text.drop_last());
    }
}

/// A position in a text is on one of its lines.
pub proof fn lemma_line_of_in_lines(text: Seq<char>, pos: int)
    requires
        0 <= pos <= text.len(),
    ensures
        0 <= line_of(text, pos) < lines(text).len(),
    decreases text.len(),
{
    lemma_lines_len(text);
    if pos < text.len() {
        lemma_line_of_in_lines(text.drop_last(), pos);
        lemma_lines_len(text.drop_last());
        assert(text.drop_last().take(pos) =~= text.take(pos));
    } else {
        assert(text.take(pos) =~= text);
    }
}

/// Every line but the last ends in its only line feed; the last has none.
pub proof fn lemma_lines_shape(text: Seq<char>)
    ensures
        lines(text).len() >= 1,
        forall|k: int|
            #![trigger lines(text)[k]]
            0 <= k < lines(text).len() - 1 ==> {
                &&& lines(text)[k].len() > 0
                &&& lines(text)[k].last() == '\n'
            },
        forall|k: int, i: int|
            #![trigger lines(text)[k][i]]
            0 <= k < lines(text).len() && 0 <= i < lines(text)[k].len() && lines(text)[k][i] == '\n'
                ==> k < lines(text).len() - 1 && i == lines(text)[k].len() - 1,
    decreases text.len(),
{
    if text.len() > 0 {
        let front = text.drop_last();
        lemma_lines_shape(front);
        let before = lines(front);
        let n = before.len() as int;
        assert forall|k: int| 0 <= k < lines(text).len() - 1 implies {
            &&& (#[trigger] lines(text)[k]).len() > 0
            &&& lines(text)[k].last() == '\n'
        } by {
            if k < n - 1 {
                assert(lines(text)[k] == before[k]);
            }
        }
        assert forall|k: int, i: int|
            0 <= k < lines(text).len() && 0 <= i < lines(text)[k].len()
                && #[trigger] lines(text)[k][i] == '\n' implies k < lines(text).len() - 1 && i
            == lines(text)[k].len() - 1 by {
            if k < n - 1 {
                assert(lines(text)[k] == before[k]);
                assert(before[k][i] == '\n');
            } else if k == n - 1 {
                if i < before[k].len() {
                    assert(before[k][i] == '\n');
                }
            }
        }
    }
}

/// Lines start in order.
pub proof fn lemma_line_start_monotone(lines: Seq<Seq<char>>, i: int, j: int)
    requires
        0 <= i <= j,
    ensures
        0 <= line_start(lines, i) <= line_start(lines, j),
    decreases j,
{
    if i < j {
        lemma_line_start_monotone(lines, i, j - 1);
    } else if 0 < i {
        lemma_line_start_monotone(lines, i - 1, j - 1);
    }
}

/// Where a line starts depends on the lines before it alone.
pub proof fn lemma_line_start_prefix(a: Seq<Seq<char>>, b: Seq<Seq<char>>, k: int)
    requires
        forall|i: int| 0 <= i < k ==> (#[trigger] a[i]).len() == b[i].len(),
    ensures
        line_start(a, k) == line_start(b, k),
    decreases k,
{
    if k > 0 {
        lemma_line_start_prefix(a, b, k - 1);
    }
}

/// The lines of a text are as long together as the text.
pub proof fn lemma_lines_total(text: Seq<char>)
    ensures
        line_start(lines(text), lines(text).len() as int) == text.len(),
    decreases text.len(),
{
    let all = lines(text);
    if text.len() == 0 {
        assert(line_start(all, 1) == line_start(all, 0) + all[0].len());
    } else {
        let before = lines(text.drop_last());
        let n = before.len() as int;
        lemma_lines_total(text.drop_last());
        lemma_lines_len(text.drop_last());
        lemma_line_start_prefix(all, before, n - 1);
        assert(line_start(all, n) == line_start(all, n - 1) + all[n - 1].len());
        if text.last() == '\n' {
            assert(line_start(all, n + 1) == line_start(all, n) + all[n].len());
        }
    }
}

/// A line is the text from where it starts to where the next one does.
pub proof fn lemma_line_text(text: Seq<char>, k: int)
    requires
        0 <= k < lines(text).len(),
    ensures
        0 <= line_start(lines(text), k) <= line_start(lines(text), k + 1) <= text.len(),
        lines(text)[k] == text.subrange(
            line_start(lines(text), k),
            line_start(lines(text), k + 1),
        ),
    decreases text.len(),
{
    let all = lines(text);
    lemma_lines_total(text);
    lemma_line_start_monotone(all, k, k + 1);
    lemma_line_start_monotone(all, k + 1, all.len() as int);
    if text.len() > 0 {
        let front = text.drop_last();
        let before = lines(front);
        let n = before.len() as int;
        lemma_lines_len(front);
        if k < n {
            lemma_line_text(front, k);
            lemma_line_start_prefix(all, before, k);
            if k < n - 1 {
                lemma_line_start_prefix(all, before, k + 1);
            } else {
                lemma_lines_total(front);
            }
        }
    }
    assert(all[k] =~= text.subrange(line_start(all, k), line_start(all, k + 1)));
}

/// A position between the start of a line and the start of the next is on that line.
pub proof fn lemma_line_of(text: Seq<char>, k: int, pos: int)
    requires
        0 <= k < lines(text).len(),
        line_start(lines(text), k) <= pos,
        pos < line_start(lines(text), k + 1) || (k == lines(text).len() - 1 && pos == text.len()),
    ensures
        line_of(text, pos) == k,
    decreases text.len(),
{
    let all = lines(text);
    lemma_lines_len(text);
    lemma_lines_total(text);
    lemma_line_text(text, k);
    if pos == text.len() {
        assert(text.take(pos) =~= text);
        if k < all.len() - 1 {
            lemma_line_start_monotone(all, k + 1, all.len() as int);
        }
    } else {
        let front = text.drop_last();
        let before = lines(front);
        let n = before.len() as int;
        lemma_lines_len(front);
        lemma_lines_total(front);
        assert(front.take(pos) =~= text.take(pos));
        if k < n - 1 {
            lemma_line_start_prefix(all, before, k);
            lemma_line_start_prefix(all, before, k + 1);
            lemma_line_of(front, k, pos);
        } else if k == n - 1 {
            lemma_line_start_prefix(all, before, k);
            lemma_line_of(front, k, pos);
        }
    }
}

/// The lines of a text that ends in a line feed, followed by more text, are the
/// lines of the first and the lines of the second.
pub proof fn lemma_lines_append(a: Seq<char>, b: Seq<char>)
    requires
        a.len() > 0,
        a.last() == '\n',
    ensures
        lines(a + b) == lines(a).drop_last() + lines(b),
    decreases b.len(),
{
    if b.len() == 0 {
        assert(a + b =~= a);
        assert(lines(a) =~= lines(a).drop_last() + lines(b));
    } else {
        lemma_lines_append(a, b.drop_last());
        lemma_lines_len(b.drop_last());
        assert((a + b).drop_last() =~= a + b.drop_last());
        assert((a + b).last() == b.last());
        assert(lines(a + b) =~= lines(a).drop_last() + lines(b));
    }
}

/// A text with no line feed but at its end is its own first line.
pub proof fn lemma_single_line(text: Seq<char>)
    requires
        forall|i: int| 0 <= i < text.len() - 1 ==> #[trigger] text[i] != '\n',
    ensures
        text.len() > 0 && text.last() == '\n' ==> lines(text) == seq![text, Seq::empty()],
        text.len() == 0 || text.last() != '\n' ==> lines(text) == seq![text],
    decreases text.len(),
{
    if text.len() > 0 {
        let front = text.drop_last();
        assert(forall|i: int| 0 <= i < front.len() ==> #[trigger] front[i] == text[i]);
        lemma_single_line(front);
        assert(front.len() > 0 ==> front.last() == text[front.len() - 1]);
        assert(front.push(text.last()) =~= text);
        if text.last() == '\n' {
            assert(lines(text) =~= seq![text, Seq::empty()]);
        } else {
            assert(lines(text) =~= seq![text]);
        }
    } else {
        assert(text =~= Seq::<char>::empty());
    }
}

} // verus!
