//! Dividing text into tokens: lines, words, single characters.

use crate::text::{rope_chars, slice, slice_to_chars};
use ropey::Rope;
use std::ops::Range;
use vstd::prelude::*;

verus! {

// ── Spans ────────────────────────────────────────────────────────────────────

/// A half-open range of positions, as contracts speak of it.
pub struct Span {
    pub start: int,
    pub end: int,
}

/// What a range stands for.
pub open spec fn span(range: Range<usize>) -> Span {
    Span { start: range.start as int, end: range.end as int }
}

/// What a list of ranges stands for.
pub open spec fn spans(ranges: Seq<Range<usize>>) -> Seq<Span> {
    ranges.map_values(|range: Range<usize>| span(range))
}

/// The text in a span.
pub open spec fn span_text(text: Seq<char>, s: Span) -> Seq<char> {
    text.subrange(s.start, s.end)
}

/// The texts in a list of spans.
pub open spec fn span_texts(text: Seq<char>, list: Seq<Span>) -> Seq<Seq<char>> {
    list.map_values(|s: Span| span_text(text, s))
}

/// Whether spans are non-empty, in order, apart from each other or touching, and
/// inside `within`.
pub open spec fn ordered_within(list: Seq<Span>, within: Span) -> bool {
    &&& forall|i: int|
        0 <= i < list.len() ==> within.start <= (#[trigger] list[i]).start < list[i].end
            <= within.end
    &&& forall|i: int, j: int| 0 <= i < j < list.len() ==> list[i].end <= list[j].start
}

/// Whether spans are in order and apart from each other.
pub open spec fn apart(list: Seq<Span>) -> bool {
    forall|i: int, j: int| 0 <= i < j < list.len() ==> list[i].end < list[j].start
}

/// Appending to a list of ranges appends to what it stands for.
pub proof fn lemma_spans_push(ranges: Seq<Range<usize>>, range: Range<usize>)
    ensures
        spans(ranges.push(range)) == spans(ranges).push(span(range)),
{
    assert(spans(ranges.push(range)) =~= spans(ranges).push(span(range)));
}

// ── Characters ───────────────────────────────────────────────────────────────

/// The characters with the Unicode property `White_Space`.
pub open spec fn is_white_space(c: char) -> bool {
    ||| '\u{9}' <= c <= '\u{d}'
    ||| c == ' '
    ||| c == '\u{85}'
    ||| c == '\u{a0}'
    ||| c == '\u{1680}'
    ||| '\u{2000}' <= c <= '\u{200a}'
    ||| c == '\u{2028}'
    ||| c == '\u{2029}'
    ||| c == '\u{202f}'
    ||| c == '\u{205f}'
    ||| c == '\u{3000}'
}

/// [`char::is_whitespace`] tells whether a character has the Unicode property
/// `White_Space`.
pub assume_specification[ char::is_whitespace ](c: char) -> (white: bool)
    ensures
        white == is_white_space(c),
;

/// Whether a character is part of a word: an ASCII letter or digit, or any
/// character outside ASCII. The underscore is none, so that `snake_case` is two
/// words.
pub open spec fn is_word(c: char) -> bool {
    ||| 'a' <= c <= 'z'
    ||| 'A' <= c <= 'Z'
    ||| '0' <= c <= '9'
    ||| c > '\u{7f}'
}

/// Decides whether a character is part of a word.
pub fn is_word_char(c: char) -> (word: bool)
    ensures
        word == is_word(c),
{
    ('a' <= c && c <= 'z') || ('A' <= c && c <= 'Z') || ('0' <= c && c <= '9') || c > '\u{7f}'
}

/// Which characters make up a run.
#[derive(Debug, Clone, Copy, PartialEq, Eq, Structural)]
pub enum CharClass {
    /// Word characters.
    Word,
    /// All characters but white space.
    Visible,
}

impl CharClass {
    /// Whether a character is of this class.
    pub open spec fn admits(self, c: char) -> bool {
        match self {
            CharClass::Word => is_word(c),
            CharClass::Visible => !is_white_space(c),
        }
    }

    /// Decides whether a character is of this class.
    fn check(self, c: char) -> (admitted: bool)
        ensures
            admitted == self.admits(c),
    {
        match self {
            CharClass::Word => is_word_char(c),
            CharClass::Visible => !c.is_whitespace(),
        }
    }
}

// ── Token models ─────────────────────────────────────────────────────────────

/// The maximal runs of characters of a class between `from` and `to`.
pub open spec fn runs(text: Seq<char>, from: int, to: int, class: CharClass) -> Seq<Span>
    decreases to - from,
{
    if to <= from {
        Seq::empty()
    } else {
        let before = runs(text, from, to - 1, class);
        if !class.admits(text[to - 1]) {
            before
        } else if before.len() > 0 && before.last().end == to - 1 {
            before.drop_last().push(Span { start: before.last().start, end: to })
        } else {
            before.push(Span { start: to - 1, end: to })
        }
    }
}

/// The lines between `from` and `to`, each with the line feed that ends it. The
/// last may end without one; there is no empty line.
pub open spec fn line_spans(text: Seq<char>, from: int, to: int) -> Seq<Span>
    decreases to - from,
{
    if to <= from {
        Seq::empty()
    } else {
        let before = line_spans(text, from, to - 1);
        if to - 1 > from && text[to - 2] != '\n' {
            before.drop_last().push(Span { start: before.last().start, end: to })
        } else {
            before.push(Span { start: to - 1, end: to })
        }
    }
}

/// The single characters between `from` and `to` that are not part of a word.
pub open spec fn nonword_spans(text: Seq<char>, from: int, to: int) -> Seq<Span>
    decreases to - from,
{
    if to <= from {
        Seq::empty()
    } else {
        let before = nonword_spans(text, from, to - 1);
        if is_word(text[to - 1]) {
            before
        } else {
            before.push(Span { start: to - 1, end: to })
        }
    }
}

// ── Facts about tokens ───────────────────────────────────────────────────────

/// Runs are in order, inside the range, and apart from each other; they hold
/// characters of the class alone, and all of them.
pub proof fn lemma_runs(text: Seq<char>, from: int, to: int, class: CharClass)
    requires
        0 <= from <= to <= text.len(),
    ensures
        ordered_within(runs(text, from, to, class), Span { start: from, end: to }),
        forall|i: int, j: int|
            0 <= i < j < runs(text, from, to, class).len() ==> runs(text, from, to, class)[i].end
                < runs(text, from, to, class)[j].start,
        forall|i: int, p: int|
            0 <= i < runs(text, from, to, class).len() && (#[trigger] runs(
                text,
                from,
                to,
                class,
            )[i]).start <= p < runs(text, from, to, class)[i].end ==> class.admits(
                #[trigger] text[p],
            ),
        forall|p: int|
            from <= p < to && class.admits(#[trigger] text[p]) ==> in_spans(
                runs(text, from, to, class),
                p,
            ),
    decreases to - from,
{
    if from < to {
        lemma_runs(text, from, to - 1, class);
        let before = runs(text, from, to - 1, class);
        let all = runs(text, from, to, class);
        assert forall|p: int| from <= p < to && class.admits(#[trigger] text[p]) implies in_spans(
            all,
            p,
        ) by {
            if p == to - 1 {
                assert(all.last().start <= p < all.last().end);
            } else {
                let i = choose|i: int|
                    0 <= i < before.len() && (#[trigger] before[i]).start <= p < before[i].end;
                assert(all[i].start <= p < all[i].end);
            }
        }
    }
}

/// Whether a position is in one of a list of spans.
pub open spec fn in_spans(list: Seq<Span>, p: int) -> bool {
    exists|i: int| 0 <= i < list.len() && (#[trigger] list[i]).start <= p < list[i].end
}

/// Lines are in order and fill the range.
pub proof fn lemma_line_spans(text: Seq<char>, from: int, to: int)
    requires
        0 <= from <= to <= text.len(),
    ensures
        ordered_within(line_spans(text, from, to), Span { start: from, end: to }),
        from == to <==> line_spans(text, from, to).len() == 0,
        from < to ==> {
            &&& line_spans(text, from, to)[0].start == from
            &&& line_spans(text, from, to).last().end == to
        },
        forall|i: int|
            0 < i < line_spans(text, from, to).len() ==> (#[trigger] line_spans(
                text,
                from,
                to,
            )[i]).start == line_spans(text, from, to)[i - 1].end,
        forall|i: int|
            0 <= i < line_spans(text, from, to).len() - 1 ==> text[(#[trigger] line_spans(
                text,
                from,
                to,
            )[i]).end - 1] == '\n',
    decreases to - from,
{
    if from < to {
        lemma_line_spans(text, from, to - 1);
    }
}

/// Characters that are not part of a word are in order and complete.
pub proof fn lemma_nonword_spans(text: Seq<char>, from: int, to: int)
    requires
        0 <= from <= to <= text.len(),
    ensures
        ordered_within(nonword_spans(text, from, to), Span { start: from, end: to }),
        forall|p: int|
            from <= p < to ==> (#[trigger] in_spans(nonword_spans(text, from, to), p) <==> !is_word(
                text[p],
            )),
    decreases to - from,
{
    if from < to {
        lemma_nonword_spans(text, from, to - 1);
        let before = nonword_spans(text, from, to - 1);
        let all = nonword_spans(text, from, to);
        assert forall|p: int| from <= p < to implies (#[trigger] in_spans(all, p) <==> !is_word(
            text[p],
        )) by {
            if p < to - 1 {
                assert(in_spans(before, p) <==> !is_word(text[p]));
                if in_spans(before, p) {
                    let i = choose|i: int|
                        0 <= i < before.len() && (#[trigger] before[i]).start <= p < before[i].end;
                    assert(all[i].start <= p < all[i].end);
                }
                if in_spans(all, p) {
                    let i = choose|i: int|
                        0 <= i < all.len() && (#[trigger] all[i]).start <= p < all[i].end;
                    assert(before[i].start <= p < before[i].end);
                }
            } else if !is_word(text[p]) {
                assert(all.last().start <= p < all.last().end);
            }
        }
    }
}

/// Runs start earlier with an earlier start, but end alike.
proof fn lemma_runs_from_earlier(text: Seq<char>, from: int, to: int, class: CharClass)
    requires
        from <= to,
    ensures
        runs(text, from, to, class).len() <= runs(text, from - 1, to, class).len(),
        runs(text, from, to, class).len() > 0 ==> runs(text, from, to, class).last().end == runs(
            text,
            from - 1,
            to,
            class,
        ).last().end,
    decreases to - from,
{
    if from < to {
        lemma_runs_from_earlier(text, from, to - 1, class);
    }
}

/// A part of a range has no more runs than the range.
pub proof fn lemma_fewer_runs(text: Seq<char>, part: Span, whole: Span, class: CharClass)
    requires
        whole.start <= part.start <= part.end <= whole.end,
    ensures
        runs(text, part.start, part.end, class).len() <= runs(
            text,
            whole.start,
            whole.end,
            class,
        ).len(),
    decreases (part.start - whole.start) + (whole.end - part.end),
{
    if part.end < whole.end {
        lemma_fewer_runs(text, Span { start: part.start, end: part.end + 1 }, whole, class);
    } else if whole.start < part.start {
        lemma_runs_from_earlier(text, part.start, part.end, class);
        lemma_fewer_runs(text, Span { start: part.start - 1, end: part.end }, whole, class);
    }
}

/// A range that starts earlier has no fewer lines.
proof fn lemma_lines_from_earlier(text: Seq<char>, from: int, to: int)
    requires
        0 < from <= to <= text.len(),
    ensures
        line_spans(text, from, to).len() <= line_spans(text, from - 1, to).len(),
    decreases to - from,
{
    if from < to {
        lemma_lines_from_earlier(text, from, to - 1);
        lemma_line_spans(text, from, to - 1);
        lemma_line_spans(text, from - 1, to - 1);
        lemma_line_spans(text, from - 1, to);
    }
}

/// A part of a range has no more lines than the range.
pub proof fn lemma_fewer_lines(text: Seq<char>, part: Span, whole: Span)
    requires
        0 <= whole.start <= part.start <= part.end <= whole.end <= text.len(),
    ensures
        line_spans(text, part.start, part.end).len() <= line_spans(
            text,
            whole.start,
            whole.end,
        ).len(),
    decreases (part.start - whole.start) + (whole.end - part.end),
{
    if part.end < whole.end {
        lemma_line_spans(text, part.start, part.end);
        lemma_fewer_lines(text, Span { start: part.start, end: part.end + 1 }, whole);
    } else if whole.start < part.start {
        lemma_lines_from_earlier(text, part.start, part.end);
        lemma_fewer_lines(text, Span { start: part.start - 1, end: part.end }, whole);
    }
}

/// A range that starts earlier has no fewer characters that are not part of a word.
proof fn lemma_nonwords_from_earlier(text: Seq<char>, from: int, to: int)
    requires
        from <= to,
    ensures
        nonword_spans(text, from, to).len() <= nonword_spans(text, from - 1, to).len(),
    decreases to - from,
{
    if from < to {
        lemma_nonwords_from_earlier(text, from, to - 1);
    }
}

/// A part of a range has no more characters that are not part of a word than the range.
pub proof fn lemma_fewer_nonwords(text: Seq<char>, part: Span, whole: Span)
    requires
        whole.start <= part.start <= part.end <= whole.end,
    ensures
        nonword_spans(text, part.start, part.end).len() <= nonword_spans(
            text,
            whole.start,
            whole.end,
        ).len(),
    decreases (part.start - whole.start) + (whole.end - part.end),
{
    if part.end < whole.end {
        lemma_fewer_nonwords(text, Span { start: part.start, end: part.end + 1 }, whole);
    } else if whole.start < part.start {
        lemma_nonwords_from_earlier(text, part.start, part.end);
        lemma_fewer_nonwords(text, Span { start: part.start - 1, end: part.end }, whole);
    }
}

/// Every character of a range is part of a word, or a token of its own on the level below
/// words, and never both.
pub proof fn law_words_and_other_characters_divide_text(text: Seq<char>, from: int, to: int, p: int)
    requires
        0 <= from <= p < to <= text.len(),
    ensures
        in_spans(runs(text, from, to, CharClass::Word), p) <==> !in_spans(
            nonword_spans(text, from, to),
            p,
        ),
{
    lemma_runs(text, from, to, CharClass::Word);
    lemma_nonword_spans(text, from, to);
    assert(in_spans(nonword_spans(text, from, to), p) <==> !is_word(text[p]));
}

/// Words are the ASCII letters and digits, and all characters outside ASCII, in runs: a
/// position of a range is in a word exactly where such a character stands, and a character
/// that is none stands between any two words.
pub proof fn law_words_are_runs_of_word_characters(text: Seq<char>, from: int, to: int, p: int)
    requires
        0 <= from <= p < to <= text.len(),
    ensures
        ({
            let code = text[p] as int;
            in_spans(runs(text, from, to, CharClass::Word), p) <==> 48 <= code <= 57 || 65 <= code
                <= 90 || 97 <= code <= 122 || code >= 128
        }),
        ordered_within(runs(text, from, to, CharClass::Word), Span { start: from, end: to }),
        apart(runs(text, from, to, CharClass::Word)),
{
    lemma_runs(text, from, to, CharClass::Word);
    assert(CharClass::Word.admits(text[p]) <==> is_word(text[p]));
}

/// The runs without white space hold every other character, and white space stands between
/// any two of them.
pub proof fn law_visible_runs(text: Seq<char>, from: int, to: int, p: int)
    requires
        0 <= from <= p < to <= text.len(),
    ensures
        in_spans(runs(text, from, to, CharClass::Visible), p) <==> !is_white_space(text[p]),
        ordered_within(runs(text, from, to, CharClass::Visible), Span { start: from, end: to }),
        apart(runs(text, from, to, CharClass::Visible)),
{
    lemma_runs(text, from, to, CharClass::Visible);
    assert(CharClass::Visible.admits(text[p]) <==> !is_white_space(text[p]));
}

/// A line feed ends a line, and nothing else does but the end of the range; the lines
/// follow each other without a gap.
pub proof fn law_line_feeds_end_lines(text: Seq<char>, from: int, to: int, p: int)
    requires
        0 <= from <= p < to <= text.len(),
    ensures
        (exists|i: int|
            0 <= i < line_spans(text, from, to).len() && (#[trigger] line_spans(
                text,
                from,
                to,
            )[i]).end == p + 1) <==> text[p] == '\n' || p == to - 1,
        in_spans(line_spans(text, from, to), p),
        ordered_within(line_spans(text, from, to), Span { start: from, end: to }),
    decreases to - from,
{
    lemma_line_spans(text, from, to);
    let list = line_spans(text, from, to);
    let before = line_spans(text, from, to - 1);
    let last = list.len() - 1;
    if p == to - 1 {
        assert(list[last].end == p + 1);
        assert(list[last].start <= p < list[last].end);
    } else {
        law_line_feeds_end_lines(text, from, to - 1, p);
        lemma_line_spans(text, from, to - 1);
        let i = choose|i: int|
            0 <= i < before.len() && (#[trigger] before[i]).start <= p < before[i].end;
        assert(list[i].start <= p < list[i].end);
        let n = before.len() - 1;
        if p == to - 2 {
            assert(before[n].end == p + 1);
            if text[p] == '\n' {
                assert(list[n].end == p + 1);
            } else {
                assert forall|i: int| 0 <= i < list.len() implies (#[trigger] list[i]).end != p
                    + 1 by {
                    if i < n {
                        assert(list[i].end <= list[n].start && list[n].start == before[n].start
                            < before[n].end);
                    }
                }
            }
        } else {
            if text[p] == '\n' {
                let j = choose|j: int| 0 <= j < before.len() && (#[trigger] before[j]).end == p + 1;
                assert(j < n) by {
                    assert(before[n].end == to - 1);
                }
                assert(list[j] == before[j]);
            } else {
                assert forall|i: int| 0 <= i < list.len() implies (#[trigger] list[i]).end != p
                    + 1 by {
                    if list[i].end == p + 1 {
                        assert(i < before.len() && list[i] == before[i]);
                    }
                }
            }
        }
    }
}

/// Each character that is not part of a word is a token of its own.
pub proof fn law_other_characters_are_single(text: Seq<char>, from: int, to: int, i: int)
    requires
        0 <= i < nonword_spans(text, from, to).len(),
    ensures
        nonword_spans(text, from, to)[i].end == nonword_spans(text, from, to)[i].start + 1,
    decreases to - from,
{
    if from < to {
        let before = nonword_spans(text, from, to - 1);
        if i < before.len() {
            law_other_characters_are_single(text, from, to - 1, i);
        }
    }
}

// ── Tokenizers ───────────────────────────────────────────────────────────────

/// Finds the runs of a class among `chars[from..to]`, which stands at position
/// `offset + from` of `text`.
pub(crate) fn find_runs(
    Ghost(text): Ghost<Seq<char>>,
    chars: &Vec<char>,
    from: usize,
    to: usize,
    offset: usize,
    class: CharClass,
) -> (ranges: Vec<Range<usize>>)
    requires
        from <= to <= chars@.len(),
        offset + to <= usize::MAX,
        forall|i: int| from <= i < to ==> #[trigger] chars@[i] == text[offset + i],
    ensures
        spans(ranges@) == runs(text, offset + from, offset + to, class),
{
    let mut ranges: Vec<Range<usize>> = Vec::new();
    let mut open: Option<usize> = None;
    let mut i: usize = from;
    assert(spans(ranges@) =~= Seq::<Span>::empty());
    while i < to
        invariant
            from <= i <= to <= chars@.len(),
            offset + to <= usize::MAX,
            forall|i: int| from <= i < to ==> #[trigger] chars@[i] == text[offset + i],
            match open {
                Some(start) => runs(text, offset + from, offset + i, class) == spans(ranges@).push(
                    Span { start: start as int, end: offset + i },
                ),
                None => {
                    &&& runs(text, offset + from, offset + i, class) == spans(ranges@)
                    &&& spans(ranges@).len() > 0 ==> spans(ranges@).last().end < offset + i
                },
            },
        decreases to - i,
    {
        let ghost before = runs(text, offset + from, offset + i, class);
        assert(offset + i + 1 - 1 == offset + i);
        if class.check(chars[i]) {
            match open {
                Some(start) => {
                    assert(before.drop_last() =~= spans(ranges@));
                },
                None => {
                    open = Some(offset + i);
                },
            }
        } else {
            if let Some(start) = open {
                proof {
                    lemma_spans_push(ranges@, start..(offset + i) as usize);
                }
                ranges.push(start..offset + i);
                open = None;
            }
        }
        i += 1;
    }
    if let Some(start) = open {
        proof {
            lemma_spans_push(ranges@, start..(offset + to) as usize);
        }
        ranges.push(start..offset + to);
    }
    ranges
}

/// Divides a range into lines. Each line, with the line feed that ends it, is one
/// token.
pub fn tokenize_line_ranges(text: &Rope, range: Range<usize>) -> (ranges: Vec<Range<usize>>)
    requires
        range.start <= range.end <= rope_chars(*text).len(),
    ensures
        spans(ranges@) == line_spans(rope_chars(*text), range.start as int, range.end as int),
{
    let chars = slice_to_chars(slice(text, range.start, range.end));
    let ghost all = rope_chars(*text);
    let mut ranges: Vec<Range<usize>> = Vec::new();
    let mut start: usize = range.start;
    let mut pos: usize = range.start;
    assert(spans(ranges@) =~= Seq::<Span>::empty());
    while pos < range.end
        invariant
            range.start <= start <= pos <= range.end <= all.len(),
            chars@ == all.subrange(range.start as int, range.end as int),
            start < pos ==> {
                &&& all[pos - 1] != '\n'
                &&& line_spans(all, range.start as int, pos as int) == spans(ranges@).push(
                    Span { start: start as int, end: pos as int },
                )
            },
            start == pos ==> {
                &&& pos == range.start || all[pos - 1] == '\n'
                &&& line_spans(all, range.start as int, pos as int) == spans(ranges@)
            },
        decreases range.end - pos,
    {
        let ghost before = line_spans(all, range.start as int, pos as int);
        assert(pos + 1 - 1 == pos && pos + 1 - 2 == pos - 1);
        assert(start < pos ==> before.drop_last() =~= spans(ranges@));
        if chars[pos - range.start] == '\n' {
            proof {
                lemma_spans_push(ranges@, start..(pos + 1) as usize);
            }
            ranges.push(start..pos + 1);
            start = pos + 1;
        }
        pos += 1;
    }
    if start < range.end {
        proof {
            lemma_spans_push(ranges@, start..range.end);
        }
        ranges.push(start..range.end);
    }
    ranges
}

/// Divides a range into words. Only runs of word characters become tokens; other
/// characters are skipped.
pub fn tokenize_word_ranges(text: &Rope, range: Range<usize>) -> (ranges: Vec<Range<usize>>)
    requires
        range.start <= range.end <= rope_chars(*text).len(),
    ensures
        spans(ranges@) == runs(
            rope_chars(*text),
            range.start as int,
            range.end as int,
            CharClass::Word,
        ),
{
    let chars = slice_to_chars(slice(text, range.start, range.end));
    find_runs(
        Ghost(rope_chars(*text)),
        &chars,
        0,
        chars.len(),
        range.start,
        CharClass::Word,
    )
}

/// Divides a range into its characters that are not part of a word. Words are
/// skipped.
pub fn tokenize_nonword_ranges(text: &Rope, range: Range<usize>) -> (ranges: Vec<Range<usize>>)
    requires
        range.start <= range.end <= rope_chars(*text).len(),
    ensures
        spans(ranges@) == nonword_spans(rope_chars(*text), range.start as int, range.end as int),
{
    let chars = slice_to_chars(slice(text, range.start, range.end));
    let ghost all = rope_chars(*text);
    let mut ranges: Vec<Range<usize>> = Vec::new();
    let mut pos: usize = range.start;
    assert(spans(ranges@) =~= Seq::<Span>::empty());
    while pos < range.end
        invariant
            range.start <= pos <= range.end <= all.len(),
            chars@ == all.subrange(range.start as int, range.end as int),
            spans(ranges@) == nonword_spans(all, range.start as int, pos as int),
        decreases range.end - pos,
    {
        assert(pos + 1 - 1 == pos);
        if !is_word_char(chars[pos - range.start]) {
            proof {
                lemma_spans_push(ranges@, pos..(pos + 1) as usize);
            }
            ranges.push(pos..pos + 1);
        }
        pos += 1;
    }
    ranges
}

} // verus!
