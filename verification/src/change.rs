//! One changed word: two ranges with the same text but for one word, compared.

use crate::agreement::{
    agreed, agreed_at, agrees_left, agrees_right, inner, is_gap, keeps,
    law_reported_is_what_is_not_agreed_on, lemma_compared, lemma_gap_of_list, lemma_line_relation,
    lemma_neighbours_are_a_gap, lemma_refined_relation, lemma_reported_are_apart, lists,
};
use crate::diff::{
    histogram_hunks, lemma_no_token_differs, lemma_one_token_differs, pairs_up, Matched,
};
use crate::refine::{
    all_matches, all_promised, framed, gaps_promised, left_gap, left_gaps, lemma_tokens, level_matches,
    promised, refined, right_gap, right_gaps, tokens, Granularity,
};
use crate::tokens::{
    apart, in_spans, is_word, lemma_line_spans, lemma_nonword_spans, lemma_runs, line_spans,
    nonword_spans, ordered_within, runs, span_text, span_texts, CharClass, Span,
};
use vstd::prelude::*;

verus! {

// ── The change ───────────────────────────────────────────────────────────────

/// Two ranges, and a part of each.
pub struct Change {
    pub left: Span,
    pub right: Span,
    /// The part on the left.
    pub old: Span,
    /// The part on the right.
    pub new: Span,
}

impl Change {
    /// Whether the two ranges hold the same text but for one word: before and after it the
    /// same characters, and no word character next to it.
    pub open spec fn is_of_one_word(self, text: Seq<char>) -> bool {
        &&& 0 <= self.left.start <= self.old.start < self.old.end <= self.left.end <= text.len()
        &&& 0 <= self.right.start <= self.new.start < self.new.end <= self.right.end <= text.len()
        &&& text.subrange(self.left.start, self.old.start) == text.subrange(
            self.right.start,
            self.new.start,
        )
        &&& text.subrange(self.old.end, self.left.end) == text.subrange(
            self.new.end,
            self.right.end,
        )
        &&& text.subrange(self.old.start, self.old.end) != text.subrange(
            self.new.start,
            self.new.end,
        )
        &&& forall|p: int| self.old.start <= p < self.old.end ==> is_word(#[trigger] text[p])
        &&& forall|p: int| self.new.start <= p < self.new.end ==> is_word(#[trigger] text[p])
        &&& self.left.start < self.old.start ==> !is_word(text[self.old.start - 1])
        &&& self.old.end < self.left.end ==> !is_word(text[self.old.end])
    }

    /// Where a position on the left stands on the right.
    spec fn moved(self, p: int) -> int {
        if p <= self.old.start {
            p - self.left.start + self.right.start
        } else {
            p - self.left.end + self.right.end
        }
    }

    /// Where a span on the left stands on the right.
    spec fn moved_span(self, s: Span) -> Span {
        Span { start: self.moved(s.start), end: self.moved(s.end) }
    }

    /// Where spans on the left stand on the right.
    spec fn moved_spans(self, list: Seq<Span>) -> Seq<Span> {
        list.map_values(|s: Span| self.moved_span(s))
    }

    /// Whether a position on the left is not within the word.
    spec fn is_edge(self, p: int) -> bool {
        self.left.start <= p <= self.old.start || self.old.end <= p <= self.left.end
    }

    /// Whether no span starts or ends within the word.
    spec fn are_edges(self, list: Seq<Span>) -> bool {
        forall|i: int|
            0 <= i < list.len() ==> self.is_edge((#[trigger] list[i]).start) && self.is_edge(
                list[i].end,
            )
    }

    /// Whether a match pairs a span beside the word with where it stands on the right.
    spec fn is_aligned(self, m: Matched) -> bool {
        &&& self.is_edge(m.left.start)
        &&& self.is_edge(m.left.end)
        &&& m.left.start <= m.left.end
        &&& m.right == self.moved_span(m.left)
        &&& m.left.end <= self.old.start || self.old.end <= m.left.start
    }
}

/// A character beside the word is the same on both sides.
proof fn lemma_same_char(c: Change, text: Seq<char>, p: int)
    requires
        c.is_of_one_word(text),
        c.left.start <= p < c.old.start || c.old.end <= p < c.left.end,
    ensures
        text[p] == text[c.moved(p + 1) - 1],
        c.right.start <= c.moved(p + 1) - 1 < c.right.end,
{
    let a = text.subrange(c.left.start, c.old.start);
    let b = text.subrange(c.right.start, c.new.start);
    let d = text.subrange(c.old.end, c.left.end);
    let e = text.subrange(c.new.end, c.right.end);
    assert(a.len() == b.len() && d.len() == e.len());
    if p < c.old.start {
        assert(a[p - c.left.start] == b[p - c.left.start]);
    } else {
        assert(d[p - c.old.end] == e[p - c.old.end]);
    }
}

/// The word stands on the right where it stands on the left.
proof fn lemma_same_place(c: Change, text: Seq<char>)
    requires
        c.is_of_one_word(text),
    ensures
        c.moved_span(c.old) == c.new,
        c.moved_span(c.left) == c.right,
        forall|p: int, q: int|
            #![trigger c.moved(p), c.moved(q)]
            c.is_edge(p) && c.is_edge(q) && p < q ==> c.moved(p) < c.moved(q),
{
    let a = text.subrange(c.left.start, c.old.start);
    let b = text.subrange(c.right.start, c.new.start);
    let d = text.subrange(c.old.end, c.left.end);
    let e = text.subrange(c.new.end, c.right.end);
    assert(a.len() == b.len() && d.len() == e.len());
}

// ── The tokens on both sides ─────────────────────────────────────────────────

/// Word characters after one that is none make up one word.
proof fn lemma_word_run(text: Seq<char>, from: int, start: int, end: int)
    requires
        0 <= from <= start < end <= text.len(),
        from < start ==> !is_word(text[start - 1]),
        forall|p: int| start <= p < end ==> is_word(#[trigger] text[p]),
    ensures
        runs(text, from, end, CharClass::Word) == runs(text, from, start, CharClass::Word).push(
            Span { start, end },
        ),
    decreases end - start,
{
    let before = runs(text, from, start, CharClass::Word);
    lemma_runs(text, from, start, CharClass::Word);
    assert(is_word(text[end - 1]));
    if end == start + 1 {
        if before.len() > 0 {
            let last = before.len() - 1;
            assert(before[last].start <= before[last].end - 1 < before[last].end);
            assert(is_word(text[before[last].end - 1]));
        }
    } else {
        lemma_word_run(text, from, start, end - 1);
        let one = before.push(Span { start, end: end - 1 });
        assert(one.drop_last() =~= before);
    }
}

/// Word characters make up no line of their own, unless they start one.
proof fn lemma_word_line(text: Seq<char>, from: int, start: int, end: int)
    requires
        0 <= from <= start < end <= text.len(),
        forall|p: int| start <= p < end ==> is_word(#[trigger] text[p]),
    ensures
        line_spans(text, from, end) == ({
            let before = line_spans(text, from, start);
            if start > from && text[start - 1] != '\n' {
                before.drop_last().push(Span { start: before.last().start, end })
            } else {
                before.push(Span { start, end })
            }
        }),
    decreases end - start,
{
    let before = line_spans(text, from, start);
    if end > start + 1 {
        lemma_word_line(text, from, start, end - 1);
        assert(is_word(text[end - 2]));
        let shorter = line_spans(text, from, end - 1);
        assert(line_spans(text, from, end) == shorter.drop_last().push(
            Span { start: shorter.last().start, end },
        ));
        if start > from && text[start - 1] != '\n' {
            let kept = before.drop_last();
            assert(shorter == kept.push(Span { start: before.last().start, end: end - 1 }));
            assert(shorter.drop_last() =~= kept);
        } else {
            assert(shorter.drop_last() =~= before);
        }
    }
}

/// Word characters hold no other ones.
proof fn lemma_word_others(text: Seq<char>, from: int, start: int, end: int)
    requires
        0 <= from <= start <= end <= text.len(),
        forall|p: int| start <= p < end ==> is_word(#[trigger] text[p]),
    ensures
        nonword_spans(text, from, end) == nonword_spans(text, from, start),
    decreases end - start,
{
    if start < end {
        lemma_word_others(text, from, start, end - 1);
        assert(is_word(text[end - 1]));
    }
}

/// The tokens on the right are those on the left, moved.
proof fn lemma_moved_tokens(c: Change, text: Seq<char>, from: int, to: int, level: Granularity)
    requires
        c.is_of_one_word(text),
        c.is_edge(from),
        c.is_edge(to),
        from <= to,
    ensures
        c.are_edges(tokens(text, Span { start: from, end: to }, level)),
        tokens(text, c.moved_span(Span { start: from, end: to }), level) == c.moved_spans(
            tokens(text, Span { start: from, end: to }, level),
        ),
    decreases to - from,
{
    let left = Span { start: from, end: to };
    let a = tokens(text, left, level);
    let b = tokens(text, c.moved_span(left), level);
    lemma_same_place(c, text);
    if from == to {
        assert(b =~= c.moved_spans(a));
    } else if to == c.old.end {
        lemma_moved_tokens(c, text, from, c.old.start, level);
        if from < c.old.start {
            lemma_same_char(c, text, c.old.start - 1);
        }
        match level {
            Granularity::Line => {
                lemma_word_line(text, from, c.old.start, c.old.end);
                lemma_word_line(text, c.moved(from), c.new.start, c.new.end);
                lemma_line_spans(text, from, c.old.start);
            },
            Granularity::Word => {
                lemma_word_run(text, from, c.old.start, c.old.end);
                lemma_word_run(text, c.moved(from), c.new.start, c.new.end);
            },
            Granularity::NonWord => {
                lemma_word_others(text, from, c.old.start, c.old.end);
                lemma_word_others(text, c.moved(from), c.new.start, c.new.end);
            },
        }
        assert(b =~= c.moved_spans(a));
    } else {
        let part = Span { start: from, end: to - 1 };
        assert(c.is_edge(to - 1));
        lemma_moved_tokens(c, text, from, to - 1, level);
        let before = tokens(text, part, level);
        let moved = tokens(text, c.moved_span(part), level);
        assert(c.moved(to - 1) == c.moved(to) - 1);
        assert(c.moved(from) < c.moved(to));
        lemma_same_char(c, text, to - 1);
        match level {
            Granularity::Line => {
                lemma_line_spans(text, from, to - 1);
                if to - 1 > from {
                    if to - 1 == c.old.end {
                        assert(is_word(text[to - 2]));
                        assert(is_word(text[c.new.end - 1]));
                    } else {
                        lemma_same_char(c, text, to - 2);
                    }
                    assert(moved.last() == c.moved_span(before.last()));
                }
            },
            Granularity::Word => {
                if before.len() > 0 {
                    let last = before.len() - 1;
                    assert(moved[last] == c.moved_span(before[last]));
                    lemma_runs(text, from, to - 1, CharClass::Word);
                    assert(before[last].end <= to - 1);
                    assert(c.is_edge(before[last].end));
                    if before[last].end < to - 1 {
                        assert(c.moved(before[last].end) < c.moved(to - 1));
                    }
                }
            },
            Granularity::NonWord => {},
        }
        assert(b =~= c.moved_spans(a));
    }
}

/// A span beside the word holds the same text on both sides; one around it does not.
proof fn lemma_moved_text(c: Change, text: Seq<char>, s: Span)
    requires
        c.is_of_one_word(text),
        c.is_edge(s.start),
        c.is_edge(s.end),
        s.start <= s.end,
    ensures
        s.end <= c.old.start || c.old.end <= s.start ==> span_text(text, s) == span_text(
            text,
            c.moved_span(s),
        ),
        s.start <= c.old.start && c.old.end <= s.end ==> span_text(text, s) != span_text(
            text,
            c.moved_span(s),
        ),
{
    let a = span_text(text, s);
    let b = span_text(text, c.moved_span(s));
    lemma_same_place(c, text);
    if s.start == s.end {
        assert(a =~= b);
    } else if s.end <= c.old.start || c.old.end <= s.start {
        assert(c.moved(s.end) - c.moved(s.start) == s.end - s.start);
        assert(c.right.start <= c.moved(s.start));
        assert(c.moved(s.end) <= c.right.end);
        assert forall|i: int| 0 <= i < a.len() implies a[i] == b[i] by {
            lemma_same_char(c, text, s.start + i);
            assert(c.moved(s.start + i + 1) - 1 == c.moved(s.start) + i);
        }
        assert(a =~= b);
    }
    if s.start <= c.old.start && c.old.end <= s.end && a == b {
        assert(c.moved(s.start) <= c.new.start && c.new.end <= c.moved(s.end));
        assert(c.moved(s.end) <= c.right.end && c.right.start <= c.moved(s.start));
        let k = c.old.start - s.start;
        assert(c.old.end - c.old.start == c.new.end - c.new.start);
        let old = text.subrange(c.old.start, c.old.end);
        let new = text.subrange(c.new.start, c.new.end);
        assert forall|i: int| 0 <= i < old.len() implies old[i] == new[i] by {
            assert(a[k + i] == b[k + i]);
        }
        assert(old =~= new);
    }
}

// ── One gap ──────────────────────────────────────────────────────────────────

/// Which tokens the differ keeps between two spans that hold the same text but for the
/// word: all but the one with the word, each as where it stands on the right.
proof fn lemma_kept_in_gap(c: Change, text: Seq<char>, s: Span, level: Granularity)
    requires
        c.is_of_one_word(text),
        c.is_edge(s.start),
        c.is_edge(s.end),
        s.start <= s.end,
        promised(text, s, c.moved_span(s), level),
    ensures
        forall|m: Matched| #[trigger]
            keeps(text, s, c.moved_span(s), level, m) ==> c.is_aligned(m),
        forall|i: int|
            0 <= i < tokens(text, s, level).len() && ((#[trigger] tokens(text, s, level)[i]).end
                <= c.old.start || c.old.end <= tokens(text, s, level)[i].start) ==> keeps(
                text,
                s,
                c.moved_span(s),
                level,
                (Matched {
                    left: tokens(text, s, level)[i],
                    right: c.moved_span(tokens(text, s, level)[i]),
                }),
            ),
{
    let r = c.moved_span(s);
    let a = tokens(text, s, level);
    let b = tokens(text, r, level);
    let n = a.len() as int;
    let before = span_texts(text, a);
    let after = span_texts(text, b);
    let hunks = histogram_hunks(before, after);
    lemma_compared(text, s, level);
    lemma_compared(text, r, level);
    lemma_moved_tokens(c, text, s.start, s.end, level);
    lemma_tokens(text, s, level);
    assert(b.len() == n && before.len() == n && after.len() == n);
    assert forall|i: int| 0 <= i < n implies {
        &&& c.is_edge((#[trigger] a[i]).start) && c.is_edge(a[i].end) && a[i].start < a[i].end
        &&& b[i] == c.moved_span(a[i])
        &&& a[i].end <= c.old.start || c.old.end <= a[i].start ==> before[i] == after[i]
        &&& !(a[i].end <= c.old.start || c.old.end <= a[i].start) ==> a[i].start <= c.old.start
            && c.old.end <= a[i].end && before[i] != after[i]
    } by {
        lemma_moved_text(c, text, a[i]);
    }
    if n > 0 {
        let beside = |i: int| a[i].end <= c.old.start || c.old.end <= a[i].start;
        if forall|i: int| 0 <= i < n ==> #[trigger] beside(i) {
            assert forall|i: int| 0 <= i < n implies before[i] == after[i] by {
                assert(beside(i));
            }
            assert(before =~= after);
            lemma_no_token_differs(hunks, n);
        } else {
            let k = choose|i: int| 0 <= i < n && !#[trigger] beside(i);
            assert forall|j: int| 0 <= j < n && j != k implies #[trigger] before[j] == after[j] by {
                assert(a[k].start <= c.old.start && c.old.end <= a[k].end);
                if j < k {
                    assert(a[j].end <= a[k].start);
                } else {
                    assert(a[k].end <= a[j].start);
                }
            }
            assert(before[k] != after[k]);
            lemma_one_token_differs(hunks, before, after, k);
        }
        assert forall|i: int, j: int|
            #[trigger] pairs_up(hunks, n, n, i, j) implies i == j && 0 <= i < n && beside(i) by {
            if !beside(i) && i == j && 0 <= i < n {
                assert(before[i] != after[i]);
            }
        }
        assert forall|i: int| 0 <= i < n && ((#[trigger] a[i]).end <= c.old.start || c.old.end
            <= a[i].start) implies keeps(
            text,
            s,
            r,
            level,
            (Matched { left: a[i], right: c.moved_span(a[i]) }),
        ) by {
            assert(beside(i));
            assert(pairs_up(hunks, n, n, i, i));
            assert(b[i] == c.moved_span(a[i]));
        }
        assert forall|m: Matched| #[trigger] keeps(text, s, r, level, m) implies c.is_aligned(
            m,
        ) by {
            let (i, j) = choose|i: int, j: int|
                0 <= i < a.len() && 0 <= j < b.len() && a[i] == m.left && b[j] == m.right
                    && #[trigger] pairs_up(hunks, a.len() as int, b.len() as int, i, j);
            assert(i == j && beside(i));
        }
    }
}

// ── One level ────────────────────────────────────────────────────────────────

/// Whether matches cover a position on the left.
spec fn covers(known: spec_fn(Matched) -> bool, p: int) -> bool {
    exists|m: Matched| #[trigger] known(m) && m.left.start <= p < m.left.end
}

/// Between aligned matches, what lies on the right is what lies on the left, moved.
proof fn lemma_aligned_gap(
    c: Change,
    text: Seq<char>,
    known: spec_fn(Matched) -> bool,
    l: Span,
    r: Span,
)
    requires
        c.is_of_one_word(text),
        forall|m: Matched| #[trigger] known(m) ==> c.is_aligned(m),
        is_gap(known, c.left, c.right, l, r),
    ensures
        c.is_edge(l.start),
        c.is_edge(l.end),
        r == c.moved_span(l),
{
    lemma_same_place(c, text);
}

/// What a level adds to aligned matches is aligned.
proof fn lemma_level_is_aligned(
    c: Change,
    text: Seq<char>,
    known: spec_fn(Matched) -> bool,
    level: Granularity,
    list: Seq<Matched>,
)
    requires
        c.is_of_one_word(text),
        forall|m: Matched| #[trigger] known(m) ==> c.is_aligned(m),
        lists(list, c.left, c.right, known),
        gaps_promised(text, list, level),
    ensures
        forall|m: Matched| #[trigger]
            agreed_at(text, c.left, c.right, level, known)(m) ==> c.is_aligned(m),
{
    let now = agreed_at(text, c.left, c.right, level, known);
    assert forall|m: Matched| #[trigger] now(m) implies c.is_aligned(m) by {
        if !known(m) {
            let (l, r) = choose|l: Span, r: Span| #[trigger]
                is_gap(known, c.left, c.right, l, r) && keeps(text, l, r, level, m);
            lemma_aligned_gap(c, text, known, l, r);
            lemma_gap_is_promised(text, c.left, c.right, known, level, list, l, r);
            lemma_kept_in_gap(c, text, l, level);
        }
    }
}

/// The differ promises what it does of each gap of a list of matches.
proof fn lemma_gap_is_promised(
    text: Seq<char>,
    left: Span,
    right: Span,
    known: spec_fn(Matched) -> bool,
    level: Granularity,
    list: Seq<Matched>,
    l: Span,
    r: Span,
)
    requires
        left.start <= left.end,
        right.start <= right.end,
        lists(list, left, right, known),
        gaps_promised(text, list, level),
        is_gap(known, left, right, l, r),
    ensures
        promised(text, l, r, level),
{
    lemma_gap_of_list(list, left, right, known, l, r);
    let (j, k) = choose|j: int, k: int|
        0 <= j && k == j + 1 && k < list.len() && l == #[trigger] left_gap(list[j], list[k]) && r
            == right_gap(list[j], list[k]);
    assert(promised(text, left_gap(list[j], list[k]), right_gap(list[j], list[k]), level));
}

/// A position that no match covers lies between neighbouring ones.
proof fn lemma_uncovered_is_in_gap(
    list: Seq<Matched>,
    left: Span,
    right: Span,
    known: spec_fn(Matched) -> bool,
    p: int,
    k: int,
) -> (j: int)
    requires
        lists(list, left, right, known),
        !covers(known, p),
        0 < k < list.len(),
        left.start <= p < list[k].left.start,
    ensures
        0 <= j < k,
        list[j].left.end <= p < list[j + 1].left.start,
    decreases k,
{
    let m = list[k - 1];
    if m.left.end <= p {
        k - 1
    } else if p < m.left.start {
        lemma_uncovered_is_in_gap(list, left, right, known, p, k - 1)
    } else {
        assert(0 < k - 1 < list.len() - 1);
        assert(inner(list, m));
        assert(known(m));
        k - 1
    }
}

/// A token beside the word, in a gap of aligned matches, is matched at its level.
proof fn lemma_level_covers(
    c: Change,
    text: Seq<char>,
    known: spec_fn(Matched) -> bool,
    level: Granularity,
    list: Seq<Matched>,
    p: int,
)
    requires
        c.is_of_one_word(text),
        forall|m: Matched| #[trigger] known(m) ==> c.is_aligned(m),
        lists(list, c.left, c.right, known),
        gaps_promised(text, list, level),
        c.left.start <= p < c.old.start || c.old.end <= p < c.left.end,
        level == Granularity::Word && is_word(text[p]) || level == Granularity::NonWord && !is_word(
            text[p],
        ),
    ensures
        covers(agreed_at(text, c.left, c.right, level, known), p),
{
    let now = agreed_at(text, c.left, c.right, level, known);
    if covers(known, p) {
        let m = choose|m: Matched| #[trigger] known(m) && m.left.start <= p < m.left.end;
        assert(now(m));
    } else {
        let last = list.len() - 1;
        let j = lemma_uncovered_is_in_gap(list, c.left, c.right, known, p, last);
        lemma_neighbours_are_a_gap(list, c.left, c.right, known, j);
        let l = left_gap(list[j], list[j + 1]);
        let r = right_gap(list[j], list[j + 1]);
        assert(is_gap(known, c.left, c.right, l, r));
        lemma_aligned_gap(c, text, known, l, r);
        lemma_gap_is_promised(text, c.left, c.right, known, level, list, l, r);
        lemma_kept_in_gap(c, text, l, level);
        let a = tokens(text, l, level);
        lemma_moved_tokens(c, text, l.start, l.end, level);
        lemma_runs(text, l.start, l.end, CharClass::Word);
        lemma_nonword_spans(text, l.start, l.end);
        assert(CharClass::Word.admits(text[p]) <==> is_word(text[p]));
        assert(in_spans(a, p));
        let i = choose|i: int| 0 <= i < a.len() && (#[trigger] a[i]).start <= p < a[i].end;
        assert(c.is_edge(a[i].start) && c.is_edge(a[i].end));
        if !(a[i].end <= c.old.start || c.old.end <= a[i].start) {
            // A token that reaches across an end of the word holds the character there.
            if p < c.old.start {
                let q = c.old.start - 1;
                assert(a[i].start <= q < a[i].end && a[i].start <= q + 1 < a[i].end);
                assert(!is_word(text[q]) && is_word(text[q + 1]));
                assert(in_spans(a, q + 1) && in_spans(a, q));
                if level == Granularity::Word {
                    assert(CharClass::Word.admits(text[q]));
                }
            } else {
                let q = c.old.end;
                assert(a[i].start <= q - 1 < a[i].end && a[i].start <= q < a[i].end);
                assert(!is_word(text[q]) && is_word(text[q - 1]));
                assert(in_spans(a, q - 1) && in_spans(a, q));
                if level == Granularity::Word {
                    assert(CharClass::Word.admits(text[q]));
                }
            }
        }
        let m = Matched { left: a[i], right: c.moved_span(a[i]) };
        assert(keeps(text, l, r, level, m));
        assert(now(m));
    }
}

// ── All levels ───────────────────────────────────────────────────────────────

/// What two ranges agree on that hold the same text but for one word: all of it but the
/// word, each part with where it stands on the right.
proof fn lemma_agreed_on_one_word(c: Change, text: Seq<char>, p: int)
    requires
        c.is_of_one_word(text),
        all_promised(text, c.left, c.right),
    ensures
        forall|m: Matched| #[trigger] agreed(text, c.left, c.right)(m) ==> c.is_aligned(m),
        c.left.start <= p < c.old.start || c.old.end <= p < c.left.end ==> covers(
            agreed(text, c.left, c.right),
            p,
        ),
{
    let (left, right) = (c.left, c.right);
    let none = |m: Matched| false;
    let by_line = framed(level_matches(text, left, right, Granularity::Line), left, right);
    let by_word = refined(text, by_line, Granularity::Word);
    let lines = agreed_at(text, left, right, Granularity::Line, none);
    let words = agreed_at(text, left, right, Granularity::Word, lines);
    let all = agreed_at(text, left, right, Granularity::NonWord, words);
    assert(all == agreed(text, left, right));
    lemma_same_place(c, text);
    lemma_line_relation(text, left, right);
    lemma_refined_relation(text, left, right, Granularity::Word, by_line, lines);
    assert forall|m: Matched| #[trigger] lines(m) implies c.is_aligned(m) by {
        let (l, r) = choose|l: Span, r: Span| #[trigger]
            is_gap(none, left, right, l, r) && keeps(text, l, r, Granularity::Line, m);
        assert(l == left && r == right);
        lemma_kept_in_gap(c, text, left, Granularity::Line);
    }
    lemma_level_is_aligned(c, text, lines, Granularity::Word, by_line);
    lemma_level_is_aligned(c, text, words, Granularity::NonWord, by_word);
    if c.left.start <= p < c.old.start || c.old.end <= p < c.left.end {
        if is_word(text[p]) {
            lemma_level_covers(c, text, lines, Granularity::Word, by_line, p);
            let m = choose|m: Matched| #[trigger] words(m) && m.left.start <= p < m.left.end;
            assert(all(m));
        } else {
            lemma_level_covers(c, text, words, Granularity::NonWord, by_word, p);
        }
    }
}

/// Spans that are apart and hold the positions of one span alone are that span.
proof fn lemma_only_span(list: Seq<Span>, within: Span, s: Span)
    requires
        ordered_within(list, within),
        apart(list),
        within.start <= s.start < s.end <= within.end,
        forall|p: int|
            within.start <= p < within.end ==> (#[trigger] in_spans(list, p) <==> s.start <= p
                < s.end),
    ensures
        list == seq![s],
{
    assert forall|i: int| 0 <= i < list.len() implies list[i] == s by {
        let t = list[i];
        assert(in_spans(list, t.start));
        assert(in_spans(list, t.end - 1));
        if s.start < t.start {
            assert(in_spans(list, t.start - 1));
            let j = choose|j: int|
                0 <= j < list.len() && (#[trigger] list[j]).start <= t.start - 1 < list[j].end;
            assert(j != i);
            if j < i {
                assert(list[j].end < list[i].start);
            } else {
                assert(list[i].end < list[j].start);
            }
        }
        if t.end < s.end {
            assert(in_spans(list, t.end));
            let j = choose|j: int|
                0 <= j < list.len() && (#[trigger] list[j]).start <= t.end < list[j].end;
            assert(j != i);
            if j < i {
                assert(list[j].end < list[i].start);
            } else {
                assert(list[i].end < list[j].start);
            }
        }
    }
    assert(in_spans(list, s.start));
    assert(list.len() >= 1);
    if list.len() > 1 {
        assert(list[0].end < list[1].start);
        assert(list[0] == s && list[1] == s);
    }
    assert(list =~= seq![s]);
}

/// Where two ranges hold the same text but for one word, that word is reported and nothing
/// else: the one on the left as removed, the one on the right as added. However many lines,
/// words and other characters stand before and after it does not matter.
pub proof fn law_single_changed_word(c: Change, text: Seq<char>)
    requires
        c.is_of_one_word(text),
        all_promised(text, c.left, c.right),
    ensures
        ({
            let matches = all_matches(text, c.left, c.right);
            &&& left_gaps(matches, matches.len() - 1) == seq![c.old]
            &&& right_gaps(matches, matches.len() - 1) == seq![c.new]
        }),
{
    let matches = all_matches(text, c.left, c.right);
    let removed = left_gaps(matches, matches.len() - 1);
    let added = right_gaps(matches, matches.len() - 1);
    let all = agreed(text, c.left, c.right);
    lemma_same_place(c, text);
    lemma_reported_are_apart(text, c.left, c.right);
    assert forall|p: int| c.left.start <= p < c.left.end implies (#[trigger] in_spans(removed, p)
        <==> c.old.start <= p < c.old.end) by {
        law_reported_is_what_is_not_agreed_on(text, c.left, c.right, p);
        lemma_agreed_on_one_word(c, text, p);
        if agrees_left(text, c.left, c.right, p) {
            let m = choose|m: Matched| #[trigger] all(m) && m.left.start <= p < m.left.end;
            assert(c.is_aligned(m));
        }
        if covers(all, p) {
            let m = choose|m: Matched| #[trigger] all(m) && m.left.start <= p < m.left.end;
            assert(agrees_left(text, c.left, c.right, p));
        }
    }
    assert forall|p: int| c.right.start <= p < c.right.end implies (#[trigger] in_spans(added, p)
        <==> c.new.start <= p < c.new.end) by {
        law_reported_is_what_is_not_agreed_on(text, c.left, c.right, p);
        let q = if p < c.new.start {
            p - c.right.start + c.left.start
        } else {
            p - c.right.end + c.left.end
        };
        lemma_agreed_on_one_word(c, text, q);
        if agrees_right(text, c.left, c.right, p) {
            let m = choose|m: Matched| #[trigger] all(m) && m.right.start <= p < m.right.end;
            assert(c.is_aligned(m));
        }
        if !(c.new.start <= p < c.new.end) {
            assert(covers(all, q));
            let m = choose|m: Matched| #[trigger] all(m) && m.left.start <= q < m.left.end;
            assert(c.is_aligned(m));
            assert(m.right.start <= p < m.right.end);
            assert(agrees_right(text, c.left, c.right, p));
        }
    }
    lemma_only_span(removed, c.left, c.old);
    lemma_only_span(added, c.right, c.new);
}

} // verus!
