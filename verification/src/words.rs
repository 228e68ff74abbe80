//! Comparing the words of a section with those of another text.

use crate::content::{diff_side, raw_content, resolved_line, resolved_lines, skipped, within};
use crate::diff::{
    diff_tokens, gap_len, gap_start, histogram_hunks, is_script, lemma_one_token_differs, pairs_up,
    same_start, spares_ends, token_texts, transforms, Hunk, MAX_TOKENS,
};
use crate::refine::lemma_count;
use crate::region::{Section, SectionView};
use crate::text::{
    lemma_line_start_monotone, lemma_line_text, lemma_lines_shape, line_start, lines, rope_chars,
    slice, slice_lines, slice_texts, slice_to_chars,
};
use crate::tokens::{
    apart, find_runs, in_spans, is_white_space, law_visible_runs, lemma_runs, lemma_spans_push,
    ordered_within, runs, span, span_text, span_texts, spans, CharClass, Span,
};
use ropey::Rope;
use std::ops::Range;
use vstd::prelude::*;

verus! {

// ── What changes ─────────────────────────────────────────────────────────────

/// The part of a hunk that lies in the first list of tokens, or in the second.
pub open spec fn hunk_part(hunk: Hunk, after: bool) -> (int, int) {
    if after {
        (hunk.after_start as int, hunk.after_end as int)
    } else {
        (hunk.before_start as int, hunk.before_end as int)
    }
}

/// The words in the first `k` hunks.
pub open spec fn changed(words: Seq<Span>, hunks: Seq<Hunk>, after: bool, k: int) -> Seq<Span>
    decreases k,
{
    if k <= 0 {
        Seq::empty()
    } else {
        changed(words, hunks, after, k - 1) + words.subrange(
            hunk_part(hunks[k - 1], after).0,
            hunk_part(hunks[k - 1], after).1,
        )
    }
}

/// A list of spans with one more, which is joined to the last where it touches it.
pub open spec fn join(list: Seq<Span>, s: Span) -> Seq<Span> {
    if list.len() > 0 && list.last().end == s.start {
        list.drop_last().push(Span { start: list.last().start, end: s.end })
    } else {
        list.push(s)
    }
}

/// Spans with those joined that touch.
pub open spec fn joined(list: Seq<Span>) -> Seq<Span>
    decreases list.len(),
{
    if list.len() == 0 {
        Seq::empty()
    } else {
        join(joined(list.drop_last()), list.last())
    }
}

/// The ranges of the words that an edit script changes.
pub open spec fn changed_spans(words: Seq<Span>, hunks: Seq<Hunk>, after: bool) -> Seq<Span> {
    joined(changed(words, hunks, after, hunks.len() as int))
}

/// Returns the ranges of the words that an edit script changes in the first list
/// of words, or in the second.
pub fn changed_ranges(words: &Vec<Range<usize>>, hunks: &Vec<Hunk>, after: bool) -> (ranges: Vec<
    Range<usize>,
>)
    requires
        forall|k: int|
            0 <= k < hunks@.len() ==> hunk_part(#[trigger] hunks@[k], after).0 <= hunk_part(
                hunks@[k],
                after,
            ).1 <= words@.len(),
    ensures
        spans(ranges@) == changed_spans(spans(words@), hunks@, after),
{
    let ghost list = spans(words@);
    let mut ranges: Vec<Range<usize>> = Vec::new();
    assert(spans(ranges@) =~= Seq::<Span>::empty());
    let mut k: usize = 0;
    while k < hunks.len()
        invariant
            forall|k: int|
                0 <= k < hunks@.len() ==> hunk_part(#[trigger] hunks@[k], after).0 <= hunk_part(
                    hunks@[k],
                    after,
                ).1 <= words@.len(),
            k <= hunks@.len(),
            list == spans(words@),
            spans(ranges@) == joined(changed(list, hunks@, after, k as int)),
        decreases hunks@.len() - k,
    {
        let hunk = hunks[k];
        let (start, end) = if after {
            (hunk.after_start, hunk.after_end)
        } else {
            (hunk.before_start, hunk.before_end)
        };
        let ghost before = changed(list, hunks@, after, k as int);
        let mut i: usize = start;
        assert(before + list.subrange(start as int, start as int) =~= before);
        while i < end
            invariant
                start <= i <= end <= words@.len(),
                list == spans(words@),
                spans(ranges@) == joined(before + list.subrange(start as int, i as int)),
            decreases end - i,
        {
            let word = &words[i];
            let n = ranges.len();
            proof {
                let more = before + list.subrange(start as int, i + 1);
                assert(more.drop_last() =~= before + list.subrange(start as int, i as int));
                assert(more.last() == span(*word));
                assert(n > 0 ==> spans(ranges@).last() == span(ranges@[n - 1]));
            }
            if n > 0 && ranges[n - 1].end == word.start {
                let joined_range = ranges[n - 1].start..word.end;
                let ghost old_ranges = ranges@;
                ranges.set(n - 1, joined_range);
                assert(spans(ranges@) =~= spans(old_ranges).drop_last().push(span(joined_range)));
            } else {
                proof {
                    lemma_spans_push(ranges@, word.start..word.end);
                }
                ranges.push(word.start..word.end);
            }
            i += 1;
        }
        k += 1;
    }
    ranges
}

/// A word in a hunk is among the changed words.
proof fn lemma_changed_contains(words: Seq<Span>, hunks: Seq<Hunk>, after: bool, k: int, h: int, i: int)
    requires
        0 <= h < k <= hunks.len(),
        forall|k: int|
            0 <= k < hunks.len() ==> 0 <= hunk_part(#[trigger] hunks[k], after).0 <= hunk_part(
                hunks[k],
                after,
            ).1 <= words.len(),
        hunk_part(hunks[h], after).0 <= i < hunk_part(hunks[h], after).1,
    ensures
        changed(words, hunks, after, k).contains(words[i]),
    decreases k,
{
    let all = changed(words, hunks, after, k);
    let before = changed(words, hunks, after, k - 1);
    if h == k - 1 {
        assert(all[before.len() + (i - hunk_part(hunks[h], after).0)] == words[i]);
    } else {
        lemma_changed_contains(words, hunks, after, k - 1, h, i);
        let p = choose|p: int| 0 <= p < before.len() && before[p] == words[i];
        assert(all[p] == words[i]);
    }
}

/// The changed words are words.
proof fn lemma_changed_words(words: Seq<Span>, hunks: Seq<Hunk>, after: bool, k: int)
    requires
        0 <= k <= hunks.len(),
        forall|k: int|
            0 <= k < hunks.len() ==> 0 <= hunk_part(#[trigger] hunks[k], after).0 <= hunk_part(
                hunks[k],
                after,
            ).1 <= words.len(),
    ensures
        forall|p: int|
            0 <= p < changed(words, hunks, after, k).len() ==> words.contains(
                #[trigger] changed(words, hunks, after, k)[p],
            ),
    decreases k,
{
    if k > 0 {
        lemma_changed_words(words, hunks, after, k - 1);
        let all = changed(words, hunks, after, k);
        let before = changed(words, hunks, after, k - 1);
        assert forall|p: int| 0 <= p < all.len() implies words.contains(#[trigger] all[p]) by {
            if p < before.len() {
                assert(all[p] == before[p]);
            } else {
                assert(all[p] == words[hunk_part(hunks[k - 1], after).0 + (p - before.len())]);
            }
        }
    }
}

/// One component of a pair of positions.
spec fn side(pair: (int, int), after: bool) -> int {
    if after {
        pair.1
    } else {
        pair.0
    }
}

/// Every token before hunk `k` is in a hunk or between hunks.
proof fn lemma_hunk_or_gap(hunks: Seq<Hunk>, n: int, m: int, after: bool, k: int, i: int)
    requires
        is_script(hunks, n, m),
        0 <= k <= hunks.len(),
        0 <= i < side(gap_start(hunks, k), after),
    ensures
        (exists|h: int|
            0 <= h < k && hunk_part(#[trigger] hunks[h], after).0 <= i < hunk_part(
                hunks[h],
                after,
            ).1) || (exists|h: int|
            0 <= h < k && side(gap_start(hunks, h), after) <= i < side(
                gap_start(hunks, h),
                after,
            ) + #[trigger] gap_len(hunks, n, m, h)),
    decreases k,
{
    if k > 0 {
        let start = side(gap_start(hunks, k - 1), after);
        let len = gap_len(hunks, n, m, k - 1);
        if i < start {
            lemma_hunk_or_gap(hunks, n, m, after, k - 1, i);
        } else if i >= start + len {
            assert(hunk_part(hunks[k - 1], after).0 <= i < hunk_part(hunks[k - 1], after).1);
        }
    }
}

/// A token that the other list does not hold is in a hunk.
proof fn lemma_foreign_token(
    hunks: Seq<Hunk>,
    before: Seq<Seq<char>>,
    after: Seq<Seq<char>>,
    second: bool,
    i: int,
)
    requires
        transforms(hunks, before, after),
        second ==> 0 <= i < after.len() && !before.contains(after[i]),
        !second ==> 0 <= i < before.len() && !after.contains(before[i]),
    ensures
        exists|h: int|
            0 <= h < hunks.len() && hunk_part(#[trigger] hunks[h], second).0 <= i < hunk_part(
                hunks[h],
                second,
            ).1,
{
    let n = before.len() as int;
    let m = after.len() as int;
    let len = hunks.len() as int;
    if i < side(gap_start(hunks, len), second) {
        lemma_hunk_or_gap(hunks, n, m, second, len, i);
    } else {
        assert(side(gap_start(hunks, len), second) <= i < side(gap_start(hunks, len), second)
            + gap_len(hunks, n, m, len));
    }
    if exists|h: int|
        0 <= h <= len && side(gap_start(hunks, h), second) <= i < side(gap_start(hunks, h), second)
            + #[trigger] gap_len(hunks, n, m, h) {
        let h = choose|h: int|
            0 <= h <= len && side(gap_start(hunks, h), second) <= i < side(
                gap_start(hunks, h),
                second,
            ) + #[trigger] gap_len(hunks, n, m, h);
        let t = i - side(gap_start(hunks, h), second);
        assert(before[gap_start(hunks, h).0 + t] == after[gap_start(hunks, h).1 + t]);
        assert(0 <= gap_start(hunks, h).0 && 0 <= gap_start(hunks, h).1);
        assert(gap_start(hunks, h).0 + t < n && gap_start(hunks, h).1 + t < m);
        if second {
            assert(before.contains(after[i]));
        } else {
            assert(after.contains(before[i]));
        }
    }
}

/// Whether a list holds every word that the other list of words lacks.
pub open spec fn holds_foreign(
    list: Seq<Span>,
    words: Seq<Span>,
    texts: Seq<Seq<char>>,
    other: Seq<Seq<char>>,
) -> bool {
    forall|i: int|
        0 <= i < words.len() && !other.contains(texts[i]) ==> list.contains(#[trigger] words[i])
}

/// Whether each span of a list is one of the words.
pub open spec fn are_words(list: Seq<Span>, words: Seq<Span>) -> bool {
    forall|i: int| 0 <= i < list.len() ==> words.contains(#[trigger] list[i])
}

/// Words that are apart are not joined.
proof fn lemma_joined_apart(list: Seq<Span>)
    requires
        apart(list),
    ensures
        joined(list) == list,
    decreases list.len(),
{
    if list.len() > 0 {
        let front = list.drop_last();
        lemma_joined_apart(front);
        assert(joined(list) =~= list);
    } else {
        assert(joined(list) =~= list);
    }
}

/// The words that an edit script changes are apart where all words are.
proof fn lemma_changed_apart(
    words: Seq<Span>,
    hunks: Seq<Hunk>,
    n: int,
    m: int,
    after: bool,
    k: int,
)
    requires
        is_script(hunks, n, m),
        words.len() == side((n, m), after),
        apart(words),
        0 <= k <= hunks.len(),
    ensures
        apart(changed(words, hunks, after, k)),
        forall|p: int, j: int|
            0 <= p < changed(words, hunks, after, k).len() && side(gap_start(hunks, k), after) <= j
                < words.len() ==> (#[trigger] changed(words, hunks, after, k)[p]).end < (
            #[trigger] words[j]).start,
    decreases k,
{
    if k > 0 {
        lemma_changed_apart(words, hunks, n, m, after, k - 1);
        let before = changed(words, hunks, after, k - 1);
        let all = changed(words, hunks, after, k);
        let (from, to) = hunk_part(hunks[k - 1], after);
        assert(gap_len(hunks, n, m, k - 1) >= 0);
        assert(side(gap_start(hunks, k - 1), after) <= from <= to <= words.len());
        assert forall|p: int, q: int| 0 <= p < q < all.len() implies all[p].end < all[q].start by {
            if q < before.len() {
                assert(before[p].end < before[q].start);
            } else if p < before.len() {
                assert(before[p].end < words[from + (q - before.len())].start);
            }
        }
    }
}

/// What is known of the words that an edit script changes: they are whole words, apart
/// from each other, among them all that the other list lacks; without hunks there are
/// none.
proof fn lemma_changed_spans(
    words: Seq<Span>,
    before: Seq<Seq<char>>,
    after: Seq<Seq<char>>,
    hunks: Seq<Hunk>,
    second: bool,
)
    requires
        transforms(hunks, before, after),
        words.len() == side((before.len() as int, after.len() as int), second),
        apart(words),
    ensures
        apart(changed_spans(words, hunks, second)),
        are_words(changed_spans(words, hunks, second), words),
        second ==> holds_foreign(changed_spans(words, hunks, second), words, after, before),
        !second ==> holds_foreign(changed_spans(words, hunks, second), words, before, after),
        hunks.len() == 0 ==> changed_spans(words, hunks, second).len() == 0,
{
    let len = hunks.len() as int;
    let list = changed(words, hunks, second, len);
    lemma_changed_words(words, hunks, second, len);
    lemma_changed_apart(
        words,
        hunks,
        before.len() as int,
        after.len() as int,
        second,
        len,
    );
    lemma_joined_apart(list);
    assert forall|i: int|
        0 <= i < words.len() && (if second {
            !before.contains(after[i])
        } else {
            !after.contains(before[i])
        }) implies list.contains(#[trigger] words[i]) by {
        lemma_foreign_token(hunks, before, after, second, i);
        let h = choose|h: int|
            0 <= h < hunks.len() && hunk_part(#[trigger] hunks[h], second).0 <= i < hunk_part(
                hunks[h],
                second,
            ).1;
        lemma_changed_contains(words, hunks, second, len, h, i);
    }
}

/// The texts of the words between the first `k` hunks and before them, in the first list
/// of words or in the second (with `k` one more than the number of hunks, of all words
/// that an edit script does not change).
pub open spec fn unchanged(
    before: Seq<Seq<char>>,
    after: Seq<Seq<char>>,
    hunks: Seq<Hunk>,
    second: bool,
    k: int,
) -> Seq<Seq<char>>
    decreases k,
{
    if k <= 0 {
        Seq::empty()
    } else {
        let texts = if second {
            after
        } else {
            before
        };
        let (i, j) = gap_start(hunks, k - 1);
        let start = if second {
            j
        } else {
            i
        };
        let len = gap_len(hunks, before.len() as int, after.len() as int, k - 1);
        unchanged(before, after, hunks, second, k - 1) + texts.subrange(start, start + len)
    }
}

/// The words that an edit script does not change are the same on both sides, in the same
/// order.
pub proof fn law_unchanged_words_are_the_same(
    before: Seq<Seq<char>>,
    after: Seq<Seq<char>>,
    hunks: Seq<Hunk>,
    k: int,
)
    requires
        transforms(hunks, before, after),
        0 <= k <= hunks.len() + 1,
    ensures
        unchanged(before, after, hunks, false, k) == unchanged(before, after, hunks, true, k),
    decreases k,
{
    if k > 0 {
        law_unchanged_words_are_the_same(before, after, hunks, k - 1);
        let (n, m) = (before.len() as int, after.len() as int);
        let (i, j) = gap_start(hunks, k - 1);
        let len = gap_len(hunks, n, m, k - 1);
        assert(0 <= i && 0 <= j && i + len <= n && j + len <= m);
        let (a, b) = (before.subrange(i, i + len), after.subrange(j, j + len));
        assert forall|t: int| 0 <= t < len implies #[trigger] a[t] == b[t] by {
            assert(before[gap_start(hunks, k - 1).0 + t] == after[gap_start(hunks, k - 1).1 + t]);
        }
        assert(a =~= b);
    }
}

/// Every word is changed or unchanged: together they are as many as all words.
pub proof fn law_words_are_changed_or_unchanged(
    words: Seq<Span>,
    before: Seq<Seq<char>>,
    after: Seq<Seq<char>>,
    hunks: Seq<Hunk>,
    second: bool,
)
    requires
        is_script(hunks, before.len() as int, after.len() as int),
        words.len() == if second {
            after.len()
        } else {
            before.len()
        },
    ensures
        changed(words, hunks, second, hunks.len() as int).len() + unchanged(
            before,
            after,
            hunks,
            second,
            hunks.len() as int + 1,
        ).len() == words.len(),
{
    let len = hunks.len() as int;
    lemma_changed_count(words, before, after, hunks, second, len);
    assert(gap_len(hunks, before.len() as int, after.len() as int, len) >= 0);
}

/// The words before hunk `k` are in earlier hunks or between them.
proof fn lemma_changed_count(
    words: Seq<Span>,
    before: Seq<Seq<char>>,
    after: Seq<Seq<char>>,
    hunks: Seq<Hunk>,
    second: bool,
    k: int,
)
    requires
        is_script(hunks, before.len() as int, after.len() as int),
        words.len() == side((before.len() as int, after.len() as int), second),
        0 <= k <= hunks.len(),
    ensures
        changed(words, hunks, second, k).len() + unchanged(before, after, hunks, second, k).len()
            == side(gap_start(hunks, k), second),
    decreases k,
{
    if k > 0 {
        lemma_changed_count(words, before, after, hunks, second, k - 1);
        assert(gap_len(hunks, before.len() as int, after.len() as int, k - 1) >= 0);
        let (from, to) = hunk_part(hunks[k - 1], second);
        assert(0 <= from <= to <= words.len());
    }
}

/// A word is reported exactly where it is in a hunk: no other word is.
pub proof fn law_word_is_reported_where_it_is_in_a_hunk(
    words: Seq<Span>,
    hunks: Seq<Hunk>,
    n: int,
    m: int,
    i: int,
)
    requires
        is_script(hunks, n, m),
        apart(words),
        0 <= i < words.len(),
        words[i].start < words[i].end,
    ensures
        words.len() == n ==> (changed_spans(words, hunks, false).contains(words[i]) <==> exists|
            h: int,
        |
            0 <= h < hunks.len() && (#[trigger] hunks[h]).before_start <= i < hunks[h].before_end),
        words.len() == m ==> (changed_spans(words, hunks, true).contains(words[i]) <==> exists|
            h: int,
        |
            0 <= h < hunks.len() && (#[trigger] hunks[h]).after_start <= i < hunks[h].after_end),
{
    if words.len() == n {
        lemma_reported(words, hunks, n, m, false, i);
    }
    if words.len() == m {
        lemma_reported(words, hunks, n, m, true, i);
    }
}

/// A word is reported exactly where it is in a hunk, on one side.
proof fn lemma_reported(
    words: Seq<Span>,
    hunks: Seq<Hunk>,
    n: int,
    m: int,
    second: bool,
    i: int,
)
    requires
        is_script(hunks, n, m),
        words.len() == side((n, m), second),
        apart(words),
        0 <= i < words.len(),
        words[i].start < words[i].end,
    ensures
        changed_spans(words, hunks, second).contains(words[i]) <==> exists|h: int|
            0 <= h < hunks.len() && hunk_part(#[trigger] hunks[h], second).0 <= i < hunk_part(
                hunks[h],
                second,
            ).1,
{
    let len = hunks.len() as int;
    let list = changed(words, hunks, second, len);
    lemma_changed_apart(words, hunks, n, m, second, len);
    lemma_joined_apart(list);
    if exists|h: int|
        0 <= h < hunks.len() && hunk_part(#[trigger] hunks[h], second).0 <= i < hunk_part(
            hunks[h],
            second,
        ).1 {
        let h = choose|h: int|
            0 <= h < hunks.len() && hunk_part(#[trigger] hunks[h], second).0 <= i < hunk_part(
                hunks[h],
                second,
            ).1;
        lemma_changed_contains(words, hunks, second, len, h, i);
    }
    if list.contains(words[i]) {
        let p = choose|p: int| 0 <= p < list.len() && list[p] == words[i];
        let (h, j) = lemma_changed_place(words, hunks, second, len, p);
        if i < j {
            assert(words[i].end < words[j].start);
        } else if j < i {
            assert(words[j].end < words[i].start);
        }
    }
}

/// The hunk and the place in the list of words that a changed word comes from.
proof fn lemma_changed_place(words: Seq<Span>, hunks: Seq<Hunk>, second: bool, k: int, p: int) -> (
    place: (int, int))
    requires
        0 <= k <= hunks.len(),
        forall|k: int|
            0 <= k < hunks.len() ==> 0 <= hunk_part(#[trigger] hunks[k], second).0 <= hunk_part(
                hunks[k],
                second,
            ).1 <= words.len(),
        0 <= p < changed(words, hunks, second, k).len(),
    ensures
        0 <= place.0 < k,
        hunk_part(hunks[place.0], second).0 <= place.1 < hunk_part(hunks[place.0], second).1,
        changed(words, hunks, second, k)[p] == words[place.1],
    decreases k,
{
    let before = changed(words, hunks, second, k - 1);
    let (from, to) = hunk_part(hunks[k - 1], second);
    if p < before.len() {
        lemma_changed_place(words, hunks, second, k - 1, p)
    } else {
        (k - 1, from + (p - before.len()))
    }
}

/// Joining spans that touch covers the same positions, with spans that are apart.
proof fn lemma_joined(list: Seq<Span>, within: Span)
    requires
        ordered_within(list, within),
    ensures
        ordered_within(joined(list), within),
        apart(joined(list)),
        joined(list).len() == 0 <==> list.len() == 0,
        list.len() > 0 ==> joined(list).last().end == list.last().end,
        forall|p: int| #[trigger] in_spans(joined(list), p) <==> in_spans(list, p),
    decreases list.len(),
{
    let all = joined(list);
    if list.len() > 0 {
        let front = list.drop_last();
        let before = joined(front);
        let s = list.last();
        let last = list.len() - 1;
        assert(ordered_within(front, within));
        lemma_joined(front, within);
        assert(list[last].start < list[last].end);
        let touches = before.len() > 0 && before.last().end == s.start;
        if before.len() > 0 {
            assert(front.last() == list[last - 1]);
            assert(list[last - 1].end <= list[last].start);
        }
        assert forall|a: int, b: int| 0 <= a < b < all.len() implies all[a].end < all[b].start by {
            if b < before.len() {
                assert(before[a].end < before[b].start);
            } else {
                assert(before[a].start < before[a].end);
                if a < before.len() - 1 {
                    assert(before[a].end < before[before.len() - 1].start);
                }
            }
        }
        assert forall|p: int| #[trigger] in_spans(all, p) <==> in_spans(list, p) by {
            assert(in_spans(before, p) <==> in_spans(front, p));
            if in_spans(front, p) {
                let a = choose|a: int|
                    0 <= a < front.len() && (#[trigger] front[a]).start <= p < front[a].end;
                assert(list[a].start <= p < list[a].end);
            }
            if in_spans(before, p) {
                let a = choose|a: int|
                    0 <= a < before.len() && (#[trigger] before[a]).start <= p < before[a].end;
                assert(all[a].start <= p < all[a].end);
            }
            if s.start <= p < s.end {
                assert(list[last].start <= p < list[last].end);
                assert(all[all.len() - 1].start <= p < all[all.len() - 1].end) by {
                    if touches {
                        assert(before[before.len() - 1].start < before[before.len() - 1].end);
                    }
                }
            }
            if in_spans(all, p) {
                let a = choose|a: int|
                    0 <= a < all.len() && (#[trigger] all[a]).start <= p < all[a].end;
                if a < before.len() && p < before[a].end {
                    assert(before[a].start <= p < before[a].end);
                } else {
                    assert(s.start <= p < s.end);
                }
            }
            if in_spans(list, p) {
                let a = choose|a: int|
                    0 <= a < list.len() && (#[trigger] list[a]).start <= p < list[a].end;
                if a < last {
                    assert(front[a].start <= p < front[a].end);
                }
            }
        }
    } else {
        assert(all =~= list);
    }
}

/// The words that an edit script changes are in order where all words are.
proof fn lemma_changed_ordered(
    words: Seq<Span>,
    within: Span,
    hunks: Seq<Hunk>,
    n: int,
    m: int,
    after: bool,
    k: int,
)
    requires
        is_script(hunks, n, m),
        words.len() == side((n, m), after),
        ordered_within(words, within),
        0 <= k <= hunks.len(),
    ensures
        ordered_within(changed(words, hunks, after, k), within),
        forall|p: int, j: int|
            0 <= p < changed(words, hunks, after, k).len() && side(gap_start(hunks, k), after) <= j
                < words.len() ==> (#[trigger] changed(words, hunks, after, k)[p]).end <= (
            #[trigger] words[j]).start,
    decreases k,
{
    if k > 0 {
        lemma_changed_ordered(words, within, hunks, n, m, after, k - 1);
        let before = changed(words, hunks, after, k - 1);
        let all = changed(words, hunks, after, k);
        let (from, to) = hunk_part(hunks[k - 1], after);
        assert(gap_len(hunks, n, m, k - 1) >= 0);
        assert(side(gap_start(hunks, k - 1), after) <= from <= to <= words.len());
        assert forall|p: int| 0 <= p < all.len() implies within.start <= (#[trigger] all[p]).start
            < all[p].end <= within.end by {
            if p < before.len() {
                assert(all[p] == before[p]);
            } else {
                assert(all[p] == words[from + (p - before.len())]);
            }
        }
        assert forall|p: int, q: int| 0 <= p < q < all.len() implies all[p].end <= all[q].start by {
            if q < before.len() {
                assert(before[p].end <= before[q].start);
            } else if p < before.len() {
                assert(before[p].end <= words[from + (q - before.len())].start);
            }
        }
    }
}

/// Which positions are reported on one side: those of the words in hunks.
proof fn lemma_reported_positions(
    words: Seq<Span>,
    within: Span,
    hunks: Seq<Hunk>,
    n: int,
    m: int,
    second: bool,
    p: int,
)
    requires
        is_script(hunks, n, m),
        words.len() == side((n, m), second),
        ordered_within(words, within),
    ensures
        apart(changed_spans(words, hunks, second)),
        in_spans(changed_spans(words, hunks, second), p) <==> exists|h: int, i: int|
            0 <= h < hunks.len() && hunk_part(#[trigger] hunks[h], second).0 <= i < hunk_part(
                hunks[h],
                second,
            ).1 && (#[trigger] words[i]).start <= p < words[i].end,
{
    let len = hunks.len() as int;
    let list = changed(words, hunks, second, len);
    lemma_changed_ordered(words, within, hunks, n, m, second, len);
    lemma_joined(list, within);
    assert(in_spans(changed_spans(words, hunks, second), p) <==> in_spans(list, p));
    if in_spans(list, p) {
        let a = choose|a: int| 0 <= a < list.len() && (#[trigger] list[a]).start <= p < list[a].end;
        let (h, i) = lemma_changed_place(words, hunks, second, len, a);
        assert(hunk_part(hunks[h], second).0 <= i < hunk_part(hunks[h], second).1);
        assert(words[i].start <= p < words[i].end);
    }
    if exists|h: int, i: int|
        0 <= h < hunks.len() && hunk_part(#[trigger] hunks[h], second).0 <= i < hunk_part(
            hunks[h],
            second,
        ).1 && (#[trigger] words[i]).start <= p < words[i].end {
        let (h, i) = choose|h: int, i: int|
            0 <= h < hunks.len() && hunk_part(#[trigger] hunks[h], second).0 <= i < hunk_part(
                hunks[h],
                second,
            ).1 && (#[trigger] words[i]).start <= p < words[i].end;
        lemma_changed_contains(words, hunks, second, len, h, i);
        let a = choose|a: int| 0 <= a < list.len() && list[a] == words[i];
        assert(list[a].start <= p < list[a].end);
    }
}

/// A position is in a reported range exactly where it is in a word that is in a hunk; words
/// that touch are reported as one range, so that any two ranges are apart.
pub proof fn law_positions_of_words_in_hunks_are_reported(
    words: Seq<Span>,
    within: Span,
    hunks: Seq<Hunk>,
    n: int,
    m: int,
    p: int,
)
    requires
        is_script(hunks, n, m),
        ordered_within(words, within),
    ensures
        words.len() == n ==> {
            &&& apart(changed_spans(words, hunks, false))
            &&& in_spans(changed_spans(words, hunks, false), p) <==> exists|h: int, i: int|
                0 <= h < hunks.len() && (#[trigger] hunks[h]).before_start <= i
                    < hunks[h].before_end && (#[trigger] words[i]).start <= p < words[i].end
        },
        words.len() == m ==> {
            &&& apart(changed_spans(words, hunks, true))
            &&& in_spans(changed_spans(words, hunks, true), p) <==> exists|h: int, i: int|
                0 <= h < hunks.len() && (#[trigger] hunks[h]).after_start <= i < hunks[h].after_end
                    && (#[trigger] words[i]).start <= p < words[i].end
        },
{
    if words.len() == n {
        lemma_reported_positions(words, within, hunks, n, m, false, p);
    }
    if words.len() == m {
        lemma_reported_positions(words, within, hunks, n, m, true, p);
    }
}

/// The texts of those of the first `n` words that are not in a list.
pub open spec fn left_over(
    words: Seq<Span>,
    texts: Seq<Seq<char>>,
    list: Seq<Span>,
    n: int,
) -> Seq<Seq<char>>
    decreases n,
{
    if n <= 0 {
        Seq::empty()
    } else if list.contains(words[n - 1]) {
        left_over(words, texts, list, n - 1)
    } else {
        left_over(words, texts, list, n - 1).push(texts[n - 1])
    }
}

/// Words that are in no hunk are left over, one after the other.
proof fn lemma_left_over_run(
    words: Seq<Span>,
    texts: Seq<Seq<char>>,
    list: Seq<Span>,
    from: int,
    to: int,
)
    requires
        0 <= from <= to <= words.len() == texts.len(),
        forall|i: int| from <= i < to ==> !list.contains(#[trigger] words[i]),
    ensures
        left_over(words, texts, list, to) == left_over(words, texts, list, from) + texts.subrange(
            from,
            to,
        ),
    decreases to - from,
{
    if from < to {
        lemma_left_over_run(words, texts, list, from, to - 1);
        assert(!list.contains(words[to - 1]));
        assert(texts.subrange(from, to) =~= texts.subrange(from, to - 1).push(texts[to - 1]));
    }
    assert(left_over(words, texts, list, to) =~= left_over(words, texts, list, from)
        + texts.subrange(from, to));
}

/// Words that are all in a list leave nothing over.
proof fn lemma_left_over_none(
    words: Seq<Span>,
    texts: Seq<Seq<char>>,
    list: Seq<Span>,
    from: int,
    to: int,
)
    requires
        0 <= from <= to <= words.len(),
        forall|i: int| from <= i < to ==> list.contains(#[trigger] words[i]),
    ensures
        left_over(words, texts, list, to) == left_over(words, texts, list, from),
    decreases to - from,
{
    if from < to {
        lemma_left_over_none(words, texts, list, from, to - 1);
        assert(list.contains(words[to - 1]));
    }
}

/// A token between hunks is in no hunk.
proof fn lemma_gap_is_in_no_hunk(
    hunks: Seq<Hunk>,
    n: int,
    m: int,
    second: bool,
    k: int,
    h: int,
    i: int,
)
    requires
        is_script(hunks, n, m),
        0 <= k <= hunks.len(),
        0 <= h < hunks.len(),
        side(gap_start(hunks, k), second) <= i < side(gap_start(hunks, k), second) + gap_len(
            hunks,
            n,
            m,
            k,
        ),
    ensures
        !(hunk_part(hunks[h], second).0 <= i < hunk_part(hunks[h], second).1),
{
    if h < k - 1 {
        lemma_hunks_in_order(hunks, n, m, second, h, k - 1);
    } else if h > k {
        lemma_hunks_in_order(hunks, n, m, second, k, h);
    }
}

/// Hunks come one after the other.
proof fn lemma_hunks_in_order(hunks: Seq<Hunk>, n: int, m: int, second: bool, g: int, h: int)
    requires
        is_script(hunks, n, m),
        0 <= g < h < hunks.len(),
    ensures
        hunk_part(hunks[g], second).1 <= hunk_part(hunks[h], second).0,
    decreases h - g,
{
    assert(gap_len(hunks, n, m, h) >= 0);
    if g < h - 1 {
        lemma_hunks_in_order(hunks, n, m, second, g, h - 1);
        assert(hunk_part(hunks[h - 1], second).0 <= hunk_part(hunks[h - 1], second).1);
    }
}

/// What is left over before hunk `k`, or in all, is what is unchanged.
proof fn lemma_left_over_is_unchanged(
    words: Seq<Span>,
    before: Seq<Seq<char>>,
    after: Seq<Seq<char>>,
    hunks: Seq<Hunk>,
    second: bool,
    k: int,
)
    requires
        is_script(hunks, before.len() as int, after.len() as int),
        words.len() == side((before.len() as int, after.len() as int), second),
        apart(words),
        forall|i: int| 0 <= i < words.len() ==> (#[trigger] words[i]).start < words[i].end,
        0 <= k <= hunks.len() + 1,
    ensures
        ({
            let texts = if second {
                after
            } else {
                before
            };
            let upto = if k <= hunks.len() {
                side(gap_start(hunks, k), second)
            } else {
                words.len() as int
            };
            left_over(words, texts, changed_spans(words, hunks, second), upto) == unchanged(
                before,
                after,
                hunks,
                second,
                k,
            )
        }),
    decreases k,
{
    let texts = if second {
        after
    } else {
        before
    };
    let (n, m) = (before.len() as int, after.len() as int);
    let list = changed_spans(words, hunks, second);
    if k > 0 {
        lemma_left_over_is_unchanged(words, before, after, hunks, second, k - 1);
        let start = side(gap_start(hunks, k - 1), second);
        let len = gap_len(hunks, n, m, k - 1);
        assert(0 <= start && 0 <= len && start + len <= words.len());
        assert forall|i: int| start <= i < start + len implies !list.contains(
            #[trigger] words[i],
        ) by {
            lemma_reported(words, hunks, n, m, second, i);
            assert forall|h: int| 0 <= h < hunks.len() implies !(hunk_part(
                #[trigger] hunks[h],
                second,
            ).0 <= i < hunk_part(hunks[h], second).1) by {
                lemma_gap_is_in_no_hunk(hunks, n, m, second, k - 1, h, i);
            }
        }
        lemma_left_over_run(words, texts, list, start, start + len);
        if k <= hunks.len() {
            let (from, to) = hunk_part(hunks[k - 1], second);
            assert(from == start + len && from <= to <= words.len());
            assert forall|i: int| from <= i < to implies list.contains(#[trigger] words[i]) by {
                lemma_reported(words, hunks, n, m, second, i);
            }
            lemma_left_over_none(words, texts, list, from, to);
        }
    }
}

/// The words outside the reported ranges are, in order, the same on both sides: those that
/// the edit script leaves unchanged.
pub proof fn law_words_left_over_are_the_same(
    before_words: Seq<Span>,
    after_words: Seq<Span>,
    before: Seq<Seq<char>>,
    after: Seq<Seq<char>>,
    hunks: Seq<Hunk>,
)
    requires
        transforms(hunks, before, after),
        before_words.len() == before.len(),
        after_words.len() == after.len(),
        apart(before_words),
        apart(after_words),
        forall|i: int|
            0 <= i < before_words.len() ==> (#[trigger] before_words[i]).start
                < before_words[i].end,
        forall|i: int|
            0 <= i < after_words.len() ==> (#[trigger] after_words[i]).start < after_words[i].end,
    ensures
        ({
            let removed = changed_spans(before_words, hunks, false);
            let added = changed_spans(after_words, hunks, true);
            let rest = left_over(before_words, before, removed, before.len() as int);
            &&& rest == left_over(after_words, after, added, after.len() as int)
            &&& rest == unchanged(before, after, hunks, false, hunks.len() as int + 1)
        }),
{
    let k = hunks.len() as int + 1;
    lemma_left_over_is_unchanged(before_words, before, after, hunks, false, k);
    lemma_left_over_is_unchanged(after_words, before, after, hunks, true, k);
    law_unchanged_words_are_the_same(before, after, hunks, k);
}

/// Words that both lists have in common at the start are reported on neither side.
pub proof fn law_common_start_is_not_reported(
    words: Seq<Span>,
    before: Seq<Seq<char>>,
    after: Seq<Seq<char>>,
    hunks: Seq<Hunk>,
    i: int,
)
    requires
        transforms(hunks, before, after),
        spares_ends(hunks, before, after),
        same_start(before, after, i + 1),
        apart(words),
        0 <= i < words.len(),
        words[i].start < words[i].end,
    ensures
        words.len() == before.len() ==> !changed_spans(words, hunks, false).contains(words[i]),
        words.len() == after.len() ==> !changed_spans(words, hunks, true).contains(words[i]),
{
    law_word_is_reported_where_it_is_in_a_hunk(
        words,
        hunks,
        before.len() as int,
        after.len() as int,
        i,
    );
}

/// Where two lists of words differ in one word alone, that word is reported on both sides,
/// and no other.
pub proof fn law_single_changed_word_is_reported_alone(
    words: Seq<Span>,
    before: Seq<Seq<char>>,
    after: Seq<Seq<char>>,
    hunks: Seq<Hunk>,
    c: int,
    i: int,
)
    requires
        transforms(hunks, before, after),
        spares_ends(hunks, before, after),
        before.len() == after.len() == words.len(),
        0 <= c < words.len(),
        before[c] != after[c],
        forall|j: int| 0 <= j < words.len() && j != c ==> #[trigger] before[j] == after[j],
        apart(words),
        0 <= i < words.len(),
        words[i].start < words[i].end,
    ensures
        changed_spans(words, hunks, false).contains(words[i]) <==> i == c,
        changed_spans(words, hunks, true).contains(words[i]) <==> i == c,
{
    let n = words.len() as int;
    law_word_is_reported_where_it_is_in_a_hunk(words, hunks, n, n, i);
    lemma_one_token_differs(hunks, before, after, c);
    if i == c {
        if forall|h: int|
            0 <= h < hunks.len() ==> !((#[trigger] hunks[h]).before_start <= c
                < hunks[h].before_end) {
            lemma_unhit_token_is_paired(hunks, before, after, false, c);
        }
        if forall|h: int|
            0 <= h < hunks.len() ==> !((#[trigger] hunks[h]).after_start <= c < hunks[h].after_end) {
            lemma_unhit_token_is_paired(hunks, before, after, true, c);
        }
    }
}

/// A token in no hunk is paired with one of the other list.
proof fn lemma_unhit_token_is_paired(
    hunks: Seq<Hunk>,
    before: Seq<Seq<char>>,
    after: Seq<Seq<char>>,
    second: bool,
    c: int,
)
    requires
        is_script(hunks, before.len() as int, after.len() as int),
        0 <= c < side((before.len() as int, after.len() as int), second),
        forall|h: int|
            0 <= h < hunks.len() ==> !(hunk_part(#[trigger] hunks[h], second).0 <= c < hunk_part(
                hunks[h],
                second,
            ).1),
    ensures
        second ==> exists|i: int| pairs_up(hunks, before.len() as int, after.len() as int, i, c),
        !second ==> exists|j: int| pairs_up(hunks, before.len() as int, after.len() as int, c, j),
{
    let (n, m) = (before.len() as int, after.len() as int);
    let len = hunks.len() as int;
    if c < side(gap_start(hunks, len), second) {
        lemma_hunk_or_gap(hunks, n, m, second, len, c);
    } else {
        assert(side(gap_start(hunks, len), second) <= c < side(gap_start(hunks, len), second)
            + gap_len(hunks, n, m, len));
    }
    let k = choose|k: int|
        0 <= k <= len && side(gap_start(hunks, k), second) <= c < side(gap_start(hunks, k), second)
            + #[trigger] gap_len(hunks, n, m, k);
    let t = c - side(gap_start(hunks, k), second);
    let (i, j) = (gap_start(hunks, k).0 + t, gap_start(hunks, k).1 + t);
    assert(pairs_up(hunks, n, m, i, j));
}

/// Compares two lists of words, and returns the ranges of the words that change in
/// the first and of those that change in the second.
fn compare_words(
    before: &Vec<Range<usize>>,
    before_texts: &Vec<Vec<char>>,
    after: &Vec<Range<usize>>,
    after_texts: &Vec<Vec<char>>,
) -> (ranges: (Vec<Range<usize>>, Vec<Range<usize>>))
    requires
        before@.len() == before_texts@.len(),
        after@.len() == after_texts@.len(),
        before@.len() + after@.len() <= MAX_TOKENS,
        apart(spans(before@)),
        apart(spans(after@)),
    ensures
        ({
            let before_words = token_texts(before_texts@);
            let after_words = token_texts(after_texts@);
            let hunks = histogram_hunks(before_words, after_words);
            &&& transforms(hunks, before_words, after_words)
            &&& spares_ends(hunks, before_words, after_words)
            &&& spans(ranges.0@) == changed_spans(spans(before@), hunks, false)
            &&& spans(ranges.1@) == changed_spans(spans(after@), hunks, true)
            &&& apart(spans(ranges.0@))
            &&& apart(spans(ranges.1@))
            &&& are_words(spans(ranges.0@), spans(before@))
            &&& are_words(spans(ranges.1@), spans(after@))
            &&& holds_foreign(spans(ranges.0@), spans(before@), before_words, after_words)
            &&& holds_foreign(spans(ranges.1@), spans(after@), after_words, before_words)
            &&& before_words == after_words ==> ranges.0@.len() == 0 && ranges.1@.len() == 0
        }),
{
    let hunks = diff_tokens(before_texts, after_texts);
    let ghost before_words = token_texts(before_texts@);
    let ghost after_words = token_texts(after_texts@);
    assert(before_words.len() == before@.len() && after_words.len() == after@.len());
    let removed = changed_ranges(before, &hunks, false);
    let added = changed_ranges(after, &hunks, true);
    proof {
        lemma_changed_spans(spans(before@), before_words, after_words, hunks@, false);
        lemma_changed_spans(spans(after@), before_words, after_words, hunks@, true);
        assert(spans(removed@).len() == removed@.len());
        assert(spans(added@).len() == added@.len());
    }
    (removed, added)
}

// ── Words of plain text ──────────────────────────────────────────────────────

/// The words of a text: the runs without white space.
pub open spec fn words(text: Seq<char>) -> Seq<Span> {
    runs(text, 0, text.len() as int, CharClass::Visible)
}

/// The words in the content of a section, as positions in the document.
pub open spec fn section_words(section: SectionView, text: Seq<char>) -> Seq<Span> {
    runs(text, section.content_start, section.content_end, CharClass::Visible)
}

/// The words of a text, and those of a section, are what is not white space there, and
/// white space stands between any two of them.
pub proof fn law_words_are_what_is_not_white_space(text: Seq<char>, section: SectionView, p: int)
    requires
        within(section, text),
    ensures
        0 <= p < text.len() ==> (in_spans(words(text), p) <==> !is_white_space(text[p])),
        section.content_start <= p < section.content_end ==> (in_spans(
            section_words(section, text),
            p,
        ) <==> !is_white_space(text[p])),
        ordered_within(words(text), Span { start: 0, end: text.len() as int }),
        ordered_within(
            section_words(section, text),
            Span { start: section.content_start, end: section.content_end },
        ),
        apart(words(text)),
        apart(section_words(section, text)),
{
    lemma_runs(text, 0, text.len() as int, CharClass::Visible);
    lemma_runs(text, section.content_start, section.content_end, CharClass::Visible);
    if 0 <= p < text.len() {
        law_visible_runs(text, 0, text.len() as int, p);
    }
    if section.content_start <= p < section.content_end {
        law_visible_runs(text, section.content_start, section.content_end, p);
    }
}

/// Collects the characters of a string.
fn string_chars(s: &str) -> (chars: Vec<char>)
    ensures
        chars@ == s@,
{
    let mut chars: Vec<char> = Vec::new();
    for c in it: s.chars()
        invariant
            chars@ == it.seq().take(it.index()),
            it.seq() == s@,
    {
        chars.push(c);
        assert(chars@ =~= it.seq().take(it.index() + 1));
    }
    chars
}

/// Copies the text of each word out of `chars`, which stands at `offset`.
fn cut_words(
    Ghost(text): Ghost<Seq<char>>,
    chars: &Vec<char>,
    offset: usize,
    list: &Vec<Range<usize>>,
) -> (texts: Vec<Vec<char>>)
    requires
        offset + chars@.len() <= text.len(),
        forall|i: int| 0 <= i < chars@.len() ==> #[trigger] chars@[i] == text[offset + i],
        forall|i: int|
            0 <= i < list@.len() ==> offset <= (#[trigger] list@[i]).start <= list@[i].end <= offset
                + chars@.len(),
    ensures
        token_texts(texts@) == span_texts(text, spans(list@)),
{
    let mut texts: Vec<Vec<char>> = Vec::new();
    let mut i: usize = 0;
    while i < list.len()
        invariant
            offset + chars@.len() <= text.len(),
            forall|i: int| 0 <= i < chars@.len() ==> #[trigger] chars@[i] == text[offset + i],
            forall|i: int|
                0 <= i < list@.len() ==> offset <= (#[trigger] list@[i]).start <= list@[i].end
                    <= offset + chars@.len(),
            i <= list@.len(),
            texts@.len() == i,
            forall|j: int|
                0 <= j < i ==> (#[trigger] texts@[j])@ == span_text(text, span(list@[j])),
        decreases list@.len() - i,
    {
        let word = vstd::slice::slice_subrange(
            chars.as_slice(),
            list[i].start - offset,
            list[i].end - offset,
        );
        assert(word@ =~= span_text(text, span(list@[i as int])));
        texts.push(vstd::slice::slice_to_vec(word));
        i += 1;
    }
    assert(token_texts(texts@) =~= span_texts(text, spans(list@)));
    texts
}

/// Words: where they stand, and their texts.
struct WordList {
    ranges: Vec<Range<usize>>,
    texts: Vec<Vec<char>>,
}

impl WordList {
    /// Whether these are the words `list` of `text`.
    spec fn holds(self, list: Seq<Span>, text: Seq<char>) -> bool {
        &&& spans(self.ranges@) == list
        &&& token_texts(self.texts@) == span_texts(text, list)
    }

    /// Whether no word is empty, and there is a text to each.
    spec fn is_valid(self) -> bool {
        &&& self.ranges@.len() == self.texts@.len()
        &&& forall|i: int|
            0 <= i < self.ranges@.len() ==> (#[trigger] self.ranges@[i]).start
                < self.ranges@[i].end
    }

    /// Finds the words in `chars[from..]`, where `chars` stands at `offset`.
    fn find(Ghost(text): Ghost<Seq<char>>, chars: &Vec<char>, from: usize, offset: usize) -> (found:
        WordList)
        requires
            from <= chars@.len(),
            offset + chars@.len() <= text.len() <= usize::MAX,
            forall|i: int| 0 <= i < chars@.len() ==> #[trigger] chars@[i] == text[offset + i],
        ensures
            found.holds(
                runs(text, offset + from, offset + chars@.len(), CharClass::Visible),
                text,
            ),
    {
        let ranges = find_runs(Ghost(text), chars, from, chars.len(), offset, CharClass::Visible);
        proof {
            lemma_runs(text, offset + from, offset + chars@.len(), CharClass::Visible);
            assert forall|i: int| 0 <= i < ranges@.len() implies offset <= (
            #[trigger] ranges@[i]).start <= ranges@[i].end <= offset + chars@.len() by {
                assert(spans(ranges@)[i] == span(ranges@[i]));
            }
        }
        let texts = cut_words(Ghost(text), chars, offset, &ranges);
        WordList { ranges, texts }
    }

    /// Adds further words.
    fn add(&mut self, more: WordList, Ghost(text): Ghost<Seq<char>>)
        ensures
            forall|a: Seq<Span>, b: Seq<Span>|
                old(self).holds(a, text) && more.holds(b, text) ==> #[trigger] final(self).holds(
                    a + b,
                    text,
                ),
    {
        let ghost before = *self;
        let mut ranges = more.ranges;
        let mut texts = more.texts;
        self.ranges.append(&mut ranges);
        self.texts.append(&mut texts);
        assert(spans(self.ranges@) =~= spans(before.ranges@) + spans(more.ranges@));
        assert(token_texts(self.texts@) =~= token_texts(before.texts@) + token_texts(more.texts@));
        assert forall|a: Seq<Span>, b: Seq<Span>|
            before.holds(a, text) && more.holds(b, text) implies #[trigger] self.holds(
            a + b,
            text,
        ) by {
            assert(span_texts(text, a + b) =~= span_texts(text, a) + span_texts(text, b));
        }
    }
}

/// Words of a text in order are a valid list.
proof fn lemma_word_list(found: WordList, list: Seq<Span>, text: Seq<char>, within: Span)
    requires
        found.holds(list, text),
        ordered_within(list, within),
        within.start <= within.end,
    ensures
        found.is_valid(),
        found.ranges@.len() == list.len(),
{
    assert(spans(found.ranges@).len() == found.ranges@.len());
    assert(token_texts(found.texts@).len() == found.texts@.len());
    assert(span_texts(text, list).len() == list.len());
    assert forall|i: int| 0 <= i < found.ranges@.len() implies (#[trigger] found.ranges@[i]).start
        < found.ranges@[i].end by {
        assert(list[i] == span(found.ranges@[i]));
    }
}

/// Finds the words in the content of a section.
fn find_section_words(text: &Rope, section: &Section) -> (found: WordList)
    requires
        within(section@, rope_chars(*text)),
    ensures
        found.holds(section_words(section@, rope_chars(*text)), rope_chars(*text)),
        found.is_valid(),
        apart(spans(found.ranges@)),
{
    let ghost all = rope_chars(*text);
    let total = text.len_chars();
    let chars = slice_to_chars(slice(text, section.content_start, section.content_end));
    let found = WordList::find(Ghost(all), &chars, 0, section.content_start);
    proof {
        let (from, to) = (section.content_start as int, section.content_end as int);
        lemma_runs(all, from, to, CharClass::Visible);
        lemma_word_list(
            found,
            section_words(section@, all),
            all,
            Span { start: from, end: to },
        );
    }
    found
}

/// Finds the words of a text of its own.
fn find_words(chars: &Vec<char>) -> (found: WordList)
    ensures
        found.holds(words(chars@), chars@),
        found.is_valid(),
        apart(spans(found.ranges@)),
{
    let n = chars.len();
    let found = WordList::find(Ghost(chars@), chars, 0, 0);
    proof {
        lemma_runs(chars@, 0, n as int, CharClass::Visible);
        lemma_word_list(found, words(chars@), chars@, Span { start: 0, end: n as int });
    }
    found
}

// ── Side against base ────────────────────────────────────────────────────────

/// Compares the words of a side with those of a base text, and returns the ranges
/// of the words that were added to the base.
///
/// Words of the base that the side lacks are not reported. Every word of the side
/// that does not occur in the base is reported; where the words are the same,
/// nothing is.
pub fn refine_side_with_base(text: &Rope, side_section: &Section, base_content: &str) -> (added:
    Vec<Range<usize>>)
    requires
        within(side_section@, rope_chars(*text)),
        section_words(side_section@, rope_chars(*text)).len() + words(base_content@).len()
            <= MAX_TOKENS,
    ensures
        ({
            let chars = rope_chars(*text);
            let base_texts = span_texts(base_content@, words(base_content@));
            let side_words = section_words(side_section@, chars);
            let side_texts = span_texts(chars, side_words);
            let hunks = histogram_hunks(base_texts, side_texts);
            &&& transforms(hunks, base_texts, side_texts)
            &&& spares_ends(hunks, base_texts, side_texts)
            &&& spans(added@) == changed_spans(side_words, hunks, true)
            &&& apart(spans(added@))
            &&& are_words(spans(added@), side_words)
            &&& holds_foreign(spans(added@), side_words, side_texts, base_texts)
            &&& base_texts == side_texts ==> added@.len() == 0
        }),
{
    let base_chars = string_chars(base_content);
    let base = find_words(&base_chars);
    let side = find_section_words(text, side_section);
    let (removed, added) = compare_words(&base.ranges, &base.texts, &side.ranges, &side.texts);
    added
}

// ── Within a diff section ────────────────────────────────────────────────────

/// The words of a line that starts at `at`, where the line starts with `prefix`. The
/// prefix is not part of a word.
pub open spec fn line_words(text: Seq<char>, at: int, line: Seq<char>, prefix: char) -> Seq<Span> {
    if line.len() > 0 && line[0] == prefix {
        runs(text, at + 1, at + line.len(), CharClass::Visible)
    } else {
        Seq::empty()
    }
}

/// The words of those of the first `k` lines that start with `prefix`. The lines
/// start at `offset`.
pub open spec fn marked_words(
    text: Seq<char>,
    offset: int,
    lines: Seq<Seq<char>>,
    k: int,
    prefix: char,
) -> Seq<Span>
    decreases k,
{
    if k <= 0 {
        Seq::empty()
    } else {
        marked_words(text, offset, lines, k - 1, prefix) + line_words(
            text,
            offset + line_start(lines, k - 1),
            lines[k - 1],
            prefix,
        )
    }
}

/// The words of the lines of a section that start with `prefix`, as positions in the
/// document.
pub open spec fn diff_words(section: SectionView, text: Seq<char>, prefix: char) -> Seq<Span> {
    let all = lines(raw_content(section, text));
    marked_words(text, section.content_start, all, all.len() as int, prefix)
}

/// Words of marked lines are in order.
proof fn lemma_marked_words(section: SectionView, text: Seq<char>, prefix: char, k: int)
    requires
        within(section, text),
        0 <= k <= lines(raw_content(section, text)).len(),
    ensures
        ordered_within(
            marked_words(
                text,
                section.content_start,
                lines(raw_content(section, text)),
                k,
                prefix,
            ),
            Span {
                start: section.content_start,
                end: section.content_start + line_start(lines(raw_content(section, text)), k),
            },
        ),
        apart(
            marked_words(
                text,
                section.content_start,
                lines(raw_content(section, text)),
                k,
                prefix,
            ),
        ),
        0 <= line_start(lines(raw_content(section, text)), k) <= section.content_end
            - section.content_start,
    decreases k,
{
    let raw = raw_content(section, text);
    let all = lines(raw);
    if k > 0 {
        lemma_marked_words(section, text, prefix, k - 1);
        lemma_line_text(raw, k - 1);
        let at = section.content_start + line_start(all, k - 1);
        let more = line_words(text, at, all[k - 1], prefix);
        let before = marked_words(text, section.content_start, all, k - 1, prefix);
        if all[k - 1].len() > 0 && all[k - 1][0] == prefix {
            lemma_runs(text, at + 1, at + all[k - 1].len(), CharClass::Visible);
        }
        let list = before + more;
        assert forall|i: int, j: int| 0 <= i < j < list.len() implies list[i].end < list[j].start by {
            if i < before.len() && j >= before.len() {
                assert(list[i] == before[i] && list[j] == more[j - before.len()]);
            }
        }
    }
}

/// The words compared within a diff section are on lines that start with the prefix, after
/// the prefix: context lines are ignored.
pub proof fn law_compared_words_are_on_marked_lines(
    section: SectionView,
    text: Seq<char>,
    prefix: char,
    i: int,
)
    requires
        within(section, text),
        0 <= i < diff_words(section, text, prefix).len(),
    ensures
        exists|k: int| #[trigger]
            on_marked_line(
                section.content_start,
                lines(raw_content(section, text)),
                k,
                prefix,
                diff_words(section, text, prefix)[i],
            ),
{
    let all = lines(raw_content(section, text));
    lemma_on_marked_line(section, text, prefix, all.len() as int, i);
}

/// Whether a word is on line `k`, after the prefix that the line starts with.
pub open spec fn on_marked_line(
    offset: int,
    lines: Seq<Seq<char>>,
    k: int,
    prefix: char,
    word: Span,
) -> bool {
    &&& 0 <= k < lines.len()
    &&& lines[k].len() > 0
    &&& lines[k][0] == prefix
    &&& offset + line_start(lines, k) + 1 <= word.start <= word.end <= offset + line_start(
        lines,
        k + 1,
    )
}

/// Words of marked lines are on marked lines.
proof fn lemma_on_marked_line(section: SectionView, text: Seq<char>, prefix: char, k: int, i: int)
    requires
        within(section, text),
        0 <= k <= lines(raw_content(section, text)).len(),
        0 <= i < marked_words(
            text,
            section.content_start,
            lines(raw_content(section, text)),
            k,
            prefix,
        ).len(),
    ensures
        exists|j: int| #[trigger]
            on_marked_line(
                section.content_start,
                lines(raw_content(section, text)),
                j,
                prefix,
                marked_words(
                    text,
                    section.content_start,
                    lines(raw_content(section, text)),
                    k,
                    prefix,
                )[i],
            ),
    decreases k,
{
    let raw = raw_content(section, text);
    let all = lines(raw);
    let offset = section.content_start;
    let before = marked_words(text, offset, all, k - 1, prefix);
    let list = marked_words(text, offset, all, k, prefix);
    if i < before.len() {
        lemma_on_marked_line(section, text, prefix, k - 1, i);
        let j = choose|j: int| #[trigger] on_marked_line(offset, all, j, prefix, before[i]);
        assert(on_marked_line(offset, all, j, prefix, list[i]));
    } else {
        let at = offset + line_start(all, k - 1);
        lemma_line_text(raw, k - 1);
        lemma_runs(text, at + 1, at + all[k - 1].len(), CharClass::Visible);
        let word = line_words(text, at, all[k - 1], prefix)[i - before.len()];
        assert(word == list[i]);
        assert(on_marked_line(offset, all, k - 1, prefix, list[i]));
    }
}

/// All words of all marked lines are compared: every visible character after the prefix of
/// a line that starts with it is in one of the words.
pub proof fn law_all_words_of_marked_lines_are_compared(
    section: SectionView,
    text: Seq<char>,
    prefix: char,
    k: int,
    t: int,
)
    requires
        within(section, text),
        ({
            let all = lines(text.subrange(section.content_start, section.content_end));
            &&& 0 <= k < all.len()
            &&& 0 < t < all[k].len()
            &&& all[k][0] == prefix
            &&& !is_white_space(all[k][t])
        }),
    ensures
        ({
            let all = lines(text.subrange(section.content_start, section.content_end));
            in_spans(
                diff_words(section, text, prefix),
                section.content_start + line_start(all, k) + t,
            )
        }),
{
    let all = lines(raw_content(section, text));
    lemma_marked_complete(section, text, prefix, k, t, all.len() as int);
}

/// The words of the first `n` lines hold every visible character of a marked line.
proof fn lemma_marked_complete(
    section: SectionView,
    text: Seq<char>,
    prefix: char,
    k: int,
    t: int,
    n: int,
)
    requires
        within(section, text),
        0 <= k < n <= lines(raw_content(section, text)).len(),
        0 < t < lines(raw_content(section, text))[k].len(),
        lines(raw_content(section, text))[k][0] == prefix,
        !is_white_space(lines(raw_content(section, text))[k][t]),
    ensures
        in_spans(
            marked_words(
                text,
                section.content_start,
                lines(raw_content(section, text)),
                n,
                prefix,
            ),
            section.content_start + line_start(lines(raw_content(section, text)), k) + t,
        ),
    decreases n,
{
    let raw = raw_content(section, text);
    let all = lines(raw);
    let offset = section.content_start;
    let before = marked_words(text, offset, all, n - 1, prefix);
    let list = marked_words(text, offset, all, n, prefix);
    let p = offset + line_start(all, k) + t;
    if k < n - 1 {
        lemma_marked_complete(section, text, prefix, k, t, n - 1);
        let i = choose|i: int|
            0 <= i < before.len() && (#[trigger] before[i]).start <= p < before[i].end;
        assert(list[i].start <= p < list[i].end);
    } else {
        let at = offset + line_start(all, k);
        lemma_line_text(raw, k);
        assert(all[k][t] == raw[line_start(all, k) + t]);
        assert(text[p] == all[k][t]);
        lemma_runs(text, at + 1, at + all[k].len(), CharClass::Visible);
        assert(CharClass::Visible.admits(text[p]));
        let more = runs(text, at + 1, at + all[k].len(), CharClass::Visible);
        let i = choose|i: int| 0 <= i < more.len() && (#[trigger] more[i]).start <= p < more[i].end;
        assert(list[before.len() + i] == more[i]);
        assert(list[before.len() + i].start <= p < list[before.len() + i].end);
    }
}

/// The compared words are apart from each other, and hold no white space.
pub proof fn law_compared_words_are_apart(section: SectionView, text: Seq<char>, prefix: char)
    requires
        within(section, text),
    ensures
        apart(diff_words(section, text, prefix)),
        forall|i: int, p: int|
            0 <= i < diff_words(section, text, prefix).len() && (#[trigger] diff_words(
                section,
                text,
                prefix,
            )[i]).start <= p < diff_words(section, text, prefix)[i].end ==> !is_white_space(
                #[trigger] text[p],
            ),
{
    let all = lines(raw_content(section, text));
    lemma_marked_words(section, text, prefix, all.len() as int);
    lemma_marked_visible(section, text, prefix, all.len() as int);
}

/// The words of the first `n` lines hold no white space.
proof fn lemma_marked_visible(section: SectionView, text: Seq<char>, prefix: char, n: int)
    requires
        within(section, text),
        0 <= n <= lines(raw_content(section, text)).len(),
    ensures
        ({
            let list = marked_words(
                text,
                section.content_start,
                lines(raw_content(section, text)),
                n,
                prefix,
            );
            forall|i: int, p: int|
                0 <= i < list.len() && (#[trigger] list[i]).start <= p < list[i].end
                    ==> !is_white_space(#[trigger] text[p])
        }),
    decreases n,
{
    let raw = raw_content(section, text);
    let all = lines(raw);
    let offset = section.content_start;
    let list = marked_words(text, offset, all, n, prefix);
    if n > 0 {
        lemma_marked_visible(section, text, prefix, n - 1);
        let before = marked_words(text, offset, all, n - 1, prefix);
        let at = offset + line_start(all, n - 1);
        lemma_line_text(raw, n - 1);
        if all[n - 1].len() > 0 {
            lemma_runs(text, at + 1, at + all[n - 1].len(), CharClass::Visible);
        }
        let more = line_words(text, at, all[n - 1], prefix);
        assert forall|i: int, p: int|
            0 <= i < list.len() && (#[trigger] list[i]).start <= p < list[i].end
                implies !is_white_space(#[trigger] text[p]) by {
            if i < before.len() {
                assert(list[i] == before[i]);
            } else {
                assert(list[i] == more[i - before.len()]);
                assert(CharClass::Visible.admits(text[p]));
            }
        }
    }
}

/// A line is marked in one way, so that all marked lines together have no more
/// words than characters.
proof fn lemma_marked_count(section: SectionView, text: Seq<char>, k: int)
    requires
        within(section, text),
        0 <= k <= lines(raw_content(section, text)).len(),
    ensures
        ({
            let all = lines(raw_content(section, text));
            &&& marked_words(text, section.content_start, all, k, '-').len() + marked_words(
                text,
                section.content_start,
                all,
                k,
                '+',
            ).len() <= line_start(all, k)
            &&& line_start(all, k) <= section.content_end - section.content_start
        }),
    decreases k,
{
    let raw = raw_content(section, text);
    let all = lines(raw);
    if k > 0 {
        lemma_marked_count(section, text, k - 1);
        lemma_line_text(raw, k - 1);
        let at = section.content_start + line_start(all, k - 1);
        if all[k - 1].len() > 0 {
            let (from, to) = (at + 1, at + all[k - 1].len());
            lemma_runs(text, from, to, CharClass::Visible);
            lemma_count(runs(text, from, to, CharClass::Visible), Span { start: from, end: to });
        }
    }
}

/// Finds the words of the lines of a section that start with `prefix`.
fn find_diff_words(text: &Rope, section: &Section, prefix: char) -> (found: WordList)
    requires
        within(section@, rope_chars(*text)),
    ensures
        found.holds(diff_words(section@, rope_chars(*text), prefix), rope_chars(*text)),
        found.is_valid(),
        apart(spans(found.ranges@)),
{
    let ghost chars = rope_chars(*text);
    let ghost raw = raw_content(section@, chars);
    let total = text.len_chars();
    let parts = slice_lines(slice(text, section.content_start, section.content_end));
    let ghost all = lines(raw);
    let mut found = WordList { ranges: Vec::new(), texts: Vec::new() };
    let mut at: usize = section.content_start;
    let mut k: usize = 0;
    assert(spans(found.ranges@) =~= Seq::<Span>::empty());
    assert(token_texts(found.texts@) =~= span_texts(chars, Seq::<Span>::empty()));
    while k < parts.len()
        invariant
            k <= parts@.len(),
            chars == rope_chars(*text),
            chars.len() == total,
            within(section@, chars),
            raw == raw_content(section@, chars),
            all == lines(raw),
            all == slice_texts(parts@),
            at == section.content_start + line_start(all, k as int),
            found.holds(
                marked_words(chars, section.content_start as int, all, k as int, prefix),
                chars,
            ),
        decreases parts@.len() - k,
    {
        let line = slice_to_chars(parts[k]);
        assert(line@ == all[k as int]);
        proof {
            lemma_line_text(raw, k as int);
        }
        if line.len() > 0 && line[0] == prefix {
            assert forall|i: int| 0 <= i < line@.len() implies #[trigger] line@[i] == chars[at
                + i] by {
                assert(line@[i] == raw[line_start(all, k as int) + i]);
            }
            let more = WordList::find(Ghost(chars), &line, 1, at);
            found.add(more, Ghost(chars));
        } else {
            assert(marked_words(chars, section.content_start as int, all, k + 1, prefix)
                =~= marked_words(chars, section.content_start as int, all, k as int, prefix));
        }
        at += line.len();
        k += 1;
    }
    proof {
        let list = diff_words(section@, chars, prefix);
        lemma_marked_words(section@, chars, prefix, all.len() as int);
        lemma_word_list(
            found,
            list,
            chars,
            Span {
                start: section.content_start as int,
                end: section.content_start + line_start(all, all.len() as int),
            },
        );
    }
    found
}

/// Compares, word by word, the `-` lines with the `+` lines of a `Diff` section.
///
/// Returns the removed ranges, which are on `-` lines, and the added ranges, which
/// are on `+` lines. Context lines are ignored. Every word of the one kind of lines
/// that does not occur on the other is reported; where the words are the same,
/// nothing is.
pub fn refine_diff_section(text: &Rope, section: &Section) -> (ranges: (
    Vec<Range<usize>>,
    Vec<Range<usize>>,
))
    requires
        within(section@, rope_chars(*text)),
        diff_words(section@, rope_chars(*text), '-').len() + diff_words(
            section@,
            rope_chars(*text),
            '+',
        ).len() <= MAX_TOKENS,
    ensures
        ({
            let chars = rope_chars(*text);
            let removed_words = diff_words(section@, chars, '-');
            let added_words = diff_words(section@, chars, '+');
            let removed_texts = span_texts(chars, removed_words);
            let added_texts = span_texts(chars, added_words);
            let hunks = histogram_hunks(removed_texts, added_texts);
            &&& transforms(hunks, removed_texts, added_texts)
            &&& spares_ends(hunks, removed_texts, added_texts)
            &&& apart(spans(ranges.0@))
            &&& apart(spans(ranges.1@))
            &&& spans(ranges.0@) == changed_spans(removed_words, hunks, false)
            &&& spans(ranges.1@) == changed_spans(added_words, hunks, true)
            &&& are_words(spans(ranges.0@), removed_words)
            &&& are_words(spans(ranges.1@), added_words)
            &&& holds_foreign(spans(ranges.0@), removed_words, removed_texts, added_texts)
            &&& holds_foreign(spans(ranges.1@), added_words, added_texts, removed_texts)
            &&& removed_texts == added_texts ==> ranges.0@.len() == 0 && ranges.1@.len() == 0
        }),
{
    let removed = find_diff_words(text, section, '-');
    let added = find_diff_words(text, section, '+');
    assert(spans(removed.ranges@).len() == removed.ranges@.len());
    assert(spans(added.ranges@).len() == added.ranges@.len());
    compare_words(&removed.ranges, &removed.texts, &added.ranges, &added.texts)
}

// ── Side against diff ────────────────────────────────────────────────────────

/// Where in the document the characters of a resolved diff stand, for the first `n`
/// lines. The lines start at `offset`.
pub open spec fn resolved_positions(
    offset: int,
    lines: Seq<Seq<char>>,
    n: int,
    kept: char,
    dropped: char,
) -> Seq<int>
    decreases n,
{
    if n <= 0 {
        Seq::empty()
    } else {
        let line = lines[n - 1];
        let skip = skipped(line, kept, dropped);
        resolved_positions(offset, lines, n - 1, kept, dropped) + Seq::new(
            (line.len() - skip) as nat,
            |t: int| offset + line_start(lines, n - 1) + skip + t,
        )
    }
}

/// Where in the document the characters of the side of a `Diff` section stand.
pub open spec fn side_positions(section: SectionView, text: Seq<char>) -> Seq<int> {
    let all = lines(raw_content(section, text));
    resolved_positions(section.content_start, all, all.len() as int, '+', '-')
}

/// What is known of the positions of the first `n` lines of a resolved diff: there is
/// one for each character, which stands there; and the next character stands next to
/// it, unless it is a line feed.
proof fn lemma_positions(
    section: SectionView,
    text: Seq<char>,
    n: int,
    kept: char,
    dropped: char,
)
    requires
        within(section, text),
        0 <= n <= lines(raw_content(section, text)).len(),
    ensures
        ({
            let all = lines(raw_content(section, text));
            let version = resolved_lines(all, n, kept, dropped);
            let positions = resolved_positions(section.content_start, all, n, kept, dropped);
            let end = section.content_start + line_start(all, n);
            &&& end <= section.content_end
            &&& positions.len() == version.len() <= line_start(all, n)
            &&& forall|i: int|
                0 <= i < positions.len() ==> {
                    &&& section.content_start <= #[trigger] positions[i] < end
                    &&& text[positions[i]] == version[i]
                }
            &&& forall|i: int, j: int|
                0 <= i && j == i + 1 && j < positions.len() && version[i] != '\n'
                    ==> #[trigger] positions[i] + 1 == #[trigger] positions[j]
            &&& forall|i: int, j: int|
                0 <= i < j < positions.len() ==> positions[i] < positions[j]
            &&& 0 < n < all.len() && positions.len() > 0 ==> version.last() == '\n'
        }),
    decreases n,
{
    let raw = raw_content(section, text);
    let all = lines(raw);
    if n > 0 {
        lemma_positions(section, text, n - 1, kept, dropped);
        lemma_line_text(raw, n - 1);
        lemma_lines_shape(raw);
        let line = all[n - 1];
        let skip = skipped(line, kept, dropped);
        let before = resolved_positions(section.content_start, all, n - 1, kept, dropped);
        let positions = resolved_positions(section.content_start, all, n, kept, dropped);
        let old_version = resolved_lines(all, n - 1, kept, dropped);
        let version = resolved_lines(all, n, kept, dropped);
        let end = section.content_start + line_start(all, n);
        assert forall|i: int| 0 <= i < positions.len() implies {
            &&& section.content_start <= #[trigger] positions[i] < end
            &&& text[positions[i]] == version[i]
        } by {
            if i < before.len() {
                assert(positions[i] == before[i]);
            } else {
                let t = i - before.len();
                assert(version[i] == line[skip + t]);
                assert(line[skip + t] == raw[line_start(all, n - 1) + skip + t]);
            }
        }
        assert forall|i: int, j: int|
            0 <= i && j == i + 1 && j < positions.len() && version[i] != '\n' implies
            #[trigger] positions[i] + 1 == #[trigger] positions[j] by {
            if i < before.len() {
                assert(positions[i] == before[i]);
                assert(version[i] == old_version[i]);
                if i == before.len() - 1 {
                    assert(old_version.last() == '\n');
                } else {
                    assert(positions[j] == before[j]);
                }
            }
        }
        assert forall|i: int, j: int| 0 <= i < j < positions.len() implies positions[i]
            < positions[j] by {
            if j < before.len() {
                assert(before[i] < before[j]);
            } else if i < before.len() {
                assert(before[i] < section.content_start + line_start(all, n - 1));
            }
        }
        if n < all.len() && positions.len() > 0 {
            if line.len() > skip {
                assert(version.last() == line.last());
            } else {
                assert(version =~= old_version);
                assert(n - 1 > 0);
            }
        }
    }
}

/// Where in the document a word of the side of a `Diff` section stands. A word does
/// not reach across lines, so its characters stand next to each other.
pub open spec fn mapped_span(positions: Seq<int>, word: Span) -> Span {
    Span {
        start: positions[word.start],
        end: positions[word.start] + (word.end - word.start),
    }
}

/// Where in the document the words of the side of a `Diff` section stand.
pub open spec fn side_words(section: SectionView, text: Seq<char>) -> Seq<Span> {
    let positions = side_positions(section, text);
    words(diff_side(raw_content(section, text))).map_values(
        |word: Span| mapped_span(positions, word),
    )
}

/// The characters of a word stand next to each other in the document.
proof fn lemma_word_positions(section: SectionView, text: Seq<char>, word: Span, n: int)
    requires
        within(section, text),
        words(diff_side(raw_content(section, text))).contains(word),
        0 <= n < word.end - word.start,
    ensures
        0 <= word.start < word.end <= side_positions(section, text).len(),
        side_positions(section, text)[word.start + n] == side_positions(section, text)[word.start]
            + n,
    decreases n,
{
    let version = diff_side(raw_content(section, text));
    let positions = side_positions(section, text);
    let all = lines(raw_content(section, text));
    lemma_positions(section, text, all.len() as int, '+', '-');
    lemma_runs(version, 0, version.len() as int, CharClass::Visible);
    let i = choose|i: int| 0 <= i < words(version).len() && words(version)[i] == word;
    assert(words(version)[i].start < words(version)[i].end);
    if n > 0 {
        lemma_word_positions(section, text, word, n - 1);
        let p = word.start + (n - 1);
        assert(CharClass::Visible.admits(version[p]));
        let q = p + 1;
        assert(positions[p] + 1 == positions[q]);
    }
}

/// The words of the side of a `Diff` section are apart in the document.
proof fn lemma_side_words_apart(section: SectionView, text: Seq<char>)
    requires
        within(section, text),
    ensures
        apart(side_words(section, text)),
{
    let version = diff_side(raw_content(section, text));
    let positions = side_positions(section, text);
    let all = lines(raw_content(section, text));
    let list = words(version);
    let mapped = side_words(section, text);
    lemma_positions(section, text, all.len() as int, '+', '-');
    lemma_runs(version, 0, version.len() as int, CharClass::Visible);
    assert forall|i: int, j: int| 0 <= i < j < mapped.len() implies mapped[i].end
        < mapped[j].start by {
        let (a, b) = (list[i], list[j]);
        assert(list.contains(a));
        assert(a.start < a.end < b.start < b.end <= version.len());
        lemma_word_positions(section, text, a, a.end - a.start - 1);
        assert(positions[a.end - 1] < positions[a.end] < positions[b.start]);
    }
}

/// Word `i` of the side of a `Diff` section stands in the document where its mapped
/// span says.
proof fn lemma_side_word(section: SectionView, text: Seq<char>, i: int)
    requires
        within(section, text),
        0 <= i < side_words(section, text).len(),
    ensures
        section.content_start <= side_words(section, text)[i].start < side_words(section, text)[i].end
            <= section.content_end,
        span_text(text, side_words(section, text)[i]) == span_text(
            diff_side(raw_content(section, text)),
            words(diff_side(raw_content(section, text)))[i],
        ),
{
    let version = diff_side(raw_content(section, text));
    let positions = side_positions(section, text);
    let all = lines(raw_content(section, text));
    let word = words(version)[i];
    let mapped = side_words(section, text)[i];
    assert(words(version).contains(word));
    lemma_positions(section, text, all.len() as int, '+', '-');
    assert(word.start < word.end <= version.len()) by {
        lemma_runs(version, 0, version.len() as int, CharClass::Visible);
    }
    lemma_word_positions(section, text, word, word.end - word.start - 1);
    assert(positions[word.start + (word.end - word.start - 1)] < section.content_end);
    assert(section.content_start <= positions[word.start]);
    let a = span_text(text, mapped);
    let b = span_text(version, word);
    assert forall|t: int| 0 <= t < a.len() implies a[t] == b[t] by {
        lemma_word_positions(section, text, word, t);
        assert(text[positions[word.start + t]] == version[word.start + t]);
    }
    assert(a =~= b);
}

/// The words of the side of a `Diff` section stand in the document where their mapped
/// spans say: inside the section, apart from each other, with the same texts.
pub proof fn law_side_words_stand_in_the_document(section: SectionView, text: Seq<char>)
    requires
        within(section, text),
    ensures
        side_words(section, text).len() == words(diff_side(raw_content(section, text))).len(),
        forall|i: int|
            0 <= i < side_words(section, text).len() ==> section.content_start <= (
            #[trigger] side_words(section, text)[i]).start < side_words(section, text)[i].end
                <= section.content_end,
        apart(side_words(section, text)),
        span_texts(text, side_words(section, text)) == span_texts(
            diff_side(raw_content(section, text)),
            words(diff_side(raw_content(section, text))),
        ),
{
    let version = diff_side(raw_content(section, text));
    let list = words(version);
    let mapped = side_words(section, text);
    assert forall|i: int| 0 <= i < mapped.len() implies {
        &&& section.content_start <= (#[trigger] mapped[i]).start < mapped[i].end
            <= section.content_end
        &&& span_text(text, mapped[i]) == span_text(version, list[i])
    } by {
        lemma_side_word(section, text, i);
    }
    assert(span_texts(text, mapped) =~= span_texts(version, list));
    lemma_side_words_apart(section, text);
}

/// Where the characters of the side of a `Diff` section stand in the document: in the
/// section, one after the other, each where that character is.
pub proof fn law_side_characters_stand_in_the_document(section: SectionView, text: Seq<char>)
    requires
        within(section, text),
    ensures
        ({
            let side = diff_side(raw_content(section, text));
            let positions = side_positions(section, text);
            &&& positions.len() == side.len()
            &&& forall|i: int|
                0 <= i < positions.len() ==> {
                    &&& section.content_start <= #[trigger] positions[i] < section.content_end
                    &&& text[positions[i]] == side[i]
                }
            &&& forall|i: int, j: int|
                0 <= i < j < positions.len() ==> positions[i] < positions[j]
        }),
{
    let all = lines(raw_content(section, text));
    lemma_positions(section, text, all.len() as int, '+', '-');
}

/// Where the characters of the first `n` lines of a resolved diff stand: on the lines that
/// are not dropped, after their marks.
proof fn lemma_positions_kept(
    offset: int,
    lines: Seq<Seq<char>>,
    n: int,
    kept: char,
    dropped: char,
    k: int,
    t: int,
)
    requires
        0 <= n <= lines.len(),
        0 <= k < lines.len(),
        0 <= t < lines[k].len(),
    ensures
        resolved_positions(offset, lines, n, kept, dropped).contains(
            offset + line_start(lines, k) + t,
        ) <==> k < n && lines[k][0] != dropped && (lines[k][0] == kept || lines[k][0] == ' ' ==> t
            > 0),
    decreases n,
{
    let positions = resolved_positions(offset, lines, n, kept, dropped);
    let p = offset + line_start(lines, k) + t;
    assert(line_start(lines, k + 1) == line_start(lines, k) + lines[k].len());
    if n > 0 {
        lemma_positions_kept(offset, lines, n - 1, kept, dropped, k, t);
        let before = resolved_positions(offset, lines, n - 1, kept, dropped);
        let line = lines[n - 1];
        let skip = skipped(line, kept, dropped);
        assert(line_start(lines, n) == line_start(lines, n - 1) + line.len());
        if before.contains(p) {
            let i = choose|i: int| 0 <= i < before.len() && before[i] == p;
            assert(positions[i] == p);
        }
        if k == n - 1 && skip <= t {
            assert(positions[before.len() + (t - skip)] == p);
        }
        if positions.contains(p) {
            let i = choose|i: int| 0 <= i < positions.len() && positions[i] == p;
            if i < before.len() {
                assert(before[i] == p);
            } else {
                assert(p == offset + line_start(lines, n - 1) + skip + (i - before.len()));
                if k < n - 1 {
                    lemma_line_start_monotone(lines, k + 1, n - 1);
                } else if k > n - 1 {
                    lemma_line_start_monotone(lines, n, k);
                }
            }
        }
    }
}

/// A character of a `Diff` section is part of its side unless its line starts with `-` or
/// it is the `+` or the space that its line starts with.
pub proof fn law_side_holds_all_but_marks_and_removed_lines(
    section: SectionView,
    text: Seq<char>,
    k: int,
    t: int,
)
    requires
        within(section, text),
        ({
            let all = lines(text.subrange(section.content_start, section.content_end));
            0 <= k < all.len() && 0 <= t < all[k].len()
        }),
    ensures
        ({
            let all = lines(text.subrange(section.content_start, section.content_end));
            side_positions(section, text).contains(section.content_start + line_start(all, k) + t)
                <==> all[k][0] != '-' && (all[k][0] == '+' || all[k][0] == ' ' ==> t > 0)
        }),
{
    let all = lines(raw_content(section, text));
    lemma_positions_kept(section.content_start, all, all.len() as int, '+', '-', k, t);
}

/// Each character of a word of the side of a `Diff` section stands in the document where
/// the word's span says.
pub proof fn law_side_word_stands_where_its_characters_do(
    section: SectionView,
    text: Seq<char>,
    i: int,
    t: int,
)
    requires
        within(section, text),
        0 <= i < side_words(section, text).len(),
    ensures
        ({
            let word = words(diff_side(text.subrange(section.content_start, section.content_end)))[i];
            let mapped = side_words(section, text)[i];
            &&& mapped.end - mapped.start == word.end - word.start
            &&& 0 <= t < word.end - word.start ==> side_positions(section, text)[word.start + t]
                == mapped.start + t
        }),
{
    let version = diff_side(raw_content(section, text));
    let word = words(version)[i];
    assert(words(version).contains(word));
    if 0 <= t < word.end - word.start {
        lemma_word_positions(section, text, word, t);
    }
}

/// A text has no more words than characters.
pub proof fn law_words_are_no_more_than_characters(text: Seq<char>)
    ensures
        words(text).len() <= text.len(),
{
    lemma_runs(text, 0, text.len() as int, CharClass::Visible);
    lemma_count(words(text), Span { start: 0, end: text.len() as int });
}

/// A section has no more words than characters, whether it is read as it stands, as the
/// side that it resolves to, or as a diff.
pub proof fn law_section_words_are_no_more_than_characters(section: SectionView, text: Seq<char>)
    requires
        within(section, text),
    ensures
        section_words(section, text).len() <= section.content_end - section.content_start,
        side_words(section, text).len() <= section.content_end - section.content_start,
        diff_words(section, text, '-').len() + diff_words(section, text, '+').len()
            <= section.content_end - section.content_start,
{
    let (from, to) = (section.content_start, section.content_end);
    let all = lines(raw_content(section, text));
    lemma_runs(text, from, to, CharClass::Visible);
    lemma_count(section_words(section, text), Span { start: from, end: to });
    lemma_positions(section, text, all.len() as int, '+', '-');
    law_words_are_no_more_than_characters(diff_side(raw_content(section, text)));
    lemma_marked_count(section, text, all.len() as int);
}

/// Resolves a `Diff` section like [`crate::content::resolve_diff_content`], and also
/// returns where in the document each character of the result stands: inside the section,
/// one after the other.
pub fn resolve_diff_content_mapped(text: &Rope, section: &Section) -> (result: (
    Vec<char>,
    Vec<usize>,
))
    requires
        within(section@, rope_chars(*text)),
    ensures
        result.0@ == diff_side(raw_content(section@, rope_chars(*text))),
        result.1@.map_values(|p: usize| p as int) == side_positions(section@, rope_chars(*text)),
        result.1@.len() == result.0@.len(),
        forall|i: int|
            0 <= i < result.1@.len() ==> {
                &&& section.content_start <= #[trigger] result.1@[i] < section.content_end
                &&& rope_chars(*text)[result.1@[i] as int] == result.0@[i]
            },
        forall|i: int, j: int| 0 <= i < j < result.1@.len() ==> result.1@[i] < result.1@[j],
{
    let ghost chars = rope_chars(*text);
    let ghost raw = raw_content(section@, chars);
    let ghost all = lines(raw);
    let total = text.len_chars();
    let parts = slice_lines(slice(text, section.content_start, section.content_end));
    let mut content: Vec<char> = Vec::new();
    let mut map: Vec<usize> = Vec::new();
    let mut at: usize = section.content_start;
    let mut k: usize = 0;
    assert(map@.map_values(|p: usize| p as int) =~= Seq::<int>::empty());
    while k < parts.len()
        invariant
            k <= parts@.len(),
            chars == rope_chars(*text),
            chars.len() == total,
            within(section@, chars),
            raw == raw_content(section@, chars),
            all == lines(raw),
            all == slice_texts(parts@),
            at == section.content_start + line_start(all, k as int),
            content@ == resolved_lines(all, k as int, '+', '-'),
            map@.map_values(|p: usize| p as int) == resolved_positions(
                section.content_start as int,
                all,
                k as int,
                '+',
                '-',
            ),
        decreases parts@.len() - k,
    {
        let line = slice_to_chars(parts[k]);
        assert(line@ == all[k as int]);
        proof {
            lemma_line_text(raw, k as int);
        }
        let skip: usize = if line.len() == 0 {
            0
        } else if line[0] == '-' {
            line.len()
        } else if line[0] == '+' || line[0] == ' ' {
            1
        } else {
            0
        };
        assert(skip == skipped(line@, '+', '-'));
        let ghost old_content = content@;
        let ghost old_map = map@;
        let mut i: usize = skip;
        assert(old_content + line@.subrange(skip as int, skip as int) =~= old_content);
        while i < line.len()
            invariant
                skip <= i <= line@.len(),
                at + line@.len() <= total,
                content@ == old_content + line@.subrange(skip as int, i as int),
                map@.len() == old_map.len() + (i - skip),
                forall|j: int| 0 <= j < old_map.len() ==> #[trigger] map@[j] == old_map[j],
                forall|j: int|
                    old_map.len() <= j < map@.len() ==> #[trigger] map@[j] == at + skip + (j
                        - old_map.len()),
            decreases line@.len() - i,
        {
            content.push(line[i]);
            map.push(at + i);
            assert(old_content + line@.subrange(skip as int, i + 1) =~= (old_content
                + line@.subrange(skip as int, i as int)).push(line@[i as int]));
            i += 1;
        }
        proof {
            assert(line@.subrange(skip as int, i as int) =~= resolved_line(line@, '+', '-'));
            let before = resolved_positions(section.content_start as int, all, k as int, '+', '-');
            let now = resolved_positions(section.content_start as int, all, k + 1, '+', '-');
            assert(before.len() == old_map.len());
            assert forall|j: int| 0 <= j < now.len() implies map@.map_values(
                |p: usize| p as int,
            )[j] == now[j] by {
                if j < old_map.len() {
                    assert(old_map.map_values(|p: usize| p as int)[j] == before[j]);
                    assert(map@[j] == old_map[j]);
                }
            }
            assert(map@.map_values(|p: usize| p as int) =~= now);
        }
        at += line.len();
        k += 1;
    }
    proof {
        law_side_characters_stand_in_the_document(section@, chars);
        let positions = side_positions(section@, chars);
        assert(positions.len() == map@.len());
        assert forall|i: int| 0 <= i < map@.len() implies positions[i] == #[trigger] map@[i] by {
            assert(map@.map_values(|p: usize| p as int)[i] == map@[i]);
        }
    }
    (content, map)
}

/// Compares the words of a side with those of the side that a `Diff` section
/// resolves to.
///
/// Returns the ranges of the words of the side that the other lacks, which are in the
/// side section, and the ranges of the words of the other that the side lacks, which
/// are in the diff section.
pub fn refine_side_diff_added(
    text: &Rope,
    side_section: &Section,
    diff_section: &Section,
) -> (ranges: (Vec<Range<usize>>, Vec<Range<usize>>))
    requires
        within(side_section@, rope_chars(*text)),
        within(diff_section@, rope_chars(*text)),
        section_words(side_section@, rope_chars(*text)).len() + side_words(
            diff_section@,
            rope_chars(*text),
        ).len() <= MAX_TOKENS,
    ensures
        ({
            let chars = rope_chars(*text);
            let own_words = section_words(side_section@, chars);
            let their_words = side_words(diff_section@, chars);
            let own_texts = span_texts(chars, own_words);
            let their_texts = span_texts(chars, their_words);
            let hunks = histogram_hunks(own_texts, their_texts);
            &&& transforms(hunks, own_texts, their_texts)
            &&& spares_ends(hunks, own_texts, their_texts)
            &&& apart(spans(ranges.0@))
            &&& apart(spans(ranges.1@))
            &&& spans(ranges.0@) == changed_spans(own_words, hunks, false)
            &&& spans(ranges.1@) == changed_spans(their_words, hunks, true)
            &&& are_words(spans(ranges.0@), own_words)
            &&& are_words(spans(ranges.1@), their_words)
            &&& holds_foreign(spans(ranges.0@), own_words, own_texts, their_texts)
            &&& holds_foreign(spans(ranges.1@), their_words, their_texts, own_texts)
            &&& own_texts == their_texts ==> ranges.0@.len() == 0 && ranges.1@.len() == 0
        }),
{
    let ghost chars = rope_chars(*text);
    let total = text.len_chars();
    let own = find_section_words(text, side_section);
    let (content, map) = resolve_diff_content_mapped(text, diff_section);
    let their = find_words(&content);
    let ghost list = words(content@);
    let ghost mapped = side_words(diff_section@, chars);
    proof {
        let all = lines(raw_content(diff_section@, chars));
        lemma_positions(diff_section@, chars, all.len() as int, '+', '-');
        law_side_words_stand_in_the_document(diff_section@, chars);
        assert(map@.map_values(|p: usize| p as int).len() == map@.len());
    }
    let mut ranges: Vec<Range<usize>> = Vec::new();
    let mut i: usize = 0;
    while i < their.ranges.len()
        invariant
            i <= their.ranges@.len(),
            chars == rope_chars(*text),
            chars.len() == total,
            within(diff_section@, chars),
            list == words(content@),
            content@ == diff_side(raw_content(diff_section@, chars)),
            spans(their.ranges@) == list,
            their.is_valid(),
            mapped == side_words(diff_section@, chars),
            mapped.len() == list.len(),
            forall|i: int|
                0 <= i < mapped.len() ==> diff_section.content_start <= (#[trigger] mapped[i]).start
                    < mapped[i].end <= diff_section.content_end,
            map@.map_values(|p: usize| p as int) == side_positions(diff_section@, chars),
            map@.len() == content@.len(),
            spans(ranges@) == mapped.take(i as int),
        decreases their.ranges@.len() - i,
    {
        let word = &their.ranges[i];
        proof {
            assert(list[i as int] == span(*word));
            lemma_runs(content@, 0, content@.len() as int, CharClass::Visible);
            assert(list[i as int].end <= content@.len());
            assert(mapped[i as int] == mapped_span(
                side_positions(diff_section@, chars),
                span(*word),
            ));
            assert(map@.map_values(|p: usize| p as int)[word.start as int]
                == map@[word.start as int]);
        }
        let start = map[word.start];
        let range = start..start + (word.end - word.start);
        proof {
            lemma_spans_push(ranges@, range);
            assert(mapped.take(i + 1) =~= mapped.take(i as int).push(mapped[i as int]));
        }
        ranges.push(range);
        i += 1;
    }
    proof {
        assert(spans(their.ranges@).len() == their.ranges@.len());
        assert(mapped.take(i as int) =~= mapped);
        assert(spans(ranges@).len() == ranges@.len());
        assert forall|i: int| 0 <= i < ranges@.len() implies (#[trigger] ranges@[i]).start
            < ranges@[i].end by {
            assert(mapped[i] == span(ranges@[i]));
        }
    }
    compare_words(&own.ranges, &own.texts, &ranges, &their.texts)
}

} // verus!
