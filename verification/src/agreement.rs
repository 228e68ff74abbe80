//! What two ranges agree on, at each level of their comparison, and what is therefore
//! reported.
//!
//! Here matches are a relation between spans of the one range and spans of the other, and
//! not a list. At each level the differ compares what lies between neighbouring matches of
//! the level above, and adds the tokens that it keeps.

use crate::diff::{
    gap_len, gap_start, histogram_hunks, is_chain, is_script, kept_pairs, lemma_all_kept, pairs_up,
    same_end, same_start, zipped, Hunk, Matched,
};
use crate::refine::{
    all_gap_matches, all_matches, all_promised, fit_gaps, framed, gap_matches, gaps_promised,
    inside, interleaved, left_gap, left_gaps, lemma_interleaved, lemma_tokens, level_hunks,
    level_matches, promised, refined, right_gap, right_gaps, tokens, Granularity,
};
use crate::tokens::{
    apart, in_spans, line_spans, nonword_spans, ordered_within, runs, span_texts, CharClass, Span,
};
use vstd::prelude::*;

verus! {

// ── The relation ─────────────────────────────────────────────────────────────

/// What is compared at a level: whole lines, words, or the single characters that are part
/// of no word.
#[verifier::opaque]
pub open spec fn compared(text: Seq<char>, s: Span, level: Granularity) -> Seq<Span> {
    match level {
        Granularity::Line => line_spans(text, s.start, s.end),
        Granularity::Word => runs(text, s.start, s.end, CharClass::Word),
        Granularity::NonWord => nonword_spans(text, s.start, s.end),
    }
}

/// What is compared at a level are its tokens.
pub proof fn lemma_compared(text: Seq<char>, s: Span, level: Granularity)
    ensures
        compared(text, s, level) == tokens(text, s, level),
{
    reveal(compared);
}

/// Whether the differ, comparing two spans at a level, keeps a part of the one as a part of
/// the other.
pub open spec fn keeps(
    text: Seq<char>,
    left: Span,
    right: Span,
    level: Granularity,
    m: Matched,
) -> bool {
    let a = compared(text, left, level);
    let b = compared(text, right, level);
    let hunks = histogram_hunks(span_texts(text, a), span_texts(text, b));
    exists|i: int, j: int|
        0 <= i < a.len() && 0 <= j < b.len() && a[i] == m.left && b[j] == m.right
            && #[trigger] pairs_up(hunks, a.len() as int, b.len() as int, i, j)
}

/// Whether two spans lie between neighbouring matches, or between a match and an end, or
/// are all where there is no match.
pub open spec fn is_gap(
    known: spec_fn(Matched) -> bool,
    left: Span,
    right: Span,
    gap_left: Span,
    gap_right: Span,
) -> bool {
    &&& gap_left.start <= gap_left.end
    &&& gap_right.start <= gap_right.end
    &&& (gap_left.start == left.start && gap_right.start == right.start) || exists|x: Matched|
        #[trigger] known(x) && gap_left.start == x.left.end && gap_right.start == x.right.end
    &&& (gap_left.end == left.end && gap_right.end == right.end) || exists|y: Matched|
        #[trigger] known(y) && gap_left.end == y.left.start && gap_right.end == y.right.start
    &&& forall|z: Matched| #[trigger]
        known(z) ==> !(gap_left.start <= z.left.start && z.left.end <= gap_left.end)
}

/// The matches known, and what the differ keeps between neighbouring ones at a level.
pub open spec fn agreed_at(
    text: Seq<char>,
    left: Span,
    right: Span,
    level: Granularity,
    known: spec_fn(Matched) -> bool,
) -> spec_fn(Matched) -> bool {
    |m: Matched|
        known(m) || exists|gap_left: Span, gap_right: Span| #[trigger]
            is_gap(known, left, right, gap_left, gap_right) && keeps(
                text,
                gap_left,
                gap_right,
                level,
                m,
            )
}

/// What two ranges agree on: lines, words between agreed lines, and other characters
/// between agreed words.
pub open spec fn agreed(text: Seq<char>, left: Span, right: Span) -> spec_fn(Matched) -> bool {
    let none = |m: Matched| false;
    let lines = agreed_at(text, left, right, Granularity::Line, none);
    let words = agreed_at(text, left, right, Granularity::Word, lines);
    agreed_at(text, left, right, Granularity::NonWord, words)
}

/// Whether an agreed match covers a position on the left.
pub open spec fn agrees_left(text: Seq<char>, left: Span, right: Span, p: int) -> bool {
    exists|m: Matched| #[trigger] agreed(text, left, right)(m) && m.left.start <= p < m.left.end
}

/// Whether an agreed match covers a position on the right.
pub open spec fn agrees_right(text: Seq<char>, left: Span, right: Span, p: int) -> bool {
    exists|m: Matched| #[trigger] agreed(text, left, right)(m) && m.right.start <= p < m.right.end
}

// ── The relation as a list ───────────────────────────────────────────────────

/// Whether a list of matches is framed by empty matches at both ends, with non-empty ones
/// in order in between.
pub open spec fn is_framed(list: Seq<Matched>, left: Span, right: Span) -> bool {
    &&& list.len() >= 2
    &&& list[0].left == (Span { start: left.start, end: left.start })
    &&& list[0].right == (Span { start: right.start, end: right.start })
    &&& list[list.len() - 1].left == (Span { start: left.end, end: left.end })
    &&& list[list.len() - 1].right == (Span { start: right.end, end: right.end })
    &&& is_chain(list, left, right)
    &&& forall|i: int|
        0 < i < list.len() - 1 ==> (#[trigger] list[i]).left.start < list[i].left.end
            && list[i].right.start < list[i].right.end
}

/// Whether a match is in a framed list.
pub open spec fn inner(list: Seq<Matched>, m: Matched) -> bool {
    exists|i: int| 0 < i < list.len() - 1 && #[trigger] list[i] == m
}

/// Whether a list holds what a relation does.
pub open spec fn lists(
    list: Seq<Matched>,
    left: Span,
    right: Span,
    known: spec_fn(Matched) -> bool,
) -> bool {
    is_framed(list, left, right) && forall|m: Matched| #[trigger] known(m) <==> inner(list, m)
}

/// The unchanged tokens before the first `k` hunks are paired.
proof fn lemma_kept_are_paired(a: Seq<Span>, b: Seq<Span>, hunks: Seq<Hunk>, k: int, p: int) -> (
    place: (int, int))
    requires
        is_script(hunks, a.len() as int, b.len() as int),
        0 <= k <= hunks.len() + 1,
        0 <= p < kept_pairs(a, b, hunks, k).len(),
    ensures
        0 <= place.0 < a.len(),
        0 <= place.1 < b.len(),
        pairs_up(hunks, a.len() as int, b.len() as int, place.0, place.1),
        kept_pairs(a, b, hunks, k)[p] == (Matched { left: a[place.0], right: b[place.1] }),
    decreases k,
{
    let (n, m) = (a.len() as int, b.len() as int);
    let before = kept_pairs(a, b, hunks, k - 1);
    if p < before.len() {
        lemma_kept_are_paired(a, b, hunks, k - 1, p)
    } else {
        let t = p - before.len();
        let (i, j) = gap_start(hunks, k - 1);
        let len = gap_len(hunks, n, m, k - 1);
        assert(0 <= i && 0 <= j && i + len <= n && j + len <= m);
        assert(kept_pairs(a, b, hunks, k)[p] == zipped(a, b, i, j, len)[t]);
        (i + t, j + t)
    }
}

/// A pair of unchanged tokens before hunk `k` is among the first.
proof fn lemma_paired_are_kept(
    a: Seq<Span>,
    b: Seq<Span>,
    hunks: Seq<Hunk>,
    k: int,
    g: int,
    t: int,
)
    requires
        is_script(hunks, a.len() as int, b.len() as int),
        0 <= g < k <= hunks.len() + 1,
        0 <= t < gap_len(hunks, a.len() as int, b.len() as int, g),
    ensures
        kept_pairs(a, b, hunks, k).contains(
            Matched { left: a[gap_start(hunks, g).0 + t], right: b[gap_start(hunks, g).1 + t] },
        ),
    decreases k,
{
    let (n, m) = (a.len() as int, b.len() as int);
    let before = kept_pairs(a, b, hunks, k - 1);
    let all = kept_pairs(a, b, hunks, k);
    let pair = Matched { left: a[gap_start(hunks, g).0 + t], right: b[gap_start(hunks, g).1 + t] };
    assert(gap_len(hunks, n, m, k - 1) >= 0);
    if g < k - 1 {
        lemma_paired_are_kept(a, b, hunks, k - 1, g, t);
        let p = choose|p: int| 0 <= p < before.len() && before[p] == pair;
        assert(all[p] == pair);
    } else {
        assert(all[before.len() + t] == pair);
    }
}

/// What the list of matches at a level holds is what the differ keeps.
proof fn lemma_level(text: Seq<char>, left: Span, right: Span, level: Granularity, m: Matched)
    requires
        promised(text, left, right, level),
    ensures
        level_matches(text, left, right, level).contains(m) <==> keeps(text, left, right, level, m),
{
    let a = tokens(text, left, level);
    let b = tokens(text, right, level);
    let hunks = level_hunks(text, left, right, level);
    let list = level_matches(text, left, right, level);
    lemma_compared(text, left, level);
    lemma_compared(text, right, level);
    assert(span_texts(text, a).len() == a.len() && span_texts(text, b).len() == b.len());
    if a.len() > 0 && b.len() > 0 {
        let len = hunks.len() as int + 1;
        if list.contains(m) {
            let p = choose|p: int| 0 <= p < list.len() && list[p] == m;
            let (i, j) = lemma_kept_are_paired(a, b, hunks, len, p);
            assert(a[i] == m.left && b[j] == m.right);
        }
        if keeps(text, left, right, level, m) {
            let (i, j) = choose|i: int, j: int|
                0 <= i < a.len() && 0 <= j < b.len() && a[i] == m.left && b[j] == m.right
                    && #[trigger] pairs_up(hunks, a.len() as int, b.len() as int, i, j);
            let g = choose|g: int|
                0 <= g <= hunks.len() && gap_start(hunks, g).0 <= i < gap_start(hunks, g).0
                    + #[trigger] gap_len(hunks, a.len() as int, b.len() as int, g) && i - gap_start(
                    hunks,
                    g,
                ).0 == j - gap_start(hunks, g).1;
            lemma_paired_are_kept(a, b, hunks, len, g, i - gap_start(hunks, g).0);
        }
    } else {
        assert(list.len() == 0);
    }
}

/// What is found at a level is in order, and not empty.
proof fn lemma_level_chain(text: Seq<char>, left: Span, right: Span, level: Granularity)
    requires
        inside(left, text),
        inside(right, text),
        promised(text, left, right, level),
    ensures
        is_chain(level_matches(text, left, right, level), left, right),
        forall|i: int|
            0 <= i < level_matches(text, left, right, level).len() ==> (#[trigger] level_matches(
                text,
                left,
                right,
                level,
            )[i]).left.start < level_matches(text, left, right, level)[i].left.end && level_matches(
                text,
                left,
                right,
                level,
            )[i].right.start < level_matches(text, left, right, level)[i].right.end,
{
    let a = tokens(text, left, level);
    let b = tokens(text, right, level);
    let hunks = level_hunks(text, left, right, level);
    let list = level_matches(text, left, right, level);
    lemma_tokens(text, left, level);
    lemma_tokens(text, right, level);
    assert(span_texts(text, a).len() == a.len() && span_texts(text, b).len() == b.len());
    if a.len() > 0 && b.len() > 0 {
        lemma_all_kept(text, a, b, left, right, hunks);
        assert forall|p: int| 0 <= p < list.len() implies (#[trigger] list[p]).left.start
            < list[p].left.end && list[p].right.start < list[p].right.end by {
            let (i, j) = lemma_kept_are_paired(a, b, hunks, hunks.len() as int + 1, p);
            assert(list[p].left == a[i] && list[p].right == b[j]);
        }
    }
}

/// The gaps of a relation are those between neighbours in its list.
pub proof fn lemma_gap_of_list(
    list: Seq<Matched>,
    left: Span,
    right: Span,
    known: spec_fn(Matched) -> bool,
    gap_left: Span,
    gap_right: Span,
)
    requires
        left.start <= left.end,
        right.start <= right.end,
        lists(list, left, right, known),
        is_gap(known, left, right, gap_left, gap_right),
    ensures
        exists|j: int, k: int|
            0 <= j && k == j + 1 && k < list.len() && gap_left == #[trigger] left_gap(
                list[j],
                list[k],
            ) && gap_right == right_gap(list[j], list[k]),
{
    let last = list.len() - 1;
    // The match before the gap.
    let j: int = if gap_left.start == left.start && gap_right.start == right.start {
        0
    } else {
        let x = choose|x: Matched| #[trigger]
            known(x) && gap_left.start == x.left.end && gap_right.start == x.right.end;
        assert(inner(list, x));
        choose|i: int| 0 < i < list.len() - 1 && #[trigger] list[i] == x
    };
    // The match after it.
    let k: int = if gap_left.end == left.end && gap_right.end == right.end {
        last
    } else {
        let y = choose|y: Matched| #[trigger]
            known(y) && gap_left.end == y.left.start && gap_right.end == y.right.start;
        assert(inner(list, y));
        choose|i: int| 0 < i < list.len() - 1 && #[trigger] list[i] == y
    };
    assert(list[j].left.end == gap_left.start && list[j].right.end == gap_right.start);
    assert(list[k].left.start == gap_left.end && list[k].right.start == gap_right.end);
    assert(j < k) by {
        if k < j {
            assert(list[k].left.end <= list[j].left.start);
            assert(list[k].left.start <= list[k].left.end);
            assert(list[j].left.start < list[j].left.end || list[k].left.start
                < list[k].left.end || j == last || k == 0);
        }
        if k == j {
            assert(0 < j < last);
        }
    }
    if j + 1 < k {
        let z = list[j + 1];
        assert(inner(list, z));
        assert(known(z));
        assert(list[j].left.end <= z.left.start);
        assert(z.left.end <= list[k].left.start);
    }
    assert(k == j + 1);
    assert(gap_left == left_gap(list[j], list[k]) && gap_right == right_gap(list[j], list[k]));
}

/// What lies between neighbours in a list is a gap of its relation.
pub proof fn lemma_neighbours_are_a_gap(
    list: Seq<Matched>,
    left: Span,
    right: Span,
    known: spec_fn(Matched) -> bool,
    j: int,
)
    requires
        lists(list, left, right, known),
        0 <= j < list.len() - 1,
    ensures
        is_gap(
            known,
            left,
            right,
            left_gap(list[j], list[j + 1]),
            right_gap(list[j], list[j + 1]),
        ),
{
    let last = list.len() - 1;
    let (x, y) = (list[j], list[j + 1]);
    let (l, r) = (left_gap(x, y), right_gap(x, y));
    assert(x.left.end <= y.left.start && x.right.end <= y.right.start);
    if j > 0 {
        assert(inner(list, x));
        assert(known(x));
    }
    if j + 1 < last {
        assert(inner(list, y));
        assert(known(y));
    }
    assert forall|z: Matched| #[trigger] known(z) implies !(l.start <= z.left.start && z.left.end
        <= l.end) by {
        assert(inner(list, z));
        let i = choose|i: int| 0 < i < list.len() - 1 && #[trigger] list[i] == z;
        if i <= j {
            if i < j {
                assert(z.left.end <= x.left.start);
                assert(x.left.start <= x.left.end);
            }
        } else {
            if i > j + 1 {
                assert(y.left.end <= z.left.start);
                assert(y.left.start <= y.left.end);
            }
        }
    }
}

/// Which matches a list holds once the matches in its gaps are inserted.
proof fn lemma_interleaved_inner(list: Seq<Matched>, found: Seq<Seq<Matched>>, k: int, m: Matched)
    requires
        0 <= k < list.len(),
        found.len() == list.len() - 1,
    ensures
        interleaved(list, found, k).len() > k,
        interleaved(list, found, k)[0] == list[0],
        interleaved(list, found, k).last() == list[k],
        interleaved(list, found, k).contains(m) <==> (exists|i: int|
            0 <= i <= k && #[trigger] list[i] == m) || (exists|g: int|
            0 <= g < k && (#[trigger] found[g]).contains(m)),
    decreases k,
{
    let all = interleaved(list, found, k);
    if k == 0 {
        assert(all =~= seq![list[0]]);
        assert(all[0] == list[0]);
        if all.contains(m) {
            assert(list[0] == m);
        }
    } else {
        lemma_interleaved_inner(list, found, k - 1, m);
        let before = interleaved(list, found, k - 1);
        let gap = found[k - 1];
        if all.contains(m) {
            let p = choose|p: int| 0 <= p < all.len() && all[p] == m;
            if p < before.len() {
                assert(before[p] == m);
                assert(before.contains(m));
            } else if p < before.len() + gap.len() {
                assert(gap[p - before.len()] == m);
                assert(found[k - 1].contains(m));
            } else {
                assert(list[k] == m);
            }
        }
        if before.contains(m) {
            let p = choose|p: int| 0 <= p < before.len() && before[p] == m;
            assert(all[p] == m);
        }
        if gap.contains(m) {
            let p = choose|p: int| 0 <= p < gap.len() && gap[p] == m;
            assert(all[before.len() + p] == m);
        }
        assert(all[all.len() - 1] == list[k]);
        if exists|i: int| 0 <= i <= k && #[trigger] list[i] == m {
            let i = choose|i: int| 0 <= i <= k && #[trigger] list[i] == m;
            if i < k {
                assert(before.contains(m));
            }
        }
        if exists|g: int| 0 <= g < k && (#[trigger] found[g]).contains(m) {
            let g = choose|g: int| 0 <= g < k && (#[trigger] found[g]).contains(m);
            if g < k - 1 {
                assert(before.contains(m));
            }
        }
    }
}

/// Whether a match of a framed list that is not empty is an inner one.
proof fn lemma_inner(list: Seq<Matched>, left: Span, right: Span, m: Matched)
    requires
        is_framed(list, left, right),
    ensures
        inner(list, m) <==> list.contains(m) && m.left.start < m.left.end,
{
    if inner(list, m) {
        let i = choose|i: int| 0 < i < list.len() - 1 && #[trigger] list[i] == m;
        assert(list[i].left.start < list[i].left.end);
        assert(list.contains(m));
    }
    if list.contains(m) && m.left.start < m.left.end {
        let i = choose|i: int| 0 <= i < list.len() && list[i] == m;
        assert(0 < i < list.len() - 1);
    }
}

/// What is found in a gap is in order, and not empty.
proof fn lemma_found(
    text: Seq<char>,
    list: Seq<Matched>,
    left: Span,
    right: Span,
    level: Granularity,
    g: int,
)
    requires
        inside(left, text),
        inside(right, text),
        is_chain(list, left, right),
        gaps_promised(text, list, level),
        0 <= g < list.len() - 1,
    ensures
        ({
            let found = gap_matches(text, list[g], list[g + 1], level);
            &&& is_chain(found, left_gap(list[g], list[g + 1]), right_gap(list[g], list[g + 1]))
            &&& forall|i: int|
                0 <= i < found.len() ==> (#[trigger] found[i]).left.start < found[i].left.end
                    && found[i].right.start < found[i].right.end
        }),
{
    let (j, k) = (g, g + 1);
    let (l, r) = (left_gap(list[j], list[k]), right_gap(list[j], list[k]));
    assert(promised(text, l, r, level));
    assert(list[j].left.end <= list[k].left.start && list[j].right.end <= list[k].right.start);
    lemma_level_chain(text, l, r, level);
}

/// Refining a framed list frames it.
proof fn lemma_refined_framed(
    text: Seq<char>,
    left: Span,
    right: Span,
    level: Granularity,
    list: Seq<Matched>,
)
    requires
        inside(left, text),
        inside(right, text),
        is_framed(list, left, right),
        gaps_promised(text, list, level),
    ensures
        is_framed(refined(text, list, level), left, right),
{
    let found = all_gap_matches(text, list, level);
    let all = refined(text, list, level);
    let last = list.len() - 1;
    assert forall|g: int| 0 <= g < found.len() implies {
        &&& is_chain(
            #[trigger] found[g],
            left_gap(list[g], list[g + 1]),
            right_gap(list[g], list[g + 1]),
        )
        &&& forall|i: int|
            0 <= i < found[g].len() ==> (#[trigger] found[g][i]).left.start < found[g][i].left.end
                && found[g][i].right.start < found[g][i].right.end
    } by {
        lemma_found(text, list, left, right, level, g);
    }
    assert(fit_gaps(list, found));
    lemma_interleaved(text, list, found, left, right, last);
    lemma_interleaved_inner(list, found, last, list[0]);
    assert forall|i: int| 0 < i < all.len() - 1 implies (#[trigger] all[i]).left.start
        < all[i].left.end && all[i].right.start < all[i].right.end by {
        lemma_interleaved_places(list, found, last, i);
    }
    assert(all[all.len() - 1] == all.last());
}

/// What a refined list holds is what its relation does.
proof fn lemma_refined_matches(
    text: Seq<char>,
    left: Span,
    right: Span,
    level: Granularity,
    list: Seq<Matched>,
    known: spec_fn(Matched) -> bool,
    m: Matched,
)
    requires
        inside(left, text),
        inside(right, text),
        lists(list, left, right, known),
        gaps_promised(text, list, level),
    ensures
        agreed_at(text, left, right, level, known)(m) <==> inner(refined(text, list, level), m),
{
    let found = all_gap_matches(text, list, level);
    let all = refined(text, list, level);
    let now = agreed_at(text, left, right, level, known);
    let last = list.len() - 1;
    lemma_refined_framed(text, left, right, level, list);
    lemma_interleaved_inner(list, found, last, m);
    lemma_inner(all, left, right, m);
    lemma_inner(list, left, right, m);
    if now(m) {
        if known(m) {
            assert(inner(list, m));
        } else {
            let (l, r) = choose|l: Span, r: Span| #[trigger]
                is_gap(known, left, right, l, r) && keeps(text, l, r, level, m);
            lemma_gap_of_list(list, left, right, known, l, r);
            let (j, k) = choose|j: int, k: int|
                0 <= j && k == j + 1 && k < list.len() && l == #[trigger] left_gap(
                    list[j],
                    list[k],
                ) && r == right_gap(list[j], list[k]);
            assert(promised(text, l, r, level));
            lemma_level(text, l, r, level, m);
            assert(found[j] == gap_matches(text, list[j], list[j + 1], level));
            lemma_tokens_of_gap(text, l, r, level, m);
            lemma_found(text, list, left, right, level, j);
            assert(found[j].contains(m));
            let i = choose|i: int| 0 <= i < found[j].len() && found[j][i] == m;
            assert(found[j][i].left.start < found[j][i].left.end);
        }
    }
    if inner(all, m) {
        if exists|i: int| 0 <= i <= last && #[trigger] list[i] == m {
            let i = choose|i: int| 0 <= i <= last && #[trigger] list[i] == m;
            assert(list.contains(m));
            assert(inner(list, m));
            assert(known(m));
        } else {
            let g = choose|g: int| 0 <= g < last && (#[trigger] found[g]).contains(m);
            let (j, k) = (g, g + 1);
            let (l, r) = (left_gap(list[j], list[k]), right_gap(list[j], list[k]));
            assert(promised(text, l, r, level));
            assert(found[g] == gap_matches(text, list[g], list[g + 1], level));
            lemma_level(text, l, r, level, m);
            lemma_neighbours_are_a_gap(list, left, right, known, g);
            assert(keeps(text, l, r, level, m));
            assert(is_gap(known, left, right, l, r));
        }
    }
}

/// Refining a list refines its relation.
pub proof fn lemma_refined_relation(
    text: Seq<char>,
    left: Span,
    right: Span,
    level: Granularity,
    list: Seq<Matched>,
    known: spec_fn(Matched) -> bool,
)
    requires
        inside(left, text),
        inside(right, text),
        lists(list, left, right, known),
        gaps_promised(text, list, level),
    ensures
        lists(
            refined(text, list, level),
            left,
            right,
            agreed_at(text, left, right, level, known),
        ),
{
    let all = refined(text, list, level);
    let now = agreed_at(text, left, right, level, known);
    lemma_refined_framed(text, left, right, level, list);
    assert forall|m: Matched| #[trigger] now(m) <==> inner(all, m) by {
        lemma_refined_matches(text, left, right, level, list, known, m);
    }
}

/// Where the differ keeps a token, both spans have text.
proof fn lemma_tokens_of_gap(text: Seq<char>, l: Span, r: Span, level: Granularity, m: Matched)
    requires
        keeps(text, l, r, level, m),
    ensures
        l.start < l.end,
        r.start < r.end,
{
    lemma_compared(text, l, level);
    lemma_compared(text, r, level);
    assert(tokens(text, l, level).len() > 0);
    assert(tokens(text, r, level).len() > 0);
}

/// Where a match of an interleaved list comes from.
proof fn lemma_interleaved_places(list: Seq<Matched>, found: Seq<Seq<Matched>>, k: int, i: int)
    requires
        0 <= k < list.len(),
        found.len() == list.len() - 1,
        0 <= i < interleaved(list, found, k).len(),
        forall|i: int|
            0 < i < list.len() - 1 ==> (#[trigger] list[i]).left.start < list[i].left.end
                && list[i].right.start < list[i].right.end,
        forall|g: int, i: int|
            0 <= g < found.len() && 0 <= i < found[g].len() ==> (#[trigger] found[g][i]).left.start
                < found[g][i].left.end && found[g][i].right.start < found[g][i].right.end,
    ensures
        0 < i && (k < list.len() - 1 || i < interleaved(list, found, k).len() - 1) ==> interleaved(
            list,
            found,
            k,
        )[i].left.start < interleaved(list, found, k)[i].left.end && interleaved(
            list,
            found,
            k,
        )[i].right.start < interleaved(list, found, k)[i].right.end,
    decreases k,
{
    if k > 0 {
        let before = interleaved(list, found, k - 1);
        let gap = found[k - 1];
        let all = interleaved(list, found, k);
        if i < before.len() {
            lemma_interleaved_places(list, found, k - 1, i);
            assert(all[i] == before[i]);
        } else if i < before.len() + gap.len() {
            assert(all[i] == found[k - 1][i - before.len()]);
        } else {
            assert(all[i] == list[k]);
        }
    }
}

/// The list of matching lines holds the lines that two ranges agree on.
pub proof fn lemma_line_relation(text: Seq<char>, left: Span, right: Span)
    requires
        inside(left, text),
        inside(right, text),
        promised(text, left, right, Granularity::Line),
    ensures
        lists(
            framed(level_matches(text, left, right, Granularity::Line), left, right),
            left,
            right,
            agreed_at(text, left, right, Granularity::Line, |m: Matched| false),
        ),
{
    let none = |m: Matched| false;
    let found = level_matches(text, left, right, Granularity::Line);
    let by_line = framed(found, left, right);
    let lines = agreed_at(text, left, right, Granularity::Line, none);
    lemma_level_chain(text, left, right, Granularity::Line);
    assert(is_framed(by_line, left, right)) by {
        assert forall|i: int|
            #![trigger by_line[i]]
            0 <= i < by_line.len() implies {
            &&& left.start <= by_line[i].left.start <= by_line[i].left.end <= left.end
            &&& right.start <= by_line[i].right.start <= by_line[i].right.end <= right.end
            &&& 0 < i < by_line.len() - 1 ==> by_line[i].left.start < by_line[i].left.end
                && by_line[i].right.start < by_line[i].right.end
        } by {
            if 0 < i <= found.len() {
                assert(by_line[i] == found[i - 1]);
            }
        }
        assert forall|i: int, j: int|
            #![trigger by_line[i], by_line[j]]
            0 <= i < j < by_line.len() implies {
            &&& by_line[i].left.end <= by_line[j].left.start
            &&& by_line[i].right.end <= by_line[j].right.start
        } by {
            if 0 < i <= found.len() {
                assert(by_line[i] == found[i - 1]);
            }
            if 0 < j <= found.len() {
                assert(by_line[j] == found[j - 1]);
            }
        }
    }
    assert forall|m: Matched| #[trigger] lines(m) <==> inner(by_line, m) by {
        lemma_level(text, left, right, Granularity::Line, m);
        assert(is_gap(none, left, right, left, right));
        if lines(m) {
            let (l, r) = choose|l: Span, r: Span| #[trigger]
                is_gap(none, left, right, l, r) && keeps(text, l, r, Granularity::Line, m);
            assert(l == left && r == right);
            let p = choose|p: int| 0 <= p < found.len() && found[p] == m;
            assert(by_line[p + 1] == m);
        }
        if inner(by_line, m) {
            let i = choose|i: int| 0 < i < by_line.len() - 1 && #[trigger] by_line[i] == m;
            assert(found[i - 1] == m);
            assert(keeps(text, left, right, Granularity::Line, m));
        }
    }
}

/// The list of all matches holds what two ranges agree on.
pub proof fn lemma_agreed(text: Seq<char>, left: Span, right: Span)
    requires
        inside(left, text),
        inside(right, text),
        all_promised(text, left, right),
    ensures
        lists(all_matches(text, left, right), left, right, agreed(text, left, right)),
{
    let none = |m: Matched| false;
    let by_line = framed(level_matches(text, left, right, Granularity::Line), left, right);
    let lines = agreed_at(text, left, right, Granularity::Line, none);
    let words = agreed_at(text, left, right, Granularity::Word, lines);
    lemma_line_relation(text, left, right);
    lemma_refined_relation(text, left, right, Granularity::Word, by_line, lines);
    let by_word = refined(text, by_line, Granularity::Word);
    lemma_refined_relation(text, left, right, Granularity::NonWord, by_word, words);
}

// ── What is reported ─────────────────────────────────────────────────────────

/// What the first `k + 1` matches leave uncovered, position by position.
proof fn lemma_uncovered(list: Seq<Matched>, left: Span, right: Span, k: int)
    requires
        is_framed(list, left, right),
        0 <= k < list.len(),
    ensures
        forall|p: int|
            left.start <= p < list[k].left.end ==> (#[trigger] in_spans(left_gaps(list, k), p)
                <==> forall|i: int|
                0 <= i <= k ==> !((#[trigger] list[i]).left.start <= p < list[i].left.end)),
        forall|i: int|
            0 <= i < left_gaps(list, k).len() ==> left.start <= (#[trigger] left_gaps(
                list,
                k,
            )[i]).start < left_gaps(list, k)[i].end <= list[k].left.start,
        forall|p: int|
            right.start <= p < list[k].right.end ==> (#[trigger] in_spans(right_gaps(list, k), p)
                <==> forall|i: int|
                0 <= i <= k ==> !((#[trigger] list[i]).right.start <= p < list[i].right.end)),
        forall|i: int|
            0 <= i < right_gaps(list, k).len() ==> right.start <= (#[trigger] right_gaps(
                list,
                k,
            )[i]).start < right_gaps(list, k)[i].end <= list[k].right.start,
        apart(left_gaps(list, k)),
        apart(right_gaps(list, k)),
    decreases k,
{
    if k > 0 {
        lemma_uncovered(list, left, right, k - 1);
        let (a, b) = (list[k - 1], list[k]);
        assert(a.left.end <= b.left.start && a.right.end <= b.right.start);
        assert(a.left.start <= a.left.end && a.right.start <= a.right.end);
        assert(left.start <= a.left.start && right.start <= a.right.start);
        let (old_left, old_right) = (left_gaps(list, k - 1), right_gaps(list, k - 1));
        let (new_left, new_right) = (left_gaps(list, k), right_gaps(list, k));
        assert forall|p: int| left.start <= p < b.left.end implies (#[trigger] in_spans(new_left, p)
            <==> forall|i: int|
            0 <= i <= k ==> !((#[trigger] list[i]).left.start <= p < list[i].left.end)) by {
            if in_spans(old_left, p) {
                let g = choose|g: int|
                    0 <= g < old_left.len() && (#[trigger] old_left[g]).start <= p
                        < old_left[g].end;
                assert(new_left[g] == old_left[g]);
                assert(in_spans(new_left, p));
                assert(p < a.left.start);
            }
            if in_spans(new_left, p) {
                let g = choose|g: int|
                    0 <= g < new_left.len() && (#[trigger] new_left[g]).start <= p
                        < new_left[g].end;
                if g < old_left.len() {
                    assert(new_left[g] == old_left[g]);
                    assert(in_spans(old_left, p));
                } else {
                    assert(new_left[g] == left_gap(a, b));
                    assert forall|i: int| 0 <= i <= k implies !((#[trigger] list[i]).left.start <= p
                        < list[i].left.end) by {
                        if i < k - 1 {
                            assert(list[i].left.end <= list[k - 1].left.start);
                        }
                    }
                }
            }
            if a.left.end <= p < b.left.start {
                assert(new_left[new_left.len() - 1] == left_gap(a, b));
                assert(in_spans(new_left, p));
            }
            if p < a.left.end && (forall|i: int|
                0 <= i <= k ==> !((#[trigger] list[i]).left.start <= p < list[i].left.end)) {
                assert(in_spans(old_left, p));
            }
            if p >= b.left.start {
                assert(list[k].left.start <= p < list[k].left.end);
            }
        }
        assert forall|p: int| right.start <= p < b.right.end implies (#[trigger] in_spans(
            new_right,
            p,
        ) <==> forall|i: int|
            0 <= i <= k ==> !((#[trigger] list[i]).right.start <= p < list[i].right.end)) by {
            if in_spans(old_right, p) {
                let g = choose|g: int|
                    0 <= g < old_right.len() && (#[trigger] old_right[g]).start <= p
                        < old_right[g].end;
                assert(new_right[g] == old_right[g]);
                assert(in_spans(new_right, p));
                assert(p < a.right.start);
            }
            if in_spans(new_right, p) {
                let g = choose|g: int|
                    0 <= g < new_right.len() && (#[trigger] new_right[g]).start <= p
                        < new_right[g].end;
                if g < old_right.len() {
                    assert(new_right[g] == old_right[g]);
                    assert(in_spans(old_right, p));
                } else {
                    assert(new_right[g] == right_gap(a, b));
                    assert forall|i: int| 0 <= i <= k implies !((#[trigger] list[i]).right.start
                        <= p < list[i].right.end) by {
                        if i < k - 1 {
                            assert(list[i].right.end <= list[k - 1].right.start);
                        }
                    }
                }
            }
            if a.right.end <= p < b.right.start {
                assert(new_right[new_right.len() - 1] == right_gap(a, b));
                assert(in_spans(new_right, p));
            }
            if p < a.right.end && (forall|i: int|
                0 <= i <= k ==> !((#[trigger] list[i]).right.start <= p < list[i].right.end)) {
                assert(in_spans(old_right, p));
            }
            if p >= b.right.start {
                assert(list[k].right.start <= p < list[k].right.end);
            }
        }
    }
}

/// What is reported is in order and apart.
pub proof fn lemma_reported_are_apart(text: Seq<char>, left: Span, right: Span)
    requires
        inside(left, text),
        inside(right, text),
        all_promised(text, left, right),
    ensures
        ({
            let matches = all_matches(text, left, right);
            let removed = left_gaps(matches, matches.len() - 1);
            let added = right_gaps(matches, matches.len() - 1);
            &&& ordered_within(removed, left) && apart(removed)
            &&& ordered_within(added, right) && apart(added)
        }),
{
    lemma_agreed(text, left, right);
    let list = all_matches(text, left, right);
    lemma_uncovered(list, left, right, list.len() - 1);
}

/// Reported is what the two ranges do not agree on, and nothing else: a position is in a
/// removed range exactly where no line, word or other character that the differ keeps
/// covers it on the left, and in an added range exactly where none covers it on the right.
pub proof fn law_reported_is_what_is_not_agreed_on(
    text: Seq<char>,
    left: Span,
    right: Span,
    p: int,
)
    requires
        inside(left, text),
        inside(right, text),
        all_promised(text, left, right),
    ensures
        ({
            let matches = all_matches(text, left, right);
            &&& left.start <= p < left.end ==> (in_spans(
                left_gaps(matches, matches.len() - 1),
                p,
            ) <==> !agrees_left(text, left, right, p))
            &&& right.start <= p < right.end ==> (in_spans(
                right_gaps(matches, matches.len() - 1),
                p,
            ) <==> !agrees_right(text, left, right, p))
        }),
{
    lemma_agreed(text, left, right);
    let list = all_matches(text, left, right);
    let known = agreed(text, left, right);
    let last = list.len() - 1;
    lemma_uncovered(list, left, right, last);
    if agrees_left(text, left, right, p) {
        let m = choose|m: Matched| #[trigger] known(m) && m.left.start <= p < m.left.end;
        assert(inner(list, m));
        let i = choose|i: int| 0 < i < list.len() - 1 && #[trigger] list[i] == m;
        assert(list[i].left.start <= p < list[i].left.end);
    } else {
        assert forall|i: int| 0 <= i <= last implies !((#[trigger] list[i]).left.start <= p
            < list[i].left.end) by {
            if list[i].left.start <= p < list[i].left.end {
                assert(inner(list, list[i]));
                assert(known(list[i]));
            }
        }
    }
    if agrees_right(text, left, right, p) {
        let m = choose|m: Matched| #[trigger] known(m) && m.right.start <= p < m.right.end;
        assert(inner(list, m));
        let i = choose|i: int| 0 < i < list.len() - 1 && #[trigger] list[i] == m;
        assert(list[i].right.start <= p < list[i].right.end);
    } else {
        assert forall|i: int| 0 <= i <= last implies !((#[trigger] list[i]).right.start <= p
            < list[i].right.end) by {
            if list[i].right.start <= p < list[i].right.end {
                assert(inner(list, list[i]));
                assert(known(list[i]));
            }
        }
    }
}

/// A line that the differ keeps, where it compares two ranges line by line, is reported on
/// neither side.
pub proof fn law_kept_lines_are_not_reported(
    text: Seq<char>,
    left: Span,
    right: Span,
    i: int,
    j: int,
    p: int,
)
    requires
        inside(left, text),
        inside(right, text),
        all_promised(text, left, right),
        0 <= i < line_spans(text, left.start, left.end).len(),
        0 <= j < line_spans(text, right.start, right.end).len(),
        ({
            let before = line_spans(text, left.start, left.end);
            let after = line_spans(text, right.start, right.end);
            let hunks = histogram_hunks(span_texts(text, before), span_texts(text, after));
            pairs_up(hunks, before.len() as int, after.len() as int, i, j)
        }),
    ensures
        ({
            let matches = all_matches(text, left, right);
            let removed = left_gaps(matches, matches.len() - 1);
            let added = right_gaps(matches, matches.len() - 1);
            let before = line_spans(text, left.start, left.end)[i];
            let after = line_spans(text, right.start, right.end)[j];
            &&& before.start <= p < before.end ==> !in_spans(removed, p)
            &&& after.start <= p < after.end ==> !in_spans(added, p)
        }),
{
    let level = Granularity::Line;
    let before = compared(text, left, level);
    let after = compared(text, right, level);
    let none = |m: Matched| false;
    let lines = agreed_lines(text, left, right);
    let words = agreed_words(text, left, right);
    lemma_compared(text, left, level);
    lemma_compared(text, right, level);
    let pair = Matched { left: before[i], right: after[j] };
    assert(keeps(text, left, right, level, pair));
    assert(is_gap(none, left, right, left, right));
    assert(lines(pair));
    assert(words(pair));
    lemma_agreed_pair(text, left, right, pair, p);
}

/// The lines that two ranges agree on.
pub open spec fn agreed_lines(text: Seq<char>, left: Span, right: Span) -> spec_fn(
    Matched,
) -> bool {
    agreed_at(text, left, right, Granularity::Line, |m: Matched| false)
}

/// The lines and words that two ranges agree on.
pub open spec fn agreed_words(text: Seq<char>, left: Span, right: Span) -> spec_fn(
    Matched,
) -> bool {
    agreed_at(text, left, right, Granularity::Word, agreed_lines(text, left, right))
}

/// A word between neighbouring lines that two ranges agree on, which the differ keeps where
/// it compares what lies between them word by word, is reported on neither side.
pub proof fn law_kept_words_are_not_reported(
    text: Seq<char>,
    left: Span,
    right: Span,
    l: Span,
    r: Span,
    i: int,
    j: int,
    p: int,
)
    requires
        inside(left, text),
        inside(right, text),
        all_promised(text, left, right),
        is_gap(agreed_lines(text, left, right), left, right, l, r),
        0 <= i < runs(text, l.start, l.end, CharClass::Word).len(),
        0 <= j < runs(text, r.start, r.end, CharClass::Word).len(),
        ({
            let before = runs(text, l.start, l.end, CharClass::Word);
            let after = runs(text, r.start, r.end, CharClass::Word);
            let hunks = histogram_hunks(span_texts(text, before), span_texts(text, after));
            pairs_up(hunks, before.len() as int, after.len() as int, i, j)
        }),
    ensures
        ({
            let matches = all_matches(text, left, right);
            let removed = left_gaps(matches, matches.len() - 1);
            let added = right_gaps(matches, matches.len() - 1);
            let before = runs(text, l.start, l.end, CharClass::Word)[i];
            let after = runs(text, r.start, r.end, CharClass::Word)[j];
            &&& before.start <= p < before.end ==> !in_spans(removed, p)
            &&& after.start <= p < after.end ==> !in_spans(added, p)
        }),
{
    let level = Granularity::Word;
    let lines = agreed_lines(text, left, right);
    let words = agreed_words(text, left, right);
    let pair = Matched { left: compared(text, l, level)[i], right: compared(text, r, level)[j] };
    lemma_compared(text, l, level);
    lemma_compared(text, r, level);
    assert(keeps(text, l, r, level, pair));
    assert(words(pair));
    lemma_agreed_pair(text, left, right, pair, p);
}

/// A character that is part of no word, between neighbouring lines and words that two ranges
/// agree on, which the differ keeps where it compares these characters, is reported on
/// neither side.
pub proof fn law_kept_characters_are_not_reported(
    text: Seq<char>,
    left: Span,
    right: Span,
    l: Span,
    r: Span,
    i: int,
    j: int,
    p: int,
)
    requires
        inside(left, text),
        inside(right, text),
        all_promised(text, left, right),
        is_gap(agreed_words(text, left, right), left, right, l, r),
        0 <= i < nonword_spans(text, l.start, l.end).len(),
        0 <= j < nonword_spans(text, r.start, r.end).len(),
        ({
            let before = nonword_spans(text, l.start, l.end);
            let after = nonword_spans(text, r.start, r.end);
            let hunks = histogram_hunks(span_texts(text, before), span_texts(text, after));
            pairs_up(hunks, before.len() as int, after.len() as int, i, j)
        }),
    ensures
        ({
            let matches = all_matches(text, left, right);
            let removed = left_gaps(matches, matches.len() - 1);
            let added = right_gaps(matches, matches.len() - 1);
            let before = nonword_spans(text, l.start, l.end)[i];
            let after = nonword_spans(text, r.start, r.end)[j];
            &&& before.start <= p < before.end ==> !in_spans(removed, p)
            &&& after.start <= p < after.end ==> !in_spans(added, p)
        }),
{
    let level = Granularity::NonWord;
    let all = agreed(text, left, right);
    let pair = Matched { left: compared(text, l, level)[i], right: compared(text, r, level)[j] };
    lemma_compared(text, l, level);
    lemma_compared(text, r, level);
    assert(keeps(text, l, r, level, pair));
    assert(all(pair));
    lemma_agreed_pair(text, left, right, pair, p);
}

/// A pair that two ranges agree on is reported on neither side.
proof fn lemma_agreed_pair(text: Seq<char>, left: Span, right: Span, pair: Matched, p: int)
    requires
        inside(left, text),
        inside(right, text),
        all_promised(text, left, right),
        agreed_words(text, left, right)(pair) || agreed(text, left, right)(pair),
    ensures
        ({
            let matches = all_matches(text, left, right);
            let removed = left_gaps(matches, matches.len() - 1);
            let added = right_gaps(matches, matches.len() - 1);
            &&& pair.left.start <= p < pair.left.end ==> !in_spans(removed, p)
            &&& pair.right.start <= p < pair.right.end ==> !in_spans(added, p)
        }),
{
    let all = agreed(text, left, right);
    let list = all_matches(text, left, right);
    assert(all(pair));
    lemma_agreed(text, left, right);
    assert(inner(list, pair));
    law_reported_is_what_is_not_agreed_on(text, left, right, p);
    if pair.left.start <= p < pair.left.end {
        assert(agrees_left(text, left, right, p));
    }
    if pair.right.start <= p < pair.right.end {
        assert(agrees_right(text, left, right, p));
    }
}

/// Lines that two ranges have in common at the start are reported on neither side, and, up
/// to the first line that differs, so are lines that they have in common at the end.
pub proof fn law_common_lines_are_not_reported(
    text: Seq<char>,
    left: Span,
    right: Span,
    a: int,
    b: int,
    i: int,
    p: int,
)
    requires
        inside(left, text),
        inside(right, text),
        all_promised(text, left, right),
        ({
            let before = span_texts(text, line_spans(text, left.start, left.end));
            let after = span_texts(text, line_spans(text, right.start, right.end));
            &&& same_start(before, after, a)
            &&& same_end(before, after, b)
            &&& a + b <= before.len() && a + b <= after.len()
            &&& b > 0 ==> a < before.len() && a < after.len() && before[a] != after[a]
            &&& 0 <= i < a || before.len() - b <= i < before.len()
        }),
        ({
            let line = line_spans(text, left.start, left.end)[i];
            line.start <= p < line.end
        }),
    ensures
        ({
            let matches = all_matches(text, left, right);
            let before = line_spans(text, left.start, left.end);
            let after = line_spans(text, right.start, right.end);
            let j = if i < a {
                i
            } else {
                i - before.len() + after.len()
            };
            &&& !in_spans(left_gaps(matches, matches.len() - 1), p)
            &&& !in_spans(
                right_gaps(matches, matches.len() - 1),
                p - before[i].start + after[j].start,
            )
        }),
{
    let before = line_spans(text, left.start, left.end);
    let after = line_spans(text, right.start, right.end);
    let (n, m) = (before.len() as int, after.len() as int);
    let texts = span_texts(text, before);
    let other = span_texts(text, after);
    let hunks = histogram_hunks(texts, other);
    let len = hunks.len() as int;
    let j = if i < a {
        i
    } else {
        i - n + m
    };
    lemma_tokens(text, left, Granularity::Line);
    lemma_tokens(text, right, Granularity::Line);
    assert(texts.len() == n && other.len() == m);
    assert(0 <= j < m);
    assert(texts[i] == other[j]);
    assert(pairs_up(hunks, n, m, i, j)) by {
        if i < a {
            if len > 0 {
                assert(a <= hunks[0].before_start && a <= hunks[0].after_start);
            }
            assert(gap_len(hunks, n, m, 0) > i);
        } else {
            if len > 0 {
                assert(hunks[len - 1].before_end <= n - b && hunks[len - 1].after_end <= m - b);
            }
            assert(gap_len(hunks, n, m, len) == n - gap_start(hunks, len).0);
            assert(gap_len(hunks, n, m, len) == m - gap_start(hunks, len).1);
        }
    }
    let q = p - before[i].start + after[j].start;
    assert(after[j].start <= q < after[j].end) by {
        assert(texts[i].len() == other[j].len());
    }
    law_kept_lines_are_not_reported(text, left, right, i, j, p);
    law_kept_lines_are_not_reported(text, left, right, i, j, q);
}

} // verus!
