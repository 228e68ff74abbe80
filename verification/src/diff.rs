//! Comparing two lists of tokens.

use crate::tokens::{ordered_within, span, span_text, span_texts, spans, Span};
use imara_diff::{Algorithm, Diff, InternedInput, Interner};
use std::ops::Range;
use vstd::prelude::*;

verus! {

// ── Edit scripts ─────────────────────────────────────────────────────────────

/// One change between two lists of tokens: those of the first list from
/// `before_start` up to `before_end` were replaced by those of the second list
/// from `after_start` up to `after_end`.
#[derive(Debug, Clone, Copy, PartialEq, Eq, Structural)]
pub struct Hunk {
    pub before_start: usize,
    pub before_end: usize,
    pub after_start: usize,
    pub after_end: usize,
}

/// Where, in lists of `n` and `m` tokens, the unchanged tokens that precede hunk
/// `k` start (those after the last hunk, where there is no such hunk).
pub open spec fn gap_start(hunks: Seq<Hunk>, k: int) -> (int, int) {
    if k <= 0 {
        (0, 0)
    } else {
        (hunks[k - 1].before_end as int, hunks[k - 1].after_end as int)
    }
}

/// Where those unchanged tokens end.
pub open spec fn gap_end(hunks: Seq<Hunk>, n: int, m: int, k: int) -> (int, int) {
    if k < hunks.len() {
        (hunks[k].before_start as int, hunks[k].after_start as int)
    } else {
        (n, m)
    }
}

/// How many unchanged tokens precede hunk `k`.
pub open spec fn gap_len(hunks: Seq<Hunk>, n: int, m: int, k: int) -> int {
    gap_end(hunks, n, m, k).0 - gap_start(hunks, k).0
}

/// Whether hunks are an edit script for lists of `n` and `m` tokens: they are in
/// order and inside the lists, and as many tokens of the one list as of the other
/// stand between them.
pub open spec fn is_script(hunks: Seq<Hunk>, n: int, m: int) -> bool {
    &&& forall|k: int|
        0 <= k < hunks.len() ==> {
            &&& (#[trigger] hunks[k]).before_start <= hunks[k].before_end <= n
            &&& hunks[k].after_start <= hunks[k].after_end <= m
        }
    &&& forall|k: int|
        0 <= k <= hunks.len() ==> {
            &&& 0 <= #[trigger] gap_len(hunks, n, m, k)
            &&& gap_len(hunks, n, m, k) == gap_end(hunks, n, m, k).1 - gap_start(hunks, k).1
        }
}

/// Whether hunks turn the one list of tokens into the other: the tokens between
/// them are the same in both lists.
pub open spec fn transforms(hunks: Seq<Hunk>, before: Seq<Seq<char>>, after: Seq<Seq<char>>) -> bool {
    &&& is_script(hunks, before.len() as int, after.len() as int)
    &&& forall|k: int, t: int|
        0 <= k <= hunks.len() && 0 <= t < gap_len(
            hunks,
            before.len() as int,
            after.len() as int,
            k,
        ) ==> #[trigger] before[gap_start(hunks, k).0 + t] == after[gap_start(hunks, k).1 + t]
}

/// Whether the first `a` tokens of two lists are the same.
pub open spec fn same_start(before: Seq<Seq<char>>, after: Seq<Seq<char>>, a: int) -> bool {
    &&& 0 <= a <= before.len()
    &&& a <= after.len()
    &&& forall|i: int| 0 <= i < a ==> #[trigger] before[i] == after[i]
}

/// Whether the last `b` tokens of two lists are the same.
pub open spec fn same_end(before: Seq<Seq<char>>, after: Seq<Seq<char>>, b: int) -> bool {
    &&& 0 <= b <= before.len()
    &&& b <= after.len()
    &&& forall|i: int|
        before.len() - b <= i < before.len() ==> #[trigger] before[i] == after[after.len() - (
        before.len() - i)]
}

/// Whether hunks leave alone what two lists have in common at the start and, up to where
/// they first differ, at the end.
pub open spec fn spares_ends(hunks: Seq<Hunk>, before: Seq<Seq<char>>, after: Seq<Seq<char>>) -> bool {
    &&& forall|a: int, k: int|
        #[trigger] same_start(before, after, a) && 0 <= k < hunks.len() ==> a <= (
        #[trigger] hunks[k]).before_start && a <= hunks[k].after_start
    &&& forall|a: int, b: int, k: int|
        #[trigger] same_start(before, after, a) && #[trigger] same_end(before, after, b) && a
            < before.len() && a < after.len() && before[a] != after[a] && a + b <= before.len() && a
            + b <= after.len() && 0 <= k < hunks.len() ==> (#[trigger] hunks[k]).before_end
            <= before.len() - b && hunks[k].after_end <= after.len() - b
}

// ── The differ ───────────────────────────────────────────────────────────────

/// How many tokens the two lists of a comparison may hold together. The differ
/// numbers distinct tokens, and the slots of a table of up to four times their
/// number, with 32-bit integers.
pub const MAX_TOKENS: usize = 0x3fff_ffff;

/// The texts of a list of tokens.
pub open spec fn token_texts(tokens: Seq<Vec<char>>) -> Seq<Seq<char>> {
    tokens.map_values(|token: Vec<char>| token@)
}

/// The hunks that the histogram algorithm of `imara_diff` finds between two lists
/// of tokens.
pub uninterp spec fn histogram_hunks(before: Seq<Seq<char>>, after: Seq<Seq<char>>) -> Seq<Hunk>;

/// Whether the differ's hunks for two lists are as it promises: an edit script that spares
/// what the lists have in common at their ends, and has no hunks for lists that are the
/// same.
pub open spec fn differ_is_sound(before: Seq<Seq<char>>, after: Seq<Seq<char>>) -> bool {
    let hunks = histogram_hunks(before, after);
    &&& transforms(hunks, before, after)
    &&& spares_ends(hunks, before, after)
    &&& before == after ==> hunks.len() == 0
}

/// [`imara_diff::Diff::compute`] with the histogram algorithm, on tokens interned
/// by [`imara_diff::InternedInput`]; the result is read with
/// [`imara_diff::Diff::hunks`].
///
/// The hunks depend on the two lists alone. They are an edit script that
/// transforms the first list into the second. The differ first strips what both lists
/// have in common at the start, and then what the rest has in common at the end, and
/// hunks are in between; so lists that are the same have no hunks. Nothing more is said
/// of which hunks are found.
#[verifier::external_body]
pub(crate) fn diff_tokens(before: &Vec<Vec<char>>, after: &Vec<Vec<char>>) -> (hunks: Vec<Hunk>)
    requires
        before@.len() + after@.len() <= MAX_TOKENS,
    ensures
        hunks@ == histogram_hunks(token_texts(before@), token_texts(after@)),
        transforms(hunks@, token_texts(before@), token_texts(after@)),
        spares_ends(hunks@, token_texts(before@), token_texts(after@)),
        token_texts(before@) == token_texts(after@) ==> hunks@.len() == 0,
{
    let interner = Interner::new(before.len());
    let mut input = InternedInput { before: Vec::new(), after: Vec::new(), interner };
    input.update_before(before.iter());
    input.update_after(after.iter());
    Diff::compute(Algorithm::Histogram, &input)
        .hunks()
        .map(|hunk| Hunk {
            before_start: hunk.before.start as usize,
            before_end: hunk.before.end as usize,
            after_start: hunk.after.start as usize,
            after_end: hunk.after.end as usize,
        })
        .collect()
}

// ── What stays ───────────────────────────────────────────────────────────────

/// A token of the one list and the same token of the other.
pub struct Matched {
    pub left: Span,
    pub right: Span,
}

/// What a pair of ranges stands for.
pub open spec fn matched(pair: (Range<usize>, Range<usize>)) -> Matched {
    Matched { left: span(pair.0), right: span(pair.1) }
}

/// What a list of pairs of ranges stands for.
pub open spec fn all_matched(pairs: Seq<(Range<usize>, Range<usize>)>) -> Seq<Matched> {
    pairs.map_values(|pair: (Range<usize>, Range<usize>)| matched(pair))
}

/// Appending to a list of pairs appends to what it stands for.
pub proof fn lemma_matched_push(
    pairs: Seq<(Range<usize>, Range<usize>)>,
    pair: (Range<usize>, Range<usize>),
)
    ensures
        all_matched(pairs.push(pair)) == all_matched(pairs).push(matched(pair)),
{
    assert(all_matched(pairs.push(pair)) =~= all_matched(pairs).push(matched(pair)));
}

/// The `n` tokens from `i` of the one list, paired with those from `j` of the
/// other.
pub open spec fn zipped(left: Seq<Span>, right: Seq<Span>, i: int, j: int, n: int) -> Seq<Matched> {
    Seq::new(n as nat, |t: int| Matched { left: left[i + t], right: right[j + t] })
}

/// The unchanged tokens before each of the first `k` hunks, paired (with `k` one
/// more than the number of hunks, all unchanged tokens).
pub open spec fn kept_pairs(left: Seq<Span>, right: Seq<Span>, hunks: Seq<Hunk>, k: int) -> Seq<
    Matched,
>
    decreases k,
{
    if k <= 0 {
        Seq::empty()
    } else {
        kept_pairs(left, right, hunks, k - 1) + zipped(
            left,
            right,
            gap_start(hunks, k - 1).0,
            gap_start(hunks, k - 1).1,
            gap_len(hunks, left.len() as int, right.len() as int, k - 1),
        )
    }
}

/// The unchanged tokens of two lists, paired.
pub open spec fn all_kept(left: Seq<Span>, right: Seq<Span>, hunks: Seq<Hunk>) -> Seq<Matched> {
    kept_pairs(left, right, hunks, hunks.len() as int + 1)
}

// ── Chains of matches ────────────────────────────────────────────────────────

/// Whether matches are in order on both sides, and inside `left` and `right`.
pub open spec fn is_chain(list: Seq<Matched>, left: Span, right: Span) -> bool {
    &&& forall|i: int|
        #![trigger list[i]]
        0 <= i < list.len() ==> {
            &&& left.start <= list[i].left.start <= list[i].left.end <= left.end
            &&& right.start <= list[i].right.start <= list[i].right.end <= right.end
        }
    &&& forall|i: int, j: int|
        #![trigger list[i], list[j]]
        0 <= i < j < list.len() ==> {
            &&& list[i].left.end <= list[j].left.start
            &&& list[i].right.end <= list[j].right.start
        }
}

/// Whether the two sides of each match hold the same text.
pub open spec fn same_text(text: Seq<char>, list: Seq<Matched>) -> bool {
    forall|i: int|
        0 <= i < list.len() ==> span_text(text, (#[trigger] list[i]).left) == span_text(
            text,
            list[i].right,
        )
}

/// A chain followed by one that starts no earlier than it ends is a chain.
pub proof fn lemma_chain_append(
    a: Seq<Matched>,
    b: Seq<Matched>,
    left: Span,
    right: Span,
    l: int,
    r: int,
)
    requires
        is_chain(a, Span { start: left.start, end: l }, Span { start: right.start, end: r }),
        is_chain(b, Span { start: l, end: left.end }, Span { start: r, end: right.end }),
        left.start <= l <= left.end,
        right.start <= r <= right.end,
    ensures
        is_chain(a + b, left, right),
{
    let all = a + b;
    assert forall|i: int, j: int|
        #![trigger all[i], all[j]]
        0 <= i < j < all.len() implies {
        &&& all[i].left.end <= all[j].left.start
        &&& all[i].right.end <= all[j].right.start
    } by {
        if i >= a.len() {
            assert(all[i] == b[i - a.len()] && all[j] == b[j - a.len()]);
        } else if j >= a.len() {
            assert(all[i] == a[i] && all[j] == b[j - a.len()]);
        } else {
            assert(all[i] == a[i] && all[j] == a[j]);
        }
    }
    assert forall|i: int|
        #![trigger all[i]]
        0 <= i < all.len() implies {
        &&& left.start <= all[i].left.start <= all[i].left.end <= left.end
        &&& right.start <= all[i].right.start <= all[i].right.end <= right.end
    } by {
        if i >= a.len() {
            assert(all[i] == b[i - a.len()]);
        } else {
            assert(all[i] == a[i]);
        }
    }
}

/// Where the first `i` tokens end.
spec fn tokens_end(tokens: Seq<Span>, within: Span, i: int) -> int {
    if i <= 0 {
        within.start
    } else {
        tokens[i - 1].end
    }
}

/// Fewer tokens end earlier.
proof fn lemma_tokens_end(tokens: Seq<Span>, within: Span, i: int, j: int)
    requires
        ordered_within(tokens, within),
        within.start <= within.end,
        0 <= i <= j <= tokens.len(),
    ensures
        within.start <= tokens_end(tokens, within, i) <= tokens_end(tokens, within, j)
            <= within.end,
{
    if 0 < i < j {
        assert(tokens[i - 1].end <= tokens[j - 1].start);
    }
}

/// Tokens paired in order are a chain.
proof fn lemma_zipped_chain(
    left: Seq<Span>,
    right: Seq<Span>,
    l: Span,
    r: Span,
    i: int,
    j: int,
    n: int,
)
    requires
        ordered_within(left, l),
        ordered_within(right, r),
        0 <= i <= i + n <= left.len(),
        0 <= j <= j + n <= right.len(),
    ensures
        is_chain(
            zipped(left, right, i, j, n),
            Span { start: tokens_end(left, l, i), end: tokens_end(left, l, i + n) },
            Span { start: tokens_end(right, r, j), end: tokens_end(right, r, j + n) },
        ),
{
    let all = zipped(left, right, i, j, n);
    assert forall|t: int|
        #![trigger all[t]]
        0 <= t < all.len() implies {
        &&& tokens_end(left, l, i) <= all[t].left.start <= all[t].left.end <= tokens_end(
            left,
            l,
            i + n,
        )
        &&& tokens_end(right, r, j) <= all[t].right.start <= all[t].right.end <= tokens_end(
            right,
            r,
            j + n,
        )
    } by {
        assert(all[t] == (Matched { left: left[i + t], right: right[j + t] }));
        if i > 0 {
            assert(left[i - 1].end <= left[i + t].start);
        }
        if j > 0 {
            assert(right[j - 1].end <= right[j + t].start);
        }
        if t < n - 1 {
            assert(left[i + t].end <= left[i + n - 1].start);
            assert(right[j + t].end <= right[j + n - 1].start);
        }
    }
}

/// The first unchanged tokens are a chain, with the same text on both sides.
proof fn lemma_kept_pairs(
    text: Seq<char>,
    left: Seq<Span>,
    right: Seq<Span>,
    l: Span,
    r: Span,
    hunks: Seq<Hunk>,
    k: int,
)
    requires
        ordered_within(left, l),
        ordered_within(right, r),
        l.start <= l.end,
        r.start <= r.end,
        transforms(hunks, span_texts(text, left), span_texts(text, right)),
        0 <= k <= hunks.len() + 1,
    ensures
        same_text(text, kept_pairs(left, right, hunks, k)),
        k <= hunks.len() ==> is_chain(
            kept_pairs(left, right, hunks, k),
            Span { start: l.start, end: tokens_end(left, l, gap_start(hunks, k).0) },
            Span { start: r.start, end: tokens_end(right, r, gap_start(hunks, k).1) },
        ),
        is_chain(kept_pairs(left, right, hunks, k), l, r),
    decreases k,
{
    if k > 0 {
        lemma_kept_pairs(text, left, right, l, r, hunks, k - 1);
        let n = left.len() as int;
        let m = right.len() as int;
        let (i, j) = gap_start(hunks, k - 1);
        let len = gap_len(hunks, n, m, k - 1);
        let before = kept_pairs(left, right, hunks, k - 1);
        let gap = zipped(left, right, i, j, len);
        assert(0 <= i && 0 <= j && i + len <= n && j + len <= m);
        lemma_zipped_chain(left, right, l, r, i, j, len);
        lemma_tokens_end(left, l, 0, i);
        lemma_tokens_end(left, l, i, i + len);
        lemma_tokens_end(right, r, 0, j);
        lemma_tokens_end(right, r, j, j + len);
        lemma_chain_append(
            before,
            gap,
            Span { start: l.start, end: tokens_end(left, l, i + len) },
            Span { start: r.start, end: tokens_end(right, r, j + len) },
            tokens_end(left, l, i),
            tokens_end(right, r, j),
        );
        if k <= hunks.len() {
            assert(hunks[k - 1].before_start <= hunks[k - 1].before_end);
            lemma_tokens_end(left, l, i + len, gap_start(hunks, k).0);
            lemma_tokens_end(right, r, j + len, gap_start(hunks, k).1);
        }
        let all = kept_pairs(left, right, hunks, k);
        assert forall|p: int| 0 <= p < all.len() implies span_text(text, (#[trigger] all[p]).left)
            == span_text(text, all[p].right) by {
            if p < before.len() {
                assert(all[p] == before[p]);
            } else {
                let t = p - before.len();
                assert(all[p] == gap[t]);
                assert(span_texts(text, left)[gap_start(hunks, k - 1).0 + t] == span_texts(
                    text,
                    right,
                )[gap_start(hunks, k - 1).1 + t]);
            }
        }
    }
}

/// The tokens that an edit script leaves unchanged are a chain, with the same text
/// on both sides.
pub proof fn lemma_all_kept(
    text: Seq<char>,
    left: Seq<Span>,
    right: Seq<Span>,
    l: Span,
    r: Span,
    hunks: Seq<Hunk>,
)
    requires
        ordered_within(left, l),
        ordered_within(right, r),
        l.start <= l.end,
        r.start <= r.end,
        transforms(hunks, span_texts(text, left), span_texts(text, right)),
    ensures
        is_chain(all_kept(left, right, hunks), l, r),
        same_text(text, all_kept(left, right, hunks)),
{
    lemma_kept_pairs(text, left, right, l, r, hunks, hunks.len() as int + 1);
}

/// Whether both sides of each match are tokens of their lists.
pub open spec fn made_of(list: Seq<Matched>, left: Seq<Span>, right: Seq<Span>) -> bool {
    forall|i: int|
        0 <= i < list.len() ==> left.contains((#[trigger] list[i]).left) && right.contains(
            list[i].right,
        )
}

/// The first unchanged tokens are tokens of their lists.
proof fn lemma_kept_tokens(left: Seq<Span>, right: Seq<Span>, hunks: Seq<Hunk>, k: int)
    requires
        is_script(hunks, left.len() as int, right.len() as int),
        0 <= k <= hunks.len() + 1,
    ensures
        made_of(kept_pairs(left, right, hunks, k), left, right),
    decreases k,
{
    if k > 0 {
        lemma_kept_tokens(left, right, hunks, k - 1);
        let before = kept_pairs(left, right, hunks, k - 1);
        let all = kept_pairs(left, right, hunks, k);
        let (i, j) = gap_start(hunks, k - 1);
        let len = gap_len(hunks, left.len() as int, right.len() as int, k - 1);
        assert(0 <= i && 0 <= j && i + len <= left.len() && j + len <= right.len());
        assert forall|p: int| 0 <= p < all.len() implies left.contains((#[trigger] all[p]).left)
            && right.contains(all[p].right) by {
            if p < before.len() {
                assert(all[p] == before[p]);
            } else {
                let t = p - before.len();
                assert(all[p] == (Matched { left: left[i + t], right: right[j + t] }));
            }
        }
    }
}

/// The tokens that an edit script leaves unchanged are tokens of their lists.
pub proof fn lemma_all_kept_tokens(left: Seq<Span>, right: Seq<Span>, hunks: Seq<Hunk>)
    requires
        is_script(hunks, left.len() as int, right.len() as int),
    ensures
        made_of(all_kept(left, right, hunks), left, right),
{
    lemma_kept_tokens(left, right, hunks, hunks.len() as int + 1);
}

/// An edit script without hunks leaves all tokens unchanged.
pub proof fn lemma_kept_without_hunks(left: Seq<Span>, right: Seq<Span>)
    ensures
        all_kept(left, right, Seq::empty()) == zipped(left, right, 0, 0, left.len() as int),
{
    let none = Seq::<Hunk>::empty();
    reveal_with_fuel(kept_pairs, 2);
    assert(all_kept(left, right, none) =~= zipped(left, right, 0, 0, left.len() as int));
}

// ── Which tokens are paired ──────────────────────────────────────────────────

/// Whether an edit script for lists of `n` and `m` tokens leaves token `i` of the first
/// unchanged, as token `j` of the second.
pub open spec fn pairs_up(hunks: Seq<Hunk>, n: int, m: int, i: int, j: int) -> bool {
    exists|k: int|
        0 <= k <= hunks.len() && gap_start(hunks, k).0 <= i < gap_start(hunks, k).0
            + #[trigger] gap_len(hunks, n, m, k) && i - gap_start(hunks, k).0 == j - gap_start(
            hunks,
            k,
        ).1
}

/// Tokens that are paired are the same, and are tokens of the lists.
pub proof fn lemma_paired_tokens(
    hunks: Seq<Hunk>,
    before: Seq<Seq<char>>,
    after: Seq<Seq<char>>,
    i: int,
    j: int,
)
    requires
        transforms(hunks, before, after),
        pairs_up(hunks, before.len() as int, after.len() as int, i, j),
    ensures
        0 <= i < before.len(),
        0 <= j < after.len(),
        before[i] == after[j],
{
    let (n, m) = (before.len() as int, after.len() as int);
    let k = choose|k: int|
        0 <= k <= hunks.len() && gap_start(hunks, k).0 <= i < gap_start(hunks, k).0
            + #[trigger] gap_len(hunks, n, m, k) && i - gap_start(hunks, k).0 == j - gap_start(
            hunks,
            k,
        ).1;
    let t = i - gap_start(hunks, k).0;
    assert(before[gap_start(hunks, k).0 + t] == after[gap_start(hunks, k).1 + t]);
    assert(0 <= gap_start(hunks, k).0 && 0 <= gap_start(hunks, k).1);
}

/// Lists that differ in one token alone have all others paired, each with its counterpart,
/// and no hunk reaches beyond that token.
pub proof fn lemma_one_token_differs(
    hunks: Seq<Hunk>,
    before: Seq<Seq<char>>,
    after: Seq<Seq<char>>,
    c: int,
)
    requires
        transforms(hunks, before, after),
        spares_ends(hunks, before, after),
        before.len() == after.len(),
        0 <= c < before.len(),
        before[c] != after[c],
        forall|j: int| 0 <= j < before.len() && j != c ==> #[trigger] before[j] == after[j],
    ensures
        forall|k: int|
            0 <= k < hunks.len() ==> c <= (#[trigger] hunks[k]).before_start && hunks[k].before_end
                <= c + 1 && c <= hunks[k].after_start && hunks[k].after_end <= c + 1,
        forall|i: int, j: int|
            #[trigger] pairs_up(hunks, before.len() as int, before.len() as int, i, j) <==> i == j
                && 0 <= i < before.len() && i != c,
{
    let n = before.len() as int;
    let len = hunks.len() as int;
    assert(same_start(before, after, c));
    assert(same_end(before, after, n - c - 1));
    assert forall|i: int, j: int|
        #[trigger] pairs_up(hunks, n, n, i, j) implies i == j && 0 <= i < n && i != c by {
        lemma_paired_tokens(hunks, before, after, i, j);
        let k = choose|k: int|
            0 <= k <= hunks.len() && gap_start(hunks, k).0 <= i < gap_start(hunks, k).0
                + #[trigger] gap_len(hunks, n, n, k) && i - gap_start(hunks, k).0 == j - gap_start(
                hunks,
                k,
            ).1;
        assert(gap_len(hunks, n, n, k) == gap_end(hunks, n, n, k).1 - gap_start(hunks, k).1);
        if k > 0 {
            assert(c <= hunks[k - 1].before_start <= hunks[k - 1].before_end <= c + 1);
            assert(c <= hunks[k - 1].after_start <= hunks[k - 1].after_end <= c + 1);
            if k < len {
                assert(c <= hunks[k].before_start <= c + 1 && c <= hunks[k].after_start <= c + 1);
            }
        }
        assert(i == j);
    }
    assert forall|i: int, j: int| i == j && 0 <= i < n && i != c implies #[trigger] pairs_up(
        hunks,
        n,
        n,
        i,
        j,
    ) by {
        if len == 0 {
            assert(gap_len(hunks, n, n, 0) == n);
        } else if i < c {
            assert(gap_len(hunks, n, n, 0) == hunks[0].before_start);
            assert(gap_start(hunks, 0).0 <= i < gap_start(hunks, 0).0 + gap_len(hunks, n, n, 0));
        } else {
            assert(gap_len(hunks, n, n, len) == n - hunks[len - 1].before_end);
            assert(gap_len(hunks, n, n, len) == n - hunks[len - 1].after_end);
            assert(gap_start(hunks, len).0 <= i < gap_start(hunks, len).0 + gap_len(
                hunks,
                n,
                n,
                len,
            ));
        }
    }
}

/// Lists without hunks have every token paired with its counterpart.
pub proof fn lemma_no_token_differs(hunks: Seq<Hunk>, n: int)
    requires
        hunks.len() == 0,
        0 <= n,
    ensures
        forall|i: int, j: int|
            #[trigger] pairs_up(hunks, n, n, i, j) <==> i == j && 0 <= i < n,
{
    assert(gap_len(hunks, n, n, 0) == n);
}

// ── Matching tokens ──────────────────────────────────────────────────────────

/// Pairs the `n` tokens from `i` of the one list with those from `j` of the other.
fn zip_tokens(
    pairs: &mut Vec<(Range<usize>, Range<usize>)>,
    left: &Vec<Range<usize>>,
    right: &Vec<Range<usize>>,
    i: usize,
    j: usize,
    n: usize,
)
    requires
        i + n <= left.len(),
        j + n <= right.len(),
    ensures
        all_matched(final(pairs)@) == all_matched(old(pairs)@) + zipped(
            spans(left@),
            spans(right@),
            i as int,
            j as int,
            n as int,
        ),
{
    let ghost ls = spans(left@);
    let ghost rs = spans(right@);
    let ghost before = all_matched(pairs@);
    let mut t: usize = 0;
    assert(before + zipped(ls, rs, i as int, j as int, 0) =~= before);
    while t < n
        invariant
            t <= n,
            i + n <= left.len(),
            j + n <= right.len(),
            ls == spans(left@),
            rs == spans(right@),
            all_matched(pairs@) == before + zipped(ls, rs, i as int, j as int, t as int),
        decreases n - t,
    {
        let l = &left[i + t];
        let r = &right[j + t];
        let pair = (l.start..l.end, r.start..r.end);
        proof {
            lemma_matched_push(pairs@, pair);
            assert((before + zipped(ls, rs, i as int, j as int, t as int)).push(matched(pair))
                =~= before + zipped(ls, rs, i as int, j as int, t + 1));
        }
        pairs.push(pair);
        t += 1;
    }
}

/// Pairs the tokens that an edit script leaves unchanged, each with its
/// counterpart.
pub fn match_tokens(left: &Vec<Range<usize>>, right: &Vec<Range<usize>>, hunks: &Vec<Hunk>) -> (pairs:
    Vec<(Range<usize>, Range<usize>)>)
    requires
        is_script(hunks@, left@.len() as int, right@.len() as int),
    ensures
        all_matched(pairs@) == all_kept(spans(left@), spans(right@), hunks@),
{
    let ghost n = left@.len() as int;
    let ghost m = right@.len() as int;
    let mut pairs: Vec<(Range<usize>, Range<usize>)> = Vec::new();
    let mut i: usize = 0;
    let mut j: usize = 0;
    let mut k: usize = 0;
    assert(all_matched(pairs@) =~= Seq::<Matched>::empty());
    while k < hunks.len()
        invariant
            n == left@.len(),
            m == right@.len(),
            is_script(hunks@, n, m),
            k <= hunks@.len(),
            (i as int, j as int) == gap_start(hunks@, k as int),
            all_matched(pairs@) == kept_pairs(spans(left@), spans(right@), hunks@, k as int),
        decreases hunks@.len() - k,
    {
        let hunk = hunks[k];
        assert(gap_len(hunks@, n, m, k as int) == hunk.before_start - i);
        zip_tokens(&mut pairs, left, right, i, j, hunk.before_start - i);
        i = hunk.before_end;
        j = hunk.after_end;
        k += 1;
    }
    assert(gap_len(hunks@, n, m, k as int) == n - i);
    zip_tokens(&mut pairs, left, right, i, j, left.len() - i);
    pairs
}

} // verus!
