//! Comparing two ranges of a document, coarse to fine: line by line, then the
//! changed lines word by word, then what is left character by character.

use crate::diff::{
    all_kept, all_matched, diff_tokens, differ_is_sound, histogram_hunks, is_chain, lemma_all_kept,
    lemma_all_kept_tokens, lemma_chain_append, lemma_kept_without_hunks, lemma_matched_push,
    made_of, match_tokens, matched, same_text, token_texts, transforms, zipped, Hunk, Matched,
    MAX_TOKENS,
};
use crate::text::{rope_chars, slice, slice_to_chars};
use crate::tokens::{
    apart, in_spans, is_word, lemma_fewer_lines, lemma_fewer_nonwords, lemma_fewer_runs,
    lemma_line_spans, lemma_nonword_spans, lemma_runs, lemma_spans_push, line_spans, nonword_spans,
    ordered_within, runs, span, span_text, span_texts, spans, tokenize_line_ranges,
    tokenize_nonword_ranges, tokenize_word_ranges, CharClass, Span,
};
use ropey::Rope;
use std::ops::Range;
use vstd::prelude::*;

verus! {

// ── One level ────────────────────────────────────────────────────────────────

/// What counts as a token.
#[derive(Debug, Clone, Copy, PartialEq, Eq, Structural)]
pub enum Granularity {
    /// A line, with the line feed that ends it.
    Line,
    /// A run of word characters.
    Word,
    /// A single character that is not part of a word.
    NonWord,
}

/// The tokens in a span of a text.
pub open spec fn tokens(text: Seq<char>, s: Span, level: Granularity) -> Seq<Span> {
    match level {
        Granularity::Line => line_spans(text, s.start, s.end),
        Granularity::Word => runs(text, s.start, s.end, CharClass::Word),
        Granularity::NonWord => nonword_spans(text, s.start, s.end),
    }
}

/// Whether a span is part of a text.
pub open spec fn inside(s: Span, text: Seq<char>) -> bool {
    0 <= s.start <= s.end <= text.len()
}

/// Whether the tokens in two spans are few enough for the differ.
pub open spec fn fit(text: Seq<char>, left: Span, right: Span, level: Granularity) -> bool {
    tokens(text, left, level).len() + tokens(text, right, level).len() <= MAX_TOKENS
}

/// Whether the tokens in two spans are few enough for the differ at every level.
pub open spec fn comparable(text: Seq<char>, left: Span, right: Span) -> bool {
    &&& fit(text, left, right, Granularity::Line)
    &&& fit(text, left, right, Granularity::Word)
    &&& fit(text, left, right, Granularity::NonWord)
}

/// The hunks between the tokens in two spans of a text.
pub open spec fn level_hunks(text: Seq<char>, left: Span, right: Span, level: Granularity) -> Seq<
    Hunk,
> {
    histogram_hunks(
        span_texts(text, tokens(text, left, level)),
        span_texts(text, tokens(text, right, level)),
    )
}

/// Whether the differ's hunks between the tokens in two spans are as it promises, where
/// both spans have tokens.
pub open spec fn promised(text: Seq<char>, left: Span, right: Span, level: Granularity) -> bool {
    let left_tokens = tokens(text, left, level);
    let right_tokens = tokens(text, right, level);
    left_tokens.len() > 0 && right_tokens.len() > 0 ==> differ_is_sound(
        span_texts(text, left_tokens),
        span_texts(text, right_tokens),
    )
}

/// The tokens of two spans that match each other.
pub open spec fn level_matches(
    text: Seq<char>,
    left: Span,
    right: Span,
    level: Granularity,
) -> Seq<Matched> {
    let left_tokens = tokens(text, left, level);
    let right_tokens = tokens(text, right, level);
    if left_tokens.len() == 0 || right_tokens.len() == 0 {
        Seq::empty()
    } else {
        all_kept(left_tokens, right_tokens, level_hunks(text, left, right, level))
    }
}

/// Tokens are in order, and no more than the characters.
pub proof fn lemma_tokens(text: Seq<char>, s: Span, level: Granularity)
    requires
        inside(s, text),
    ensures
        ordered_within(tokens(text, s, level), s),
        tokens(text, s, level).len() <= s.end - s.start,
{
    match level {
        Granularity::Line => lemma_line_spans(text, s.start, s.end),
        Granularity::Word => lemma_runs(text, s.start, s.end, CharClass::Word),
        Granularity::NonWord => lemma_nonword_spans(text, s.start, s.end),
    }
    lemma_count(tokens(text, s, level), s);
}

/// Spans that are short enough are comparable: they have no more tokens than characters.
pub proof fn law_short_spans_are_comparable(text: Seq<char>, left: Span, right: Span)
    requires
        inside(left, text),
        inside(right, text),
        (left.end - left.start) + (right.end - right.start) <= MAX_TOKENS,
    ensures
        comparable(text, left, right),
{
    lemma_tokens(text, left, Granularity::Line);
    lemma_tokens(text, left, Granularity::Word);
    lemma_tokens(text, left, Granularity::NonWord);
    lemma_tokens(text, right, Granularity::Line);
    lemma_tokens(text, right, Granularity::Word);
    lemma_tokens(text, right, Granularity::NonWord);
}

/// A part of a span has no more tokens than the span.
proof fn lemma_fewer_tokens(text: Seq<char>, part: Span, whole: Span, level: Granularity)
    requires
        inside(whole, text),
        whole.start <= part.start <= part.end <= whole.end,
    ensures
        tokens(text, part, level).len() <= tokens(text, whole, level).len(),
{
    match level {
        Granularity::Line => lemma_fewer_lines(text, part, whole),
        Granularity::Word => lemma_fewer_runs(text, part, whole, CharClass::Word),
        Granularity::NonWord => lemma_fewer_nonwords(text, part, whole),
    }
}

/// No more non-empty spans fit into a span than it has positions.
pub proof fn lemma_count(list: Seq<Span>, within: Span)
    requires
        ordered_within(list, within),
        within.start <= within.end,
    ensures
        list.len() <= within.end - within.start,
    decreases list.len(),
{
    if list.len() > 0 {
        let shorter = Span { start: within.start, end: list.last().start };
        assert(ordered_within(list.drop_last(), shorter));
        lemma_count(list.drop_last(), shorter);
    }
}

/// Divides a range into tokens.
fn tokenize(text: &Rope, range: Range<usize>, level: Granularity) -> (ranges: Vec<Range<usize>>)
    requires
        inside(span(range), rope_chars(*text)),
    ensures
        spans(ranges@) == tokens(rope_chars(*text), span(range), level),
{
    match level {
        Granularity::Line => tokenize_line_ranges(text, range),
        Granularity::Word => tokenize_word_ranges(text, range),
        Granularity::NonWord => tokenize_nonword_ranges(text, range),
    }
}

/// Reads the text of each token.
fn read_tokens(text: &Rope, ranges: &Vec<Range<usize>>) -> (texts: Vec<Vec<char>>)
    requires
        forall|i: int|
            0 <= i < ranges@.len() ==> inside(span(#[trigger] ranges@[i]), rope_chars(*text)),
    ensures
        token_texts(texts@) == span_texts(rope_chars(*text), spans(ranges@)),
{
    let mut texts: Vec<Vec<char>> = Vec::new();
    let mut i: usize = 0;
    while i < ranges.len()
        invariant
            forall|i: int|
                0 <= i < ranges@.len() ==> inside(span(#[trigger] ranges@[i]), rope_chars(*text)),
            i <= ranges@.len(),
            texts@.len() == i,
            forall|j: int|
                0 <= j < i ==> (#[trigger] texts@[j])@ == span_text(
                    rope_chars(*text),
                    span(ranges@[j]),
                ),
        decreases ranges@.len() - i,
    {
        texts.push(slice_to_chars(slice(text, ranges[i].start, ranges[i].end)));
        i += 1;
    }
    assert(token_texts(texts@) =~= span_texts(rope_chars(*text), spans(ranges@)));
    texts
}

/// Compares two ranges at one level, and returns a pair of ranges for each token
/// that both have in common. The tokens are in order on both sides.
fn single_level_diff(
    text: &Rope,
    left: Range<usize>,
    right: Range<usize>,
    level: Granularity,
) -> (pairs: Vec<(Range<usize>, Range<usize>)>)
    requires
        inside(span(left), rope_chars(*text)),
        inside(span(right), rope_chars(*text)),
        fit(rope_chars(*text), span(left), span(right), level),
    ensures
        ({
            let chars = rope_chars(*text);
            let left_tokens = tokens(chars, span(left), level);
            let right_tokens = tokens(chars, span(right), level);
            &&& left_tokens.len() > 0 && right_tokens.len() > 0 ==> transforms(
                level_hunks(chars, span(left), span(right), level),
                span_texts(chars, left_tokens),
                span_texts(chars, right_tokens),
            )
            &&& promised(chars, span(left), span(right), level)
            &&& made_of(all_matched(pairs@), left_tokens, right_tokens)
        }),
        all_matched(pairs@) == level_matches(rope_chars(*text), span(left), span(right), level),
        is_chain(all_matched(pairs@), span(left), span(right)),
        same_text(rope_chars(*text), all_matched(pairs@)),
        span_texts(rope_chars(*text), tokens(rope_chars(*text), span(left), level)) == span_texts(
            rope_chars(*text),
            tokens(rope_chars(*text), span(right), level),
        ) ==> all_matched(pairs@) == zipped(
            tokens(rope_chars(*text), span(left), level),
            tokens(rope_chars(*text), span(right), level),
            0,
            0,
            tokens(rope_chars(*text), span(left), level).len() as int,
        ),
{
    let ghost chars = rope_chars(*text);
    let ghost l = span(left);
    let ghost r = span(right);
    proof {
        lemma_tokens(chars, l, level);
        lemma_tokens(chars, r, level);
    }
    let left_ranges = tokenize(text, left, level);
    let right_ranges = tokenize(text, right, level);
    let ghost ls = tokens(chars, l, level);
    let ghost rs = tokens(chars, r, level);
    if left_ranges.len() == 0 || right_ranges.len() == 0 {
        let pairs: Vec<(Range<usize>, Range<usize>)> = Vec::new();
        assert(spans(left_ranges@).len() == left_ranges@.len());
        assert(spans(right_ranges@).len() == right_ranges@.len());
        assert(all_matched(pairs@) =~= Seq::<Matched>::empty());
        proof {
            if span_texts(chars, ls) == span_texts(chars, rs) {
                assert(span_texts(chars, ls).len() == ls.len());
                assert(span_texts(chars, rs).len() == rs.len());
                assert(zipped(ls, rs, 0, 0, ls.len() as int) =~= Seq::<Matched>::empty());
            }
        }
        return pairs;
    }
    assert forall|i: int| 0 <= i < left_ranges@.len() implies inside(
        span(#[trigger] left_ranges@[i]),
        chars,
    ) by {
        assert(spans(left_ranges@)[i] == span(left_ranges@[i]));
    }
    assert forall|i: int| 0 <= i < right_ranges@.len() implies inside(
        span(#[trigger] right_ranges@[i]),
        chars,
    ) by {
        assert(spans(right_ranges@)[i] == span(right_ranges@[i]));
    }
    let before = read_tokens(text, &left_ranges);
    let after = read_tokens(text, &right_ranges);
    assert(token_texts(before@).len() == before@.len());
    assert(token_texts(after@).len() == after@.len());
    assert(span_texts(chars, ls).len() == ls.len());
    assert(span_texts(chars, rs).len() == rs.len());
    assert(spans(left_ranges@).len() == left_ranges@.len());
    assert(spans(right_ranges@).len() == right_ranges@.len());
    let hunks = diff_tokens(&before, &after);
    proof {
        lemma_all_kept(chars, ls, rs, l, r, hunks@);
        lemma_all_kept_tokens(ls, rs, hunks@);
        if span_texts(chars, ls) == span_texts(chars, rs) {
            assert(hunks@ =~= Seq::<Hunk>::empty());
            lemma_kept_without_hunks(ls, rs);
        }
    }
    match_tokens(&left_ranges, &right_ranges, &hunks)
}

// ── Refining matches ─────────────────────────────────────────────────────────

/// What lies between two matches on the left.
pub open spec fn left_gap(a: Matched, b: Matched) -> Span {
    Span { start: a.left.end, end: b.left.start }
}

/// What lies between two matches on the right.
pub open spec fn right_gap(a: Matched, b: Matched) -> Span {
    Span { start: a.right.end, end: b.right.start }
}

/// The finer matches between two matches. There are none unless both sides have
/// text in between.
pub open spec fn gap_matches(text: Seq<char>, a: Matched, b: Matched, level: Granularity) -> Seq<
    Matched,
> {
    let left = left_gap(a, b);
    let right = right_gap(a, b);
    if left.start < left.end && right.start < right.end {
        level_matches(text, left, right, level)
    } else {
        Seq::empty()
    }
}

/// The first `k + 1` matches, with the matches found in the `k` gaps between them.
pub open spec fn interleaved(list: Seq<Matched>, found: Seq<Seq<Matched>>, k: int) -> Seq<Matched>
    decreases k,
{
    if k <= 0 {
        seq![list[0]]
    } else {
        (interleaved(list, found, k - 1) + found[k - 1]).push(list[k])
    }
}

/// The finer matches in each gap of a list of matches.
pub open spec fn all_gap_matches(text: Seq<char>, list: Seq<Matched>, level: Granularity) -> Seq<
    Seq<Matched>,
> {
    Seq::new((list.len() - 1) as nat, |i: int| gap_matches(text, list[i], list[i + 1], level))
}

/// Whether the differ's hunks in each gap of a list of matches are as it promises.
pub open spec fn gaps_promised(text: Seq<char>, list: Seq<Matched>, level: Granularity) -> bool {
    forall|j: int, k: int|
        0 <= j && k == j + 1 && k < list.len() ==> promised(
            text,
            #[trigger] left_gap(list[j], list[k]),
            right_gap(list[j], list[k]),
            level,
        )
}

/// A list of matches with the finer matches of its gaps inserted.
pub open spec fn refined(text: Seq<char>, list: Seq<Matched>, level: Granularity) -> Seq<Matched> {
    interleaved(list, all_gap_matches(text, list, level), list.len() - 1)
}

/// What lists of pairs of ranges stand for.
pub open spec fn all_gaps_matched(found: Seq<Vec<(Range<usize>, Range<usize>)>>) -> Seq<
    Seq<Matched>,
> {
    found.map_values(|pairs: Vec<(Range<usize>, Range<usize>)>| all_matched(pairs@))
}

/// Whether the finer matches fit into the gaps of a chain: each list is a chain
/// inside its gap, or empty.
pub open spec fn fit_gaps(list: Seq<Matched>, found: Seq<Seq<Matched>>) -> bool {
    &&& found.len() == list.len() - 1
    &&& forall|i: int|
        0 <= i < found.len() ==> is_chain(
            #[trigger] found[i],
            left_gap(list[i], list[i + 1]),
            right_gap(list[i], list[i + 1]),
        )
}

/// Inserting chains into the gaps of a chain yields a chain.
pub proof fn lemma_interleaved(
    text: Seq<char>,
    list: Seq<Matched>,
    found: Seq<Seq<Matched>>,
    left: Span,
    right: Span,
    k: int,
)
    requires
        is_chain(list, left, right),
        fit_gaps(list, found),
        0 <= k < list.len(),
    ensures
        is_chain(
            interleaved(list, found, k),
            Span { start: left.start, end: list[k].left.end },
            Span { start: right.start, end: list[k].right.end },
        ),
        same_text(text, list) && (forall|i: int|
            0 <= i < found.len() ==> same_text(text, #[trigger] found[i])) ==> same_text(
            text,
            interleaved(list, found, k),
        ),
    decreases k,
{
    let all = interleaved(list, found, k);
    if k == 0 {
        assert(all[0] == list[0]);
    } else {
        lemma_interleaved(text, list, found, left, right, k - 1);
        let a = list[k - 1];
        let b = list[k];
        let before = interleaved(list, found, k - 1);
        let gap = found[k - 1];
        assert(a.left.end <= b.left.start && a.right.end <= b.right.start);
        lemma_chain_append(
            before,
            gap,
            Span { start: left.start, end: b.left.start },
            Span { start: right.start, end: b.right.start },
            a.left.end,
            a.right.end,
        );
        let one = seq![b];
        assert(is_chain(one, b.left, b.right));
        lemma_chain_append(
            before + gap,
            one,
            Span { start: left.start, end: b.left.end },
            Span { start: right.start, end: b.right.end },
            b.left.start,
            b.right.start,
        );
        assert((before + gap) + one =~= all);
        if same_text(text, list) && (forall|i: int|
            0 <= i < found.len() ==> same_text(text, #[trigger] found[i])) {
            assert(same_text(text, gap));
            assert forall|i: int| 0 <= i < all.len() implies span_text(
                text,
                (#[trigger] all[i]).left,
            ) == span_text(text, all[i].right) by {
                if i < before.len() {
                    assert(all[i] == before[i]);
                } else if i < before.len() + gap.len() {
                    assert(all[i] == gap[i - before.len()]);
                } else {
                    assert(all[i] == list[k]);
                }
            }
        }
    }
}

/// Inserts the matches found in each gap between the matches around it.
pub fn interleave(
    pairs: &Vec<(Range<usize>, Range<usize>)>,
    found: &Vec<Vec<(Range<usize>, Range<usize>)>>,
) -> (all: Vec<(Range<usize>, Range<usize>)>)
    requires
        pairs@.len() > 0,
        found@.len() == pairs@.len() - 1,
    ensures
        all_matched(all@) == interleaved(
            all_matched(pairs@),
            all_gaps_matched(found@),
            pairs@.len() - 1,
        ),
{
    let ghost list = all_matched(pairs@);
    let ghost gaps = all_gaps_matched(found@);
    let mut all: Vec<(Range<usize>, Range<usize>)> = Vec::new();
    let first = &pairs[0];
    all.push((first.0.start..first.0.end, first.1.start..first.1.end));
    assert(all_matched(all@) =~= seq![list[0]]);
    let mut k: usize = 0;
    while k < found.len()
        invariant
            found@.len() == pairs@.len() - 1,
            list == all_matched(pairs@),
            gaps == all_gaps_matched(found@),
            k <= found@.len(),
            all_matched(all@) == interleaved(list, gaps, k as int),
        decreases found@.len() - k,
    {
        let gap = &found[k];
        let ghost before = all_matched(all@);
        assert(gaps[k as int] == all_matched(gap@));
        let mut i: usize = 0;
        assert(before + all_matched(gap@).take(0) =~= before);
        while i < gap.len()
            invariant
                i <= gap@.len(),
                all_matched(all@) == before + all_matched(gap@).take(i as int),
            decreases gap@.len() - i,
        {
            let pair = (gap[i].0.start..gap[i].0.end, gap[i].1.start..gap[i].1.end);
            proof {
                lemma_matched_push(all@, pair);
                assert(matched(pair) == all_matched(gap@)[i as int]);
                assert((before + all_matched(gap@).take(i as int)).push(matched(pair)) =~= before
                    + all_matched(gap@).take(i + 1));
            }
            all.push(pair);
            i += 1;
        }
        assert(all_matched(gap@).take(i as int) =~= all_matched(gap@));
        let next = &pairs[k + 1];
        let pair = (next.0.start..next.0.end, next.1.start..next.1.end);
        proof {
            lemma_matched_push(all@, pair);
            assert(matched(pair) == list[k + 1]);
        }
        all.push(pair);
        k += 1;
    }
    all
}

// ── Words stay whole ─────────────────────────────────────────────────────────

/// Whether no word of a span is cut in two at a position.
pub open spec fn cuts_no_word(text: Seq<char>, within: Span, p: int) -> bool {
    p <= within.start || within.end <= p || !is_word(text[p - 1]) || !is_word(text[p])
}

/// Whether a span starts and ends without cutting a word of `within` in two.
pub open spec fn holds_whole_words(text: Seq<char>, within: Span, s: Span) -> bool {
    cuts_no_word(text, within, s.start) && cuts_no_word(text, within, s.end)
}

/// Whether matches cut no word in two, and none is empty but the first and the last.
pub open spec fn keeps_words(
    text: Seq<char>,
    list: Seq<Matched>,
    left: Span,
    right: Span,
) -> bool {
    &&& forall|i: int|
        0 <= i < list.len() ==> holds_whole_words(text, left, (#[trigger] list[i]).left)
            && holds_whole_words(text, right, list[i].right)
    &&& forall|i: int|
        0 < i < list.len() - 1 ==> (#[trigger] list[i]).left.start < list[i].left.end
            && list[i].right.start < list[i].right.end
}

/// A token below the level of lines cuts no word in two, where the span that it is a token
/// of does not.
proof fn lemma_token_words(
    text: Seq<char>,
    s: Span,
    within: Span,
    level: Granularity,
    token: Span,
)
    requires
        inside(within, text),
        within.start <= s.start <= s.end <= within.end,
        holds_whole_words(text, within, s),
        level != Granularity::Line,
        tokens(text, s, level).contains(token),
    ensures
        token.start < token.end,
        holds_whole_words(text, within, token),
{
    let list = tokens(text, s, level);
    let i = choose|i: int| 0 <= i < list.len() && list[i] == token;
    lemma_tokens(text, s, level);
    assert(s.start <= list[i].start < list[i].end <= s.end);
    if level == Granularity::Word {
        lemma_runs(text, s.start, s.end, CharClass::Word);
        if token.start > s.start && is_word(text[token.start - 1]) {
            assert(CharClass::Word.admits(text[token.start - 1]));
            let j = choose|j: int|
                0 <= j < list.len() && (#[trigger] list[j]).start <= token.start - 1 < list[j].end;
            assert(false);
        }
        if token.end < s.end && is_word(text[token.end]) {
            assert(CharClass::Word.admits(text[token.end]));
            let j = choose|j: int|
                0 <= j < list.len() && (#[trigger] list[j]).start <= token.end < list[j].end;
            assert(false);
        }
    } else {
        lemma_nonword_spans(text, s.start, s.end);
        assert(in_spans(list, token.start));
        assert(in_spans(list, token.end - 1));
    }
}

/// Lines cut no word of their span in two.
proof fn lemma_line_words(text: Seq<char>, s: Span, token: Span)
    requires
        inside(s, text),
        tokens(text, s, Granularity::Line).contains(token),
    ensures
        token.start < token.end,
        holds_whole_words(text, s, token),
{
    let list = tokens(text, s, Granularity::Line);
    let i = choose|i: int| 0 <= i < list.len() && list[i] == token;
    lemma_line_spans(text, s.start, s.end);
    assert(list[i].start < list[i].end);
    if i > 0 {
        assert(list[i].start == list[i - 1].end);
        assert(text[list[i - 1].end - 1] == '\n');
    }
    if i < list.len() - 1 {
        assert(text[list[i].end - 1] == '\n');
    } else {
        assert(list.last() == list[i]);
    }
}

/// Inserting tokens into the gaps between matches cuts no word in two.
proof fn lemma_interleaved_words(
    text: Seq<char>,
    list: Seq<Matched>,
    found: Seq<Seq<Matched>>,
    left: Span,
    right: Span,
    level: Granularity,
    k: int,
)
    requires
        inside(left, text),
        inside(right, text),
        is_chain(list, left, right),
        keeps_words(text, list, left, right),
        level != Granularity::Line,
        found.len() == list.len() - 1,
        forall|i: int|
            0 <= i < found.len() ==> made_of(
                #[trigger] found[i],
                tokens(text, left_gap(list[i], list[i + 1]), level),
                tokens(text, right_gap(list[i], list[i + 1]), level),
            ),
        0 <= k < list.len(),
    ensures
        ({
            let all = interleaved(list, found, k);
            &&& all.len() > 0
            &&& forall|i: int|
                0 <= i < all.len() ==> holds_whole_words(text, left, (#[trigger] all[i]).left)
                    && holds_whole_words(text, right, all[i].right)
            &&& forall|i: int|
                0 < i < all.len() && (k < list.len() - 1 || i < all.len() - 1) ==> (
                #[trigger] all[i]).left.start < all[i].left.end && all[i].right.start
                    < all[i].right.end
        }),
    decreases k,
{
    let all = interleaved(list, found, k);
    if k == 0 {
        assert(all[0] == list[0]);
    } else {
        lemma_interleaved_words(text, list, found, left, right, level, k - 1);
        let before = interleaved(list, found, k - 1);
        let gap = found[k - 1];
        let (a, b) = (list[k - 1], list[k]);
        let (l, r) = (left_gap(a, b), right_gap(a, b));
        assert(made_of(gap, tokens(text, l, level), tokens(text, r, level)));
        assert(a.left.end <= b.left.start && a.right.end <= b.right.start);
        assert forall|i: int| 0 <= i < all.len() implies {
            &&& holds_whole_words(text, left, (#[trigger] all[i]).left)
            &&& holds_whole_words(text, right, all[i].right)
            &&& 0 < i && (k < list.len() - 1 || i < all.len() - 1) ==> all[i].left.start
                < all[i].left.end && all[i].right.start < all[i].right.end
        } by {
            if i < before.len() {
                assert(all[i] == before[i]);
            } else if i < before.len() + gap.len() {
                let m = gap[i - before.len()];
                assert(all[i] == m);
                lemma_token_words(text, l, left, level, m.left);
                lemma_token_words(text, r, right, level, m.right);
            } else {
                assert(all[i] == list[k]);
            }
        }
    }
}

/// Refines matches by comparing what lies in each gap at a finer level.
fn refine_matches(
    text: &Rope,
    pairs: &Vec<(Range<usize>, Range<usize>)>,
    level: Granularity,
    Ghost(left): Ghost<Span>,
    Ghost(right): Ghost<Span>,
) -> (all: Vec<(Range<usize>, Range<usize>)>)
    requires
        pairs@.len() > 0,
        inside(left, rope_chars(*text)),
        inside(right, rope_chars(*text)),
        fit(rope_chars(*text), left, right, level),
        is_chain(all_matched(pairs@), left, right),
    ensures
        all_matched(all@) == refined(rope_chars(*text), all_matched(pairs@), level),
        is_chain(all_matched(all@), left, right),
        gaps_promised(rope_chars(*text), all_matched(pairs@), level),
        forall|j: int, k: int|
            0 <= j && k == j + 1 && k < pairs@.len() ==> same_text(
                rope_chars(*text),
                #[trigger] gap_matches(
                    rope_chars(*text),
                    all_matched(pairs@)[j],
                    all_matched(pairs@)[k],
                    level,
                ),
            ),
        same_text(rope_chars(*text), all_matched(pairs@)) ==> same_text(
            rope_chars(*text),
            all_matched(all@),
        ),
        level != Granularity::Line && keeps_words(
            rope_chars(*text),
            all_matched(pairs@),
            left,
            right,
        ) ==> keeps_words(rope_chars(*text), all_matched(all@), left, right),
{
    let ghost chars = rope_chars(*text);
    let ghost list = all_matched(pairs@);
    let mut found: Vec<Vec<(Range<usize>, Range<usize>)>> = Vec::new();
    let mut i: usize = 1;
    while i < pairs.len()
        invariant
            1 <= i <= pairs@.len(),
            chars == rope_chars(*text),
            list == all_matched(pairs@),
            inside(left, chars),
            inside(right, chars),
            fit(chars, left, right, level),
            is_chain(list, left, right),
            found@.len() == i - 1,
            forall|j: int|
                0 <= j < i - 1 ==> {
                    &&& all_matched((#[trigger] found@[j])@) == gap_matches(
                        chars,
                        list[j],
                        list[j + 1],
                        level,
                    )
                    &&& is_chain(
                        all_matched(found@[j]@),
                        left_gap(list[j], list[j + 1]),
                        right_gap(list[j], list[j + 1]),
                    )
                    &&& same_text(chars, all_matched(found@[j]@))
                    &&& made_of(
                        all_matched(found@[j]@),
                        tokens(chars, left_gap(list[j], list[j + 1]), level),
                        tokens(chars, right_gap(list[j], list[j + 1]), level),
                    )
                    &&& promised(
                        chars,
                        left_gap(list[j], list[j + 1]),
                        right_gap(list[j], list[j + 1]),
                        level,
                    )
                },
        decreases pairs@.len() - i,
    {
        let prev = &pairs[i - 1];
        let next = &pairs[i];
        assert(list[i - 1] == matched(*prev) && list[i as int] == matched(*next));
        let gap: Vec<(Range<usize>, Range<usize>)> = if prev.0.end < next.0.start && prev.1.end
            < next.1.start {
            proof {
                let a = left_gap(list[i - 1], list[i as int]);
                let b = right_gap(list[i - 1], list[i as int]);
                lemma_fewer_tokens(chars, a, left, level);
                lemma_fewer_tokens(chars, b, right, level);
            }
            single_level_diff(
                text,
                prev.0.end..next.0.start,
                prev.1.end..next.1.start,
                level,
            )
        } else {
            let none: Vec<(Range<usize>, Range<usize>)> = Vec::new();
            assert(all_matched(none@) =~= Seq::<Matched>::empty());
            assert(list[i - 1].left.end <= list[i as int].left.start);
            assert(list[i - 1].right.end <= list[i as int].right.start);
            none
        };
        found.push(gap);
        i += 1;
    }
    proof {
        let gaps = all_gaps_matched(found@);
        assert(gaps =~= all_gap_matches(chars, list, level));
        assert forall|j: int| 0 <= j < gaps.len() implies is_chain(
            #[trigger] gaps[j],
            left_gap(list[j], list[j + 1]),
            right_gap(list[j], list[j + 1]),
        ) && same_text(chars, gaps[j]) && made_of(
            gaps[j],
            tokens(chars, left_gap(list[j], list[j + 1]), level),
            tokens(chars, right_gap(list[j], list[j + 1]), level),
        ) by {
            assert(gaps[j] == all_matched(found@[j]@));
        }
        assert forall|j: int, k: int| 0 <= j && k == j + 1 && k < list.len() implies promised(
            chars,
            #[trigger] left_gap(list[j], list[k]),
            right_gap(list[j], list[k]),
            level,
        ) by {
            assert(gaps[j] == all_matched(found@[j]@));
        }
        assert forall|j: int, k: int| 0 <= j && k == j + 1 && k < list.len() implies same_text(
            chars,
            #[trigger] gap_matches(chars, list[j], list[k], level),
        ) by {
            assert(gaps[j] == gap_matches(chars, list[j], list[j + 1], level));
        }
        lemma_interleaved(chars, list, gaps, left, right, list.len() - 1);
        if level != Granularity::Line && keeps_words(chars, list, left, right) {
            lemma_interleaved_words(chars, list, gaps, left, right, level, list.len() - 1);
        }
        let last = list[list.len() - 1];
        assert(last.left.end <= left.end && last.right.end <= right.end);
    }
    interleave(pairs, &found)
}

// ── What does not match ──────────────────────────────────────────────────────

/// A list with one more span, unless that is empty.
pub open spec fn with_gap(list: Seq<Span>, gap: Span) -> Seq<Span> {
    if gap.start < gap.end {
        list.push(gap)
    } else {
        list
    }
}

/// What the first `k + 1` matches leave uncovered on the left.
pub open spec fn left_gaps(list: Seq<Matched>, k: int) -> Seq<Span>
    decreases k,
{
    if k <= 0 {
        Seq::empty()
    } else {
        with_gap(left_gaps(list, k - 1), left_gap(list[k - 1], list[k]))
    }
}

/// What the first `k + 1` matches leave uncovered on the right.
pub open spec fn right_gaps(list: Seq<Matched>, k: int) -> Seq<Span>
    decreases k,
{
    if k <= 0 {
        Seq::empty()
    } else {
        with_gap(right_gaps(list, k - 1), right_gap(list[k - 1], list[k]))
    }
}

/// Returns the ranges that lie between matches, on the left and on the right.
pub fn unmatched_ranges(pairs: &Vec<(Range<usize>, Range<usize>)>) -> (ranges: (
    Vec<Range<usize>>,
    Vec<Range<usize>>,
))
    ensures
        spans(ranges.0@) == left_gaps(all_matched(pairs@), pairs@.len() - 1),
        spans(ranges.1@) == right_gaps(all_matched(pairs@), pairs@.len() - 1),
{
    let ghost list = all_matched(pairs@);
    let mut removed: Vec<Range<usize>> = Vec::new();
    let mut added: Vec<Range<usize>> = Vec::new();
    assert(spans(removed@) =~= Seq::<Span>::empty());
    assert(spans(added@) =~= Seq::<Span>::empty());
    let mut k: usize = 1;
    while k < pairs.len()
        invariant
            1 <= k,
            k <= pairs@.len() || k == 1,
            list == all_matched(pairs@),
            spans(removed@) == left_gaps(list, k - 1),
            spans(added@) == right_gaps(list, k - 1),
        decreases pairs@.len() - k,
    {
        let prev = &pairs[k - 1];
        let next = &pairs[k];
        assert(list[k - 1] == matched(*prev) && list[k as int] == matched(*next));
        if prev.0.end < next.0.start {
            proof {
                lemma_spans_push(removed@, prev.0.end..next.0.start);
            }
            removed.push(prev.0.end..next.0.start);
        }
        if prev.1.end < next.1.start {
            proof {
                lemma_spans_push(added@, prev.1.end..next.1.start);
            }
            added.push(prev.1.end..next.1.start);
        }
        k += 1;
    }
    (removed, added)
}

/// The text between `from` and `to` with some spans cut out.
pub open spec fn without(text: Seq<char>, from: int, to: int, cuts: Seq<Span>) -> Seq<char>
    decreases cuts.len(),
{
    if cuts.len() == 0 {
        text.subrange(from, to)
    } else {
        without(text, from, cuts.last().start, cuts.drop_last()) + text.subrange(
            cuts.last().end,
            to,
        )
    }
}

/// A text without its cuts grows by what follows it.
proof fn lemma_without_grows(text: Seq<char>, from: int, to: int, cuts: Seq<Span>, more: int)
    requires
        0 <= from <= to <= more <= text.len(),
        ordered_within(cuts, Span { start: from, end: to }),
    ensures
        without(text, from, to, cuts) + text.subrange(to, more) == without(text, from, more, cuts),
{
    if cuts.len() == 0 {
        assert(text.subrange(from, to) + text.subrange(to, more) =~= text.subrange(from, more));
    } else {
        let end = cuts.last().end;
        assert(text.subrange(end, to) + text.subrange(to, more) =~= text.subrange(end, more));
        let head = without(text, from, cuts.last().start, cuts.drop_last());
        assert((head + text.subrange(end, to)) + text.subrange(to, more) =~= head + text.subrange(
            end,
            more,
        ));
    }
}

/// The text of the first `k + 1` matches, read on the left.
spec fn matched_text(text: Seq<char>, list: Seq<Matched>, k: int) -> Seq<char>
    decreases k + 1,
{
    if k < 0 {
        Seq::empty()
    } else {
        matched_text(text, list, k - 1) + span_text(text, list[k].left)
    }
}

/// One more gap and one more match, on one side.
proof fn lemma_next_gap(text: Seq<char>, from: int, cuts: Seq<Span>, gap: Span, next: Span)
    requires
        0 <= from <= gap.start <= gap.end == next.start <= next.end <= text.len(),
        ordered_within(cuts, Span { start: from, end: gap.start }),
    ensures
        ordered_within(with_gap(cuts, gap), Span { start: from, end: next.end }),
        without(text, from, next.end, with_gap(cuts, gap)) == without(text, from, gap.start, cuts)
            + span_text(text, next),
{
    if gap.start < gap.end {
        assert(with_gap(cuts, gap).drop_last() =~= cuts);
    } else {
        lemma_without_grows(text, from, gap.start, cuts, next.end);
    }
}

/// What a chain leaves uncovered is in order, and what it covers is the same text
/// on both sides.
proof fn lemma_gaps(text: Seq<char>, list: Seq<Matched>, left: Span, right: Span, k: int)
    requires
        inside(left, text),
        inside(right, text),
        is_chain(list, left, right),
        same_text(text, list),
        0 <= k < list.len(),
        list[0].left.start == left.start,
        list[0].right.start == right.start,
    ensures
        ordered_within(
            left_gaps(list, k),
            Span { start: left.start, end: list[k].left.end },
        ),
        ordered_within(
            right_gaps(list, k),
            Span { start: right.start, end: list[k].right.end },
        ),
        without(text, left.start, list[k].left.end, left_gaps(list, k)) == matched_text(
            text,
            list,
            k,
        ),
        without(text, right.start, list[k].right.end, right_gaps(list, k)) == matched_text(
            text,
            list,
            k,
        ),
    decreases k,
{
    assert(span_text(text, list[k].left) == span_text(text, list[k].right));
    if k == 0 {
        assert(matched_text(text, list, -1) =~= Seq::<char>::empty());
        assert(matched_text(text, list, 0) =~= span_text(text, list[0].left));
    } else {
        lemma_gaps(text, list, left, right, k - 1);
        let a = list[k - 1];
        let b = list[k];
        assert(a.left.end <= b.left.start && a.right.end <= b.right.start);
        assert(a.left.start <= a.left.end && a.right.start <= a.right.end);
        lemma_next_gap(text, left.start, left_gaps(list, k - 1), left_gap(a, b), b.left);
        lemma_next_gap(text, right.start, right_gaps(list, k - 1), right_gap(a, b), b.right);
    }
}

/// What lies between matches that cut no word in two does not either, and no two such
/// gaps touch.
proof fn lemma_gap_words(text: Seq<char>, list: Seq<Matched>, left: Span, right: Span, k: int)
    requires
        is_chain(list, left, right),
        keeps_words(text, list, left, right),
        0 <= k < list.len(),
    ensures
        apart(left_gaps(list, k)),
        apart(right_gaps(list, k)),
        forall|i: int|
            0 <= i < left_gaps(list, k).len() ==> (#[trigger] left_gaps(list, k)[i]).end
                <= list[k].left.start && holds_whole_words(text, left, left_gaps(list, k)[i]),
        forall|i: int|
            0 <= i < right_gaps(list, k).len() ==> (#[trigger] right_gaps(list, k)[i]).end
                <= list[k].right.start && holds_whole_words(text, right, right_gaps(list, k)[i]),
    decreases k,
{
    if k > 0 {
        lemma_gap_words(text, list, left, right, k - 1);
        let (a, b) = (list[k - 1], list[k]);
        assert(a.left.end <= b.left.start && a.right.end <= b.right.start);
        assert(a.left.start <= a.left.end && a.right.start <= a.right.end);
        if k - 1 > 0 {
            assert(a.left.start < a.left.end && a.right.start < a.right.end);
        }
    }
}

/// Whether each word of a span lies wholly in one of the ranges, or meets none.
pub open spec fn meet_whole_words(text: Seq<char>, within: Span, ranges: Seq<Span>) -> bool {
    forall|i: int, j: int|
        0 <= i < ranges.len() && 0 <= j < runs(
            text,
            within.start,
            within.end,
            CharClass::Word,
        ).len() ==> {
            let word = #[trigger] runs(text, within.start, within.end, CharClass::Word)[j];
            let range = #[trigger] ranges[i];
            ||| range.end <= word.start
            ||| word.end <= range.start
            ||| range.start <= word.start && word.end <= range.end
        }
}

/// Ranges that cut no word in two meet whole words alone.
proof fn lemma_meet_whole_words(text: Seq<char>, within: Span, ranges: Seq<Span>)
    requires
        inside(within, text),
        forall|i: int|
            0 <= i < ranges.len() ==> holds_whole_words(text, within, #[trigger] ranges[i]),
    ensures
        meet_whole_words(text, within, ranges),
{
    let words = runs(text, within.start, within.end, CharClass::Word);
    lemma_runs(text, within.start, within.end, CharClass::Word);
    assert forall|i: int, j: int| 0 <= i < ranges.len() && 0 <= j < words.len() implies {
        ||| ranges[i].end <= words[j].start
        ||| words[j].end <= ranges[i].start
        ||| ranges[i].start <= words[j].start && words[j].end <= ranges[i].end
    } by {
        let word = words[j];
        let range = ranges[i];
        assert(within.start <= word.start < word.end <= within.end);
        assert(holds_whole_words(text, within, range));
        if word.start < range.start < word.end {
            assert(CharClass::Word.admits(text[range.start - 1]));
            assert(CharClass::Word.admits(text[range.start]));
        }
        if word.start < range.end < word.end {
            assert(CharClass::Word.admits(text[range.end - 1]));
            assert(CharClass::Word.admits(text[range.end]));
        }
    }
}

// ── All levels ───────────────────────────────────────────────────────────────

/// Matches between two spans, framed by an empty match where both start and one
/// where both end.
pub open spec fn framed(list: Seq<Matched>, left: Span, right: Span) -> Seq<Matched> {
    seq![
        Matched {
            left: Span { start: left.start, end: left.start },
            right: Span { start: right.start, end: right.start },
        },
    ] + list + seq![
        Matched {
            left: Span { start: left.end, end: left.end },
            right: Span { start: right.end, end: right.end },
        },
    ]
}

/// The matches between two spans: of lines, then of words between those, then of
/// other characters between those.
pub open spec fn all_matches(text: Seq<char>, left: Span, right: Span) -> Seq<Matched> {
    let by_line = framed(level_matches(text, left, right, Granularity::Line), left, right);
    let by_word = refined(text, by_line, Granularity::Word);
    refined(text, by_word, Granularity::NonWord)
}

/// Whether the differ's hunks are as it promises in each comparison that is made of two
/// spans: of their lines, of the words between matching lines, and of the other characters
/// between matching words.
pub open spec fn all_promised(text: Seq<char>, left: Span, right: Span) -> bool {
    let by_line = framed(level_matches(text, left, right, Granularity::Line), left, right);
    let by_word = refined(text, by_line, Granularity::Word);
    &&& promised(text, left, right, Granularity::Line)
    &&& gaps_promised(text, by_line, Granularity::Word)
    &&& gaps_promised(text, by_word, Granularity::NonWord)
}

/// Refining keeps the first and the last match.
proof fn lemma_refined_ends(text: Seq<char>, list: Seq<Matched>, level: Granularity)
    requires
        list.len() > 0,
    ensures
        refined(text, list, level).len() > 0,
        refined(text, list, level)[0] == list[0],
        refined(text, list, level).last() == list.last(),
{
    lemma_interleaved_ends(list, all_gap_matches(text, list, level), list.len() - 1);
}

/// Inserting matches into gaps keeps the first and the last match.
proof fn lemma_interleaved_ends(list: Seq<Matched>, found: Seq<Seq<Matched>>, k: int)
    requires
        0 <= k,
    ensures
        interleaved(list, found, k).len() > 0,
        interleaved(list, found, k)[0] == list[0],
        interleaved(list, found, k).last() == list[k],
    decreases k,
{
    if k > 0 {
        lemma_interleaved_ends(list, found, k - 1);
    }
}

/// Equal text divides into equal lines.
proof fn lemma_equal_lines(text: Seq<char>, a: int, b: int, n: int)
    requires
        0 <= n,
        0 <= a <= a + n <= text.len(),
        0 <= b <= b + n <= text.len(),
        forall|i: int| 0 <= i < n ==> #[trigger] text[a + i] == text[b + i],
    ensures
        line_spans(text, a, a + n).len() == line_spans(text, b, b + n).len(),
        forall|i: int|
            0 <= i < line_spans(text, a, a + n).len() ==> {
                &&& (#[trigger] line_spans(text, a, a + n)[i]).start - a == line_spans(
                    text,
                    b,
                    b + n,
                )[i].start - b
                &&& line_spans(text, a, a + n)[i].end - a == line_spans(text, b, b + n)[i].end - b
            },
    decreases n,
{
    if n > 0 {
        lemma_equal_lines(text, a, b, n - 1);
        lemma_line_spans(text, a, a + n - 1);
        lemma_line_spans(text, b, b + n - 1);
        assert(a + n - 1 == a + (n - 1) && b + n - 1 == b + (n - 1));
        if n > 1 {
            assert(text[a + (n - 2)] == text[b + (n - 2)]);
        }
    }
}

/// Whether matches follow each other without any gap.
spec fn is_tiling(list: Seq<Matched>) -> bool {
    forall|i: int|
        0 < i < list.len() ==> {
            &&& (#[trigger] list[i]).left.start == list[i - 1].left.end
            &&& list[i].right.start == list[i - 1].right.end
        }
}

/// Where there are no gaps, there is nothing to refine.
proof fn lemma_tiling_refined(text: Seq<char>, list: Seq<Matched>, level: Granularity, k: int)
    requires
        is_tiling(list),
        0 <= k < list.len(),
    ensures
        interleaved(list, all_gap_matches(text, list, level), k) == list.take(k + 1),
    decreases k,
{
    let found = all_gap_matches(text, list, level);
    if k == 0 {
        assert(seq![list[0]] =~= list.take(1));
    } else {
        lemma_tiling_refined(text, list, level, k - 1);
        assert(list[k].left.start == list[k - 1].left.end);
        assert(found[k - 1] =~= Seq::<Matched>::empty());
        assert((list.take(k) + found[k - 1]).push(list[k]) =~= list.take(k + 1));
    }
}

/// Where there are no gaps, nothing is left uncovered.
proof fn lemma_tiling_gaps(list: Seq<Matched>, k: int)
    requires
        is_tiling(list),
        k < list.len(),
    ensures
        left_gaps(list, k).len() == 0,
        right_gaps(list, k).len() == 0,
    decreases k,
{
    if k > 0 {
        lemma_tiling_gaps(list, k - 1);
        assert(list[k].left.start == list[k - 1].left.end);
    }
}

/// Equal texts match line by line without any gap.
proof fn lemma_equal_text(text: Seq<char>, left: Span, right: Span)
    requires
        inside(left, text),
        inside(right, text),
        span_text(text, left) == span_text(text, right),
    ensures
        span_texts(text, tokens(text, left, Granularity::Line)) == span_texts(
            text,
            tokens(text, right, Granularity::Line),
        ),
        is_tiling(
            framed(
                zipped(
                    tokens(text, left, Granularity::Line),
                    tokens(text, right, Granularity::Line),
                    0,
                    0,
                    tokens(text, left, Granularity::Line).len() as int,
                ),
                left,
                right,
            ),
        ),
{
    let n = left.end - left.start;
    assert(span_text(text, left).len() == n);
    assert(span_text(text, right).len() == right.end - right.start);
    assert forall|i: int| 0 <= i < n implies #[trigger] text[left.start + i] == text[right.start
        + i] by {
        assert(span_text(text, left)[i] == text[left.start + i]);
        assert(span_text(text, right)[i] == text[right.start + i]);
    }
    lemma_equal_lines(text, left.start, right.start, n);
    lemma_line_spans(text, left.start, left.end);
    lemma_line_spans(text, right.start, right.end);
    let ls = tokens(text, left, Granularity::Line);
    let rs = tokens(text, right, Granularity::Line);
    assert forall|i: int| 0 <= i < ls.len() implies span_text(text, #[trigger] ls[i]) == span_text(
        text,
        rs[i],
    ) by {
        let a = span_text(text, ls[i]);
        let b = span_text(text, rs[i]);
        assert forall|t: int| 0 <= t < a.len() implies a[t] == b[t] by {
            let o = ls[i].start - left.start + t;
            assert(text[left.start + o] == text[right.start + o]);
        }
        assert(a =~= b);
    }
    assert(span_texts(text, ls) =~= span_texts(text, rs));
    let all = framed(zipped(ls, rs, 0, 0, ls.len() as int), left, right);
    assert forall|i: int| 0 < i < all.len() implies {
        &&& (#[trigger] all[i]).left.start == all[i - 1].left.end
        &&& all[i].right.start == all[i - 1].right.end
    } by {
        if ls.len() > 0 {
            if i == 1 {
                assert(all[1] == (Matched { left: ls[0], right: rs[0] }));
            } else if i <= ls.len() {
                assert(all[i] == (Matched { left: ls[i - 1], right: rs[i - 1] }));
                assert(all[i - 1] == (Matched { left: ls[i - 2], right: rs[i - 2] }));
            } else {
                assert(all[i - 1] == (Matched { left: ls[i - 2], right: rs[i - 2] }));
            }
        }
    }
}

/// Framing a chain yields a chain.
proof fn lemma_framed(text: Seq<char>, list: Seq<Matched>, left: Span, right: Span)
    requires
        inside(left, text),
        inside(right, text),
        is_chain(list, left, right),
        same_text(text, list),
    ensures
        is_chain(framed(list, left, right), left, right),
        same_text(text, framed(list, left, right)),
{
    let all = framed(list, left, right);
    assert forall|i: int|
        #![trigger all[i]]
        0 <= i < all.len() implies {
        &&& left.start <= all[i].left.start <= all[i].left.end <= left.end
        &&& right.start <= all[i].right.start <= all[i].right.end <= right.end
        &&& span_text(text, all[i].left) == span_text(text, all[i].right)
    } by {
        if 0 < i <= list.len() {
            assert(all[i] == list[i - 1]);
        } else {
            assert(span_text(text, all[i].left) =~= span_text(text, all[i].right));
        }
    }
    assert forall|i: int, j: int|
        #![trigger all[i], all[j]]
        0 <= i < j < all.len() implies {
        &&& all[i].left.end <= all[j].left.start
        &&& all[i].right.end <= all[j].right.start
    } by {
        if 0 < i <= list.len() {
            assert(all[i] == list[i - 1]);
        }
        if 0 < j <= list.len() {
            assert(all[j] == list[j - 1]);
        }
    }
}

/// Framed lines cut no word in two.
proof fn lemma_framed_words(text: Seq<char>, list: Seq<Matched>, left: Span, right: Span)
    requires
        inside(left, text),
        inside(right, text),
        made_of(
            list,
            tokens(text, left, Granularity::Line),
            tokens(text, right, Granularity::Line),
        ),
    ensures
        keeps_words(text, framed(list, left, right), left, right),
{
    let all = framed(list, left, right);
    assert forall|i: int| 0 <= i < all.len() implies {
        &&& holds_whole_words(text, left, (#[trigger] all[i]).left)
        &&& holds_whole_words(text, right, all[i].right)
        &&& 0 < i < all.len() - 1 ==> all[i].left.start < all[i].left.end && all[i].right.start
            < all[i].right.end
    } by {
        if 0 < i <= list.len() {
            assert(all[i] == list[i - 1]);
            lemma_line_words(text, left, list[i - 1].left);
            lemma_line_words(text, right, list[i - 1].right);
        }
    }
}

/// The span of a pair of positions.
pub open spec fn pair_span(range: (usize, usize)) -> Span {
    Span { start: range.0 as int, end: range.1 as int }
}

/// Compares two ranges of a document, level by level.
///
/// First by lines; then what lies between matching lines by words; then what lies
/// between matching words by other characters. Returns the removed ranges, which
/// are what no match covers on the left, and the added ranges, which are what no
/// match covers on the right.
///
/// The ranges are in order, non-empty, apart from each other and inside the ranges
/// compared. A word lies wholly in one of them, or meets none. Outside of them the two
/// sides hold the same text; where the two sides are equal, there are no ranges at all.
pub fn refine_diff(text: &Rope, left: (usize, usize), right: (usize, usize)) -> (ranges: (
    Vec<Range<usize>>,
    Vec<Range<usize>>,
))
    requires
        inside(pair_span(left), rope_chars(*text)),
        inside(pair_span(right), rope_chars(*text)),
        comparable(rope_chars(*text), pair_span(left), pair_span(right)),
    ensures
        ({
            let matches = all_matches(rope_chars(*text), pair_span(left), pair_span(right));
            &&& spans(ranges.0@) == left_gaps(matches, matches.len() - 1)
            &&& spans(ranges.1@) == right_gaps(matches, matches.len() - 1)
        }),
        all_promised(rope_chars(*text), pair_span(left), pair_span(right)),
        ordered_within(spans(ranges.0@), pair_span(left)),
        ordered_within(spans(ranges.1@), pair_span(right)),
        apart(spans(ranges.0@)),
        apart(spans(ranges.1@)),
        meet_whole_words(rope_chars(*text), pair_span(left), spans(ranges.0@)),
        meet_whole_words(rope_chars(*text), pair_span(right), spans(ranges.1@)),
        without(rope_chars(*text), left.0 as int, left.1 as int, spans(ranges.0@)) == without(
            rope_chars(*text),
            right.0 as int,
            right.1 as int,
            spans(ranges.1@),
        ),
        span_text(rope_chars(*text), pair_span(left)) == span_text(
            rope_chars(*text),
            pair_span(right),
        ) ==> ranges.0@.len() == 0 && ranges.1@.len() == 0,
{
    let ghost chars = rope_chars(*text);
    let ghost l = pair_span(left);
    let ghost r = pair_span(right);
    let lines = single_level_diff(text, left.0..left.1, right.0..right.1, Granularity::Line);
    let mut pairs: Vec<(Range<usize>, Range<usize>)> = Vec::new();
    pairs.push((left.0..left.0, right.0..right.0));
    let mut i: usize = 0;
    while i < lines.len()
        invariant
            i <= lines@.len(),
            pairs@.len() == i + 1,
            matched(pairs@[0]) == (Matched {
                left: Span { start: l.start, end: l.start },
                right: Span { start: r.start, end: r.start },
            }),
            forall|j: int| 0 <= j < i ==> matched(#[trigger] pairs@[j + 1]) == matched(lines@[j]),
        decreases lines@.len() - i,
    {
        let pair = &lines[i];
        pairs.push((pair.0.start..pair.0.end, pair.1.start..pair.1.end));
        i += 1;
    }
    pairs.push((left.1..left.1, right.1..right.1));
    proof {
        let list = all_matched(lines@);
        assert forall|j: int| 0 <= j < pairs@.len() implies all_matched(pairs@)[j] == framed(
            list,
            l,
            r,
        )[j] by {
            if 0 < j <= list.len() {
                assert(matched(pairs@[(j - 1) + 1]) == matched(lines@[j - 1]));
            }
        }
        assert(all_matched(pairs@) =~= framed(list, l, r));
        lemma_framed(chars, list, l, r);
        lemma_framed_words(chars, list, l, r);
    }
    let words = refine_matches(text, &pairs, Granularity::Word, Ghost(l), Ghost(r));
    proof {
        lemma_refined_ends(chars, all_matched(pairs@), Granularity::Word);
        assert(all_matched(words@).len() == words@.len());
    }
    let all = refine_matches(text, &words, Granularity::NonWord, Ghost(l), Ghost(r));
    proof {
        lemma_refined_ends(chars, all_matched(words@), Granularity::NonWord);
        let matches = all_matched(all@);
        assert(matches.len() == all@.len());
        lemma_gaps(chars, matches, l, r, matches.len() - 1);
        lemma_gap_words(chars, matches, l, r, matches.len() - 1);
        lemma_meet_whole_words(chars, l, left_gaps(matches, matches.len() - 1));
        lemma_meet_whole_words(chars, r, right_gaps(matches, matches.len() - 1));
        if span_text(chars, l) == span_text(chars, r) {
            lemma_equal_text(chars, l, r);
            let list = all_matched(pairs@);
            lemma_tiling_refined(chars, list, Granularity::Word, list.len() - 1);
            assert(list.take(list.len() as int) =~= list);
            lemma_tiling_refined(chars, list, Granularity::NonWord, list.len() - 1);
            lemma_tiling_gaps(list, list.len() - 1);
        }
    }
    unmatched_ranges(&all)
}

} // verus!
