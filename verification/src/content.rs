//! The text of a conflict's sections.

use crate::region::{ConflictRegion, RegionView, Section, SectionKind, SectionView};
use crate::text::{
    lemma_lines_append, lemma_single_line, lines, rope_chars, slice, slice_lines, slice_texts,
    slice_to_string,
};
use ropey::Rope;
use vstd::prelude::*;

verus! {

// ── Sides and base ───────────────────────────────────────────────────────────

/// Whether section `i` is the first of its kind.
pub open spec fn is_first(region: RegionView, kind: SectionKind, i: int) -> bool {
    &&& 0 <= i < region.sections.len()
    &&& region.sections[i].kind == kind
    &&& forall|j: int| 0 <= j < i ==> (#[trigger] region.sections[j]).kind != kind
}

/// Whether section `i` is the last of its kind.
pub open spec fn is_last(region: RegionView, kind: SectionKind, i: int) -> bool {
    &&& 0 <= i < region.sections.len()
    &&& region.sections[i].kind == kind
    &&& forall|j: int|
        i < j < region.sections.len() ==> (#[trigger] region.sections[j]).kind != kind
}

/// Whether a region has a section of a kind.
pub open spec fn has_kind(region: RegionView, kind: SectionKind) -> bool {
    exists|i: int| 0 <= i < region.sections.len() && (#[trigger] region.sections[i]).kind == kind
}

/// Whether a range is the content of a section.
pub open spec fn is_content(range: (usize, usize), section: SectionView) -> bool {
    range.0 == section.content_start && range.1 == section.content_end
}

/// Finds the first section of a kind.
fn first_of_kind(region: &ConflictRegion, kind: SectionKind) -> (found: Option<usize>)
    ensures
        match found {
            Some(i) => is_first(region@, kind, i as int),
            None => !has_kind(region@, kind),
        },
{
    let mut i: usize = 0;
    while i < region.sections.len()
        invariant
            i <= region.sections@.len(),
            forall|j: int| 0 <= j < i ==> (#[trigger] region@.sections[j]).kind != kind,
        decreases region.sections@.len() - i,
    {
        assert(region@.sections[i as int] == region.sections@[i as int]@);
        if region.sections[i].kind == kind {
            return Some(i);
        }
        i += 1;
    }
    None
}

/// Returns the range of the first `Side` section (the "current" change).
pub fn current_content(region: &ConflictRegion) -> (range: (usize, usize))
    requires
        has_kind(region@, SectionKind::Side),
    ensures
        exists|i: int| #[trigger]
            is_first(region@, SectionKind::Side, i) && is_content(range, region@.sections[i])
                && range.0 == region@.sections[i].content_start && range.1
                == region@.sections[i].content_end,
{
    match first_of_kind(region, SectionKind::Side) {
        Some(i) => {
            let section = &region.sections[i];
            assert(region@.sections[i as int] == section@);
            (section.content_start, section.content_end)
        },
        None => (0, 0),
    }
}

/// Returns the range of the last `Side` section (the "incoming" change).
pub fn incoming_content(region: &ConflictRegion) -> (range: (usize, usize))
    requires
        has_kind(region@, SectionKind::Side),
    ensures
        exists|i: int| #[trigger]
            is_last(region@, SectionKind::Side, i) && is_content(range, region@.sections[i])
                && range.0 == region@.sections[i].content_start && range.1
                == region@.sections[i].content_end,
{
    let mut i: usize = region.sections.len();
    while i > 0
        invariant
            i <= region.sections@.len(),
            forall|j: int|
                i <= j < region.sections@.len() ==> (#[trigger] region@.sections[j]).kind
                    != SectionKind::Side,
        decreases i,
    {
        i -= 1;
        let section = &region.sections[i];
        assert(region@.sections[i as int] == section@);
        if section.kind == SectionKind::Side {
            assert(is_last(region@, SectionKind::Side, i as int));
            return (section.content_start, section.content_end);
        }
    }
    (0, 0)
}

/// Returns the range of the first `Base` section, or `None` if there is none.
pub fn base_content(region: &ConflictRegion) -> (range: Option<(usize, usize)>)
    ensures
        match range {
            Some(range) => exists|i: int| #[trigger]
                is_first(region@, SectionKind::Base, i) && is_content(range, region@.sections[i])
                    && range.0 == region@.sections[i].content_start && range.1
                    == region@.sections[i].content_end,
            None => !has_kind(region@, SectionKind::Base),
        },
{
    match first_of_kind(region, SectionKind::Base) {
        Some(i) => {
            let section = &region.sections[i];
            assert(region@.sections[i as int] == section@);
            Some((section.content_start, section.content_end))
        },
        None => None,
    }
}

/// The first section of a kind is no later than any of that kind, and the last no earlier;
/// there is a first and a last one wherever there is one at all.
pub proof fn law_first_and_last_of_a_kind(region: RegionView, kind: SectionKind, i: int)
    requires
        0 <= i < region.sections.len(),
        region.sections[i].kind == kind,
    ensures
        has_kind(region, kind),
        exists|first: int| #[trigger]
            is_first(region, kind, first) && 0 <= first <= i && region.sections[first].kind == kind,
        exists|last: int| #[trigger]
            is_last(region, kind, last) && i <= last < region.sections.len()
                && region.sections[last].kind == kind,
        forall|first: int| #[trigger]
            is_first(region, kind, first) ==> 0 <= first <= i && region.sections[first].kind == kind,
        forall|last: int| #[trigger]
            is_last(region, kind, last) ==> i <= last < region.sections.len()
                && region.sections[last].kind == kind,
{
    lemma_first_exists(region, kind, i, 0);
    lemma_last_exists(region, kind, i, region.sections.len() as int);
    assert forall|first: int| #[trigger] is_first(region, kind, first) implies 0 <= first <= i
        && region.sections[first].kind == kind by {
        if i < first {
            assert(region.sections[i].kind != kind);
        }
    }
    assert forall|last: int| #[trigger] is_last(region, kind, last) implies i <= last
        < region.sections.len() && region.sections[last].kind == kind by {
        if last < i {
            assert(region.sections[i].kind != kind);
        }
    }
}

/// There is a first section of a kind, looked for from section `from`.
proof fn lemma_first_exists(region: RegionView, kind: SectionKind, i: int, from: int)
    requires
        0 <= from <= i < region.sections.len(),
        region.sections[i].kind == kind,
        forall|j: int| 0 <= j < from ==> (#[trigger] region.sections[j]).kind != kind,
    ensures
        exists|first: int| #[trigger]
            is_first(region, kind, first) && 0 <= first <= i && region.sections[first].kind == kind,
    decreases i - from,
{
    if region.sections[from].kind == kind {
        assert(is_first(region, kind, from));
    } else {
        lemma_first_exists(region, kind, i, from + 1);
    }
}

/// There is a last section of a kind, looked for before section `to`.
proof fn lemma_last_exists(region: RegionView, kind: SectionKind, i: int, to: int)
    requires
        0 <= i < to <= region.sections.len(),
        region.sections[i].kind == kind,
        forall|j: int|
            to <= j < region.sections.len() ==> (#[trigger] region.sections[j]).kind != kind,
    ensures
        exists|last: int| #[trigger]
            is_last(region, kind, last) && i <= last < region.sections.len()
                && region.sections[last].kind == kind,
    decreases to - i,
{
    if region.sections[to - 1].kind == kind {
        assert(is_last(region, kind, to - 1));
    } else {
        lemma_last_exists(region, kind, i, to - 1);
    }
}

// ── Diff sections ────────────────────────────────────────────────────────────

/// Whether the content of a section is a range of a text.
pub open spec fn within(section: SectionView, text: Seq<char>) -> bool {
    0 <= section.content_start <= section.content_end <= text.len()
}

/// The text of a section, as it stands in the document.
pub open spec fn raw_content(section: SectionView, text: Seq<char>) -> Seq<char> {
    text.subrange(section.content_start, section.content_end)
}

/// How many characters of a unified-diff line are not part of the version that
/// keeps the lines marked `kept` and drops those marked `dropped`: all of a
/// dropped line, the mark of a kept or a context line, and none of a line without
/// a mark.
pub open spec fn skipped(line: Seq<char>, kept: char, dropped: char) -> int {
    if line.len() == 0 {
        0
    } else if line[0] == dropped {
        line.len() as int
    } else if line[0] == kept || line[0] == ' ' {
        1
    } else {
        0
    }
}

/// What a unified-diff line contributes to that version.
pub open spec fn resolved_line(line: Seq<char>, kept: char, dropped: char) -> Seq<char> {
    line.skip(skipped(line, kept, dropped))
}

/// What the first `n` lines of a unified diff contribute to that version.
pub open spec fn resolved_lines(
    lines: Seq<Seq<char>>,
    n: int,
    kept: char,
    dropped: char,
) -> Seq<char>
    decreases n,
{
    if n <= 0 {
        Seq::empty()
    } else {
        resolved_lines(lines, n - 1, kept, dropped) + resolved_line(lines[n - 1], kept, dropped)
    }
}

/// The version of a unified diff that keeps the lines marked `kept` and drops
/// those marked `dropped`.
pub open spec fn resolved(diff: Seq<char>, kept: char, dropped: char) -> Seq<char> {
    resolved_lines(lines(diff), lines(diff).len() as int, kept, dropped)
}

/// The side that a unified diff leads to.
pub open spec fn diff_side(diff: Seq<char>) -> Seq<char> {
    resolved(diff, '+', '-')
}

/// The base that a unified diff starts from.
pub open spec fn diff_base(diff: Seq<char>) -> Seq<char> {
    resolved(diff, '-', '+')
}

/// Counts the characters at the start of a unified-diff line that are not part of
/// the version that keeps the lines marked `kept`.
fn count_skipped(line: &String, kept: char, dropped: char) -> (n: usize)
    ensures
        n == skipped(line@, kept, dropped),
{
    let len = line.as_str().unicode_len();
    if len == 0 {
        return 0;
    }
    let first = line.as_str().get_char(0);
    if first == dropped {
        len
    } else if first == kept || first == ' ' {
        1
    } else {
        0
    }
}

/// Resolves a unified diff to the version that keeps the lines marked `kept`.
fn resolve_lines(text: &Rope, section: &Section, kept: char, dropped: char) -> (version: String)
    requires
        within(section@, rope_chars(*text)),
    ensures
        version@ == resolved(raw_content(section@, rope_chars(*text)), kept, dropped),
{
    let parts = slice_lines(slice(text, section.content_start, section.content_end));
    let ghost lines = slice_texts(parts@);
    let mut version = String::new();
    let mut k: usize = 0;
    while k < parts.len()
        invariant
            k <= parts@.len(),
            lines == slice_texts(parts@),
            version@ == resolved_lines(lines, k as int, kept, dropped),
        decreases parts@.len() - k,
    {
        let line = slice_to_string(parts[k]);
        assert(line@ == lines[k as int]);
        let skip = count_skipped(&line, kept, dropped);
        let len = line.as_str().unicode_len();
        version.append(line.as_str().substring_char(skip, len));
        assert(line@.subrange(skip as int, len as int) =~= line@.skip(skip as int));
        k += 1;
    }
    version
}

/// Strips the unified-diff marks from a `Diff` section, producing the side
/// content: `+` and context lines are kept, `-` lines dropped.
pub fn resolve_diff_content(text: &Rope, section: &Section) -> (side: String)
    requires
        within(section@, rope_chars(*text)),
    ensures
        side@ == diff_side(raw_content(section@, rope_chars(*text))),
{
    resolve_lines(text, section, '+', '-')
}

/// Strips the unified-diff marks from a `Diff` section, producing the base
/// content: `-` and context lines are kept, `+` lines dropped.
pub fn resolve_diff_content_base(text: &Rope, section: &Section) -> (base: String)
    requires
        within(section@, rope_chars(*text)),
    ensures
        base@ == diff_base(raw_content(section@, rope_chars(*text))),
{
    resolve_lines(text, section, '-', '+')
}

/// What lines in a row contribute.
proof fn lemma_resolved_concat(
    a: Seq<Seq<char>>,
    b: Seq<Seq<char>>,
    k: int,
    kept: char,
    dropped: char,
)
    requires
        0 <= k <= b.len(),
    ensures
        resolved_lines(a + b, a.len() + k, kept, dropped) == resolved_lines(
            a,
            a.len() as int,
            kept,
            dropped,
        ) + resolved_lines(b, k, kept, dropped),
    decreases k,
{
    if k > 0 {
        lemma_resolved_concat(a, b, k - 1, kept, dropped);
        assert((a + b)[a.len() + k - 1] == b[k - 1]);
    } else {
        lemma_resolved_prefix(a, a + b, a.len() as int, kept, dropped);
    }
    assert(resolved_lines(a + b, a.len() + k, kept, dropped) =~= resolved_lines(
        a,
        a.len() as int,
        kept,
        dropped,
    ) + resolved_lines(b, k, kept, dropped));
}

/// What the first lines contribute depends on them alone.
proof fn lemma_resolved_prefix(
    a: Seq<Seq<char>>,
    b: Seq<Seq<char>>,
    k: int,
    kept: char,
    dropped: char,
)
    requires
        0 <= k,
        forall|i: int| 0 <= i < k ==> #[trigger] a[i] == b[i],
    ensures
        resolved_lines(a, k, kept, dropped) == resolved_lines(b, k, kept, dropped),
    decreases k,
{
    if k > 0 {
        lemma_resolved_prefix(a, b, k - 1, kept, dropped);
        assert(a[k - 1] == b[k - 1]);
    }
}

/// A diff is resolved line by line: whole lines followed by more lines resolve to what
/// the first resolve to, followed by what the others do.
pub proof fn law_diff_is_resolved_line_by_line(first: Seq<char>, second: Seq<char>)
    requires
        first.len() > 0,
        first.last() == '\n',
    ensures
        diff_side(first + second) == diff_side(first) + diff_side(second),
        diff_base(first + second) == diff_base(first) + diff_base(second),
{
    lemma_resolved_append(first, second, '+', '-');
    lemma_resolved_append(first, second, '-', '+');
}

/// Whole lines followed by more lines resolve one after the other.
proof fn lemma_resolved_append(first: Seq<char>, second: Seq<char>, kept: char, dropped: char)
    requires
        first.len() > 0,
        first.last() == '\n',
    ensures
        resolved(first + second, kept, dropped) == resolved(first, kept, dropped) + resolved(
            second,
            kept,
            dropped,
        ),
{
    let all = lines(first);
    let n = all.len() - 1;
    lemma_lines_append(first, second);
    lemma_resolved_concat(all.drop_last(), lines(second), lines(second).len() as int, kept, dropped);
    lemma_resolved_prefix(all.drop_last(), all, n, kept, dropped);
    assert(resolved_line(all[n], kept, dropped) =~= Seq::<char>::empty());
    assert(resolved_lines(all, n + 1, kept, dropped) =~= resolved_lines(all, n, kept, dropped));
}

/// A line of a diff that starts with `+` is part of the side alone, one that starts with
/// `-` of the base alone, and one that starts with a space of both, each without that
/// mark; any other line is part of both as it stands.
pub proof fn law_diff_line(line: Seq<char>)
    requires
        line.len() > 0,
        forall|i: int| 0 <= i < line.len() - 1 ==> #[trigger] line[i] != '\n',
    ensures
        line[0] == '+' ==> diff_side(line) == line.skip(1) && diff_base(line).len() == 0,
        line[0] == '-' ==> diff_base(line) == line.skip(1) && diff_side(line).len() == 0,
        line[0] == ' ' ==> diff_side(line) == line.skip(1) && diff_base(line) == line.skip(1),
        line[0] != '+' && line[0] != '-' && line[0] != ' ' ==> diff_side(line) == line && diff_base(
            line,
        ) == line,
{
    lemma_resolved_single(line, '+', '-');
    lemma_resolved_single(line, '-', '+');
    assert(line.skip(0) =~= line);
}

/// What a single line contributes.
proof fn lemma_resolved_single(line: Seq<char>, kept: char, dropped: char)
    requires
        line.len() > 0,
        forall|i: int| 0 <= i < line.len() - 1 ==> #[trigger] line[i] != '\n',
    ensures
        resolved(line, kept, dropped) == resolved_line(line, kept, dropped),
{
    lemma_single_line(line);
    let all = lines(line);
    assert(all[0] == line);
    assert(resolved_lines(all, 0, kept, dropped).len() == 0);
    assert(resolved_lines(all, 1, kept, dropped) =~= resolved_line(line, kept, dropped));
    if all.len() == 2 {
        assert(resolved_line(all[1], kept, dropped) =~= Seq::<char>::empty());
        assert(resolved_lines(all, 2, kept, dropped) =~= resolved_lines(all, 1, kept, dropped));
    }
}

/// A diff without changed lines resolves to the same text both ways.
pub proof fn law_diff_without_changes(diff: Seq<char>)
    requires
        forall|k: int|
            0 <= k < lines(diff).len() && (#[trigger] lines(diff)[k]).len() > 0 ==> lines(
                diff,
            )[k][0] != '+' && lines(diff)[k][0] != '-',
    ensures
        diff_side(diff) == diff_base(diff),
{
    lemma_unchanged_lines(lines(diff), lines(diff).len() as int);
}

/// Lines without marks of change resolve to the same text both ways.
proof fn lemma_unchanged_lines(lines: Seq<Seq<char>>, n: int)
    requires
        n <= lines.len(),
        forall|k: int|
            0 <= k < lines.len() && (#[trigger] lines[k]).len() > 0 ==> lines[k][0] != '+'
                && lines[k][0] != '-',
    ensures
        resolved_lines(lines, n, '+', '-') == resolved_lines(lines, n, '-', '+'),
    decreases n,
{
    if n > 0 {
        lemma_unchanged_lines(lines, n - 1);
        assert(skipped(lines[n - 1], '+', '-') == skipped(lines[n - 1], '-', '+'));
    }
}

// ── All sides ────────────────────────────────────────────────────────────────

/// What a section contributes when all sides are accepted: a base nothing, a
/// diff its side, a side its text.
pub open spec fn accepted(section: SectionView, text: Seq<char>) -> Seq<char> {
    match section.kind {
        SectionKind::Base => Seq::empty(),
        SectionKind::Diff => diff_side(raw_content(section, text)),
        SectionKind::Side => raw_content(section, text),
    }
}

/// What the first `n` sections contribute when all sides are accepted.
pub open spec fn all_accepted(sections: Seq<SectionView>, n: int, text: Seq<char>) -> Seq<char>
    decreases n,
{
    if n <= 0 {
        Seq::empty()
    } else {
        all_accepted(sections, n - 1, text) + accepted(sections[n - 1], text)
    }
}

/// Returns the content of all sides concatenated (for accept-all). `Diff`
/// sections count as sides and are resolved.
pub fn all_sides_content(text: &Rope, region: &ConflictRegion) -> (all: String)
    requires
        forall|i: int|
            0 <= i < region@.sections.len() && (#[trigger] region@.sections[i]).kind
                != SectionKind::Base ==> within(region@.sections[i], rope_chars(*text)),
    ensures
        all@ == all_accepted(
            region@.sections,
            region@.sections.len() as int,
            rope_chars(*text),
        ),
{
    let mut all = String::new();
    let mut i: usize = 0;
    while i < region.sections.len()
        invariant
            i <= region.sections@.len(),
            forall|i: int|
                0 <= i < region@.sections.len() && (#[trigger] region@.sections[i]).kind
                    != SectionKind::Base ==> within(region@.sections[i], rope_chars(*text)),
            all@ == all_accepted(region@.sections, i as int, rope_chars(*text)),
        decreases region.sections@.len() - i,
    {
        let section = &region.sections[i];
        assert(region@.sections[i as int] == section@);
        match section.kind {
            SectionKind::Base => {
                assert(all@ + Seq::<char>::empty() =~= all@);
            },
            SectionKind::Diff => {
                let side = resolve_diff_content(text, section);
                all.append(side.as_str());
            },
            SectionKind::Side => {
                let side = slice_to_string(
                    slice(text, section.content_start, section.content_end),
                );
                all.append(side.as_str());
            },
        }
        i += 1;
    }
    all
}

/// What is accepted of sections in a row is what is accepted of the first, followed by
/// what is accepted of the others.
pub proof fn law_sections_are_accepted_in_a_row(
    first: Seq<SectionView>,
    second: Seq<SectionView>,
    text: Seq<char>,
)
    ensures
        all_accepted(first + second, (first + second).len() as int, text) == all_accepted(
            first,
            first.len() as int,
            text,
        ) + all_accepted(second, second.len() as int, text),
{
    lemma_accepted_concat(first, second, second.len() as int, text);
}

/// What is accepted of sections in a row, up to section `k` of the second.
proof fn lemma_accepted_concat(
    first: Seq<SectionView>,
    second: Seq<SectionView>,
    k: int,
    text: Seq<char>,
)
    requires
        0 <= k <= second.len(),
    ensures
        all_accepted(first + second, first.len() + k, text) == all_accepted(
            first,
            first.len() as int,
            text,
        ) + all_accepted(second, k, text),
    decreases k,
{
    if k > 0 {
        lemma_accepted_concat(first, second, k - 1, text);
        assert((first + second)[first.len() + k - 1] == second[k - 1]);
    } else {
        lemma_accepted_prefix(first, first + second, first.len() as int, text);
    }
    assert(all_accepted(first + second, first.len() + k, text) =~= all_accepted(
        first,
        first.len() as int,
        text,
    ) + all_accepted(second, k, text));
}

/// What is accepted of the first sections depends on them alone.
proof fn lemma_accepted_prefix(
    a: Seq<SectionView>,
    b: Seq<SectionView>,
    k: int,
    text: Seq<char>,
)
    requires
        0 <= k,
        forall|i: int| 0 <= i < k ==> #[trigger] a[i] == b[i],
    ensures
        all_accepted(a, k, text) == all_accepted(b, k, text),
    decreases k,
{
    if k > 0 {
        lemma_accepted_prefix(a, b, k - 1, text);
        assert(a[k - 1] == b[k - 1]);
    }
}

/// Of a side its text is accepted as it stands in the document, of a diff the side that
/// its text resolves to, of a base nothing.
pub proof fn law_section_is_accepted_whole(section: SectionView, text: Seq<char>)
    ensures
        ({
            let content = text.subrange(section.content_start, section.content_end);
            let all = all_accepted(seq![section], 1, text);
            &&& section.kind == SectionKind::Side ==> all == content
            &&& section.kind == SectionKind::Diff ==> all == diff_side(content)
            &&& section.kind == SectionKind::Base ==> all.len() == 0
        }),
{
    let all = all_accepted(seq![section], 1, text);
    assert(all_accepted(seq![section], 0, text).len() == 0);
    assert(all =~= accepted(section, text));
}

/// Accepting all sides loses nothing: the text of every section that is no base is part of
/// the result, after what is accepted of all earlier sections and before what is accepted
/// of all later ones.
pub proof fn law_every_side_is_accepted(sections: Seq<SectionView>, text: Seq<char>, i: int)
    requires
        0 <= i < sections.len(),
    ensures
        ({
            let content = text.subrange(sections[i].content_start, sections[i].content_end);
            let n = sections.len() as int;
            let before = all_accepted(sections.take(i), i, text);
            let after = all_accepted(sections.skip(i + 1), n - i - 1, text);
            let all = all_accepted(sections, n, text);
            &&& sections[i].kind == SectionKind::Side ==> all == before + content + after
            &&& sections[i].kind == SectionKind::Diff ==> all == before + diff_side(content) + after
            &&& sections[i].kind == SectionKind::Base ==> all == before + after
        }),
{
    let n = sections.len() as int;
    let first = sections.take(i);
    let one = seq![sections[i]];
    let rest = sections.skip(i + 1);
    law_sections_are_accepted_in_a_row(first + one, rest, text);
    law_sections_are_accepted_in_a_row(first, one, text);
    law_section_is_accepted_whole(sections[i], text);
    assert(first + one + rest =~= sections);
    let middle = all_accepted(one, 1, text);
    if sections[i].kind == SectionKind::Base {
        assert(all_accepted(first, i, text) + middle =~= all_accepted(first, i, text));
    }
}

/// An empty diff resolves to nothing.
pub proof fn law_empty_diff_is_empty()
    ensures
        diff_side(Seq::empty()).len() == 0,
        diff_base(Seq::empty()).len() == 0,
{
    lemma_single_line(Seq::empty());
    let all = lines(Seq::<char>::empty());
    assert(all[0].len() == 0);
    assert(resolved_line(all[0], '+', '-').len() == 0);
    assert(resolved_line(all[0], '-', '+').len() == 0);
    assert(resolved_lines(all, 0, '+', '-').len() == 0);
    assert(resolved_lines(all, 0, '-', '+').len() == 0);
    assert(resolved_lines(all, 1, '+', '-').len() == 0);
    assert(resolved_lines(all, 1, '-', '+').len() == 0);
}

} // verus!
