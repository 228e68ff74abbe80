//! What holds of the conflicts of every document.

use crate::content::has_kind;
use crate::locate::{
    holds, in_section, is_at, is_next, is_prev, last_position, marker_lines, on_separator,
    on_separator_of, reaches, region_marker_lines, section_marker_lines,
};
use crate::parse::{
    all_sections, conflicts, ended_sections, is_marker, last_marker, leaves_out_opening,
    lemma_all_contiguous, lemma_conflicts, lemma_first_section, lemma_last_marker,
    lemma_open_before, lemma_region_between, line_role, marker_count, open_before, region_between,
    regions_before, section_ended_at, starts_section, LineRole,
};
use crate::region::{
    follow_each_other, lemma_sections_inside, region_views, well_formed, well_formed_section,
    ConflictRegion, RegionView, SectionKind, SectionView,
};
use crate::text::{
    lemma_line_of, lemma_line_start_monotone, lemma_line_text, lemma_lines_shape, line_end, line_of,
    line_start, lines,
};
use vstd::prelude::*;

verus! {

// ── Which conflicts are found ────────────────────────────────────────────────

/// Whether line `open` opens a conflict and line `close` closes it: no line between
/// the two opens or closes a conflict.
pub open spec fn is_conflict(lines: Seq<Seq<char>>, open: int, close: int) -> bool {
    &&& 0 <= open < close < lines.len()
    &&& line_role(lines[open]) is Open
    &&& line_role(lines[close]) is Close
    &&& forall|k: int|
        open < k < close ==> !(line_role(#[trigger] lines[k]) is Open) && !(line_role(
            lines[k],
        ) is Close)
}

/// A conflict that is open at its first line is so at each line up to the last.
pub proof fn lemma_open_until(lines: Seq<Seq<char>>, open: int, k: int)
    requires
        0 <= open < k <= lines.len(),
        line_role(lines[open]) is Open,
        forall|j: int|
            open < j < k ==> !(line_role(#[trigger] lines[j]) is Open) && !(line_role(
                lines[j],
            ) is Close),
    ensures
        open_before(lines, k) == Some(open),
    decreases k,
{
    if k > open + 1 {
        lemma_open_until(lines, open, k - 1);
    }
}

/// The conflicts closed before a line stay when more lines are read.
proof fn lemma_regions_prefix(lines: Seq<Seq<char>>, j: int, k: int)
    requires
        0 <= j <= k,
    ensures
        regions_before(lines, j).len() <= regions_before(lines, k).len(),
        forall|i: int|
            0 <= i < regions_before(lines, j).len() ==> #[trigger] regions_before(lines, k)[i]
                == regions_before(lines, j)[i],
    decreases k,
{
    if j < k {
        lemma_regions_prefix(lines, j, k - 1);
    }
}

/// Every conflict of a document is found.
pub proof fn law_every_conflict_is_found(text: Seq<char>, open: int, close: int)
    requires
        is_conflict(lines(text), open, close),
    ensures
        conflicts(text).contains(region_between(lines(text), open, close)),
{
    let all = lines(text);
    lemma_open_until(all, open, close);
    lemma_regions_prefix(all, close + 1, all.len() as int);
    let i = regions_before(all, close).len() as int;
    assert(regions_before(all, close + 1)[i] == region_between(all, open, close));
    assert(conflicts(text)[i] == region_between(all, open, close));
}

/// Every region that is found is a conflict of the document.
pub proof fn law_every_region_is_a_conflict(text: Seq<char>, i: int)
    requires
        0 <= i < conflicts(text).len(),
    ensures
        exists|open: int, close: int|
            #![trigger region_between(lines(text), open, close)]
            is_conflict(lines(text), open, close) && conflicts(text)[i] == region_between(
                lines(text),
                open,
                close,
            ),
{
    lemma_region_origin(lines(text), lines(text).len() as int, i);
}

/// A region that is found among the first lines is a conflict of them.
proof fn lemma_region_origin(lines: Seq<Seq<char>>, k: int, i: int)
    requires
        0 <= k <= lines.len(),
        0 <= i < regions_before(lines, k).len(),
    ensures
        exists|open: int, close: int|
            #![trigger region_between(lines, open, close)]
            is_conflict(lines, open, close) && regions_before(lines, k)[i] == region_between(
                lines,
                open,
                close,
            ),
    decreases k,
{
    if k > 0 {
        lemma_open_before(lines, k - 1);
        if i < regions_before(lines, k - 1).len() {
            lemma_region_origin(lines, k - 1, i);
        } else {
            let open = open_before(lines, k - 1)->0;
            assert(is_conflict(lines, open, k - 1));
            assert(regions_before(lines, k)[i] == region_between(lines, open, k - 1));
        }
    }
}

/// A conflict that is never closed is ignored, with all that follows it: no region
/// reaches past its opening line.
pub proof fn law_unclosed_conflict_is_ignored(text: Seq<char>, open: int)
    requires
        0 <= open < lines(text).len(),
        line_role(lines(text)[open]) is Open,
        forall|k: int|
            open < k < lines(text).len() ==> !(line_role(#[trigger] lines(text)[k]) is Close),
    ensures
        forall|i: int|
            0 <= i < conflicts(text).len() ==> (#[trigger] conflicts(text)[i]).end <= line_start(
                lines(text),
                open,
            ),
{
    let all = lines(text);
    assert forall|i: int| 0 <= i < conflicts(text).len() implies (#[trigger] conflicts(
        text,
    )[i]).end <= line_start(all, open) by {
        law_every_region_is_a_conflict(text, i);
        let (o, c) = choose|o: int, c: int|
            #![trigger region_between(all, o, c)]
            is_conflict(all, o, c) && conflicts(text)[i] == region_between(all, o, c);
        assert(c != open);
        lemma_line_start_monotone(all, c + 1, open);
    }
}

/// A document without an opening line, or without a closing line, has no conflicts.
pub proof fn law_no_conflict_without_both_ends(text: Seq<char>)
    requires
        (forall|k: int|
            0 <= k < lines(text).len() ==> !(line_role(#[trigger] lines(text)[k]) is Open)) || (
        forall|k: int|
            0 <= k < lines(text).len() ==> !(line_role(#[trigger] lines(text)[k]) is Close)),
    ensures
        conflicts(text).len() == 0,
{
    if conflicts(text).len() > 0 {
        law_every_region_is_a_conflict(text, 0);
    }
}

/// An opening line inside an open conflict starts the conflict anew: the region that
/// is found starts at the later of the two.
pub proof fn law_nested_opening_restarts(text: Seq<char>, outer: int, inner: int, close: int)
    requires
        0 <= outer < inner,
        line_role(lines(text)[outer]) is Open,
        is_conflict(lines(text), inner, close),
    ensures
        conflicts(text).contains(region_between(lines(text), inner, close)),
        forall|i: int|
            0 <= i < conflicts(text).len() && (#[trigger] conflicts(text)[i]).end == line_start(
                lines(text),
                close + 1,
            ) ==> conflicts(text)[i].start == line_start(lines(text), inner),
{
    let all = lines(text);
    law_every_conflict_is_found(text, inner, close);
    assert forall|i: int|
        0 <= i < conflicts(text).len() && (#[trigger] conflicts(text)[i]).end == line_start(
            all,
            close + 1,
        ) implies conflicts(text)[i].start == line_start(all, inner) by {
        law_every_region_is_a_conflict(text, i);
        let (o, c) = choose|o: int, c: int|
            #![trigger region_between(all, o, c)]
            is_conflict(all, o, c) && conflicts(text)[i] == region_between(all, o, c);
        if c < close {
            lemma_line_start_monotone(all, c + 1, close);
        } else if c > close {
            lemma_line_start_monotone(all, close + 1, c);
        }
        assert(c == close);
        if o < inner {
            assert(line_role(all[inner]) is Open);
        } else if o > inner {
            assert(line_role(all[o]) is Open);
        }
    }
}

// ── How a conflict is divided into sections ──────────────────────────────────

/// A section that a marker has ended is the one in progress at some marker.
proof fn lemma_section_origin(lines: Seq<Seq<char>>, open: int, end: int, i: int)
    requires
        0 <= open < end <= lines.len(),
        0 <= i < ended_sections(lines, open, end).len(),
    ensures
        exists|e: int|
            open < e < end && starts_section(lines[e]) && ended_sections(lines, open, end)[i]
                == #[trigger] section_ended_at(lines, open, e),
    decreases end,
{
    if end > open + 1 {
        if i < ended_sections(lines, open, end - 1).len() {
            lemma_section_origin(lines, open, end - 1, i);
        } else {
            assert(ended_sections(lines, open, end)[i] == section_ended_at(lines, open, end - 1));
        }
    }
}

/// A section of a region is the one in progress at some line.
proof fn lemma_region_section(lines: Seq<Seq<char>>, open: int, close: int, i: int) -> (e: int)
    requires
        0 <= open < close <= lines.len(),
        0 <= i < region_between(lines, open, close).sections.len(),
    ensures
        open < e <= close,
        e == close || starts_section(lines[e]),
        region_between(lines, open, close).sections[i] == section_ended_at(lines, open, e),
{
    let ended = ended_sections(lines, open, close);
    let j = if leaves_out_opening(lines, open, close) {
        i + 1
    } else {
        i
    };
    assert(region_between(lines, open, close).sections[i] == all_sections(lines, open, close)[j]);
    if j < ended.len() {
        lemma_section_origin(lines, open, close, j);
        choose|e: int|
            open < e < close && starts_section(lines[e]) && ended[j]
                == #[trigger] section_ended_at(lines, open, e)
    } else {
        close
    }
}

/// The sections that have ended stay when more lines are read.
proof fn lemma_ended_prefix(lines: Seq<Seq<char>>, open: int, j: int, k: int)
    requires
        0 <= open < j <= k,
    ensures
        ended_sections(lines, open, j).len() <= ended_sections(lines, open, k).len(),
        forall|i: int|
            0 <= i < ended_sections(lines, open, j).len() ==> #[trigger] ended_sections(
                lines,
                open,
                k,
            )[i] == ended_sections(lines, open, j)[i],
    decreases k,
{
    if j < k {
        lemma_ended_prefix(lines, open, j, k - 1);
    }
}

/// Whether seven of a character stand at a position of a text.
pub open spec fn marked(text: Seq<char>, pos: int, mark: char) -> bool {
    0 <= pos && pos + 7 <= text.len() && forall|t: int|
        0 <= t < 7 ==> #[trigger] text[pos + t] == mark
}

/// A marker line of seven characters stands in the text where the line starts.
proof fn lemma_marked(text: Seq<char>, k: int, mark: char)
    requires
        0 <= k < lines(text).len(),
        is_marker(lines(text)[k], mark),
    ensures
        marked(text, line_start(lines(text), k), mark),
{
    let all = lines(text);
    lemma_line_text(text, k);
    assert forall|t: int| 0 <= t < 7 implies #[trigger] text[line_start(all, k) + t] == mark by {
        assert(all[k][t] == mark);
    }
}

/// A region starts at seven `<` and, after its last section, ends with the line
/// that starts with seven `>`.
pub proof fn law_region_is_enclosed_by_markers(text: Seq<char>, i: int)
    requires
        0 <= i < conflicts(text).len(),
    ensures
        marked(text, conflicts(text)[i].start, '<'),
        marked(text, conflicts(text)[i].sections.last().content_end, '>'),
        conflicts(text)[i].end == line_end(text, conflicts(text)[i].sections.last().content_end),
{
    let all = lines(text);
    law_every_region_is_a_conflict(text, i);
    let (o, c) = choose|o: int, c: int|
        #![trigger region_between(all, o, c)]
        is_conflict(all, o, c) && conflicts(text)[i] == region_between(all, o, c);
    lemma_marked(text, o, '<');
    lemma_marked(text, c, '>');
    lemma_line_text(text, c);
    lemma_line_of(text, c, line_start(all, c));
}

/// The kind of a section is told by the seven characters of its marker: `<`, `=` and
/// `+` mark a side, `|` and `-` a base, `%` a diff.
pub proof fn law_marker_tells_kind(text: Seq<char>, i: int, s: int)
    requires
        0 <= i < conflicts(text).len(),
        0 <= s < conflicts(text)[i].sections.len(),
    ensures
        ({
            let section = conflicts(text)[i].sections[s];
            match section.kind {
                SectionKind::Side => {
                    ||| marked(text, section.marker_start, '<')
                    ||| marked(text, section.marker_start, '=')
                    ||| marked(text, section.marker_start, '+')
                },
                SectionKind::Base => {
                    ||| marked(text, section.marker_start, '|')
                    ||| marked(text, section.marker_start, '-')
                },
                SectionKind::Diff => marked(text, section.marker_start, '%'),
            }
        }),
{
    let all = lines(text);
    law_every_region_is_a_conflict(text, i);
    let (o, c) = choose|o: int, c: int|
        #![trigger region_between(all, o, c)]
        is_conflict(all, o, c) && conflicts(text)[i] == region_between(all, o, c);
    let e = lemma_region_section(all, o, c, s);
    lemma_last_marker(all, o, e);
    let m = last_marker(all, o, e);
    if m == o {
        lemma_marked(text, m, '<');
    } else if is_marker(all[m], '|') {
        lemma_marked(text, m, '|');
    } else if is_marker(all[m], '=') {
        lemma_marked(text, m, '=');
    } else if is_marker(all[m], '+') {
        lemma_marked(text, m, '+');
    } else if is_marker(all[m], '-') {
        lemma_marked(text, m, '-');
    } else {
        lemma_marked(text, m, '%');
    }
}

/// In a conflict in one of the git formats, and in any other in which text directly
/// follows the opening line, no section is left out.
pub proof fn law_git_conflict_keeps_all_sections(lines: Seq<Seq<char>>, open: int, close: int)
    requires
        !(line_role(lines[open + 1]) is JjSection),
    ensures
        region_between(lines, open, close).sections == all_sections(lines, open, close),
{
}

/// The section that the opening line starts is the first one of a conflict.
proof fn lemma_opening_section(lines: Seq<Seq<char>>, open: int, close: int)
    requires
        is_conflict(lines, open, close),
        line_role(lines[open + 1]) is JjSection,
    ensures
        all_sections(lines, open, close)[0] == section_ended_at(lines, open, open + 1),
        all_sections(lines, open, close)[0].content_start == line_start(lines, open + 1),
        all_sections(lines, open, close)[0].content_end == line_start(lines, open + 1),
{
    lemma_ended_prefix(lines, open, open + 2, close);
    assert(ended_sections(lines, open, open + 1).len() == 0);
    assert(ended_sections(lines, open, open + 2)[0] == section_ended_at(lines, open, open + 1));
}

/// No section is left out but the one that the opening line starts, and that only
/// where it has no content.
pub proof fn law_left_out_section_is_empty(lines: Seq<Seq<char>>, open: int, close: int)
    requires
        is_conflict(lines, open, close),
        region_between(lines, open, close).sections != all_sections(lines, open, close),
    ensures
        region_between(lines, open, close).sections == all_sections(lines, open, close).drop_first(),
        all_sections(lines, open, close)[0].content_start == all_sections(
            lines,
            open,
            close,
        )[0].content_end,
{
    lemma_opening_section(lines, open, close);
}

/// How many lines between `open` and `end` start a section.
pub open spec fn count_markers(lines: Seq<Seq<char>>, open: int, end: int) -> int
    decreases end,
{
    if end <= open + 1 || end <= 0 {
        0
    } else {
        count_markers(lines, open, end - 1) + if line_role(lines[end - 1]) is Section || line_role(
            lines[end - 1],
        ) is JjSection {
            1int
        } else {
            0int
        }
    }
}

/// A section has ended for each marker.
proof fn lemma_count_markers(lines: Seq<Seq<char>>, open: int, end: int)
    ensures
        ended_sections(lines, open, end).len() == count_markers(lines, open, end),
    decreases end,
{
    if end > open + 1 && end > 0 {
        lemma_count_markers(lines, open, end - 1);
    }
}

/// There is a section for the opening line, unless it is left out, and one for each
/// section marker inside the conflict; each ends where the next starts.
pub proof fn law_sections_are_contiguous(lines: Seq<Seq<char>>, open: int, close: int)
    requires
        is_conflict(lines, open, close),
    ensures
        ({
            let region = region_between(lines, open, close);
            &&& follow_each_other(region.sections)
            &&& if leaves_out_opening(lines, open, close) {
                &&& region.sections.len() == count_markers(lines, open, close)
                &&& region.sections[0].marker_start == line_start(lines, open + 1)
            } else {
                &&& region.sections.len() == count_markers(lines, open, close) + 1
                &&& region.sections[0].marker_start == region.start
            }
        }),
{
    lemma_count_markers(lines, open, close);
    lemma_first_section(lines, open, close);
    lemma_region_between(lines, open, close);
    if leaves_out_opening(lines, open, close) {
        lemma_opening_section(lines, open, close);
        lemma_all_contiguous(lines, open, close);
        let all = all_sections(lines, open, close);
        assert(all[0].content_end == all[1].marker_start);
    }
}

/// Whether line `k` continues the marker of a diff section: a `\\\\\\\` line directly
/// after the `%%%%%%%` line.
pub open spec fn continues_marker(lines: Seq<Seq<char>>, open: int, k: int) -> bool {
    &&& open < k - 1
    &&& line_role(lines[k]) is Continuation
    &&& line_role(lines[k - 1]) == LineRole::JjSection(SectionKind::Diff)
}

/// Whether a section's content holds the whole of line `k`.
pub open spec fn holds_line(section: SectionView, lines: Seq<Seq<char>>, k: int) -> bool {
    section.content_start <= line_start(lines, k) && line_start(lines, k + 1)
        <= section.content_end
}

/// A section in progress since before line `k` holds that line.
proof fn lemma_holds_line(lines: Seq<Seq<char>>, open: int, k: int, end: int)
    requires
        0 <= open < k < end < lines.len(),
        !continues_marker(lines, open, k),
        last_marker(lines, open, end) < k,
    ensures
        holds_line(section_ended_at(lines, open, end), lines, k),
{
    let m = last_marker(lines, open, end);
    lemma_last_marker(lines, open, end);
    lemma_line_start_monotone(lines, m + 1, k);
    lemma_line_start_monotone(lines, k + 1, end);
    if marker_count(lines, open, m, end) == 2 {
        assert(k != m + 1);
        lemma_line_start_monotone(lines, m + 2, k);
    }
}

/// A line of a conflict is in a section that has ended, or in the one in progress.
proof fn lemma_line_kept(lines: Seq<Seq<char>>, open: int, k: int, end: int)
    requires
        0 <= open < k < end < lines.len(),
        !starts_section(lines[k]),
        !continues_marker(lines, open, k),
    ensures
        last_marker(lines, open, end) < k || (exists|i: int|
            0 <= i < ended_sections(lines, open, end).len() && holds_line(
                #[trigger] ended_sections(lines, open, end)[i],
                lines,
                k,
            )),
    decreases end,
{
    if end == k + 1 {
        lemma_last_marker(lines, open, k);
        assert(last_marker(lines, open, k + 1) == last_marker(lines, open, k));
    } else {
        lemma_line_kept(lines, open, k, end - 1);
        let before = ended_sections(lines, open, end - 1);
        let ended = ended_sections(lines, open, end);
        if exists|i: int| 0 <= i < before.len() && holds_line(#[trigger] before[i], lines, k) {
            let i = choose|i: int| 0 <= i < before.len() && holds_line(#[trigger] before[i], lines, k);
            assert(ended[i] == before[i]);
        } else if starts_section(lines[end - 1]) {
            lemma_holds_line(lines, open, k, end - 1);
            assert(holds_line(ended[before.len() as int], lines, k));
        }
    }
}

/// No text is lost: every line inside a conflict that is no marker line is in the
/// content of a section, whole.
pub proof fn law_every_text_line_is_in_a_section(text: Seq<char>, open: int, close: int, k: int)
    requires
        is_conflict(lines(text), open, close),
        open < k < close,
        line_role(lines(text)[k]) is Text || line_role(lines(text)[k]) is Continuation,
        !continues_marker(lines(text), open, k),
    ensures
        exists|i: int|
            0 <= i < region_between(lines(text), open, close).sections.len() && holds_line(
                #[trigger] region_between(lines(text), open, close).sections[i],
                lines(text),
                k,
            ),
{
    let lines = lines(text);
    let sections = region_between(lines, open, close).sections;
    let all = all_sections(lines, open, close);
    let ended = ended_sections(lines, open, close);
    lemma_lines_shape(text);
    lemma_line_kept(lines, open, k, close);
    let i = if last_marker(lines, open, close) < k {
        lemma_holds_line(lines, open, k, close);
        ended.len() as int
    } else {
        choose|i: int| 0 <= i < ended.len() && holds_line(#[trigger] ended[i], lines, k)
    };
    assert(holds_line(all[i], lines, k));
    if leaves_out_opening(lines, open, close) {
        lemma_opening_section(lines, open, close);
        assert(lines[k].len() > 0);
        assert(line_start(lines, k + 1) == line_start(lines, k) + lines[k].len());
        assert(sections[i - 1] == all[i]);
    } else {
        assert(sections[i] == all[i]);
    }
}

/// Every conflict has a side.
pub proof fn law_conflict_has_a_side(text: Seq<char>, i: int)
    requires
        0 <= i < conflicts(text).len(),
    ensures
        has_kind(conflicts(text)[i], SectionKind::Side),
{
    lemma_conflicts(text);
}

// ── Finding one's way ────────────────────────────────────────────────────────

/// The conflicts of a document start one after the other.
pub proof fn law_conflicts_start_in_order(text: Seq<char>, i: int, j: int)
    requires
        0 <= i < j < conflicts(text).len(),
    ensures
        conflicts(text)[i].start < conflicts(text)[i].end <= conflicts(text)[j].start,
{
    lemma_conflicts(text);
    lemma_sections_inside(conflicts(text)[i], text.len() as int, 0);
    assert(well_formed_section(conflicts(text)[i].sections[0]));
}

/// A position is inside one conflict of a document at most.
pub proof fn law_position_is_in_one_conflict(text: Seq<char>, pos: int, i: int, j: int)
    requires
        0 <= i < conflicts(text).len(),
        0 <= j < conflicts(text).len(),
        holds(conflicts(text)[i], pos),
        holds(conflicts(text)[j], pos),
    ensures
        i == j,
{
    lemma_conflicts(text);
}

/// From the start of a conflict, the next one is the following, and from there the
/// previous one is the first again.
pub proof fn law_next_and_previous(found: Seq<ConflictRegion>, text: Seq<char>, i: int)
    requires
        region_views(found) == conflicts(text),
        0 <= i < found.len() - 1,
    ensures
        is_next(found, found[i]@.start, i + 1),
        is_prev(found, found[i + 1]@.start, i),
{
    assert forall|a: int, b: int| 0 <= a < b < found.len() implies (#[trigger] found[a])@.start < (
    #[trigger] found[b])@.start by {
        law_conflicts_start_in_order(text, a, b);
        assert(region_views(found)[a] == found[a]@);
        assert(region_views(found)[b] == found[b]@);
    }
}

/// The conflict at a position of a document is the one whose lines the position is on.
pub proof fn law_conflict_is_found_at_its_positions(
    found: Seq<ConflictRegion>,
    text: Seq<char>,
    i: int,
    pos: int,
)
    requires
        region_views(found) == conflicts(text),
        0 <= i < found.len(),
    ensures
        is_at(found, pos, i) <==> found[i].start <= pos < found[i].end,
{
    assert forall|a: int, b: int| 0 <= a < b < found.len() implies (#[trigger] found[a]).end <= (
    #[trigger] found[b]).start by {
        law_conflicts_start_in_order(text, a, b);
        assert(region_views(found)[a] == found[a]@);
        assert(region_views(found)[b] == found[b]@);
    }
}

/// The next conflict after a position of a document starts after it, and the one before
/// that does not; the previous conflict starts before the position, and the one after that
/// does not.
pub proof fn law_next_and_previous_are_the_nearest(
    found: Seq<ConflictRegion>,
    text: Seq<char>,
    i: int,
    pos: int,
)
    requires
        region_views(found) == conflicts(text),
        0 <= i < found.len(),
    ensures
        is_next(found, pos, i) <==> found[i].start > pos && (i > 0 ==> found[i - 1].start <= pos),
        is_prev(found, pos, i) <==> found[i].start < pos && (i < found.len() - 1 ==> found[i
            + 1].start >= pos),
{
    assert forall|a: int, b: int| 0 <= a < b < found.len() implies (#[trigger] found[a]).start < (
    #[trigger] found[b]).start by {
        law_conflicts_start_in_order(text, a, b);
        assert(region_views(found)[a] == found[a]@);
        assert(region_views(found)[b] == found[b]@);
    }
    if is_next(found, pos, i) && i > 0 {
        assert(found[i - 1]@.start <= pos);
    }
    if is_prev(found, pos, i) && i < found.len() - 1 {
        assert(found[i + 1]@.start >= pos);
    }
}

/// The section that a position inside a region is in, looked for from section `i`.
proof fn lemma_reached(region: RegionView, length: int, pos: int, i: int) -> (s: int)
    requires
        well_formed(region, length),
        holds(region, pos),
        0 <= i < region.sections.len(),
        i == 0 || region.sections[i].marker_start <= pos,
    ensures
        i <= s < region.sections.len(),
        reaches(region, s, pos),
    decreases region.sections.len() - i,
{
    if i == region.sections.len() - 1 || pos < region.sections[i + 1].marker_start {
        i
    } else {
        lemma_reached(region, length, pos, i + 1)
    }
}

/// Every position inside a region belongs to one section of it, or is on the
/// separator line.
pub proof fn law_position_is_in_a_section(region: RegionView, text: Seq<char>, pos: int)
    requires
        well_formed(region, text.len() as int),
        holds(region, pos),
        !on_separator(region, text, pos),
    ensures
        exists|i: int|
            0 <= i < region.sections.len() && #[trigger] in_section(region, text, i, pos),
{
    let s = lemma_reached(region, text.len() as int, pos, 0);
    assert(in_section(region, text, s, pos));
}

/// A position belongs to one section of a region at most; to none where it is outside
/// the region or on the separator line.
pub proof fn law_position_is_in_one_section(region: RegionView, text: Seq<char>, pos: int, i: int)
    requires
        well_formed(region, text.len() as int),
        0 <= i < region.sections.len(),
        in_section(region, text, i, pos),
    ensures
        holds(region, pos),
        !on_separator(region, text, pos),
        forall|j: int|
            0 <= j < region.sections.len() && #[trigger] in_section(region, text, j, pos) ==> j == i,
{
    let last = region.sections.len() - 1;
    lemma_sections_inside(region, text.len() as int, i);
    assert(well_formed_section(region.sections[i]));
    assert(well_formed_section(region.sections[last]));
    if i < last {
        lemma_sections_inside(region, text.len() as int, i + 1);
        assert(well_formed_section(region.sections[i + 1]));
        assert(region.sections[i + 1].marker_start <= region.sections[last].marker_start);
    }
    assert forall|j: int|
        0 <= j < region.sections.len() && #[trigger] in_section(region, text, j, pos) implies j
        == i by {
        assert(well_formed_section(region.sections[j]));
        if j < i {
            assert(well_formed_section(region.sections[j + 1]));
            assert(region.sections[j + 1].marker_start <= region.sections[i].marker_start);
        } else if i < j {
            assert(region.sections[i + 1].marker_start <= region.sections[j].marker_start);
        }
    }
}

/// The marker of a section found in a document takes up whole lines, of which its
/// content is the rest.
proof fn lemma_marker_line(text: Seq<char>, open: int, close: int, i: int) -> (m: int)
    requires
        is_conflict(lines(text), open, close),
        0 <= i < region_between(lines(text), open, close).sections.len(),
    ensures
        open <= m < close,
        m == open || starts_section(lines(text)[m]),
        region_between(lines(text), open, close).sections[i].marker_start == line_start(
            lines(text),
            m,
        ),
        region_between(lines(text), open, close).sections[i].marker_lines >= 1,
        line_of(text, line_start(lines(text), m)) == m,
        line_end(text, line_start(lines(text), m)) <= region_between(
            lines(text),
            open,
            close,
        ).sections[i].content_start,
{
    let all = lines(text);
    let e = lemma_region_section(all, open, close, i);
    lemma_last_marker(all, open, e);
    let m = last_marker(all, open, e);
    lemma_line_text(text, m);
    lemma_line_of(text, m, line_start(all, m));
    lemma_line_start_monotone(all, m + 1, m + 2);
    m
}

/// A marker line belongs to its own section, but for the separator.
pub proof fn law_marker_belongs_to_its_section(
    text: Seq<char>,
    open: int,
    close: int,
    i: int,
    pos: int,
)
    requires
        is_conflict(lines(text), open, close),
        0 <= i < region_between(lines(text), open, close).sections.len(),
        ({
            let region = region_between(lines(text), open, close);
            &&& region.sections[i].marker_start <= pos < region.sections[i].content_start
            &&& !on_separator(region, text, pos)
        }),
    ensures
        in_section(region_between(lines(text), open, close), text, i, pos),
{
    let region = region_between(lines(text), open, close);
    law_every_conflict_is_found(text, open, close);
    lemma_conflicts(text);
    lemma_sections_inside(region, text.len() as int, i);
    assert(well_formed_section(region.sections[i]));
    if i < region.sections.len() - 1 {
        assert(well_formed_section(region.sections[i + 1]));
    }
}

/// A marker line that is no separator belongs to its own section, and so does the content
/// of every section.
pub proof fn law_marker_and_content_belong_to_their_section(
    text: Seq<char>,
    open: int,
    close: int,
    i: int,
    pos: int,
)
    requires
        is_conflict(lines(text), open, close),
        0 <= i < region_between(lines(text), open, close).sections.len(),
        ({
            let section = region_between(lines(text), open, close).sections[i];
            ||| section.content_start <= pos < section.content_end
            ||| section.marker_start <= pos < section.content_start && text[section.marker_start]
                != '='
        }),
    ensures
        in_section(region_between(lines(text), open, close), text, i, pos),
{
    let region = region_between(lines(text), open, close);
    law_every_conflict_is_found(text, open, close);
    lemma_conflicts(text);
    lemma_sections_inside(region, text.len() as int, i);
    assert(well_formed_section(region.sections[i]));
    let m = lemma_marker_line(text, open, close, i);
    if i < region.sections.len() - 1 {
        assert(well_formed_section(region.sections[i + 1]));
    }
}

/// A position outside a conflict belongs to no section of it.
pub proof fn law_position_outside_is_in_no_section(
    region: RegionView,
    text: Seq<char>,
    pos: int,
    i: int,
)
    requires
        well_formed(region, text.len() as int),
        pos < region.start || region.end <= pos,
        0 <= i < region.sections.len(),
    ensures
        !in_section(region, text, i, pos),
{
    if in_section(region, text, i, pos) {
        law_position_is_in_one_section(region, text, pos, i);
    }
}

/// A `=======` line inside a conflict belongs to no section.
pub proof fn law_separator_belongs_to_no_section(
    text: Seq<char>,
    open: int,
    close: int,
    k: int,
    pos: int,
    i: int,
)
    requires
        is_conflict(lines(text), open, close),
        open < k < close,
        is_marker(lines(text)[k], '='),
        line_start(lines(text), k) <= pos < line_start(lines(text), k + 1),
        0 <= i < region_between(lines(text), open, close).sections.len(),
    ensures
        !in_section(region_between(lines(text), open, close), text, i, pos),
{
    let all = lines(text);
    let region = region_between(all, open, close);
    law_every_conflict_is_found(text, open, close);
    lemma_conflicts(text);
    lemma_marked(text, k, '=');
    assert(text[line_start(all, k) + 0] == '=');
    let (j, e) = lemma_section_of_marker(all, open, close, k);
    lemma_line_text(text, k);
    lemma_line_of(text, k, line_start(all, k));
    lemma_sections_inside(region, text.len() as int, j);
    assert(well_formed_section(region.sections[j]));
    assert(reaches(region, j, pos)) by {
        assert(region.sections[j].content_start == line_start(all, k + 1));
        if j < region.sections.len() - 1 {
            assert(region.sections[j].content_end <= region.sections[j + 1].marker_start);
        }
    }
    assert(on_separator_of(region.sections[j], text, pos));
    if in_section(region, text, i, pos) {
        law_position_is_in_one_section(region, text, pos, i);
    }
}

/// The opening line belongs to the first section.
pub proof fn law_opening_line_belongs_to_first_section(
    text: Seq<char>,
    open: int,
    close: int,
    pos: int,
)
    requires
        is_conflict(lines(text), open, close),
        line_start(lines(text), open) <= pos < line_start(lines(text), open + 1),
    ensures
        in_section(region_between(lines(text), open, close), text, 0, pos),
{
    let all = lines(text);
    let region = region_between(all, open, close);
    law_every_conflict_is_found(text, open, close);
    lemma_conflicts(text);
    lemma_marked(text, open, '<');
    lemma_sections_inside(region, text.len() as int, 0);
    assert(well_formed_section(region.sections[0]));
    let m = lemma_marker_line(text, open, close, 0);
    if m > open {
        lemma_line_start_monotone(all, open + 1, m);
    } else {
        assert(text[region.start + 0] == '<');
    }
    if region.sections.len() > 1 {
        assert(region.sections[0].content_end <= region.sections[1].marker_start);
    }
}

/// The closing line belongs to the last section.
pub proof fn law_closing_line_belongs_to_last_section(
    text: Seq<char>,
    open: int,
    close: int,
    pos: int,
)
    requires
        is_conflict(lines(text), open, close),
        line_start(lines(text), close) <= pos < line_start(lines(text), close + 1),
    ensures
        ({
            let region = region_between(lines(text), open, close);
            in_section(region, text, region.sections.len() - 1, pos)
        }),
{
    let all = lines(text);
    let region = region_between(all, open, close);
    let last = region.sections.len() - 1;
    law_every_conflict_is_found(text, open, close);
    lemma_conflicts(text);
    lemma_sections_inside(region, text.len() as int, last);
    assert(well_formed_section(region.sections[last]));
    let m = lemma_marker_line(text, open, close, last);
}

// ── Marker lines ─────────────────────────────────────────────────────────────

/// The line that ends the section that line `k` starts, looked for from line `j`.
proof fn lemma_next_marker(lines: Seq<Seq<char>>, open: int, k: int, j: int, close: int) -> (e: int)
    requires
        0 <= open <= k < j <= close,
        last_marker(lines, open, j) == k,
    ensures
        j <= e <= close,
        last_marker(lines, open, e) == k,
        e == close || starts_section(lines[e]),
    decreases close - j,
{
    if j == close || starts_section(lines[j]) {
        j
    } else {
        lemma_next_marker(lines, open, k, j + 1, close)
    }
}

/// Whether line `line` is a marker line of a conflict: its opening or closing line, a
/// section marker, or the line that continues one.
pub open spec fn marks_conflict(lines: Seq<Seq<char>>, open: int, close: int, line: int) -> bool {
    &&& open <= line <= close
    &&& {
        ||| line == open
        ||| line == close
        ||| line_role(lines[line]) is Section
        ||| line_role(lines[line]) is JjSection
        ||| continues_marker(lines, open, line)
    }
}

/// The first and last positions of a conflict are on its opening and closing lines.
proof fn lemma_region_ends(text: Seq<char>, open: int, close: int)
    requires
        is_conflict(lines(text), open, close),
    ensures
        line_of(text, region_between(lines(text), open, close).start) == open,
        line_of(text, last_position(region_between(lines(text), open, close))) == close,
{
    let all = lines(text);
    lemma_line_text(text, open);
    lemma_line_of(text, open, line_start(all, open));
    lemma_line_text(text, close);
    lemma_line_of(text, close, line_start(all, close + 1) - 1);
}

/// A line reported for a section is a marker line.
proof fn lemma_reported_section(text: Seq<char>, open: int, close: int, i: int, line: int)
    requires
        is_conflict(lines(text), open, close),
        0 <= i < region_between(lines(text), open, close).sections.len(),
        section_marker_lines(
            region_between(lines(text), open, close).sections[i],
            text,
        ).contains(line),
    ensures
        marks_conflict(lines(text), open, close, line),
{
    let all = lines(text);
    let e = lemma_region_section(all, open, close, i);
    lemma_last_marker(all, open, e);
    let m = last_marker(all, open, e);
    lemma_line_text(text, m);
    lemma_line_of(text, m, line_start(all, m));
}

/// The place of the section that line `k` starts, and the line that ends it.
proof fn lemma_section_of_marker(lines: Seq<Seq<char>>, open: int, close: int, k: int) -> (place: (
    int,
    int,
))
    requires
        is_conflict(lines, open, close),
        open < k < close,
        starts_section(lines[k]),
    ensures
        0 <= place.0 < region_between(lines, open, close).sections.len(),
        k < place.1 <= close,
        last_marker(lines, open, place.1) == k,
        place.1 == close || starts_section(lines[place.1]),
        region_between(lines, open, close).sections[place.0] == section_ended_at(
            lines,
            open,
            place.1,
        ),
{
    let region = region_between(lines, open, close);
    let sections = all_sections(lines, open, close);
    let e = lemma_next_marker(lines, open, k, k + 1, close);
    let j = ended_sections(lines, open, e).len() as int;
    lemma_first_section(lines, open, e);
    if e < close {
        lemma_ended_prefix(lines, open, e + 1, close);
        assert(ended_sections(lines, open, e + 1)[j] == section_ended_at(lines, open, e));
    }
    assert(sections[j] == section_ended_at(lines, open, e));
    let i = if leaves_out_opening(lines, open, close) {
        j - 1
    } else {
        j
    };
    assert(region.sections[i] == sections[j]);
    (i, e)
}

/// The section that line `k` starts reports that line, and the one that continues it.
proof fn lemma_section_reports(text: Seq<char>, open: int, close: int, k: int)
    requires
        is_conflict(lines(text), open, close),
        open < k < close,
        starts_section(lines(text)[k]),
    ensures
        ({
            let reported = region_marker_lines(region_between(lines(text), open, close), text);
            &&& reported.contains(k)
            &&& continues_marker(lines(text), open, k + 1) ==> reported.contains(k + 1)
        }),
{
    let all = lines(text);
    let region = region_between(all, open, close);
    let (i, e) = lemma_section_of_marker(all, open, close, k);
    lemma_line_text(text, k);
    lemma_line_of(text, k, line_start(all, k));
    assert(section_marker_lines(region.sections[i], text).contains(k));
    if continues_marker(all, open, k + 1) {
        assert(k + 1 < e) by {
            if e == k + 1 {
                assert(line_role(all[e]) is Continuation);
            }
        }
        assert(section_marker_lines(region.sections[i], text).contains(k + 1));
    }
}

/// The lines reported for a conflict are its marker lines, and all of them.
pub proof fn law_marker_lines_are_reported(text: Seq<char>, open: int, close: int, line: int)
    requires
        is_conflict(lines(text), open, close),
    ensures
        region_marker_lines(region_between(lines(text), open, close), text).contains(line)
            <==> marks_conflict(lines(text), open, close, line),
{
    let all = lines(text);
    let region = region_between(all, open, close);
    lemma_region_ends(text, open, close);
    if region_marker_lines(region, text).contains(line) && line != open && line != close {
        let i = choose|i: int|
            0 <= i < region.sections.len() && #[trigger] section_marker_lines(
                region.sections[i],
                text,
            ).contains(line);
        lemma_reported_section(text, open, close, i, line);
    }
    if marks_conflict(all, open, close, line) && line != open && line != close {
        if starts_section(all[line]) {
            lemma_section_reports(text, open, close, line);
        } else {
            lemma_section_reports(text, open, close, line - 1);
        }
    }
}

/// The lines reported for the conflicts of a document are the marker lines of its
/// conflicts, and all of them.
pub proof fn law_marker_lines_of_all_conflicts_are_reported(
    found: Seq<ConflictRegion>,
    text: Seq<char>,
    line: int,
)
    requires
        region_views(found) == conflicts(text),
    ensures
        marker_lines(found, text).contains(line) <==> exists|open: int, close: int|
            is_conflict(lines(text), open, close) && #[trigger] marks_conflict(
                lines(text),
                open,
                close,
                line,
            ),
{
    let all = lines(text);
    if marker_lines(found, text).contains(line) {
        let i = choose|i: int|
            0 <= i < found.len() && #[trigger] region_marker_lines(found[i]@, text).contains(line);
        assert(region_views(found)[i] == found[i]@);
        law_every_region_is_a_conflict(text, i);
        let (o, c) = choose|o: int, c: int|
            #![trigger region_between(all, o, c)]
            is_conflict(all, o, c) && conflicts(text)[i] == region_between(all, o, c);
        law_marker_lines_are_reported(text, o, c, line);
        assert(marks_conflict(all, o, c, line));
    }
    if exists|o: int, c: int| is_conflict(all, o, c) && #[trigger] marks_conflict(all, o, c, line) {
        let (o, c) = choose|o: int, c: int|
            is_conflict(all, o, c) && #[trigger] marks_conflict(all, o, c, line);
        law_every_conflict_is_found(text, o, c);
        law_marker_lines_are_reported(text, o, c, line);
        let region = region_between(all, o, c);
        let i = choose|i: int| 0 <= i < conflicts(text).len() && conflicts(text)[i] == region;
        assert(region_views(found)[i] == found[i]@);
        assert(region_marker_lines(found[i]@, text).contains(line));
    }
}

} // verus!
