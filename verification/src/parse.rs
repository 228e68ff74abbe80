//! Finding conflict regions in a document.
//!
//! Three formats are understood. A two-way git conflict:
//!
//! ```text
//! <<<<<<< current
//! ... current text ...
//! =======
//! ... incoming text ...
//! >>>>>>> incoming
//! ```
//!
//! A three-way git (diff3) conflict, which shows the common base:
//!
//! ```text
//! <<<<<<< current
//! ... current text ...
//! ||||||| base
//! ... base text ...
//! =======
//! ... incoming text ...
//! >>>>>>> incoming
//! ```
//!
//! A jj conflict of any number of sides, in which every section has a marker
//! line of its own (`+++++++` for a side, `-------` for a base, `%%%%%%%` for
//! a side written as a diff, which a line of `\\\\\\\` directly after it may
//! continue):
//!
//! ```text
//! <<<<<<< conflict
//! +++++++ side #1
//! ... side 1 text ...
//! ------- base
//! ... base text ...
//! +++++++ side #2
//! ... side 2 text ...
//! >>>>>>> conflict ends
//! ```

use crate::content::has_kind;
use crate::locate::{lemma_locatable, locatable};
use crate::region::{
    follow_each_other, in_order, region_views, section_views, well_formed, well_formed_section,
    ConflictRegion, RegionView, Section, SectionKind, SectionView,
};
use crate::text::{
    lemma_line_start_monotone, lemma_lines_total, line_start, lines, rope_chars, rope_lines,
    slice_texts, slice_to_chars,
};
use ropey::Rope;
use vstd::prelude::*;

verus! {

// ── Marker lines ─────────────────────────────────────────────────────────────

/// Whether a line is the marker made of `mark`: exactly seven of them, then
/// nothing, a space or a line ending.
pub open spec fn is_marker(line: Seq<char>, mark: char) -> bool {
    &&& line.len() >= 7
    &&& forall|i: int| 0 <= i < 7 ==> #[trigger] line[i] == mark
    &&& line.len() > 7 ==> line[7] == ' ' || line[7] == '\r' || line[7] == '\n'
}

/// What a line does in a document with conflicts.
#[derive(Debug, Clone, Copy, PartialEq, Eq, Structural)]
pub enum LineRole {
    /// `<<<<<<<` opens a conflict.
    Open,
    /// `>>>>>>>` closes the open conflict.
    Close,
    /// `|||||||` and `=======` start a section in any format.
    Section(SectionKind),
    /// `+++++++`, `-------` and `%%%%%%%` start a section in jj format.
    JjSection(SectionKind),
    /// `\\\\\\\` continues the marker of a `Diff` section that it directly follows.
    Continuation,
    /// Any other line is text.
    Text,
}

/// The role of a line.
pub open spec fn line_role(line: Seq<char>) -> LineRole {
    if is_marker(line, '<') {
        LineRole::Open
    } else if is_marker(line, '>') {
        LineRole::Close
    } else if is_marker(line, '|') {
        LineRole::Section(SectionKind::Base)
    } else if is_marker(line, '=') {
        LineRole::Section(SectionKind::Side)
    } else if is_marker(line, '+') {
        LineRole::JjSection(SectionKind::Side)
    } else if is_marker(line, '-') {
        LineRole::JjSection(SectionKind::Base)
    } else if is_marker(line, '%') {
        LineRole::JjSection(SectionKind::Diff)
    } else if is_marker(line, '\\') {
        LineRole::Continuation
    } else {
        LineRole::Text
    }
}

/// Whether a line starts a new section of the open conflict.
pub open spec fn starts_section(line: Seq<char>) -> bool {
    line_role(line) is Section || line_role(line) is JjSection
}

// ── Regions ──────────────────────────────────────────────────────────────────
//
// In what follows `open` is the number of a `<<<<<<<` line, `marker` that of
// the line that starts a section (`open` itself, for the first) and `end` that
// of the line that ends it.

/// The kind of the section that line `marker` starts.
pub open spec fn section_kind(lines: Seq<Seq<char>>, open: int, marker: int) -> SectionKind {
    if marker == open {
        SectionKind::Side
    } else {
        match line_role(lines[marker]) {
            LineRole::Section(kind) => kind,
            LineRole::JjSection(kind) => kind,
            _ => SectionKind::Side,
        }
    }
}

/// How many marker lines the section has that line `marker` starts and line `end`
/// ends: two for a diff whose second line is a `\\\\\\\` line, one otherwise.
pub open spec fn marker_count(lines: Seq<Seq<char>>, open: int, marker: int, end: int) -> int {
    if section_kind(lines, open, marker) == SectionKind::Diff && marker + 1 < end && line_role(
        lines[marker + 1],
    ) is Continuation {
        2
    } else {
        1
    }
}

/// The section that line `marker` starts and line `end` ends.
pub open spec fn section_between(
    lines: Seq<Seq<char>>,
    open: int,
    marker: int,
    end: int,
) -> SectionView {
    SectionView {
        kind: section_kind(lines, open, marker),
        marker_start: line_start(lines, marker),
        marker_lines: marker_count(lines, open, marker, end),
        content_start: line_start(lines, marker + marker_count(lines, open, marker, end)),
        content_end: line_start(lines, end),
    }
}

/// The last line before line `end` that starts a section of the conflict that
/// line `open` opens.
pub open spec fn last_marker(lines: Seq<Seq<char>>, open: int, end: int) -> int
    decreases end,
{
    if end <= open + 1 || end <= 0 {
        open
    } else if starts_section(lines[end - 1]) {
        end - 1
    } else {
        last_marker(lines, open, end - 1)
    }
}

/// The section in progress when the marker in line `end` ends it.
pub open spec fn section_ended_at(lines: Seq<Seq<char>>, open: int, end: int) -> SectionView {
    section_between(lines, open, last_marker(lines, open, end), end)
}

/// The sections that markers after line `open` and before line `end` have ended.
pub open spec fn ended_sections(lines: Seq<Seq<char>>, open: int, end: int) -> Seq<SectionView>
    decreases end,
{
    if end <= open + 1 || end <= 0 {
        Seq::empty()
    } else if starts_section(lines[end - 1]) {
        ended_sections(lines, open, end - 1).push(section_ended_at(lines, open, end - 1))
    } else {
        ended_sections(lines, open, end - 1)
    }
}

/// The sections of a conflict: one that the opening line starts, and one for each
/// section marker.
pub open spec fn all_sections(lines: Seq<Seq<char>>, open: int, close: int) -> Seq<SectionView> {
    ended_sections(lines, open, close).push(section_ended_at(lines, open, close))
}

/// Whether a section after the first is a side.
pub open spec fn has_later_side(sections: Seq<SectionView>) -> bool {
    exists|i: int| 0 < i < sections.len() && (#[trigger] sections[i]).kind == SectionKind::Side
}

/// Whether the section that the opening line starts is left out: in jj format, where a
/// section marker directly follows the opening line and a later section is a side.
pub open spec fn leaves_out_opening(lines: Seq<Seq<char>>, open: int, close: int) -> bool {
    line_role(lines[open + 1]) is JjSection && has_later_side(all_sections(lines, open, close))
}

/// The conflict that line `open` opens and line `close` closes.
pub open spec fn region_between(lines: Seq<Seq<char>>, open: int, close: int) -> RegionView {
    RegionView {
        start: line_start(lines, open),
        sections: if leaves_out_opening(lines, open, close) {
            all_sections(lines, open, close).drop_first()
        } else {
            all_sections(lines, open, close)
        },
        end: line_start(lines, close + 1),
    }
}

/// The line that opened the conflict that is open just before line `k`. An
/// opening line inside an open conflict starts the conflict anew.
pub open spec fn open_before(lines: Seq<Seq<char>>, k: int) -> Option<int>
    decreases k,
{
    if k <= 0 {
        None
    } else {
        match line_role(lines[k - 1]) {
            LineRole::Open => Some(k - 1),
            LineRole::Close => None,
            _ => open_before(lines, k - 1),
        }
    }
}

/// The conflicts that are closed before line `k`.
pub open spec fn regions_before(lines: Seq<Seq<char>>, k: int) -> Seq<RegionView>
    decreases k,
{
    if k <= 0 {
        Seq::empty()
    } else {
        let earlier = regions_before(lines, k - 1);
        match (line_role(lines[k - 1]), open_before(lines, k - 1)) {
            (LineRole::Close, Some(open)) => earlier.push(region_between(lines, open, k - 1)),
            _ => earlier,
        }
    }
}

/// The conflicts of a text, in document order.
pub open spec fn conflicts(text: Seq<char>) -> Seq<RegionView> {
    regions_before(lines(text), lines(text).len() as int)
}

// ── Parser ───────────────────────────────────────────────────────────────────

/// Decides whether a line is the marker made of `mark`.
fn check_marker(line: &Vec<char>, mark: char) -> (found: bool)
    ensures
        found == is_marker(line@, mark),
{
    if line.len() < 7 {
        return false;
    }
    let mut i: usize = 0;
    while i < 7
        invariant
            line.len() >= 7,
            i <= 7,
            forall|j: int| 0 <= j < i ==> #[trigger] line@[j] == mark,
        decreases 7 - i,
    {
        if line[i] != mark {
            return false;
        }
        i += 1;
    }
    line.len() == 7 || line[7] == ' ' || line[7] == '\r' || line[7] == '\n'
}

/// Determines the role of a line.
pub fn role_of_line(line: &Vec<char>) -> (role: LineRole)
    ensures
        role == line_role(line@),
{
    if check_marker(line, '<') {
        LineRole::Open
    } else if check_marker(line, '>') {
        LineRole::Close
    } else if check_marker(line, '|') {
        LineRole::Section(SectionKind::Base)
    } else if check_marker(line, '=') {
        LineRole::Section(SectionKind::Side)
    } else if check_marker(line, '+') {
        LineRole::JjSection(SectionKind::Side)
    } else if check_marker(line, '-') {
        LineRole::JjSection(SectionKind::Base)
    } else if check_marker(line, '%') {
        LineRole::JjSection(SectionKind::Diff)
    } else if check_marker(line, '\\') {
        LineRole::Continuation
    } else {
        LineRole::Text
    }
}

/// A section whose end is not yet known.
struct PartialSection {
    kind: SectionKind,
    marker_start: usize,
    marker_lines: usize,
    content_start: usize,
    /// Whether no line has followed its marker yet.
    fresh: bool,
}

impl PartialSection {
    /// Whether this is the section in progress before line `end`.
    spec fn describes(self, lines: Seq<Seq<char>>, open: int, end: int) -> bool {
        let section = section_ended_at(lines, open, end);
        &&& self.kind == section.kind
        &&& self.marker_start == section.marker_start
        &&& self.marker_lines == section.marker_lines
        &&& self.content_start == section.content_start
        &&& self.fresh == (end == last_marker(lines, open, end) + 1)
    }

    /// Ends the section.
    fn finish(self, content_end: usize) -> (section: Section)
        ensures
            section@ == (SectionView {
                kind: self.kind,
                marker_start: self.marker_start as int,
                marker_lines: self.marker_lines as int,
                content_start: self.content_start as int,
                content_end: content_end as int,
            }),
    {
        Section {
            kind: self.kind,
            marker_start: self.marker_start,
            marker_lines: self.marker_lines,
            content_start: self.content_start,
            content_end,
        }
    }
}

/// How line `k` changes the conflict that line `open` opened.
proof fn lemma_next_line(lines: Seq<Seq<char>>, open: int, k: int)
    requires
        0 <= open < k < lines.len(),
        !(line_role(lines[k]) is Open),
        !(line_role(lines[k]) is Close),
    ensures
        open_before(lines, k + 1) == open_before(lines, k),
        open <= last_marker(lines, open, k) < k,
        ended_sections(lines, open, k).len() == 0 <==> last_marker(lines, open, k) == open,
        last_marker(lines, open, k + 1) == if starts_section(lines[k]) {
            k
        } else {
            last_marker(lines, open, k)
        },
        ended_sections(lines, open, k + 1) == if starts_section(lines[k]) {
            ended_sections(lines, open, k).push(section_ended_at(lines, open, k))
        } else {
            ended_sections(lines, open, k)
        },
{
    lemma_last_marker(lines, open, k);
    lemma_first_section(lines, open, k);
}

/// No section has ended exactly while the one that the opening line starts is in
/// progress; it is a side, and comes first.
pub proof fn lemma_first_section(lines: Seq<Seq<char>>, open: int, end: int)
    requires
        0 <= open < end,
    ensures
        ended_sections(lines, open, end).len() == 0 <==> last_marker(lines, open, end) == open,
        ended_sections(lines, open, end).len() > 0 ==> {
            &&& ended_sections(lines, open, end)[0].kind == SectionKind::Side
            &&& ended_sections(lines, open, end)[0].marker_start == line_start(lines, open)
        },
    decreases end,
{
    if end > open + 1 {
        lemma_first_section(lines, open, end - 1);
        lemma_last_marker(lines, open, end - 1);
    }
}

/// The section in progress starts no earlier than its conflict.
pub proof fn lemma_last_marker(lines: Seq<Seq<char>>, open: int, end: int)
    requires
        0 <= open < end,
    ensures
        open <= last_marker(lines, open, end) < end,
        last_marker(lines, open, end) > open ==> starts_section(
            lines[last_marker(lines, open, end)],
        ),
    decreases end,
{
    if end > open + 1 && !starts_section(lines[end - 1]) {
        lemma_last_marker(lines, open, end - 1);
    }
}

/// The conflict in progress.
struct OpenConflict {
    start: usize,
    sections: Vec<Section>,
    current: PartialSection,
    /// Whether a jj section marker directly follows the opening line.
    marked: bool,
}

impl OpenConflict {
    /// Whether this is the conflict that line `open` opened, before line `end`.
    spec fn describes(self, lines: Seq<Seq<char>>, open: int, end: int) -> bool {
        &&& 0 <= open < end
        &&& self.start == line_start(lines, open)
        &&& section_views(self.sections@) == ended_sections(lines, open, end)
        &&& self.current.describes(lines, open, end)
        &&& self.marked == (open + 1 < end && line_role(lines[open + 1]) is JjSection)
    }

    /// The conflict whose opening line starts at `start` and ends at `next`.
    fn opened(start: usize, next: usize) -> (conflict: OpenConflict)
        ensures
            forall|lines: Seq<Seq<char>>, open: int|
                #![trigger line_start(lines, open)]
                0 <= open && start == line_start(lines, open) && next == line_start(lines, open + 1)
                    ==> conflict.describes(lines, open, open + 1),
    {
        let conflict = OpenConflict {
            start,
            sections: Vec::new(),
            current: PartialSection {
                kind: SectionKind::Side,
                marker_start: start,
                marker_lines: 1,
                content_start: next,
                fresh: true,
            },
            marked: false,
        };
        assert(section_views(conflict.sections@) =~= Seq::<SectionView>::empty());
        conflict
    }

    /// Ends the section in progress at `end`, and hands out all sections.
    fn ended(self, end: usize) -> (sections: Vec<Section>)
        ensures
            forall|lines: Seq<Seq<char>>, open: int, k: int|
                #![trigger self.describes(lines, open, k)]
                self.describes(lines, open, k) && end == line_start(lines, k) ==> section_views(
                    sections@,
                ) == all_sections(lines, open, k),
    {
        let mut sections = self.sections;
        sections.push(self.current.finish(end));
        assert(section_views(sections@) =~= section_views(self.sections@).push(
            sections@.last()@,
        ));
        sections
    }

    /// Closes the conflict with a line that starts at `end` and ends at `next`.
    fn closed(self, end: usize, next: usize) -> (region: ConflictRegion)
        ensures
            forall|lines: Seq<Seq<char>>, open: int, k: int|
                #![trigger self.describes(lines, open, k)]
                self.describes(lines, open, k) && end == line_start(lines, k) && next == line_start(
                    lines,
                    k + 1,
                ) && line_role(lines[k]) is Close ==> region@ == region_between(lines, open, k),
    {
        let start = self.start;
        let marked = self.marked;
        let mut sections = self.ended(end);
        let ghost all = section_views(sections@);
        if marked && check_later_side(&sections) {
            sections.remove(0);
            assert(section_views(sections@) =~= all.drop_first());
        }
        let region = ConflictRegion { start, sections, end: next };
        assert forall|lines: Seq<Seq<char>>, open: int, k: int|
            #![trigger self.describes(lines, open, k)]
            self.describes(lines, open, k) && end == line_start(lines, k) && next == line_start(
                lines,
                k + 1,
            ) && line_role(lines[k]) is Close implies region@ == region_between(lines, open, k) by {
            assert(all == all_sections(lines, open, k));
            assert(region@ =~= region_between(lines, open, k));
        }
        region
    }
}

/// Decides whether a section after the first is a side.
fn check_later_side(sections: &Vec<Section>) -> (found: bool)
    ensures
        found == has_later_side(section_views(sections@)),
{
    let ghost all = section_views(sections@);
    let mut i: usize = 1;
    while i < sections.len()
        invariant
            1 <= i,
            all == section_views(sections@),
            forall|j: int| 0 < j < i && j < all.len() ==> (#[trigger] all[j]).kind
                != SectionKind::Side,
        decreases sections@.len() - i,
    {
        assert(all[i as int] == sections@[i as int]@);
        if sections[i].kind == SectionKind::Side {
            return true;
        }
        i += 1;
    }
    false
}

/// A section found in a document is well-formed.
proof fn lemma_section_between(lines: Seq<Seq<char>>, open: int, marker: int, end: int)
    requires
        0 <= open <= marker < end <= lines.len(),
        lines[marker].len() >= 7,
    ensures
        well_formed_section(section_between(lines, open, marker, end)),
{
    lemma_line_start_monotone(lines, 0, marker);
    lemma_line_start_monotone(lines, marker + 1, end);
    if marker + 2 <= end {
        lemma_line_start_monotone(lines, marker + 2, end);
    }
}

/// The section in progress is well-formed.
proof fn lemma_section_ended_at(lines: Seq<Seq<char>>, open: int, end: int)
    requires
        0 <= open < end <= lines.len(),
        line_role(lines[open]) is Open,
    ensures
        well_formed_section(section_ended_at(lines, open, end)),
        section_ended_at(lines, open, end).marker_start == line_start(
            lines,
            last_marker(lines, open, end),
        ),
        section_ended_at(lines, open, end).content_end == line_start(lines, end),
{
    lemma_last_marker(lines, open, end);
    lemma_section_between(lines, open, last_marker(lines, open, end), end);
}

/// The sections that markers have ended are well-formed and follow each other.
proof fn lemma_ended_sections(lines: Seq<Seq<char>>, open: int, end: int)
    requires
        0 <= open < end <= lines.len(),
        line_role(lines[open]) is Open,
    ensures
        forall|i: int|
            0 <= i < ended_sections(lines, open, end).len() ==> {
                &&& well_formed_section(#[trigger] ended_sections(lines, open, end)[i])
                &&& line_start(lines, open) <= ended_sections(lines, open, end)[i].marker_start
                &&& ended_sections(lines, open, end)[i].content_end <= line_start(
                    lines,
                    last_marker(lines, open, end),
                )
            },
        forall|i: int, j: int|
            0 <= i < j < ended_sections(lines, open, end).len() ==> (#[trigger] ended_sections(
                lines,
                open,
                end,
            )[i]).content_end <= (#[trigger] ended_sections(lines, open, end)[j]).marker_start,
    decreases end,
{
    if end > open + 1 {
        lemma_ended_sections(lines, open, end - 1);
        lemma_section_ended_at(lines, open, end - 1);
        lemma_last_marker(lines, open, end - 1);
        lemma_line_start_monotone(lines, open, last_marker(lines, open, end - 1));
        lemma_line_start_monotone(lines, last_marker(lines, open, end - 1), end - 1);
    }
}

/// Sections that markers have ended follow each other without a gap.
proof fn lemma_ended_contiguous(lines: Seq<Seq<char>>, open: int, end: int)
    requires
        0 <= open < end <= lines.len(),
    ensures
        ({
            let ended = ended_sections(lines, open, end);
            let current = line_start(lines, last_marker(lines, open, end));
            &&& ended.len() > 0 ==> ended.last().content_end == current
            &&& follow_each_other(ended)
        }),
    decreases end,
{
    if end > open + 1 {
        lemma_ended_contiguous(lines, open, end - 1);
        lemma_last_marker(lines, open, end - 1);
    }
}

/// The sections of a conflict follow each other without a gap.
pub proof fn lemma_all_contiguous(lines: Seq<Seq<char>>, open: int, close: int)
    requires
        0 <= open < close <= lines.len(),
    ensures
        follow_each_other(all_sections(lines, open, close)),
{
    lemma_ended_contiguous(lines, open, close);
    lemma_last_marker(lines, open, close);
}

/// A region found in a document is well-formed, and has a side.
pub proof fn lemma_region_between(lines: Seq<Seq<char>>, open: int, close: int)
    requires
        0 <= open < close < lines.len(),
        line_role(lines[open]) is Open,
        line_role(lines[close]) is Close,
    ensures
        well_formed(
            region_between(lines, open, close),
            line_start(lines, lines.len() as int),
        ),
        has_kind(region_between(lines, open, close), SectionKind::Side),
{
    lemma_ended_sections(lines, open, close);
    lemma_section_ended_at(lines, open, close);
    lemma_last_marker(lines, open, close);
    lemma_first_section(lines, open, close);
    lemma_line_start_monotone(lines, 0, open);
    lemma_line_start_monotone(lines, open, last_marker(lines, open, close));
    lemma_line_start_monotone(lines, close + 1, lines.len() as int);
    lemma_all_contiguous(lines, open, close);
    let all = all_sections(lines, open, close);
    let region = region_between(lines, open, close);
    if leaves_out_opening(lines, open, close) {
        assert forall|i: int, j: int|
            0 <= i < region.sections.len() && j == i + 1 && j < region.sections.len() implies (
        #[trigger] region.sections[i]).content_end == (
        #[trigger] region.sections[j]).marker_start by {
            assert(region.sections[i] == all[i + 1]);
            assert(region.sections[j] == all[j + 1]);
        }
        let i = choose|i: int|
            0 < i < all.len() && (#[trigger] all[i]).kind == SectionKind::Side;
        assert(region.sections[i - 1] == all[i]);
        assert(forall|i: int| 0 <= i < region.sections.len() ==> #[trigger] region.sections[i]
            == all[i + 1]);
    } else {
        assert(region.sections[0].kind == SectionKind::Side);
    }
}

/// The open conflict has been open since its `<<<<<<<` line.
pub proof fn lemma_open_before(lines: Seq<Seq<char>>, k: int)
    requires
        0 <= k <= lines.len(),
    ensures
        open_before(lines, k) matches Some(open) ==> {
            &&& 0 <= open < k
            &&& line_role(lines[open]) is Open
            &&& forall|j: int|
                open < j < k ==> !(line_role(#[trigger] lines[j]) is Open) && !(line_role(
                    lines[j],
                ) is Close)
        },
    decreases k,
{
    if k > 0 {
        lemma_open_before(lines, k - 1);
    }
}

/// The conflicts found so far are well-formed, have a side each, are in order, and before
/// the open one.
proof fn lemma_regions_before(lines: Seq<Seq<char>>, k: int)
    requires
        0 <= k <= lines.len(),
    ensures
        forall|i: int|
            0 <= i < regions_before(lines, k).len() ==> well_formed(
                #[trigger] regions_before(lines, k)[i],
                line_start(lines, lines.len() as int),
            ) && has_kind(regions_before(lines, k)[i], SectionKind::Side),
        forall|i: int|
            0 <= i < regions_before(lines, k).len() ==> (#[trigger] regions_before(
                lines,
                k,
            )[i]).end <= line_start(
                lines,
                match open_before(lines, k) {
                    Some(open) => open,
                    None => k,
                },
            ),
        in_order(regions_before(lines, k)),
    decreases k,
{
    if k > 0 {
        lemma_regions_before(lines, k - 1);
        lemma_open_before(lines, k - 1);
        lemma_line_start_monotone(lines, k - 1, k);
        if let Some(open) = open_before(lines, k - 1) {
            lemma_line_start_monotone(lines, open, k - 1);
            if line_role(lines[k - 1]) is Close {
                lemma_region_between(lines, open, k - 1);
            }
        }
    }
}

/// The conflicts of a text are well-formed, have a side each, and are in document order.
pub proof fn lemma_conflicts(text: Seq<char>)
    ensures
        forall|i: int|
            0 <= i < conflicts(text).len() ==> well_formed(
                #[trigger] conflicts(text)[i],
                text.len() as int,
            ) && has_kind(conflicts(text)[i], SectionKind::Side),
        in_order(conflicts(text)),
{
    lemma_regions_before(lines(text), lines(text).len() as int);
    lemma_lines_total(text);
}

/// Parses all conflict regions of a document, in document order.
///
/// Understands the two-way and three-way git formats and the jj formats, and
/// also a "bare" conflict: a `<<<<<<<` / `>>>>>>>` pair without any marker in
/// between, as is left when unwanted sections were edited out by hand. A
/// conflict without a closing `>>>>>>>` is silently ignored.
///
/// Every region has a side. In jj format the opening line starts no section of its
/// own, unless no other section is a side.
pub fn find_conflicts(text: &Rope) -> (regions: Vec<ConflictRegion>)
    ensures
        region_views(regions@) == conflicts(rope_chars(*text)),
        in_order(region_views(regions@)),
        forall|i: int|
            0 <= i < regions@.len() ==> {
                &&& well_formed((#[trigger] regions@[i])@, rope_chars(*text).len() as int)
                &&& has_kind(regions@[i]@, SectionKind::Side)
                &&& locatable(regions@[i]@, rope_chars(*text))
            },
{
    let parts = rope_lines(text);
    let total = text.len_chars();
    let ghost lines = lines(rope_chars(*text));
    let mut regions: Vec<ConflictRegion> = Vec::new();
    let mut state: Option<OpenConflict> = None;
    let mut start: usize = 0;
    let mut k: usize = 0;
    proof {
        lemma_lines_total(rope_chars(*text));
    }
    while k < parts.len()
        invariant
            lines == slice_texts(parts@),
            line_start(lines, lines.len() as int) == total,
            k <= parts.len(),
            start == line_start(lines, k as int),
            region_views(regions@) == regions_before(lines, k as int),
            match (state, open_before(lines, k as int)) {
                (Some(conflict), Some(open)) => conflict.describes(lines, open, k as int),
                (None, None) => true,
                _ => false,
            },
        decreases parts.len() - k,
    {
        let line = slice_to_chars(parts[k]);
        assert(line@ == lines[k as int]);
        proof {
            lemma_line_start_monotone(lines, k + 1, lines.len() as int);
        }
        assert(line_start(lines, k + 1) == start + line@.len());
        let next: usize = start + line.len();
        let role = role_of_line(&line);
        let ghost open = open_before(lines, k as int);
        proof {
            if open is Some && !(role is Open) && !(role is Close) {
                lemma_next_line(lines, open->0, k as int);
            }
        }
        match state {
            None => {
                if matches!(role, LineRole::Open) {
                    state = Some(OpenConflict::opened(start, next));
                } else {
                    state = None;
                }
            },
            Some(mut conflict) => {
                match role {
                    LineRole::Open => {
                        state = Some(OpenConflict::opened(start, next));
                    },
                    LineRole::Close => {
                        let ghost before = regions@;
                        let region = conflict.closed(start, next);
                        regions.push(region);
                        assert(region@ == region_between(lines, open->0, k as int));
                        assert(region_views(regions@) =~= region_views(before).push(region@));
                        state = None;
                    },
                    LineRole::Section(kind) => {
                        state = Some(OpenConflict {
                            start: conflict.start,
                            marked: conflict.marked,
                            sections: conflict.ended(start),
                            current: PartialSection {
                                kind,
                                marker_start: start,
                                marker_lines: 1,
                                content_start: next,
                                fresh: true,
                            },
                        });
                    },
                    LineRole::JjSection(kind) => {
                        state = Some(OpenConflict {
                            start: conflict.start,
                            marked: conflict.marked || (conflict.sections.len() == 0
                                && conflict.current.fresh),
                            sections: conflict.ended(start),
                            current: PartialSection {
                                kind,
                                marker_start: start,
                                marker_lines: 1,
                                content_start: next,
                                fresh: true,
                            },
                        });
                    },
                    LineRole::Continuation => {
                        if conflict.current.kind == SectionKind::Diff && conflict.current.fresh {
                            conflict.current.content_start = next;
                            conflict.current.marker_lines = 2;
                        }
                        conflict.current.fresh = false;
                        state = Some(conflict);
                    },
                    LineRole::Text => {
                        conflict.current.fresh = false;
                        state = Some(conflict);
                    },
                }
            },
        }
        assert(match (state, open_before(lines, k + 1)) {
            (Some(conflict), Some(open)) => conflict.describes(lines, open, k + 1),
            (None, None) => true,
            _ => false,
        });
        start = next;
        k += 1;
    }
    proof {
        let chars = rope_chars(*text);
        lemma_conflicts(chars);
        assert forall|i: int| 0 <= i < regions@.len() implies {
            &&& well_formed((#[trigger] regions@[i])@, chars.len() as int)
            &&& has_kind(regions@[i]@, SectionKind::Side)
            &&& locatable(regions@[i]@, chars)
        } by {
            assert(region_views(regions@)[i] == regions@[i]@);
            lemma_locatable(regions@[i]@, chars);
        }
    }
    regions
}

} // verus!
