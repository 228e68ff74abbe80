//! Where a position stands: in which conflict, in which section, on which
//! marker line.

use crate::region::{
    lemma_sections_inside, well_formed, well_formed_section, ConflictRegion, RegionView, Section,
    SectionView,
};
use crate::text::{lemma_breaks_bound, lemma_line_of_in_lines, line_end, line_of, rope_chars};
use ropey::Rope;
use vstd::prelude::*;

verus! {

// ── Conflicts ────────────────────────────────────────────────────────────────

/// Whether a position is inside a region.
pub open spec fn holds(region: RegionView, pos: int) -> bool {
    region.start <= pos < region.end
}

/// Whether conflict `i` is the first that contains a position.
pub open spec fn is_at(conflicts: Seq<ConflictRegion>, pos: int, i: int) -> bool {
    &&& 0 <= i < conflicts.len()
    &&& holds(conflicts[i]@, pos)
    &&& forall|j: int| 0 <= j < i ==> !holds((#[trigger] conflicts[j])@, pos)
}

/// Whether conflict `i` is the first that starts after a position.
pub open spec fn is_next(conflicts: Seq<ConflictRegion>, pos: int, i: int) -> bool {
    &&& 0 <= i < conflicts.len()
    &&& conflicts[i]@.start > pos
    &&& forall|j: int| 0 <= j < i ==> (#[trigger] conflicts[j])@.start <= pos
}

/// Whether conflict `i` is the last that starts before a position.
pub open spec fn is_prev(conflicts: Seq<ConflictRegion>, pos: int, i: int) -> bool {
    &&& 0 <= i < conflicts.len()
    &&& conflicts[i]@.start < pos
    &&& forall|j: int| i < j < conflicts.len() ==> (#[trigger] conflicts[j])@.start >= pos
}

/// Returns the index of the first conflict that contains `char_pos`, or `None`
/// if the position is not inside any conflict region.
pub fn conflict_at(conflicts: &[ConflictRegion], char_pos: usize) -> (found: Option<usize>)
    ensures
        match found {
            Some(i) => is_at(conflicts@, char_pos as int, i as int),
            None => forall|j: int|
                0 <= j < conflicts@.len() ==> !holds((#[trigger] conflicts@[j])@, char_pos as int),
        },
{
    let mut i: usize = 0;
    while i < conflicts.len()
        invariant
            i <= conflicts@.len(),
            forall|j: int| 0 <= j < i ==> !holds((#[trigger] conflicts@[j])@, char_pos as int),
        decreases conflicts@.len() - i,
    {
        if char_pos >= conflicts[i].start && char_pos < conflicts[i].end {
            return Some(i);
        }
        i += 1;
    }
    None
}

/// Returns the index of the next conflict after `char_pos` (exclusive): the first
/// that starts later.
pub fn next_conflict(conflicts: &[ConflictRegion], char_pos: usize) -> (found: Option<usize>)
    ensures
        match found {
            Some(i) => is_next(conflicts@, char_pos as int, i as int),
            None => forall|j: int|
                0 <= j < conflicts@.len() ==> (#[trigger] conflicts@[j])@.start <= char_pos,
        },
{
    let mut i: usize = 0;
    while i < conflicts.len()
        invariant
            i <= conflicts@.len(),
            forall|j: int| 0 <= j < i ==> (#[trigger] conflicts@[j])@.start <= char_pos,
        decreases conflicts@.len() - i,
    {
        if conflicts[i].start > char_pos {
            return Some(i);
        }
        i += 1;
    }
    None
}

/// Returns the index of the previous conflict before `char_pos` (exclusive): the
/// last that starts earlier.
pub fn prev_conflict(conflicts: &[ConflictRegion], char_pos: usize) -> (found: Option<usize>)
    ensures
        match found {
            Some(i) => is_prev(conflicts@, char_pos as int, i as int),
            None => forall|j: int|
                0 <= j < conflicts@.len() ==> (#[trigger] conflicts@[j])@.start >= char_pos,
        },
{
    let mut i: usize = conflicts.len();
    while i > 0
        invariant
            i <= conflicts@.len(),
            forall|j: int|
                i <= j < conflicts@.len() ==> (#[trigger] conflicts@[j])@.start >= char_pos,
        decreases i,
    {
        i -= 1;
        if conflicts[i].start < char_pos {
            return Some(i);
        }
    }
    None
}

/// Where a conflict of a list holds a position, the one that is found for the position
/// holds it too, and is no later.
pub proof fn law_first_that_holds_a_position(conflicts: Seq<ConflictRegion>, pos: int, j: int)
    requires
        0 <= j < conflicts.len(),
        conflicts[j].start <= pos < conflicts[j].end,
    ensures
        exists|i: int| #[trigger] is_at(conflicts, pos, i),
        forall|i: int| #[trigger]
            is_at(conflicts, pos, i) ==> 0 <= i <= j && conflicts[i].start <= pos
                < conflicts[i].end,
    decreases j,
{
    if exists|k: int| 0 <= k < j && holds((#[trigger] conflicts[k])@, pos) {
        let k = choose|k: int| 0 <= k < j && holds((#[trigger] conflicts[k])@, pos);
        law_first_that_holds_a_position(conflicts, pos, k);
    } else {
        assert(is_at(conflicts, pos, j));
    }
    assert forall|i: int| #[trigger] is_at(conflicts, pos, i) implies 0 <= i <= j
        && conflicts[i].start <= pos < conflicts[i].end by {
        if j < i {
            assert(!holds(conflicts[j]@, pos));
        }
    }
}

/// Where a conflict of a list starts after a position, the next one that is found does so
/// too, and is no later in the list.
pub proof fn law_first_that_starts_later(conflicts: Seq<ConflictRegion>, pos: int, j: int)
    requires
        0 <= j < conflicts.len(),
        conflicts[j].start > pos,
    ensures
        exists|i: int| #[trigger] is_next(conflicts, pos, i),
        forall|i: int| #[trigger]
            is_next(conflicts, pos, i) ==> 0 <= i <= j && conflicts[i].start > pos,
    decreases j,
{
    if exists|k: int| 0 <= k < j && (#[trigger] conflicts[k])@.start > pos {
        let k = choose|k: int| 0 <= k < j && (#[trigger] conflicts[k])@.start > pos;
        law_first_that_starts_later(conflicts, pos, k);
    } else {
        assert(is_next(conflicts, pos, j));
    }
    assert forall|i: int| #[trigger] is_next(conflicts, pos, i) implies 0 <= i <= j
        && conflicts[i].start > pos by {
        if j < i {
            assert(conflicts[j]@.start <= pos);
        }
    }
}

/// Where a conflict of a list starts before a position, the previous one that is found does
/// so too, and is no earlier in the list.
pub proof fn law_last_that_starts_earlier(conflicts: Seq<ConflictRegion>, pos: int, j: int)
    requires
        0 <= j < conflicts.len(),
        conflicts[j].start < pos,
    ensures
        exists|i: int| #[trigger] is_prev(conflicts, pos, i),
        forall|i: int| #[trigger]
            is_prev(conflicts, pos, i) ==> j <= i < conflicts.len() && conflicts[i].start < pos,
    decreases conflicts.len() - j,
{
    if exists|k: int| j < k < conflicts.len() && (#[trigger] conflicts[k])@.start < pos {
        let k = choose|k: int| j < k < conflicts.len() && (#[trigger] conflicts[k])@.start < pos;
        law_last_that_starts_earlier(conflicts, pos, k);
    } else {
        assert(is_prev(conflicts, pos, j));
    }
    assert forall|i: int| #[trigger] is_prev(conflicts, pos, i) implies j <= i < conflicts.len()
        && conflicts[i].start < pos by {
        if i < j {
            assert(conflicts[j]@.start >= pos);
        }
    }
}

// ── Sections ─────────────────────────────────────────────────────────────────

/// Whether a position is within reach of section `i`: from its marker (for the
/// first section, from the `<<<<<<<` line) up to the next section or, for the
/// last section, up to the end of the region.
pub open spec fn reaches(region: RegionView, i: int, pos: int) -> bool {
    let start = if i == 0 {
        region.start
    } else {
        region.sections[i].marker_start
    };
    let end = if i == region.sections.len() - 1 {
        region.end
    } else {
        region.sections[i + 1].marker_start
    };
    start <= pos < end
}

/// Whether the marker of a section is a `=======` separator.
pub open spec fn is_separated(section: SectionView, text: Seq<char>) -> bool {
    0 <= section.marker_start < text.len() && text[section.marker_start] == '='
}

/// Whether a position is on the separator line that starts a section.
pub open spec fn on_separator_of(section: SectionView, text: Seq<char>, pos: int) -> bool {
    is_separated(section, text) && section.marker_start <= pos < line_end(
        text,
        section.marker_start,
    )
}

/// Whether a position is on a separator line of a region.
pub open spec fn on_separator(region: RegionView, text: Seq<char>, pos: int) -> bool {
    exists|i: int|
        0 <= i < region.sections.len() && #[trigger] reaches(region, i, pos) && on_separator_of(
            region.sections[i],
            text,
            pos,
        )
}

/// Whether a position belongs to section `i`. A separator line belongs to none.
pub open spec fn in_section(region: RegionView, text: Seq<char>, i: int, pos: int) -> bool {
    reaches(region, i, pos) && !on_separator_of(region.sections[i], text, pos)
}

/// Returns the exclusive end of the `=======` line that starts a section, and `None` for
/// a section with another marker.
fn git_sep_line_end(section: &Section, text: &Rope) -> (end: Option<usize>)
    ensures
        end is Some <==> is_separated(section@, rope_chars(*text)),
        end matches Some(pos) ==> pos == line_end(rope_chars(*text), section@.marker_start),
{
    let marker = section.marker_start;
    if marker < text.len_chars() && text.char(marker) == '=' {
        let line = text.char_to_line(marker);
        proof {
            lemma_line_of_in_lines(rope_chars(*text), marker as int);
            lemma_breaks_bound(rope_chars(*text).take(marker as int));
        }
        Some(text.line_to_char(line + 1))
    } else {
        None
    }
}

/// Returns the index of the section of `region` that `char_pos` is in, or `None`
/// if it is on a `=======` line of the git formats or outside `region`.
///
/// Marker lines belong to their own section: the `<<<<<<<` line to the first,
/// the `>>>>>>>` line to the last. Only a `=======` separator belongs to neither
/// side.
pub fn conflict_section_at(region: &ConflictRegion, text: &Rope, char_pos: usize) -> (found: Option<
    usize,
>)
    requires
        region@.sections.len() > 0 ==> region@.sections.last().marker_start < rope_chars(
            *text,
        ).len(),
    ensures
        match found {
            Some(i) => {
                &&& i < region@.sections.len()
                &&& in_section(region@, rope_chars(*text), i as int, char_pos as int)
                &&& forall|j: int|
                    0 <= j < i ==> !#[trigger] in_section(
                        region@,
                        rope_chars(*text),
                        j,
                        char_pos as int,
                    )
            },
            None => forall|j: int|
                0 <= j < region@.sections.len() ==> !#[trigger] in_section(
                    region@,
                    rope_chars(*text),
                    j,
                    char_pos as int,
                ),
        },
{
    let n = region.sections.len();
    let mut i: usize = 0;
    while i < n
        invariant
            n == region.sections@.len(),
            i <= n,
            forall|j: int|
                0 <= j < i ==> !#[trigger] in_section(
                    region@,
                    rope_chars(*text),
                    j,
                    char_pos as int,
                ),
        decreases n - i,
    {
        let section = &region.sections[i];
        assert(region@.sections[i as int] == section@);
        let start = if i == 0 {
            region.start
        } else {
            section.marker_start
        };
        let end = if i == n - 1 {
            region.end
        } else {
            region.sections[i + 1].marker_start
        };
        if char_pos >= start && char_pos < end {
            let separated = match git_sep_line_end(section, text) {
                Some(separator_end) => char_pos >= section.marker_start && char_pos
                    < separator_end,
                None => false,
            };
            if !separated {
                return Some(i);
            }
        }
        i += 1;
    }
    None
}

// ── Marker lines ─────────────────────────────────────────────────────────────

/// The lines that a section's markers take up.
pub open spec fn section_marker_lines(section: SectionView, text: Seq<char>) -> Set<int> {
    let first = line_of(text, section.marker_start);
    Set::new(|line: int| first <= line < first + section.marker_lines)
}

/// The last position of a region, which is on its closing line.
pub open spec fn last_position(region: RegionView) -> int {
    if region.end > 0 {
        region.end - 1
    } else {
        0
    }
}

/// The marker lines of a region: the opening one, those of its sections, and the
/// closing one.
pub open spec fn region_marker_lines(region: RegionView, text: Seq<char>) -> Set<int> {
    Set::new(
        |line: int|
            {
                ||| line == line_of(text, region.start)
                ||| line == line_of(text, last_position(region))
                ||| exists|i: int|
                    0 <= i < region.sections.len() && #[trigger] section_marker_lines(
                        region.sections[i],
                        text,
                    ).contains(line)
            },
    )
}

/// The marker lines of all regions.
pub open spec fn marker_lines(regions: Seq<ConflictRegion>, text: Seq<char>) -> Set<int> {
    Set::new(
        |line: int|
            exists|i: int|
                0 <= i < regions.len() && #[trigger] region_marker_lines(
                    regions[i]@,
                    text,
                ).contains(line),
    )
}

/// Whether every marker line of a region can be computed: positions are inside the
/// text, and line numbers fit.
pub open spec fn locatable(region: RegionView, text: Seq<char>) -> bool {
    &&& region.start <= text.len()
    &&& last_position(region) <= text.len()
    &&& forall|i: int|
        0 <= i < region.sections.len() ==> {
            &&& (#[trigger] region.sections[i]).marker_start <= text.len()
            &&& line_of(text, region.sections[i].marker_start) + region.sections[i].marker_lines
                <= usize::MAX
        }
}

/// The marker lines of a well-formed region can be computed.
pub proof fn lemma_locatable(region: RegionView, text: Seq<char>)
    requires
        well_formed(region, text.len() as int),
        text.len() <= usize::MAX,
    ensures
        locatable(region, text),
{
    lemma_sections_inside(region, text.len() as int, 0);
    assert forall|i: int| 0 <= i < region.sections.len() implies {
        &&& (#[trigger] region.sections[i]).marker_start <= text.len()
        &&& line_of(text, region.sections[i].marker_start) + region.sections[i].marker_lines
            <= usize::MAX
    } by {
        lemma_sections_inside(region, text.len() as int, i);
        assert(well_formed_section(region.sections[i]));
        lemma_breaks_bound(text.take(region.sections[i].marker_start));
    }
}

/// Whether numbers are in strictly ascending order.
pub open spec fn ascending(numbers: Seq<usize>) -> bool {
    forall|i: int, j: int| 0 <= i < j < numbers.len() ==> numbers[i] < numbers[j]
}

/// Adds a number to an ascending list that may already hold it.
fn insert_ascending(numbers: &mut Vec<usize>, number: usize)
    requires
        ascending(old(numbers)@),
    ensures
        ascending(final(numbers)@),
        forall|n: usize|
            #[trigger] final(numbers)@.contains(n) <==> old(numbers)@.contains(n) || n == number,
{
    let ghost before = numbers@;
    let mut at: usize = numbers.len();
    while at > 0 && numbers[at - 1] > number
        invariant
            at <= numbers@.len(),
            numbers@ == before,
            forall|i: int| at <= i < numbers@.len() ==> numbers@[i] > number,
        decreases at,
    {
        at -= 1;
    }
    if at > 0 && numbers[at - 1] == number {
        assert(before.contains(number));
        return ;
    }
    numbers.insert(at, number);
    proof {
        assert(numbers@ == before.insert(at as int, number));
        assert forall|n: usize| #[trigger]
            numbers@.contains(n) <==> before.contains(n) || n == number by {
            if before.contains(n) {
                let i = choose|i: int| 0 <= i < before.len() && before[i] == n;
                if i < at {
                    assert(numbers@[i] == n);
                } else {
                    assert(numbers@[i + 1] == n);
                }
            }
            if n == number {
                assert(numbers@[at as int] == n);
            }
            if numbers@.contains(n) {
                let i = choose|i: int| 0 <= i < numbers@.len() && numbers@[i] == n;
                if i < at {
                    assert(before[i] == n);
                } else if i > at {
                    assert(before[i - 1] == n);
                }
            }
        }
    }
}

/// Adds the lines that a section's markers take up.
fn insert_section_lines(numbers: &mut Vec<usize>, section: &Section, text: &Rope)
    requires
        ascending(old(numbers)@),
        section@.marker_start <= rope_chars(*text).len(),
        line_of(rope_chars(*text), section@.marker_start) + section@.marker_lines <= usize::MAX,
    ensures
        ascending(final(numbers)@),
        forall|n: usize|
            #[trigger] final(numbers)@.contains(n) <==> old(numbers)@.contains(n)
                || section_marker_lines(section@, rope_chars(*text)).contains(n as int),
{
    let first = text.char_to_line(section.marker_start);
    let mut i: usize = 0;
    while i < section.marker_lines
        invariant
            ascending(numbers@),
            i <= section.marker_lines,
            first + section.marker_lines <= usize::MAX,
            forall|n: usize|
                #[trigger] numbers@.contains(n) <==> old(numbers)@.contains(n) || first <= n < first
                    + i,
        decreases section.marker_lines - i,
    {
        insert_ascending(numbers, first + i);
        i += 1;
    }
}

/// Adds the marker lines of a region.
fn insert_region_lines(numbers: &mut Vec<usize>, region: &ConflictRegion, text: &Rope)
    requires
        ascending(old(numbers)@),
        locatable(region@, rope_chars(*text)),
    ensures
        ascending(final(numbers)@),
        forall|n: usize|
            #[trigger] final(numbers)@.contains(n) <==> old(numbers)@.contains(n)
                || region_marker_lines(region@, rope_chars(*text)).contains(n as int),
{
    let ghost chars = rope_chars(*text);
    insert_ascending(numbers, text.char_to_line(region.start));
    let mut i: usize = 0;
    while i < region.sections.len()
        invariant
            ascending(numbers@),
            locatable(region@, chars),
            chars == rope_chars(*text),
            i <= region.sections@.len(),
            forall|n: usize|
                #[trigger] numbers@.contains(n) <==> {
                    ||| old(numbers)@.contains(n)
                    ||| n == line_of(chars, region.start as int)
                    ||| exists|j: int|
                        0 <= j < i && #[trigger] section_marker_lines(
                            region@.sections[j],
                            chars,
                        ).contains(n as int)
                },
        decreases region.sections@.len() - i,
    {
        let section = &region.sections[i];
        assert(region@.sections[i as int] == section@);
        let ghost before = numbers@;
        insert_section_lines(numbers, section, text);
        assert forall|n: usize| #[trigger] numbers@.contains(n) <==> {
            ||| old(numbers)@.contains(n)
            ||| n == line_of(chars, region.start as int)
            ||| exists|j: int|
                0 <= j < i + 1 && #[trigger] section_marker_lines(
                    region@.sections[j],
                    chars,
                ).contains(n as int)
        } by {
            assert(numbers@.contains(n) <==> before.contains(n) || section_marker_lines(
                region@.sections[i as int],
                chars,
            ).contains(n as int));
        }
        i += 1;
    }
    let last = if region.end > 0 {
        region.end - 1
    } else {
        0
    };
    insert_ascending(numbers, text.char_to_line(last));
}

/// Returns the document line numbers of every conflict marker line: the opening
/// `<<<<<<<`, every section marker and the closing `>>>>>>>`, in ascending order
/// and without duplicates.
pub fn conflict_marker_lines(conflicts: &[ConflictRegion], text: &Rope) -> (numbers: Vec<usize>)
    requires
        forall|i: int|
            0 <= i < conflicts@.len() ==> locatable(#[trigger] conflicts@[i]@, rope_chars(*text)),
    ensures
        ascending(numbers@),
        forall|n: usize|
            #[trigger] numbers@.contains(n) <==> marker_lines(
                conflicts@,
                rope_chars(*text),
            ).contains(n as int),
{
    let ghost chars = rope_chars(*text);
    let mut numbers: Vec<usize> = Vec::new();
    let mut i: usize = 0;
    while i < conflicts.len()
        invariant
            ascending(numbers@),
            chars == rope_chars(*text),
            forall|j: int|
                0 <= j < conflicts@.len() ==> locatable(#[trigger] conflicts@[j]@, chars),
            i <= conflicts@.len(),
            forall|n: usize|
                #[trigger] numbers@.contains(n) <==> exists|j: int|
                    0 <= j < i && #[trigger] region_marker_lines(conflicts@[j]@, chars).contains(
                        n as int,
                    ),
        decreases conflicts@.len() - i,
    {
        let ghost before = numbers@;
        insert_region_lines(&mut numbers, &conflicts[i], text);
        assert forall|n: usize| #[trigger] numbers@.contains(n) <==> exists|j: int|
            0 <= j < i + 1 && #[trigger] region_marker_lines(conflicts@[j]@, chars).contains(
                n as int,
            ) by {
            assert(numbers@.contains(n) <==> before.contains(n) || region_marker_lines(
                conflicts@[i as int]@,
                chars,
            ).contains(n as int));
        }
        i += 1;
    }
    numbers
}

} // verus!
