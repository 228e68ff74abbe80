//! Conflict regions and their sections.

use vstd::prelude::*;

verus! {

/// Whether a section holds one side of a conflict, a common base, or a
/// jj unified-diff side.
#[derive(Debug, Clone, Copy, PartialEq, Eq, Structural)]
pub enum SectionKind {
    /// A `+++++++` side (jj format) or the current/incoming sides (git format).
    Side,
    /// A `-------` base (jj format) or the `|||||||` base (git diff3 format).
    Base,
    /// A `%%%%%%%` diff side (jj format): a unified diff against the merge base.
    Diff,
}

/// One section within a conflict region. All positions are character indices.
#[derive(Debug, Clone, PartialEq, Eq, Structural)]
pub struct Section {
    pub kind: SectionKind,
    /// Where the section's first marker line starts.
    pub marker_start: usize,
    /// How many marker lines the section has: two for a `Diff` section that is
    /// continued by a `\\\\\\\` line, one otherwise.
    pub marker_lines: usize,
    /// Where the content starts: just past the last marker line.
    pub content_start: usize,
    /// Where the content ends, exclusive: where the next section's marker starts or, for
    /// the last section, where the `>>>>>>>` line does.
    pub content_end: usize,
}

/// A single merge conflict found in a document. All positions are character
/// indices into the document.
#[derive(Debug, Clone, PartialEq, Eq)]
pub struct ConflictRegion {
    /// Where the `<<<<<<<` line starts.
    pub start: usize,
    /// The sections, in document order. A region found in a document has at least one
    /// `Side`.
    pub sections: Vec<Section>,
    /// The position just past the `>>>>>>>` line.
    pub end: usize,
}

/// What a [`Section`] stands for.
pub struct SectionView {
    pub kind: SectionKind,
    pub marker_start: int,
    pub marker_lines: int,
    pub content_start: int,
    pub content_end: int,
}

/// What a [`ConflictRegion`] stands for.
#[verifier::ext_equal]
pub struct RegionView {
    pub start: int,
    pub sections: Seq<SectionView>,
    pub end: int,
}

impl View for Section {
    type V = SectionView;

    open spec fn view(&self) -> SectionView {
        SectionView {
            kind: self.kind,
            marker_start: self.marker_start as int,
            marker_lines: self.marker_lines as int,
            content_start: self.content_start as int,
            content_end: self.content_end as int,
        }
    }
}

/// What a list of sections stands for.
pub open spec fn section_views(sections: Seq<Section>) -> Seq<SectionView> {
    sections.map_values(|section: Section| section@)
}

impl View for ConflictRegion {
    type V = RegionView;

    open spec fn view(&self) -> RegionView {
        RegionView {
            start: self.start as int,
            sections: section_views(self.sections@),
            end: self.end as int,
        }
    }
}

/// What a list of regions stands for.
pub open spec fn region_views(regions: Seq<ConflictRegion>) -> Seq<RegionView> {
    regions.map_values(|region: ConflictRegion| region@)
}

// ── Well-formedness ──────────────────────────────────────────────────────────

/// Whether a section is laid out as one found in a document: its marker, of at
/// least seven characters, precedes its content.
pub open spec fn well_formed_section(section: SectionView) -> bool {
    &&& 0 <= section.marker_start
    &&& section.marker_start + 7 <= section.content_start <= section.content_end
    &&& section.marker_lines == 1 || (section.marker_lines == 2 && section.kind
        == SectionKind::Diff)
}

/// Whether each section ends where the next starts.
pub open spec fn follow_each_other(sections: Seq<SectionView>) -> bool {
    forall|i: int, j: int|
        0 <= i < sections.len() && j == i + 1 && j < sections.len() ==> (
        #[trigger] sections[i]).content_end == (#[trigger] sections[j]).marker_start
}

/// Whether a region is laid out as one found in a document of `length` characters:
/// it has a section, its sections follow each other without a gap, and the closing
/// marker, of at least seven characters, follows the last.
pub open spec fn well_formed(region: RegionView, length: int) -> bool {
    &&& region.sections.len() > 0
    &&& 0 <= region.start <= region.sections[0].marker_start
    &&& forall|i: int|
        0 <= i < region.sections.len() ==> well_formed_section(#[trigger] region.sections[i])
    &&& forall|i: int, j: int|
        0 <= i < j < region.sections.len() ==> (#[trigger] region.sections[i]).content_end <= (
        #[trigger] region.sections[j]).marker_start
    &&& follow_each_other(region.sections)
    &&& region.sections.last().content_end + 7 <= region.end <= length
}

/// Whether regions are in document order and do not overlap.
pub open spec fn in_order(regions: Seq<RegionView>) -> bool {
    forall|i: int, j: int|
        0 <= i < j < regions.len() ==> (#[trigger] regions[i]).end <= (#[trigger] regions[j]).start
}

/// Every section of a well-formed region is inside the region.
pub proof fn lemma_sections_inside(region: RegionView, length: int, i: int)
    requires
        well_formed(region, length),
        0 <= i < region.sections.len(),
    ensures
        region.start <= region.sections[i].marker_start,
        region.sections[i].content_end + 7 <= region.end,
{
    let last = region.sections.len() - 1;
    assert(well_formed_section(region.sections[0]));
    assert(well_formed_section(region.sections[i]));
    assert(well_formed_section(region.sections[last]));
}

} // verus!
