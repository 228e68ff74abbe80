//! A document is read piece by piece: what is found in the whole is what is found in
//! its parts.

use crate::parse::{
    all_sections, conflicts, ended_sections, has_later_side, last_marker, lemma_last_marker,
    lemma_open_before, line_role, open_before, region_between, regions_before, section_ended_at,
};
use crate::region::{RegionView, SectionKind, SectionView};
use crate::text::{
    lemma_line_start_prefix, lemma_lines_append, lemma_lines_len, lemma_lines_shape,
    lemma_lines_total, line_start, lines,
};
use vstd::prelude::*;

verus! {

/// A section as it stands after `by` more characters.
pub open spec fn moved_section(section: SectionView, by: int) -> SectionView {
    SectionView {
        kind: section.kind,
        marker_start: section.marker_start + by,
        marker_lines: section.marker_lines,
        content_start: section.content_start + by,
        content_end: section.content_end + by,
    }
}

/// A region as it stands after `by` more characters.
pub open spec fn moved_region(region: RegionView, by: int) -> RegionView {
    RegionView {
        start: region.start + by,
        sections: region.sections.map_values(|section: SectionView| moved_section(section, by)),
        end: region.end + by,
    }
}

/// Regions as they stand after `by` more characters.
pub open spec fn moved(regions: Seq<RegionView>, by: int) -> Seq<RegionView> {
    regions.map_values(|region: RegionView| moved_region(region, by))
}

/// Whether the lines of `a` from `lo` up to `hi` are lines of `b`, `n` lines and `by`
/// characters later.
spec fn agree(
    a: Seq<Seq<char>>,
    b: Seq<Seq<char>>,
    n: int,
    by: int,
    lo: int,
    hi: int,
) -> bool {
    &&& 0 <= lo
    &&& 0 <= n
    &&& forall|k: int| lo <= k < hi ==> #[trigger] a[k] == b[n + k]
    &&& forall|k: int| lo <= k <= hi ==> line_start(b, n + k) == #[trigger] line_start(a, k) + by
}

/// A line number `n` lines later.
spec fn later(k: Option<int>, n: int) -> Option<int> {
    match k {
        Some(k) => Some(k + n),
        None => None,
    }
}

proof fn lemma_last_marker_agrees(
    a: Seq<Seq<char>>,
    b: Seq<Seq<char>>,
    n: int,
    by: int,
    lo: int,
    hi: int,
    open: int,
    end: int,
)
    requires
        agree(a, b, n, by, lo, hi),
        lo <= open < end <= hi,
    ensures
        last_marker(b, n + open, n + end) == n + last_marker(a, open, end),
    decreases end,
{
    if end > open + 1 {
        assert(a[end - 1] == b[n + (end - 1)]);
        lemma_last_marker_agrees(a, b, n, by, lo, hi, open, end - 1);
    }
}

proof fn lemma_section_agrees(
    a: Seq<Seq<char>>,
    b: Seq<Seq<char>>,
    n: int,
    by: int,
    lo: int,
    hi: int,
    open: int,
    end: int,
)
    requires
        agree(a, b, n, by, lo, hi),
        lo <= open < end <= hi,
    ensures
        section_ended_at(b, n + open, n + end) == moved_section(
            section_ended_at(a, open, end),
            by,
        ),
{
    let m = last_marker(a, open, end);
    lemma_last_marker(a, open, end);
    lemma_last_marker_agrees(a, b, n, by, lo, hi, open, end);
    assert(a[m] == b[n + m]);
    assert(line_start(b, n + m) == line_start(a, m) + by);
    assert(line_start(b, n + (m + 1)) == line_start(a, m + 1) + by);
    assert(line_start(b, n + end) == line_start(a, end) + by);
    if m + 1 < end {
        assert(a[m + 1] == b[n + (m + 1)]);
        assert(line_start(b, n + (m + 2)) == line_start(a, m + 2) + by);
    }
}

proof fn lemma_ended_agrees(
    a: Seq<Seq<char>>,
    b: Seq<Seq<char>>,
    n: int,
    by: int,
    lo: int,
    hi: int,
    open: int,
    end: int,
)
    requires
        agree(a, b, n, by, lo, hi),
        lo <= open < end <= hi,
    ensures
        ended_sections(b, n + open, n + end) == ended_sections(a, open, end).map_values(
            |section: SectionView| moved_section(section, by),
        ),
    decreases end,
{
    let f = |section: SectionView| moved_section(section, by);
    if end > open + 1 {
        assert(a[end - 1] == b[n + (end - 1)]);
        lemma_ended_agrees(a, b, n, by, lo, hi, open, end - 1);
        lemma_section_agrees(a, b, n, by, lo, hi, open, end - 1);
        let earlier = ended_sections(a, open, end - 1);
        let section = section_ended_at(a, open, end - 1);
        assert(earlier.push(section).map_values(f) =~= earlier.map_values(f).push(f(section)));
    } else {
        assert(Seq::<SectionView>::empty().map_values(f) =~= Seq::<SectionView>::empty());
    }
}

proof fn lemma_region_agrees(
    a: Seq<Seq<char>>,
    b: Seq<Seq<char>>,
    n: int,
    by: int,
    lo: int,
    hi: int,
    open: int,
    close: int,
)
    requires
        agree(a, b, n, by, lo, hi),
        lo <= open < close < hi,
    ensures
        region_between(b, n + open, n + close) == moved_region(
            region_between(a, open, close),
            by,
        ),
{
    let f = |section: SectionView| moved_section(section, by);
    lemma_ended_agrees(a, b, n, by, lo, hi, open, close);
    lemma_section_agrees(a, b, n, by, lo, hi, open, close);
    assert(line_start(b, n + open) == line_start(a, open) + by);
    assert(line_start(b, n + (close + 1)) == line_start(a, close + 1) + by);
    let earlier = ended_sections(a, open, close);
    let section = section_ended_at(a, open, close);
    assert(earlier.push(section).map_values(f) =~= earlier.map_values(f).push(f(section)));
    let all = all_sections(a, open, close);
    let moved_all = all_sections(b, n + open, n + close);
    assert(moved_all == all.map_values(f));
    assert(a[open + 1] == b[n + (open + 1)]);
    assert(has_later_side(moved_all) == has_later_side(all)) by {
        if has_later_side(all) {
            let i = choose|i: int| 0 < i < all.len() && (#[trigger] all[i]).kind == SectionKind::Side;
            assert(moved_all[i].kind == SectionKind::Side);
        }
        if has_later_side(moved_all) {
            let i = choose|i: int|
                0 < i < moved_all.len() && (#[trigger] moved_all[i]).kind == SectionKind::Side;
            assert(all[i].kind == SectionKind::Side);
        }
    }
    assert(all.drop_first().map_values(f) =~= all.map_values(f).drop_first());
}

/// What is found in the first lines depends on them alone.
proof fn lemma_prefix(a: Seq<Seq<char>>, b: Seq<Seq<char>>, k: int)
    requires
        0 <= k <= a.len(),
        agree(a, b, 0, 0, 0, a.len() as int),
    ensures
        open_before(b, k) == open_before(a, k),
        regions_before(b, k) == regions_before(a, k),
    decreases k,
{
    if k > 0 {
        assert(a[k - 1] == b[0 + (k - 1)]);
        lemma_prefix(a, b, k - 1);
        lemma_open_before(a, k - 1);
        if let Some(open) = open_before(a, k - 1) {
            if line_role(a[k - 1]) is Close {
                lemma_region_agrees(a, b, 0, 0, 0, a.len() as int, open, k - 1);
                let region = region_between(a, open, k - 1);
                assert(moved_region(region, 0) =~= region) by {
                    assert(moved_region(region, 0).sections =~= region.sections);
                }
            }
        }
    }
}

/// What is found in later lines, where no conflict is open before them or the first of
/// them opens one.
proof fn lemma_suffix(a: Seq<Seq<char>>, b: Seq<Seq<char>>, n: int, by: int, k: int)
    requires
        0 <= k <= a.len(),
        agree(a, b, n, by, 0, a.len() as int),
        open_before(b, n) is None || (a.len() > 0 && line_role(a[0]) is Open),
    ensures
        k > 0 || open_before(b, n) is None ==> open_before(b, n + k) == later(
            open_before(a, k),
            n,
        ),
        regions_before(b, n + k) == regions_before(b, n) + moved(regions_before(a, k), by),
    decreases k,
{
    if k > 0 {
        assert(a[k - 1] == b[n + (k - 1)]);
        lemma_suffix(a, b, n, by, k - 1);
        lemma_open_before(a, k - 1);
        assert(k == 1 ==> a[0] == b[n + 0]);
        let earlier = regions_before(a, k - 1);
        if let Some(open) = open_before(a, k - 1) {
            if line_role(a[k - 1]) is Close {
                lemma_region_agrees(a, b, n, by, 0, a.len() as int, open, k - 1);
                let region = region_between(a, open, k - 1);
                assert(moved(earlier.push(region), by) =~= moved(earlier, by).push(
                    moved_region(region, by),
                ));
            }
        }
    } else {
        assert(moved(Seq::<RegionView>::empty(), by) =~= Seq::<RegionView>::empty());
    }
    assert(regions_before(b, n + k) =~= regions_before(b, n) + moved(regions_before(a, k), by));
}

/// Lines in a row start where the earlier ones end.
proof fn lemma_line_start_concat(a: Seq<Seq<char>>, b: Seq<Seq<char>>, k: int)
    requires
        0 <= k <= b.len(),
    ensures
        line_start(a + b, a.len() + k) == line_start(a, a.len() as int) + line_start(b, k),
    decreases k,
{
    if k > 0 {
        lemma_line_start_concat(a, b, k - 1);
        assert((a + b)[a.len() + k - 1] == b[k - 1]);
    } else {
        lemma_line_start_prefix(a + b, a, a.len() as int);
    }
}

/// Lines in a row agree with the lines that they are made of.
proof fn lemma_concat_agrees(a: Seq<Seq<char>>, b: Seq<Seq<char>>)
    ensures
        agree(a, a + b, 0, 0, 0, a.len() as int),
        agree(b, a + b, a.len() as int, line_start(a, a.len() as int), 0, b.len() as int),
{
    assert forall|k: int| 0 <= k <= a.len() implies line_start(a + b, 0 + k) == #[trigger] line_start(
        a,
        k,
    ) + 0 by {
        lemma_line_start_prefix(a + b, a, k);
    }
    let n = a.len() as int;
    assert forall|k: int| 0 <= k <= b.len() implies line_start(a + b, n + k)
        == #[trigger] line_start(b, k) + line_start(a, n) by {
        lemma_line_start_concat(a, b, k);
    }
}

/// Whether a text consists of whole lines.
pub open spec fn whole_lines(text: Seq<char>) -> bool {
    text.len() == 0 || text.last() == '\n'
}

/// Whether no conflict is open at the end of a text.
pub open spec fn none_open(text: Seq<char>) -> bool {
    open_before(lines(text), lines(text).len() as int) is None
}

/// The conflicts of a text followed by another are those of the first and those of the
/// second, provided that the first ends with a line and leaves no conflict open, or that
/// the second starts with an opening line.
pub proof fn law_conflicts_of_texts_in_a_row(first: Seq<char>, second: Seq<char>)
    requires
        whole_lines(first),
        none_open(first) || line_role(lines(second)[0]) is Open,
    ensures
        conflicts(first + second) == conflicts(first) + moved(
            conflicts(second),
            first.len() as int,
        ),
        none_open(first + second) == none_open(second),
{
    if first.len() == 0 {
        assert(first + second =~= second);
        let found = conflicts(second);
        assert(lines(first)[0].len() == 0);
        assert(regions_before(lines(first), 0).len() == 0);
        assert(regions_before(lines(first), 1) == regions_before(lines(first), 0));
        assert(conflicts(first) =~= Seq::<RegionView>::empty());
        assert forall|i: int| 0 <= i < found.len() implies #[trigger] moved(found, 0)[i]
            == found[i] by {
            assert(moved_region(found[i], 0).sections =~= found[i].sections);
        }
        assert(conflicts(first) + moved(found, 0) =~= found);
    } else {
        let all = lines(first);
        let n = all.len() - 1;
        let a = all.drop_last();
        let b = lines(second);
        lemma_lines_append(first, second);
        lemma_lines_shape(first);
        lemma_lines_len(first);
        lemma_lines_len(first.drop_last());
        assert(all.last() =~= Seq::<char>::empty());
        lemma_lines_total(first);
        assert(line_start(all, n + 1) == line_start(all, n) + all[n].len());
        lemma_line_start_prefix(a, all, n);
        lemma_concat_agrees(a, b);
        lemma_concat_agrees(a, seq![all.last()]);
        assert(a + seq![all.last()] =~= all);
        lemma_prefix(a, all, n);
        lemma_prefix(a, a + b, n);
        assert(!(line_role(all[n]) is Close) && !(line_role(all[n]) is Open));
        assert(regions_before(all, n + 1) == regions_before(all, n));
        lemma_lines_shape(second);
        lemma_suffix(b, a + b, n, first.len() as int, b.len() as int);
    }
}

} // verus!
