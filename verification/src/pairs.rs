//! Which two sections of a conflict are compared with each other.

use crate::content::{has_kind, is_content};
use crate::region::{ConflictRegion, RegionView, SectionKind, SectionView};
use std::collections::HashMap;
use std::ops::Range;
use vstd::prelude::*;

verus! {

// ── Refine state ─────────────────────────────────────────────────────────────

/// Removed and added ranges of the comparison of two sections.
pub type RefineDiffs = (Vec<Range<usize>>, Vec<Range<usize>>);

/// What is cached of the word-level comparison within one conflict.
#[derive(Debug, Clone)]
pub struct ConflictRefineEntry {
    /// The current refine pair (see [`ConflictRegion::refine_pair_indices`]), or
    /// the number of pairs to show no word-level highlights.
    pub pair: usize,
    /// Whether all adjacent (Side, Base) pairs are shown at once, as they are
    /// before a single pair is chosen.
    pub show_base_pairs: bool,
    /// The removed and added ranges of the current pair, once computed.
    pub diffs: Option<RefineDiffs>,
    /// For each section, the ranges of words added against the resolved base of a
    /// `Diff` section, once computed.
    pub side_added: Option<Vec<Vec<Range<usize>>>>,
}

impl Default for ConflictRefineEntry {
    fn default() -> (entry: Self)
        ensures
            entry.pair == 0,
            entry.show_base_pairs,
            entry.diffs is None,
            entry.side_added is None,
    {
        ConflictRefineEntry { pair: 0, show_base_pairs: true, diffs: None, side_added: None }
    }
}

/// The refine state of each conflict, keyed by [`ConflictRegion::start`].
pub type ConflictCache = HashMap<usize, ConflictRefineEntry>;

// ── Refine pairs ─────────────────────────────────────────────────────────────

/// The indices below `n` of the sections that are no base, in order.
pub open spec fn non_base(sections: Seq<SectionView>, n: int) -> Seq<int>
    decreases n,
{
    if n <= 0 {
        Seq::empty()
    } else if sections[n - 1].kind != SectionKind::Base {
        non_base(sections, n - 1).push(n - 1)
    } else {
        non_base(sections, n - 1)
    }
}

/// The last index below `n` of a base section.
pub open spec fn last_base(sections: Seq<SectionView>, n: int) -> Option<int>
    decreases n,
{
    if n <= 0 {
        None
    } else if sections[n - 1].kind == SectionKind::Base {
        Some(n - 1)
    } else {
        last_base(sections, n - 1)
    }
}

/// The pair of the last base and the last section, where that is a side.
pub open spec fn base_side_pairs(sections: Seq<SectionView>) -> Seq<(int, int)> {
    let n = sections.len() as int;
    if n > 0 && sections[n - 1].kind == SectionKind::Side {
        match last_base(sections, n) {
            Some(base) => seq![(base, n - 1)],
            None => Seq::empty(),
        }
    } else {
        Seq::empty()
    }
}

/// Element `a` paired with each later element.
pub open spec fn row(elements: Seq<int>, a: int) -> Seq<(int, int)> {
    Seq::new(
        (elements.len() - 1 - a) as nat,
        |k: int| (elements[a], elements[a + 1 + k]),
    )
}

/// Each of the first `a` elements paired with each element after it.
pub open spec fn rows(elements: Seq<int>, a: int) -> Seq<(int, int)>
    decreases a,
{
    if a <= 0 {
        Seq::empty()
    } else {
        rows(elements, a - 1) + row(elements, a - 1)
    }
}

/// The pairs of sections that a refinement steps through: the base-side pair, then
/// all pairs of sections that are no base, in upper-triangular order.
pub open spec fn refine_pairs(region: RegionView) -> Seq<(int, int)> {
    let others = non_base(region.sections, region.sections.len() as int);
    base_side_pairs(region.sections) + rows(others, others.len() as int)
}

/// Whether the number of pairs can be computed with machine integers.
pub open spec fn pairs_fit(region: RegionView) -> bool {
    let m = non_base(region.sections, region.sections.len() as int).len();
    m * (m - 1) <= usize::MAX
}

/// The number of pairs of up to 65535 sections can be computed.
pub proof fn law_pairs_of_few_sections_fit(region: RegionView)
    requires
        region.sections.len() <= 0xffff,
    ensures
        pairs_fit(region),
{
    lemma_non_base_len(region.sections, region.sections.len() as int);
    let m = non_base(region.sections, region.sections.len() as int).len() as int;
    assert(m * (m - 1) <= 0xffff * 0xffff) by (nonlinear_arith)
        requires
            0 <= m <= 0xffff,
    ;
}

/// No more sections are no base than there are sections.
proof fn lemma_non_base_len(sections: Seq<SectionView>, n: int)
    requires
        0 <= n,
    ensures
        non_base(sections, n).len() <= n,
    decreases n,
{
    if n > 0 {
        lemma_non_base_len(sections, n - 1);
    }
}

/// How many pairs there are in the rows of the first `a` elements.
pub proof fn lemma_rows_len(elements: Seq<int>, a: int)
    requires
        0 <= a <= elements.len(),
    ensures
        2 * rows(elements, a).len() == a * (2 * elements.len() - a - 1),
    decreases a,
{
    if a > 0 {
        let m = elements.len() as int;
        lemma_rows_len(elements, a - 1);
        assert((a - 1) * (2 * m - (a - 1) - 1) + 2 * (m - a) == a * (2 * m - a - 1))
            by (nonlinear_arith);
    } else {
        assert(a * (2 * elements.len() - a - 1) == 0) by (nonlinear_arith)
            requires
                a == 0,
        ;
    }
}

/// The rows of fewer elements come first.
proof fn lemma_rows_prefix(elements: Seq<int>, a: int, b: int)
    requires
        0 <= a <= b <= elements.len(),
    ensures
        rows(elements, a).len() <= rows(elements, b).len(),
        forall|i: int|
            0 <= i < rows(elements, a).len() ==> #[trigger] rows(elements, b)[i] == rows(
                elements,
                a,
            )[i],
    decreases b,
{
    if a < b {
        lemma_rows_prefix(elements, a, b - 1);
    }
}

/// The indices of sections that are no base are in order and complete.
pub proof fn lemma_non_base(sections: Seq<SectionView>, n: int)
    requires
        0 <= n <= sections.len(),
    ensures
        forall|k: int|
            0 <= k < non_base(sections, n).len() ==> {
                &&& 0 <= #[trigger] non_base(sections, n)[k] < n
                &&& sections[non_base(sections, n)[k]].kind != SectionKind::Base
            },
        forall|k: int, l: int|
            0 <= k < l < non_base(sections, n).len() ==> non_base(sections, n)[k] < non_base(
                sections,
                n,
            )[l],
        forall|i: int|
            0 <= i < n && (#[trigger] sections[i]).kind != SectionKind::Base ==> non_base(
                sections,
                n,
            ).contains(i),
    decreases n,
{
    if n > 0 {
        lemma_non_base(sections, n - 1);
        let earlier = non_base(sections, n - 1);
        let all = non_base(sections, n);
        assert forall|i: int|
            0 <= i < n && (#[trigger] sections[i]).kind != SectionKind::Base implies all.contains(
            i,
        ) by {
            if i == n - 1 {
                assert(all.last() == i);
            } else {
                let k = choose|k: int| 0 <= k < earlier.len() && earlier[k] == i;
                assert(all[k] == i);
            }
        }
    }
}

/// The last base is a base, and none follows it.
pub proof fn lemma_last_base(sections: Seq<SectionView>, n: int)
    requires
        0 <= n <= sections.len(),
    ensures
        match last_base(sections, n) {
            Some(base) => {
                &&& 0 <= base < n
                &&& sections[base].kind == SectionKind::Base
                &&& forall|i: int|
                    base < i < n ==> (#[trigger] sections[i]).kind != SectionKind::Base
            },
            None => forall|i: int|
                0 <= i < n ==> (#[trigger] sections[i]).kind != SectionKind::Base,
        },
    decreases n,
{
    if n > 0 && sections[n - 1].kind != SectionKind::Base {
        lemma_last_base(sections, n - 1);
    }
}

/// The rows hold each element with each later one.
proof fn lemma_rows_elements(elements: Seq<int>, a: int, i: int)
    requires
        0 <= a <= elements.len(),
        0 <= i < rows(elements, a).len(),
    ensures
        exists|x: int, y: int|
            0 <= x < a && x < y < elements.len() && rows(elements, a)[i] == (
                #[trigger] elements[x],
                #[trigger] elements[y],
            ),
    decreases a,
{
    let earlier = rows(elements, a - 1);
    if i < earlier.len() {
        lemma_rows_elements(elements, a - 1, i);
    } else {
        let y = a + (i - earlier.len());
        assert(rows(elements, a)[i] == (elements[a - 1], elements[y]));
    }
}

/// A refine pair is made of two sections in document order.
pub proof fn lemma_refine_pairs_valid(region: RegionView, pair: int)
    requires
        0 <= pair < refine_pairs(region).len(),
    ensures
        0 <= refine_pairs(region)[pair].0 < refine_pairs(region)[pair].1 < region.sections.len(),
{
    let n = region.sections.len() as int;
    let others = non_base(region.sections, n);
    lemma_non_base(region.sections, n);
    lemma_last_base(region.sections, n);
    let first = base_side_pairs(region.sections).len();
    if pair >= first {
        lemma_rows_elements(others, others.len() as int, pair - first);
    }
}

/// The sections of a refine pair as they are shown: a side goes to the left of a
/// diff, else document order is kept.
pub open spec fn left_and_right(region: RegionView, pair: int) -> (int, int) {
    let (i, j) = refine_pairs(region)[pair];
    if region.sections[i].kind == SectionKind::Diff && region.sections[j].kind
        == SectionKind::Side {
        (j, i)
    } else {
        (i, j)
    }
}

/// The pair that is active by a table from the starts of conflicts to pairs.
pub open spec fn active_pair(state: Map<usize, usize>, region: RegionView) -> int {
    let chosen = if state.dom().contains(region.start as usize) {
        state[region.start as usize] as int
    } else {
        0
    };
    let n = refine_pairs(region).len();
    if chosen < n {
        chosen
    } else if n > 0 {
        n - 1
    } else {
        0
    }
}

/// Whether section `i` is a side directly followed by a base.
pub open spec fn is_side_base(sections: Seq<SectionView>, i: int) -> bool {
    &&& 0 <= i < sections.len() - 1
    &&& sections[i].kind == SectionKind::Side
    &&& sections[i + 1].kind == SectionKind::Base
}

/// The pairs of a side and the base directly after it, for sides below `n`, in
/// document order.
pub open spec fn side_base_pairs(sections: Seq<SectionView>, n: int) -> Seq<(int, int)>
    decreases n,
{
    if n <= 0 {
        Seq::empty()
    } else if is_side_base(sections, n - 1) {
        side_base_pairs(sections, n - 1).push((n - 1, n))
    } else {
        side_base_pairs(sections, n - 1)
    }
}

/// Whether there is a side directly followed by a base.
pub open spec fn has_side_base(region: RegionView) -> bool {
    exists|i: int| is_side_base(region.sections, i)
}

/// Index pairs as mathematical integers.
pub open spec fn int_pairs(pairs: Seq<(usize, usize)>) -> Seq<(int, int)> {
    pairs.map_values(|pair: (usize, usize)| (pair.0 as int, pair.1 as int))
}

impl ConflictRegion {
    /// Collects the indices of the sections that are no base.
    fn non_base_indices(&self) -> (indices: Vec<usize>)
        ensures
            indices@.map_values(|i: usize| i as int) == non_base(
                self@.sections,
                self@.sections.len() as int,
            ),
    {
        let mut indices: Vec<usize> = Vec::new();
        let mut i: usize = 0;
        while i < self.sections.len()
            invariant
                i <= self.sections@.len(),
                indices@.map_values(|i: usize| i as int) == non_base(self@.sections, i as int),
            decreases self.sections@.len() - i,
        {
            assert(self@.sections[i as int] == self.sections@[i as int]@);
            if self.sections[i].kind != SectionKind::Base {
                let ghost before = indices@;
                indices.push(i);
                assert(indices@.map_values(|i: usize| i as int) =~= before.map_values(
                    |i: usize| i as int,
                ).push(i as int));
            }
            i += 1;
        }
        indices
    }

    /// Finds the last base section where the last section is a side.
    fn base_side(&self) -> (base: Option<usize>)
        ensures
            base_side_pairs(self@.sections) == match base {
                Some(base) => seq![(base as int, self@.sections.len() - 1)],
                None => Seq::<(int, int)>::empty(),
            },
            base matches Some(base) ==> base < self.sections@.len(),
    {
        let n = self.sections.len();
        if n == 0 {
            return None;
        }
        assert(self@.sections[n - 1] == self.sections@[n - 1]@);
        if self.sections[n - 1].kind != SectionKind::Side {
            return None;
        }
        let mut i: usize = n;
        while i > 0
            invariant
                i <= n,
                n == self.sections@.len(),
                self@.sections[n - 1].kind == SectionKind::Side,
                last_base(self@.sections, n as int) == last_base(self@.sections, i as int),
            decreases i,
        {
            i -= 1;
            assert(self@.sections[i as int] == self.sections@[i as int]@);
            if self.sections[i].kind == SectionKind::Base {
                return Some(i);
            }
        }
        None
    }

    /// Returns the total number of single-pair states available via refine.
    ///
    /// These are the states reachable after the initial step that shows all base
    /// pairs at once: one for the base-side pair, where there is one, and one for
    /// each pair of sections that are no base.
    pub fn num_refine_pairs(&self) -> (n: usize)
        requires
            pairs_fit(self@),
        ensures
            n == refine_pairs(self@).len(),
    {
        let others = self.non_base_indices();
        let m = others.len();
        let ghost elements = non_base(self@.sections, self@.sections.len() as int);
        assert(elements.len() == m);
        proof {
            lemma_rows_len(elements, m as int);
            assert(m * (2 * m - m - 1) == m * (m - 1)) by (nonlinear_arith);
        }
        let side_side = if m < 2 {
            assert(m * (m - 1) == 0) by (nonlinear_arith)
                requires
                    m == 0 || m == 1,
            ;
            0
        } else {
            m * (m - 1) / 2
        };
        let base_side = if self.base_side().is_some() {
            1
        } else {
            0
        };
        base_side + side_side
    }

    /// Returns the pair of section indices for the refine pair numbered `pair`, or
    /// `None` when there are not that many.
    ///
    /// First comes, where a base exists and the last section is a side, the last
    /// base with that side; then all pairs of sections that are no base, in
    /// upper-triangular order.
    pub fn refine_pair_indices(&self, pair: usize) -> (indices: Option<(usize, usize)>)
        ensures
            match indices {
                Some((i, j)) => {
                    &&& pair < refine_pairs(self@).len()
                    &&& refine_pairs(self@)[pair as int] == (i as int, j as int)
                },
                None => pair >= refine_pairs(self@).len(),
            },
    {
        let others = self.non_base_indices();
        let m = others.len();
        let ghost elements = non_base(self@.sections, self@.sections.len() as int);
        assert(elements.len() == m);
        assert forall|i: int| 0 <= i < m implies elements[i] == #[trigger] others@[i] by {
            assert(others@.map_values(|i: usize| i as int)[i] == others@[i]);
        }
        let mut wanted = pair;
        if let Some(base) = self.base_side() {
            if pair == 0 {
                return Some((base, self.sections.len() - 1));
            }
            wanted = pair - 1;
        }
        assert(forall|i: int|
            0 <= i < rows(elements, m as int).len() ==> refine_pairs(self@)[pair - wanted + i]
                == #[trigger] rows(elements, m as int)[i]);
        let mut idx: usize = 0;
        let mut a: usize = 0;
        while a < m
            invariant
                a <= m,
                m == others@.len(),
                elements.len() == m,
                forall|i: int| 0 <= i < m ==> elements[i] == #[trigger] others@[i],
                elements == non_base(self@.sections, self@.sections.len() as int),
                wanted <= pair,
                refine_pairs(self@).len() == pair - wanted + rows(elements, m as int).len(),
                forall|i: int|
                    0 <= i < rows(elements, m as int).len() ==> refine_pairs(self@)[pair - wanted
                        + i] == #[trigger] rows(elements, m as int)[i],
                idx == rows(elements, a as int).len(),
                idx <= wanted,
            decreases m - a,
        {
            proof {
                lemma_rows_prefix(elements, a + 1, m as int);
                assert(rows(elements, a + 1) == rows(elements, a as int) + row(
                    elements,
                    a as int,
                ));
            }
            let mut b: usize = a + 1;
            while b < m
                invariant
                    a < b <= m,
                    m == others@.len(),
                    elements.len() == m,
                    forall|i: int| 0 <= i < m ==> elements[i] == #[trigger] others@[i],
                    elements == non_base(self@.sections, self@.sections.len() as int),
                    wanted <= pair,
                    refine_pairs(self@).len() == pair - wanted + rows(elements, m as int).len(),
                    forall|i: int|
                        0 <= i < rows(elements, m as int).len() ==> refine_pairs(self@)[pair
                            - wanted + i] == #[trigger] rows(elements, m as int)[i],
                    rows(elements, a + 1) == rows(elements, a as int) + row(elements, a as int),
                    rows(elements, a + 1).len() <= rows(elements, m as int).len(),
                    forall|i: int|
                        0 <= i < rows(elements, a + 1).len() ==> #[trigger] rows(
                            elements,
                            m as int,
                        )[i] == rows(elements, a + 1)[i],
                    idx == rows(elements, a as int).len() + (b - a - 1),
                    idx <= wanted,
                decreases m - b,
            {
                if idx == wanted {
                    assert(rows(elements, m as int)[idx as int] == row(elements, a as int)[b - a
                        - 1]);
                    assert(refine_pairs(self@)[pair - wanted + idx] == (
                        others@[a as int] as int,
                        others@[b as int] as int,
                    ));
                    return Some((others[a], others[b]));
                }
                idx += 1;
                b += 1;
            }
            a += 1;
        }
        None
    }
}

impl ConflictRegion {
    /// Decides whether section `i` is a side directly followed by a base.
    fn check_side_base(&self, i: usize) -> (found: bool)
        requires
            i + 1 < self.sections.len(),
        ensures
            found == is_side_base(self@.sections, i as int),
    {
        assert(self@.sections[i as int] == self.sections@[i as int]@);
        assert(self@.sections[i + 1] == self.sections@[i + 1]@);
        self.sections[i].kind == SectionKind::Side && self.sections[i + 1].kind == SectionKind::Base
    }

    /// Returns whether this conflict has at least one adjacent (Side, Base) pair: two
    /// consecutive sections of which the first is a side and the second a base.
    pub fn has_adjacent_side_base_pairs(&self) -> (found: bool)
        ensures
            found == has_side_base(self@),
    {
        let n = self.sections.len();
        let mut i: usize = 1;
        while i < n
            invariant
                n == self.sections@.len(),
                1 <= i,
                i <= n || i == 1,
                forall|j: int| 0 <= j < i - 1 ==> !is_side_base(self@.sections, j),
            decreases n - i,
        {
            if self.check_side_base(i - 1) {
                return true;
            }
            i += 1;
        }
        false
    }

    /// Returns whether this conflict has a base comparison, a default view that is
    /// shown before any single pair: adjacent (Side, Base) pairs or a diff section.
    pub fn has_base_comparison(&self) -> (found: bool)
        ensures
            found == (has_side_base(self@) || has_kind(self@, SectionKind::Diff)),
    {
        if self.has_adjacent_side_base_pairs() {
            return true;
        }
        let mut i: usize = 0;
        while i < self.sections.len()
            invariant
                i <= self.sections@.len(),
                !has_side_base(self@),
                forall|j: int|
                    0 <= j < i ==> (#[trigger] self@.sections[j]).kind != SectionKind::Diff,
            decreases self.sections@.len() - i,
        {
            assert(self@.sections[i as int] == self.sections@[i as int]@);
            if self.sections[i].kind == SectionKind::Diff {
                return true;
            }
            i += 1;
        }
        false
    }

    /// Returns the section-index pairs of all adjacent (Side, Base) pairs, in document
    /// order.
    pub fn adjacent_side_base_pairs(&self) -> (pairs: Vec<(usize, usize)>)
        ensures
            int_pairs(pairs@) == side_base_pairs(self@.sections, self@.sections.len() - 1),
    {
        let n = self.sections.len();
        let mut pairs: Vec<(usize, usize)> = Vec::new();
        assert(int_pairs(pairs@) =~= Seq::<(int, int)>::empty());
        let mut i: usize = 1;
        while i < n
            invariant
                n == self.sections@.len(),
                1 <= i,
                i <= n || i == 1,
                int_pairs(pairs@) == side_base_pairs(self@.sections, i - 1),
            decreases n - i,
        {
            if self.check_side_base(i - 1) {
                let ghost before = pairs@;
                pairs.push((i - 1, i));
                assert(int_pairs(pairs@) =~= int_pairs(before).push((i - 1, i as int)));
            }
            i += 1;
        }
        pairs
    }
}

/// Returns the content ranges `(left, right)` of the refine pair numbered `pair`, or
/// `None` when there are not that many pairs.
///
/// Where a diff section comes before a side, the two are swapped so that the side
/// is on the left.
pub fn conflict_pair_sections(region: &ConflictRegion, pair: usize) -> (ranges: Option<
    ((usize, usize), (usize, usize)),
>)
    ensures
        match ranges {
            Some((left, right)) => {
                &&& pair < refine_pairs(region@).len()
                &&& is_content(left, region@.sections[left_and_right(region@, pair as int).0])
                &&& is_content(right, region@.sections[left_and_right(region@, pair as int).1])
                &&& left.0 == region@.sections[left_and_right(region@, pair as int).0].content_start
                &&& left.1 == region@.sections[left_and_right(region@, pair as int).0].content_end
                &&& right.0 == region@.sections[left_and_right(region@, pair as int).1].content_start
                &&& right.1 == region@.sections[left_and_right(region@, pair as int).1].content_end
            },
            None => pair >= refine_pairs(region@).len(),
        },
{
    match region.refine_pair_indices(pair) {
        None => None,
        Some((i, j)) => {
            proof {
                lemma_refine_pairs_valid(region@, pair as int);
                assert(region@.sections[i as int] == region.sections@[i as int]@);
                assert(region@.sections[j as int] == region.sections@[j as int]@);
            }
            let first = &region.sections[i];
            let second = &region.sections[j];
            let (left, right) = if first.kind == SectionKind::Diff && second.kind
                == SectionKind::Side {
                (second, first)
            } else {
                (first, second)
            };
            Some(
                (
                    (left.content_start, left.content_end),
                    (right.content_start, right.content_end),
                ),
            )
        },
    }
}

/// Looks up the active refine pair of a conflict in a table keyed by the conflicts'
/// starts.
///
/// Defaults to the first pair if there is no entry; an entry past the last pair
/// counts as the last.
pub fn conflict_refine_pair(state: &HashMap<usize, usize>, region: &ConflictRegion) -> (pair: usize)
    requires
        pairs_fit(region@),
    ensures
        pair == active_pair(state@, region@),
{
    broadcast use vstd::std_specs::hash::group_hash_axioms;

    let pair = match state.get(&region.start) {
        Some(pair) => *pair,
        None => 0,
    };
    let n = region.num_refine_pairs();
    let max = if n > 0 {
        n - 1
    } else {
        0
    };
    if pair < max {
        pair
    } else {
        max
    }
}

// ── What holds of the pairs ──────────────────────────────────────────────────

/// The number of refine pairs is the number of ways to choose two sections that are no
/// base, plus one where there is a base and the last section is a side.
pub proof fn law_number_of_pairs(region: RegionView)
    ensures
        ({
            let n = region.sections.len() as int;
            let m = non_base(region.sections, n).len();
            let based = n > 0 && region.sections[n - 1].kind == SectionKind::Side && has_kind(
                region,
                SectionKind::Base,
            );
            2 * refine_pairs(region).len() == m * (m - 1) + if based {
                2int
            } else {
                0int
            }
        }),
{
    let n = region.sections.len() as int;
    let others = non_base(region.sections, n);
    let m = others.len() as int;
    lemma_rows_len(others, m);
    assert(m * (2 * m - m - 1) == m * (m - 1)) by (nonlinear_arith);
    lemma_last_base(region.sections, n);
}

/// The place of a pair in the rows.
proof fn lemma_row_place(elements: Seq<int>, x: int, y: int) -> (i: int)
    requires
        0 <= x < y < elements.len(),
    ensures
        0 <= i < rows(elements, elements.len() as int).len(),
        rows(elements, elements.len() as int)[i] == (elements[x], elements[y]),
        i == rows(elements, x).len() + (y - x - 1),
{
    let i = rows(elements, x).len() + (y - x - 1);
    lemma_rows_prefix(elements, x + 1, elements.len() as int);
    assert(rows(elements, x + 1)[i] == row(elements, x)[y - x - 1]);
    i
}

/// Any two sections that are no base are a refine pair.
pub proof fn law_every_two_sides_are_a_pair(region: RegionView, i: int, j: int)
    requires
        0 <= i < j < region.sections.len(),
        region.sections[i].kind != SectionKind::Base,
        region.sections[j].kind != SectionKind::Base,
    ensures
        refine_pairs(region).contains((i, j)),
{
    let n = region.sections.len() as int;
    let others = non_base(region.sections, n);
    lemma_non_base(region.sections, n);
    let x = choose|x: int| 0 <= x < others.len() && others[x] == i;
    let y = choose|y: int| 0 <= y < others.len() && others[y] == j;
    if y <= x {
        assert(others[y] <= others[x]);
    }
    let at = lemma_row_place(others, x, y);
    let first = base_side_pairs(region.sections).len();
    assert(refine_pairs(region)[first + at] == (i, j));
}

/// A refine pair is the last base with the last section, a side, and then comes first;
/// or it is two sections that are no base.
pub proof fn law_pair_is_base_and_side_or_two_sides(region: RegionView, pair: int)
    requires
        0 <= pair < refine_pairs(region).len(),
    ensures
        ({
            let (i, j) = refine_pairs(region)[pair];
            &&& 0 <= i < j < region.sections.len()
            &&& region.sections[j].kind != SectionKind::Base
            &&& region.sections[i].kind == SectionKind::Base ==> {
                &&& pair == 0
                &&& j == region.sections.len() - 1
                &&& region.sections[j].kind == SectionKind::Side
                &&& forall|k: int|
                    i < k < region.sections.len() ==> (#[trigger] region.sections[k]).kind
                        != SectionKind::Base
            }
        }),
{
    let n = region.sections.len() as int;
    let others = non_base(region.sections, n);
    lemma_refine_pairs_valid(region, pair);
    lemma_non_base(region.sections, n);
    lemma_last_base(region.sections, n);
    let first = base_side_pairs(region.sections).len();
    if pair >= first {
        lemma_rows_elements(others, others.len() as int, pair - first);
        assert(refine_pairs(region)[pair] == rows(others, others.len() as int)[pair - first]);
    }
}

/// Where the element of a pair in the rows stand.
proof fn lemma_row_of(elements: Seq<int>, a: int, i: int) -> (place: (int, int))
    requires
        0 <= a <= elements.len(),
        0 <= i < rows(elements, a).len(),
    ensures
        0 <= place.0 < a,
        place.0 < place.1 < elements.len(),
        rows(elements, a)[i] == (elements[place.0], elements[place.1]),
        i == rows(elements, place.0).len() + (place.1 - place.0 - 1),
    decreases a,
{
    let earlier = rows(elements, a - 1);
    if i < earlier.len() {
        lemma_row_of(elements, a - 1, i)
    } else {
        (a - 1, a + (i - earlier.len()))
    }
}

/// No two refine pairs are the same.
pub proof fn law_pairs_are_distinct(region: RegionView, a: int, b: int)
    requires
        0 <= a < b < refine_pairs(region).len(),
    ensures
        refine_pairs(region)[a] != refine_pairs(region)[b],
{
    let n = region.sections.len() as int;
    let others = non_base(region.sections, n);
    let all = rows(others, others.len() as int);
    lemma_non_base(region.sections, n);
    lemma_last_base(region.sections, n);
    let first = base_side_pairs(region.sections).len();
    let (x, y) = lemma_row_of(others, others.len() as int, b - first);
    assert(refine_pairs(region)[b] == all[b - first]);
    if a >= first {
        let (v, w) = lemma_row_of(others, others.len() as int, a - first);
        assert(refine_pairs(region)[a] == all[a - first]);
        if others[v] == others[x] && others[w] == others[y] {
            assert(v == x && w == y) by {
                if v < x {
                    assert(others[v] < others[x]);
                }
                if x < v {
                    assert(others[x] < others[v]);
                }
                if w < y {
                    assert(others[w] < others[y]);
                }
                if y < w {
                    assert(others[y] < others[w]);
                }
            }
        }
    }
}

/// Pairs of sections that are no base come in the order of their first sections and, with
/// the same first section, in that of their second.
pub proof fn law_pairs_are_in_order(region: RegionView, a: int, b: int)
    requires
        0 <= a < b < refine_pairs(region).len(),
    ensures
        ({
            let (i, j) = refine_pairs(region)[a];
            let (k, l) = refine_pairs(region)[b];
            &&& region.sections[k].kind != SectionKind::Base
            &&& region.sections[i].kind != SectionKind::Base ==> i < k || (i == k && j < l)
        }),
{
    let n = region.sections.len() as int;
    let others = non_base(region.sections, n);
    let all = rows(others, others.len() as int);
    lemma_non_base(region.sections, n);
    lemma_last_base(region.sections, n);
    let first = base_side_pairs(region.sections).len();
    let (x, y) = lemma_row_of(others, others.len() as int, b - first);
    assert(refine_pairs(region)[b] == all[b - first]);
    if a >= first {
        let (v, w) = lemma_row_of(others, others.len() as int, a - first);
        assert(refine_pairs(region)[a] == all[a - first]);
        if x < v {
            lemma_rows_prefix(others, x + 1, v);
            assert(rows(others, x + 1).len() == rows(others, x).len() + row(others, x).len());
        }
        assert(v < x || (v == x && w < y));
        if v < x {
            assert(others[v] < others[x]);
        } else {
            assert(others[w] < others[y]);
        }
    }
}

/// Where the last section is a side and there is a base, the first pair is that of the last
/// base and the last section.
pub proof fn law_last_base_and_last_side_come_first(region: RegionView, base: int)
    requires
        0 <= base < region.sections.len(),
        region.sections[base].kind == SectionKind::Base,
        forall|i: int|
            base < i < region.sections.len() ==> (#[trigger] region.sections[i]).kind
                != SectionKind::Base,
        region.sections.last().kind == SectionKind::Side,
    ensures
        refine_pairs(region).len() > 0,
        refine_pairs(region)[0] == (base, region.sections.len() - 1),
{
    let n = region.sections.len() as int;
    lemma_last_base(region.sections, n);
    let last = last_base(region.sections, n);
    if last is Some {
        let other = last->0;
        if other < base {
            assert(region.sections[base].kind != SectionKind::Base);
        } else if base < other {
            assert(region.sections[other].kind != SectionKind::Base);
        }
    }
    assert(refine_pairs(region)[0] == base_side_pairs(region.sections)[0]);
}

/// The two sections of a pair are shown as they stand in the document, but for a diff
/// before a side: the side is then shown on the left.
pub proof fn law_side_is_left_of_diff(region: RegionView, pair: int)
    ensures
        ({
            let (left, right) = left_and_right(region, pair);
            let (i, j) = refine_pairs(region)[pair];
            &&& !(region.sections[left].kind == SectionKind::Diff && region.sections[right].kind
                == SectionKind::Side)
            &&& (left, right) == (i, j) || ((left, right) == (j, i) && region.sections[right].kind
                == SectionKind::Diff && region.sections[left].kind == SectionKind::Side)
        }),
{
}

/// The active pair is one of the pairs, where there are any: the chosen one, where that
/// exists, the last one, where a later one was chosen, and the first one, where none was.
pub proof fn law_active_pair_exists(state: Map<usize, usize>, region: RegionView)
    ensures
        refine_pairs(region).len() > 0 ==> 0 <= active_pair(state, region) < refine_pairs(
            region,
        ).len(),
        refine_pairs(region).len() == 0 ==> active_pair(state, region) == 0,
        !state.dom().contains(region.start as usize) ==> active_pair(state, region) == 0,
        forall|chosen: usize| #[trigger]
            state.contains_pair(region.start as usize, chosen) && chosen < refine_pairs(
                region,
            ).len() ==> active_pair(state, region) == chosen,
        forall|chosen: usize| #[trigger]
            state.contains_pair(region.start as usize, chosen) && chosen >= refine_pairs(
                region,
            ).len() > 0 ==> active_pair(state, region) == refine_pairs(region).len() - 1,
{
}

/// The adjacent pairs are those of each side and a base directly after it, in document
/// order; there is one exactly where the conflict is said to have one.
pub proof fn law_adjacent_pairs(region: RegionView)
    ensures
        ({
            let list = side_base_pairs(region.sections, region.sections.len() - 1);
            &&& forall|i: int, j: int| #[trigger]
                list.contains((i, j)) <==> (0 <= i && j == i + 1 && j < region.sections.len()
                    && region.sections[i].kind == SectionKind::Side && region.sections[j].kind
                    == SectionKind::Base)
            &&& forall|a: int, b: int|
                0 <= a < b < list.len() ==> (#[trigger] list[a]).0 < (#[trigger] list[b]).0
            &&& has_side_base(region) <==> list.len() > 0
        }),
{
    let list = side_base_pairs(region.sections, region.sections.len() - 1);
    assert forall|i: int, j: int| #[trigger] list.contains((i, j)) <==> (0 <= i && j == i + 1 && j
        < region.sections.len() && region.sections[i].kind == SectionKind::Side
        && region.sections[j].kind == SectionKind::Base) by {
        lemma_side_base_pairs(region.sections, region.sections.len() - 1, (i, j));
    }
    lemma_side_base_order(region.sections, region.sections.len() - 1);
    if has_side_base(region) {
        let i = choose|i: int| is_side_base(region.sections, i);
        assert(list.contains((i, i + 1)));
    }
    if list.len() > 0 {
        lemma_side_base_pairs(region.sections, region.sections.len() - 1, list[0]);
        assert(list.contains(list[0]));
    }
}

/// The adjacent pairs of the sides below `n` are in document order.
proof fn lemma_side_base_order(sections: Seq<SectionView>, n: int)
    ensures
        forall|a: int|
            0 <= a < side_base_pairs(sections, n).len() ==> (#[trigger] side_base_pairs(
                sections,
                n,
            )[a]).0 < n,
        forall|a: int, b: int|
            0 <= a < b < side_base_pairs(sections, n).len() ==> (#[trigger] side_base_pairs(
                sections,
                n,
            )[a]).0 < (#[trigger] side_base_pairs(sections, n)[b]).0,
    decreases n,
{
    if n > 0 {
        lemma_side_base_order(sections, n - 1);
        let earlier = side_base_pairs(sections, n - 1);
        let list = side_base_pairs(sections, n);
        assert forall|a: int| 0 <= a < list.len() implies (#[trigger] list[a]).0 < n && (a
            < earlier.len() ==> list[a] == earlier[a]) && (a >= earlier.len() ==> list[a].0 == n
            - 1) by {
            if a < earlier.len() {
                assert(earlier[a].0 < n - 1);
            }
        }
        assert forall|a: int, b: int| 0 <= a < b < list.len() implies (#[trigger] list[a]).0 < (
        #[trigger] list[b]).0 by {
            assert(earlier[a].0 < n - 1);
            if b < earlier.len() {
                assert(earlier[a].0 < earlier[b].0);
            }
        }
    }
}

/// There is a base comparison exactly where a base directly follows a side, or a section is
/// a diff.
pub proof fn law_base_comparison(region: RegionView)
    ensures
        has_side_base(region) || has_kind(region, SectionKind::Diff) <==> (exists|i: int, j: int|
            0 <= i && j == i + 1 && j < region.sections.len() && (
            #[trigger] region.sections[i]).kind == SectionKind::Side && (
            #[trigger] region.sections[j]).kind == SectionKind::Base) || (exists|i: int|
            0 <= i < region.sections.len() && (#[trigger] region.sections[i]).kind
                == SectionKind::Diff),
{
    if has_side_base(region) {
        let i = choose|i: int| is_side_base(region.sections, i);
        let j = i + 1;
        assert(region.sections[i].kind == SectionKind::Side && region.sections[j].kind
            == SectionKind::Base);
    }
    if exists|i: int, j: int|
        0 <= i && j == i + 1 && j < region.sections.len() && (#[trigger] region.sections[i]).kind
            == SectionKind::Side && (#[trigger] region.sections[j]).kind == SectionKind::Base {
        let (i, j) = choose|i: int, j: int|
            0 <= i && j == i + 1 && j < region.sections.len() && (
            #[trigger] region.sections[i]).kind == SectionKind::Side && (
            #[trigger] region.sections[j]).kind == SectionKind::Base;
        assert(is_side_base(region.sections, i));
    }
}

/// The adjacent pairs of the sides below `n`.
proof fn lemma_side_base_pairs(sections: Seq<SectionView>, n: int, pair: (int, int))
    ensures
        side_base_pairs(sections, n).contains(pair) <==> (pair.0 < n && is_side_base(
            sections,
            pair.0,
        ) && pair.1 == pair.0 + 1),
    decreases n,
{
    if n > 0 {
        lemma_side_base_pairs(sections, n - 1, pair);
        let earlier = side_base_pairs(sections, n - 1);
        let all = side_base_pairs(sections, n);
        if is_side_base(sections, n - 1) {
            assert(all.last() == (n - 1, n));
            if earlier.contains(pair) {
                let k = choose|k: int| 0 <= k < earlier.len() && earlier[k] == pair;
                assert(all[k] == pair);
            }
            if all.contains(pair) {
                let k = choose|k: int| 0 <= k < all.len() && all[k] == pair;
                if k < earlier.len() {
                    assert(earlier[k] == pair);
                }
            }
        }
    }
}

} // verus!
