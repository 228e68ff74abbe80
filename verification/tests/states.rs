//! Pairs of sections and the refine state, in detail.

use ropey::Rope;
use std::collections::HashMap;
use vcs_conflict::{
    conflict_pair_sections, conflict_refine_pair, find_conflicts, ConflictCache, ConflictRefineEntry,
    ConflictRegion,
};

fn one(text: &str) -> ConflictRegion {
    find_conflicts(&Rope::from(text)).swap_remove(0)
}

fn all_pairs(region: &ConflictRegion) -> Vec<(usize, usize)> {
    (0..region.num_refine_pairs()).map(|i| region.refine_pair_indices(i).unwrap()).collect()
}

#[test]
fn bare_conflict_has_no_pairs() {
    let c = one("<<<<<<<\nx\n>>>>>>>\n");
    assert_eq!(c.num_refine_pairs(), 0);
    assert_eq!(c.refine_pair_indices(0), None);
    assert_eq!(conflict_pair_sections(&c, 0), None);
    let mut state = HashMap::new();
    state.insert(0, 5);
    assert_eq!(conflict_refine_pair(&state, &c), 0);
}

#[test]
fn region_without_sections_has_no_pairs() {
    let c = ConflictRegion { start: 0, sections: Vec::new(), end: 0 };
    assert_eq!(c.num_refine_pairs(), 0);
    assert_eq!(c.refine_pair_indices(0), None);
    assert!(!c.has_adjacent_side_base_pairs());
    assert!(c.adjacent_side_base_pairs().is_empty());
    assert!(!c.has_base_comparison());
}

#[test]
fn pairs_in_order() {
    let c = one("<<<<<<<\n+++++++\na\n-------\nb\n+++++++\nc\n-------\nd\n+++++++\ne\n>>>>>>>\n");
    assert_eq!(all_pairs(&c), vec![(3, 4), (0, 2), (0, 4), (2, 4)]);
    assert_eq!(c.refine_pair_indices(4), None);
    assert_eq!(c.refine_pair_indices(usize::MAX), None);
}

#[test]
fn base_is_not_paired_when_the_last_section_is_no_side() {
    let c = one("<<<<<<<\n+++++++\na\n+++++++\nc\n-------\nb\n>>>>>>>\n");
    assert_eq!(all_pairs(&c), vec![(0, 1)]);
    let c = one("<<<<<<<\n+++++++\na\n-------\nb\n%%%%%%%\n-c\n>>>>>>>\n");
    assert_eq!(all_pairs(&c), vec![(0, 2)]);
}

#[test]
fn pairs_are_distinct_and_complete() {
    let c = one("<<<<<<<\n+++++++\na\n%%%%%%%\n-b\n-------\nc\n%%%%%%%\n-d\n+++++++\ne\n>>>>>>>\n");
    let pairs = all_pairs(&c);
    assert_eq!(pairs, vec![(2, 4), (0, 1), (0, 3), (0, 4), (1, 3), (1, 4), (3, 4)]);
    for (i, pair) in pairs.iter().enumerate() {
        assert!(pair.0 < pair.1 && pair.1 < c.sections.len());
        assert!(!pairs[..i].contains(pair));
    }
}

#[test]
fn side_is_shown_left_of_diff() {
    let text = "<<<<<<<\n%%%%%%%\n-a\n+++++++\nb\n>>>>>>>\n";
    let c = one(text);
    assert_eq!(c.refine_pair_indices(0), Some((0, 1)));
    let side = (c.sections[1].content_start, c.sections[1].content_end);
    let diff = (c.sections[0].content_start, c.sections[0].content_end);
    assert_eq!(conflict_pair_sections(&c, 0), Some((side, diff)));
    // A side that comes first stays first.
    let c = one("<<<<<<<\n+++++++\nb\n%%%%%%%\n-a\n>>>>>>>\n");
    let side = (c.sections[0].content_start, c.sections[0].content_end);
    let diff = (c.sections[1].content_start, c.sections[1].content_end);
    assert_eq!(conflict_pair_sections(&c, 0), Some((side, diff)));
}

#[test]
fn chosen_pair_is_kept_and_clamped() {
    let c = one("x\n<<<<<<<\na\n|||||||\nb\n=======\nc\n>>>>>>>\n");
    assert_eq!(c.num_refine_pairs(), 2);
    let mut state = HashMap::new();
    state.insert(c.start, 1);
    assert_eq!(conflict_refine_pair(&state, &c), 1);
    state.insert(c.start, 2);
    assert_eq!(conflict_refine_pair(&state, &c), 1);
    // An entry of another conflict does not count.
    let mut state = HashMap::new();
    state.insert(c.start + 1, 1);
    assert_eq!(conflict_refine_pair(&state, &c), 0);
}

#[test]
fn adjacent_pairs() {
    let c = one("<<<<<<<\na\n|||||||\nb\n=======\nc\n>>>>>>>\n");
    assert!(c.has_adjacent_side_base_pairs());
    assert_eq!(c.adjacent_side_base_pairs(), vec![(0, 1)]);
    assert!(c.has_base_comparison());
    let c = one("<<<<<<<\n+++++++\na\n-------\nb\n+++++++\nc\n-------\nd\n+++++++\ne\n>>>>>>>\n");
    assert_eq!(c.adjacent_side_base_pairs(), vec![(0, 1), (2, 3)]);
    let c = one("<<<<<<<\na\n=======\nc\n>>>>>>>\n");
    assert!(!c.has_adjacent_side_base_pairs());
    assert!(c.adjacent_side_base_pairs().is_empty());
    assert!(!c.has_base_comparison());
    // A base that precedes its side is not adjacent in this sense.
    let c = one("<<<<<<<\n-------\na\n+++++++\nc\n>>>>>>>\n");
    assert!(!c.has_adjacent_side_base_pairs());
    assert!(!c.has_base_comparison());
    let c = one("<<<<<<<\n%%%%%%%\n-a\n+++++++\nc\n>>>>>>>\n");
    assert!(!c.has_adjacent_side_base_pairs());
    assert!(c.has_base_comparison());
}

#[test]
fn default_entry_shows_base_pairs() {
    let entry = ConflictRefineEntry::default();
    assert_eq!(entry.pair, 0);
    assert!(entry.show_base_pairs);
    assert!(entry.diffs.is_none());
    assert!(entry.side_added.is_none());
    let mut cache = ConflictCache::new();
    cache.insert(7, entry.clone());
    assert_eq!(cache[&7].pair, 0);
}
