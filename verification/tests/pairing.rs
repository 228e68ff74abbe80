//! Sections are paired for comparison.

use ropey::Rope;
use std::collections::HashMap;
use vcs_conflict::{conflict_pair_sections, conflict_refine_pair, find_conflicts, SectionKind};

fn rope(s: &str) -> Rope {
    Rope::from(s)
}

type RefinePairCase<'a> = (&'a str, usize, &'a [(usize, usize)]);

#[test]
fn refine_pairs_jj_snapshot_three_sides() {
    // 5 sections [S0,B1,S2,B3,S4]
    // Phase 1: base-last-side (3,4)
    // Phase 2: side-side     (0,2), (0,4), (2,4) — C(3,2)
    let text = [
        "<<<<<<< Conflict 1 of 1\n",
        "+++++++ side #1\n",
        "s1\n",
        "------- base\n",
        "base\n",
        "+++++++ side #2\n",
        "s2\n",
        "------- base\n",
        "base\n",
        "+++++++ side #3\n",
        "s3\n",
        ">>>>>>> Conflict 1 of 1 ends\n",
    ].concat();
    let r = rope(&text);
    let conflicts = find_conflicts(&r);
    assert_eq!(conflicts.len(), 1);
    let c = &conflicts[0];
    assert_eq!(c.sections.len(), 5);
    assert_eq!(c.sections[0].kind, SectionKind::Side);
    assert_eq!(c.sections[1].kind, SectionKind::Base);
    assert_eq!(c.sections[2].kind, SectionKind::Side);
    assert_eq!(c.sections[3].kind, SectionKind::Base);
    assert_eq!(c.sections[4].kind, SectionKind::Side);
    assert_eq!(c.num_refine_pairs(), 4);
}

#[test]
fn refine_pairs_cases() {
    let cases: &[RefinePairCase<'_>] = &[
        (
            "<<<<<<< HEAD\ncurrent\n=======\nincoming\n>>>>>>> b\n",
            1,
            &[(0, 1)],
        ),
        (
            "<<<<<<< HEAD\ncurrent\n||||||| base\nbase\n=======\nincoming\n>>>>>>> b\n",
            2,
            &[(1, 2), (0, 2)], // Phase 1: base-side; Phase 2: side-side
        ),
    ];
    for &(text, num_pairs, pairs) in cases {
        let c = &find_conflicts(&rope(text))[0];
        assert_eq!(c.num_refine_pairs(), num_pairs);
        for (i, &expected) in pairs.iter().enumerate() {
            assert_eq!(c.refine_pair_indices(i), Some(expected));
        }
        assert_eq!(c.refine_pair_indices(pairs.len()), None);
    }
}

#[test]
fn refine_pairs_three_way() {
    // 3 sections [S0,B1,S2]
    // Phase 1: base-last-side (1,2)
    // Phase 2: side-side      (0,2)
    let text = "<<<<<<< HEAD\ncurrent\n||||||| base\nbase\n=======\nincoming\n>>>>>>> b\n";
    let c = &find_conflicts(&rope(text))[0];
    assert_eq!(c.num_refine_pairs(), 2);
    assert_eq!(c.refine_pair_indices(0), Some((1, 2)));
    assert_eq!(c.refine_pair_indices(1), Some((0, 2)));
    assert_eq!(c.refine_pair_indices(2), None);
}

#[test]
fn refine_pairs_four_sections() {
    // 4 sections [S0,B1,S2,S3]
    // Phase 1: base-last-side  (1,3)
    // Phase 2: side-side      (0,2), (0,3), (2,3)
    let text = [
        "<<<<<<< Conflict\n",
        "+++++++ s1\nA\n",
        "------- base\nB\n",
        "+++++++ s2\nC\n",
        "+++++++ s3\nD\n",
        ">>>>>>> Conflict ends\n",
    ].concat();
    let c = &find_conflicts(&rope(&text))[0];
    assert_eq!(c.sections.len(), 4);
    assert_eq!(c.num_refine_pairs(), 4);
    assert_eq!(c.refine_pair_indices(0), Some((1, 3)));
    assert_eq!(c.refine_pair_indices(1), Some((0, 2)));
    assert_eq!(c.refine_pair_indices(2), Some((0, 3)));
    assert_eq!(c.refine_pair_indices(3), Some((2, 3)));
    assert_eq!(c.refine_pair_indices(4), None);
}

#[test]
fn pair_sections_no_base_swap() {
    // diff3: sections = [Side(current), Base, Side(incoming)]
    // Pair 0: (1,2) = (Base, Side) → no swap (not Diff+Side)
    // Pair 1: (0,2) = (Side, Side) → no swap, kept in order
    let text = "<<<<<<< HEAD\ncurrent\n||||||| base\nbase\n=======\nincoming\n>>>>>>> b\n";
    let r = rope(text);
    let c = &find_conflicts(&r)[0];
    assert_eq!(c.num_refine_pairs(), 2);

    // pair 0 => (1,2) = (Base, Side) → no swap
    let (left, right) = conflict_pair_sections(c, 0).unwrap();
    assert_eq!(r.slice(left.0..left.1).to_string(), "base\n");
    assert_eq!(r.slice(right.0..right.1).to_string(), "incoming\n");

    // pair 1 => (0,2) = (Side, Side) → no swap, kept in order
    let (left, right) = conflict_pair_sections(c, 1).unwrap();
    assert_eq!(r.slice(left.0..left.1).to_string(), "current\n");
    assert_eq!(r.slice(right.0..right.1).to_string(), "incoming\n");

    assert!(conflict_pair_sections(c, 2).is_none());
}

#[test]
fn refine_pair_clamped_and_default() {
    let text = "<<<<<<< HEAD\ncurrent\n=======\nincoming\n>>>>>>> b\n"; // 1 pair, max idx 0
    let r = rope(text);
    let c = &find_conflicts(&r)[0];

    // Stale/out-of-range selection gets clamped to valid range
    let mut state = HashMap::new();
    state.insert(c.start, 99);
    assert_eq!(conflict_refine_pair(&state, c), 0);

    // Empty state defaults to 0
    assert_eq!(conflict_refine_pair(&HashMap::new(), c), 0);

    // Valid index passes through
    state.clear();
    state.insert(c.start, 0);
    assert_eq!(conflict_refine_pair(&state, c), 0);
}
