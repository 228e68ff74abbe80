//! Positions are located in conflicts, sections and marker lines.

use ropey::Rope;
use vcs_conflict::{
    conflict_at, conflict_marker_lines, conflict_section_at, find_conflicts, next_conflict,
    prev_conflict,
};

fn rope(s: &str) -> Rope {
    Rope::from(s)
}

#[test]
fn conflict_at_inside() {
    let text = "before\n<<<<<<< HEAD\ncurrent\n=======\nincoming\n>>>>>>> b\nafter\n";
    let r = rope(text);
    let conflicts = find_conflicts(&r);
    let before_len = "before\n".chars().count();
    assert_eq!(conflict_at(&conflicts, before_len), Some(0));
    assert_eq!(conflict_at(&conflicts, 0), None);
    assert_eq!(conflict_at(&conflicts, conflicts[0].end + 1), None);

    // Boundary: at start (inclusive) and at end (exclusive)
    assert_eq!(conflict_at(&conflicts, conflicts[0].start), Some(0));
    assert_eq!(conflict_at(&conflicts, conflicts[0].end), None);
}

#[test]
fn next_conflict_from_before() {
    let text = [
        "before\n",
        "<<<<<<< HEAD\na\n=======\nb\n>>>>>>> b\n",
        "between\n",
        "<<<<<<< HEAD\nc\n=======\nd\n>>>>>>> b\n",
    ].concat();
    let r = rope(&text);
    let conflicts = find_conflicts(&r);
    assert_eq!(next_conflict(&conflicts, 0), Some(0));
    assert_eq!(next_conflict(&conflicts, conflicts[0].start + 1), Some(1));
    assert_eq!(next_conflict(&conflicts, conflicts[1].end), None);
}

#[test]
fn prev_conflict_from_after() {
    let text = [
        "<<<<<<< HEAD\na\n=======\nb\n>>>>>>> b\n",
        "between\n",
        "<<<<<<< HEAD\nc\n=======\nd\n>>>>>>> b\n",
        "after\n",
    ].concat();
    let r = rope(&text);
    let conflicts = find_conflicts(&r);
    let after_last = conflicts[1].end + 1;
    assert_eq!(prev_conflict(&conflicts, after_last), Some(1));
    let inside_second = conflicts[1].start + 1;
    assert_eq!(prev_conflict(&conflicts, inside_second), Some(1));
    assert_eq!(prev_conflict(&conflicts, conflicts[1].start), Some(0));
    assert_eq!(prev_conflict(&conflicts, 0), None);
}

#[test]
fn section_at_git_two_way() {
    let text = "<<<<<<< HEAD\ncurrent\n=======\nincoming\n>>>>>>> b\n";
    let r = rope(text);
    let c = &find_conflicts(&r)[0];
    // On <<<<<<< line → section 0
    assert_eq!(conflict_section_at(c, &r, 0), Some(0));
    // In current content → section 0
    let current_pos = "<<<<<<< HEAD\n".chars().count();
    assert_eq!(conflict_section_at(c, &r, current_pos), Some(0));
    // On ======= line → None
    let sep_pos = "<<<<<<< HEAD\ncurrent\n".chars().count();
    assert_eq!(conflict_section_at(c, &r, sep_pos), None);
    // In incoming content → section 1
    let incoming_pos = "<<<<<<< HEAD\ncurrent\n=======\n".chars().count();
    assert_eq!(conflict_section_at(c, &r, incoming_pos), Some(1));
    // On >>>>>>> line → section 1
    let close_pos = "<<<<<<< HEAD\ncurrent\n=======\nincoming\n".chars().count();
    assert_eq!(conflict_section_at(c, &r, close_pos), Some(1));
}

#[test]
fn section_at_git_three_way() {
    let text = "<<<<<<< HEAD\ncurrent\n||||||| base\nbase\n=======\nincoming\n>>>>>>> b\n";
    let r = rope(text);
    let c = &find_conflicts(&r)[0];
    // On ||||||| line → section 1
    let base_marker = "<<<<<<< HEAD\ncurrent\n".chars().count();
    assert_eq!(conflict_section_at(c, &r, base_marker), Some(1));
    // In base content → section 1
    let base_pos = "<<<<<<< HEAD\ncurrent\n||||||| base\n".chars().count();
    assert_eq!(conflict_section_at(c, &r, base_pos), Some(1));
    // On ======= → None
    let sep_pos = "<<<<<<< HEAD\ncurrent\n||||||| base\nbase\n"
        .chars()
        .count();
    assert_eq!(conflict_section_at(c, &r, sep_pos), None);
}

#[test]
fn section_at_jj_snapshot() {
    let text = [
        "<<<<<<< Conflict\n",
        "+++++++ s1\n",
        "hello\n",
        "------- base\n",
        "world\n",
        "+++++++ s2\n",
        "rust\n",
        ">>>>>>> Conflict ends\n",
    ].concat();
    let r = rope(&text);
    let c = &find_conflicts(&r)[0];
    // On +++++++ s1 line → section 0
    let s1_marker = "<<<<<<< Conflict\n".chars().count();
    assert_eq!(conflict_section_at(c, &r, s1_marker), Some(0));
    // On ------- line → section 1
    let base_marker = "<<<<<<< Conflict\n+++++++ s1\nhello\n".chars().count();
    assert_eq!(conflict_section_at(c, &r, base_marker), Some(1));
    // On +++++++ s2 line → section 2
    let s2_marker = "<<<<<<< Conflict\n+++++++ s1\nhello\n------- base\nworld\n"
        .chars()
        .count();
    assert_eq!(conflict_section_at(c, &r, s2_marker), Some(2));
    // On >>>>>>> line → section 2 (last)
    let close = "<<<<<<< Conflict\n+++++++ s1\nhello\n------- base\nworld\n+++++++ s2\nrust\n"
        .chars()
        .count();
    assert_eq!(conflict_section_at(c, &r, close), Some(2));
}

#[test]
fn conflict_marker_lines_returns_sorted() {
    let text = [
        "before\n",
        "<<<<<<< HEAD\ncurrent\n||||||| base\nbase\n=======\nincoming\n>>>>>>> b\n",
        "after\n",
    ].concat();
    let r = rope(&text);
    let conflicts = find_conflicts(&r);
    let lines = conflict_marker_lines(&conflicts, &r);
    assert!(!lines.is_empty());
    for i in 0..lines.len() - 1 {
        assert!(lines[i] < lines[i + 1]);
    }
    let dedup_check: Vec<_> = lines.iter().collect();
    assert_eq!(dedup_check.len(), lines.len());
}
