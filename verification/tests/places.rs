//! Where positions stand, in detail.

use ropey::Rope;
use vcs_conflict::{
    conflict_at, conflict_marker_lines, conflict_section_at, find_conflicts, next_conflict,
    prev_conflict, ConflictRegion,
};

const JJ: &str = "<<<<<<< c\n+++++++ a\nx\n%%%%%%% b\n\\\\\\\\\\\\\\ t\n-y\n+z\n>>>>>>> c\n";

fn find(text: &str) -> (Rope, Vec<ConflictRegion>) {
    let rope = Rope::from(text);
    let found = find_conflicts(&rope);
    (rope, found)
}

#[test]
fn opening_line_is_in_the_first_section_of_a_jj_conflict() {
    let (rope, found) = find(JJ);
    for pos in 0..10 {
        assert_eq!(conflict_section_at(&found[0], &rope, pos), Some(0));
    }
    assert_eq!(conflict_section_at(&found[0], &rope, 10), Some(0));
}

#[test]
fn every_position_of_a_jj_conflict_is_in_a_section() {
    let (rope, found) = find(JJ);
    for pos in found[0].start..found[0].end {
        let expected = if pos < found[0].sections[1].marker_start { 0 } else { 1 };
        assert_eq!(conflict_section_at(&found[0], &rope, pos), Some(expected));
    }
}

#[test]
fn position_outside_a_region_is_in_no_section() {
    let (rope, found) = find("a\n<<<<<<<\nx\n>>>>>>>\nb\n");
    assert_eq!(conflict_section_at(&found[0], &rope, 1), None);
    assert_eq!(conflict_section_at(&found[0], &rope, 2), Some(0));
    assert_eq!(conflict_section_at(&found[0], &rope, found[0].end - 1), Some(0));
    assert_eq!(conflict_section_at(&found[0], &rope, found[0].end), None);
}

#[test]
fn whole_separator_line_is_in_no_section() {
    let (rope, found) = find("<<<<<<<\nx\n======= sep\ny\n>>>>>>>\n");
    for pos in 10..22 {
        assert_eq!(conflict_section_at(&found[0], &rope, pos), None);
    }
    assert_eq!(conflict_section_at(&found[0], &rope, 9), Some(0));
    assert_eq!(conflict_section_at(&found[0], &rope, 22), Some(1));
}

#[test]
fn every_separator_line_is_in_no_section() {
    // Two separators: the first, as under a heading, starts a section too.
    let (rope, found) = find("<<<<<<<\na\n=======\nb\n=======\nc\n>>>>>>>\n");
    assert_eq!(found[0].sections.len(), 3);
    for pos in 10..18 {
        assert_eq!(conflict_section_at(&found[0], &rope, pos), None);
    }
    assert_eq!(conflict_section_at(&found[0], &rope, 18), Some(1));
    for pos in 20..28 {
        assert_eq!(conflict_section_at(&found[0], &rope, pos), None);
    }
    assert_eq!(conflict_section_at(&found[0], &rope, 28), Some(2));
    // A separator that a jj marker follows.
    let (rope, found) = find("<<<<<<<\na\n=======\nb\n+++++++\nc\n>>>>>>>\n");
    assert_eq!(found[0].sections.len(), 3);
    assert_eq!(conflict_section_at(&found[0], &rope, 10), None);
    assert_eq!(conflict_section_at(&found[0], &rope, 17), None);
    assert_eq!(conflict_section_at(&found[0], &rope, 18), Some(1));
    assert_eq!(conflict_section_at(&found[0], &rope, 20), Some(2));
}

#[test]
fn region_without_sections_holds_no_position() {
    let region = ConflictRegion { start: 0, sections: Vec::new(), end: 2 };
    assert_eq!(conflict_section_at(&region, &Rope::from("ab"), 1), None);
}

#[test]
fn marker_lines_of_each_format() {
    let (rope, found) = find("a\n<<<<<<<\nx\n=======\ny\n>>>>>>>\n");
    assert_eq!(conflict_marker_lines(&found, &rope), vec![1, 3, 5]);
    let (rope, found) = find("<<<<<<<\nx\n|||||||\nb\n=======\ny\n>>>>>>>");
    assert_eq!(conflict_marker_lines(&found, &rope), vec![0, 2, 4, 6]);
    let (rope, found) = find(JJ);
    assert_eq!(conflict_marker_lines(&found, &rope), vec![0, 1, 3, 4, 7]);
}

#[test]
fn marker_lines_of_several_conflicts() {
    let (rope, found) = find("<<<<<<<\n>>>>>>>\nx\n<<<<<<<\ny\n=======\n>>>>>>>\n");
    assert_eq!(conflict_marker_lines(&found, &rope), vec![0, 1, 3, 5, 6]);
    let twice = [found.clone(), found].concat();
    assert_eq!(conflict_marker_lines(&twice, &rope), vec![0, 1, 3, 5, 6]);
}

#[test]
fn no_conflicts_have_no_marker_lines() {
    assert!(conflict_marker_lines(&[], &Rope::from("=======\n")).is_empty());
}

#[test]
fn next_and_previous_undo_each_other() {
    let (_, found) = find("<<<<<<<\na\n>>>>>>>\n<<<<<<<\nb\n>>>>>>>\n<<<<<<<\nc\n>>>>>>>\n");
    for i in 0..found.len() - 1 {
        assert_eq!(next_conflict(&found, found[i].start), Some(i + 1));
        assert_eq!(prev_conflict(&found, found[i + 1].start), Some(i));
    }
    assert_eq!(next_conflict(&found, found[2].start), None);
    assert_eq!(prev_conflict(&found, found[0].start), None);
}

#[test]
fn touching_conflicts_share_no_position() {
    let (_, found) = find("<<<<<<<\na\n>>>>>>>\n<<<<<<<\nb\n>>>>>>>\n");
    assert_eq!(found[0].end, found[1].start);
    assert_eq!(conflict_at(&found, found[0].end - 1), Some(0));
    assert_eq!(conflict_at(&found, found[0].end), Some(1));
    assert_eq!(conflict_at(&[], 0), None);
}

#[test]
fn conflicts_of_a_large_document() {
    // Long enough for the document to be stored in many pieces.
    let filler: String = (0..4000).map(|i| format!("line number {} äöü\n", i)).collect();
    let conflict = "<<<<<<< a\nmine\n=======\ntheirs\n>>>>>>> b\n";
    let text = [filler.as_str(), conflict, filler.as_str(), conflict].concat();
    let (rope, found) = find(&text);
    assert_eq!(found.len(), 2);
    assert_eq!(conflict_marker_lines(&found, &rope), vec![4000, 4002, 4004, 8005, 8007, 8009]);
    let n = filler.chars().count();
    let m = conflict.chars().count();
    assert_eq!((found[0].start, found[0].end), (n, n + m));
    assert_eq!((found[1].start, found[1].end), (n + m + n, n + m + n + m));
    for region in &found {
        let incoming = &region.sections[1];
        let content = rope.slice(incoming.content_start..incoming.content_end).to_string();
        assert_eq!(content, "theirs\n");
        assert_eq!(conflict_section_at(region, &rope, incoming.marker_start), None);
        assert_eq!(conflict_section_at(region, &rope, incoming.content_start), Some(1));
    }
}

#[test]
fn every_marker_line_is_reported() {
    let (rope, found) = find("<<<<<<<\n+++++++\n%%%%%%%\n+a\n>>>>>>>\n");
    assert_eq!(conflict_marker_lines(&found, &rope), vec![0, 1, 2, 4]);
    // A backslash line that does not follow its marker is text.
    let (rope, found) = find("<<<<<<<\n%%%%%%%\n+a\n\\\\\\\\\\\\\\\n+++++++\n>>>>>>>\n");
    assert_eq!(conflict_marker_lines(&found, &rope), vec![0, 1, 4, 5]);
}
