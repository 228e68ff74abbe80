//! Marker lines, formats and the exact shape of what is found.

use ropey::Rope;
use vcs_conflict::parse::{role_of_line, LineRole};
use vcs_conflict::{current_content, find_conflicts, ConflictRegion, Section, SectionKind};

fn role(line: &str) -> LineRole {
    role_of_line(&line.chars().collect())
}

fn find(text: &str) -> Vec<ConflictRegion> {
    find_conflicts(&Rope::from(text))
}

fn section(
    kind: SectionKind,
    marker_start: usize,
    marker_lines: usize,
    content_start: usize,
    content_end: usize,
) -> Section {
    Section { kind, marker_start, marker_lines, content_start, content_end }
}

fn content(text: &str, section: &Section) -> String {
    Rope::from(text).slice(section.content_start..section.content_end).to_string()
}

#[test]
fn each_marker_has_its_role() {
    assert_eq!(role("<<<<<<< HEAD\n"), LineRole::Open);
    assert_eq!(role(">>>>>>> branch\n"), LineRole::Close);
    assert_eq!(role("||||||| base\n"), LineRole::Section(SectionKind::Base));
    assert_eq!(role("=======\n"), LineRole::Section(SectionKind::Side));
    assert_eq!(role("+++++++ side\n"), LineRole::JjSection(SectionKind::Side));
    assert_eq!(role("------- base\n"), LineRole::JjSection(SectionKind::Base));
    assert_eq!(role("%%%%%%% diff\n"), LineRole::JjSection(SectionKind::Diff));
    assert_eq!(role("\\\\\\\\\\\\\\ to\n"), LineRole::Continuation);
    assert_eq!(role("text\n"), LineRole::Text);
}

#[test]
fn marker_has_exactly_seven_marks() {
    assert_eq!(role("<<<<<<<"), LineRole::Open);
    assert_eq!(role("<<<<<<<\n"), LineRole::Open);
    assert_eq!(role("<<<<<<<\r\n"), LineRole::Open);
    assert_eq!(role("<<<<<<< "), LineRole::Open);
    assert_eq!(role("<<<<<<<<\n"), LineRole::Text);
    assert_eq!(role("<<<<<<\n"), LineRole::Text);
    assert_eq!(role("<<<<<<<x\n"), LineRole::Text);
    assert_eq!(role("<<<<<<<\t\n"), LineRole::Text);
    assert_eq!(role(" <<<<<<<\n"), LineRole::Text);
    assert_eq!(role("<<<<<<"), LineRole::Text);
    assert_eq!(role(""), LineRole::Text);
}

#[test]
fn short_last_line_closes_nothing() {
    assert!(find("<<<<<<< a\nx\n=======\ny\n>>").is_empty());
    assert!(find("<<<<<<< a\nx\n>>>>>>").is_empty());
    assert!(find("<<<<<<< a\nx\n").is_empty());
    assert_eq!(find("<<<<<<< a\nx\n>>>>>>>").len(), 1);
}

#[test]
fn closing_line_alone_is_no_conflict() {
    assert!(find(">>>>>>> a\n").is_empty());
    assert!(find("text\n=======\n>>>>>>> a\n").is_empty());
    assert!(find("").is_empty());
}

#[test]
fn two_way_positions() {
    let found = find("ab\n<<<<<<< x\none\n=======\ntwo\n>>>>>>> y\nz\n");
    assert_eq!(
        found,
        vec![ConflictRegion {
            start: 3,
            sections: vec![
                section(SectionKind::Side, 3, 1, 13, 17),
                section(SectionKind::Side, 17, 1, 25, 29),
            ],
            end: 39,
        }]
    );
}

#[test]
fn positions_count_characters() {
    let found = find("äöü\n<<<<<<< ß\n€\n=======\nπ\n>>>>>>> y\n");
    assert_eq!(found.len(), 1);
    assert_eq!(found[0].start, 4);
    assert_eq!(found[0].sections[0], section(SectionKind::Side, 4, 1, 14, 16));
    assert_eq!(found[0].sections[1], section(SectionKind::Side, 16, 1, 24, 26));
    assert_eq!(found[0].end, 36);
}

#[test]
fn jj_positions_with_continued_diff() {
    let text = "<<<<<<< c\n%%%%%%% d\n\\\\\\\\\\\\\\ t\n-a\n+b\n+++++++ s\nc\n>>>>>>> c\n";
    let found = find(text);
    assert_eq!(
        found,
        vec![ConflictRegion {
            start: 0,
            sections: vec![
                section(SectionKind::Diff, 10, 2, 30, 36),
                section(SectionKind::Side, 36, 1, 46, 48),
            ],
            end: 58,
        }]
    );
}

#[test]
fn diff_without_continuation_has_one_marker_line() {
    let found = find("<<<<<<<\n%%%%%%%\n-a\n+b\n>>>>>>>\n");
    assert_eq!(found[0].sections[1], section(SectionKind::Diff, 8, 1, 16, 22));
}

#[test]
fn continuation_outside_a_diff_is_text() {
    let text = "<<<<<<<\n\\\\\\\\\\\\\\\nx\n>>>>>>>\n";
    let found = find(text);
    assert_eq!(found[0].sections.len(), 1);
    assert_eq!(found[0].sections[0].marker_lines, 1);
    assert_eq!(content(text, &found[0].sections[0]), "\\\\\\\\\\\\\\\nx\n");
}

#[test]
fn continuation_directly_follows_its_marker() {
    let text = "<<<<<<<\n+++++++\nx\n%%%%%%%\n-a\n\\\\\\\\\\\\\\\n+b\n>>>>>>>\n";
    let found = find(text);
    assert_eq!(found[0].sections.len(), 2);
    assert_eq!(found[0].sections[1], section(SectionKind::Diff, 18, 1, 26, 40));
    assert_eq!(content(text, &found[0].sections[1]), "-a\n\\\\\\\\\\\\\\\n+b\n");
    // A second continuation line is text.
    let text = "<<<<<<<\n+++++++\nx\n%%%%%%%\n\\\\\\\\\\\\\\ a\n\\\\\\\\\\\\\\ b\n>>>>>>>\n";
    let found = find(text);
    assert_eq!(found[0].sections[1].marker_lines, 2);
    assert_eq!(content(text, &found[0].sections[1]), "\\\\\\\\\\\\\\ b\n");
}

#[test]
fn opening_line_is_no_section_in_jj_format() {
    let text = "<<<<<<<\n+++++++\na\n-------\nb\n>>>>>>>\n";
    let found = find(text);
    assert_eq!(found[0].start, 0);
    assert_eq!(found[0].sections.len(), 2);
    assert_eq!(found[0].sections[0].marker_start, 8);
    assert_eq!(found[0].sections[1].kind, SectionKind::Base);
}

#[test]
fn empty_jj_sections_are_kept_between_snapshots() {
    let found = find("<<<<<<<\n+++++++\n-------\n+++++++\n>>>>>>>\n");
    let kinds: Vec<SectionKind> = found[0].sections.iter().map(|s| s.kind).collect();
    assert_eq!(kinds, vec![SectionKind::Side, SectionKind::Base, SectionKind::Side]);
    assert!(found[0].sections.iter().all(|s| s.content_start == s.content_end));
}

#[test]
fn empty_section_before_a_diff_is_kept() {
    let found = find("<<<<<<<\n+++++++ a\nx\n+++++++ b\n%%%%%%%\n y\n>>>>>>>\n");
    assert_eq!(found.len(), 1);
    assert_eq!(
        found[0].sections,
        vec![
            section(SectionKind::Side, 8, 1, 18, 20),
            section(SectionKind::Side, 20, 1, 30, 30),
            section(SectionKind::Diff, 30, 1, 38, 41),
        ]
    );
    let found = find("<<<<<<<\n+++++++\n%%%%%%%\n+a\n>>>>>>>\n");
    assert_eq!(
        found[0].sections,
        vec![
            section(SectionKind::Side, 8, 1, 16, 16),
            section(SectionKind::Diff, 16, 1, 24, 27),
        ]
    );
}

#[test]
fn empty_git_section_before_a_jj_marker_is_kept() {
    let found = find("<<<<<<<\nx\n=======\n+++++++\ny\n>>>>>>>\n");
    assert_eq!(
        found[0].sections,
        vec![
            section(SectionKind::Side, 0, 1, 8, 10),
            section(SectionKind::Side, 10, 1, 18, 18),
            section(SectionKind::Side, 18, 1, 26, 28),
        ]
    );
}

#[test]
fn git_sections_are_kept_when_empty() {
    let found = find("<<<<<<<\n|||||||\n=======\n>>>>>>>\n");
    let kinds: Vec<SectionKind> = found[0].sections.iter().map(|s| s.kind).collect();
    assert_eq!(kinds, vec![SectionKind::Side, SectionKind::Base, SectionKind::Side]);
}

#[test]
fn opening_line_is_a_side_where_there_is_no_other() {
    let found = find("<<<<<<<\n------- base\nb\n>>>>>>>\n");
    assert_eq!(
        found[0].sections,
        vec![
            section(SectionKind::Side, 0, 1, 8, 8),
            section(SectionKind::Base, 8, 1, 21, 23),
        ]
    );
    let found = find("<<<<<<<\n%%%%%%%\n-a\n+b\n>>>>>>>\n");
    assert_eq!(
        found[0].sections,
        vec![
            section(SectionKind::Side, 0, 1, 8, 8),
            section(SectionKind::Diff, 8, 1, 16, 22),
        ]
    );
    // A side comes later, so that the opening line starts no section.
    let found = find("<<<<<<<\n-------\nb\n=======\nc\n>>>>>>>\n");
    let kinds: Vec<SectionKind> = found[0].sections.iter().map(|s| s.kind).collect();
    assert_eq!(kinds, vec![SectionKind::Base, SectionKind::Side]);
}

#[test]
fn every_conflict_has_a_side() {
    for text in [
        "<<<<<<<\n>>>>>>>\n",
        "<<<<<<<\n-------\n>>>>>>>\n",
        "<<<<<<<\n%%%%%%%\n>>>>>>>\n",
        "<<<<<<<\n%%%%%%%\n-------\n>>>>>>>\n",
        "<<<<<<<\n|||||||\n>>>>>>>\n",
        "<<<<<<<\n%%%%%%%\n+++++++\n%%%%%%%\n>>>>>>>\n",
    ] {
        let found = find(text);
        assert_eq!(found.len(), 1);
        assert!(found[0].sections.iter().any(|s| s.kind == SectionKind::Side));
        assert_eq!(current_content(&found[0]).0, {
            let side = found[0].sections.iter().find(|s| s.kind == SectionKind::Side).unwrap();
            side.content_start
        });
    }
}

#[test]
fn sections_follow_each_other() {
    for text in [
        "<<<<<<< a\nx\n||||||| b\ny\n=======\nz\n>>>>>>> c\n",
        "<<<<<<<\n+++++++\n%%%%%%%\n%%%%%%%\n-------\n+++++++\nx\n>>>>>>>\n",
        "<<<<<<<\nx\n+++++++\n=======\n%%%%%%%\n>>>>>>>\n",
    ] {
        let found = find(text);
        for pair in found[0].sections.windows(2) {
            assert_eq!(pair[0].content_end, pair[1].marker_start);
        }
    }
}

#[test]
fn conflicts_of_texts_in_a_row() {
    let first = "a\n<<<<<<<\nx\n>>>>>>>\nb\n";
    let second = "<<<<<<<\ny\n=======\nz\n>>>>>>>\n";
    let joined = find(&[first, second].concat());
    let (one, two) = (find(first), find(second));
    let by = first.chars().count();
    assert_eq!(joined.len(), 2);
    assert_eq!(joined[0], one[0]);
    assert_eq!(joined[1].start, two[0].start + by);
    assert_eq!(joined[1].end, two[0].end + by);
    assert_eq!(joined[1].sections[1].content_start, two[0].sections[1].content_start + by);
}

#[test]
fn unclosed_conflict_hides_nothing_before_it() {
    let text = "<<<<<<<\nx\n>>>>>>>\n<<<<<<<\ny\n=======\nz\n";
    let found = find(text);
    assert_eq!(found.len(), 1);
    assert_eq!(found[0].end, 18);
}

#[test]
fn regions_are_in_order_and_apart() {
    let found = find("<<<<<<<\na\n>>>>>>>\n<<<<<<<\nb\n>>>>>>>\n<<<<<<<\nc\n>>>>>>>\n");
    assert_eq!(found.len(), 3);
    for pair in found.windows(2) {
        assert!(pair[0].start < pair[0].end);
        assert!(pair[0].end <= pair[1].start);
    }
}

#[test]
fn no_text_of_a_conflict_is_lost() {
    let text = "<<<<<<<\none\n+++++++\ntwo\n%%%%%%%\n three\n-------\nfour\n>>>>>>>\n";
    let found = find(text);
    let all: String = found[0].sections.iter().map(|s| content(text, s)).collect();
    assert_eq!(all, "one\ntwo\n three\nfour\n");
}

#[test]
fn line_feed_alone_ends_a_line() {
    // A carriage return, a form feed or a line separator is part of the line.
    let found = find("x\r<<<<<<<\ny\n>>>>>>>\n");
    assert!(found.is_empty());
    let found = find("x\u{2028}<<<<<<<\ny\n>>>>>>>\n");
    assert!(found.is_empty());
}
