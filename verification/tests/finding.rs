//! Conflicts are found, with their sections and contents.

use ropey::Rope;
use vcs_conflict::{
    all_sides_content, base_content, current_content, find_conflicts, incoming_content,
    ConflictRegion, SectionKind,
};

fn rope(s: &str) -> Rope {
    Rope::from(s)
}

fn parse_one(s: &str) -> (Rope, ConflictRegion) {
    let r = Rope::from(s);
    let mut c = find_conflicts(&r);
    assert_eq!(c.len(), 1, "expected exactly one conflict");
    (r, c.swap_remove(0))
}

#[test]
fn no_conflicts() {
    assert!(find_conflicts(&rope("hello\nworld\n")).is_empty());
}

#[test]
fn bare_conflict() {
    // A manually-edited conflict with no inner markers — just <<<<<<< / content / >>>>>>>
    let (r, c) = parse_one("<<<<<<< HEAD\nhand-picked\n>>>>>>> branch\n");
    assert_eq!(c.sections.len(), 1);
    assert_eq!(c.sections[0].kind, SectionKind::Side);
    let (s, e) = current_content(&c);
    assert_eq!(r.slice(s..e).to_string(), "hand-picked\n");
    let (s, e) = incoming_content(&c);
    assert_eq!(r.slice(s..e).to_string(), "hand-picked\n");
    assert!(base_content(&c).is_none());
}

#[test]
fn two_way_conflict_basic() {
    let (r, c) = parse_one("<<<<<<< HEAD\ncurrent\n=======\nincoming\n>>>>>>> branch\n");
    assert_eq!(c.sections.len(), 2);
    assert_eq!(c.sections[0].kind, SectionKind::Side);
    assert_eq!(c.sections[1].kind, SectionKind::Side);
    assert_eq!(c.start, 0);
    assert_eq!(c.end, r.len_chars());
}

#[test]
fn two_way_conflict_content() {
    let (r, c) =
        parse_one("<<<<<<< HEAD\ncurrent line\n=======\nincoming line\n>>>>>>> branch\n");
    let (s, e) = current_content(&c);
    assert_eq!(r.slice(s..e).to_string(), "current line\n");
    let (s, e) = incoming_content(&c);
    assert_eq!(r.slice(s..e).to_string(), "incoming line\n");
}

#[test]
fn three_way_conflict_basic() {
    let (_, c) = parse_one(
        "<<<<<<< HEAD\ncurrent\n||||||| base\noriginal\n=======\nincoming\n>>>>>>> branch\n",
    );
    assert_eq!(c.sections.len(), 3);
    assert_eq!(c.sections[0].kind, SectionKind::Side);
    assert_eq!(c.sections[1].kind, SectionKind::Base);
    assert_eq!(c.sections[2].kind, SectionKind::Side);
}

#[test]
fn three_way_content() {
    let text =
        "<<<<<<< HEAD\ncurrent\n||||||| base\nbase line\n=======\nincoming\n>>>>>>> branch\n";
    let r = rope(text);
    let c = &find_conflicts(&r)[0];
    let (s, e) = current_content(c);
    assert_eq!(r.slice(s..e).to_string(), "current\n");
    let (s, e) = base_content(c).unwrap();
    assert_eq!(r.slice(s..e).to_string(), "base line\n");
    let (s, e) = incoming_content(c);
    assert_eq!(r.slice(s..e).to_string(), "incoming\n");
}

#[test]
fn multiple_conflicts() {
    let text = [
        "before\n",
        "<<<<<<< HEAD\na\n=======\nb\n>>>>>>> b\n",
        "between\n",
        "<<<<<<< HEAD\nc\n=======\nd\n>>>>>>> b\n",
        "after\n",
    ].concat();
    let r = rope(&text);
    let conflicts = find_conflicts(&r);
    assert_eq!(conflicts.len(), 2);
    assert!(conflicts[1].start > conflicts[0].end);
}

#[test]
fn conflict_no_trailing_newline() {
    let text = "<<<<<<< HEAD\ncurrent\n=======\nincoming\n>>>>>>> branch";
    let r = rope(text);
    let conflicts = find_conflicts(&r);
    assert_eq!(conflicts.len(), 1);
    assert_eq!(conflicts[0].end, text.chars().count());
}

#[test]
fn incomplete_no_close_ignored() {
    assert!(find_conflicts(&rope("<<<<<<< HEAD\ncurrent\n=======\nincoming\n")).is_empty());
}

#[test]
fn restarted_on_nested_open_marker() {
    let text = [
        "<<<<<<< outer\n",
        "<<<<<<< inner\n",
        "current\n",
        "=======\n",
        "incoming\n",
        ">>>>>>> inner\n",
    ].concat();
    let r = rope(&text);
    let conflicts = find_conflicts(&r);
    assert_eq!(conflicts.len(), 1);
    assert_eq!(conflicts[0].start, "<<<<<<< outer\n".chars().count());
}

#[test]
fn jj_style_git_diff3_labels() {
    // jj produces diff3 markers with change IDs
    let text = [
        "<<<<<<< ouyysnvk c9a24f82 \"first version\"\n",
        "1st version\n",
        "||||||| zxwrknxy 62f152a0 \"base\"\n",
        "original\n",
        "=======\n",
        "2nd version\n",
        ">>>>>>> kyqztmxm cf165681 \"second version\"\n",
    ].concat();
    let r = rope(&text);
    let conflicts = find_conflicts(&r);
    assert_eq!(conflicts.len(), 1);
    let c = &conflicts[0];
    assert_eq!(c.sections.len(), 3);
    let (s, e) = current_content(c);
    assert_eq!(r.slice(s..e).to_string(), "1st version\n");
    let (s, e) = base_content(c).unwrap();
    assert_eq!(r.slice(s..e).to_string(), "original\n");
    let (s, e) = incoming_content(c);
    assert_eq!(r.slice(s..e).to_string(), "2nd version\n");
}

#[test]
fn jj_snapshot_two_sides() {
    // jj snapshot format: 2 sides + 1 base
    let (r, c) = parse_one(&[
        "<<<<<<< Conflict 1 of 1\n",
        "+++++++ side #1\n",
        "alpha\n",
        "------- base\n",
        "beta\n",
        "+++++++ side #2\n",
        "gamma\n",
        ">>>>>>> Conflict 1 of 1 ends\n",
    ].concat());
    assert_eq!(c.sections.len(), 3);
    assert_eq!(c.sections[0].kind, SectionKind::Side);
    assert_eq!(c.sections[1].kind, SectionKind::Base);
    assert_eq!(c.sections[2].kind, SectionKind::Side);
    let (s, e) = current_content(&c);
    assert_eq!(r.slice(s..e).to_string(), "alpha\n");
    let (s, e) = base_content(&c).unwrap();
    assert_eq!(r.slice(s..e).to_string(), "beta\n");
    let (s, e) = incoming_content(&c);
    assert_eq!(r.slice(s..e).to_string(), "gamma\n");
}

#[test]
fn jj_diff_format() {
    let text = [
        "<<<<<<< conflict 1 of 1\n",
        "%%%%%%% diff from: vpxusssl 38d49363 \"merge base\"\n",
        "\\\\\\\\\\\\\\        to: rtsqusxu 2768b0b9 \"commit A\"\n",
        " apple\n",
        "-grape\n",
        "+grapefruit\n",
        " orange\n",
        "+++++++ ysrnknol 7a20f389 \"commit B\"\n",
        "APPLE\n",
        "GRAPE\n",
        "ORANGE\n",
        ">>>>>>> conflict 1 of 1 ends\n",
    ].concat();
    let r = rope(&text);
    let conflicts = find_conflicts(&r);
    assert_eq!(conflicts.len(), 1);
    let c = &conflicts[0];
    assert_eq!(c.sections.len(), 2);
    assert_eq!(c.sections[0].kind, SectionKind::Diff);
    assert_eq!(c.sections[0].marker_lines, 2);
    assert_eq!(
        r.slice(c.sections[0].content_start..c.sections[0].content_end)
            .to_string(),
        " apple\n-grape\n+grapefruit\n orange\n"
    );
    assert_eq!(
        r.slice(c.sections[0].marker_start..c.sections[0].content_start)
            .to_string(),
        "%%%%%%% diff from: vpxusssl 38d49363 \"merge base\"\n\\\\\\\\\\\\\\        to: rtsqusxu 2768b0b9 \"commit A\"\n"
    );
    assert_eq!(c.sections[1].kind, SectionKind::Side);
    assert_eq!(c.sections[1].marker_lines, 1);
}

#[test]
fn jj_snapshot_section_content() {
    let text = [
        "<<<<<<< Conflict\n",
        "+++++++ s1\n",
        "hello\n",
        "------- base\n",
        "world\n",
        "+++++++ s2\n",
        "rust\n",
        ">>>>>>> Conflict ends\n",
    ].concat();
    let r = rope(&text);
    let c = &find_conflicts(&r)[0];
    let (s, e) = (c.sections[0].content_start, c.sections[0].content_end);
    assert_eq!(r.slice(s..e).to_string(), "hello\n");
    let (s, e) = (c.sections[1].content_start, c.sections[1].content_end);
    assert_eq!(r.slice(s..e).to_string(), "world\n");
    let (s, e) = (c.sections[2].content_start, c.sections[2].content_end);
    assert_eq!(r.slice(s..e).to_string(), "rust\n");
}

#[test]
fn all_sides_content_concatenates() {
    let text = [
        "<<<<<<< Conflict\n",
        "+++++++ s1\nfirst\n",
        "------- base\nbase\n",
        "+++++++ s2\nsecond\n",
        "+++++++ s3\nthird\n",
        ">>>>>>> Conflict ends\n",
    ].concat();
    let r = rope(&text);
    let c = &find_conflicts(&r)[0];
    let all = all_sides_content(&r, c);
    assert!(all.contains("first"));
    assert!(all.contains("second"));
    assert!(all.contains("third"));
    // Base should NOT be included
    assert!(!all.contains("base\n"));
}

#[test]
fn empty_side_conflict() {
    let text = "<<<<<<<\n=======\n>>>>>>>\n";
    let r = rope(text);
    let conflicts = find_conflicts(&r);
    assert_eq!(conflicts.len(), 1);
    let c = &conflicts[0];
    assert_eq!(c.sections.len(), 2);
    let (s, e) = current_content(c);
    assert_eq!(r.slice(s..e).to_string(), "");
    let (s, e) = incoming_content(c);
    assert_eq!(r.slice(s..e).to_string(), "");
}

#[test]
fn conflict_with_crlf() {
    let text = "<<<<<<< HEAD\r\ncurrent\r\n=======\r\nincoming\r\n>>>>>>> b\r\n";
    let r = rope(text);
    let conflicts = find_conflicts(&r);
    assert_eq!(conflicts.len(), 1);
}

#[test]
fn transition_to_jj_with_content_section() {
    // Git→Jj transition where the implicit git side has content
    let text = [
        "<<<<<<< Conflict\n",
        "shared content\n",
        "+++++++ side #1\n",
        "more\n",
        ">>>>>>> Conflict ends\n",
    ].concat();
    let r = rope(&text);
    let conflicts = find_conflicts(&r);
    assert_eq!(conflicts.len(), 1);
    let c = &conflicts[0];
    // The git side with "shared content" should be preserved
    assert_eq!(c.sections.len(), 2);
    let (s, e) = current_content(c);
    assert_eq!(r.slice(s..e).to_string(), "shared content\n");
    let (s, e) = incoming_content(c);
    assert_eq!(r.slice(s..e).to_string(), "more\n");
}
