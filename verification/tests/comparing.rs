//! Tokens, edit scripts and the comparison of sections, in detail.

use ropey::Rope;
use std::ops::Range;
use vcs_conflict::diff::{match_tokens, Hunk};
use vcs_conflict::refine::{interleave, unmatched_ranges};
use vcs_conflict::tokens::{
    is_word_char, tokenize_line_ranges, tokenize_nonword_ranges, tokenize_word_ranges,
};
use vcs_conflict::words::{changed_ranges, resolve_diff_content_mapped};
use vcs_conflict::{
    all_sides_content, find_conflicts, refine_diff, refine_diff_section, refine_side_diff_added,
    refine_side_with_base, resolve_diff_content, resolve_diff_content_base, ConflictRegion, Section,
    SectionKind,
};

fn one(text: &str) -> (Rope, ConflictRegion) {
    let rope = Rope::from(text);
    let region = find_conflicts(&rope).swap_remove(0);
    (rope, region)
}

fn texts(rope: &Rope, ranges: &[Range<usize>]) -> Vec<String> {
    ranges.iter().map(|range| rope.slice(range.clone()).to_string()).collect()
}

/// A section that is the whole of a text.
fn whole(text: &str, kind: SectionKind) -> (Rope, Section) {
    let rope = Rope::from(text);
    let content_end = rope.len_chars();
    let section =
        Section { kind, marker_start: 0, marker_lines: 0, content_start: 0, content_end };
    (rope, section)
}

fn without(rope: &Rope, range: (usize, usize), cuts: &[Range<usize>]) -> String {
    (range.0..range.1)
        .filter(|pos| !cuts.iter().any(|cut| cut.contains(pos)))
        .map(|pos| rope.char(pos))
        .collect()
}

fn hunk(before_start: usize, before_end: usize, after_start: usize, after_end: usize) -> Hunk {
    Hunk { before_start, before_end, after_start, after_end }
}

#[test]
fn word_characters() {
    for c in ['a', 'z', 'A', 'Z', '0', '9', 'ä', '\u{80}', '\u{a0}', '字'] {
        assert!(is_word_char(c));
    }
    for c in ['_', ' ', '\n', '-', '@', '[', '`', '{', '/', ':', '\u{7f}', '\0'] {
        assert!(!is_word_char(c));
    }
}

#[test]
fn lines_are_tokens_with_their_line_feed() {
    let rope = Rope::from("ab\n\ncd\nef");
    assert_eq!(tokenize_line_ranges(&rope, 0..9), vec![0..3, 3..4, 4..7, 7..9]);
    assert_eq!(tokenize_line_ranges(&rope, 1..6), vec![1..3, 3..4, 4..6]);
    assert_eq!(tokenize_line_ranges(&rope, 0..3), vec![0..3]);
    assert!(tokenize_line_ranges(&rope, 4..4).is_empty());
}

#[test]
fn words_are_tokens() {
    let rope = Rope::from("foo_bar  (b4z)ä");
    assert_eq!(tokenize_word_ranges(&rope, 0..15), vec![0..3, 4..7, 10..13, 14..15]);
    assert_eq!(tokenize_word_ranges(&rope, 1..6), vec![1..3, 4..6]);
    assert!(tokenize_word_ranges(&rope, 7..10).is_empty());
}

#[test]
fn other_characters_are_tokens_of_their_own() {
    let rope = Rope::from("a_b  (c)\n");
    assert_eq!(
        tokenize_nonword_ranges(&rope, 0..9),
        vec![1..2, 3..4, 4..5, 5..6, 7..8, 8..9]
    );
    assert!(tokenize_nonword_ranges(&rope, 0..1).is_empty());
}

#[test]
fn words_and_other_characters_divide_a_text() {
    let rope = Rope::from("let foo_bar = \"ä b\";\n");
    let n = rope.len_chars();
    let words = tokenize_word_ranges(&rope, 0..n);
    let others = tokenize_nonword_ranges(&rope, 0..n);
    for pos in 0..n {
        let in_word = words.iter().any(|range| range.contains(&pos));
        let in_other = others.iter().any(|range| range.contains(&pos));
        assert!(in_word != in_other);
    }
}

#[test]
fn unchanged_tokens_are_matched() {
    let left = vec![0..1, 2..3, 4..5, 6..7];
    let right = vec![10..11, 12..13, 14..15];
    // The second and third tokens of the left were replaced by the second of the right.
    let pairs = match_tokens(&left, &right, &vec![hunk(1, 3, 1, 2)]);
    assert_eq!(pairs, vec![(0..1, 10..11), (6..7, 14..15)]);
    // All were replaced.
    assert!(match_tokens(&left, &right, &vec![hunk(0, 4, 0, 3)]).is_empty());
    // One was removed at the start.
    let pairs = match_tokens(&left, &right, &vec![hunk(0, 1, 0, 0)]);
    assert_eq!(pairs, vec![(2..3, 10..11), (4..5, 12..13), (6..7, 14..15)]);
    // Nothing changed.
    let pairs = match_tokens(&right, &right, &Vec::new());
    assert_eq!(pairs.len(), 3);
}

#[test]
fn changed_words_are_joined_where_they_touch() {
    let words = vec![0..2, 2..4, 5..7, 8..9];
    let hunks = vec![hunk(0, 2, 0, 0), hunk(3, 4, 1, 3)];
    assert_eq!(changed_ranges(&words, &hunks, false), vec![0..4, 8..9]);
    assert_eq!(changed_ranges(&words, &hunks, true), vec![2..4, 5..7]);
    assert!(changed_ranges(&words, &Vec::new(), true).is_empty());
}

#[test]
fn matches_in_gaps_are_inserted() {
    let pairs = vec![(0..0, 0..0), (3..4, 5..6), (9..9, 9..9)];
    let found = vec![vec![(1..2, 2..3)], Vec::new()];
    assert_eq!(
        interleave(&pairs, &found),
        vec![(0..0, 0..0), (1..2, 2..3), (3..4, 5..6), (9..9, 9..9)]
    );
}

#[test]
fn gaps_between_matches_are_reported() {
    let pairs = vec![(0..0, 10..10), (2..4, 10..12), (4..5, 15..16), (9..9, 16..16)];
    let (left, right) = unmatched_ranges(&pairs);
    assert_eq!(left, vec![0..2, 5..9]);
    assert_eq!(right, vec![12..15]);
    let (left, right) = unmatched_ranges(&Vec::new());
    assert!(left.is_empty() && right.is_empty());
}

#[test]
fn refine_diff_ranges() {
    let rope = Rope::from("hello world\nhello rust\n");
    let (removed, added) = refine_diff(&rope, (0, 12), (12, 23));
    assert_eq!(removed, vec![6..11]);
    assert_eq!(added, vec![18..22]);
}

#[test]
fn refine_diff_of_empty_ranges() {
    let rope = Rope::from("abc\n");
    assert_eq!(refine_diff(&rope, (0, 0), (0, 4)), (vec![], vec![0..4]));
    assert_eq!(refine_diff(&rope, (0, 4), (4, 4)), (vec![0..4], vec![]));
    assert_eq!(refine_diff(&rope, (2, 2), (4, 4)), (vec![], vec![]));
}

#[test]
fn refine_diff_leaves_the_same_text_on_both_sides() {
    let cases = [
        ("fn a() {\n    b(1, 2);\n}\n", "fn a(x) {\n    b(1, x);\n    c();\n}\n"),
        ("one\ntwo\nthree\n", "three\none\ntwo\n"),
        ("ä ö ü", "ö ü ä"),
        ("", "text\n"),
        ("a b c d e", "e d c b a"),
    ];
    for (left, right) in cases {
        let rope = Rope::from([left, right].concat().as_str());
        let middle = left.chars().count();
        let end = rope.len_chars();
        let (removed, added) = refine_diff(&rope, (0, middle), (middle, end));
        assert_eq!(without(&rope, (0, middle), &removed), without(&rope, (middle, end), &added));
        for ranges in [&removed, &added] {
            assert!(ranges.iter().all(|range| range.start < range.end));
            assert!(ranges.windows(2).all(|pair| pair[0].end < pair[1].start));
        }
        for (range, ranges) in [(0..middle, &removed), (middle..end, &added)] {
            for word in tokenize_word_ranges(&rope, range) {
                assert!(ranges.iter().all(|r| {
                    r.end <= word.start
                        || word.end <= r.start
                        || (r.start <= word.start && word.end <= r.end)
                }));
            }
        }
    }
}

#[test]
fn refine_diff_finds_inserted_punctuation() {
    let rope = Rope::from("call(a)call(a,)");
    let (removed, added) = refine_diff(&rope, (0, 7), (7, 15));
    assert!(removed.is_empty());
    assert_eq!(texts(&rope, &added), vec![","]);
}

#[test]
fn diff_lines_resolve_by_their_marks() {
    let (rope, section) = whole("+a\n-b\n c\nd\n\n  e\n", SectionKind::Diff);
    assert_eq!(resolve_diff_content(&rope, &section), "a\nc\nd\n\n e\n");
    assert_eq!(resolve_diff_content_base(&rope, &section), "b\nc\nd\n\n e\n");
}

#[test]
fn diff_without_line_feed_at_its_end() {
    let (rope, section) = whole(" ä\n+ß", SectionKind::Diff);
    assert_eq!(resolve_diff_content(&rope, &section), "ä\nß");
    assert_eq!(resolve_diff_content_base(&rope, &section), "ä\n");
    let (rope, section) = whole("", SectionKind::Diff);
    assert_eq!(resolve_diff_content(&rope, &section), "");
}

#[test]
fn resolved_characters_stand_in_the_document() {
    let (rope, section) = whole("+ä\n-gone\n b\nc", SectionKind::Diff);
    let (content, map) = resolve_diff_content_mapped(&rope, &section);
    let text: String = content.iter().collect();
    assert_eq!(text, resolve_diff_content(&rope, &section));
    assert_eq!(map, vec![1, 2, 10, 11, 12]);
    for (i, &pos) in map.iter().enumerate() {
        assert_eq!(rope.char(pos), content[i]);
    }
}

#[test]
fn diff_without_changes_resolves_to_one_text() {
    let (rope, section) = whole(" a\nb\n c", SectionKind::Diff);
    assert_eq!(resolve_diff_content(&rope, &section), "a\nb\nc");
    assert_eq!(resolve_diff_content_base(&rope, &section), "a\nb\nc");
}

#[test]
fn accepting_all_sides() {
    let (rope, c) =
        one("<<<<<<<\n+++++++\none\n-------\nbase\n%%%%%%%\n-old\n+new\n same\n>>>>>>>\n");
    assert_eq!(all_sides_content(&rope, &c), "one\nnew\nsame\n");
    let (rope, c) = one("<<<<<<<\na\n=======\nb\n>>>>>>>\n");
    assert_eq!(all_sides_content(&rope, &c), "a\nb\n");
}

#[test]
fn diff_section_words() {
    let (rope, c) = one("<<<<<<<\n%%%%%%%\n same\n-the old word\n+the new word here\n>>>>>>>\n");
    let (removed, added) = refine_diff_section(&rope, &c.sections[1]);
    assert_eq!(texts(&rope, &removed), vec!["old"]);
    assert_eq!(texts(&rope, &added), vec!["new", "here"]);
    assert_eq!(removed, vec![27..30]);
}

#[test]
fn diff_section_marks_are_no_part_of_words() {
    let (rope, section) = whole("-same\n+same\n", SectionKind::Diff);
    assert_eq!(refine_diff_section(&rope, &section), (vec![], vec![]));
    let (rope, section) = whole("--a\n++b\n", SectionKind::Diff);
    let (removed, added) = refine_diff_section(&rope, &section);
    assert_eq!(texts(&rope, &removed), vec!["-a"]);
    assert_eq!(texts(&rope, &added), vec!["+b"]);
}

#[test]
fn white_space_divides_words() {
    // No-break space, em space and ideographic space are white space; a zero-width
    // space is not.
    let (rope, section) = whole("a\u{a0}b\u{2003}c\u{3000}d\u{85}e\u{200b}f", SectionKind::Side);
    let added = refine_side_with_base(&rope, &section, "");
    assert_eq!(texts(&rope, &added), vec!["a", "b", "c", "d", "e\u{200b}f"]);
    let added = refine_side_with_base(&rope, &section, "a b\tc\nd");
    assert_eq!(texts(&rope, &added), vec!["e\u{200b}f"]);
}

#[test]
fn side_words_in_characters() {
    let (rope, c) = one("<<<<<<<\nä ö\nü ß\n>>>>>>>\n");
    let added = refine_side_with_base(&rope, &c.sections[0], "ä ü");
    assert_eq!(added, vec![10..11, 14..15]);
    assert_eq!(texts(&rope, &added), vec!["ö", "ß"]);
}

#[test]
fn side_against_diff() {
    let (rope, c) =
        one("<<<<<<<\n+++++++\nhello side\n%%%%%%%\n-hello old\n+hello their\n more\n>>>>>>>\n");
    let (side, diff) = (&c.sections[0], &c.sections[1]);
    assert_eq!(resolve_diff_content(&rope, diff), "hello their\nmore\n");
    let (on_side, on_diff) = refine_side_diff_added(&rope, side, diff);
    assert_eq!(texts(&rope, &on_side), vec!["side"]);
    assert_eq!(texts(&rope, &on_diff), vec!["their", "more"]);
    assert!(on_side.iter().all(|r| side.content_start <= r.start && r.end <= side.content_end));
    assert!(on_diff.iter().all(|r| diff.content_start <= r.start && r.end <= diff.content_end));
}

#[test]
fn unchanged_words_are_the_same_on_both_sides() {
    let cases = [
        ("a b c d\n", " b\n+x\n-a\n c a\n"),
        ("one two\nthree\n", "+three\n one\n-two\n two two\n"),
        ("x y z\n", "-x\n-y\n-z\n"),
        ("", "+q\n"),
    ];
    for (side, diff) in cases {
        let text =
            ["<<<<<<<\n+++++++\n", side, "%%%%%%%\n", diff, ">>>>>>>\n"].concat();
        let (rope, c) = one(&text);
        let (side, diff) = (&c.sections[0], &c.sections[1]);
        let (on_side, on_diff) = refine_side_diff_added(&rope, side, diff);
        for ranges in [&on_side, &on_diff] {
            assert!(ranges.windows(2).all(|pair| pair[0].end < pair[1].start));
        }
        // What is left of the side, and what is left of the resolved diff.
        let own = without(&rope, (side.content_start, side.content_end), &on_side);
        let mut their = String::new();
        let mut pos = diff.content_start;
        for line in rope.slice(diff.content_start..diff.content_end).lines() {
            let n = line.len_chars();
            if n > 0 && line.char(0) != '-' {
                their.push_str(&without(&rope, (pos + 1, pos + n), &on_diff));
            }
            pos += n;
        }
        let own: Vec<&str> = own.split_whitespace().collect();
        let their: Vec<&str> = their.split_whitespace().collect();
        assert_eq!(own, their);
    }
}

#[test]
fn side_against_the_same_diff() {
    let (rope, c) = one("<<<<<<<\n+++++++\na b\nc\n%%%%%%%\n a b\n-x\n+c\n>>>>>>>\n");
    let ranges = refine_side_diff_added(&rope, &c.sections[0], &c.sections[1]);
    assert_eq!(ranges, (vec![], vec![]));
}

#[test]
fn side_against_diff_without_line_feed_at_its_end() {
    let rope = Rope::from("a\n-x\n+bc");
    let side = Section {
        kind: SectionKind::Side,
        marker_start: 0,
        marker_lines: 0,
        content_start: 0,
        content_end: 2,
    };
    let diff = Section {
        kind: SectionKind::Diff,
        marker_start: 0,
        marker_lines: 0,
        content_start: 2,
        content_end: 8,
    };
    assert_eq!(refine_side_diff_added(&rope, &side, &diff), (vec![0..1], vec![6..8]));
}

#[test]
fn words_at_line_ends_are_not_joined() {
    // The dropped line stands between the two words in the document.
    let (rope, section) = whole("+one\n-gone\n+two\n", SectionKind::Diff);
    let (side_rope, side) = whole("", SectionKind::Side);
    assert_eq!(side_rope.len_chars(), 0);
    let (_, added) = refine_side_diff_added(&rope, &side, &section);
    assert_eq!(added, vec![1..4, 12..15]);
}
