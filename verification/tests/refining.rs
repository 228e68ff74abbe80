//! Sections are resolved and compared.

use ropey::Rope;
use vcs_conflict::{
    all_sides_content, base_content, current_content, find_conflicts, incoming_content,
    refine_diff, refine_diff_section, refine_side_with_base, resolve_diff_content,
    resolve_diff_content_base, SectionKind,
};

fn rope(s: &str) -> Rope {
    Rope::from(s)
}

#[test]
fn refine_diff_cases() {
    for &(current, incoming) in &[
        ("hello world", "hello world"),        // identical
        ("hello world", "hello rust"),         // single word
        ("foo bar", "baz qux"),                // completely different
        ("hello world test", "hello foo bar"), // adjacent words
    ] {
        let text = format!(
            "<<<<<<< HEAD\n{}\n=======\n{}\n>>>>>>> b\n",
            current, incoming
        );
        let r = Rope::from(text.as_str());
        let c = &find_conflicts(&r)[0];
        let (removed, added) = refine_diff(&r, current_content(c), incoming_content(c));

        if current == incoming {
            assert!(removed.is_empty());
            assert!(added.is_empty());
            continue;
        }

        assert!(
            !removed.is_empty(),
            "expected removed for '{}' vs '{}'",
            current,
            incoming
        );
        assert!(
            !added.is_empty(),
            "expected added for '{}' vs '{}'",
            current,
            incoming
        );

        let removed_text: String = removed
            .iter()
            .map(|range| r.slice(range.clone()).to_string())
            .collect::<Vec<_>>()
            .join(" ");
        let added_text: String = added
            .iter()
            .map(|range| r.slice(range.clone()).to_string())
            .collect::<Vec<_>>()
            .join(" ");

        for word in current.split_whitespace() {
            if !incoming.contains(word) {
                assert!(
                    removed_text.contains(word),
                    "'{word}' missing from removed: '{removed_text}'"
                );
            }
        }
        for word in incoming.split_whitespace() {
            if !current.contains(word) {
                assert!(
                    added_text.contains(word),
                    "'{word}' missing from added: '{added_text}'"
                );
            }
        }
    }
}

#[test]
fn refine_diff_identical_sections() {
    // When both sides are identical, refine_diff should return no ranges.
    let text = "<<<<<<< HEAD\nhello world\n=======\nhello world\n>>>>>>> branch\n";
    let r = rope(text);
    let conflicts = find_conflicts(&r);
    let left = current_content(&conflicts[0]);
    let right = incoming_content(&conflicts[0]);
    let (removed, added) = refine_diff(&r, left, right);
    assert!(
        removed.is_empty(),
        "expected no removed ranges, got {:?}",
        removed
    );
    assert!(
        added.is_empty(),
        "expected no added ranges, got {:?}",
        added
    );
}

#[test]
fn refine_diff_single_word_change() {
    // "hello world" vs "hello rust" — only "world"/"rust" differ.
    let text = "<<<<<<< HEAD\nhello world\n=======\nhello rust\n>>>>>>> branch\n";
    let r = rope(text);
    let conflicts = find_conflicts(&r);
    let left = current_content(&conflicts[0]);
    let right = incoming_content(&conflicts[0]);
    let (removed, added) = refine_diff(&r, left, right);

    assert_eq!(
        removed.len(),
        1,
        "expected 1 removed range, got {:?}",
        removed
    );
    assert_eq!(added.len(), 1, "expected 1 added range, got {:?}", added);

    let removed_word: String = r.slice(removed[0].clone()).chars().collect();
    let added_word: String = r.slice(added[0].clone()).chars().collect();
    assert_eq!(removed_word, "world");
    assert_eq!(added_word, "rust");
}

#[test]
fn refine_diff_completely_different() {
    // No words in common — all tokens should be flagged.
    let text = "<<<<<<< HEAD\nfoo bar\n=======\nbaz qux\n>>>>>>> branch\n";
    let r = rope(text);
    let conflicts = find_conflicts(&r);
    let left = current_content(&conflicts[0]);
    let right = incoming_content(&conflicts[0]);
    let (removed, added) = refine_diff(&r, left, right);

    // Both "foo" and "bar" removed; "baz" and "qux" added (may be merged).
    assert!(!removed.is_empty(), "expected removed ranges");
    assert!(!added.is_empty(), "expected added ranges");

    let removed_text: String = removed
        .iter()
        .map(|range| r.slice(range.clone()).to_string())
        .collect::<Vec<_>>()
        .join(" ");
    let added_text: String = added
        .iter()
        .map(|range| r.slice(range.clone()).to_string())
        .collect::<Vec<_>>()
        .join(" ");
    assert!(
        removed_text.contains("foo"),
        "expected 'foo' in removed: {removed_text}"
    );
    assert!(
        removed_text.contains("bar"),
        "expected 'bar' in removed: {removed_text}"
    );
    assert!(
        added_text.contains("baz"),
        "expected 'baz' in added: {added_text}"
    );
    assert!(
        added_text.contains("qux"),
        "expected 'qux' in added: {added_text}"
    );
}

#[test]
fn refine_diff_current_incoming_ws() {
    // Regression: whitespace between None and } in current-incoming
    // should highlight only the 4 extra spaces (common \n is skipped).
    let text = [
        "<<<<<<< side #1\n",
        "    let location =\n",
        "        if args.onto.is_none() && args.insert_after.is_none() ",
        "&& args.insert_before.is_none() {\n",
        "            None\n",
        "        } else {\n",
        "            Some(compute_commit_location(\n",
        "                ui,\n",
        "                &workspace_command,\n",
        "                args.onto.as_deref(),\n",
        "                args.insert_after.as_deref(),\n",
        "                args.insert_before.as_deref(),\n",
        "                \"duplicated commits\",\n",
        "            )?)\n",
        "        };\n",
        "||||||| base\n",
        "    let location = if args.destination.is_none()\n",
        "        && args.insert_after.is_none()\n",
        "        && args.insert_before.is_none()\n",
        "    {\n",
        "        None\n",
        "    } else {\n",
        "        Some(compute_commit_location(\n",
        "            ui,\n",
        "            &workspace_command,\n",
        "            args.destination.as_deref(),\n",
        "            args.insert_after.as_deref(),\n",
        "            args.insert_before.as_deref(),\n",
        "            \"duplicated commits\",\n",
        "        )?)\n",
        "    };\n",
        "=======\n",
        "    let location = if args.destination.is_none()\n",
        "        && args.insert_after.is_none()\n",
        "        && args.insert_before.is_none()\n",
        "    {\n",
        "        None\n",
        "    } else {\n",
        "        Some(compute_commit_location(\n",
        "            ui,\n",
        "            &workspace_command,\n",
        "            args.destination.as_deref(),\n",
        "            args.insert_after.as_deref(),\n",
        "            args.insert_before.as_deref(),\n",
        "            \"duplicated revisions\",\n",
        "        )?)\n",
        "    };\n",
        ">>>>>>> side #2\n",
    ].concat();
    let r = rope(&text);
    let c = &find_conflicts(&r)[0];
    let base = base_content(c).unwrap();
    let current = current_content(c);
    let incoming = incoming_content(c);

    // ── current-base ──────────────────────────────────────────────────
    let (removed, added) = refine_diff(&r, current, base);
    let pos_cur = r
        .to_string()
        .find("None\n        ")
        .expect("current-side None followed by 8 spaces");
    assert!(!removed.is_empty(), "current-base: expected removed ranges");
    assert!(!added.is_empty(), "current-base: expected added ranges");
    // Same None→} whitespace diff as current-incoming (4 extra spaces).
    // Match any 4-char removed range inside the "\n        }" gap.
    assert!(
        removed.iter().any(|range| {
            range.start >= pos_cur + 5
                && range.end <= pos_cur + 13
                && range.end - range.start == 4
        }),
        "current-base: expected 4 extra spaces between None and }}"
    );

    // ── base-incoming ─────────────────────────────────────────────────
    let (removed, added) = refine_diff(&r, base, incoming);
    assert!(
        !removed.is_empty(),
        "base-incoming: expected removed ranges"
    );
    assert!(!added.is_empty(), "base-incoming: expected added ranges");
    // Only the string differs — no whitespace changes.
    let rem_text: String = removed
        .iter()
        .map(|range| r.slice(range.clone()).to_string())
        .collect::<Vec<_>>()
        .join(" ");
    assert!(
        !rem_text.contains("None"),
        "base-incoming: None should not be in removed: {rem_text:?}"
    );

    // ── current-incoming ──────────────────────────────────────────────
    let (removed, added) = refine_diff(&r, current, incoming);
    assert!(
        !removed.is_empty(),
        "current-incoming: expected removed ranges"
    );
    assert!(!added.is_empty(), "current-incoming: expected added ranges");
    assert!(
        removed.iter().any(|range| {
            range.start >= pos_cur + 5
                && range.end <= pos_cur + 13
                && range.end - range.start == 4
        }),
        "current-incoming: expected 4 extra spaces between None and }}"
    );
}

#[test]
fn refine_diff_underscore_word() {
    // jj treats underscore and non-ASCII as word chars.
    // "fn foo_bar() {}" → "fn foo_baz() {}" should highlight only
    // "bar" vs "baz" — the fn, foo_, (){} should all match.
    let text = "<<<<<<< HEAD\nfn foo_bar() {}\n=======\nfn foo_baz() {}\n>>>>>>> branch\n";
    let r = rope(text);
    let c = &find_conflicts(&r)[0];
    let (removed, added) = refine_diff(&r, current_content(c), incoming_content(c));
    let rem_text: String = removed
        .iter()
        .map(|range| r.slice(range.clone()).to_string())
        .collect::<Vec<_>>()
        .join("");
    let add_text: String = added
        .iter()
        .map(|range| r.slice(range.clone()).to_string())
        .collect::<Vec<_>>()
        .join("");
    assert_eq!(
        removed.len(),
        1,
        "expected 1 removed range, got {removed:?}"
    );
    assert_eq!(added.len(), 1, "expected 1 added range, got {added:?}");
    // Underscore splits words, so only "bar" / "baz" are highlighted.
    assert_eq!(rem_text, "bar");
    assert_eq!(add_text, "baz");
}

#[test]
fn refine_diff_line_level_match() {
    // Shared lines should be matched at the line level, not shown as changes.
    let text = [
        "<<<<<<< HEAD\n",
        "shared_prefix\n",
        "only_in_current\n",
        "shared_suffix\n",
        "=======\n",
        "shared_prefix\n",
        "only_in_incoming\n",
        "shared_suffix\n",
        ">>>>>>> branch\n",
    ].concat();
    let r = rope(&text);
    let c = &find_conflicts(&r)[0];
    let (removed, added) = refine_diff(&r, current_content(c), incoming_content(c));
    let rem_text: String = removed
        .iter()
        .map(|range| r.slice(range.clone()).to_string())
        .collect::<Vec<_>>()
        .join("");
    let add_text: String = added
        .iter()
        .map(|range| r.slice(range.clone()).to_string())
        .collect::<Vec<_>>()
        .join("");
    // Only the differing word within the differing line should be
    // highlighted — "current" vs "incoming".  The rest is matched
    // at line → word → nonword levels.
    assert_eq!(rem_text, "current");
    assert_eq!(add_text, "incoming");
}

#[test]
fn refine_diff_section_identical() {
    let text = [
        "<<<<<<<\n",
        "+++++++ side\n",
        "content\n",
        "%%%%%%%\n",
        "\\\\\\\\\\\\\\\n",
        " same\n",
        " unchanged\n",
        ">>>>>>>\n",
    ].concat();
    let r = rope(&text);
    let c = &find_conflicts(&r)[0];
    let section = &c.sections[1];
    assert_eq!(section.kind, SectionKind::Diff);
    let (removed, added) = refine_diff_section(&r, section);
    assert!(removed.is_empty());
    assert!(added.is_empty());
}

#[test]
fn refine_diff_section_single_word_change() {
    let text = [
        "<<<<<<<\n",
        "+++++++ side\n",
        "content\n",
        "%%%%%%%\n",
        "\\\\\\\\\\\\\\\n",
        "-            \"duplicated commits\",\n",
        "+            \"duplicated revisions\",\n",
        ">>>>>>>\n",
    ].concat();
    let r = rope(&text);
    let c = &find_conflicts(&r)[0];
    let section = &c.sections[1];
    assert_eq!(section.kind, SectionKind::Diff);
    let (removed, added) = refine_diff_section(&r, section);
    assert_eq!(removed.len(), 1);
    assert_eq!(added.len(), 1);
    assert!(r.slice(removed[0].clone()).to_string().contains("commits"));
    assert!(r.slice(added[0].clone()).to_string().contains("revisions"));
}

#[test]
fn refine_diff_section_context_ignored() {
    // Context lines (` ` prefix) should not contribute to the diff.
    let text = [
        "<<<<<<<\n",
        "+ side\n",
        "%%%%%%%\n",
        "\\\\\\\\\\\\\\\n",
        "-old\n",
        " context\n",
        "+new\n",
        ">>>>>>>\n",
    ].concat();
    let r = rope(&text);
    let c = &find_conflicts(&r)[0];
    let section = &c.sections[1];
    assert_eq!(section.kind, SectionKind::Diff);
    let (removed, added) = refine_diff_section(&r, section);
    assert_eq!(removed.len(), 1);
    assert_eq!(added.len(), 1);
    assert_eq!(r.slice(removed[0].clone()).to_string(), "old");
    assert_eq!(r.slice(added[0].clone()).to_string(), "new");
}

#[test]
fn test_resolve_diff_content_side() {
    let text = [
        "<<<<<<<\n+++++++ side\ncontent\n%%%%%%%\n\\\\\\\\\\\\\\\n",
        " apple\n-grape\n+grapefruit\n orange\n",
        ">>>>>>>\n",
    ].concat();
    let r = rope(&text);
    let c = &find_conflicts(&r)[0];
    let section = &c.sections[1];
    assert_eq!(section.kind, SectionKind::Diff);
    let resolved = resolve_diff_content(&r, section);
    assert_eq!(resolved, "apple\ngrapefruit\norange\n");
}

#[test]
fn test_resolve_diff_content_base() {
    let text = [
        "<<<<<<<\n+++++++ side\ncontent\n%%%%%%%\n\\\\\\\\\\\\\\\n",
        "-old\n context\n+new\n",
        ">>>>>>>\n",
    ].concat();
    let r = rope(&text);
    let c = &find_conflicts(&r)[0];
    let section = &c.sections[1];
    assert_eq!(section.kind, SectionKind::Diff);
    let resolved = resolve_diff_content_base(&r, section);
    assert_eq!(resolved, "old\ncontext\n");
}

#[test]
fn test_resolve_diff_content_all_sides() {
    // (Side, Diff) conflict: all_sides_content should resolve the Diff
    let text = [
        "<<<<<<<\n+++++++ side\nside content\n%%%%%%%\n\\\\\\\\\\\\\\\n",
        "-old\n+new\n",
        ">>>>>>>\n",
    ].concat();
    let r = rope(&text);
    let c = &find_conflicts(&r)[0];
    let all = all_sides_content(&r, c);
    assert!(all.contains("side content"));
    assert!(!all.contains("-old"));
    assert!(all.contains("new"));
}

#[test]
fn refine_side_added_words_basic() {
    // (Side, Diff): Side = "hello world test", Diff shows base="hello world old"
    // Added words in Side: "test"
    let text = [
        "<<<<<<<\n+++++++ side\nhello world test\n%%%%%%%\n\\\\\\\\\\\\\\\n",
        "-hello world old\n+hello world new\n",
        ">>>>>>>\n",
    ].concat();
    let r = rope(&text);
    let c = &find_conflicts(&r)[0];
    let side = &c.sections[0];
    assert_eq!(side.kind, SectionKind::Side);
    let diff = &c.sections[1];
    let base = resolve_diff_content_base(&r, diff);
    let added = refine_side_with_base(&r, side, &base);
    // "test" should be highlighted as added
    assert!(!added.is_empty(), "expected added words");
    for range in &added {
        let word = r.slice(range.clone()).to_string();
        assert!(word == "test", "unexpected added word: {word:?}");
    }
}

#[test]
fn refine_side_no_added_words() {
    // Side content matches the base (no change → no added words)
    let text = [
        "<<<<<<<\n+++++++ side\nhello world\n%%%%%%%\n\\\\\\\\\\\\\\\n",
        " hello world\n",
        ">>>>>>>\n",
    ].concat();
    let r = rope(&text);
    let c = &find_conflicts(&r)[0];
    let side = &c.sections[0];
    let diff = &c.sections[1];
    let base = resolve_diff_content_base(&r, diff);
    assert_eq!(base, "hello world\n");
    let added = refine_side_with_base(&r, side, &base);
    assert!(added.is_empty(), "expected no added words, got {added:?}");
}

#[test]
fn refine_side_all_words_added() {
    // Everything in Side is new vs base
    let text = [
        "<<<<<<<\n+++++++ side\nbrand new content\n%%%%%%%\n\\\\\\\\\\\\\\\n",
        "-no\n+yes\n",
        ">>>>>>>\n",
    ].concat();
    let r = rope(&text);
    let c = &find_conflicts(&r)[0];
    let side = &c.sections[0];
    let diff = &c.sections[1];
    let base = resolve_diff_content_base(&r, diff);
    let added = refine_side_with_base(&r, side, &base);
    // All three words are new
    assert_eq!(added.len(), 3, "expected 3 added words");
    let words: Vec<String> = added
        .iter()
        .map(|range| r.slice(range.clone()).to_string())
        .collect();
    assert_eq!(words, vec!["brand", "new", "content"]);
}
