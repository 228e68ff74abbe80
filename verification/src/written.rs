//! A conflict is read back as it was written.

use crate::append::{
    law_conflicts_of_texts_in_a_row, moved, moved_region, none_open, whole_lines,
};
use crate::content::raw_content;
use crate::laws::lemma_open_until;
use crate::parse::{
    all_sections, conflicts, ended_sections, has_later_side, is_marker, last_marker, line_role,
    marker_count, open_before, region_between, regions_before, section_ended_at, starts_section,
    LineRole,
};
use crate::region::{RegionView, SectionKind, SectionView};
use crate::text::{
    lemma_line_start_prefix, lemma_lines_append, lemma_lines_len, lemma_lines_total,
    lemma_single_line, line_start, lines,
};
use vstd::prelude::*;

verus! {

// ── Writing a conflict ───────────────────────────────────────────────────────

/// One section as it is written: its marker line, the line that continues the marker
/// (empty where there is none), and its text.
pub struct Part {
    pub marker: Seq<char>,
    pub continuation: Seq<char>,
    pub body: Seq<char>,
}

/// Whether a text is a single line with its line feed.
pub open spec fn is_line(text: Seq<char>) -> bool {
    text.len() > 0 && text.last() == '\n' && forall|i: int|
        0 <= i < text.len() - 1 ==> #[trigger] text[i] != '\n'
}

/// Whether a text consists of whole lines, none of which opens or closes a conflict or
/// starts a section.
pub open spec fn is_plain(text: Seq<char>) -> bool {
    &&& whole_lines(text)
    &&& forall|k: int|
        0 <= k < lines(text).len() ==> line_role(#[trigger] lines(text)[k]) is Text || line_role(
            lines(text)[k],
        ) is Continuation
}

/// The kind of a section that follows the opening line of a conflict.
pub open spec fn marker_kind(marker: Seq<char>) -> SectionKind {
    match line_role(marker) {
        LineRole::Section(kind) => kind,
        LineRole::JjSection(kind) => kind,
        _ => SectionKind::Side,
    }
}

/// Whether a part is made of lines of the right kind: a `<<<<<<<` line for the first
/// and a section marker for each other, continued only for a diff, and plain text. (A diff
/// whose text starts with a continuation line is one whose marker is continued.)
pub open spec fn is_part(part: Part, first: bool) -> bool {
    &&& is_line(part.marker)
    &&& if first {
        line_role(part.marker) is Open
    } else {
        line_role(part.marker) is Section || line_role(part.marker) is JjSection
    }
    &&& part.continuation.len() > 0 ==> {
        &&& is_line(part.continuation)
        &&& line_role(part.continuation) is Continuation
        &&& marker_kind(part.marker) == SectionKind::Diff
    }
    &&& is_plain(part.body)
    &&& marker_kind(part.marker) == SectionKind::Diff && part.continuation.len() == 0 ==> !(
    line_role(lines(part.body)[0]) is Continuation)
}

/// The text of the first `n` parts.
pub open spec fn written(parts: Seq<Part>, n: int) -> Seq<char>
    decreases n,
{
    if n <= 0 {
        Seq::empty()
    } else {
        let part = parts[n - 1];
        written(parts, n - 1) + (part.marker + (part.continuation + part.body))
    }
}

/// Whether a text is a closing line, with or without its line feed.
pub open spec fn is_closing(text: Seq<char>) -> bool {
    line_role(text) is Close && forall|i: int|
        0 <= i < text.len() - 1 ==> #[trigger] text[i] != '\n'
}

/// Whether parts and a closing line make up a conflict.
pub open spec fn is_written_conflict(parts: Seq<Part>, closing: Seq<char>) -> bool {
    &&& parts.len() > 0
    &&& forall|i: int| 0 <= i < parts.len() ==> is_part(#[trigger] parts[i], i == 0)
    &&& is_closing(closing)
}

/// The section that part `i` is to be read as.
pub open spec fn part_view(parts: Seq<Part>, i: int) -> SectionView {
    let part = parts[i];
    let start = written(parts, i).len();
    SectionView {
        kind: marker_kind(part.marker),
        marker_start: start as int,
        marker_lines: if part.continuation.len() > 0 {
            2
        } else {
            1
        },
        content_start: (start + part.marker.len() + part.continuation.len()) as int,
        content_end: written(parts, i + 1).len() as int,
    }
}

/// The sections that the first `n` parts are to be read as.
pub open spec fn part_views(parts: Seq<Part>, n: int) -> Seq<SectionView> {
    Seq::new(n as nat, |i: int| part_view(parts, i))
}

/// Whether a part after the first is a side.
pub open spec fn has_side_part(parts: Seq<Part>) -> bool {
    exists|i: int|
        0 < i < parts.len() && marker_kind((#[trigger] parts[i]).marker) == SectionKind::Side
}

/// Whether the first part is read as no section: it has no text, a part with a jj marker
/// follows it, and a later part is a side.
pub open spec fn leaves_out_first(parts: Seq<Part>) -> bool {
    &&& parts.len() > 1
    &&& parts[0].body.len() == 0
    &&& line_role(parts[1].marker) is JjSection
    &&& has_side_part(parts)
}

/// The region that a written conflict is to be read as.
pub open spec fn written_region(parts: Seq<Part>, closing: Seq<char>) -> RegionView {
    let n = parts.len() as int;
    RegionView {
        start: 0,
        sections: if leaves_out_first(parts) {
            part_views(parts, n).drop_first()
        } else {
            part_views(parts, n)
        },
        end: (written(parts, n) + closing).len() as int,
    }
}

// ── Its lines ────────────────────────────────────────────────────────────────

/// The lines of a part.
spec fn part_lines(part: Part) -> Seq<Seq<char>> {
    seq![part.marker] + ((if part.continuation.len() > 0 {
        seq![part.continuation]
    } else {
        Seq::empty()
    }) + lines(part.body).drop_last())
}

/// The lines of the first `n` parts.
spec fn all_lines(parts: Seq<Part>, n: int) -> Seq<Seq<char>>
    decreases n,
{
    if n <= 0 {
        Seq::empty()
    } else {
        all_lines(parts, n - 1) + part_lines(parts[n - 1])
    }
}

/// The lines of whole lines followed by more text.
proof fn lemma_lines_concat(a: Seq<char>, b: Seq<char>)
    requires
        whole_lines(a),
    ensures
        lines(a + b) == lines(a).drop_last() + lines(b),
{
    if a.len() == 0 {
        assert(a + b =~= b);
        assert(lines(a).drop_last() + lines(b) =~= lines(b));
    } else {
        lemma_lines_append(a, b);
    }
}

/// The lines of a part followed by more text.
proof fn lemma_part_lines(part: Part, first: bool, tail: Seq<char>)
    requires
        is_part(part, first),
    ensures
        lines((part.marker + (part.continuation + part.body)) + tail) == part_lines(part) + lines(
            tail,
        ),
{
    let text = (part.marker + (part.continuation + part.body)) + tail;
    assert(text =~= part.marker + (part.continuation + (part.body + tail)));
    lemma_lines_concat(part.marker, part.continuation + (part.body + tail));
    lemma_single_line(part.marker);
    lemma_lines_concat(part.body, tail);
    lemma_lines_concat(part.continuation, part.body + tail);
    if part.continuation.len() > 0 {
        lemma_single_line(part.continuation);
        assert(lines(part.continuation).drop_last() =~= seq![part.continuation]);
    } else {
        assert(lines(part.continuation).drop_last() =~= Seq::empty());
    }
    assert(lines(part.marker).drop_last() =~= seq![part.marker]);
    assert(lines(text) =~= part_lines(part) + lines(tail));
}

/// The lines of parts followed by more text.
proof fn lemma_all_lines(parts: Seq<Part>, n: int, tail: Seq<char>)
    requires
        0 <= n <= parts.len(),
        forall|i: int| 0 <= i < parts.len() ==> is_part(#[trigger] parts[i], i == 0),
    ensures
        lines(written(parts, n) + tail) == all_lines(parts, n) + lines(tail),
    decreases n,
{
    if n > 0 {
        let part = parts[n - 1];
        let text = part.marker + (part.continuation + part.body);
        assert(written(parts, n) + tail =~= written(parts, n - 1) + (text + tail));
        lemma_all_lines(parts, n - 1, text + tail);
        lemma_part_lines(part, n - 1 == 0, tail);
        assert(lines(written(parts, n) + tail) =~= all_lines(parts, n) + lines(tail));
    } else {
        assert(written(parts, n) + tail =~= tail);
        assert(all_lines(parts, n) + lines(tail) =~= lines(tail));
    }
}

/// The lines of fewer parts come first.
proof fn lemma_all_lines_prefix(parts: Seq<Part>, i: int, n: int)
    requires
        0 <= i <= n <= parts.len(),
    ensures
        all_lines(parts, i).len() <= all_lines(parts, n).len(),
        forall|k: int|
            0 <= k < all_lines(parts, i).len() ==> #[trigger] all_lines(parts, n)[k] == all_lines(
                parts,
                i,
            )[k],
    decreases n,
{
    if i < n {
        lemma_all_lines_prefix(parts, i, n - 1);
    }
}

/// The lines of a written conflict.
spec fn conflict_lines(parts: Seq<Part>, closing: Seq<char>) -> Seq<Seq<char>> {
    lines(written(parts, parts.len() as int) + closing)
}

/// The number of the line that starts part `i`.
spec fn first_line(parts: Seq<Part>, i: int) -> int {
    all_lines(parts, i).len() as int
}

/// Where the lines of part `i` of a written conflict stand, and what they are.
proof fn lemma_part_in_lines(parts: Seq<Part>, closing: Seq<char>, i: int)
    requires
        is_written_conflict(parts, closing),
        0 <= i < parts.len(),
    ensures
        ({
            let all = conflict_lines(parts, closing);
            let part = parts[i];
            let first = first_line(parts, i);
            let next = first_line(parts, i + 1);
            let markers: int = if part.continuation.len() > 0 {
                2
            } else {
                1
            };
            &&& 0 <= first
            &&& i > 0 ==> 0 < first
            &&& first + markers <= next < all.len()
            &&& all[first] == part.marker
            &&& part.continuation.len() > 0 ==> all[first + 1] == part.continuation
            &&& forall|k: int|
                first + markers <= k < next ==> line_role(#[trigger] all[k]) is Text || line_role(
                    all[k],
                ) is Continuation
            &&& marker_kind(part.marker) == SectionKind::Diff && part.continuation.len() == 0
                && first + 1 < next ==> !(line_role(all[first + 1]) is Continuation)
            &&& line_start(all, first) == written(parts, i).len()
            &&& line_start(all, next) == written(parts, i + 1).len()
            &&& line_start(all, first + 1) == written(parts, i).len() + part.marker.len()
            &&& part.continuation.len() > 0 ==> line_start(all, first + 2) == written(
                parts,
                i,
            ).len() + part.marker.len() + part.continuation.len()
        }),
{
    let all = conflict_lines(parts, closing);
    let n = parts.len() as int;
    let part = parts[i];
    let first = first_line(parts, i);
    let next = first_line(parts, i + 1);
    lemma_all_lines(parts, n, closing);
    lemma_lines_len(closing);
    lemma_all_lines_prefix(parts, i, n);
    lemma_all_lines_prefix(parts, i + 1, n);
    if i > 0 {
        lemma_all_lines_prefix(parts, 1, i);
        assert(all_lines(parts, 1) == all_lines(parts, 0) + part_lines(parts[0]));
    }
    let some = part_lines(part);
    assert(all_lines(parts, i + 1) == all_lines(parts, i) + some);
    assert forall|t: int| 0 <= t < some.len() implies all[first + t] == #[trigger] some[t] by {
        assert(all_lines(parts, i + 1)[first + t] == some[t]);
        assert(all_lines(parts, n)[first + t] == some[t]);
    }
    assert(all[first + 0] == some[0]);
    lemma_lines_len(part.body);
    let markers: int = if part.continuation.len() > 0 {
        2
    } else {
        1
    };
    if part.continuation.len() > 0 {
        assert(all[first + 1] == some[1]);
    }
    assert forall|k: int| first + markers <= k < next implies line_role(
        #[trigger] all[k],
    ) is Text || line_role(all[k]) is Continuation by {
        let t = k - first;
        assert(all[first + t] == some[t]);
        assert(some[t] == lines(part.body)[t - markers]);
    }
    if part.continuation.len() == 0 && first + 1 < next {
        assert(all[first + 1] == some[1]);
        assert(some[1] == lines(part.body)[0]);
    }
    lemma_first_line_start(parts, closing, i);
    lemma_first_line_start(parts, closing, i + 1);
    assert(line_start(all, first + 1) == line_start(all, first) + all[first].len());
    assert(line_start(all, first + 2) == line_start(all, first + 1) + all[first + 1].len());
}

/// Where part `i` of a written conflict starts.
proof fn lemma_first_line_start(parts: Seq<Part>, closing: Seq<char>, i: int)
    requires
        is_written_conflict(parts, closing),
        0 <= i <= parts.len(),
    ensures
        line_start(conflict_lines(parts, closing), first_line(parts, i)) == written(parts, i).len(),
{
    let n = parts.len() as int;
    let all = conflict_lines(parts, closing);
    lemma_all_lines(parts, n, closing);
    lemma_all_lines(parts, i, Seq::empty());
    lemma_all_lines_prefix(parts, i, n);
    assert(written(parts, i) + Seq::<char>::empty() =~= written(parts, i));
    let own = lines(written(parts, i));
    let first = first_line(parts, i);
    lemma_lines_total(written(parts, i));
    assert(own.len() == first + 1);
    assert(own[first].len() == 0);
    assert(line_start(own, first + 1) == line_start(own, first) + own[first].len());
    assert forall|k: int| 0 <= k < first implies (#[trigger] all[k]).len() == own[k].len() by {
        assert(all[k] == all_lines(parts, n)[k]);
        assert(own[k] == all_lines(parts, i)[k]);
    }
    lemma_line_start_prefix(all, own, first);
}

/// Inside a part no other section starts.
proof fn lemma_inside_part(parts: Seq<Part>, closing: Seq<char>, i: int, end: int)
    requires
        is_written_conflict(parts, closing),
        0 <= i < parts.len(),
        first_line(parts, i) < end <= first_line(parts, i + 1),
    ensures
        ({
            let all = conflict_lines(parts, closing);
            let first = first_line(parts, i);
            &&& last_marker(all, 0, end) == first
            &&& ended_sections(all, 0, end) == ended_sections(all, 0, first + 1)
        }),
    decreases end,
{
    let all = conflict_lines(parts, closing);
    let first = first_line(parts, i);
    lemma_part_in_lines(parts, closing, i);
    if end > first + 1 {
        lemma_inside_part(parts, closing, i, end - 1);
        let role = line_role(all[end - 1]);
        assert(role is Text || role is Continuation);
    }
}

/// What has been read when part `i` starts: the part before it is in progress, and
/// those before that are sections.
proof fn lemma_read_parts(parts: Seq<Part>, closing: Seq<char>, i: int)
    requires
        is_written_conflict(parts, closing),
        0 < i <= parts.len(),
    ensures
        ({
            let all = conflict_lines(parts, closing);
            let first = first_line(parts, i);
            &&& section_ended_at(all, 0, first) == part_view(parts, i - 1)
            &&& ended_sections(all, 0, first) == part_views(parts, i - 1)
        }),
    decreases i,
{
    let all = conflict_lines(parts, closing);
    let first = first_line(parts, i);
    let before = first_line(parts, i - 1);
    let part = parts[i - 1];
    lemma_part_in_lines(parts, closing, i - 1);
    lemma_inside_part(parts, closing, i - 1, first);
    assert(marker_count(all, 0, before, first) == if part.continuation.len() > 0 {
        2int
    } else {
        1int
    });
    if i == 1 {
        assert(before == 0);
        assert(ended_sections(all, 0, first) =~= part_views(parts, 0));
    } else {
        lemma_read_parts(parts, closing, i - 1);
        assert(starts_section(all[before]));
        assert(ended_sections(all, 0, first) =~= part_views(parts, i - 1));
    }
}

/// No line of a written conflict but its first and last opens or closes one.
proof fn lemma_inner_lines(parts: Seq<Part>, closing: Seq<char>, i: int, k: int)
    requires
        is_written_conflict(parts, closing),
        0 <= i <= parts.len(),
        0 < k < first_line(parts, i),
    ensures
        !(line_role(conflict_lines(parts, closing)[k]) is Open),
        !(line_role(conflict_lines(parts, closing)[k]) is Close),
    decreases i,
{
    if i > 0 {
        if k < first_line(parts, i - 1) {
            lemma_inner_lines(parts, closing, i - 1, k);
        } else {
            lemma_part_in_lines(parts, closing, i - 1);
        }
    }
}

/// Lines of which none closes a conflict have no conflict.
proof fn lemma_none_closed(lines: Seq<Seq<char>>, k: int)
    requires
        0 <= k <= lines.len(),
        forall|j: int| 0 <= j < k ==> !(line_role(#[trigger] lines[j]) is Close),
    ensures
        regions_before(lines, k).len() == 0,
    decreases k,
{
    if k > 0 {
        lemma_none_closed(lines, k - 1);
    }
}

/// The opening line of a written conflict starts no section where its first part is left
/// out.
proof fn lemma_first_left_out(parts: Seq<Part>, closing: Seq<char>)
    requires
        is_written_conflict(parts, closing),
    ensures
        ({
            let all = conflict_lines(parts, closing);
            (line_role(all[1]) is JjSection && has_later_side(part_views(parts, parts.len() as int)))
                == leaves_out_first(parts)
        }),
{
    let n = parts.len() as int;
    let all = conflict_lines(parts, closing);
    let views = part_views(parts, n);
    lemma_part_in_lines(parts, closing, 0);
    assert(first_line(parts, 0) == 0);
    assert(has_later_side(views) == has_side_part(parts)) by {
        if has_later_side(views) {
            let i = choose|i: int|
                0 < i < views.len() && (#[trigger] views[i]).kind == SectionKind::Side;
            assert(marker_kind(parts[i].marker) == SectionKind::Side);
        }
        if has_side_part(parts) {
            let i = choose|i: int|
                0 < i < parts.len() && marker_kind((#[trigger] parts[i]).marker)
                    == SectionKind::Side;
            assert(views[i].kind == SectionKind::Side);
        }
    }
    let next = first_line(parts, 1);
    if parts[0].body.len() > 0 {
        assert(next > 1) by {
            assert(line_start(all, 1) == parts[0].marker.len());
            assert(written(parts, 1).len() == written(parts, 0).len() + parts[0].marker.len()
                + parts[0].continuation.len() + parts[0].body.len());
        }
    } else {
        assert(next == 1) by {
            assert(all_lines(parts, 1) == all_lines(parts, 0) + part_lines(parts[0]));
        }
        if n > 1 {
            lemma_part_in_lines(parts, closing, 1);
        } else {
            lemma_all_lines(parts, n, closing);
            lemma_single_line(closing);
            assert(all[1] == closing);
        }
    }
}

// ── Reading it back ──────────────────────────────────────────────────────────

/// A written conflict is read back as one region, of which each part is a section with
/// the part's kind and place, but for an empty first part that is left out.
pub proof fn law_written_conflict_is_read_back(parts: Seq<Part>, closing: Seq<char>)
    requires
        is_written_conflict(parts, closing),
    ensures
        conflicts(written(parts, parts.len() as int) + closing) == seq![
            written_region(parts, closing),
        ],
{
    let n = parts.len() as int;
    let all = conflict_lines(parts, closing);
    let close = first_line(parts, n);
    lemma_all_lines(parts, n, closing);
    lemma_single_line(closing);
    lemma_part_in_lines(parts, closing, 0);
    lemma_part_in_lines(parts, closing, n - 1);
    assert(all[close] == closing);
    assert forall|k: int| 0 < k < close implies !(line_role(#[trigger] all[k]) is Open) && !(
    line_role(all[k]) is Close) by {
        lemma_inner_lines(parts, closing, n, k);
    }
    lemma_open_until(all, 0, close);
    lemma_none_closed(all, close);
    lemma_read_parts(parts, closing, n);
    lemma_first_left_out(parts, closing);
    let region = region_between(all, 0, close);
    assert(all_sections(all, 0, close) =~= part_views(parts, n));
    assert(line_start(all, close + 1) == line_start(all, close) + closing.len());
    assert(region =~= written_region(parts, closing));
    assert(regions_before(all, close + 1) =~= seq![region]);
    if all.len() > close + 1 {
        assert(all.len() == close + 2);
        assert(all[close + 1].len() == 0);
        assert(regions_before(all, close + 2) == regions_before(all, close + 1));
    }
}

/// A written conflict is read back wherever it stands in a document, whatever lines come
/// before and after it: also where a conflict is open before it, which is then ignored.
pub proof fn law_written_conflict_is_read_back_in_a_document(
    before: Seq<char>,
    parts: Seq<Part>,
    closing: Seq<char>,
    after: Seq<char>,
)
    requires
        whole_lines(before),
        is_written_conflict(parts, closing),
        closing.last() == '\n',
    ensures
        ({
            let conflict = written(parts, parts.len() as int) + closing;
            conflicts(before + (conflict + after)) == conflicts(before) + seq![
                moved_region(written_region(parts, closing), before.len() as int),
            ] + moved(conflicts(after), (before.len() + conflict.len()) as int)
        }),
{
    let n = parts.len() as int;
    let conflict = written(parts, n) + closing;
    let region = written_region(parts, closing);
    let all = conflict_lines(parts, closing);
    let close = first_line(parts, n);
    let rest = conflicts(after);
    law_written_conflict_is_read_back(parts, closing);
    lemma_all_lines(parts, n, closing);
    lemma_single_line(closing);
    lemma_part_in_lines(parts, closing, 0);
    assert(all.len() == close + 2 && all[close] == closing && all[close + 1].len() == 0);
    assert(!(line_role(all[close + 1]) is Open) && !(line_role(all[close + 1]) is Close));
    assert(open_before(all, close + 1) is None);
    assert(open_before(all, close + 2) == open_before(all, close + 1));
    assert(none_open(conflict));
    assert(conflict.last() == closing.last());
    law_conflicts_of_texts_in_a_row(conflict, after);
    lemma_lines_append(conflict, after);
    assert(lines(conflict + after)[0] == all[0]);
    law_conflicts_of_texts_in_a_row(before, conflict + after);
    let by = before.len() as int;
    let inner = conflict.len() as int;
    assert(moved(seq![region] + moved(rest, inner), by) =~= seq![moved_region(region, by)] + moved(
        rest,
        by + inner,
    )) by {
        assert forall|i: int| 0 <= i < rest.len() implies moved_region(
            moved_region(rest[i], inner),
            by,
        ) == moved_region(#[trigger] rest[i], by + inner) by {
            assert(moved_region(moved_region(rest[i], inner), by).sections =~= moved_region(
                rest[i],
                by + inner,
            ).sections);
        }
    }
    assert(conflicts(before) + (seq![moved_region(region, by)] + moved(rest, by + inner))
        =~= conflicts(before) + seq![moved_region(region, by)] + moved(rest, by + inner));
}

/// The content of the section that a part is read as is the part's text.
pub proof fn law_written_text_is_read_back(parts: Seq<Part>, closing: Seq<char>, i: int)
    requires
        0 <= i < parts.len(),
    ensures
        raw_content(
            part_view(parts, i),
            written(parts, parts.len() as int) + closing,
        ) == parts[i].body,
{
    let n = parts.len() as int;
    lemma_written_prefix(parts, i + 1, n);
    let text = written(parts, n) + closing;
    let view = part_view(parts, i);
    let own = written(parts, i + 1);
    assert forall|k: int| 0 <= k < parts[i].body.len() implies #[trigger] text[view.content_start
        + k] == parts[i].body[k] by {
        assert(own[view.content_start + k] == parts[i].body[k]);
        assert(written(parts, n)[view.content_start + k] == own[view.content_start + k]);
    }
    assert(raw_content(view, text) =~= parts[i].body);
}

/// The text of fewer parts comes first.
proof fn lemma_written_prefix(parts: Seq<Part>, i: int, n: int)
    requires
        0 <= i <= n,
    ensures
        written(parts, i).len() <= written(parts, n).len(),
        forall|k: int|
            0 <= k < written(parts, i).len() ==> #[trigger] written(parts, n)[k] == written(
                parts,
                i,
            )[k],
    decreases n,
{
    if i < n {
        lemma_written_prefix(parts, i, n - 1);
    }
}

/// A conflict in one of the git formats, in which `|||||||` and `=======` lines divide
/// the parts, has a section for each part: for a two-way conflict the current and the
/// incoming side, for a three-way conflict the base in between.
pub proof fn law_git_conflict_has_all_parts(parts: Seq<Part>, closing: Seq<char>)
    requires
        is_written_conflict(parts, closing),
        forall|i: int| 0 < i < parts.len() ==> line_role((#[trigger] parts[i]).marker) is Section,
    ensures
        written_region(parts, closing).sections == part_views(parts, parts.len() as int),
{
}

/// A conflict in jj format, in which every section has a jj marker of its own and
/// nothing stands between the opening line and the first of them, has a section for
/// each part after the opening line, provided that one of these is a side.
pub proof fn law_jj_conflict_has_all_parts(parts: Seq<Part>, closing: Seq<char>)
    requires
        is_written_conflict(parts, closing),
        has_side_part(parts),
        parts[0].body.len() == 0,
        forall|i: int|
            0 < i < parts.len() ==> line_role((#[trigger] parts[i]).marker) is JjSection,
    ensures
        written_region(parts, closing).sections == Seq::new(
            (parts.len() - 1) as nat,
            |i: int| part_view(parts, i + 1),
        ),
{
    assert(line_role(parts[1].marker) is JjSection);
    assert(written_region(parts, closing).sections =~= Seq::new(
        (parts.len() - 1) as nat,
        |i: int| part_view(parts, i + 1),
    ));
}

/// Where no part after the opening line is a side, the opening line itself counts as one,
/// without text where none follows it.
pub proof fn law_opening_line_is_the_side_of_last_resort(parts: Seq<Part>, closing: Seq<char>)
    requires
        is_written_conflict(parts, closing),
        !has_side_part(parts),
    ensures
        written_region(parts, closing).sections == part_views(parts, parts.len() as int),
        written_region(parts, closing).sections[0].kind == SectionKind::Side,
{
}

// ── In characters ────────────────────────────────────────────────────────────

/// Seven of a character.
pub open spec fn seven(mark: char) -> Seq<char> {
    seq![mark, mark, mark, mark, mark, mark, mark]
}

/// Whether a line is seven of a character and whatever follows, provided that this is
/// nothing or starts with a space or a line ending.
pub open spec fn is_seven_and(line: Seq<char>, mark: char) -> bool {
    exists|rest: Seq<char>| #[trigger] is_label(rest) && line == seven(mark) + rest
}

/// Whether a text may follow the seven characters of a marker.
pub open spec fn is_label(rest: Seq<char>) -> bool {
    rest.len() == 0 || rest[0] == ' ' || rest[0] == '\r' || rest[0] == '\n'
}

/// What follows the seven characters of a marker line does not matter, however long it is,
/// once it starts with a space or a line ending.
pub proof fn law_label_does_not_matter(rest: Seq<char>)
    requires
        is_label(rest),
    ensures
        line_role(seven('<') + rest) == LineRole::Open,
        line_role(seven('>') + rest) == LineRole::Close,
        line_role(seven('|') + rest) == LineRole::Section(SectionKind::Base),
        line_role(seven('=') + rest) == LineRole::Section(SectionKind::Side),
        line_role(seven('+') + rest) == LineRole::JjSection(SectionKind::Side),
        line_role(seven('-') + rest) == LineRole::JjSection(SectionKind::Base),
        line_role(seven('%') + rest) == LineRole::JjSection(SectionKind::Diff),
        line_role(seven('\\') + rest) == LineRole::Continuation,
{
    lemma_seven(rest, '<');
    lemma_seven(rest, '>');
    lemma_seven(rest, '|');
    lemma_seven(rest, '=');
    lemma_seven(rest, '+');
    lemma_seven(rest, '-');
    lemma_seven(rest, '%');
    lemma_seven(rest, '\\');
}

/// A marker line starts with its mark, and with no other.
proof fn lemma_seven(rest: Seq<char>, mark: char)
    requires
        is_label(rest),
    ensures
        is_marker(seven(mark) + rest, mark),
        forall|other: char| other != mark ==> !#[trigger] is_marker(seven(mark) + rest, other),
{
    let line = seven(mark) + rest;
    assert(line[0] == mark);
    assert(rest.len() > 0 ==> line[7] == rest[0]);
    assert forall|other: char| other != mark implies !#[trigger] is_marker(line, other) by {
        assert(line[0] != other);
    }
}

/// A line that does not start with seven marks, or in which something else follows them, is
/// text.
pub proof fn law_every_other_line_is_text(line: Seq<char>)
    requires
        !is_seven_and(line, '<'),
        !is_seven_and(line, '>'),
        !is_seven_and(line, '|'),
        !is_seven_and(line, '='),
        !is_seven_and(line, '+'),
        !is_seven_and(line, '-'),
        !is_seven_and(line, '%'),
        !is_seven_and(line, '\\'),
    ensures
        line_role(line) == LineRole::Text,
{
    assert forall|mark: char| #[trigger] is_marker(line, mark) implies is_seven_and(line, mark) by {
        let rest = line.skip(7);
        assert(is_label(rest));
        assert(line =~= seven(mark) + rest);
    }
}

/// A marker line with a label: seven marks, a space, the label and a line feed.
pub open spec fn labelled(mark: char, label: Seq<char>) -> Seq<char> {
    seven(mark) + seq![' '] + label + seq!['\n']
}

/// A marker line with a label without a line feed is a single line, of the mark's role.
proof fn lemma_labelled(mark: char, label: Seq<char>)
    requires
        mark != '\n',
        forall|i: int| 0 <= i < label.len() ==> #[trigger] label[i] != '\n',
    ensures
        is_line(labelled(mark, label)),
        exists|rest: Seq<char>|
            is_label(rest) && labelled(mark, label) == #[trigger] (seven(mark) + rest),
{
    let line = labelled(mark, label);
    let rest = seq![' '] + label + seq!['\n'];
    assert(rest[0] == ' ');
    assert(line =~= seven(mark) + rest);
    assert forall|i: int| 0 <= i < line.len() - 1 implies #[trigger] line[i] != '\n' by {
        if i > 7 {
            assert(line[i] == label[i - 8]);
        }
    }
}

/// The region of a two-way conflict that is written with labels.
pub open spec fn is_two_way(
    found: Seq<RegionView>,
    text: Seq<char>,
    current: Seq<char>,
    incoming: Seq<char>,
) -> bool {
    &&& found.len() == 1
    &&& found[0].start == 0
    &&& found[0].end == text.len()
    &&& found[0].sections.len() == 2
    &&& found[0].sections[0].kind == SectionKind::Side
    &&& found[0].sections[1].kind == SectionKind::Side
    &&& text.subrange(found[0].sections[0].content_start, found[0].sections[0].content_end)
        == current
    &&& text.subrange(found[0].sections[1].content_start, found[0].sections[1].content_end)
        == incoming
}

/// A document made of a `<<<<<<<` line, text, a `=======` line, text and a `>>>>>>>` line,
/// with any labels, has one conflict, with the two texts as its sides.
pub proof fn law_two_way_conflict(
    ours: Seq<char>,
    current: Seq<char>,
    incoming: Seq<char>,
    theirs: Seq<char>,
)
    requires
        forall|i: int| 0 <= i < ours.len() ==> #[trigger] ours[i] != '\n',
        forall|i: int| 0 <= i < theirs.len() ==> #[trigger] theirs[i] != '\n',
        is_plain(current),
        is_plain(incoming),
    ensures
        ({
            let text = labelled('<', ours) + current + (seven('=') + seq!['\n']) + incoming
                + labelled('>', theirs);
            is_two_way(conflicts(text), text, current, incoming)
        }),
{
    let opening = labelled('<', ours);
    let separator = seven('=') + seq!['\n'];
    let closing = labelled('>', theirs);
    let none = Seq::<char>::empty();
    let parts = seq![
        Part { marker: opening, continuation: none, body: current },
        Part { marker: separator, continuation: none, body: incoming },
    ];
    lemma_labelled('<', ours);
    lemma_labelled('>', theirs);
    lemma_roles(opening, '<');
    lemma_roles(closing, '>');
    law_label_does_not_matter(seq!['\n']);
    assert(is_line(separator));
    assert(is_part(parts[0], true));
    assert(is_part(parts[1], false));
    assert(is_closing(closing));
    law_written_conflict_is_read_back(parts, closing);
    law_git_conflict_has_all_parts(parts, closing);
    law_written_text_is_read_back(parts, closing, 0);
    law_written_text_is_read_back(parts, closing, 1);
    let text = opening + current + separator + incoming + closing;
    reveal_with_fuel(written, 3);
    assert(written(parts, 2) + closing =~= text);
}

/// Whether a section has a kind and, as its content, a text.
pub open spec fn reads(
    section: SectionView,
    text: Seq<char>,
    kind: SectionKind,
    body: Seq<char>,
) -> bool {
    &&& section.kind == kind
    &&& 0 <= section.content_start <= section.content_end <= text.len()
    &&& text.subrange(section.content_start, section.content_end) == body
}

/// A document made of a `<<<<<<<` line, text, a `|||||||` line, text, a `=======` line, text
/// and a `>>>>>>>` line, with any labels, has one conflict: a side, a base and a side, with
/// these texts.
pub proof fn law_three_way_conflict(
    labels: (Seq<char>, Seq<char>, Seq<char>),
    current: Seq<char>,
    base: Seq<char>,
    incoming: Seq<char>,
)
    requires
        forall|i: int| 0 <= i < labels.0.len() ==> #[trigger] labels.0[i] != '\n',
        forall|i: int| 0 <= i < labels.1.len() ==> #[trigger] labels.1[i] != '\n',
        forall|i: int| 0 <= i < labels.2.len() ==> #[trigger] labels.2[i] != '\n',
        is_plain(current),
        is_plain(base),
        is_plain(incoming),
    ensures
        ({
            let text = labelled('<', labels.0) + current + labelled('|', labels.1) + base + (seven(
                '=',
            ) + seq!['\n']) + incoming + labelled('>', labels.2);
            let found = conflicts(text);
            &&& found.len() == 1
            &&& found[0].start == 0
            &&& found[0].end == text.len()
            &&& found[0].sections.len() == 3
            &&& reads(found[0].sections[0], text, SectionKind::Side, current)
            &&& reads(found[0].sections[1], text, SectionKind::Base, base)
            &&& reads(found[0].sections[2], text, SectionKind::Side, incoming)
        }),
{
    let opening = labelled('<', labels.0);
    let middle = labelled('|', labels.1);
    let separator = seven('=') + seq!['\n'];
    let closing = labelled('>', labels.2);
    let none = Seq::<char>::empty();
    let parts = seq![
        Part { marker: opening, continuation: none, body: current },
        Part { marker: middle, continuation: none, body: base },
        Part { marker: separator, continuation: none, body: incoming },
    ];
    lemma_labelled('<', labels.0);
    lemma_labelled('|', labels.1);
    lemma_labelled('>', labels.2);
    lemma_roles(opening, '<');
    lemma_roles(middle, '|');
    lemma_roles(closing, '>');
    law_label_does_not_matter(seq!['\n']);
    assert(is_line(separator));
    assert(is_part(parts[0], true));
    assert(is_part(parts[1], false));
    assert(is_part(parts[2], false));
    assert(is_closing(closing));
    law_written_conflict_is_read_back(parts, closing);
    law_git_conflict_has_all_parts(parts, closing);
    law_written_text_is_read_back(parts, closing, 0);
    law_written_text_is_read_back(parts, closing, 1);
    law_written_text_is_read_back(parts, closing, 2);
    let text = opening + current + middle + base + separator + incoming + closing;
    reveal_with_fuel(written, 4);
    assert(written(parts, 3) + closing =~= text);
}

/// A document made of a `<<<<<<<` line, a `%%%%%%%` line that a `\\\\\\\` line continues,
/// text, a `+++++++` line, text and a `>>>>>>>` line, with any labels, has one conflict: a
/// diff and a side, with these texts.
pub proof fn law_jj_conflict(
    labels: (Seq<char>, Seq<char>, Seq<char>, Seq<char>, Seq<char>),
    diff: Seq<char>,
    side: Seq<char>,
)
    requires
        forall|i: int| 0 <= i < labels.0.len() ==> #[trigger] labels.0[i] != '\n',
        forall|i: int| 0 <= i < labels.1.len() ==> #[trigger] labels.1[i] != '\n',
        forall|i: int| 0 <= i < labels.2.len() ==> #[trigger] labels.2[i] != '\n',
        forall|i: int| 0 <= i < labels.3.len() ==> #[trigger] labels.3[i] != '\n',
        forall|i: int| 0 <= i < labels.4.len() ==> #[trigger] labels.4[i] != '\n',
        is_plain(diff),
        is_plain(side),
    ensures
        ({
            let text = labelled('<', labels.0) + labelled('%', labels.1) + labelled('\\', labels.2)
                + diff + labelled('+', labels.3) + side + labelled('>', labels.4);
            let found = conflicts(text);
            &&& found.len() == 1
            &&& found[0].start == 0
            &&& found[0].end == text.len()
            &&& found[0].sections.len() == 2
            &&& found[0].sections[0].marker_lines == 2
            &&& found[0].sections[1].marker_lines == 1
            &&& reads(found[0].sections[0], text, SectionKind::Diff, diff)
            &&& reads(found[0].sections[1], text, SectionKind::Side, side)
        }),
{
    let opening = labelled('<', labels.0);
    let first = labelled('%', labels.1);
    let second = labelled('\\', labels.2);
    let third = labelled('+', labels.3);
    let closing = labelled('>', labels.4);
    let none = Seq::<char>::empty();
    let parts = seq![
        Part { marker: opening, continuation: none, body: none },
        Part { marker: first, continuation: second, body: diff },
        Part { marker: third, continuation: none, body: side },
    ];
    lemma_labelled('<', labels.0);
    lemma_labelled('%', labels.1);
    lemma_labelled('\\', labels.2);
    lemma_labelled('+', labels.3);
    lemma_labelled('>', labels.4);
    lemma_roles(opening, '<');
    lemma_roles(first, '%');
    lemma_roles(second, '\\');
    lemma_roles(third, '+');
    lemma_roles(closing, '>');
    assert(is_plain(none)) by {
        lemma_single_line(none);
        law_every_other_line_is_text(none);
    }
    assert(is_part(parts[0], true));
    assert(is_part(parts[1], false));
    assert(is_part(parts[2], false));
    assert(is_closing(closing));
    assert(marker_kind(parts[2].marker) == SectionKind::Side);
    assert(has_side_part(parts));
    law_written_conflict_is_read_back(parts, closing);
    law_jj_conflict_has_all_parts(parts, closing);
    law_written_text_is_read_back(parts, closing, 1);
    law_written_text_is_read_back(parts, closing, 2);
    let text = opening + first + second + diff + third + side + closing;
    reveal_with_fuel(written, 4);
    assert(written(parts, 3) + closing =~= text);
}

/// The role of a marker line with a label.
proof fn lemma_roles(line: Seq<char>, mark: char)
    requires
        exists|rest: Seq<char>| is_label(rest) && line == #[trigger] (seven(mark) + rest),
    ensures
        mark == '<' ==> line_role(line) == LineRole::Open,
        mark == '>' ==> line_role(line) == LineRole::Close,
        mark == '|' ==> line_role(line) == LineRole::Section(SectionKind::Base),
        mark == '+' ==> line_role(line) == LineRole::JjSection(SectionKind::Side),
        mark == '-' ==> line_role(line) == LineRole::JjSection(SectionKind::Base),
        mark == '%' ==> line_role(line) == LineRole::JjSection(SectionKind::Diff),
        mark == '\\' ==> line_role(line) == LineRole::Continuation,
{
    let rest = choose|rest: Seq<char>| is_label(rest) && line == #[trigger] (seven(mark) + rest);
    law_label_does_not_matter(rest);
}

} // verus!
