use gitstream::diff::{diff_texts, normalize_for_display, TAB_WIDTH};
use gitstream::state::{Hunk, HunkLine};

fn lines_of(hunk: &Hunk) -> Vec<(&'static str, String)> {
    hunk.lines
        .iter()
        .map(|l| match l {
            HunkLine::Context(s) => ("ctx", s.clone()),
            HunkLine::Added(s) => ("add", s.clone()),
            HunkLine::Removed(s) => ("rem", s.clone()),
        })
        .collect()
}

fn diff_from(before: &str, after: &str, context: u32) -> Vec<Hunk> {
    diff_texts(before, after, context).0
}

#[test]
fn context_surrounds_single_change() {
    let before = "a\nb\nc\nd\ne\nf\n";
    let after = "a\nb\nc\nD\ne\nf\n";
    let hunks = diff_from(before, after, 3);
    assert_eq!(hunks.len(), 1);
    let lines = lines_of(&hunks[0]);
    assert_eq!(
        lines,
        vec![
            ("ctx", "a".into()),
            ("ctx", "b".into()),
            ("ctx", "c".into()),
            ("rem", "d".into()),
            ("add", "D".into()),
            ("ctx", "e".into()),
            ("ctx", "f".into()),
        ]
    );
}

#[test]
fn tabs_expand_to_next_tab_stop() {
    let before = "a\n\tb\n";
    let after = "a\n\tB\n";
    let hunks = diff_from(before, after, 0);
    assert_eq!(hunks.len(), 1);
    let lines = lines_of(&hunks[0]);
    let expected_pad: String = " ".repeat(TAB_WIDTH);
    assert!(lines.iter().any(|(k, v)| *k == "rem" && *v == format!("{expected_pad}b")));
    assert!(lines.iter().any(|(k, v)| *k == "add" && *v == format!("{expected_pad}B")));
}

#[test]
fn crlf_line_endings_are_stripped() {
    let before = "a\r\nb\r\n";
    let after = "a\r\nB\r\n";
    let hunks = diff_from(before, after, 0);
    let lines = lines_of(&hunks[0]);
    for (_, content) in &lines {
        assert!(!content.contains('\n'));
        assert!(!content.contains('\r'));
    }
}

#[test]
fn adjacent_changes_merge_into_one_hunk() {
    let before = "a\nb\nc\nd\ne\nf\ng\nh\n";
    let after = "a\nB\nc\nd\ne\nf\nG\nh\n";
    let hunks = diff_from(before, after, 3);
    assert_eq!(hunks.len(), 1, "context should merge the two changes");
    let lines = lines_of(&hunks[0]);
    let removed: Vec<_> = lines.iter().filter(|(k, _)| *k == "rem").collect();
    let added: Vec<_> = lines.iter().filter(|(k, _)| *k == "add").collect();
    assert_eq!(removed.len(), 2);
    assert_eq!(added.len(), 2);
}

#[test]
fn far_apart_changes_stay_separate() {
    let before = "a\nb\nc\nd\ne\nf\ng\nh\ni\nj\nk\nl\nm\nn\no\np\nq\nr\ns\nt\n";
    let after = "A\nb\nc\nd\ne\nf\ng\nh\ni\nj\nk\nl\nm\nn\no\np\nq\nr\ns\nT\n";
    let hunks = diff_from(before, after, 3);
    assert_eq!(hunks.len(), 2);
}

#[test]
fn tab_after_text_pads_to_next_stop() {
    assert_eq!(normalize_for_display("ab\tc\n"), "ab  c");
    assert_eq!(normalize_for_display("abcd\te"), "abcd    e");
    assert_eq!(normalize_for_display("x\r\n"), "x");
    assert_eq!(normalize_for_display("\n"), "");
    assert_eq!(normalize_for_display("plain"), "plain");
}

#[test]
fn hunk_ranges_and_counts() {
    let (hunks, added, removed) = diff_texts("a\nb\nc\nd\ne\nf\n", "a\nb\nc\nD\ne\nf\nX\n", 1);
    assert_eq!(added, 2);
    assert_eq!(removed, 1);
    assert_eq!(hunks.len(), 1);
    // change at before line 3 (d) and an insertion after f: merged within 2*1 lines
    assert_eq!(hunks[0].old_range, (2, 4));
    assert_eq!(hunks[0].new_range, (2, 5));
}

#[test]
fn identical_texts_have_no_hunks() {
    let (hunks, added, removed) = diff_texts("same\n", "same\n", 3);
    assert!(hunks.is_empty());
    assert_eq!((added, removed), (0, 0));
}

#[test]
fn hunk_ranges_count_their_lines() {
    let before = "a\nb\nc\nd\ne\nf\ng\nh\ni\nj\nk\nl\nm\n";
    let after = "a\nB\nc\nd\nX\nY\ne\nf\ng\nh\ni\nj\nl\nm\nn\n";
    let (hunks, added, removed) = diff_texts(before, after, 2);
    let mut total_added = 0u32;
    let mut total_removed = 0u32;
    for h in &hunks {
        let ctx = h.lines.iter().filter(|l| matches!(l, HunkLine::Context(_))).count() as u32;
        let add = h.lines.iter().filter(|l| matches!(l, HunkLine::Added(_))).count() as u32;
        let rem = h.lines.iter().filter(|l| matches!(l, HunkLine::Removed(_))).count() as u32;
        assert!(h.lines.iter().all(|l| !l.content().contains('\n')));
        assert_eq!(h.old_range.1, ctx + rem);
        assert_eq!(h.new_range.1, ctx + add);
        total_added += add;
        total_removed += rem;
    }
    assert_eq!((total_added, total_removed), (added, removed));
    for w in hunks.windows(2) {
        assert!(w[0].old_range.0 + w[0].old_range.1 < w[1].old_range.0);
    }
}
