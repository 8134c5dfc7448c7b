use gitstream::render::{
    pane_title, push_decimal, render_file, render_lines, separator_line, sidebar_lines, sidebar_row,
    sidebar_title, wrap_at, Color, Row,
};
use gitstream::state::{ChangeKind, DiffUpdate, Hunk, HunkLine, State};

fn texts(row: &Row) -> Vec<String> {
    row.spans.iter().map(|s| s.text.clone()).collect()
}

fn joined(row: &Row) -> String {
    texts(row).concat()
}

fn update(path: &str, status: ChangeKind, hunks: Vec<Hunk>, added: u32, removed: u32) -> DiffUpdate {
    DiffUpdate { path: path.to_string(), mtime: 0, status, hunks, added, removed, binary: false }
}

#[test]
fn wrap_cuts_at_cell_boundaries() {
    assert_eq!(wrap_at("abcdefg", 3), vec!["abc", "def", "g"]);
    assert_eq!(wrap_at("", 3), vec![""]);
    assert_eq!(wrap_at("abc", 0), vec!["a", "b", "c"]);
    // a wide character that does not fit starts a new chunk
    assert_eq!(wrap_at("a漢b", 2), vec!["a", "漢", "b"]);
    assert_eq!(wrap_at("漢字", 1), vec!["漢", "字"]);
}

#[test]
fn decimal_notation() {
    let mut s = String::from("n=");
    push_decimal(&mut s, 0);
    s.push(' ');
    push_decimal(&mut s, 4096);
    assert_eq!(s, "n=0 4096");
}

#[test]
fn file_rows_have_header_hunk_header_and_prefixed_lines() {
    let u = update(
        "src/a.rs",
        ChangeKind::Modified,
        vec![Hunk {
            old_range: (4, 3),
            new_range: (0, 0),
            lines: vec![
                HunkLine::Context("keep".into()),
                HunkLine::Removed("gone".into()),
                HunkLine::Added("new".into()),
            ],
        }],
        1,
        1,
    );
    let rows = render_file(&u, 40);
    assert_eq!(rows.len(), 5);
    assert_eq!(texts(&rows[0]), vec![" MODIFIED ", "  ", "src/a.rs", "  +1 -1"]);
    assert_eq!(rows[0].spans[0].style.bg, Some(Color::Yellow));
    assert_eq!(joined(&rows[1]), "  @@ -5,3 +0,0 @@");
    assert_eq!(texts(&rows[2]), vec!["    ", "keep"]);
    assert_eq!(texts(&rows[3]), vec!["  - ", "gone"]);
    assert_eq!(rows[3].spans[1].style.fg, Some(Color::Red));
    assert_eq!(texts(&rows[4]), vec!["  + ", "new"]);
}

#[test]
fn binary_and_unchanged_files_get_a_note() {
    let mut b = update("img.png", ChangeKind::Modified, vec![], 0, 0);
    b.binary = true;
    let rows = render_file(&b, 40);
    assert_eq!(rows.len(), 2);
    assert_eq!(joined(&rows[1]), "  (binary — diff suppressed)");
    let u = update("new.txt", ChangeKind::Untracked, vec![], 0, 0);
    let rows = render_file(&u, 40);
    assert_eq!(joined(&rows[1]), "  (no textual change)");
    let d = update("gone.txt", ChangeKind::Deleted, vec![], 0, 0);
    assert_eq!(render_file(&d, 40).len(), 1);
}

#[test]
fn pane_separates_files() {
    let s = State::new();
    let rows = render_lines(&s, 10);
    assert_eq!(joined(&rows[0]), "  (no changes — waiting for edits)");
    let mut s = State::new();
    let mut a = update("a", ChangeKind::Modified, vec![], 0, 0);
    a.binary = true;
    a.mtime = 2;
    let mut b = update("b", ChangeKind::Modified, vec![], 0, 0);
    b.binary = true;
    b.mtime = 1;
    s.apply(a);
    s.apply(b);
    let rows = render_lines(&s, 4);
    assert_eq!(rows.len(), 6);
    assert!(rows[2].spans.is_empty());
    assert_eq!(joined(&rows[3]), "────");
    assert_eq!(joined(&separator_line(0)), "─");
}

#[test]
fn sidebar_rows() {
    let u = update("src/main.rs", ChangeKind::Deleted, vec![], 0, 12);
    let rows = sidebar_row(&u, false, 30);
    assert_eq!(rows.len(), 3);
    assert_eq!(texts(&rows[0]), vec![" ", " D ", " ", "src/main.rs"]);
    assert_eq!(texts(&rows[1]), vec![" ", "    ", "+0 -12"]);
    assert!(rows[2].spans.is_empty());
    let rows = sidebar_row(&u, true, 20);
    assert_eq!(joined(&rows[0]).chars().count(), 20);
    assert_eq!(rows[0].spans[0].text, "▎");
    assert_eq!(rows[0].spans[3].style.bg, Some(Color::RowBackground));
    assert_eq!(joined(&rows[2]).chars().count(), 20);
    // narrow: the path is cut from the left
    let rows = sidebar_row(&u, false, 10);
    assert_eq!(rows[0].spans[3].text, "…n.rs");
}

#[test]
fn sidebar_window_and_titles() {
    let mut s = State::new();
    assert_eq!(joined(&sidebar_lines(&s, 0, 10, 20)[0]), "  (none)");
    for (i, name) in ["a", "b", "c", "d"].iter().enumerate() {
        let mut u = update(name, ChangeKind::Modified, vec![], 1, 0);
        u.mtime = 10 - i as i128;
        s.apply(u);
    }
    // height 6 shows two entries (three rows each)
    let rows = sidebar_lines(&s, 3, 6, 20);
    assert_eq!(rows.len(), 6);
    assert_eq!(rows[0].spans[3].text, "c");
    assert_eq!(rows[3].spans[3].text, "d");
    assert_eq!(sidebar_title(4), " files (4) ");
    assert_eq!(pane_title("repo", Some("a.rs")), " repo · a.rs ");
    assert_eq!(pane_title("repo", Some("")), " repo ");
    assert_eq!(pane_title("repo", None), " repo ");
}

#[test]
fn wrapped_chunks_join_back_to_the_line() {
    let line = "a wide 你好 line\twith\u{7f}controls and more text";
    for w in [0u16, 1, 2, 3, 5, 8, 80] {
        let chunks = gitstream::render::wrap_at(line, w);
        assert_eq!(chunks.concat(), line);
    }
    assert_eq!(gitstream::render::wrap_at("", 4), vec![String::new()]);
}

#[test]
fn footer_lists_the_keys() {
    let r = gitstream::render::footer_row();
    assert_eq!(r.spans.len(), 1);
    assert!(r.spans[0].text.contains("q quit"));
    assert!(r.spans[0].text.contains("e edit"));
    assert_eq!(r.spans[0].style.fg, Some(Color::DarkGray));
}

#[test]
fn wide_lines_are_counted_as_they_are_cut() {
    use_wrap_count("你好你", 3, 3);
    use_wrap_count("abcdef", 3, 2);
    use_wrap_count("", 5, 1);
    use_wrap_count("a你", 2, 2);
}

fn use_wrap_count(line: &str, w: u16, rows: u32) {
    assert_eq!(gitstream::view::diff_line_rows(line, w), rows);
    assert_eq!(wrap_at(line, w).len() as u32, rows);
}

#[test]
fn chunks_fit_the_limit_unless_one_wide_char() {
    let line = "ab你c好好d";
    for w in [1u16, 2, 3] {
        for chunk in wrap_at(line, w) {
            let cells: usize = chunk.chars().map(|c| if c.is_ascii() { 1 } else { 2 }).sum();
            assert!(cells <= w as usize || chunk.chars().count() == 1, "w={w} chunk={chunk:?}");
        }
    }
}
