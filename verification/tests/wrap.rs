//! Checks that `view::file_offsets` and `view::content_total_rows` agree
//! with the rows the diff pane renders, drawn through ratatui.

use gitstream::render::{render_lines, Row};
use gitstream::state::{ChangeKind, DiffUpdate, Hunk, HunkLine, State};
use gitstream::view::{content_total_rows, file_offsets, frame, step, NavEvent, ViewState};

use ratatui::buffer::Buffer;
use ratatui::layout::Rect;
use ratatui::text::{Line, Span};
use ratatui::widgets::{Paragraph, Widget};

const DIFF_W: u16 = 80;
const SEC: i128 = 1_000_000_000;

fn mk_modified(name: &str, mtime: u64, lines: Vec<HunkLine>) -> DiffUpdate {
    let added = lines
        .iter()
        .filter(|l| matches!(l, HunkLine::Added(_)))
        .count() as u32;
    let removed = lines
        .iter()
        .filter(|l| matches!(l, HunkLine::Removed(_)))
        .count() as u32;
    DiffUpdate {
        path: name.to_string(),
        mtime: mtime as i128 * SEC,
        status: ChangeKind::Modified,
        hunks: vec![Hunk {
            old_range: (0, 0),
            new_range: (0, lines.len() as u32),
            lines,
        }],
        added,
        removed,
        binary: false,
    }
}

fn mk_deleted(name: &str, mtime: u64, removed_lines: Vec<String>) -> DiffUpdate {
    let removed = removed_lines.len() as u32;
    let lines: Vec<HunkLine> = removed_lines.into_iter().map(HunkLine::Removed).collect();
    DiffUpdate {
        path: name.to_string(),
        mtime: mtime as i128 * SEC,
        status: ChangeKind::Deleted,
        hunks: vec![Hunk {
            old_range: (0, removed),
            new_range: (0, 0),
            lines,
        }],
        added: 0,
        removed,
        binary: false,
    }
}

fn to_line(row: &Row) -> Line<'static> {
    Line::from(
        row.spans
            .iter()
            .map(|s| Span::raw(s.text.clone()))
            .collect::<Vec<_>>(),
    )
}

fn render_to_buffer(state: &State, width: u16, height: u16) -> Buffer {
    let area = Rect::new(0, 0, width, height);
    let mut buf = Buffer::empty(area);
    let lines: Vec<Line<'static>> = render_lines(state, width).iter().map(to_line).collect();
    let para = Paragraph::new(lines);
    para.render(area, &mut buf);
    buf
}

fn find_row(buf: &Buffer, needle: &str) -> u16 {
    for y in 0..buf.area.height {
        let mut row = String::new();
        for x in 0..buf.area.width {
            row.push_str(buf[(x, y)].symbol());
        }
        if row.contains(needle) {
            return y;
        }
    }
    panic!("needle {needle:?} not found in buffer");
}

#[test]
fn deleted_minified_js_offsets_match_ratatui_wrap() {
    let big_js = "var htmx=function(){\"use strict\";const Q={onLoad:null,process:null,on:null};".repeat(640);
    assert!(big_js.len() > 40_000, "test setup: expect ~50KB single line");

    let mut state = State::new();
    state.apply(mk_deleted("htmx.min.js", 100, vec![big_js]));
    state.apply(mk_modified(
        "small.txt",
        50,
        vec![
            HunkLine::Context("ctx 1".into()),
            HunkLine::Added("added 1".into()),
            HunkLine::Context("ctx 2".into()),
        ],
    ));

    let offsets = file_offsets(&state, DIFF_W);
    let render_height = u16::MAX;
    let buf = render_to_buffer(&state, DIFF_W, render_height);

    let row_deleted = find_row(&buf, "DELETED");
    assert_eq!(
        row_deleted as u16, offsets[0],
        "deleted-file header at {row_deleted} but offsets[0]={}",
        offsets[0]
    );

    let row_modified = find_row(&buf, "MODIFIED");
    assert_eq!(
        row_modified as u16, offsets[1],
        "second file's header at row {row_modified} but file_offsets says {}",
        offsets[1]
    );
}

#[test]
fn n_past_huge_minified_file_anchors_next_file_at_viewport_top() {
    let big_js = "var htmx=function(){\"use strict\";const Q={onLoad:null,process:null,on:null};".repeat(640);
    let mut state = State::new();
    state.apply(mk_deleted("htmx.min.js", 100, vec![big_js]));
    state.apply(mk_modified(
        "small.txt",
        50,
        vec![
            HunkLine::Context("ctx 1".into()),
            HunkLine::Added("added 1".into()),
            HunkLine::Context("ctx 2".into()),
        ],
    ));

    let viewport_h: u16 = 60;
    let view = ViewState::new();
    let view = step(&state, &view, viewport_h, DIFF_W, NavEvent::NextFile);
    let f = frame(&state, &view, viewport_h, DIFF_W);
    let offsets = file_offsets(&state, DIFF_W);

    assert_eq!(f.focused_idx, 1);
    assert_eq!(f.scroll, offsets[1]);

    let render_height = u16::MAX;
    let buf = render_to_buffer(&state, DIFF_W, render_height);
    let row_modified = find_row(&buf, "MODIFIED");
    assert_eq!(row_modified as u16, f.scroll);
}

#[test]
fn normal_files_offsets_match_ratatui_wrap() {
    let mut state = State::new();
    state.apply(mk_modified(
        "a.txt",
        100,
        vec![
            HunkLine::Context("alpha".into()),
            HunkLine::Added("BETA".into()),
            HunkLine::Context("gamma".into()),
        ],
    ));
    state.apply(mk_modified(
        "b.txt",
        50,
        vec![
            HunkLine::Context("one".into()),
            HunkLine::Removed("two".into()),
            HunkLine::Context("three".into()),
        ],
    ));

    let offsets = file_offsets(&state, DIFF_W);
    let total = content_total_rows(&state, DIFF_W);

    let buf = render_to_buffer(&state, DIFF_W, total + 5);
    let row_a = find_row(&buf, "a.txt");
    assert_eq!(row_a as u16, offsets[0]);
    let row_b = find_row(&buf, "b.txt");
    assert_eq!(row_b as u16, offsets[1]);
}

#[test]
fn rendered_row_count_equals_content_total() {
    let mut state = State::new();
    state.apply(mk_modified(
        "a.txt",
        100,
        vec![HunkLine::Added("x".repeat(200)), HunkLine::Context("short".into())],
    ));
    state.apply(mk_deleted("b.txt", 50, vec!["y".repeat(77), String::new()]));
    let total = content_total_rows(&state, DIFF_W);
    assert_eq!(render_lines(&state, DIFF_W).len(), total as usize);
}
