use gitstream::input::InputEvent;
use gitstream::session::{Action, Session};
use gitstream::state::{ChangeKind, DiffUpdate, Hunk, HunkLine};
use gitstream::view::NavEvent;

fn file(path: &str, mtime: i128, n_lines: usize) -> DiffUpdate {
    let lines: Vec<HunkLine> = (0..n_lines).map(|i| HunkLine::Added(format!("line {i}"))).collect();
    DiffUpdate {
        path: path.to_string(),
        mtime,
        status: ChangeKind::Modified,
        hunks: vec![Hunk { old_range: (0, 0), new_range: (0, n_lines as u32), lines }],
        added: n_lines as u32,
        removed: 0,
        binary: false,
    }
}

#[test]
fn new_session_is_empty_with_sidebar() {
    let mut s = Session::new();
    assert!(s.state().is_empty());
    assert!(s.sidebar_visible());
    let (g, f) = s.tick(100, 30);
    assert_eq!(g.viewport_h, 28);
    assert_eq!((f.scroll, f.focused_idx, f.max_scroll), (0, 0, 0));
}

#[test]
fn toggle_sidebar_widens_diff_pane() {
    let mut s = Session::new();
    let (g, f) = s.tick(100, 30);
    assert!(matches!(s.on_input(InputEvent::ToggleSidebar, g, f), Action::Continue));
    assert!(!s.sidebar_visible());
    let (g2, _) = s.tick(100, 30);
    assert!(g2.diff_w > g.diff_w);
}

#[test]
fn quit_and_edit_actions() {
    let mut s = Session::new();
    let (g, f) = s.tick(100, 30);
    assert!(matches!(s.on_input(InputEvent::Edit, g, f), Action::Continue));
    s.on_update(file("a.txt", 10, 3));
    s.on_update(file("b.txt", 20, 3));
    let (g, f) = s.tick(100, 30);
    match s.on_input(InputEvent::Edit, g, f) {
        Action::Edit(p) => assert_eq!(p, "b.txt"),
        other => panic!("expected edit, got {other:?}"),
    }
    assert!(matches!(s.on_input(InputEvent::Quit, g, f), Action::Quit));
}

#[test]
fn next_file_then_edit_opens_second() {
    let mut s = Session::new();
    s.on_update(file("a.txt", 20, 40));
    s.on_update(file("b.txt", 10, 40));
    let (g, f) = s.tick(100, 20);
    s.on_input(InputEvent::Nav(NavEvent::NextFile), g, f);
    let (g, f) = s.tick(100, 20);
    assert_eq!(f.focused_idx, 1);
    match s.on_input(InputEvent::Edit, g, f) {
        Action::Edit(p) => assert_eq!(p, "b.txt"),
        other => panic!("expected edit, got {other:?}"),
    }
}

#[test]
fn scroll_is_clamped_and_kept() {
    let mut s = Session::new();
    s.on_update(file("a.txt", 20, 5));
    let (g, f) = s.tick(100, 20);
    for _ in 0..10 {
        s.on_input(InputEvent::Nav(NavEvent::ScrollDown(20)), g, f);
        s.tick(100, 20);
    }
    let (_, f) = s.tick(100, 20);
    assert_eq!(f.scroll, f.max_scroll);
    s.on_input(InputEvent::Nav(NavEvent::ScrollUp(1)), g, f);
    let (_, f2) = s.tick(100, 20);
    assert_eq!(f2.scroll, f.max_scroll.saturating_sub(1));
}
