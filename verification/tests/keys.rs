//! Keyboard / view-model tests: drives the pure `step` + `frame` functions.

use gitstream::state::{ChangeKind, DiffUpdate, Hunk, HunkLine, State};
use gitstream::view::{content_total_rows, file_offsets, frame, step, NavEvent, ViewState};

const DIFF_W: u16 = 200; // wide enough that no diff line wraps
const VIEWPORT_H: u16 = 60;
const SEC: i128 = 1_000_000_000;

fn mk_file(name: &str, mtime_offset: u64, lines: usize) -> DiffUpdate {
    let hunk_lines: Vec<HunkLine> = (0..lines)
        .map(|i| HunkLine::Added(format!("line {i:04}")))
        .collect();
    DiffUpdate {
        path: name.to_string(),
        mtime: mtime_offset as i128 * SEC,
        status: ChangeKind::Modified,
        hunks: vec![Hunk {
            old_range: (0, 0),
            new_range: (0, lines as u32),
            lines: hunk_lines,
        }],
        added: lines as u32,
        removed: 0,
        binary: false,
    }
}

/// State sorts by mtime DESC, so descending mtimes in declaration order put
/// `files[0]` at index 0, `files[1]` at index 1, etc.
fn build_state(files: &[(&str, usize)]) -> State {
    let mut state = State::new();
    let n = files.len() as u64;
    for (i, (name, lines)) in files.iter().enumerate() {
        let mtime_off = n - i as u64;
        state.apply(mk_file(name, mtime_off, *lines));
    }
    state
}

#[test]
fn n_anchors_tail_visible_file_at_top_of_viewport() {
    let state = build_state(&[("a", 50), ("b", 30), ("c", 20), ("d", 10), ("e", 5)]);
    let offsets = file_offsets(&state, DIFF_W);
    let total = content_total_rows(&state, DIFF_W);
    let naive_max = total.saturating_sub(VIEWPORT_H);

    assert!(
        offsets[2] > naive_max,
        "test setup: c (offset {}) must be tail-visible vs naive_max {}",
        offsets[2],
        naive_max
    );

    let mut view = ViewState::new();
    view = step(&state, &view, VIEWPORT_H, DIFF_W, NavEvent::NextFile);
    view = step(&state, &view, VIEWPORT_H, DIFF_W, NavEvent::NextFile);
    let f = frame(&state, &view, VIEWPORT_H, DIFF_W);

    assert_eq!(f.focused_idx, 2, "n n should focus c");
    assert_eq!(
        f.scroll, offsets[2],
        "diff pane must anchor c at the top — scroll={} offsets[c]={}",
        f.scroll, offsets[2]
    );
}

#[test]
fn n_b_round_trip_keeps_focus_synced_with_diff_pane() {
    let state = build_state(&[("a", 50), ("b", 30), ("c", 20), ("d", 10), ("e", 5)]);
    let offsets = file_offsets(&state, DIFF_W);
    let mut view = ViewState::new();

    let n = state.len();

    for (i, &offset) in offsets.iter().enumerate() {
        let f = frame(&state, &view, VIEWPORT_H, DIFF_W);
        assert_eq!(f.focused_idx, i, "forward step {i}: focused_idx mismatch");
        assert_eq!(
            f.scroll, offset,
            "forward step {i}: scroll {} should anchor file at offset {}",
            f.scroll, offset
        );
        if i + 1 < n {
            view = step(&state, &view, VIEWPORT_H, DIFF_W, NavEvent::NextFile);
        }
    }

    for (i, &offset) in offsets.iter().enumerate().rev() {
        let f = frame(&state, &view, VIEWPORT_H, DIFF_W);
        assert_eq!(f.focused_idx, i, "backward step {i}: focused_idx mismatch");
        assert_eq!(
            f.scroll, offset,
            "backward step {i}: scroll {} should anchor file at offset {}",
            f.scroll, offset
        );
        if i > 0 {
            view = step(&state, &view, VIEWPORT_H, DIFF_W, NavEvent::PrevFile);
        }
    }
}

#[test]
fn b_inside_file_rewinds_to_top_then_moves_up() {
    let state = build_state(&[("a", 50), ("b", 50), ("c", 50)]);
    let offsets = file_offsets(&state, DIFF_W);
    let mut view = ViewState::new();

    view = step(&state, &view, VIEWPORT_H, DIFF_W, NavEvent::NextFile);
    view = step(&state, &view, VIEWPORT_H, DIFF_W, NavEvent::ScrollDown(5));
    let f = frame(&state, &view, VIEWPORT_H, DIFF_W);
    assert!(
        f.scroll > offsets[1],
        "scrolled into b's body — scroll {} should exceed offsets[b] {}",
        f.scroll,
        offsets[1]
    );
    assert_eq!(f.focused_idx, 1);

    view = step(&state, &view, VIEWPORT_H, DIFF_W, NavEvent::PrevFile);
    let f = frame(&state, &view, VIEWPORT_H, DIFF_W);
    assert_eq!(f.scroll, offsets[1], "first b rewinds to b's top");
    assert_eq!(f.focused_idx, 1);

    view = step(&state, &view, VIEWPORT_H, DIFF_W, NavEvent::PrevFile);
    let f = frame(&state, &view, VIEWPORT_H, DIFF_W);
    assert_eq!(f.scroll, offsets[0], "second b moves to a's top");
    assert_eq!(f.focused_idx, 0);
}

#[test]
fn g_jumps_to_first_file() {
    let state = build_state(&[("a", 50), ("b", 30), ("c", 20)]);
    let mut view = ViewState::new();
    view = step(&state, &view, VIEWPORT_H, DIFF_W, NavEvent::NextFile);
    view = step(&state, &view, VIEWPORT_H, DIFF_W, NavEvent::NextFile);
    view = step(&state, &view, VIEWPORT_H, DIFF_W, NavEvent::Top);
    let f = frame(&state, &view, VIEWPORT_H, DIFF_W);
    assert_eq!(f.focused_idx, 0);
    assert_eq!(f.scroll, 0);
}

#[test]
fn j_k_focus_tracks_path_at_scroll() {
    let state = build_state(&[("a", 50), ("b", 30), ("c", 20)]);
    let offsets = file_offsets(&state, DIFF_W);
    let mut view = ViewState::new();
    let f0 = frame(&state, &view, VIEWPORT_H, DIFF_W);
    assert_eq!(f0.focused_idx, 0);

    view = step(
        &state,
        &view,
        VIEWPORT_H,
        DIFF_W,
        NavEvent::ScrollDown(offsets[1]),
    );
    let f = frame(&state, &view, VIEWPORT_H, DIFF_W);
    assert_eq!(f.focused_idx, 1, "focus follows scroll into b");

    view = step(
        &state,
        &view,
        VIEWPORT_H,
        DIFF_W,
        NavEvent::ScrollUp(offsets[1]),
    );
    let f = frame(&state, &view, VIEWPORT_H, DIFF_W);
    assert_eq!(f.focused_idx, 0, "focus follows scroll back to a");
}

#[test]
fn focused_path_survives_state_resort() {
    let mut state = build_state(&[("a", 50), ("b", 30), ("c", 20)]);
    let mut view = ViewState::new();
    view = step(&state, &view, VIEWPORT_H, DIFF_W, NavEvent::NextFile);

    let f = frame(&state, &view, VIEWPORT_H, DIFF_W);
    assert_eq!(f.focused_idx, 1);

    state.apply(mk_file("c", 9999, 20));

    let f = frame(&state, &view, VIEWPORT_H, DIFF_W);
    assert_eq!(f.focused_idx, 2, "focused_path tracks b through resort");
    assert_eq!(state.order()[f.focused_idx], "b");

    view = step(&state, &view, VIEWPORT_H, DIFF_W, NavEvent::NextFile);
    let f = frame(&state, &view, VIEWPORT_H, DIFF_W);
    assert_eq!(f.focused_idx, 2, "n at last file is a no-op");
}

#[test]
fn n_anchors_focus_when_content_fits_in_viewport() {
    let state = build_state(&[("a", 5), ("b", 5), ("c", 5)]);
    let offsets = file_offsets(&state, DIFF_W);
    let total = content_total_rows(&state, DIFF_W);
    assert!(
        total < VIEWPORT_H,
        "test setup: content must fit in viewport"
    );

    let mut view = ViewState::new();
    view = step(&state, &view, VIEWPORT_H, DIFF_W, NavEvent::NextFile);
    let f = frame(&state, &view, VIEWPORT_H, DIFF_W);
    assert_eq!(f.focused_idx, 1);
    assert_eq!(
        f.scroll, offsets[1],
        "scroll must reach b's offset even when content fits"
    );
}

#[test]
fn nav_on_empty_state_is_a_safe_noop() {
    let state = State::new();
    let mut view = ViewState::new();
    let f = frame(&state, &view, VIEWPORT_H, DIFF_W);
    assert_eq!(f.focused_idx, 0);
    assert_eq!(f.scroll, 0);

    for ev in [
        NavEvent::NextFile,
        NavEvent::PrevFile,
        NavEvent::Top,
        NavEvent::ScrollDown(10),
        NavEvent::ScrollUp(10),
    ] {
        view = step(&state, &view, VIEWPORT_H, DIFF_W, ev);
        let f = frame(&state, &view, VIEWPORT_H, DIFF_W);
        assert_eq!(f.focused_idx, 0);
        assert_eq!(f.scroll, 0);
    }
}
