use gitstream::layout::{diff_inner_width, sidebar_scroll, sidebar_width, truncate_left};
use gitstream::layout::{panes, Area};

#[test]
fn sidebar_width_is_a_clamped_quarter() {
    assert_eq!(sidebar_width(100), 25);
    assert_eq!(sidebar_width(200), 32);
    assert_eq!(sidebar_width(60), 18);
    // never leave less than 20 columns for the diff
    assert_eq!(sidebar_width(30), 10);
    assert_eq!(sidebar_width(10), 0);
}

#[test]
fn diff_inner_width_subtracts_sidebar_and_borders() {
    assert_eq!(diff_inner_width(100, true), 100 - 25 - 2);
    assert_eq!(diff_inner_width(100, false), 98);
    assert_eq!(diff_inner_width(1, false), 0);
}

#[test]
fn sidebar_scroll_keeps_highlight_in_view() {
    assert_eq!(sidebar_scroll(0, 5, 3), 0);
    assert_eq!(sidebar_scroll(1, 4, 10), 0);
    assert_eq!(sidebar_scroll(5, 4, 10), 3);
    assert_eq!(sidebar_scroll(9, 4, 10), 6);
    assert_eq!(sidebar_scroll(3, 0, 10), 0);
}

#[test]
fn truncate_left_keeps_the_tail() {
    assert_eq!(truncate_left("src/render/view.rs", 100), "src/render/view.rs");
    assert_eq!(truncate_left("src/render/view.rs", 8), "…view.rs");
    assert_eq!(truncate_left("abc", 1), "…");
    assert_eq!(truncate_left("abc", 0), "");
    // wide characters count two cells
    assert_eq!(truncate_left("ab漢字", 4), "…字");
}

#[test]
fn sidebar_window_keeps_highlight_visible() {
    for total in 1usize..12 {
        for visible in 1usize..6 {
            for h in 0..total {
                let s = gitstream::layout::sidebar_scroll(h, visible, total);
                assert!(s <= h && h < s + visible, "h={h} visible={visible} total={total} s={s}");
                if total >= visible {
                    assert!(s + visible <= total);
                }
            }
        }
    }
}

#[test]
fn truncated_tail_fits_after_ellipsis() {
    let out = gitstream::layout::truncate_left("deep/nested/你好/file.rs", 9);
    assert!(out.starts_with('…'));
    assert!("deep/nested/你好/file.rs".ends_with(&out['…'.len_utf8()..]));
    assert_eq!(out, "…/file.rs");
    let out = gitstream::layout::truncate_left("ab你好", 4);
    assert_eq!(out, "…好");
}

#[test]
fn frame_splits_into_panes() {
    let whole = Area { x: 0, y: 0, width: 100, height: 30 };
    let p = panes(whole, true);
    assert_eq!(p.sidebar, Some(Area { x: 0, y: 0, width: 25, height: 29 }));
    assert_eq!(p.diff, Area { x: 25, y: 0, width: 75, height: 29 });
    assert_eq!(p.footer, Area { x: 0, y: 29, width: 100, height: 1 });
    let p = panes(whole, false);
    assert_eq!(p.sidebar, None);
    assert_eq!(p.diff, Area { x: 0, y: 0, width: 100, height: 29 });
    let p = panes(Area { x: 0, y: 0, width: 10, height: 0 }, true);
    assert_eq!(p.sidebar, Some(Area { x: 0, y: 0, width: 0, height: 0 }));
    assert_eq!(p.footer.y, 0);
}
