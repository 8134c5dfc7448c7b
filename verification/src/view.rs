//! The view-model: scroll and focus state and the navigation step.
//!
//! Everything here is a function of the `State`, the current `ViewState` and
//! the viewport geometry.

use vstd::prelude::*;
use crate::state::{State, DiffUpdate, Hunk, HunkLine, ChangeKind, has_path, entries_wf};
use crate::render::{spec_wrap, wrap_count};

verus! {

/// Scroll position and focused file, as the user left them.
#[derive(Debug, PartialEq, Eq)]
pub struct ViewState {
    pub scroll: u16,
    pub focused_path: Option<String>,
}

/// What a `ViewState` holds: the scroll and the focused path's characters.
pub ghost struct ViewModel {
    pub scroll: u16,
    pub focused_path: Option<Seq<char>>,
}

impl View for ViewState {
    type V = ViewModel;

    open spec fn view(&self) -> ViewModel {
        ViewModel {
            scroll: self.scroll,
            focused_path: match self.focused_path {
                Some(p) => Some(p@),
                None => None,
            },
        }
    }
}

fn clone_path(p: &Option<String>) -> (res: Option<String>)
    ensures
        match (res, *p) {
            (Some(a), Some(b)) => a@ == b@,
            (None, None) => true,
            _ => false,
        },
{
    match p {
        Some(s) => Some(s.clone()),
        None => None,
    }
}

impl ViewState {
    /// Scroll at the top, nothing focused.
    pub fn new() -> (res: ViewState)
        ensures
            res@ == (ViewModel { scroll: 0, focused_path: None }),
    {
        ViewState { scroll: 0, focused_path: None }
    }
}

impl Clone for ViewState {
    fn clone(&self) -> (res: Self)
        ensures
            res@ == self@,
    {
        ViewState { scroll: self.scroll, focused_path: clone_path(&self.focused_path) }
    }
}

impl Default for ViewState {
    fn default() -> (res: Self)
        ensures
            res@ == (ViewModel { scroll: 0, focused_path: None }),
    {
        ViewState::new()
    }
}

/// Navigation intents: the input events that change the view.
#[derive(Debug, Clone, Copy, PartialEq, Eq)]
pub enum NavEvent {
    ScrollUp(u16),
    ScrollDown(u16),
    Top,
    NextFile,
    PrevFile,
}

/// The view derived for one tick: clamped scroll, focused index and the
/// scroll ceiling.
#[derive(Debug, Clone, Copy)]
pub struct Frame {
    pub scroll: u16,
    pub focused_idx: usize,
    pub max_scroll: u16,
}

pub open spec fn min_int(a: int, b: int) -> int {
    if a < b {
        a
    } else {
        b
    }
}

/// `x` clamped into `u16`.
pub open spec fn clamp16(x: int) -> u16 {
    if x > u16::MAX {
        u16::MAX
    } else {
        x as u16
    }
}

/// `a - b`, or 0 below zero.
pub open spec fn sub16(a: u16, b: u16) -> u16 {
    if a >= b {
        (a - b) as u16
    } else {
        0
    }
}

/// `a + b`, or `u16::MAX` above it.
pub open spec fn add16(a: u16, b: u16) -> u16 {
    clamp16(a + b)
}

/// Cells left for a diff line's text once its 4-cell prefix is drawn.
pub open spec fn content_width(width: u16) -> u16 {
    sub16(width, 4)
}

/// Rows a diff line takes: the number of chunks the diff pane cuts it into
/// at `content_w` cells (`spec_wrap`), clamped into `u32`.
pub open spec fn line_rows(text: Seq<char>, content_w: u16) -> u32 {
    let n = spec_wrap(text, content_w).len();
    if n > u32::MAX {
        u32::MAX
    } else {
        n as u32
    }
}

/// Rows of a sequence of diff lines.
pub open spec fn lines_rows(lines: Seq<HunkLine>, content_w: u16) -> int
    decreases lines.len(),
{
    if lines.len() == 0 {
        0
    } else {
        lines_rows(lines.drop_last(), content_w) + line_rows(lines.last().text(), content_w)
    }
}

/// Rows of a sequence of hunks: one header row each, then their lines.
pub open spec fn hunks_rows(hunks: Seq<Hunk>, content_w: u16) -> int
    decreases hunks.len(),
{
    if hunks.len() == 0 {
        0
    } else {
        hunks_rows(hunks.drop_last(), content_w) + 1 + lines_rows(hunks.last().lines@, content_w)
    }
}

/// Rows a file takes in the diff pane: its header, then a one-row note for a
/// binary file or a file with no textual change, else its hunks.
pub open spec fn visual_rows(u: DiffUpdate, width: u16) -> int {
    if u.binary {
        2
    } else if u.hunks@.len() == 0 && !(u.status is Deleted) {
        2
    } else {
        1 + hunks_rows(u.hunks@, content_width(width))
    }
}

/// `visual_rows` clamped into `u32`.
pub open spec fn file_rows(u: DiffUpdate, width: u16) -> u32 {
    let r = visual_rows(u, width);
    if r > u32::MAX {
        u32::MAX
    } else {
        r as u32
    }
}

/// Rows taken by the first `i` files, each followed by a blank line and a
/// separator.
pub open spec fn rows_before(s: Seq<DiffUpdate>, width: u16, i: int) -> int
    decreases i,
{
    if i <= 0 {
        0
    } else {
        rows_before(s, width, i - 1) + file_rows(s[i - 1], width) + 2
    }
}

/// Row at which each file's header starts, clamped into `u16`.
pub open spec fn offsets_of(s: Seq<DiffUpdate>, width: u16) -> Seq<u16> {
    Seq::new(s.len(), |i: int| clamp16(rows_before(s, width, i)))
}

/// Rows of the whole diff pane.
pub open spec fn total_rows(s: Seq<DiffUpdate>, width: u16) -> int {
    if s.len() == 0 {
        0
    } else {
        rows_before(s, width, s.len() as int) - 2
    }
}

/// The highest scroll: the one that fills the viewport with the tail, or
/// the last file's offset, whichever is larger.
#[verifier::opaque]
pub open spec fn spec_max_scroll(s: Seq<DiffUpdate>, viewport_h: u16, width: u16) -> u16 {
    let naive = sub16(clamp16(total_rows(s, width)), viewport_h);
    let last: u16 = if s.len() == 0 {
        0
    } else {
        offsets_of(s, width)[s.len() - 1]
    };
    if naive >= last {
        naive
    } else {
        last
    }
}

/// First index whose entry has path `p`.
pub open spec fn first_index_of(s: Seq<DiffUpdate>, p: Seq<char>) -> int {
    choose|i: int|
        0 <= i < s.len() && s[i].path@ == p && forall|j: int| 0 <= j < i ==> (#[trigger] s[j]).path@ != p
}

/// Index of the focused path, 0 when unset or gone.
pub open spec fn spec_focused_index(s: Seq<DiffUpdate>, p: Option<Seq<char>>) -> usize {
    match p {
        None => 0,
        Some(p) => if has_path(s, p) {
            first_index_of(s, p) as usize
        } else {
            0
        },
    }
}

/// Last index among the first `n` offsets that is at most `scroll`, else 0.
pub open spec fn last_at_most(offs: Seq<u16>, scroll: u16, n: int) -> int
    decreases n,
{
    if n <= 0 {
        0
    } else if offs[n - 1] <= scroll {
        n - 1
    } else {
        last_at_most(offs, scroll, n - 1)
    }
}

/// Path of the file at the top of the viewport for `scroll`.
pub open spec fn spec_path_at(s: Seq<DiffUpdate>, width: u16, scroll: u16) -> Option<Seq<char>> {
    let idx = last_at_most(offsets_of(s, width), scroll, s.len() as int);
    if idx < s.len() {
        Some(s[idx].path@)
    } else {
        None
    }
}

pub open spec fn spec_frame(s: Seq<DiffUpdate>, v: ViewModel, viewport_h: u16, width: u16) -> Frame {
    let max = spec_max_scroll(s, viewport_h, width);
    Frame {
        scroll: if v.scroll <= max {
            v.scroll
        } else {
            max
        },
        focused_idx: spec_focused_index(s, v.focused_path),
        max_scroll: max,
    }
}

/// The view after one navigation event.
pub open spec fn spec_step(
    s: Seq<DiffUpdate>,
    v: ViewModel,
    viewport_h: u16,
    width: u16,
    ev: NavEvent,
) -> ViewModel {
    let f = spec_frame(s, v, viewport_h, width);
    let offs = offsets_of(s, width);
    match ev {
        NavEvent::ScrollDown(n) => {
            let sc = add16(f.scroll, n);
            ViewModel { scroll: sc, focused_path: spec_path_at(s, width, sc) }
        },
        NavEvent::ScrollUp(n) => {
            let sc = sub16(f.scroll, n);
            ViewModel { scroll: sc, focused_path: spec_path_at(s, width, sc) }
        },
        NavEvent::Top => ViewModel {
            scroll: 0,
            focused_path: if s.len() > 0 {
                Some(s[0].path@)
            } else {
                None
            },
        },
        NavEvent::NextFile => {
            let cur = f.focused_idx as int;
            if cur + 1 < s.len() {
                ViewModel { scroll: offs[cur + 1], focused_path: Some(s[cur + 1].path@) }
            } else {
                v
            }
        },
        NavEvent::PrevFile => {
            let cur = f.focused_idx as int;
            let cur_offset: u16 = if cur < offs.len() {
                offs[cur]
            } else {
                0
            };
            if f.scroll > cur_offset {
                ViewModel { scroll: cur_offset, focused_path: v.focused_path }
            } else if cur > 0 {
                ViewModel { scroll: offs[cur - 1], focused_path: Some(s[cur - 1].path@) }
            } else {
                v
            }
        },
    }
}

/// Rows a diff line takes when cut at `content_w` display cells: as many as
/// the chunks `wrap_at` makes of it.
pub fn diff_line_rows(content: &str, content_w: u16) -> (rows: u32)
    ensures
        rows == line_rows(content@, content_w),
{
    let n = wrap_count(content, content_w);
    if n > u32::MAX as usize {
        u32::MAX
    } else {
        n as u32
    }
}

/// Rows a file takes in the diff pane, clamped into `u32`.
pub fn file_visual_rows(update: &DiffUpdate, width: u16) -> (rows: u32)
    ensures
        rows == file_rows(*update, width),
{
    let n: u32 = 1;
    if update.binary {
        return n + 1;
    }
    if update.hunks.len() == 0 && !matches!(update.status, ChangeKind::Deleted) {
        return n + 1;
    }
    let content_w = width.saturating_sub(4);
    let ghost cw = content_width(width);
    let mut n: u32 = 1;
    let mut h: usize = 0;
    while h < update.hunks.len()
        invariant
            h <= update.hunks@.len(),
            content_w == cw,
            n == min_int(1 + hunks_rows(update.hunks@.take(h as int), cw), u32::MAX as int),
        decreases update.hunks.len() - h,
    {
        let hunk = &update.hunks[h];
        let ghost before = hunks_rows(update.hunks@.take(h as int), cw);
        n = n.saturating_add(1);
        let mut j: usize = 0;
        while j < hunk.lines.len()
            invariant
                j <= hunk.lines@.len(),
                content_w == cw,
                n == min_int(1 + before + 1 + lines_rows(hunk.lines@.take(j as int), cw), u32::MAX as int),
            decreases hunk.lines.len() - j,
        {
            let r = diff_line_rows(hunk.lines[j].content().as_str(), content_w);
            proof {
                let t = hunk.lines@.take(j + 1);
                assert(t.drop_last() =~= hunk.lines@.take(j as int));
                assert(t.last() == hunk.lines@[j as int]);
            }
            n = n.saturating_add(r);
            j += 1;
        }
        proof {
            assert(hunk.lines@.take(hunk.lines@.len() as int) =~= hunk.lines@);
            let t = update.hunks@.take(h + 1);
            assert(t.drop_last() =~= update.hunks@.take(h as int));
            assert(t.last() == update.hunks@[h as int]);
        }
        h += 1;
    }
    proof {
        assert(update.hunks@.take(update.hunks@.len() as int) =~= update.hunks@);
    }
    n
}

proof fn lemma_first_exists(s: Seq<DiffUpdate>, p: Seq<char>, i: int)
    requires
        0 <= i < s.len(),
        s[i].path@ == p,
    ensures
        exists|c: int|
            0 <= c < s.len() && s[c].path@ == p && forall|j: int| 0 <= j < c ==> (#[trigger] s[j]).path@ != p,
    decreases i,
{
    if exists|j: int| 0 <= j < i && (#[trigger] s[j]).path@ == p {
        let j = choose|j: int| 0 <= j < i && (#[trigger] s[j]).path@ == p;
        lemma_first_exists(s, p, j);
    } else {
        assert(forall|j: int| 0 <= j < i ==> (#[trigger] s[j]).path@ != p);
    }
}

/// When `p` is present, `first_index_of` is its first occurrence.
pub proof fn lemma_first_index(s: Seq<DiffUpdate>, p: Seq<char>)
    requires
        has_path(s, p),
    ensures
        0 <= first_index_of(s, p) < s.len(),
        s[first_index_of(s, p)].path@ == p,
        forall|j: int| 0 <= j < first_index_of(s, p) ==> (#[trigger] s[j]).path@ != p,
{
    let i = choose|i: int| 0 <= i < s.len() && (#[trigger] s[i]).path@ == p;
    lemma_first_exists(s, p, i);
}

/// The focused index is 0 or a valid index.
pub proof fn lemma_focused_bound(s: Seq<DiffUpdate>, p: Option<Seq<char>>)
    ensures
        spec_focused_index(s, p) == 0 || spec_focused_index(s, p) < s.len(),
{
    if let Some(q) = p {
        if has_path(s, q) {
            lemma_first_index(s, q);
        }
    }
}

proof fn lemma_rows_before_step(s: Seq<DiffUpdate>, width: u16, i: int)
    requires
        0 <= i,
    ensures
        rows_before(s, width, i + 1) == rows_before(s, width, i) + file_rows(s[i], width) + 2,
{
}

/// Row at which each file's header starts in the diff pane.
pub fn file_offsets(state: &State, diff_width: u16) -> (offsets: Vec<u16>)
    ensures
        offsets@ == offsets_of(state@, diff_width),
{
    let entries = state.iter_ordered();
    let mut offsets: Vec<u16> = Vec::new();
    let mut cur: u32 = 0;
    let mut i: usize = 0;
    while i < entries.len()
        invariant
            i <= entries@.len(),
            entries@ == state@,
            offsets@.len() == i,
            forall|k: int| 0 <= k < i ==> offsets@[k] == clamp16(rows_before(state@, diff_width, k)),
            i == 0 ==> cur == 0,
            i > 0 ==> cur == min_int(rows_before(state@, diff_width, i as int) - 2, u32::MAX as int),
        decreases entries.len() - i,
    {
        proof {
            lemma_rows_before_step(state@, diff_width, i as int);
            if i > 0 {
                lemma_rows_before_step(state@, diff_width, i - 1);
            }
        }
        if i > 0 {
            cur = cur.saturating_add(2);
        }
        let off: u16 = if cur > u16::MAX as u32 {
            u16::MAX
        } else {
            cur as u16
        };
        offsets.push(off);
        let r = file_visual_rows(&entries[i], diff_width);
        cur = cur.saturating_add(r);
        i += 1;
    }
    proof {
        assert(offsets@ =~= offsets_of(state@, diff_width));
    }
    offsets
}

/// Rows of the whole diff pane, clamped into `u16`.
pub fn content_total_rows(state: &State, diff_width: u16) -> (total: u16)
    ensures
        total == clamp16(total_rows(state@, diff_width)),
{
    let entries = state.iter_ordered();
    let mut total: u32 = 0;
    let mut i: usize = 0;
    while i < entries.len()
        invariant
            i <= entries@.len(),
            entries@ == state@,
            i == 0 ==> total == 0,
            i > 0 ==> total == min_int(rows_before(state@, diff_width, i as int) - 2, u32::MAX as int),
        decreases entries.len() - i,
    {
        proof {
            lemma_rows_before_step(state@, diff_width, i as int);
            if i > 0 {
                lemma_rows_before_step(state@, diff_width, i - 1);
            }
        }
        if i > 0 {
            total = total.saturating_add(2);
        }
        let r = file_visual_rows(&entries[i], diff_width);
        total = total.saturating_add(r);
        i += 1;
    }
    if total > u16::MAX as u32 {
        u16::MAX
    } else {
        total as u16
    }
}

/// Highest reachable scroll position: `max(total - viewport_h, last offset)`,
/// so that every file's offset can be scrolled to.
pub fn max_scroll(state: &State, viewport_h: u16, diff_w: u16) -> (m: u16)
    ensures
        m == spec_max_scroll(state@, viewport_h, diff_w),
{
    reveal(spec_max_scroll);
    let naive = content_total_rows(state, diff_w).saturating_sub(viewport_h);
    let offsets = file_offsets(state, diff_w);
    let last: u16 = if offsets.len() == 0 {
        0
    } else {
        offsets[offsets.len() - 1]
    };
    if naive >= last {
        naive
    } else {
        last
    }
}

/// Index of the focused path in the ordered list; 0 when unset or gone.
pub fn focused_index(state: &State, focused_path: Option<&str>) -> (idx: usize)
    ensures
        idx == spec_focused_index(state@, match focused_path {
            Some(p) => Some(p@),
            None => None,
        }),
{
    let path = match focused_path {
        Some(p) => p,
        None => {
            return 0;
        },
    };
    let key = path.to_owned();
    let entries = state.iter_ordered();
    let mut i: usize = 0;
    while i < entries.len()
        invariant
            i <= entries@.len(),
            entries@ == state@,
            key@ == path@,
            focused_path == Some(path),
            forall|j: int| 0 <= j < i ==> (#[trigger] entries@[j]).path@ != path@,
        decreases entries.len() - i,
    {
        if entries[i].path == key {
            proof {
                let s = state@;
                assert(has_path(s, path@));
                lemma_first_index(s, path@);
                let c = first_index_of(s, path@);
                if c < i {
                    assert(entries@[c].path@ != path@);
                } else if c > i {
                    assert(s[i as int].path@ == path@);
                }
                assert(c == i);
                assert(spec_focused_index(s, Some(path@)) == i);
            }
            return i;
        }
        i += 1;
    }
    proof {
        if has_path(state@, path@) {
            let k = choose|k: int| 0 <= k < state@.len() && (#[trigger] state@[k]).path@ == path@;
            assert(entries@[k].path@ != path@);
        }
    }
    0
}

/// The file at the top of the viewport for a scroll offset: the last one
/// whose offset is at most `scroll`.
pub fn path_at_scroll(state: &State, diff_w: u16, scroll: u16) -> (p: Option<String>)
    ensures
        match (p, spec_path_at(state@, diff_w, scroll)) {
            (Some(a), Some(b)) => a@ == b,
            (None, None) => true,
            _ => false,
        },
{
    let offsets = file_offsets(state, diff_w);
    let entries = state.iter_ordered();
    let ghost n = state@.len() as int;
    let mut k: usize = offsets.len();
    let mut idx: usize = 0;
    while k > 0
        invariant_except_break
            idx == 0,
        invariant
            k <= offsets@.len(),
            offsets@ == offsets_of(state@, diff_w),
            offsets@.len() == n,
            last_at_most(offsets@, scroll, n) == last_at_most(offsets@, scroll, k as int),
        ensures
            idx == last_at_most(offsets@, scroll, n),
        decreases k,
    {
        if offsets[k - 1] <= scroll {
            idx = k - 1;
            break;
        }
        k -= 1;
    }
    if idx < entries.len() {
        Some(entries[idx].path.clone())
    } else {
        None
    }
}

/// The frame for the current tick.
pub fn frame(state: &State, view: &ViewState, viewport_h: u16, diff_w: u16) -> (f: Frame)
    ensures
        f == spec_frame(state@, view@, viewport_h, diff_w),
{
    let max = max_scroll(state, viewport_h, diff_w);
    let scroll = if view.scroll <= max {
        view.scroll
    } else {
        max
    };
    let focused: Option<&str> = match &view.focused_path {
        Some(p) => Some(p.as_str()),
        None => None,
    };
    let focused_idx = focused_index(state, focused);
    Frame { scroll, focused_idx, max_scroll: max }
}

/// Apply a navigation event: read the clamped frame, then write the new
/// scroll and focus.
pub fn step(state: &State, view: &ViewState, viewport_h: u16, diff_w: u16, ev: NavEvent) -> (next:
    ViewState)
    ensures
        next@ == spec_step(state@, view@, viewport_h, diff_w, ev),
{
    let f = frame(state, view, viewport_h, diff_w);
    proof {
        lemma_focused_bound(state@, view@.focused_path);
    }
    let offsets = file_offsets(state, diff_w);
    let entries = state.iter_ordered();
    let mut next = view.clone();
    match ev {
        NavEvent::ScrollDown(n) => {
            next.scroll = f.scroll.saturating_add(n);
            next.focused_path = path_at_scroll(state, diff_w, next.scroll);
        },
        NavEvent::ScrollUp(n) => {
            next.scroll = f.scroll.saturating_sub(n);
            next.focused_path = path_at_scroll(state, diff_w, next.scroll);
        },
        NavEvent::Top => {
            next.scroll = 0;
            next.focused_path = if entries.len() > 0 {
                Some(entries[0].path.clone())
            } else {
                None
            };
        },
        NavEvent::NextFile => {
            let cur = f.focused_idx;
            if cur < entries.len() && cur + 1 < entries.len() {
                next.focused_path = Some(entries[cur + 1].path.clone());
                next.scroll = offsets[cur + 1];
            }
        },
        NavEvent::PrevFile => {
            let cur = f.focused_idx;
            let cur_offset: u16 = if cur < offsets.len() {
                offsets[cur]
            } else {
                0
            };
            if f.scroll > cur_offset {
                next.scroll = cur_offset;
            } else if cur > 0 {
                let prev = cur - 1;
                if prev < entries.len() {
                    next.focused_path = Some(entries[prev].path.clone());
                    next.scroll = offsets[prev];
                }
            }
        },
    }
    next
}


proof fn lemma_rows_before_monotone(s: Seq<DiffUpdate>, width: u16, i: int, j: int)
    requires
        0 <= i <= j,
    ensures
        rows_before(s, width, i) <= rows_before(s, width, j),
    decreases j,
{
    if i < j {
        lemma_rows_before_monotone(s, width, i, j - 1);
    }
}

/// The first file starts at row 0 and each file starts no earlier than the
/// one before it.
pub proof fn lemma_offsets_monotone(s: Seq<DiffUpdate>, width: u16)
    ensures
        s.len() > 0 ==> offsets_of(s, width)[0] == 0,
        forall|i: int, j: int|
            0 <= i <= j < s.len() ==> #[trigger] offsets_of(s, width)[i] <= #[trigger] offsets_of(
                s,
                width,
            )[j],
{
    assert forall|i: int, j: int| 0 <= i <= j < s.len() implies #[trigger] offsets_of(s, width)[i]
        <= #[trigger] offsets_of(s, width)[j] by {
        lemma_rows_before_monotone(s, width, 0, i);
        lemma_rows_before_monotone(s, width, i, j);
    }
}

/// Each file's header comes two rows (a blank and a separator) after the
/// previous file's last row, and the pane ends with the last file's last
/// row, wherever the row count does not reach `u16::MAX`; the pane of an
/// empty list has no rows.
pub proof fn lemma_offsets_step(s: Seq<DiffUpdate>, width: u16)
    ensures
        forall|i: int|
            0 <= i && i + 1 < s.len() && rows_before(s, width, i + 1) <= u16::MAX ==> #[trigger] offsets_of(
                s,
                width,
            )[i + 1] == offsets_of(s, width)[i] + file_rows(s[i], width) + 2,
        s.len() == 0 ==> total_rows(s, width) == 0,
        s.len() > 0 && total_rows(s, width) <= u16::MAX ==> total_rows(s, width) == offsets_of(s, width)[s.len()
            - 1] + file_rows(s[s.len() - 1], width),
{
    assert forall|i: int|
        0 <= i && i + 1 < s.len() && rows_before(s, width, i + 1) <= u16::MAX implies #[trigger] offsets_of(
        s,
        width,
    )[i + 1] == offsets_of(s, width)[i] + file_rows(s[i], width) + 2 by {
        lemma_rows_before_monotone(s, width, 0, i);
        lemma_rows_before_step(s, width, i);
    }
    if s.len() > 0 {
        let n = s.len() as int;
        lemma_rows_before_monotone(s, width, 0, n - 1);
        lemma_rows_before_step(s, width, n - 1);
    }
}

/// The frame holds the requested scroll under the ceiling: it is the
/// requested scroll when that does not exceed the ceiling, else the
/// ceiling.
pub proof fn lemma_frame_holds_scroll(s: Seq<DiffUpdate>, v: ViewModel, viewport_h: u16, width: u16)
    ensures
        spec_frame(s, v, viewport_h, width).max_scroll == spec_max_scroll(s, viewport_h, width),
        spec_frame(s, v, viewport_h, width).scroll <= spec_max_scroll(s, viewport_h, width),
        spec_frame(s, v, viewport_h, width).scroll <= v.scroll,
        spec_frame(s, v, viewport_h, width).scroll == v.scroll || spec_frame(s, v, viewport_h, width).scroll
            == spec_max_scroll(s, viewport_h, width),
{
}

/// Scrolling by `n` lines moves the frame's scroll by exactly `n` lines,
/// stopping at row 0 going up and at `u16::MAX` going down.
pub proof fn lemma_scroll_by_lines(s: Seq<DiffUpdate>, v: ViewModel, viewport_h: u16, width: u16, n: u16)
    ensures
        ({
            let fs = spec_frame(s, v, viewport_h, width).scroll as int;
            let up = spec_step(s, v, viewport_h, width, NavEvent::ScrollUp(n)).scroll as int;
            let down = spec_step(s, v, viewport_h, width, NavEvent::ScrollDown(n)).scroll as int;
            &&& fs >= n ==> up + n == fs
            &&& fs < n ==> up == 0
            &&& fs + n <= u16::MAX ==> down == fs + n
            &&& fs + n > u16::MAX ==> down == u16::MAX
        }),
{
}

/// The scroll ceiling is the larger of two marks: the scroll that brings
/// the pane's last row to the bottom of the viewport (0 when every row
/// fits), and the last file's offset, so that `n` can still bring the last
/// file to the top. A pane of at most one file that fits in the viewport
/// cannot scroll.
pub proof fn lemma_max_scroll_marks(s: Seq<DiffUpdate>, viewport_h: u16, width: u16)
    ensures
        ({
            let t = clamp16(total_rows(s, width)) as int;
            let fill = if t >= viewport_h {
                t - viewport_h
            } else {
                0
            };
            let last = if s.len() == 0 {
                0
            } else {
                offsets_of(s, width)[s.len() - 1] as int
            };
            let m = spec_max_scroll(s, viewport_h, width) as int;
            &&& m >= fill
            &&& m >= last
            &&& m == fill || m == last
        }),
        s.len() <= 1 && total_rows(s, width) <= viewport_h ==> spec_max_scroll(s, viewport_h, width) == 0,
{
    reveal(spec_max_scroll);
    lemma_offsets_monotone(s, width);
}

/// Every file's offset is a reachable scroll position: none exceeds the
/// scroll ceiling.
pub proof fn lemma_offsets_reachable(s: Seq<DiffUpdate>, viewport_h: u16, width: u16)
    ensures
        forall|i: int|
            0 <= i < s.len() ==> #[trigger] offsets_of(s, width)[i] <= spec_max_scroll(
                s,
                viewport_h,
                width,
            ),
{
    lemma_offsets_monotone(s, width);
    reveal(spec_max_scroll);
    assert forall|i: int| 0 <= i < s.len() implies #[trigger] offsets_of(s, width)[i]
        <= spec_max_scroll(s, viewport_h, width) by {
        assert(offsets_of(s, width)[i] <= offsets_of(s, width)[s.len() - 1]);
    }
}

/// No two entries share a path (part of `entries_wf`).
pub open spec fn paths_distinct(s: Seq<DiffUpdate>) -> bool {
    forall|i: int, j: int|
        0 <= i < s.len() && 0 <= j < s.len() && i != j ==> (#[trigger] s[i]).path@ != (
        #[trigger] s[j]).path@
}

/// A well-formed list has distinct paths.
pub proof fn lemma_wf_paths_distinct(s: Seq<DiffUpdate>)
    requires
        entries_wf(s),
    ensures
        paths_distinct(s),
{
}

/// When paths are distinct the focused index of an entry's path is that
/// entry's index.
pub proof fn lemma_focused_index_of_entry(s: Seq<DiffUpdate>, k: int)
    requires
        paths_distinct(s),
        s.len() <= usize::MAX,
        0 <= k < s.len(),
    ensures
        spec_focused_index(s, Some(s[k].path@)) == k,
{
    let p = s[k].path@;
    assert(has_path(s, p));
    lemma_first_index(s, p);
    let c = first_index_of(s, p);
    if c != k {
        assert(s[c].path@ != s[k].path@);
    }
}

/// Focus is keyed by path: whatever the order, the focused index points at
/// the entry with the focused path.
pub proof fn lemma_focus_follows_path(s: Seq<DiffUpdate>, p: Seq<char>)
    requires
        has_path(s, p),
        s.len() <= usize::MAX,
    ensures
        0 <= spec_focused_index(s, Some(p)) < s.len(),
        s[spec_focused_index(s, Some(p)) as int].path@ == p,
{
    lemma_first_index(s, p);
}

/// With no entries the frame is all zeros, whatever the view.
pub proof fn lemma_empty_frame(s: Seq<DiffUpdate>, v: ViewModel, viewport_h: u16, width: u16)
    requires
        s.len() == 0,
    ensures
        spec_frame(s, v, viewport_h, width) == (Frame { scroll: 0, focused_idx: 0, max_scroll: 0 }),
{
    reveal(spec_max_scroll);
}

/// On an empty list every navigation event leaves the frame at zero.
pub proof fn lemma_empty_nav(
    s: Seq<DiffUpdate>,
    v: ViewModel,
    viewport_h: u16,
    width: u16,
    ev: NavEvent,
)
    requires
        s.len() == 0,
    ensures
        spec_frame(s, spec_step(s, v, viewport_h, width, ev), viewport_h, width) == (Frame {
            scroll: 0,
            focused_idx: 0,
            max_scroll: 0,
        }),
{
    reveal(spec_max_scroll);
}

/// `n` on any file but the last focuses the next file and anchors it at the
/// top of the viewport: the clamped scroll equals that file's offset.
#[verifier::spinoff_prover]
#[verifier::rlimit(40)]
pub proof fn lemma_next_file_anchors(s: Seq<DiffUpdate>, v: ViewModel, viewport_h: u16, width: u16)
    requires
        paths_distinct(s),
        s.len() <= usize::MAX,
        spec_frame(s, v, viewport_h, width).focused_idx + 1 < s.len(),
    ensures
        ({
            let cur = spec_frame(s, v, viewport_h, width).focused_idx as int;
            spec_frame(s, spec_step(s, v, viewport_h, width, NavEvent::NextFile), viewport_h, width)
                == Frame {
                scroll: offsets_of(s, width)[cur + 1],
                focused_idx: (cur + 1) as usize,
                max_scroll: spec_max_scroll(s, viewport_h, width),
            }
        }),
{
    let f = spec_frame(s, v, viewport_h, width);
    let cur = f.focused_idx as int;
    let offs = offsets_of(s, width);
    let max = spec_max_scroll(s, viewport_h, width);
    let w = spec_step(s, v, viewport_h, width, NavEvent::NextFile);
    assert(w == ViewModel { scroll: offs[cur + 1], focused_path: Some(s[cur + 1].path@) });
    lemma_offsets_reachable(s, viewport_h, width);
    assert(offs[cur + 1] <= max);
    lemma_focused_index_of_entry(s, cur + 1);
    let g = spec_frame(s, w, viewport_h, width);
    assert(g.scroll == offs[cur + 1]);
    assert(g.focused_idx == cur + 1);
}

/// `n` on the last file (or with no files) changes nothing.
pub proof fn lemma_next_file_at_end(s: Seq<DiffUpdate>, v: ViewModel, viewport_h: u16, width: u16)
    requires
        spec_frame(s, v, viewport_h, width).focused_idx + 1 >= s.len(),
    ensures
        spec_step(s, v, viewport_h, width, NavEvent::NextFile) == v,
{
}

/// `b` inside a file (scrolled below its top) rewinds to that file's top and
/// keeps the focus.
#[verifier::spinoff_prover]
#[verifier::rlimit(40)]
pub proof fn lemma_prev_file_rewinds(s: Seq<DiffUpdate>, v: ViewModel, viewport_h: u16, width: u16)
    requires
        spec_frame(s, v, viewport_h, width).focused_idx < s.len(),
        spec_frame(s, v, viewport_h, width).scroll > offsets_of(s, width)[spec_frame(
            s,
            v,
            viewport_h,
            width,
        ).focused_idx as int],
    ensures
        ({
            let f = spec_frame(s, v, viewport_h, width);
            spec_frame(s, spec_step(s, v, viewport_h, width, NavEvent::PrevFile), viewport_h, width)
                == Frame {
                scroll: offsets_of(s, width)[f.focused_idx as int],
                focused_idx: f.focused_idx,
                max_scroll: f.max_scroll,
            }
        }),
{
    let f = spec_frame(s, v, viewport_h, width);
    let cur = f.focused_idx as int;
    let offs = offsets_of(s, width);
    let w = spec_step(s, v, viewport_h, width, NavEvent::PrevFile);
    assert(w == ViewModel { scroll: offs[cur], focused_path: v.focused_path });
    lemma_offsets_reachable(s, viewport_h, width);
    assert(offs[cur] <= spec_max_scroll(s, viewport_h, width));
}

/// `b` at the top of a file other than the first focuses the previous file
/// and anchors it at the top of the viewport.
#[verifier::spinoff_prover]
#[verifier::rlimit(40)]
pub proof fn lemma_prev_file_moves_up(s: Seq<DiffUpdate>, v: ViewModel, viewport_h: u16, width: u16)
    requires
        paths_distinct(s),
        s.len() <= usize::MAX,
        0 < spec_frame(s, v, viewport_h, width).focused_idx < s.len(),
        spec_frame(s, v, viewport_h, width).scroll <= offsets_of(s, width)[spec_frame(
            s,
            v,
            viewport_h,
            width,
        ).focused_idx as int],
    ensures
        ({
            let f = spec_frame(s, v, viewport_h, width);
            spec_frame(s, spec_step(s, v, viewport_h, width, NavEvent::PrevFile), viewport_h, width)
                == Frame {
                scroll: offsets_of(s, width)[f.focused_idx - 1],
                focused_idx: (f.focused_idx - 1) as usize,
                max_scroll: f.max_scroll,
            }
        }),
{
    let f = spec_frame(s, v, viewport_h, width);
    let cur = f.focused_idx as int;
    let offs = offsets_of(s, width);
    let w = spec_step(s, v, viewport_h, width, NavEvent::PrevFile);
    assert(w == ViewModel { scroll: offs[cur - 1], focused_path: Some(s[cur - 1].path@) });
    lemma_offsets_reachable(s, viewport_h, width);
    assert(offs[cur - 1] <= spec_max_scroll(s, viewport_h, width));
    lemma_focused_index_of_entry(s, cur - 1);
}

/// `b` at the top of the first file changes nothing.
pub proof fn lemma_prev_file_at_first(s: Seq<DiffUpdate>, v: ViewModel, viewport_h: u16, width: u16)
    requires
        s.len() > 0,
        spec_frame(s, v, viewport_h, width).focused_idx == 0,
        spec_frame(s, v, viewport_h, width).scroll <= offsets_of(s, width)[0],
    ensures
        spec_step(s, v, viewport_h, width, NavEvent::PrevFile) == v,
{
}

/// `g` focuses the first file and scrolls to the top.
pub proof fn lemma_top(s: Seq<DiffUpdate>, v: ViewModel, viewport_h: u16, width: u16)
    requires
        paths_distinct(s),
        s.len() <= usize::MAX,
    ensures
        spec_frame(s, spec_step(s, v, viewport_h, width, NavEvent::Top), viewport_h, width)
            == (Frame { scroll: 0, focused_idx: 0, max_scroll: spec_max_scroll(s, viewport_h, width) }),
{
    if s.len() > 0 {
        lemma_focused_index_of_entry(s, 0);
    }
}

/// After scrolling by lines the focus is the file at the top of the
/// viewport: the last file whose offset is at most the new scroll.
#[verifier::spinoff_prover]
#[verifier::rlimit(40)]
pub proof fn lemma_scroll_focus(
    s: Seq<DiffUpdate>,
    v: ViewModel,
    viewport_h: u16,
    width: u16,
    ev: NavEvent,
)
    requires
        paths_distinct(s),
        s.len() <= usize::MAX,
        s.len() > 0,
        ev is ScrollUp || ev is ScrollDown,
    ensures
        ({
            let w = spec_step(s, v, viewport_h, width, ev);
            spec_frame(s, w, viewport_h, width).focused_idx == last_at_most(
                offsets_of(s, width),
                w.scroll,
                s.len() as int,
            )
        }),
{
    let w = spec_step(s, v, viewport_h, width, ev);
    let k = last_at_most(offsets_of(s, width), w.scroll, s.len() as int);
    lemma_last_at_most_bound(offsets_of(s, width), w.scroll, s.len() as int);
    lemma_focused_index_of_entry(s, k);
}

proof fn lemma_last_at_most_bound(offs: Seq<u16>, scroll: u16, n: int)
    ensures
        0 <= last_at_most(offs, scroll, n),
        n > 0 ==> last_at_most(offs, scroll, n) < n,
    decreases n,
{
    if n > 0 {
        lemma_last_at_most_bound(offs, scroll, n - 1);
    }
}

} // verus!
