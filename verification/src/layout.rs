//! Screen geometry: pane widths, sidebar scrolling and path truncation.

use vstd::prelude::*;
use crate::text::chars_of;
use crate::width::{char_width, char_display_width, str_width, display_width};

verus! {

/// Sidebar width for a terminal `total` columns wide: a quarter of it,
/// clamped to 18..=32, and never more than `total - 20`.
pub open spec fn spec_sidebar_width(total: u16) -> u16 {
    let proposed = (total as int * 25 / 100) as u16;
    let clamped: u16 = if proposed < 18 {
        18
    } else if proposed > 32 {
        32
    } else {
        proposed
    };
    let cap: u16 = if total >= 20 {
        (total - 20) as u16
    } else {
        0
    };
    if clamped <= cap {
        clamped
    } else {
        cap
    }
}

pub fn sidebar_width(total: u16) -> (w: u16)
    ensures
        w == spec_sidebar_width(total),
{
    let proposed = ((total as u32) * 25 / 100) as u16;
    let clamped: u16 = if proposed < 18 {
        18
    } else if proposed > 32 {
        32
    } else {
        proposed
    };
    let cap = total.saturating_sub(20);
    if clamped <= cap {
        clamped
    } else {
        cap
    }
}

/// Width inside the diff pane's borders.
pub open spec fn spec_diff_inner_width(area_width: u16, sidebar_visible: bool) -> u16 {
    let outer: int = if sidebar_visible {
        let sb = spec_sidebar_width(area_width);
        if area_width >= sb {
            area_width - sb
        } else {
            0
        }
    } else {
        area_width as int
    };
    if outer >= 2 {
        (outer - 2) as u16
    } else {
        0
    }
}

pub fn diff_inner_width(area_width: u16, sidebar_visible: bool) -> (w: u16)
    ensures
        w == spec_diff_inner_width(area_width, sidebar_visible),
{
    let diff_outer = if sidebar_visible {
        let sb = sidebar_width(area_width);
        area_width.saturating_sub(sb)
    } else {
        area_width
    };
    diff_outer.saturating_sub(2)
}

/// A rectangle of screen cells.
#[derive(Debug, Clone, Copy, PartialEq, Eq)]
pub struct Area {
    pub x: u16,
    pub y: u16,
    pub width: u16,
    pub height: u16,
}

/// Where the parts of a frame go: the sidebar (when shown), the diff pane
/// and the one-row footer.
#[derive(Debug, Clone, Copy)]
pub struct Panes {
    pub sidebar: Option<Area>,
    pub diff: Area,
    pub footer: Area,
}

/// The split of `area`: the footer takes its last row, and the rest is the
/// diff pane, less the sidebar on its left when that is shown.
pub open spec fn spec_panes(area: Area, sidebar_visible: bool) -> Panes {
    let main_h: u16 = if area.height >= 1 {
        (area.height - 1) as u16
    } else {
        0
    };
    let footer = Area { x: area.x, y: (area.y + main_h) as u16, width: area.width, height: 1 };
    if sidebar_visible {
        let sb = spec_sidebar_width(area.width);
        Panes {
            sidebar: Some(Area { x: area.x, y: area.y, width: sb, height: main_h }),
            diff: Area { x: (area.x + sb) as u16, y: area.y, width: (area.width - sb) as u16, height: main_h },
            footer,
        }
    } else {
        Panes { sidebar: None, diff: Area { x: area.x, y: area.y, width: area.width, height: main_h }, footer }
    }
}

proof fn lemma_sidebar_width_le(total: u16)
    ensures
        spec_sidebar_width(total) <= total,
{
}

/// The panes agree with the geometry the view works with: the diff pane's
/// inside (less its two border columns) is `diff_inner_width` wide, and the
/// sidebar is there exactly when it is shown, `sidebar_width` wide.
pub proof fn lemma_panes_match_geometry(area: Area, sidebar_visible: bool)
    ensures
        (if spec_panes(area, sidebar_visible).diff.width >= 2 {
            spec_panes(area, sidebar_visible).diff.width - 2
        } else {
            0
        }) == spec_diff_inner_width(area.width, sidebar_visible),
        spec_panes(area, sidebar_visible).sidebar is Some <==> sidebar_visible,
        sidebar_visible ==> spec_panes(area, sidebar_visible).sidebar->0.width == spec_sidebar_width(area.width),
{
    lemma_sidebar_width_le(area.width);
}

/// Split a frame of `area` into its panes.
pub fn panes(area: Area, sidebar_visible: bool) -> (p: Panes)
    requires
        area.x + area.width <= u16::MAX,
        area.y + area.height <= u16::MAX,
    ensures
        p == spec_panes(area, sidebar_visible),
{
    let main_h = area.height.saturating_sub(1);
    let footer = Area { x: area.x, y: area.y + main_h, width: area.width, height: 1 };
    if sidebar_visible {
        let sb = sidebar_width(area.width);
        proof {
            lemma_sidebar_width_le(area.width);
        }
        Panes {
            sidebar: Some(Area { x: area.x, y: area.y, width: sb, height: main_h }),
            diff: Area { x: area.x + sb, y: area.y, width: area.width - sb, height: main_h },
            footer,
        }
    } else {
        Panes { sidebar: None, diff: Area { x: area.x, y: area.y, width: area.width, height: main_h }, footer }
    }
}

/// First sidebar entry shown so that the highlighted one stays in view,
/// roughly centred: 0 near the top, the last window near the bottom.
pub open spec fn spec_sidebar_scroll(highlight: usize, visible: usize, total: usize) -> usize {
    if visible == 0 || total <= visible {
        0
    } else if highlight < visible / 2 {
        0
    } else if highlight >= (if total >= visible / 2 {
        (total - visible / 2) as usize
    } else {
        0
    }) {
        (total - visible) as usize
    } else {
        (highlight - visible / 2) as usize
    }
}

pub fn sidebar_scroll(highlight: usize, visible: usize, total: usize) -> (s: usize)
    ensures
        s == spec_sidebar_scroll(highlight, visible, total),
{
    if visible == 0 || total <= visible {
        return 0;
    }
    if highlight < visible / 2 {
        return 0;
    }
    if highlight >= total.saturating_sub(visible / 2) {
        return total - visible;
    }
    highlight.saturating_sub(visible / 2)
}

/// The sidebar window always shows the highlighted entry, and, when the
/// list is longer than the window, never runs past the list's end.
pub proof fn lemma_sidebar_window_shows_highlight(highlight: usize, visible: usize, total: usize)
    requires
        visible > 0,
        highlight < total,
    ensures
        spec_sidebar_scroll(highlight, visible, total) <= highlight,
        highlight < spec_sidebar_scroll(highlight, visible, total) + visible,
        total >= visible ==> spec_sidebar_scroll(highlight, visible, total) + visible <= total,
{
}

/// Width counted for a character: its display width, 0 for a control
/// character.
pub open spec fn cell_width(c: char) -> int {
    match char_width(c) {
        Some(w) => w as int,
        None => 0,
    }
}

/// How many characters, taken from the end of `cs`, fit in `budget`
/// cells when `used` are already taken; the walk stops at the first that
/// does not fit.
pub open spec fn fitting_tail(cs: Seq<char>, budget: int, used: int) -> int
    decreases cs.len(),
{
    if cs.len() == 0 {
        0
    } else if used + cell_width(cs.last()) > budget {
        0
    } else {
        1 + fitting_tail(cs.drop_last(), budget, used + cell_width(cs.last()))
    }
}

/// `s` cut from the left to fit `max` cells: unchanged when it fits, else an
/// ellipsis and as many trailing characters as fit in `max - 1` cells.
pub open spec fn spec_truncate_left(s: Seq<char>, max: usize) -> Seq<char> {
    if str_width(s) <= max {
        s
    } else if max == 0 {
        Seq::empty()
    } else if max == 1 {
        seq!['…']
    } else {
        seq!['…'] + s.skip(s.len() - fitting_tail(s, max - 1, 0))
    }
}

proof fn lemma_fitting_tail_bound(cs: Seq<char>, budget: int, used: int)
    ensures
        0 <= fitting_tail(cs, budget, used) <= cs.len(),
    decreases cs.len(),
{
    if cs.len() > 0 {
        lemma_fitting_tail_bound(cs.drop_last(), budget, used + cell_width(cs.last()));
    }
}

/// The cells taken by `cs`, character by character.
pub open spec fn cells(cs: Seq<char>) -> int
    decreases cs.len(),
{
    if cs.len() == 0 {
        0
    } else {
        cells(cs.drop_last()) + cell_width(cs.last())
    }
}

proof fn lemma_fitting_tail_fits(cs: Seq<char>, budget: int, used: int)
    requires
        used <= budget,
    ensures
        used + cells(cs.skip(cs.len() - fitting_tail(cs, budget, used))) <= budget,
    decreases cs.len(),
{
    lemma_fitting_tail_bound(cs, budget, used);
    let k = fitting_tail(cs, budget, used);
    if k == 0 {
        assert(cs.skip(cs.len() as int) =~= Seq::<char>::empty());
    } else {
        let rest = cs.drop_last();
        let w = cell_width(cs.last());
        lemma_fitting_tail_fits(rest, budget, used + w);
        lemma_fitting_tail_bound(rest, budget, used + w);
        let tail = cs.skip(cs.len() - k);
        assert(tail.drop_last() =~= rest.skip(rest.len() - (k - 1)));
        assert(tail.last() == cs.last());
    }
}

/// When `s` does not fit in `max` (at least 2) cells, what is kept of it
/// after the leading ellipsis takes at most `max - 1` cells and is the end of
/// `s`.
pub proof fn lemma_truncate_left_fits(s: Seq<char>, max: usize)
    requires
        str_width(s) > max,
        max >= 2,
    ensures
        spec_truncate_left(s, max)[0] == '…',
        cells(spec_truncate_left(s, max).skip(1)) <= max - 1,
        spec_truncate_left(s, max).skip(1).is_suffix_of(s),
{
    lemma_fitting_tail_bound(s, max - 1, 0);
    lemma_fitting_tail_fits(s, max - 1, 0);
    let tail = s.skip(s.len() - fitting_tail(s, max - 1, 0));
    assert(spec_truncate_left(s, max).skip(1) =~= tail);
    assert(s.subrange(s.len() - tail.len(), s.len() as int) =~= tail);
}

/// Truncate `s` from the left so that its display width fits in `max`
/// cells, with a leading `…` when anything was dropped.
pub fn truncate_left(s: &str, max: usize) -> (out: String)
    ensures
        out@ == spec_truncate_left(s@, max),
{
    if display_width(s) <= max {
        return s.to_owned();
    }
    if max == 0 {
        return String::new();
    }
    if max == 1 {
        let mut out = String::new();
        out.push('…');
        return out;
    }
    let budget = max - 1;
    let cs = chars_of(s);
    let ghost full = s@;
    let mut used: usize = 0;
    let mut taken: usize = 0;
    let mut stop = false;
    proof {
        assert(full.take(full.len() as int) =~= full);
    }
    while !stop && taken < cs.len()
        invariant
            cs@ == full,
            taken <= cs@.len(),
            used <= budget,
            stop ==> fitting_tail(full.take(full.len() - taken), budget as int, used as int) == 0,
            fitting_tail(full, budget as int, 0) == taken + fitting_tail(
                full.take(full.len() - taken),
                budget as int,
                used as int,
            ),
        decreases cs.len() - taken + (if stop {
            0int
        } else {
            1
        }),
    {
        let c = cs[cs.len() - 1 - taken];
        let w = match char_display_width(c) {
            Some(w) => w,
            None => 0,
        };
        let ghost rest = full.take(full.len() - taken);
        proof {
            assert(rest.last() == c);
            assert(rest.drop_last() =~= full.take(full.len() - (taken + 1)));
        }
        if w > budget - used {
            stop = true;
        } else {
            used += w;
            taken += 1;
        }
    }
    proof {
        if !stop {
            assert(full.take(0) =~= Seq::<char>::empty());
        }
        lemma_fitting_tail_bound(full, budget as int, 0);
    }
    let mut out = String::new();
    out.push('…');
    let start = cs.len() - taken;
    let mut i: usize = start;
    while i < cs.len()
        invariant
            cs@ == full,
            start <= i <= cs@.len(),
            start == cs@.len() - taken,
            out@ == seq!['…'] + full.subrange(start as int, i as int),
        decreases cs.len() - i,
    {
        out.push(cs[i]);
        proof {
            assert(full.subrange(start as int, i + 1) =~= full.subrange(start as int, i as int).push(cs@[i as int]));
        }
        i += 1;
    }
    proof {
        assert(full.subrange(start as int, full.len() as int) =~= full.skip(start as int));
    }
    out
}

} // verus!
