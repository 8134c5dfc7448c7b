//! The decisions of the terminal event loop: what a tick shows and what each
//! event does to the state, the view and the sidebar toggle. The loop itself
//! (drawing, waiting on channels, running the editor) stands outside.

use vstd::prelude::*;
use crate::state::{State, DiffUpdate, applied};
use crate::view::{ViewState, ViewModel, Frame, frame, step, spec_frame, spec_step};
use crate::layout::{diff_inner_width, spec_diff_inner_width};
use crate::input::InputEvent;

verus! {

/// Diff-pane geometry for one tick.
#[derive(Debug, Clone, Copy)]
pub struct Geometry {
    pub diff_w: u16,
    pub viewport_h: u16,
}

/// What the loop does after an input event.
#[derive(Debug)]
pub enum Action {
    Continue,
    Quit,
    Edit(String),
}

/// The loop's state: the change list, the view and whether the sidebar
/// shows.
pub struct Session {
    state: State,
    view: ViewState,
    sidebar_visible: bool,
}

/// Geometry of the diff pane in a terminal `width` by `height` cells: the
/// inner width of the diff pane, and the height less the borders and the
/// footer.
pub open spec fn spec_geometry(width: u16, height: u16, sidebar_visible: bool) -> Geometry {
    Geometry {
        diff_w: spec_diff_inner_width(width, sidebar_visible),
        viewport_h: if height >= 2 {
            (height - 2) as u16
        } else {
            0
        },
    }
}

impl Session {
    pub closed spec fn entries(&self) -> Seq<DiffUpdate> {
        self.state@
    }

    pub closed spec fn view_model(&self) -> ViewModel {
        self.view@
    }

    pub closed spec fn spec_sidebar_visible(&self) -> bool {
        self.sidebar_visible
    }

    pub closed spec fn wf(&self) -> bool {
        self.state.wf()
    }

    /// No changes, view at the top, sidebar shown.
    pub fn new() -> (s: Session)
        ensures
            s.wf(),
            s.entries() == Seq::<DiffUpdate>::empty(),
            s.view_model() == (ViewModel { scroll: 0, focused_path: None }),
            s.spec_sidebar_visible(),
    {
        Session { state: State::new(), view: ViewState::new(), sidebar_visible: true }
    }

    pub fn state(&self) -> (s: &State)
        ensures
            s@ == self.entries(),
            self.wf() ==> s.wf(),
    {
        &self.state
    }

    pub fn sidebar_visible(&self) -> (b: bool)
        ensures
            b == self.spec_sidebar_visible(),
    {
        self.sidebar_visible
    }

    /// Start of a tick: the geometry for the terminal size and the frame to
    /// draw. The clamped scroll is kept in the view, so that scrolling down
    /// never builds up beyond the ceiling over many ticks.
    pub fn tick(&mut self, width: u16, height: u16) -> (res: (Geometry, Frame))
        ensures
            res.0 == spec_geometry(width, height, old(self).spec_sidebar_visible()),
            res.1 == spec_frame(old(self).entries(), old(self).view_model(), res.0.viewport_h, res.0.diff_w),
            final(self).entries() == old(self).entries(),
            final(self).spec_sidebar_visible() == old(self).spec_sidebar_visible(),
            final(self).view_model() == (ViewModel {
                scroll: res.1.scroll,
                focused_path: old(self).view_model().focused_path,
            }),
            old(self).wf() ==> final(self).wf(),
    {
        let diff_w = diff_inner_width(width, self.sidebar_visible);
        let viewport_h = height.saturating_sub(2);
        let f = frame(&self.state, &self.view, viewport_h, diff_w);
        self.view.scroll = f.scroll;
        (Geometry { diff_w, viewport_h }, f)
    }

    /// A diff update arrived.
    pub fn on_update(&mut self, update: DiffUpdate)
        requires
            old(self).wf(),
        ensures
            final(self).wf(),
            final(self).entries() == applied(old(self).entries(), update),
            final(self).view_model() == old(self).view_model(),
            final(self).spec_sidebar_visible() == old(self).spec_sidebar_visible(),
    {
        self.state.apply(update);
    }

    /// An input event arrived during a tick with geometry `g` and frame `f`:
    /// quit, navigate, toggle the sidebar, or open the focused file in the
    /// editor (nothing to do when no file is focused).
    pub fn on_input(&mut self, ev: InputEvent, g: Geometry, f: Frame) -> (act: Action)
        ensures
            final(self).entries() == old(self).entries(),
            old(self).wf() ==> final(self).wf(),
            match ev {
                InputEvent::Quit => act is Quit && final(self).view_model() == old(self).view_model()
                    && final(self).spec_sidebar_visible() == old(self).spec_sidebar_visible(),
                InputEvent::Nav(e) => act is Continue && final(self).view_model() == spec_step(
                    old(self).entries(),
                    old(self).view_model(),
                    g.viewport_h,
                    g.diff_w,
                    e,
                ) && final(self).spec_sidebar_visible() == old(self).spec_sidebar_visible(),
                InputEvent::ToggleSidebar => act is Continue && final(self).view_model() == old(
                    self,
                ).view_model() && final(self).spec_sidebar_visible() == !old(
                    self,
                ).spec_sidebar_visible(),
                InputEvent::Edit => final(self).view_model() == old(self).view_model()
                    && final(self).spec_sidebar_visible() == old(self).spec_sidebar_visible() && (
                if f.focused_idx < old(self).entries().len() {
                    act matches Action::Edit(p) && p@ == old(self).entries()[f.focused_idx as int].path@
                } else {
                    act is Continue
                }),
            },
    {
        match ev {
            InputEvent::Quit => Action::Quit,
            InputEvent::Nav(e) => {
                self.view = step(&self.state, &self.view, g.viewport_h, g.diff_w, e);
                Action::Continue
            },
            InputEvent::ToggleSidebar => {
                self.sidebar_visible = !self.sidebar_visible;
                Action::Continue
            },
            InputEvent::Edit => {
                let entries = self.state.iter_ordered();
                if f.focused_idx < entries.len() {
                    Action::Edit(entries[f.focused_idx].path.clone())
                } else {
                    Action::Continue
                }
            },
        }
    }
}

} // verus!
