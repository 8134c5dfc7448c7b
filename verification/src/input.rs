//! The keymap: terminal key presses to input events.

use vstd::prelude::*;
use crate::view::NavEvent;

verus! {

/// What the event loop acts on.
#[derive(Debug, Clone, Copy)]
pub enum InputEvent {
    Quit,
    Nav(NavEvent),
    ToggleSidebar,
    Edit,
}

/// The keys the keymap tells apart.
#[derive(Debug, Clone, Copy, PartialEq, Eq)]
pub enum Key {
    Char(char),
    Up,
    Down,
    PageUp,
    PageDown,
    Home,
    Enter,
    Other,
}

/// A terminal event: a key event (its key, whether Control is the only
/// modifier held, whether it is a press rather than a repeat or release), or
/// anything else.
#[derive(Debug, Clone, Copy)]
pub enum TermEvent {
    Key { key: Key, control_only: bool, press: bool },
    Other,
}

/// Lines moved by a page scroll.
pub const PAGE: u16 = 20;

pub open spec fn spec_translate(ev: TermEvent) -> Option<InputEvent> {
    match ev {
        TermEvent::Other => None,
        TermEvent::Key { key, control_only, press } => if !press {
            None
        } else {
            match key {
                Key::Char('q') => Some(InputEvent::Quit),
                Key::Char('c') => if control_only {
                    Some(InputEvent::Quit)
                } else {
                    None
                },
                Key::Char('j') | Key::Down => Some(InputEvent::Nav(NavEvent::ScrollDown(1))),
                Key::Char('k') | Key::Up => Some(InputEvent::Nav(NavEvent::ScrollUp(1))),
                Key::PageDown | Key::Char('d') => Some(InputEvent::Nav(NavEvent::ScrollDown(PAGE))),
                Key::PageUp | Key::Char('u') => Some(InputEvent::Nav(NavEvent::ScrollUp(PAGE))),
                Key::Home | Key::Char('g') => Some(InputEvent::Nav(NavEvent::Top)),
                Key::Char('n') => Some(InputEvent::Nav(NavEvent::NextFile)),
                Key::Char('b') => Some(InputEvent::Nav(NavEvent::PrevFile)),
                Key::Char('s') => Some(InputEvent::ToggleSidebar),
                Key::Char('e') | Key::Enter => Some(InputEvent::Edit),
                _ => None,
            }
        },
    }
}

/// The input event a terminal event stands for: `q` or Ctrl-C quit, `j`/Down
/// and `k`/Up scroll a line, `d`/PgDn and `u`/PgUp a page, `g`/Home go to
/// the top, `n`/`b` the next/previous file, `s` toggles the sidebar and
/// `e`/Enter opens the editor; only key presses count.
pub fn translate(ev: TermEvent) -> (res: Option<InputEvent>)
    ensures
        res == spec_translate(ev),
{
    match ev {
        TermEvent::Other => None,
        TermEvent::Key { key, control_only, press } => {
            if !press {
                return None;
            }
            match key {
                Key::Char('q') => Some(InputEvent::Quit),
                Key::Char('c') => if control_only {
                    Some(InputEvent::Quit)
                } else {
                    None
                },
                Key::Char('j') | Key::Down => Some(InputEvent::Nav(NavEvent::ScrollDown(1))),
                Key::Char('k') | Key::Up => Some(InputEvent::Nav(NavEvent::ScrollUp(1))),
                Key::PageDown | Key::Char('d') => Some(InputEvent::Nav(NavEvent::ScrollDown(PAGE))),
                Key::PageUp | Key::Char('u') => Some(InputEvent::Nav(NavEvent::ScrollUp(PAGE))),
                Key::Home | Key::Char('g') => Some(InputEvent::Nav(NavEvent::Top)),
                Key::Char('n') => Some(InputEvent::Nav(NavEvent::NextFile)),
                Key::Char('b') => Some(InputEvent::Nav(NavEvent::PrevFile)),
                Key::Char('s') => Some(InputEvent::ToggleSidebar),
                Key::Char('e') | Key::Enter => Some(InputEvent::Edit),
                _ => None,
            }
        },
    }
}

/// A key press, with or without Control.
pub open spec fn press(key: Key, control_only: bool) -> TermEvent {
    TermEvent::Key { key, control_only, press: true }
}

/// The keymap, key by key: `j`/Down scroll down a line and `k`/Up up a
/// line; `d`/PgDn down a page of 20 lines and `u`/PgUp up one; `g`/Home go
/// to the top; `n`/`b` go to the next/previous file; `s` toggles the
/// sidebar; `e`/Enter open the editor; `q` quits, and so does `c` with
/// Control alone (but not without); a release or repeat, and any other
/// event, does nothing.
pub proof fn lemma_keymap(c: bool)
    ensures
        spec_translate(press(Key::Char('j'), c)) == Some(InputEvent::Nav(NavEvent::ScrollDown(1))),
        spec_translate(press(Key::Down, c)) == Some(InputEvent::Nav(NavEvent::ScrollDown(1))),
        spec_translate(press(Key::Char('k'), c)) == Some(InputEvent::Nav(NavEvent::ScrollUp(1))),
        spec_translate(press(Key::Up, c)) == Some(InputEvent::Nav(NavEvent::ScrollUp(1))),
        spec_translate(press(Key::Char('d'), c)) == Some(InputEvent::Nav(NavEvent::ScrollDown(20))),
        spec_translate(press(Key::PageDown, c)) == Some(InputEvent::Nav(NavEvent::ScrollDown(20))),
        spec_translate(press(Key::Char('u'), c)) == Some(InputEvent::Nav(NavEvent::ScrollUp(20))),
        spec_translate(press(Key::PageUp, c)) == Some(InputEvent::Nav(NavEvent::ScrollUp(20))),
        spec_translate(press(Key::Char('g'), c)) == Some(InputEvent::Nav(NavEvent::Top)),
        spec_translate(press(Key::Home, c)) == Some(InputEvent::Nav(NavEvent::Top)),
        spec_translate(press(Key::Char('n'), c)) == Some(InputEvent::Nav(NavEvent::NextFile)),
        spec_translate(press(Key::Char('b'), c)) == Some(InputEvent::Nav(NavEvent::PrevFile)),
        spec_translate(press(Key::Char('s'), c)) matches Some(InputEvent::ToggleSidebar),
        spec_translate(press(Key::Char('e'), c)) matches Some(InputEvent::Edit),
        spec_translate(press(Key::Enter, c)) matches Some(InputEvent::Edit),
        spec_translate(press(Key::Char('q'), c)) matches Some(InputEvent::Quit),
        spec_translate(press(Key::Char('c'), true)) matches Some(InputEvent::Quit),
        spec_translate(press(Key::Char('c'), false)) is None,
        forall|k: Key| #[trigger] spec_translate(TermEvent::Key { key: k, control_only: c, press: false }) is None,
        spec_translate(TermEvent::Other) is None,
{
}

} // verus!
