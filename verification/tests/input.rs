use gitstream::input::{translate, InputEvent, Key, TermEvent};
use gitstream::view::NavEvent;

fn press(key: Key) -> TermEvent {
    TermEvent::Key { key, control_only: false, press: true }
}

fn nav(ev: Option<InputEvent>) -> Option<NavEvent> {
    match ev {
        Some(InputEvent::Nav(n)) => Some(n),
        _ => None,
    }
}

#[test]
fn keymap() {
    assert!(matches!(translate(press(Key::Char('q'))), Some(InputEvent::Quit)));
    assert!(matches!(
        translate(TermEvent::Key { key: Key::Char('c'), control_only: true, press: true }),
        Some(InputEvent::Quit)
    ));
    assert!(translate(press(Key::Char('c'))).is_none());
    assert_eq!(nav(translate(press(Key::Char('j')))), Some(NavEvent::ScrollDown(1)));
    assert_eq!(nav(translate(press(Key::Up))), Some(NavEvent::ScrollUp(1)));
    assert_eq!(nav(translate(press(Key::PageDown))), Some(NavEvent::ScrollDown(20)));
    assert_eq!(nav(translate(press(Key::Char('u')))), Some(NavEvent::ScrollUp(20)));
    assert_eq!(nav(translate(press(Key::Home))), Some(NavEvent::Top));
    assert_eq!(nav(translate(press(Key::Char('n')))), Some(NavEvent::NextFile));
    assert_eq!(nav(translate(press(Key::Char('b')))), Some(NavEvent::PrevFile));
    assert!(matches!(translate(press(Key::Char('s'))), Some(InputEvent::ToggleSidebar)));
    assert!(matches!(translate(press(Key::Enter)), Some(InputEvent::Edit)));
    assert!(translate(press(Key::Char('x'))).is_none());
}

#[test]
fn releases_and_other_events_are_ignored() {
    assert!(translate(TermEvent::Key { key: Key::Char('q'), control_only: false, press: false }).is_none());
    assert!(translate(TermEvent::Other).is_none());
}
