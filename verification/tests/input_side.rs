use tarsila::event::{Effect, Event, UiEvent};
use tarsila::keyboard::{KeyboardManager, Modifier, Shortcut};
use tarsila::timer::{allow_event, canvas_blocked, Timer};

const KEY_Z: u32 = 90;
const KEY_Y: u32 = 89;
const KEY_EQUAL: u32 = 61;

#[test]
fn timer_expires_after_duration() {
    let mut t = Timer::new();
    assert!(t.expired(0));
    t.start(1000, 100);
    assert!(!t.expired(1000));
    assert!(!t.expired(1099));
    assert!(t.expired(1100));
    // a clock that runs backwards keeps the timer pending
    assert!(!t.expired(500));
}

#[test]
fn drawing_events_are_gated_while_over_panels() {
    let mut rest = Timer::new();
    let draw = Event::Draw(1, 1);
    let undo = Event::Undo;

    assert!(!canvas_blocked(false, &rest, 0));
    assert!(allow_event(&draw, false, &rest, 0));

    // pointer over a panel: drawing is suppressed, other events pass
    assert!(!allow_event(&draw, true, &rest, 0));
    assert!(allow_event(&undo, true, &rest, 0));

    // a panel interaction starts the cooldown window
    rest.start(1000, 100);
    assert!(!allow_event(&draw, false, &rest, 1050));
    assert!(allow_event(&draw, false, &rest, 1100));
}

#[test]
fn keypress_shortcut_fires_once_per_press() {
    let mut km = KeyboardManager::new();
    km.register_keypress_event(KEY_Z, Event::Undo);
    let pressed = vec![KEY_Z];
    let down = vec![KEY_Z];

    let fired = km.process(&pressed, &down, false, false, 0);
    assert_eq!(fired, Some(Effect::Event(Event::Undo)));

    // no press this tick: nothing fires
    let fired = km.process(&Vec::new(), &down, false, false, 10);
    assert_eq!(fired, None);
}

#[test]
fn held_key_shortcut_is_rate_limited() {
    let mut km = KeyboardManager::new();
    km.register(Shortcut::KeyDown(KEY_EQUAL), Effect::UiEvent(UiEvent::ZoomIn));
    let down = vec![KEY_EQUAL];
    let none: Vec<u32> = Vec::new();

    assert!(km.process(&none, &down, false, false, 0).is_some());
    // within the 100 ms window the held key stays silent
    assert!(km.process(&none, &down, false, false, 50).is_none());
    assert!(km.process(&none, &down, false, false, 100).is_none());
    // strictly after the window it fires again
    assert!(km.process(&none, &down, false, false, 101).is_some());
}

#[test]
fn modifier_shortcuts_need_the_modifier() {
    let mut km = KeyboardManager::new();
    km.register(
        Shortcut::KeyPressMod(Modifier::Ctrl, KEY_Z),
        Effect::Event(Event::Undo),
    );
    km.register(
        Shortcut::KeyPressMod(Modifier::Shift, KEY_Y),
        Effect::Event(Event::Redo),
    );
    let pressed = vec![KEY_Z, KEY_Y];
    let down: Vec<u32> = Vec::new();

    assert_eq!(km.process(&pressed, &down, false, false, 0), None);
    assert_eq!(
        km.process(&pressed, &down, true, false, 0),
        Some(Effect::Event(Event::Undo))
    );
    assert_eq!(
        km.process(&pressed, &down, false, true, 0),
        Some(Effect::Event(Event::Redo))
    );
}

#[test]
fn first_registered_match_wins_and_only_one_fires() {
    let mut km = KeyboardManager::new();
    km.register(Shortcut::KeyPress(KEY_Z), Effect::Event(Event::Undo));
    km.register(Shortcut::KeyPress(KEY_Y), Effect::Event(Event::Redo));
    let pressed = vec![KEY_Z, KEY_Y];
    let down: Vec<u32> = Vec::new();

    // both candidates match; only the first registered one fires
    assert_eq!(
        km.process(&pressed, &down, false, false, 0),
        Some(Effect::Event(Event::Undo))
    );
}

#[test]
fn registering_a_shortcut_again_replaces_its_effect() {
    let mut km = KeyboardManager::new();
    km.register(Shortcut::KeyPress(KEY_Z), Effect::Event(Event::Undo));
    km.register(Shortcut::KeyPress(KEY_Z), Effect::Event(Event::Redo));
    let pressed = vec![KEY_Z];
    let down: Vec<u32> = Vec::new();
    assert_eq!(
        km.process(&pressed, &down, false, false, 0),
        Some(Effect::Event(Event::Redo))
    );
}
