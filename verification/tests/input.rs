use autoclicker::config::{hotkey_text, Config};
use autoclicker::engine::EngineCommand;
use autoclicker::input::HotkeyMatcher;

fn s(x: &str) -> String {
    x.to_string()
}

fn keys(list: &[&str]) -> Vec<String> {
    list.iter().map(|k| k.to_string()).collect()
}

#[test]
fn default_config() {
    let c = Config::default();
    assert_eq!(c.start_hotkey, keys(&["F5"]));
    assert_eq!(c.pause_hotkey, keys(&["F6"]));
    assert_eq!(c.stop_hotkey, keys(&["F7"]));
}

#[test]
fn hotkey_texts() {
    assert_eq!(hotkey_text(&keys(&["F10"])), "F10");
    assert_eq!(hotkey_text(&keys(&["ControlLeft", "ShiftLeft", "KeyS"])), "ControlLeft + ShiftLeft + KeyS");
    assert_eq!(hotkey_text(&keys(&[])), "");
}

#[test]
fn default_hotkeys_give_their_commands() {
    let mut m = HotkeyMatcher::new(Config::default());
    assert_eq!(m.press(s("F5")), Some(EngineCommand::Start));
    m.release(&s("F5"));
    assert_eq!(m.press(s("F6")), Some(EngineCommand::Pause));
    m.release(&s("F6"));
    assert_eq!(m.press(s("F7")), Some(EngineCommand::Stop));
    m.release(&s("F7"));
    assert_eq!(m.press(s("F10")), None);
    m.release(&s("F10"));
    assert_eq!(m.press(s("KeyA")), None);
}

#[test]
fn held_key_repeat_gives_nothing() {
    let mut m = HotkeyMatcher::new(Config::default());
    assert_eq!(m.press(s("F5")), Some(EngineCommand::Start));
    assert_eq!(m.press(s("F5")), None);
    assert_eq!(m.pressed, keys(&["F5"]));
    m.release(&s("F5"));
    assert!(m.pressed.is_empty());
    assert_eq!(m.press(s("F5")), Some(EngineCommand::Start));
}

#[test]
fn combination_needs_exact_match() {
    let config = Config {
        start_hotkey: keys(&["ControlLeft", "KeyS"]),
        pause_hotkey: keys(&["ControlLeft", "KeyP"]),
        stop_hotkey: keys(&["ControlLeft", "ShiftLeft", "KeyS"]),
    };
    let mut m = HotkeyMatcher::new(config);
    assert_eq!(m.press(s("ControlLeft")), None);
    assert_eq!(m.press(s("KeyS")), Some(EngineCommand::Start));
    // A superset of the start hotkey: it is the stop hotkey.
    assert_eq!(m.press(s("ShiftLeft")), Some(EngineCommand::Stop));
    // A superset of both: nothing.
    assert_eq!(m.press(s("KeyP")), None);
    m.release(&s("KeyP"));
    m.release(&s("ShiftLeft"));
    m.release(&s("KeyS"));
    // Order of pressing does not matter.
    assert_eq!(m.press(s("KeyP")), Some(EngineCommand::Pause));
}

#[test]
fn stop_before_pause_before_start() {
    let config = Config { start_hotkey: keys(&["F1"]), pause_hotkey: keys(&["F1"]), stop_hotkey: keys(&["F1"]) };
    let mut m = HotkeyMatcher::new(config);
    assert_eq!(m.press(s("F1")), Some(EngineCommand::Stop));

    let config = Config { start_hotkey: keys(&["F1"]), pause_hotkey: keys(&["F1"]), stop_hotkey: keys(&[]) };
    let mut m = HotkeyMatcher::new(config);
    assert_eq!(m.press(s("F1")), Some(EngineCommand::Pause));
}

#[test]
fn empty_hotkey_never_fires() {
    let config = Config { start_hotkey: keys(&[]), pause_hotkey: keys(&[]), stop_hotkey: keys(&[]) };
    let mut m = HotkeyMatcher::new(config);
    assert_eq!(m.press(s("F1")), None);
}

#[test]
fn release_undoes_press() {
    let mut m = HotkeyMatcher::new(Config::default());
    m.press(s("KeyA"));
    m.press(s("KeyB"));
    let before = m.pressed.clone();
    m.press(s("KeyC"));
    m.release(&s("KeyC"));
    assert_eq!(m.pressed, before);
    // Releasing a key that is not held changes nothing.
    m.release(&s("KeyZ"));
    assert_eq!(m.pressed, before);
}

#[test]
fn duplicate_keys_in_hotkey_count_once() {
    let config = Config { start_hotkey: keys(&["F1", "F1"]), pause_hotkey: keys(&[]), stop_hotkey: keys(&[]) };
    let mut m = HotkeyMatcher::new(config);
    assert_eq!(m.press(s("F1")), Some(EngineCommand::Start));
}
