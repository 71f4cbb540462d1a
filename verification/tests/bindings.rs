use tilewm::action::Action;
use tilewm::config::{Border, Config, Monitor};
use tilewm::keybind::{find_keybind, Keybind, CONTROL_MASK, MOD4_MASK, SHIFT_MASK};
use tilewm::util::{Bounds, Direction};

#[test]
fn monitor_new_takes_size_then_position() {
    let m = Monitor::new(2560, 1440, 10, 20);
    assert_eq!(m.bounds, Bounds::new(10, 20, 2560, 1440));
}

#[test]
fn border_default_is_three_pixel_white() {
    let b = Border::default();
    assert_eq!(b.width, 3);
    assert_eq!(b.color, 0x00ffffff);
}

#[test]
fn config_default_has_a_border_and_no_monitors() {
    let c = Config::default();
    assert!(c.monitors.is_empty());
    let border = c.border.unwrap();
    assert_eq!(border.width, 3);
    assert_eq!(border.color, 0x00ffffff);
    assert!(!c.debug_events);
}

#[test]
fn keybind_new_keeps_its_fields() {
    let kb = Keybind::new(24, MOD4_MASK, Action::Exit);
    assert_eq!(kb.keycode, 24);
    assert_eq!(kb.modifiers, MOD4_MASK);
    assert!(matches!(kb.action, Action::Exit));
}

#[test]
fn find_keybind_takes_the_first_match() {
    let binds = vec![
        Keybind::new(10, MOD4_MASK, Action::MoveFocus { direction: Direction::Left }),
        Keybind::new(10, MOD4_MASK | SHIFT_MASK, Action::CloseFocusedWindow),
        Keybind::new(10, MOD4_MASK, Action::Exit),
    ];
    assert_eq!(find_keybind(&binds, 10, MOD4_MASK), Some(0));
    assert_eq!(find_keybind(&binds, 10, MOD4_MASK | SHIFT_MASK), Some(1));
}

#[test]
fn find_keybind_masks_out_lock_bits() {
    let binds = vec![
        Keybind::new(
            30,
            MOD4_MASK | CONTROL_MASK,
            Action::ResizeFocusedWindow { direction: Direction::Right, amount: 100 },
        ),
    ];
    // NumLock (Mod2, bit 16) and CapsLock (bit 2) must not defeat the binding
    assert_eq!(find_keybind(&binds, 30, MOD4_MASK | CONTROL_MASK | 16 | 2), Some(0));
}

#[test]
fn find_keybind_requires_exact_modifiers_and_keycode() {
    let binds = vec![Keybind::new(30, MOD4_MASK, Action::Exit)];
    assert_eq!(find_keybind(&binds, 30, MOD4_MASK | SHIFT_MASK), None);
    assert_eq!(find_keybind(&binds, 31, MOD4_MASK), None);
    assert_eq!(find_keybind(&binds, 30, 0), None);
    assert_eq!(find_keybind(&Vec::new(), 30, MOD4_MASK), None);
}

#[test]
fn actions_carry_their_payloads() {
    let a = Action::ExecuteCommand { command: "alacritty".to_string() };
    match a {
        Action::ExecuteCommand { command } => assert_eq!(command, "alacritty"),
        _ => panic!("wrong variant"),
    }
    let r = Action::ResizeFocusedWindow { direction: Direction::Up, amount: 100 };
    match r {
        Action::ResizeFocusedWindow { direction, amount } => {
            assert_eq!(direction, Direction::Up);
            assert_eq!(amount, 100);
        }
        _ => panic!("wrong variant"),
    }
}
