//! The pipe guard: a CLI delivery with a blank payload is the twin zellij
//! sends alongside the real message, and must not count as a press.
use clave_bar::model::{BarModel, Effect};
use clave_bar::pipe::{is_cli_blank_twin, parse_visited};

/// The shell's toggle route, as far as the library can be driven: the
/// guard, then the model call. A toggle is observable as the mode it books
/// for the store, so the effects it returns count the presses.
fn deliver(model: &mut BarModel, name: &str, from_cli: bool, payload: Option<&str>) -> Vec<Effect> {
    if is_cli_blank_twin(from_cli, payload) {
        return Vec::new();
    }
    if name == "clave-toggle" {
        return model.toggle();
    }
    Vec::new()
}

/// The defect, pinned: one scripted `clave-toggle` used to flip the bar
/// back to where it started, because the blank twin toggled it again.
#[test]
fn one_cli_toggle_and_its_blank_twin_toggle_exactly_once() {
    let mut m = BarModel::default();
    let press = deliver(&mut m, "clave-toggle", true, Some("1"));
    let twin = deliver(&mut m, "clave-toggle", true, None); // zellij's own
    assert_eq!(press, vec![Effect::PersistCollapse { collapsed: true }]);
    assert_eq!(twin, Vec::<Effect>::new(), "the twin is not a press");
    // And the mode really did land collapsed rather than round-tripping.
    let next = deliver(&mut m, "clave-toggle", true, Some("1"));
    assert_eq!(next, vec![Effect::PersistCollapse { collapsed: false }]);
}

/// The keybind is payload-less by construction (Alt+c is bound with no
/// payload attribute), so the guard must not touch it.
#[test]
fn the_keybind_press_carries_no_payload_and_still_toggles() {
    let mut m = BarModel::default();
    assert_eq!(
        deliver(&mut m, "clave-toggle", false, None),
        vec![Effect::PersistCollapse { collapsed: true }],
        "Alt+c must still fire"
    );
}

/// Whitespace is blank: a script that pipes a trailing newline sends the
/// twin's shape, not a message.
#[test]
fn whitespace_only_cli_payloads_are_punctuation_too() {
    assert!(is_cli_blank_twin(true, Some("   ")));
    assert!(is_cli_blank_twin(true, Some("\n")));
    assert!(!is_cli_blank_twin(true, Some("x")));
    assert!(!is_cli_blank_twin(false, Some("   ")), "not a CLI delivery");
}

/// Unicode whitespace counts as blank too, and an empty payload is the twin.
#[test]
fn blank_twin_covers_every_blank_shape() {
    assert!(is_cli_blank_twin(true, None));
    assert!(is_cli_blank_twin(true, Some("")));
    assert!(is_cli_blank_twin(true, Some("\t\r\n\u{a0}\u{3000}")));
    assert!(!is_cli_blank_twin(true, Some(" x ")));
    assert!(!is_cli_blank_twin(false, None));
}

#[test]
fn a_visited_payload_reads_as_a_tab_id() {
    assert_eq!(parse_visited("7"), Some(7));
    assert_eq!(parse_visited(" 12\n"), Some(12));
    assert_eq!(parse_visited("+3"), Some(3));
    assert_eq!(parse_visited(&usize::MAX.to_string()), Some(usize::MAX));
    assert_eq!(parse_visited(""), None);
    assert_eq!(parse_visited("  "), None);
    assert_eq!(parse_visited("+"), None);
    assert_eq!(parse_visited("-1"), None);
    assert_eq!(parse_visited("1 2"), None);
    assert_eq!(parse_visited("tab"), None);
    assert_eq!(parse_visited(&format!("{}0", usize::MAX)), None);
}
