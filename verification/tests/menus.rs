use ofi_pass::conf::OfiTool;
use ofi_pass::menu::menu_input;
use ofi_pass::pass::{parse_entry_string, PassEntry};
use ofi_pass::pass::EType;
use ofi_pass::typing::{can_type, keystrokes, select_action, step_keystrokes, Action, Keystroke};

#[test]
fn rofi_command() {
    assert_eq!(OfiTool::Rofi.program(), "rofi");
    assert_eq!(OfiTool::Rofi.args(None), vec!["-dmenu", "-i", "-p", ">"]);
    assert_eq!(
        OfiTool::Rofi.args(Some("last")),
        vec!["-dmenu", "-i", "-p", ">", "-select", "last"]
    );
}

#[test]
fn wofi_command() {
    assert_eq!(OfiTool::Wofi.program(), "wofi");
    assert_eq!(OfiTool::Wofi.args(Some("last")), vec!["--dmenu"]);
}

#[test]
fn menu_feed() {
    let entries = vec!["a".to_string(), "b/c".to_string(), "".to_string()];
    assert_eq!(menu_input(&entries), "a\nb/c\n\n");
    assert_eq!(menu_input(&vec![]), "");
}

#[test]
fn choices_from_output() {
    assert_eq!(OfiTool::Rofi.select(Some("  site \n")), Some("site".to_string()));
    assert_eq!(OfiTool::Rofi.select(Some(" \n")), None);
    assert_eq!(OfiTool::Rofi.select(None), None);
    assert_eq!(OfiTool::Wofi.select(Some("site\n")), Some("site".to_string()));
    assert_eq!(OfiTool::Wofi.select(Some("\n")), Some("".to_string()));
    assert_eq!(OfiTool::Wofi.select(None), None);
}

#[test]
fn actions_from_choice() {
    assert_eq!(select_action(Some("autotype".to_string())), Action::Autotype);
    assert_eq!(select_action(Some("user".to_string())), Action::PrintField("user".to_string()));
    assert_eq!(select_action(Some("Autotype".to_string())), Action::PrintField("Autotype".to_string()));
    assert_eq!(select_action(None), Action::Nothing);
}

fn entry(text: &str) -> PassEntry {
    let mut e = PassEntry::new("web/site".to_string(), "alice".to_string());
    parse_entry_string(text, &mut e);
    e
}

#[test]
fn typing_default_sequence() {
    let e = entry("hunter2");
    assert!(can_type(&e, &Action::Autotype));
    assert_eq!(
        keystrokes(&e, &Action::Autotype),
        vec![
            Keystroke::Text("alice".to_string()),
            Keystroke::Key("tab".to_string()),
            Keystroke::Pause(250),
            Keystroke::Text("hunter2".to_string()),
        ]
    );
}

#[test]
fn typing_every_step() {
    let e = entry("pw\nautotype: path :enter :space :delay pass");
    assert_eq!(
        keystrokes(&e, &Action::Autotype),
        vec![
            Keystroke::Text("web/site".to_string()),
            Keystroke::Key("return".to_string()),
            Keystroke::Key("space".to_string()),
            Keystroke::Pause(200),
            Keystroke::Text("pw".to_string()),
        ]
    );
}

#[test]
fn typing_one_field_or_nothing() {
    let e = entry("pw\nuser: bob");
    let a = Action::PrintField("user".to_string());
    assert!(can_type(&e, &a));
    assert_eq!(keystrokes(&e, &a), vec![Keystroke::Text("bob".to_string())]);
    assert!(can_type(&e, &Action::Nothing));
    assert_eq!(keystrokes(&e, &Action::Nothing), vec![]);
}

#[test]
fn untypable_actions() {
    let e = entry("pw\nautotype: user :otp");
    assert!(!can_type(&e, &Action::Autotype));
    let e = entry("pw\nautotype: user missing");
    assert!(!can_type(&e, &Action::Autotype));
    assert!(!can_type(&e, &Action::PrintField("missing".to_string())));
}

#[test]
fn typing_single_steps() {
    let e = entry("pw");
    assert_eq!(step_keystrokes(&e, &EType::Tab), vec![Keystroke::Key("tab".to_string()), Keystroke::Pause(250)]);
    assert_eq!(step_keystrokes(&e, &EType::Path), vec![Keystroke::Text("web/site".to_string())]);
    assert_eq!(
        step_keystrokes(&e, &EType::Field("pass".to_string())),
        vec![Keystroke::Text("pw".to_string())]
    );
}
