use ofi_pass::conf::{Config, OfiTool};

fn config() -> Config {
    Config::new(None, "/home/me", "/home/me/.local/share/ofi-pass".to_string())
}

#[test]
fn load_old_latest() {
    let mut conf = config();
    assert_eq!(Some("myentry".to_string()), conf.load(Some("myentry")));
}

#[test]
fn no_previous_file() {
    let mut conf = config();
    assert_eq!(None, conf.load(None));
}

#[test]
fn load_latest() {
    let mut conf = config();
    assert_eq!(Some("myentry".to_string()), conf.load(Some("myentry\n/my/.password-store")));
}

#[test]
fn loading_same_store() {
    let mut conf = config();
    assert_eq!(Some("myentry".to_string()), conf.load(Some("myentry\n/my/.password-store")));
}

#[test]
fn save_latest() {
    let conf = Config::new(None, "/my", "/data".to_string());
    assert_eq!("Foo\n/my/.password-store", conf.save("Foo"));
}

#[test]
fn tool_from_variable() {
    assert_eq!(Config::new(Some("wofi"), "/s", "/d".into()).ofi_tool, OfiTool::Wofi);
    assert_eq!(Config::new(Some("rofi"), "/s", "/d".into()).ofi_tool, OfiTool::Rofi);
    assert_eq!(Config::new(Some("Wofi"), "/s", "/d".into()).ofi_tool, OfiTool::Rofi);
    assert_eq!(Config::new(Some(""), "/s", "/d".into()).ofi_tool, OfiTool::Rofi);
    assert_eq!(Config::new(None, "/s", "/d".into()).ofi_tool, OfiTool::Rofi);
}

#[test]
fn paths_of_new_config() {
    let conf = config();
    assert_eq!(conf.get_path(), "/home/me/.password-store");
    assert_eq!(conf.data_dir(), "/home/me/.local/share/ofi-pass");
}

#[test]
fn load_after_save_round_trip() {
    let mut conf = config();
    let saved = conf.save("work/mail");
    assert_eq!(conf.load(Some(saved.as_str())), Some("work/mail".to_string()));
    assert_eq!(conf.get_path(), "/home/me/.password-store");
}

#[test]
fn load_unknown_store_keeps_current() {
    let mut conf = config();
    assert_eq!(conf.load(Some("e\n/elsewhere\nmore")), Some("e".to_string()));
    assert_eq!(conf.get_path(), "/home/me/.password-store");
    conf.rotate_to("/nowhere");
    assert_eq!(conf.get_path(), "/home/me/.password-store");
    conf.rotate_to("/home/me/.password-store");
    assert_eq!(conf.get_path(), "/home/me/.password-store");
}

#[test]
fn load_empty_file() {
    let mut conf = config();
    assert_eq!(conf.load(Some("")), Some("".to_string()));
    assert_eq!(conf.load(Some("\n")), Some("".to_string()));
}

#[test]
fn default_store_in_home() {
    assert_eq!(Config::new(None, "/home/me/", "/d".into()).get_path(), "/home/me/.password-store");
    assert_eq!(Config::new(None, "", "/d".into()).get_path(), ".password-store");
    assert_eq!(Config::new(None, "/", "/d".into()).get_path(), "/.password-store");
}
