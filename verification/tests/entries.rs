use ofi_pass::pass::{clean_name, entry_name, is_hidden, parse_entry_string, EType, PassDir, PassEntry};

fn entry(name: &str) -> PassEntry {
    PassEntry::new(name.to_string(), "alice".to_string())
}

#[test]
fn empty() {
    let mut entry = entry("My entry");
    parse_entry_string("", &mut entry);
    assert_eq!(entry.get_name(), "My entry");
    assert_eq!(entry.field_count(), 3);
    assert_eq!(entry.get(":autotype"), "user :tab pass");
    assert_eq!(entry.get("pass"), "");
    assert_ne!(entry.get("user"), "");
}

#[test]
fn only_pass() {
    let mut entry = entry("My entry");
    parse_entry_string("my: password", &mut entry);
    assert_eq!(entry.field_count(), 3);
    assert_eq!(entry.get("pass"), "my: password");
    assert_eq!(entry.lookup(":otp"), None);
}

#[test]
fn with_extra_newline() {
    let mut entry = entry("My entry");
    parse_entry_string(
        "my: password\n\
        user: foo\n\n\n\
        custom: bar",
        &mut entry,
    );
    assert_eq!(entry.field_count(), 4);
    assert_eq!(entry.get("pass"), "my: password");
    assert_eq!(entry.get("user"), "foo");
    assert_eq!(entry.get("custom"), "bar");
}

#[test]
fn full_file() {
    let mut entry = entry("myEntry");
    parse_entry_string(
        "my: password\n\
        autotype: user :enter pass\n\
        user: foo\n\
        otpauth://topt/my?secret=foo&bar=baz\n\
        custom: bar",
        &mut entry,
    );
    assert_eq!(entry.field_count(), 5);
    assert_eq!(entry.get(":autotype"), "user :enter pass");
    assert_eq!(entry.get("pass"), "my: password");
    assert_eq!(entry.get("user"), "foo");
    assert_eq!(entry.get(":otp"), "pass otp myEntry");
    assert_eq!(entry.get("custom"), "bar");
}

#[test]
fn otp_command() {
    let mut entry = entry("My entry");
    parse_entry_string(
        "mypass\n\
        otp_method: my command",
        &mut entry,
    );
    assert_eq!(entry.field_count(), 4);
    assert_eq!(entry.get("pass"), "mypass");
    assert_eq!(entry.get(":otp"), "my command");
}

#[test]
fn pass_otp() {
    let mut entry = entry("MyEntry");
    parse_entry_string(
        "mypass\n\
        otpauth://topt/my?secret=foo&bar=baz\n",
        &mut entry,
    );
    assert_eq!(entry.field_count(), 4);
    assert_eq!(entry.get("pass"), "mypass");
    assert_eq!(entry.get(":otp"), "pass otp MyEntry");
}

#[test]
fn new_entry_defaults() {
    let e = entry("x");
    assert_eq!(e.field_count(), 2);
    assert_eq!(e.get("user"), "alice");
    assert_eq!(e.lookup("pass"), None);
    assert_eq!(e.list_fields(), vec![":autotype".to_string(), "user".to_string()]);
}

#[test]
fn later_line_overrides_earlier() {
    let mut e = entry("x");
    parse_entry_string("pw\nuser: a\nuser: b\notp_method: c\notpauth://q\npass: other", &mut e);
    assert_eq!(e.get("user"), "b");
    assert_eq!(e.get(":otp"), "c");
    assert_eq!(e.get("pass"), "other");
    assert_eq!(e.field_count(), 4);
}

#[test]
fn split_at_first_separator_only() {
    let mut e = entry("x");
    parse_entry_string("pw\nurl: https://a: b\nnosep:here\n: empty label\nlabel: ", &mut e);
    assert_eq!(e.get("url"), "https://a: b");
    assert_eq!(e.lookup("nosep:here"), None);
    assert_eq!(e.get(""), "empty label");
    assert_eq!(e.get("label"), "");
    assert_eq!(e.field_count(), 6);
}

#[test]
fn first_line_otpauth_makes_command() {
    let mut e = entry("MyEntry");
    parse_entry_string("otpauth://totp/x?secret=foo", &mut e);
    assert_eq!(e.get("pass"), "otpauth://totp/x?secret=foo");
    assert_eq!(e.get(":otp"), "pass otp MyEntry");
    assert_eq!(e.field_count(), 4);
}

#[test]
fn first_line_otpauth_with_otp_method() {
    let mut e = entry("MyEntry");
    parse_entry_string("otpauth://totp/x
otp_method: my command", &mut e);
    assert_eq!(e.get(":otp"), "my command");
}

#[test]
fn otp_method_wins_over_otpauth() {
    let mut e = entry("MyEntry");
    parse_entry_string("mypass\notp_method: my command\notpauth://totp/x?secret=foo", &mut e);
    assert_eq!(e.get(":otp"), "my command");
    assert_eq!(e.field_count(), 4);
}

#[test]
fn multiline() {
    let mut entry = entry("My entry");
    parse_entry_string(
        "my: password\n\
        \n\
        ---\n\
        user: foo",
        &mut entry,
    );
    assert_eq!(entry.field_count(), 3);
    assert_eq!(entry.get("pass"), "my: password\n");
    assert_eq!(entry.get("user"), "foo");
}

#[test]
fn multiline_password_lines_are_not_fields() {
    let mut e = entry("x");
    parse_entry_string("line one\nuser: inside\nline three\n---\ncustom: bar\n---", &mut e);
    assert_eq!(e.get("pass"), "line one\nuser: inside\nline three");
    assert_eq!(e.get("user"), "alice");
    assert_eq!(e.get("custom"), "bar");
    assert_eq!(e.field_count(), 4);
}

#[test]
fn rule_on_first_line_is_the_password() {
    let mut e = entry("x");
    parse_entry_string("---\nuser: foo", &mut e);
    assert_eq!(e.get("pass"), "---");
    assert_eq!(e.get("user"), "foo");
}

#[test]
fn password_is_first_line() {
    let mut e = entry("x");
    parse_entry_string("secret: with colon\nuser: bob\nnote: n", &mut e);
    assert_eq!(e.get("pass"), "secret: with colon");
}

#[test]
fn list_fields_sorted_once() {
    let mut e = entry("x");
    parse_entry_string("pw\nzeta: 1\nalpha: 2\nBeta: 3\nalpha: 4\nal: 5\né: 6", &mut e);
    assert_eq!(
        e.list_fields(),
        vec![":autotype", "Beta", "al", "alpha", "pass", "user", "zeta", "é"]
            .into_iter()
            .map(String::from)
            .collect::<Vec<_>>()
    );
}

#[test]
fn autoseq_default() {
    let e = entry("x");
    assert_eq!(
        e.autoseq(),
        vec![EType::Field("user".to_string()), EType::Tab, EType::Field("pass".to_string())]
    );
}

#[test]
fn autoseq_all_words() {
    let mut e = entry("x");
    parse_entry_string(
        "pw\nautotype:   user :tab\t:enter :space :delay :otp path pass  custom\u{a0}:TAB ",
        &mut e,
    );
    assert_eq!(
        e.autoseq(),
        vec![
            EType::Field("user".to_string()),
            EType::Tab,
            EType::Enter,
            EType::Space,
            EType::Delay,
            EType::Otp,
            EType::Path,
            EType::Field("pass".to_string()),
            EType::Field("custom".to_string()),
            EType::Field(":TAB".to_string()),
        ]
    );
}

#[test]
fn autoseq_blank_sequence() {
    let mut e = entry("x");
    parse_entry_string("pw\nautotype:  \t ", &mut e);
    assert_eq!(e.autoseq(), vec![]);
}

#[test]
fn from_pass_failed_command() {
    assert!(PassEntry::from_pass("a", "u", None).is_none());
    let e = PassEntry::from_pass("a/b", "u", Some("pw\nuser: me\n")).unwrap();
    assert_eq!(e.get_name(), "a/b");
    assert_eq!(e.get("pass"), "pw");
    assert_eq!(e.get("user"), "me");
}

#[test]
fn show_reads_entry() {
    let dir = PassDir::new("/store".to_string());
    assert_eq!(dir.root, "/store");
    let e = dir.show("site", "u", Some("secret\n")).unwrap();
    assert_eq!(e.get("pass"), "secret");
    let dir = PassDir::new("/store".to_string());
    assert!(dir.show("site", "u", None).is_none());
}

#[test]
fn gen_otp_trims_end() {
    let mut e = entry("x");
    parse_entry_string("pw\notp_method: oathtool", &mut e);
    assert_eq!(e.gen_otp(Some("  123456 \n")), "  123456");
    assert_eq!(e.gen_otp(Some("\n")), "");
    assert_eq!(e.gen_otp(None), "");
}

#[test]
fn hidden_names() {
    assert!(is_hidden(Some(".git")));
    assert!(is_hidden(Some(".")));
    assert!(!is_hidden(Some("a.gpg")));
    assert!(!is_hidden(Some("")));
    assert!(!is_hidden(None));
}

#[test]
fn entry_names_from_paths() {
    assert_eq!(clean_name(Some("/store/a/b.gpg"), "/store"), Some("a/b".to_string()));
    assert_eq!(clean_name(Some("/store/site.gpg"), "/store/"), Some("site".to_string()));
    assert_eq!(clean_name(Some("/store/dir"), "/store"), None);
    assert_eq!(clean_name(Some("/other/x.gpg"), "/store"), None);
    assert_eq!(clean_name(Some("/storex/x.gpg"), "/store"), None);
    assert_eq!(clean_name(None, "/store"), None);
    assert_eq!(entry_name(Some("a.gpg")), Some("a".to_string()));
    assert_eq!(entry_name(Some(".gpg")), Some("".to_string()));
    assert_eq!(entry_name(Some("a.gpg.txt")), None);
    assert_eq!(entry_name(None), None);
}

#[test]
fn otp_method_last_sets_command() {
    let mut e = entry("x");
    parse_entry_string("pw\notpauth://totp/a\notp_method: oathtool x", &mut e);
    assert_eq!(e.get(":otp"), "oathtool x");
}
