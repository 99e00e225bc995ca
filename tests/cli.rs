use configurator::{expand_home, Cmd, Opt};

#[test]
fn expands_home_relative_paths() {
    assert_eq!(expand_home("~/.config/sway/twl", "/home/u"), "/home/u/.config/sway/twl");
    assert_eq!(expand_home("~", "/home/u"), "/home/u");
    assert_eq!(expand_home("~/a~b", "/h"), "/h/a/hb");
}

#[test]
fn keeps_other_paths() {
    assert_eq!(expand_home("~foo/x", "/home/u"), "~foo/x");
    assert_eq!(expand_home("/etc/~x", "/home/u"), "/etc/~x");
    assert_eq!(expand_home("", "/home/u"), "");
}

#[test]
fn options_hold_values() {
    let o = Opt { cmd: Cmd::Display, file: "~/.config/sway/twl".to_string() };
    assert_eq!(o.cmd, Cmd::Display);
    assert_eq!(o.file, "~/.config/sway/twl");
}
