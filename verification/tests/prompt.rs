use animfetch::config::Config;
use animfetch::prompt::{
    builtin, builtin_readable, cd_target, cwd_display, is_canonical, Action, Builtin, Key, KeyCode, Prompt, MAX_INPUT,
};

fn key(code: KeyCode) -> Key {
    Key { code, ctrl: false }
}

fn ctrl(c: char) -> Key {
    Key { code: KeyCode::Char(c), ctrl: true }
}

fn prompt() -> Prompt {
    Prompt::from_parts("", "")
}

fn type_str(p: &mut Prompt, s: &str) {
    for c in s.chars() {
        p.handle(key(KeyCode::Char(c)));
    }
}

#[test]
fn typing_then_enter_submits_the_trimmed_command() {
    let mut p = prompt();
    type_str(&mut p, "  ls -la  ");
    match p.handle(key(KeyCode::Enter)) {
        Action::Submit(cmd) => assert_eq!(cmd, "ls -la"),
        _ => panic!("expected submit"),
    }
}

#[test]
fn bare_enter_does_not_submit() {
    let mut p = prompt();
    type_str(&mut p, "   ");
    assert!(matches!(p.handle(key(KeyCode::Enter)), Action::Continue));
    assert!(p.input().is_empty());
}

#[test]
fn ctrl_c_quits_and_ctrl_d_only_quits_when_empty() {
    let mut p = prompt();
    assert!(matches!(p.handle(ctrl('c')), Action::Quit));

    type_str(&mut p, "x");
    assert!(matches!(p.handle(ctrl('d')), Action::Continue));
    p.handle(key(KeyCode::Backspace));
    assert!(matches!(p.handle(ctrl('d')), Action::Quit));
}

#[test]
fn ctrl_u_clears_and_ctrl_w_deletes_a_word() {
    let mut p = prompt();
    type_str(&mut p, "git commit -m");
    p.handle(ctrl('w'));
    assert_eq!(p.input(), "git commit ");

    p.handle(ctrl('u'));
    assert_eq!(p.input(), "");
    // Ctrl-W on an empty buffer must not panic or underflow.
    p.handle(ctrl('w'));
    assert_eq!(p.input(), "");
}

#[test]
fn control_chars_are_not_inserted_as_text() {
    let mut p = prompt();
    p.handle(ctrl('a'));
    assert_eq!(p.input(), "");
}

#[test]
fn input_is_bounded() {
    let mut p = Prompt::from_parts("", &"x".repeat(MAX_INPUT));
    p.handle(key(KeyCode::Char('y')));
    assert_eq!(p.input().len(), MAX_INPUT);
}

#[test]
fn backspace_removes_whole_multibyte_chars() {
    let mut p = prompt();
    type_str(&mut p, "café");
    p.handle(key(KeyCode::Backspace));
    assert_eq!(p.input(), "caf");
}

// The cases below exercise the library's own guarantees.

#[test]
fn the_prompt_shows_who_where_and_whether_root() {
    let cfg = Config { color: false, ..Config::default() };
    let p = Prompt::new(&cfg, "me@box", "~/src", false);
    assert_eq!(p.prefix(), "me@box ~/src $ ");
    assert_eq!(p.render(), "me@box ~/src $ █");
    let root = Prompt::new(&cfg, "root@box", "/", true);
    assert_eq!(root.prefix(), "root@box / # ");
    let coloured = Prompt::new(&Config::default(), "a", "b", false);
    assert_eq!(coloured.prefix(), "\x1b[38;2;116;164;255ma\x1b[0m \x1b[38;2;200;204;212mb\x1b[0m $ ");
}

#[test]
fn escape_quits_and_ctrl_w_also_drops_trailing_blanks() {
    let mut p = prompt();
    type_str(&mut p, "make  all   ");
    p.handle(ctrl('w'));
    assert_eq!(p.input(), "make  ");
    assert!(matches!(p.handle(key(KeyCode::Esc)), Action::Quit));
}

#[test]
fn typing_stops_at_the_byte_cap_even_mid_character() {
    let mut p = Prompt::from_parts("", &"x".repeat(MAX_INPUT - 1));
    p.handle(key(KeyCode::Char('é')));
    assert_eq!(p.input().len(), MAX_INPUT + 1);
    p.handle(key(KeyCode::Char('z')));
    assert_eq!(p.input().len(), MAX_INPUT + 1);
}

#[test]
fn builtins_are_recognised_only_without_shell_syntax() {
    assert!(matches!(builtin("exit"), Some(Builtin::Exit)));
    assert!(matches!(builtin("logout now"), Some(Builtin::Exit)));
    assert!(matches!(builtin("cd /tmp"), Some(Builtin::Cd(ref a)) if a == "/tmp"));
    assert!(matches!(builtin("cd \"my dir\""), Some(Builtin::Cd(ref a)) if a == "my dir"));
    assert!(matches!(builtin("cd"), Some(Builtin::Cd(ref a)) if a.is_empty()));
    assert!(builtin("cd /tmp && ls").is_none());
    assert!(builtin("exit; ls").is_none());
    assert!(builtin("ls").is_none());
    assert!(builtin("").is_none());
}

#[test]
fn cd_resolves_home_the_previous_directory_and_tilde_paths() {
    assert_eq!(cd_target("", Some("/home/me"), None), Ok("/home/me".to_string()));
    assert_eq!(cd_target("~", None, None), Err("cd: HOME is not set".to_string()));
    assert_eq!(cd_target("-", None, Some("/old")), Ok("/old".to_string()));
    assert_eq!(cd_target("-", None, Some("")), Err("cd: OLDPWD is not set".to_string()));
    assert_eq!(cd_target("~/src", Some("/home/me"), None), Ok("/home/me/src".to_string()));
    assert_eq!(cd_target("/etc", None, None), Ok("/etc".to_string()));
}

#[test]
fn the_working_directory_is_shown_relative_to_home() {
    assert_eq!(cwd_display("/home/me", Some("/home/me")), "~");
    assert_eq!(cwd_display("/home/me/src/x", Some("/home/me/")), "~/src/x");
    assert_eq!(cwd_display("/home/mess", Some("/home/me")), "/home/mess");
    assert_eq!(cwd_display("/etc", None), "/etc");
    assert_eq!(cwd_display("/etc", Some("")), "/etc");
}

#[test]
fn only_normalised_absolute_paths_are_canonical() {
    assert!(is_canonical("/"));
    assert!(is_canonical("/home/me"));
    assert!(is_canonical("/home/me/.config"));
    assert!(!is_canonical(""));
    assert!(!is_canonical("home/me"));
    assert!(!is_canonical("/home//me"));
    assert!(!is_canonical("/home/me/"));
    assert!(!is_canonical("/home/./me"));
    assert!(!is_canonical("/home/../me"));
}

#[test]
fn a_cd_must_leave_its_argument_on_a_character_boundary() {
    assert!(builtin_readable("cd /tmp"));
    assert!(builtin_readable("ls -l"));
    // A wide blank before `cd` puts byte two inside it.
    assert!(!builtin_readable("\u{3000}cd /tmp"));
    // Shell syntax goes to the shell before the argument is ever read.
    assert!(builtin_readable("\u{3000}cd /tmp && ls"));
    // A two-byte blank ends exactly at byte two.
    assert!(builtin_readable("\u{a0}cd /tmp"));
}

#[test]
fn ctrl_w_after_a_wide_blank_deletes_the_last_word() {
    // The ideographic space takes three bytes; the cut falls after it.
    let mut p = prompt();
    type_str(&mut p, "a\u{3000}b");
    assert!(matches!(p.handle(ctrl('w')), Action::Continue));
    assert_eq!(p.input(), "a\u{3000}");
}
