use animfetch::anim::Entry;
use animfetch::cli::{Args, Command};
use animfetch::layout::Split;
use animfetch::prompt::{Key, KeyCode, Prompt};
use animfetch::screen::{echo, enter_split, frame_in_place, pin_enter, pin_leave, print_lines, prompt_line, reassert_region, release, reserve};
use animfetch::session::{
    exit_status, keep_color, list_line, mode, name_width, next_phase, parse_pid, pid_file_name, pin_tick, with_animation, Mode,
    Reaction, Session, Tick,
};
use animfetch::term::{move_to, scroll_region, Guard};

fn args(list: &[&str]) -> Args {
    let argv: Vec<String> = list.iter().map(|s| s.to_string()).collect();
    let numeric = vec![false; argv.len()];
    match Args::parse(&argv, &numeric) {
        Ok(Command::Run(a)) => a,
        _ => panic!("expected a run"),
    }
}

#[test]
fn exit_codes_become_a_status_byte() {
    assert_eq!(exit_status(Some(0)), 0);
    assert_eq!(exit_status(Some(300)), 255);
    assert_eq!(exit_status(Some(-2)), 0);
    assert_eq!(exit_status(None), 128);
}

#[test]
fn a_pinned_pane_pauses_while_something_else_has_the_terminal() {
    assert_eq!(pin_tick(false, 5, 5, true), Tick::Stop);
    assert_eq!(pin_tick(true, -1, 5, true), Tick::Stop);
    assert_eq!(pin_tick(true, 9, 5, true), Tick::Go { draw: false, reassert: false });
    assert_eq!(pin_tick(true, 5, 5, false), Tick::Go { draw: true, reassert: true });
    assert_eq!(pin_tick(true, 5, 5, true), Tick::Go { draw: true, reassert: false });
}

#[test]
fn setting_the_animation_keeps_the_rest_of_the_file() {
    assert_eq!(with_animation("", "fox"), "animation = \"fox\"\n");
    assert_eq!(
        with_animation("# mine\n  animation = \"cat\" # old\nfps = 3\nanimation = \"x\"", "fox"),
        "# mine\nanimation = \"fox\"\nfps = 3\nanimation = \"x\"\n"
    );
    assert_eq!(with_animation("animations_dir\n", "a"), "animations_dir\nanimation = \"a\"\n");
}

#[test]
fn the_listing_marks_the_current_animation() {
    let entries = vec![
        Entry { name: "cat-run".into(), frames: 5, path: None },
        Entry { name: "ant".into(), frames: 12, path: Some("/a/ant".into()) },
    ];
    let w = name_width(&entries);
    assert_eq!(w, 7);
    assert_eq!(list_line(&entries[0], w, "cat-run"), "* cat-run   5 frames  built in");
    assert_eq!(list_line(&entries[1], w, "cat-run"), "  ant      12 frames  /a/ant");
}

#[test]
fn the_pid_file_is_named_after_the_terminal() {
    assert_eq!(pid_file_name("/dev/pts/3"), "animfetch-dev-pts-3.pid");
    assert_eq!(parse_pid(" 4242\n"), Some(4242));
    assert_eq!(parse_pid("-7"), Some(-7));
    assert_eq!(parse_pid("99999999999"), None);
    assert_eq!(parse_pid("x"), None);
}

#[test]
fn modes_follow_their_precedence() {
    assert_eq!(mode(&args(&["--list", "--pin"]), true), Mode::List);
    assert_eq!(mode(&args(&["--set", "fox"]), true), Mode::SetDefault("fox".into()));
    assert_eq!(mode(&args(&["--pin"]), false), Mode::Once);
    assert_eq!(mode(&args(&["--pin", "--unpin"]), true), Mode::Unpin);
    assert_eq!(mode(&args(&["--play"]), true), Mode::Play);
    assert_eq!(mode(&args(&[]), true), Mode::Shell);
    assert!(!keep_color(true, false, false));
    assert!(!keep_color(true, true, true));
    assert!(keep_color(true, true, false));
}

#[test]
fn the_session_redraws_the_prompt_only_when_it_changed() {
    let mut s = Session::new();
    let mut p = Prompt::from_parts("$ ", "");
    assert!(s.take_prompt_dirty());
    assert!(!s.take_prompt_dirty());
    assert!(matches!(s.on_key(&mut p, Key { code: KeyCode::Char('l'), ctrl: false }), Reaction::Redraw));
    assert!(s.take_prompt_dirty());
    match s.on_key(&mut p, Key { code: KeyCode::Enter, ctrl: false }) {
        Reaction::Run(c) => assert_eq!(c, "l"),
        other => panic!("{other:?}"),
    }
    assert!(s.on_command_done(Some(3)));
    assert_eq!(s.status, 3);
    assert!(!s.on_command_done(None));
    s.on_frame();
    assert_eq!(s.phase, 1);
    assert_eq!(next_phase(usize::MAX), 0);
}

#[test]
fn escape_sequences_for_each_mode() {
    assert_eq!(scroll_region(3, 40), "\x1b[3;40r");
    assert_eq!(move_to(1, 1), "\x1b[1;1H");
    let split = Split::new(10, 40);
    assert_eq!(enter_split(split, 40), "\x1b[2J\x1b[12;40r\x1b[12;1H");
    assert_eq!(enter_split(None, 4), "\x1b[2J\x1b[r\x1b[1;1H");
    assert_eq!(prompt_line("$ ls█"), "\r\x1b[K$ ls█");
    assert_eq!(echo("$ ", "ls"), "\r\x1b[K$ ls\r\n");
    assert_eq!(reserve(2), "\n\n\x1b[2A\x1b[?25l");
    assert_eq!(release(2), "\x1b[?25h\x1b[2B\r");
    assert_eq!(frame_in_place(&["a".into(), "b".into()]), "\x1b7\r\x1b[Ka\r\n\r\x1b[Kb\x1b8");
    assert_eq!(print_lines(&["a".into(), "b".into()]), "a\nb\n");
    assert_eq!(pin_enter(12, 40), "\x1b[2J\x1b[12;40r\x1b[?6h\x1b[H");
    assert_eq!(pin_leave(), "\x1b[?6l\x1b[r\x1b[2J\x1b[1;1H");
    assert_eq!(reassert_region(12, 40), "\x1b7\x1b[12;40r\x1b[?6h\x1b8");
}

#[test]
fn restoring_the_terminal_happens_once() {
    let mut g = Guard::new();
    assert_eq!(g.restore().as_deref(), Some("\x1b[r\x1b[?25h"));
    assert_eq!(g.restore(), None);
}
