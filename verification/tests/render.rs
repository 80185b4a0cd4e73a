use animfetch::color::{strip_sgr, Color, Gradient, Rgb};
use animfetch::config::Config;
use animfetch::fetch::Item;
use animfetch::render::{compose, truncate, visible_width, Pane, Scene};
use unicode_width::UnicodeWidthStr;

fn plain_cfg() -> Config {
    Config {
        gradient: Gradient::default(),
        gradient_scroll: false,
        accent: Color(Rgb(0, 0, 0)),
        value: Color(Rgb(0, 0, 0)),
        gap: 2,
        ..Config::default()
    }
}

fn scene<'a>(
    art: &'a [String],
    art_w: usize,
    title: &'a str,
    items: &'a [Item],
    width: usize,
) -> Scene<'a> {
    Scene { art, art_w, title, items, phase: 0, width }
}

#[test]
fn truncate_respects_display_width() {
    assert_eq!(truncate("hello", 10), "hello");
    assert_eq!(truncate("hello", 5), "hello");
    assert_eq!(truncate("hello", 4), "hel…");
    assert_eq!(truncate("hello", 1), "…");
    assert_eq!(truncate("hello", 0), "");
}

#[test]
fn info_pane_starts_at_a_fixed_column_regardless_of_art_row() {
    // Trailing blanks are trimmed, so padding has to be computed.
    let cfg = plain_cfg();
    let art = vec!["####".to_string(), "#".to_string()];
    let items = vec![
        Item { label: "OS", value: "Arch".into() },
        Item { label: "CPU", value: "Ryzen".into() },
        Item { label: "WM", value: "Hyprland".into() },
    ];

    let out = compose(&scene(&art, 4, "me@host", &items, 80), &cfg);
    let cols: Vec<usize> = out
        .iter()
        .filter(|l| !l.trim().is_empty())
        .map(|l| strip_sgr(l).find(|c: char| !c.is_whitespace()).unwrap_or(0))
        .collect();

    // Every info-bearing row must start at art_w + gap == 6, except rows
    // that also carry art (which start at column 0).
    assert!(cols.iter().all(|&c| c == 0 || c == 6), "columns: {cols:?}");
}

#[test]
fn without_art_the_info_pane_starts_at_column_zero() {
    let cfg = plain_cfg();
    let items = vec![Item { label: "OS", value: "Arch".into() }];
    let out = compose(&scene(&[], 0, "me@host", &items, 30), &cfg);

    assert!(
        out.iter().filter(|l| !l.trim().is_empty()).all(|l| !l.starts_with(' ')),
        "unexpected indent: {out:?}"
    );
}

#[test]
fn narrow_terminal_never_produces_lines_wider_than_it() {
    let cfg = plain_cfg();
    let items = vec![Item {
        label: "CPU",
        value: "AMD Ryzen 9 7950X 16-Core Processor (32) @ 5.88GHz".into(),
    }];
    let art = vec!["####".to_string()];
    let out = compose(&scene(&art, 4, "me@host", &items, 20), &cfg);
    for line in &out {
        assert!(strip_sgr(line).width() <= 20, "too wide: {:?}", strip_sgr(line));
    }
}

#[test]
fn paint_leaves_the_cursor_where_it_found_it() {
    // A frame that moved the cursor would scatter what the user types.
    let mut screen = Pane::new();
    let written = screen.paint(&["a".into()], 10);

    assert!(written.starts_with("\x1b[?2026h\x1b7"), "{written:?}");
    assert!(written.ends_with("\x1b8\x1b[?2026l"), "{written:?}");
}

#[test]
fn origin_mode_is_suspended_for_the_paint_and_restored() {
    // Absolute addressing needs origin mode off.
    let mut pane = Pane::new().with_origin_mode();
    let written = pane.paint(&["a".into()], 4);

    assert!(written.starts_with("\x1b[?2026h\x1b7\x1b[?6l"), "{written:?}");
    assert!(written.ends_with("\x1b[?6h\x1b8\x1b[?2026l"), "{written:?}");

    // The default pane must not emit them at all.
    let mut plain = Pane::new();
    assert!(!plain.paint(&["a".into()], 4).contains("\x1b[?6"));
}

#[test]
fn first_paint_clears_only_the_panes_own_rows() {
    // A full-screen clear would erase the command output scrolling below.
    let mut screen = Pane::new();
    let written = screen.paint(&["a".into()], 3);

    assert!(!written.contains("\x1b[2J"), "cleared whole screen: {written:?}");
    assert!(written.contains("\x1b[3;1H\x1b[2K"));
    assert!(!written.contains("\x1b[4;1H"), "touched a row below the pane");
}

#[test]
fn paint_rewrites_only_changed_lines() {
    let mut screen = Pane::new();

    screen.paint(&["a".into(), "b".into()], 10);

    // Second line changes; the first must not be rewritten.
    let written = screen.paint(&["a".into(), "c".into()], 10);
    assert!(written.contains('c'));
    assert!(!written.contains('a'), "unchanged line was repainted: {written:?}");
}

#[test]
fn paint_erases_rows_left_behind_by_a_shorter_frame() {
    let mut screen = Pane::new();

    screen.paint(&["a".into(), "b".into(), "c".into()], 10);

    let written = screen.paint(&["a".into()], 10);
    // Rows 2 and 3 must be explicitly cleared, not left showing stale art.
    assert!(written.contains("\x1b[2;1H\x1b[2K"), "{written:?}");
    assert!(written.contains("\x1b[3;1H\x1b[2K"), "{written:?}");
}

#[test]
fn paint_clips_to_terminal_height() {
    let mut screen = Pane::new();
    let lines: Vec<String> = (0..50).map(|i| format!("line{i}")).collect();

    let written = screen.paint(&lines, 5);
    assert!(written.contains("line4"));
    assert!(!written.contains("line5"), "drew past the last row");
}

// The cases below exercise the library's own guarantees.

#[test]
fn the_same_frame_twice_writes_nothing_but_the_brackets() {
    let mut pane = Pane::new();
    pane.paint(&["x".into(), "y".into()], 10);
    assert_eq!(pane.paint(&["x".into(), "y".into()], 10), "\x1b[?2026h\x1b7\x1b8\x1b[?2026l");
    pane.invalidate();
    assert!(pane.paint(&["x".into()], 2).contains("\x1b[1;1H\x1b[2K\x1b[2;1H\x1b[2K\x1b[1;1H\x1b[2Kx"));
}

#[test]
fn escapes_take_no_columns() {
    assert_eq!(visible_width("\x1b[38;2;1;2;3mab\x1b[0m"), 2);
    assert_eq!(visible_width("日本"), 4);
    assert_eq!(visible_width("a\tb"), 2);
}

#[test]
fn colour_wraps_each_part_of_a_row() {
    let cfg = Config {
        gradient: Gradient::new(vec![Rgb(9, 9, 9)]),
        accent: Color(Rgb(1, 2, 3)),
        value: Color(Rgb(4, 5, 6)),
        gap: 1,
        ..Config::default()
    };
    let art = vec!["#".to_string()];
    let items = vec![Item { label: "K", value: "v".into() }];
    let out = compose(&scene(&art, 1, "t", &items, 40), &cfg);
    assert_eq!(
        out,
        vec![
            "  \x1b[38;2;1;2;3mt\x1b[0m".to_string(),
            "\x1b[38;2;9;9;9m#\x1b[0m \x1b[38;2;1;2;3m─\x1b[0m".to_string(),
            "  \x1b[38;2;1;2;3mK\x1b[0m: \x1b[38;2;4;5;6mv\x1b[0m".to_string(),
        ]
    );
}

#[test]
fn swatches_disappear_without_colour() {
    let cfg = Config { color: false, ..plain_cfg() };
    let items = vec![Item { label: "", value: "\x1b[30m███".into() }, Item { label: "A", value: "b".into() }];
    let out = compose(&scene(&[], 0, "t", &items, 40), &cfg);
    assert_eq!(out, vec!["t".to_string(), "─".to_string(), "A: b".to_string()]);
}
