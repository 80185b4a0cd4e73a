use animfetch::color::{parse_hex, parse_sgr, strip_sgr, Color, Gradient, Rgb, Sgr};
use animfetch::render::truncate;

#[test]
fn fg_emits_exactly_what_formatting_would() {
    // `fg` is hand-built for speed; this keeps it honest.
    for rgb in [
        Rgb(0, 0, 0),
        Rgb(255, 255, 255),
        Rgb(1, 10, 100),
        Rgb(9, 99, 199),
    ] {
        let mut out = String::new();
        rgb.fg(&mut out);
        let Rgb(r, g, b) = rgb;
        assert_eq!(out, format!("\x1b[38;2;{r};{g};{b}m"));
    }
}

#[test]
fn parses_both_hex_forms() {
    assert_eq!(parse_hex("#ff8000"), Some(Rgb(255, 128, 0)));
    assert_eq!(parse_hex("ff8000"), Some(Rgb(255, 128, 0)));
    assert_eq!(parse_hex("#f80"), Some(Rgb(255, 136, 0)));
    assert_eq!(parse_hex("#xyzxyz"), None);
    assert_eq!(parse_hex("#ff80"), None);
}

#[test]
fn non_ascii_is_rejected_rather_than_slicing_mid_character() {
    // Six bytes, no char boundary at byte 2. Indexing there would panic.
    assert_eq!(parse_hex("€xxx"), None);
    assert_eq!(parse_hex("#€é"), None);
    // from_str_radix used to accept a sign; a nibble must be a bare digit.
    assert_eq!(parse_hex("+f+f+f"), None);
}

#[test]
fn gradient_hits_its_endpoints() {
    let g = Gradient::new(vec![Rgb(0, 0, 0), Rgb(100, 100, 100), Rgb(200, 200, 200)]);
    assert_eq!(g.sample_at(0, 1), Some(Rgb(0, 0, 0)));
    assert_eq!(g.sample_at(1, 1), Some(Rgb(200, 200, 200)));
    assert_eq!(g.sample_at(1, 2), Some(Rgb(100, 100, 100)));
}

#[test]
fn gradient_clamps_out_of_range() {
    let g = Gradient::new(vec![Rgb(0, 0, 0), Rgb(10, 10, 10)]);
    assert_eq!(g.sample_at(0, 1), Some(Rgb(0, 0, 0)));
    assert_eq!(g.sample_at(5, 1), Some(Rgb(10, 10, 10)));
    assert_eq!(Gradient::default().sample_at(1, 2), None);
}

#[test]
fn sgr_parser_reads_truecolor_and_reset() {
    assert!(matches!(
        parse_sgr("38;2;255;128;0"),
        Sgr::Fg(Rgb(255, 128, 0))
    ));
    assert!(matches!(parse_sgr("0"), Sgr::Reset));
    assert!(matches!(parse_sgr(""), Sgr::Reset));
    assert!(matches!(parse_sgr("39"), Sgr::Ignore));
}

#[test]
fn strip_removes_sequences_but_keeps_art() {
    assert_eq!(strip_sgr("\x1b[38;2;1;2;3mW\x1b[0m"), "W");
    assert_eq!(strip_sgr("plain"), "plain");
}

// The cases below exercise the library's own guarantees.

#[test]
fn a_foreground_sequence_parses_back_to_its_colour() {
    let mut out = String::new();
    Rgb(7, 80, 250).fg(&mut out);
    let params = &out[2..out.len() - 1];
    assert!(matches!(parse_sgr(params), Sgr::Fg(Rgb(7, 80, 250))));
}

#[test]
fn stripping_twice_changes_nothing_more() {
    let once = strip_sgr("\x1b[1ma\x1b[0mb\x1b[38;2;1;2;3mc");
    assert_eq!(once, "abc");
    assert_eq!(strip_sgr(&once), once);
}

#[test]
fn short_hex_doubles_each_digit() {
    assert_eq!(parse_hex("#abc"), parse_hex("#aabbcc"));
    assert_eq!(parse_hex("  ##0f0 "), Some(Rgb(0, 255, 0)));
}

#[test]
fn the_gradient_blends_between_neighbouring_stops() {
    let g = Gradient::new(vec![Rgb(0, 0, 0), Rgb(255, 255, 255)]);
    assert_eq!(g.sample_at(1, 2), Some(Rgb(128, 128, 128)));
    assert_eq!(g.sample_at(1, 4), Some(Rgb(64, 64, 64)));
    let single = Gradient::new(vec![Rgb(1, 2, 3)]);
    assert_eq!(single.sample_at(3, 7), Some(Rgb(1, 2, 3)));
}

#[test]
fn bad_gradient_entries_are_dropped_and_bad_colours_are_reported() {
    let g = Gradient::from_hex_list(&["#ff0000".to_string(), "nonsense".to_string()]);
    assert_eq!(g.stops(), &[Rgb(255, 0, 0)]);
    assert!(matches!(Color::from_hex("#00ff00"), Ok(Color(Rgb(0, 255, 0)))));
    match Color::from_hex("blue") {
        Err(m) => assert_eq!(m, "not a hex colour: \"blue\""),
        Ok(_) => panic!("not a colour"),
    }
}

#[test]
fn stripped_text_has_no_escape_left_and_strips_to_itself() {
    let text = "\x1b[38;2;1;2;3m##\x1b[0m  #\x1b[1m";
    let once = strip_sgr(text);
    assert_eq!(once, "##  #");
    assert!(!once.contains('\x1b'));
    assert_eq!(strip_sgr(&once), once);
    assert_eq!(strip_sgr("plain art"), "plain art");
}

#[test]
fn every_colour_written_in_hex_reads_back() {
    for (r, g, b) in [(0u8, 0u8, 0u8), (255, 255, 255), (18, 52, 86), (171, 205, 239)] {
        assert_eq!(parse_hex(&format!("#{r:02x}{g:02x}{b:02x}")), Some(Rgb(r, g, b)));
    }
    assert_eq!(parse_hex(" ##abc "), Some(Rgb(0xaa, 0xbb, 0xcc)));
    assert_eq!(parse_hex("#abcd"), None);
    assert_eq!(parse_hex("#abg"), None);
}

#[test]
fn an_empty_gradient_never_gives_a_colour() {
    let empty = Gradient::new(vec![]);
    assert!(empty.is_empty());
    assert_eq!(empty.sample_at(0, 1), None);
    assert_eq!(empty.sample_at(3, 4), None);
    assert!(Gradient::default().is_empty());
    let one = Gradient::new(vec![Rgb(1, 2, 3)]);
    assert!(!one.is_empty());
    assert_eq!(one.sample_at(3, 4), Some(Rgb(1, 2, 3)));
}

#[test]
fn ascii_text_is_measured_one_column_a_character() {
    assert_eq!(truncate("hello", 10), "hello");
    assert_eq!(truncate("hello world", 6), "hello…");
}
