use animfetch::color::Rgb;
use animfetch::config::{ColorSource, Config};
use animfetch::palette::{apply, expand, Palette, Watch};

#[test]
fn reads_a_flat_material_you_file() {
    let text = r##"{
      "background": "#0e141c",
      "primary": "#4fd8eb",
      "on_surface": "#dee2ef"
    }"##;
    let p = Palette::parse(text);
    assert_eq!(p.get("primary"), Some(Rgb(0x4f, 0xd8, 0xeb)));
    assert_eq!(p.get("on_surface"), Some(Rgb(0xde, 0xe2, 0xef)));
    assert_eq!(p.get("nope"), None);
}

#[test]
fn reads_colours_nested_under_a_parent_key() {
    // pywal's shape: the useful names are one level down.
    let text = r##"{
      "special": { "background": "#111111" },
      "colors": { "color0": "#000000", "color1": "#ff0000" }
    }"##;
    let p = Palette::parse(text);
    assert_eq!(p.get("color1"), Some(Rgb(255, 0, 0)));
    assert_eq!(p.get("background"), Some(Rgb(0x11, 0x11, 0x11)));
    // The parent keys are not colours and must not appear as entries.
    assert_eq!(p.get("colors"), None);
}

#[test]
fn non_colour_values_are_skipped_not_mispaired() {
    // A string value that is not a colour must not shift the pairing and
    // turn the following key into a value.
    let text = r##"{ "name": "Tokyo Night", "primary": "#4fd8eb" }"##;
    let p = Palette::parse(text);
    assert_eq!(p.get("name"), None);
    assert_eq!(p.get("primary"), Some(Rgb(0x4f, 0xd8, 0xeb)));
}

#[test]
fn strings_in_an_array_are_not_read_as_names() {
    let text = r##"{ "ramp": ["#ff0000", "#00ff00"], "primary": "#0000ff" }"##;
    let p = Palette::parse(text);
    assert_eq!(p.get("ramp"), None);
    assert_eq!(p.get("primary"), Some(Rgb(0, 0, 255)));
}

#[test]
fn an_escaped_quote_does_not_end_the_string_early() {
    let text = r##"{ "a\"b": "#010203", "primary": "#4fd8eb" }"##;
    let p = Palette::parse(text);
    assert_eq!(p.get("a\"b"), Some(Rgb(1, 2, 3)));
    assert_eq!(p.get("primary"), Some(Rgb(0x4f, 0xd8, 0xeb)));
}

#[test]
fn junk_yields_nothing_rather_than_panicking() {
    for text in ["", "{", "\"", "not json at all", "{\"a\":", "{\"a\": \"#zz\"}"] {
        assert!(Palette::parse(text).get("a").is_none(), "{text:?}");
    }
}

#[test]
fn roles_the_file_omits_keep_their_configured_colour() {
    let text = r##"{ "primary": "#4fd8eb" }"##;
    let p = Palette::parse(text);
    // `apply` only assigns when the lookup succeeds; this mirrors that.
    assert!(p.get("primary").is_some());
    assert!(p.get("on_surface").is_none());
}

// The cases below exercise the library's own guarantees.

#[test]
fn applying_a_palette_recolours_only_the_roles_it_names() {
    let mut cfg = palette_sourced();
    let before_value = cfg.value.0;
    let before_stops = cfg.gradient.stops().to_vec();
    let p = Palette::parse(r##"{ "primary": "#ff0000", "tertiary": "#0000ff" }"##);
    assert!(apply(&mut cfg, Some(&p)));
    assert_eq!(cfg.accent.0, Rgb(255, 0, 0));
    assert_eq!(cfg.value.0, before_value);
    assert_eq!(cfg.gradient.stops(), &[Rgb(255, 0, 0), Rgb(0, 0, 255)]);

    let mut cfg = palette_sourced();
    assert!(apply(&mut cfg, Some(&Palette::parse("{}"))));
    assert_eq!(cfg.gradient.stops(), before_stops.as_slice());
}

fn palette_sourced() -> Config {
    Config { color_source: ColorSource::Palette, ..Config::default() }
}

#[test]
fn apply_is_a_no_op_unless_the_source_is_palette() {
    let mut cfg = Config::default();
    let before = cfg.accent.0;
    assert_eq!(cfg.color_source, ColorSource::Config, "default must not change behaviour");
    let p = Palette::parse(r##"{ "primary": "#ff0000" }"##);
    assert!(!apply(&mut cfg, Some(&p)));
    assert_eq!(cfg.accent.0, before);
}

#[test]
fn a_missing_palette_file_leaves_the_configured_colours_alone() {
    // No file found: nothing to hand over.
    let mut cfg = Config {
        color_source: ColorSource::Palette,
        palette_files: vec!["/nonexistent/animfetch-test/colors.json".into()],
        ..Config::default()
    };
    let before = cfg.accent.0;
    assert!(!apply(&mut cfg, None));
    assert_eq!(cfg.accent.0, before);
}

#[test]
fn reload_picks_up_the_new_colours() {
    let mut cfg = palette_sourced();
    let first = Palette::parse(r##"{"primary": "#ff0000", "on_surface": "#00ff00"}"##);
    assert!(apply(&mut cfg, Some(&first)));
    assert_eq!(cfg.accent.0, Rgb(255, 0, 0));
    assert_eq!(cfg.value.0, Rgb(0, 255, 0));

    // What a retheme looks like from here: same roles, new contents.
    let second = Palette::parse(r##"{"primary": "#0000ff", "on_surface": "#ffffff"}"##);
    assert!(apply(&mut cfg, Some(&second)));
    assert_eq!(cfg.accent.0, Rgb(0, 0, 255));
    assert_eq!(cfg.value.0, Rgb(255, 255, 255));
}

#[test]
fn a_rewritten_palette_is_noticed_once() {
    let cfg = Config { color_source: ColorSource::Palette, ..Config::default() };
    let mut watch = Watch::new(&cfg, Some("/x/colors.json".into()), Some((10, 0)));
    assert!(!watch.changed(Some((10, 0))), "nothing has happened yet");
    assert!(watch.changed(Some((15, 0))), "a rewrite must be noticed");
    assert!(!watch.changed(Some((15, 0))), "and only once, not every poll after");
    assert!(watch.changed(None), "a deleted file is a change too");
}

#[test]
fn nothing_is_watched_when_the_source_is_the_config() {
    let cfg = Config::default();
    let mut watch = Watch::new(&cfg, Some("/x/colors.json".into()), Some((10, 0)));
    assert_eq!(watch.path(), None);
    assert!(!watch.changed(Some((99, 0))));
}

#[test]
fn tilde_expands_against_home() {
    assert_eq!(expand("~/x/y", Some("/home/me")), "/home/me/x/y");
    assert_eq!(expand("~/x", Some("/home/me/")), "/home/me/x");
    assert_eq!(expand("~/x", None), "~/x");
    assert_eq!(expand("~/x", Some("")), "~/x");
    assert_eq!(expand("/abs/path", Some("/home/me")), "/abs/path");
    assert_eq!(expand("~x", Some("/home/me")), "~x");
}
