use animfetch::anim::{Ink, DEFAULT_NAME};
use animfetch::config::{ArtColor, Config, Module, Style};
use animfetch::color::{Gradient, Rgb};

#[test]
fn width_cap_is_bounded_by_what_is_available() {
    let cfg = Config { width: 56, ..Config::default() };
    assert_eq!(cfg.width(120), 56);
    assert_eq!(cfg.width(30), 30);
    assert_eq!(Config { width: 0, ..Config::default() }.width(120), 120);
}

#[test]
fn height_cap_is_bounded_by_what_is_available() {
    let cfg = Config { height: 20, ..Config::default() };
    assert_eq!(cfg.height(40), 20, "cap applies when there is room");
    assert_eq!(cfg.height(12), 12, "never exceeds the space available");

    let uncapped = Config { height: 0, ..Config::default() };
    assert_eq!(uncapped.height(40), 40, "0 means fill");
}

#[test]
fn style_selects_the_renderer() {
    let cfg = Config { style: Style::Ramp, ..Config::default() };
    assert!(matches!(cfg.ink(&[' ', '#']), Ink::Ramp(_)));
    assert!(matches!(Config::default().ink(&[' ', '#']), Ink::Half));
}

#[test]
fn art_color_selects_whose_colour_raw_art_wears() {
    let own = Config { style: Style::Raw, ..Config::default() };
    assert!(matches!(own.ink(&[' ', '#']), Ink::Raw { color: true }));

    // `theme` hands the art back plain so the gradient applies, but the
    // global colour switch still wins over both.
    let theme = Config { style: Style::Raw, art_color: ArtColor::Theme, ..Config::default() };
    assert!(matches!(theme.ink(&[' ', '#']), Ink::Raw { color: false }));

    let off = Config { style: Style::Raw, color: false, ..Config::default() };
    assert!(matches!(off.ink(&[' ', '#']), Ink::Raw { color: false }));
}

#[test]
fn empty_ramp_falls_back() {
    let cfg = Config { ramp: String::new(), ..Config::default() };
    assert_eq!(cfg.ramp(), vec![' ', '█']);
}

// The cases below exercise the library's own guarantees.

#[test]
fn defaults_draw_the_bundled_cat_with_every_module() {
    let cfg = Config::default();
    assert_eq!(cfg.animation, DEFAULT_NAME);
    assert_eq!(cfg.animation, "cat-run");
    assert_eq!(cfg.modules.len(), 13);
    assert_eq!(cfg.modules[0], Module::Os);
    assert_eq!(cfg.ramp(), vec![' ', '░', '▒', '▓', '█']);
    assert_eq!(cfg.gradient.stops().len(), 5);
    assert_eq!((cfg.gap, cfg.width, cfg.height), (4, 56, 20));
}

#[test]
fn bad_gradient_entries_are_skipped_not_fatal() {
    // The configuration's `gradient = ["#ff0000", "nonsense"]`.
    let raw = vec!["#ff0000".to_string(), "nonsense".to_string()];
    let gradient = Gradient::from_hex_list(&raw);
    assert_eq!(gradient.sample_at(0, 1), Some(Rgb(255, 0, 0)));
    assert_eq!(gradient.stops(), &[Rgb(255, 0, 0)]);
}
