use animfetch::cli::{Args, Command};
use animfetch::config::{ColorSource, Config, Style};

fn parse(args: &[&str]) -> Result<Command, String> {
    let argv: Vec<String> = args.iter().map(|s| s.to_string()).collect();
    let numeric: Vec<bool> = argv.iter().map(|s| s.parse::<f32>().is_ok()).collect();
    Args::parse(&argv, &numeric)
}

fn run(args: &[&str]) -> Args {
    match parse(args) {
        Ok(Command::Run(a)) => a,
        other => panic!("expected a run, got {other:?}"),
    }
}

#[test]
fn options_fill_the_overrides_later_ones_winning() {
    let a = run(&["-a", "fox", "--animation", "cat", "-W", "30", "--style", "quad", "--once", "-f", "24.5"]);
    assert_eq!(a.animation.as_deref(), Some("cat"));
    assert_eq!(a.width, Some(30));
    assert_eq!(a.style, Some(Style::Quad));
    assert!(a.once);
    assert!(!a.play);
    assert_eq!(a.fps.as_deref(), Some("24.5"));
    assert_eq!(a.height, None);
}

#[test]
fn help_and_version_stop_reading() {
    assert!(matches!(parse(&["--help", "--bogus"]), Ok(Command::Help)));
    assert!(matches!(parse(&["-p", "-V"]), Ok(Command::Version)));
}

#[test]
fn each_mistake_is_reported_in_words() {
    assert_eq!(parse(&["--bogus"]).unwrap_err(), "unknown option: --bogus");
    assert_eq!(parse(&["--set"]).unwrap_err(), "--set needs an animation name");
    assert_eq!(parse(&["-W", "wide"]).unwrap_err(), "not a number: wide");
    assert_eq!(parse(&["--fps", "fast"]).unwrap_err(), "not a number: fast");
    assert_eq!(parse(&["--style", "raw"]).unwrap_err(), "unknown style: raw (half, quad, or ramp)");
    assert_eq!(parse(&["-H"]).unwrap_err(), "--height needs a number of rows");
}

#[test]
fn a_value_is_taken_even_when_it_looks_like_an_option() {
    let a = run(&["--set", "--pin"]);
    assert_eq!(a.set.as_deref(), Some("--pin"));
    assert!(!a.pin);
}

#[test]
fn overrides_land_in_the_configuration() {
    let a = run(&["-a", "fox", "--no-color", "--palette", "-H", "0"]);
    let mut cfg = Config::default();
    a.apply(&mut cfg);
    assert_eq!(cfg.animation, "fox");
    assert!(!cfg.color);
    assert_eq!(cfg.color_source, ColorSource::Palette);
    assert_eq!(cfg.height, 0);
    assert_eq!(cfg.width, 56);
}
