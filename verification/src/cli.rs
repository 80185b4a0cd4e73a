//! Command-line overrides, for one-off experiments. All of them also live in
//! the configuration file.

use vstd::prelude::*;
use crate::config::{ColorSource, Config, Style};
use crate::text::{chars_of, parse_u64, parse_uint, push_str, same_chars};

verus! {

broadcast use vstd::string::group_string_axioms;

/// Command-line overrides. The frame rate and the `--play` duration are
/// fractional; they are kept as the text given, which the caller has checked
/// reads as a number.
#[derive(Debug)]
pub struct Args {
    pub animation: Option<String>,
    pub fps: Option<String>,
    pub style: Option<Style>,
    pub width: Option<usize>,
    pub height: Option<usize>,
    pub play: bool,
    pub pin: bool,
    pub unpin: bool,
    pub seconds: Option<String>,
    pub list: bool,
    pub set: Option<String>,
    pub once: bool,
    pub no_color: bool,
    pub palette: bool,
}

/// What the command line asks for.
#[derive(Debug)]
pub enum Command {
    /// Print the help and exit successfully.
    Help,
    /// Print the version and exit successfully.
    Version,
    /// Draw, with these overrides.
    Run(Args),
}

/// Which option `a` is: 0 for none, 1 help, 2 version, 3 to 9 the flags
/// (`--once`, `--play`, `--pin`, `--unpin`, `--list`, `--no-color`,
/// `--palette`), 10 to 16 the options taking a value (`--set`,
/// `--animation`, `--fps`, `--width`, `--style`, `--height`, `--seconds`).
pub open spec fn code_of(a: Seq<char>) -> nat {
    if a == "-h"@ || a == "--help"@ {
        1
    } else if a == "-V"@ || a == "--version"@ {
        2
    } else if a == "-1"@ || a == "--once"@ {
        3
    } else if a == "-p"@ || a == "--play"@ {
        4
    } else if a == "--pin"@ {
        5
    } else if a == "--unpin"@ {
        6
    } else if a == "-l"@ || a == "--list"@ {
        7
    } else if a == "--no-color"@ {
        8
    } else if a == "--palette"@ {
        9
    } else if a == "--set"@ {
        10
    } else if a == "-a"@ || a == "--animation"@ {
        11
    } else if a == "-f"@ || a == "--fps"@ {
        12
    } else if a == "-W"@ || a == "--width"@ {
        13
    } else if a == "--style"@ {
        14
    } else if a == "-H"@ || a == "--height"@ {
        15
    } else if a == "-s"@ || a == "--seconds"@ {
        16
    } else {
        0
    }
}

/// Options that take the next argument as their value.
pub open spec fn takes_value(a: Seq<char>) -> bool {
    code_of(a) >= 10
}

/// What a value option says when its value is missing.
pub open spec fn needs_message(code: nat) -> Seq<char> {
    if code == 10 {
        "--set needs an animation name"@
    } else if code == 11 {
        "--animation needs a name"@
    } else if code == 12 {
        "--fps needs a number"@
    } else if code == 13 {
        "--width needs a number of columns"@
    } else if code == 14 {
        "--style needs half, quad, or ramp"@
    } else if code == 15 {
        "--height needs a number of rows"@
    } else {
        "--seconds needs a number"@
    }
}

/// The style a `--style` value names.
pub open spec fn style_named(v: Seq<char>) -> Option<Style> {
    if v == "half"@ {
        Some(Style::Half)
    } else if v == "quad"@ {
        Some(Style::Quad)
    } else if v == "ramp"@ {
        Some(Style::Ramp)
    } else {
        None
    }
}

/// The name `--style` takes for a style, as the help lists them. Art drawn
/// with its own characters has no name there.
pub open spec fn style_name(s: Style) -> Option<Seq<char>> {
    match s {
        Style::Half => Some("half"@),
        Style::Quad => Some("quad"@),
        Style::Ramp => Some("ramp"@),
        Style::Raw => None,
    }
}

/// `--style` reads each style's own name as that style and nothing else: a
/// value names a style exactly when it is that style's name.
pub proof fn lemma_style_names(v: Seq<char>, s: Style)
    ensures
        style_named(v) == Some(s) <==> style_name(s) == Some(v),
{
    reveal_strlit("half");
    reveal_strlit("quad");
    reveal_strlit("ramp");
    assert("half"@[0] == 'h' && "quad"@[0] == 'q' && "ramp"@[0] == 'r');
}

/// What is wrong with value `v` for the option numbered `code`, if anything;
/// `fractional` says whether `v` reads as a fractional number.
pub open spec fn value_error(code: nat, v: Seq<char>, fractional: bool) -> Option<Seq<char>> {
    if code == 12 || code == 16 {
        if fractional {
            None
        } else {
            Some("not a number: "@ + v)
        }
    } else if code == 13 || code == 15 {
        if parse_uint(v, usize::MAX as nat) is Some {
            None
        } else {
            Some("not a number: "@ + v)
        }
    } else if code == 14 {
        if style_named(v) is Some {
            None
        } else {
            Some("unknown style: "@ + v + " (half, quad, or ramp)"@)
        }
    } else {
        None
    }
}

/// Where reading the arguments from `p` on stops: 0 when it runs to the end,
/// 1 at a help request, 2 at a version request, 3 at an error, with its
/// message. `numeric[i]` says whether argument `i` reads as a fractional
/// number.
pub open spec fn stop_at(argv: Seq<Seq<char>>, numeric: Seq<bool>, p: nat) -> (nat, Seq<char>)
    decreases argv.len() - p,
{
    if p >= argv.len() {
        (0, seq![])
    } else {
        let a = argv[p as int];
        let c = code_of(a);
        if c == 1 {
            (1, seq![])
        } else if c == 2 {
            (2, seq![])
        } else if 3 <= c <= 9 {
            stop_at(argv, numeric, p + 1)
        } else if c >= 10 {
            if p + 1 >= argv.len() {
                (3, needs_message(c))
            } else {
                match value_error(c, argv[p + 1 as int], numeric[p + 1 as int]) {
                    Some(m) => (3, m),
                    None => stop_at(argv, numeric, p + 2),
                }
            }
        } else {
            (3, "unknown option: "@ + a)
        }
    }
}

/// The position after the option at `p` and its value.
pub open spec fn next_pos(argv: Seq<Seq<char>>, p: nat) -> nat {
    if takes_value(argv[p as int]) {
        p + 2
    } else {
        p + 1
    }
}

/// The value given last, from `p` on, to the option numbered `code`.
pub open spec fn value_of(argv: Seq<Seq<char>>, p: nat, code: nat) -> Option<Seq<char>>
    decreases argv.len() + 2 - p,
{
    if p >= argv.len() {
        None
    } else {
        let later = value_of(argv, next_pos(argv, p), code);
        if code_of(argv[p as int]) == code && p + 1 < argv.len() {
            match later {
                Some(v) => Some(v),
                None => Some(argv[p + 1 as int]),
            }
        } else {
            later
        }
    }
}

/// Whether the flag numbered `code` is given from `p` on.
pub open spec fn flag_of(argv: Seq<Seq<char>>, p: nat, code: nat) -> bool
    decreases argv.len() + 2 - p,
{
    if p >= argv.len() {
        false
    } else {
        code_of(argv[p as int]) == code || flag_of(argv, next_pos(argv, p), code)
    }
}

/// The text of each argument.
pub open spec fn arg_texts(argv: Seq<String>) -> Seq<Seq<char>> {
    Seq::new(argv.len(), |i: int| argv[i]@)
}

/// The view of an optional string.
pub open spec fn opt_text(v: Option<String>) -> Option<Seq<char>> {
    match v {
        Some(s) => Some(s@),
        None => None,
    }
}

/// A number option's value, as parsed.
pub open spec fn number_of(v: Option<Seq<char>>) -> Option<usize> {
    match v {
        Some(t) => match parse_uint(t, usize::MAX as nat) {
            Some(n) => Some(n as usize),
            None => None,
        },
        None => None,
    }
}

/// A `--style` value, as parsed.
pub open spec fn style_of(v: Option<Seq<char>>) -> Option<Style> {
    match v {
        Some(t) => style_named(t),
        None => None,
    }
}

/// `args` holds what `argv` says, options given later overriding earlier ones.
pub open spec fn args_from(args: Args, argv: Seq<Seq<char>>) -> bool {
    &&& opt_text(args.set) == value_of(argv, 0, 10)
    &&& opt_text(args.animation) == value_of(argv, 0, 11)
    &&& opt_text(args.fps) == value_of(argv, 0, 12)
    &&& args.width == number_of(value_of(argv, 0, 13))
    &&& args.style == style_of(value_of(argv, 0, 14))
    &&& args.height == number_of(value_of(argv, 0, 15))
    &&& opt_text(args.seconds) == value_of(argv, 0, 16)
    &&& args.once == flag_of(argv, 0, 3)
    &&& args.play == flag_of(argv, 0, 4)
    &&& args.pin == flag_of(argv, 0, 5)
    &&& args.unpin == flag_of(argv, 0, 6)
    &&& args.list == flag_of(argv, 0, 7)
    &&& args.no_color == flag_of(argv, 0, 8)
    &&& args.palette == flag_of(argv, 0, 9)
}

/// A later value if there is one, else what was read so far.
pub open spec fn later_or(later: Option<Seq<char>>, acc: Option<Seq<char>>) -> Option<Seq<char>> {
    match later {
        Some(v) => Some(v),
        None => acc,
    }
}

/// `acc`, read from the arguments before position `p`, completes to what
/// the whole of `argv` says once the rest is read. `width`, `height` and
/// `style` are the texts last given to those options.
pub open spec fn read_so_far(
    acc: Args,
    width: Option<Seq<char>>,
    height: Option<Seq<char>>,
    style: Option<Seq<char>>,
    argv: Seq<Seq<char>>,
    p: nat,
) -> bool {
    &&& value_of(argv, 0, 10) == later_or(value_of(argv, p, 10), opt_text(acc.set))
    &&& value_of(argv, 0, 11) == later_or(value_of(argv, p, 11), opt_text(acc.animation))
    &&& value_of(argv, 0, 12) == later_or(value_of(argv, p, 12), opt_text(acc.fps))
    &&& value_of(argv, 0, 13) == later_or(value_of(argv, p, 13), width)
    &&& acc.width == number_of(width)
    &&& value_of(argv, 0, 14) == later_or(value_of(argv, p, 14), style)
    &&& acc.style == style_of(style)
    &&& value_of(argv, 0, 15) == later_or(value_of(argv, p, 15), height)
    &&& acc.height == number_of(height)
    &&& value_of(argv, 0, 16) == later_or(value_of(argv, p, 16), opt_text(acc.seconds))
    &&& flag_of(argv, 0, 3) == (acc.once || flag_of(argv, p, 3))
    &&& flag_of(argv, 0, 4) == (acc.play || flag_of(argv, p, 4))
    &&& flag_of(argv, 0, 5) == (acc.pin || flag_of(argv, p, 5))
    &&& flag_of(argv, 0, 6) == (acc.unpin || flag_of(argv, p, 6))
    &&& flag_of(argv, 0, 7) == (acc.list || flag_of(argv, p, 7))
    &&& flag_of(argv, 0, 8) == (acc.no_color || flag_of(argv, p, 8))
    &&& flag_of(argv, 0, 9) == (acc.palette || flag_of(argv, p, 9))
}

fn is_lit(a: &[char], lit: &str) -> (r: bool)
    ensures
        r == (a@ == lit@),
{
    let l = chars_of(lit);
    same_chars(a, l.as_slice())
}

/// Which option `a` is (see [`code_of`]).
fn option_code(a: &str) -> (c: u8)
    ensures
        c as nat == code_of(a@),
{
    let s = chars_of(a);
    let s = s.as_slice();
    if is_lit(s, "-h") || is_lit(s, "--help") {
        1
    } else if is_lit(s, "-V") || is_lit(s, "--version") {
        2
    } else if is_lit(s, "-1") || is_lit(s, "--once") {
        3
    } else if is_lit(s, "-p") || is_lit(s, "--play") {
        4
    } else if is_lit(s, "--pin") {
        5
    } else if is_lit(s, "--unpin") {
        6
    } else if is_lit(s, "-l") || is_lit(s, "--list") {
        7
    } else if is_lit(s, "--no-color") {
        8
    } else if is_lit(s, "--palette") {
        9
    } else if is_lit(s, "--set") {
        10
    } else if is_lit(s, "-a") || is_lit(s, "--animation") {
        11
    } else if is_lit(s, "-f") || is_lit(s, "--fps") {
        12
    } else if is_lit(s, "-W") || is_lit(s, "--width") {
        13
    } else if is_lit(s, "--style") {
        14
    } else if is_lit(s, "-H") || is_lit(s, "--height") {
        15
    } else if is_lit(s, "-s") || is_lit(s, "--seconds") {
        16
    } else {
        0
    }
}

/// The message for a value option with nothing after it.
fn needs(code: u8) -> (m: String)
    requires
        code >= 10,
    ensures
        m@ == needs_message(code as nat),
{
    if code == 10 {
        "--set needs an animation name".to_owned()
    } else if code == 11 {
        "--animation needs a name".to_owned()
    } else if code == 12 {
        "--fps needs a number".to_owned()
    } else if code == 13 {
        "--width needs a number of columns".to_owned()
    } else if code == 14 {
        "--style needs half, quad, or ramp".to_owned()
    } else if code == 15 {
        "--height needs a number of rows".to_owned()
    } else {
        "--seconds needs a number".to_owned()
    }
}

/// `prefix` then `v`.
fn message(prefix: &str, v: &str) -> (m: String)
    ensures
        m@ == prefix@ + v@,
{
    let mut m = prefix.to_owned();
    push_str(&mut m, v);
    m
}

/// The style `v` names.
fn style_from(v: &str) -> (r: Option<Style>)
    ensures
        r == style_named(v@),
{
    let s = chars_of(v);
    if is_lit(s.as_slice(), "half") {
        Some(Style::Half)
    } else if is_lit(s.as_slice(), "quad") {
        Some(Style::Quad)
    } else if is_lit(s.as_slice(), "ramp") {
        Some(Style::Ramp)
    } else {
        None
    }
}

/// `v` as a `usize`.
fn number_from(v: &str) -> (r: Option<usize>)
    ensures
        match parse_uint(v@, usize::MAX as nat) {
            Some(n) => r == Some(n as usize),
            None => r is None,
        },
{
    let s = chars_of(v);
    match parse_u64(s.as_slice(), usize::MAX as u64) {
        Some(n) => Some(n as usize),
        None => None,
    }
}

impl Args {
    /// Reads the arguments after the program name. `numeric[i]` says whether
    /// `argv[i]` reads as a fractional number, which `--fps` and `--seconds`
    /// values must. The first help or version request, or the first error,
    /// ends the reading.
    pub fn parse(argv: &[String], numeric: &[bool]) -> (r: Result<Command, String>)
        requires
            argv@.len() == numeric@.len(),
        ensures
            stop_at(arg_texts(argv@), numeric@, 0).0 == 0 ==> (r matches Ok(Command::Run(a)) && args_from(a, arg_texts(argv@))),
            stop_at(arg_texts(argv@), numeric@, 0).0 == 1 ==> (r matches Ok(Command::Help)),
            stop_at(arg_texts(argv@), numeric@, 0).0 == 2 ==> (r matches Ok(Command::Version)),
            stop_at(arg_texts(argv@), numeric@, 0).0 == 3 ==> (r matches Err(m) && m@ == stop_at(arg_texts(argv@), numeric@, 0).1),
    {
        let ghost av = arg_texts(argv@);
        let mut acc = Args {
            animation: None,
            fps: None,
            style: None,
            width: None,
            height: None,
            play: false,
            pin: false,
            unpin: false,
            seconds: None,
            list: false,
            set: None,
            once: false,
            no_color: false,
            palette: false,
        };
        let ghost mut wt: Option<Seq<char>> = None;
        let ghost mut ht: Option<Seq<char>> = None;
        let ghost mut st: Option<Seq<char>> = None;
        let mut i: usize = 0;
        while i < argv.len()
            invariant
                i <= argv@.len(),
                av == arg_texts(argv@),
                numeric@.len() == argv@.len(),
                stop_at(av, numeric@, i as nat) == stop_at(av, numeric@, 0),
                read_so_far(acc, wt, ht, st, av, i as nat),
            decreases argv@.len() - i,
        {
            let a = argv[i].as_str();
            let code = option_code(a);
            assert(av[i as int] == a@);
            if code == 1 {
                return Ok(Command::Help);
            } else if code == 2 {
                return Ok(Command::Version);
            } else if code == 0 {
                return Err(message("unknown option: ", a));
            } else if code < 10 {
                if code == 3 {
                    acc.once = true;
                } else if code == 4 {
                    acc.play = true;
                } else if code == 5 {
                    acc.pin = true;
                } else if code == 6 {
                    acc.unpin = true;
                } else if code == 7 {
                    acc.list = true;
                } else if code == 8 {
                    acc.no_color = true;
                } else {
                    acc.palette = true;
                }
                i = i + 1;
            } else {
                if i + 1 >= argv.len() {
                    return Err(needs(code));
                }
                let v = argv[i + 1].as_str();
                assert(av[i + 1] == v@);
                if code == 12 || code == 16 {
                    if !numeric[i + 1] {
                        return Err(message("not a number: ", v));
                    }
                    if code == 12 {
                        acc.fps = Some(v.to_owned());
                    } else {
                        acc.seconds = Some(v.to_owned());
                    }
                } else if code == 13 || code == 15 {
                    let n = match number_from(v) {
                        Some(n) => n,
                        None => return Err(message("not a number: ", v)),
                    };
                    if code == 13 {
                        acc.width = Some(n);
                        proof {
                            wt = Some(v@);
                        }
                    } else {
                        acc.height = Some(n);
                        proof {
                            ht = Some(v@);
                        }
                    }
                } else if code == 14 {
                    let chosen = match style_from(v) {
                        Some(s) => s,
                        None => {
                            let mut m = message("unknown style: ", v);
                            push_str(&mut m, " (half, quad, or ramp)");
                            return Err(m);
                        },
                    };
                    acc.style = Some(chosen);
                    proof {
                        st = Some(v@);
                    }
                } else if code == 10 {
                    acc.set = Some(v.to_owned());
                } else {
                    acc.animation = Some(v.to_owned());
                }
                i = i + 2;
            }
        }
        Ok(Command::Run(acc))
    }

    /// Apply the overrides the configuration holds. The fractional ones
    /// (`fps`, `seconds`) are the caller's.
    pub fn apply(&self, cfg: &mut Config)
        ensures
            final(cfg).animation@ == match self.animation {
                Some(name) => name@,
                None => old(cfg).animation@,
            },
            final(cfg).style == match self.style {
                Some(s) => s,
                None => old(cfg).style,
            },
            final(cfg).width == match self.width {
                Some(w) => w,
                None => old(cfg).width,
            },
            final(cfg).height == match self.height {
                Some(h) => h,
                None => old(cfg).height,
            },
            final(cfg).color == (old(cfg).color && !self.no_color),
            final(cfg).color_source == if self.palette {
                ColorSource::Palette
            } else {
                old(cfg).color_source
            },
            final(cfg).art_color == old(cfg).art_color,
            final(cfg).ramp == old(cfg).ramp,
            final(cfg).gradient == old(cfg).gradient,
            final(cfg).gradient_scroll == old(cfg).gradient_scroll,
            final(cfg).accent == old(cfg).accent,
            final(cfg).value == old(cfg).value,
            final(cfg).palette_files == old(cfg).palette_files,
            final(cfg).palette_accent == old(cfg).palette_accent,
            final(cfg).palette_value == old(cfg).palette_value,
            final(cfg).palette_gradient == old(cfg).palette_gradient,
            final(cfg).gap == old(cfg).gap,
            final(cfg).modules == old(cfg).modules,
    {
        if let Some(name) = &self.animation {
            cfg.animation = name.clone();
        }
        if let Some(style) = self.style {
            cfg.style = style;
        }
        if let Some(width) = self.width {
            cfg.width = width;
        }
        if let Some(height) = self.height {
            cfg.height = height;
        }
        if self.no_color {
            cfg.color = false;
        }
        if self.palette {
            cfg.color_source = ColorSource::Palette;
        }
    }
}

} // verus!
