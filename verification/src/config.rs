//! User configuration. A missing or malformed file is never fatal: the caller
//! falls back to [`Config::default`] and reports the problem afterwards.
//!
//! The frame rate and the `--play` duration are fractional and stay with the
//! program that reads the file; everything the drawing code consults is here.

use vstd::prelude::*;
use crate::anim::{Ink, DEFAULT_NAME};
use crate::color::{Color, Gradient, Rgb};
use crate::text::chars_of;

verus! {

broadcast use vstd::string::group_string_axioms;

/// How the art is drawn.
#[derive(Debug, Clone, Copy, PartialEq, Eq, Structural)]
pub enum Style {
    /// Half blocks: two vertical samples per cell, solid glyphs only.
    Half,
    /// Quadrant blocks: 2x2 samples per cell, for art with fine detail.
    Quad,
    /// A density ramp, configured by `ramp`. Use for a classic ASCII look.
    Ramp,
    /// The art's own characters, unresampled. For hand-drawn ASCII whose
    /// glyphs are the picture rather than a coverage mask.
    Raw,
}

/// Where the accent, value and gradient colours come from.
#[derive(Debug, Clone, Copy, PartialEq, Eq, Structural)]
pub enum ColorSource {
    /// The `accent`, `value` and `gradient` keys.
    Config,
    /// A palette file from matugen, pywal or wallust. Undefined roles fall back
    /// to the keys, so this can only add colour, never remove it.
    Palette,
}

/// Where raw art gets its colour, when its frames carry SGR colours of their
/// own.
#[derive(Debug, Clone, Copy, PartialEq, Eq, Structural)]
pub enum ArtColor {
    /// The colours embedded in the frames.
    Own,
    /// Ignore the embedded colours; the gradient paints the art like plain art.
    Theme,
}

/// Which rows appear in the info pane, in order.
#[derive(Debug, Clone, Copy, PartialEq, Eq, Structural)]
pub enum Module {
    Os,
    Host,
    Kernel,
    Uptime,
    Packages,
    Shell,
    Wm,
    Terminal,
    Cpu,
    Memory,
    Swap,
    Disk,
    /// The classic 8-swatch terminal palette strip.
    Colors,
}

#[derive(Debug, Clone)]
pub struct Config {
    /// Directory name under `<config>/anim/`, or the bundled animation.
    pub animation: String,
    /// How the art is drawn. `ramp` only applies when this is `Ramp`.
    pub style: Style,
    /// Where raw art's colour comes from: the file's own, or the theme's.
    pub art_color: ArtColor,
    /// Density ramp, lowest coverage first.
    pub ramp: String,
    /// Vertical colour ramp applied down the art.
    pub gradient: Gradient,
    /// Scroll the gradient through the art as it animates.
    pub gradient_scroll: bool,
    /// Colour for `user@host` and info labels.
    pub accent: Color,
    /// Colour for info values.
    pub value: Color,
    /// Take the colours above as written, or look them up in a palette file.
    pub color_source: ColorSource,
    /// Candidate palette files, preferred first. `~/` is expanded.
    pub palette_files: Vec<String>,
    /// Names to look up in that file. Anything missing keeps the fixed colour.
    pub palette_accent: String,
    pub palette_value: String,
    /// Gradient stops, in order. An empty result keeps `gradient`.
    pub palette_gradient: Vec<String>,
    /// Blank columns between the art and the info pane.
    pub gap: usize,
    /// Largest box the art may occupy, aspect ratio kept. 0 means fill.
    pub width: usize,
    pub height: usize,
    /// Emit colour. Forced off when piped or when `NO_COLOR` is set.
    pub color: bool,
    pub modules: Vec<Module>,
}

/// The gradient a fresh configuration paints with, warm to cool.
pub open spec fn default_stops() -> Seq<Rgb> {
    seq![
        Rgb(0xf5, 0xc9, 0x5c),
        Rgb(0xf1, 0x7f, 0x5b),
        Rgb(0xf4, 0x5c, 0x82),
        Rgb(0xb0, 0x7c, 0xf4),
        Rgb(0x74, 0xa4, 0xff),
    ]
}

/// Every module, in the order a fresh configuration shows them.
pub open spec fn default_modules() -> Seq<Module> {
    seq![
        Module::Os,
        Module::Host,
        Module::Kernel,
        Module::Uptime,
        Module::Packages,
        Module::Shell,
        Module::Wm,
        Module::Terminal,
        Module::Cpu,
        Module::Memory,
        Module::Swap,
        Module::Disk,
        Module::Colors,
    ]
}

/// The density ramp a fresh configuration uses.
pub open spec fn default_ramp() -> Seq<char> {
    seq![' ', '░', '▒', '▓', '█']
}

/// A cap of 0 means "fill what is available"; any other cap is never exceeded
/// and never exceeds what is available.
pub open spec fn capped(cap: nat, available: nat) -> nat {
    if cap == 0 {
        available
    } else if cap < available {
        cap
    } else {
        available
    }
}

/// The ramp used for drawing: the configured one, or a two-step fallback when
/// that is empty.
pub open spec fn ramp_chars(ramp: Seq<char>) -> Seq<char> {
    if ramp.len() == 0 {
        seq![' ', '█']
    } else {
        ramp
    }
}

impl Default for Config {
    fn default() -> (c: Self)
        ensures
            c.animation@ == DEFAULT_NAME@,
            c.style == Style::Half,
            c.art_color == ArtColor::Own,
            c.ramp@ == default_ramp(),
            c.gradient.stops_view() == default_stops(),
            !c.gradient_scroll,
            c.accent.0 == Rgb(0x74, 0xa4, 0xff),
            c.value.0 == Rgb(0xc8, 0xcc, 0xd4),
            c.color_source == ColorSource::Config,
            c.palette_files@.len() == 3,
            c.palette_files@[0]@ == "~/.local/state/quickshell/user/generated/colors.json"@,
            c.palette_files@[1]@ == "~/.cache/wal/colors.json"@,
            c.palette_files@[2]@ == "~/.cache/wallust/colors.json"@,
            c.palette_accent@ == "primary"@,
            c.palette_value@ == "on_surface"@,
            c.palette_gradient@.len() == 3,
            c.palette_gradient@[0]@ == "primary"@,
            c.palette_gradient@[1]@ == "secondary"@,
            c.palette_gradient@[2]@ == "tertiary"@,
            c.gap == 4,
            c.width == 56,
            c.height == 20,
            c.color,
            c.modules@ == default_modules(),
    {
        let ramp = " ░▒▓█".to_owned();
        proof {
            reveal_strlit(" ░▒▓█");
        }
        assert(ramp@ =~= default_ramp());
        let stops = vec![
            Rgb(0xf5, 0xc9, 0x5c),
            Rgb(0xf1, 0x7f, 0x5b),
            Rgb(0xf4, 0x5c, 0x82),
            Rgb(0xb0, 0x7c, 0xf4),
            Rgb(0x74, 0xa4, 0xff),
        ];
        assert(stops@ =~= default_stops());
        let modules = vec![
            Module::Os,
            Module::Host,
            Module::Kernel,
            Module::Uptime,
            Module::Packages,
            Module::Shell,
            Module::Wm,
            Module::Terminal,
            Module::Cpu,
            Module::Memory,
            Module::Swap,
            Module::Disk,
            Module::Colors,
        ];
        assert(modules@ =~= default_modules());
        Config {
            animation: DEFAULT_NAME.to_owned(),
            style: Style::Half,
            art_color: ArtColor::Own,
            ramp,
            gradient: Gradient::new(stops),
            // Off by default: a gradient that crawls through the art draws the
            // eye away from the terminal, which is the thing you are meant to
            // be looking at.
            gradient_scroll: false,
            accent: Color(Rgb(0x74, 0xa4, 0xff)),
            value: Color(Rgb(0xc8, 0xcc, 0xd4)),
            // Off by default, so an update never repaints someone's fetch.
            color_source: ColorSource::Config,
            palette_files: vec![
                "~/.local/state/quickshell/user/generated/colors.json".to_owned(),
                "~/.cache/wal/colors.json".to_owned(),
                "~/.cache/wallust/colors.json".to_owned(),
            ],
            // Material You names. pywal/wallust use `color0`..`color15`.
            palette_accent: "primary".to_owned(),
            palette_value: "on_surface".to_owned(),
            palette_gradient: vec!["primary".to_owned(), "secondary".to_owned(), "tertiary".to_owned()],
            gap: 4,
            // About the size of a distro logo in a conventional fetch.
            width: 56,
            height: 20,
            color: true,
            modules,
        }
    }
}

impl Config {
    /// Columns the art may occupy, given how many are actually available.
    pub fn width(&self, available: usize) -> (r: usize)
        ensures
            r == capped(self.width as nat, available as nat),
            r <= available,
    {
        if self.width == 0 {
            available
        } else if self.width < available {
            self.width
        } else {
            available
        }
    }

    /// Rows the fetch may occupy, given how many are actually available.
    pub fn height(&self, available: usize) -> (r: usize)
        ensures
            r == capped(self.height as nat, available as nat),
            r <= available,
    {
        if self.height == 0 {
            available
        } else if self.height < available {
            self.height
        } else {
            available
        }
    }

    /// The density ramp as characters, never empty.
    pub fn ramp(&self) -> (r: Vec<char>)
        ensures
            r@ == ramp_chars(self.ramp@),
            r@.len() > 0,
    {
        let ramp = chars_of(self.ramp.as_str());
        if ramp.len() == 0 {
            vec![' ', '█']
        } else {
            ramp
        }
    }

    /// How to turn coverage into glyphs, for the configured style. Raw art
    /// keeps its own colours only when colour is on and the theme does not
    /// take over.
    pub fn ink<'a>(&self, ramp: &'a [char]) -> (r: Ink<'a>)
        ensures
            self.style == Style::Half ==> r == Ink::Half,
            self.style == Style::Quad ==> r == Ink::Quad,
            self.style == Style::Ramp ==> r == Ink::Ramp(ramp),
            self.style == Style::Raw ==> r == (Ink::Raw { color: self.color && self.art_color == ArtColor::Own }),
    {
        match self.style {
            Style::Half => Ink::Half,
            Style::Quad => Ink::Quad,
            Style::Ramp => Ink::Ramp(ramp),
            // `Theme` hands the art back plain, so the gradient applies to it
            // exactly as it would to escape-free art.
            Style::Raw => Ink::Raw { color: self.color && self.art_color == ArtColor::Own },
        }
    }
}

} // verus!
