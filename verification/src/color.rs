//! Truecolor helpers. Raw SGR escapes, not terminal commands, so colour lives
//! in the line strings and the frame diff catches colour changes for free.

use vstd::prelude::*;
use crate::text::{
    chars_of, dec, parse_u64, parse_uint, slice_of, split_chars, split_on, trim, trimmed,
};

verus! {

broadcast use vstd::string::group_string_axioms;

/// A 24-bit colour.
#[derive(Debug, Clone, Copy, PartialEq, Eq, Structural)]
pub struct Rgb(pub u8, pub u8, pub u8);

/// The escape character.
pub open spec fn esc() -> char {
    '\x1b'
}

/// `\x1b[0m`, which resets every attribute.
pub open spec fn reset_seq() -> Seq<char> {
    seq![esc(), '[', '0', 'm']
}

/// `\x1b[38;2;R;G;Bm`, the truecolor foreground sequence for `c`.
pub open spec fn fg_seq(c: Rgb) -> Seq<char> {
    seq![esc(), '[', '3', '8', ';', '2', ';'] + dec(c.0 as nat) + seq![';'] + dec(c.1 as nat) + seq![';']
        + dec(c.2 as nat) + seq!['m']
}

impl Rgb {
    /// Appends the SGR foreground sequence, e.g. `\x1b[38;2;255;0;0m`.
    pub fn fg(self, out: &mut String)
        ensures
            final(out)@ == old(out)@ + fg_seq(self),
    {
        let Rgb(r, g, b) = self;
        out.push('\x1b');
        out.push('[');
        out.push('3');
        out.push('8');
        out.push(';');
        out.push('2');
        out.push(';');
        push_dec(out, r);
        out.push(';');
        push_dec(out, g);
        out.push(';');
        push_dec(out, b);
        out.push('m');
        assert(out@ =~= old(out)@ + fg_seq(self));
    }
}

/// Appends a byte in decimal, shortest form.
fn push_dec(out: &mut String, n: u8)
    ensures
        final(out)@ == old(out)@ + dec(n as nat),
{
    crate::text::push_dec(out, n as u64);
}

/// Appends `\x1b[0m`.
pub fn push_reset(out: &mut String)
    ensures
        final(out)@ == old(out)@ + reset_seq(),
{
    out.push('\x1b');
    out.push('[');
    out.push('0');
    out.push('m');
    assert(out@ =~= old(out)@ + reset_seq());
}

/// What one `\x1b[...m` sequence asks for.
#[derive(Debug)]
pub enum Sgr {
    Reset,
    Fg(Rgb),
    Ignore,
}

/// The parameters `s` spell as a byte, if they do.
pub open spec fn byte_of(s: Seq<char>) -> Option<u8> {
    match parse_uint(s, 255) {
        Some(v) => Some(v as u8),
        None => None,
    }
}

/// What the parameters of an SGR sequence ask for. No parameters, or `0`,
/// reset; `38;2;R;G;B` sets a truecolor foreground; everything else (bold,
/// 256-colour, the default foreground) is ignored.
pub open spec fn sgr_of(params: Seq<char>) -> Sgr {
    let parts = split_on(params, ';');
    let first = parts[0];
    if first == Seq::<char>::empty() || first == seq!['0'] {
        Sgr::Reset
    } else if first == seq!['3', '8'] {
        if parts.len() == 5 && parts[1] == seq!['2'] && byte_of(parts[2]) is Some && byte_of(parts[3]) is Some
            && byte_of(parts[4]) is Some {
            Sgr::Fg(Rgb(byte_of(parts[2])->0, byte_of(parts[3])->0, byte_of(parts[4])->0))
        } else {
            Sgr::Ignore
        }
    } else {
        Sgr::Ignore
    }
}

fn byte(s: &[char]) -> (r: Option<u8>)
    ensures
        r == byte_of(s@),
{
    match parse_u64(s, 255) {
        Some(v) => Some(v as u8),
        None => None,
    }
}

/// Reads the parameters of one SGR sequence.
pub fn parse_sgr(params: &str) -> (r: Sgr)
    ensures
        r == sgr_of(params@),
{
    let chars = chars_of(params);
    let parts = split_chars(chars.as_slice(), ';');
    assert(parts@.len() >= 1);
    let first = parts[0].as_slice();
    if first.len() == 0 || (first.len() == 1 && first[0] == '0') {
        assert(first@ == Seq::<char>::empty() || first@ =~= seq!['0']);
        return Sgr::Reset;
    }
    assert(first@ != Seq::<char>::empty());
    assert(first@ != seq!['0']) by {
        if first@ == seq!['0'] {
            assert(first@.len() == 1);
        }
    }
    if first.len() == 2 && first[0] == '3' && first[1] == '8' {
        assert(first@ =~= seq!['3', '8']);
        if parts.len() == 5 && parts[1].len() == 1 && parts[1][0] == '2' {
            assert(parts@[1]@ =~= seq!['2']);
            let r = byte(parts[2].as_slice());
            let g = byte(parts[3].as_slice());
            let b = byte(parts[4].as_slice());
            match (r, g, b) {
                (Some(r), Some(g), Some(b)) => Sgr::Fg(Rgb(r, g, b)),
                _ => Sgr::Ignore,
            }
        } else {
            assert(parts@.len() != 5 || parts@[1]@ != seq!['2']) by {
                if parts@.len() == 5 && parts@[1]@ == seq!['2'] {
                    assert(parts@[1]@.len() == 1);
                }
            }
            Sgr::Ignore
        }
    } else {
        assert(first@ != seq!['3', '8']) by {
            if first@ == seq!['3', '8'] {
                assert(first@.len() == 2 && first@[0] == '3' && first@[1] == '8');
            }
        }
        Sgr::Ignore
    }
}

/// ASCII letter: what ends an escape sequence.
pub open spec fn is_alpha(c: char) -> bool {
    ('a' <= c <= 'z') || ('A' <= c <= 'Z')
}

/// What follows an escape sequence whose introducer has been read: everything
/// after the first ASCII letter, or nothing if there is none.
pub open spec fn after_escape(s: Seq<char>) -> Seq<char>
    decreases s.len(),
{
    if s.len() == 0 {
        s
    } else if is_alpha(s[0]) {
        s.drop_first()
    } else {
        after_escape(s.drop_first())
    }
}

pub proof fn lemma_after_escape_shorter(s: Seq<char>)
    ensures
        after_escape(s).len() <= s.len(),
    decreases s.len(),
{
    if s.len() > 0 && !is_alpha(s[0]) {
        lemma_after_escape_shorter(s.drop_first());
    }
}

/// `s` with every escape sequence removed.
pub open spec fn strip(s: Seq<char>) -> Seq<char>
    decreases s.len(),
{
    if s.len() == 0 {
        s
    } else if s[0] == esc() {
        proof {
            lemma_after_escape_shorter(s.drop_first());
        }
        strip(after_escape(s.drop_first()))
    } else {
        seq![s[0]] + strip(s.drop_first())
    }
}

/// Whether `c` is an ASCII letter.
pub fn is_ascii_alphabetic(c: char) -> (r: bool)
    ensures
        r == is_alpha(c),
{
    ('a' <= c && c <= 'z') || ('A' <= c && c <= 'Z')
}

/// Removes every ANSI escape sequence, leaving only printable characters.
pub fn strip_sgr(text: &str) -> (out: String)
    ensures
        out@ == strip(text@),
{
    let s = chars_of(text);
    strip_chars(s.as_slice())
}

/// The characters of `s` without their escape sequences.
pub fn strip_chars(s: &[char]) -> (out: String)
    ensures
        out@ == strip(s@),
{
    let n = s.len();
    let mut out = String::new();
    let mut i: usize = 0;
    assert(s@.skip(0) =~= s@);
    while i < n
        invariant
            n == s@.len(),
            i <= n,
            out@ + strip(s@.skip(i as int)) == strip(s@),
        decreases n - i,
    {
        let c = s[i];
        let ghost rest = s@.skip(i as int);
        assert(rest[0] == c);
        assert(rest.drop_first() =~= s@.skip(i + 1));
        i = i + 1;
        if c == '\x1b' {
            let ghost start = i;
            loop
                invariant_except_break
                    n == s@.len(),
                    start <= i <= n,
                    after_escape(s@.skip(start as int)) == after_escape(s@.skip(i as int)),
                ensures
                    start <= i <= n,
                    after_escape(s@.skip(start as int)) == s@.skip(i as int),
                decreases n - i,
            {
                if i == n {
                    assert(s@.skip(n as int) =~= Seq::<char>::empty());
                    break;
                }
                let d = s[i];
                assert(s@.skip(i as int)[0] == d);
                assert(s@.skip(i as int).drop_first() =~= s@.skip(i + 1));
                i = i + 1;
                if is_ascii_alphabetic(d) {
                    break;
                }
            }
        } else {
            let ghost before = out@;
            out.push(c);
            assert(strip(rest) == seq![c] + strip(s@.skip(i as int)));
            assert(out@ + strip(s@.skip(i as int)) =~= before + strip(rest));
        }
    }
    assert(s@.skip(n as int) =~= Seq::<char>::empty());
    assert(out@ + strip(s@.skip(n as int)) =~= out@);
    out
}

/// The value of hexadecimal digit `c`, either case.
pub open spec fn hex_value(c: char) -> Option<u8> {
    if '0' <= c <= '9' {
        Some((c as u32 - '0' as u32) as u8)
    } else if 'a' <= c <= 'f' {
        Some((c as u32 - 'a' as u32 + 10) as u8)
    } else if 'A' <= c <= 'F' {
        Some((c as u32 - 'A' as u32 + 10) as u8)
    } else {
        None
    }
}

/// `s` without any leading `#`.
pub open spec fn drop_hashes(s: Seq<char>) -> Seq<char>
    decreases s.len(),
{
    if s.len() > 0 && s[0] == '#' {
        drop_hashes(s.drop_first())
    } else {
        s
    }
}

/// Every character of `s` is a hexadecimal digit.
pub open spec fn all_hex(s: Seq<char>) -> bool {
    forall|k: int| 0 <= k < s.len() ==> #[trigger] hex_value(s[k]) is Some
}

/// The colour `#rgb`, `#rrggbb`, or either without the `#`, surrounded by
/// any white space, names. `#abc` stands for `#aabbcc`.
pub open spec fn hex_color(s: Seq<char>) -> Option<Rgb> {
    let t = drop_hashes(trim(s));
    if t.len() == 3 && all_hex(t) {
        Some(
            Rgb(
                (hex_value(t[0])->0 * 17) as u8,
                (hex_value(t[1])->0 * 17) as u8,
                (hex_value(t[2])->0 * 17) as u8,
            ),
        )
    } else if t.len() == 6 && all_hex(t) {
        Some(
            Rgb(
                (hex_value(t[0])->0 * 16 + hex_value(t[1])->0) as u8,
                (hex_value(t[2])->0 * 16 + hex_value(t[3])->0) as u8,
                (hex_value(t[4])->0 * 16 + hex_value(t[5])->0) as u8,
            ),
        )
    } else {
        None
    }
}

/// The value of a hexadecimal digit.
pub fn to_digit16(c: char) -> (r: Option<u8>)
    ensures
        r == hex_value(c),
        r matches Some(v) ==> v < 16,
{
    if '0' <= c && c <= '9' {
        Some((c as u32 - '0' as u32) as u8)
    } else if 'a' <= c && c <= 'f' {
        Some((c as u32 - 'a' as u32 + 10) as u8)
    } else if 'A' <= c && c <= 'F' {
        Some((c as u32 - 'A' as u32 + 10) as u8)
    } else {
        None
    }
}

fn all_hex_digits(t: &[char]) -> (r: bool)
    ensures
        r == all_hex(t@),
{
    let mut i: usize = 0;
    while i < t.len()
        invariant
            i <= t@.len(),
            forall|k: int| 0 <= k < i ==> #[trigger] hex_value(t@[k]) is Some,
        decreases t@.len() - i,
    {
        if to_digit16(t[i]).is_none() {
            assert(!(hex_value(t@[i as int]) is Some));
            return false;
        }
        i = i + 1;
    }
    true
}

/// Parses `#rgb`, `#rrggbb`, or either without the `#`.
pub fn parse_hex(s: &str) -> (r: Option<Rgb>)
    ensures
        r == hex_color(s@),
{
    let all = chars_of(s);
    let trimmed_chars = trimmed(all.as_slice());
    let mut k: usize = 0;
    assert(trimmed_chars@.skip(0) =~= trimmed_chars@);
    while k < trimmed_chars.len() && trimmed_chars[k] == '#'
        invariant
            k <= trimmed_chars@.len(),
            drop_hashes(trimmed_chars@.skip(k as int)) == drop_hashes(trimmed_chars@),
        decreases trimmed_chars@.len() - k,
    {
        assert(trimmed_chars@.skip(k as int).drop_first() =~= trimmed_chars@.skip(k + 1));
        k = k + 1;
    }
    proof {
        if k == 0 {
            assert(trimmed_chars@.skip(0) =~= trimmed_chars@);
        }
    }
    let t = slice_of(trimmed_chars.as_slice(), k, trimmed_chars.len());
    assert(t@ =~= trimmed_chars@.skip(k as int));
    assert(t@ == drop_hashes(trim(s@)));
    if !all_hex_digits(t.as_slice()) {
        return None;
    }
    if t.len() == 3 {
        assert(hex_value(t@[0]) is Some && hex_value(t@[1]) is Some && hex_value(t@[2]) is Some);
        let r = to_digit16(t[0]).unwrap();
        let g = to_digit16(t[1]).unwrap();
        let b = to_digit16(t[2]).unwrap();
        Some(Rgb(r * 17, g * 17, b * 17))
    } else if t.len() == 6 {
        assert(hex_value(t@[0]) is Some && hex_value(t@[1]) is Some && hex_value(t@[2]) is Some);
        assert(hex_value(t@[3]) is Some && hex_value(t@[4]) is Some && hex_value(t@[5]) is Some);
        let r1 = to_digit16(t[0]).unwrap();
        let r0 = to_digit16(t[1]).unwrap();
        let g1 = to_digit16(t[2]).unwrap();
        let g0 = to_digit16(t[3]).unwrap();
        let b1 = to_digit16(t[4]).unwrap();
        let b0 = to_digit16(t[5]).unwrap();
        Some(Rgb(r1 * 16 + r0, g1 * 16 + g0, b1 * 16 + b0))
    } else {
        None
    }
}

/// A colour ramp sampled by position. Bad hex entries are dropped before it
/// is built, so one typo in a config doesn't cost you the animation.
#[derive(Debug, Clone)]
pub struct Gradient {
    stops: Vec<Rgb>,
}

/// Channel `a` moved a fraction `p / den` of the way to `b`, rounded to the
/// nearest integer, halves away from zero.
pub open spec fn mix(a: u8, b: u8, p: nat, den: nat) -> u8 {
    let numer = a * den + (b - a) * p;
    ((2 * numer + den) / (2 * den as int)) as u8
}

/// The colour a fraction `num / den` along `stops` (past the end counts as
/// the end), interpolating between adjacent stops.
pub open spec fn sample_of(stops: Seq<Rgb>, num: nat, den: nat) -> Option<Rgb> {
    let n = stops.len();
    if n == 0 {
        None
    } else if n == 1 {
        Some(stops[0])
    } else {
        let t = if num > den {
            den
        } else {
            num
        };
        let pos = t * (n - 1) as nat;
        let i = if pos / den > n - 2 {
            (n - 2) as nat
        } else {
            pos / den
        };
        let p = (pos - i * den) as nat;
        let (a, b) = (stops[i as int], stops[i + 1int]);
        Some(Rgb(mix(a.0, b.0, p, den), mix(a.1, b.1, p, den), mix(a.2, b.2, p, den)))
    }
}

proof fn lemma_mix_bounds(a: int, b: int, p: int, den: int)
    requires
        0 <= a <= 255,
        0 <= b <= 255,
        0 <= p <= den,
        den > 0,
    ensures
        0 <= a * den + (b - a) * p <= 255 * den,
        (2 * (a * den + (b - a) * p) + den) / (2 * den) <= 255,
{
    assert(0 <= a * den + (b - a) * p <= 255 * den) by (nonlinear_arith)
        requires
            0 <= a <= 255,
            0 <= b <= 255,
            0 <= p <= den,
            den > 0,
    ;
    let numer = a * den + (b - a) * p;
    assert((2 * numer + den) / (2 * den) <= 255) by (nonlinear_arith)
        requires
            0 <= numer <= 255 * den,
            den > 0,
    ;
}

fn mix_channel(a: u8, b: u8, p: u128, den: u128) -> (r: u8)
    requires
        den > 0,
        p <= den,
        den <= u64::MAX,
    ensures
        r == mix(a, b, p as nat, den as nat),
{
    proof {
        lemma_mix_bounds(a as int, b as int, p as int, den as int);
        assert((a as int) * (den as int) <= 255 * u64::MAX) by (nonlinear_arith)
            requires
                a <= 255,
                den <= u64::MAX,
        ;
        if a >= b {
            assert((a as int) * (den as int) >= (a as int - b as int) * (p as int)) by (nonlinear_arith)
                requires
                    a <= 255,
                    b <= 255,
                    a >= b,
                    p <= den,
            ;
        }
    }
    let numer: u128 = if b >= a {
        (a as u128) * den + ((b - a) as u128) * p
    } else {
        (a as u128) * den - ((a - b) as u128) * p
    };
    assert(numer as int == (a as int) * (den as int) + ((b as int) - (a as int)) * (p as int)) by (nonlinear_arith)
        requires
            b >= a ==> numer as int == (a as int) * (den as int) + ((b - a) as int) * (p as int),
            b < a ==> numer as int == (a as int) * (den as int) - ((a - b) as int) * (p as int),
    ;
    ((2 * numer + den) / (2 * den)) as u8
}

impl Gradient {
    /// The stops, in order.
    pub closed spec fn stops_view(&self) -> Seq<Rgb> {
        self.stops@
    }

    pub fn new(stops: Vec<Rgb>) -> (g: Self)
        ensures
            g.stops_view() == stops@,
    {
        Self { stops }
    }

    pub fn is_empty(&self) -> (r: bool)
        ensures
            r == (self.stops_view().len() == 0),
    {
        self.stops.len() == 0
    }

    /// The stops, in order.
    pub fn stops(&self) -> (r: &[Rgb])
        ensures
            r@ == self.stops_view(),
    {
        self.stops.as_slice()
    }

    /// Sample at the fraction `num / den` of the way along, clamped to the
    /// end, interpolating between adjacent stops.
    pub fn sample_at(&self, num: usize, den: usize) -> (r: Option<Rgb>)
        requires
            den > 0,
        ensures
            r == sample_of(self.stops_view(), num as nat, den as nat),
    {
        let n = self.stops.len();
        if n == 0 {
            return None;
        }
        if n == 1 {
            return Some(self.stops[0]);
        }
        let t: u128 = if num > den {
            den as u128
        } else {
            num as u128
        };
        let d = den as u128;
        proof {
            vstd::arithmetic::mul::lemma_mul_upper_bound(t as int, 0xffff_ffff_ffff_ffff, (n - 1) as int, 0xffff_ffff_ffff_ffff);
        }
        let pos: u128 = t * ((n - 1) as u128);
        let i: u128 = if pos / d > (n - 2) as u128 {
            (n - 2) as u128
        } else {
            pos / d
        };
        proof {
            vstd::arithmetic::div_mod::lemma_fundamental_div_mod(pos as int, d as int);
            assert((i as int) * (d as int) <= pos) by (nonlinear_arith)
                requires
                    i <= pos / d,
                    d > 0,
                    pos as int == d * (pos / d) + pos % d,
                    pos % d >= 0,
            ;
            if pos / d > (n - 2) as u128 {
                assert(t <= d);
                assert(pos - (i as int) * (d as int) <= d) by (nonlinear_arith)
                    requires
                        pos == t * ((n - 1) as int),
                        i == n - 2,
                        t <= d,
                        n >= 2,
                ;
            } else {
                assert(pos - (i as int) * (d as int) < d) by (nonlinear_arith)
                    requires
                        i == pos / d,
                        pos as int == d * (pos / d) + pos % d,
                        pos % d < d,
                ;
            }
        }
        let p = pos - i * d;
        let a = self.stops[i as usize];
        let b = self.stops[i as usize + 1];
        Some(Rgb(mix_channel(a.0, b.0, p, d), mix_channel(a.1, b.1, p, d), mix_channel(a.2, b.2, p, d)))
    }
}

/// A single colour in config position, with the same lenient parsing.
#[derive(Debug, Clone, Copy)]
pub struct Color(pub Rgb);

impl Default for Gradient {
    /// No stops: nothing to paint with.
    fn default() -> (g: Self)
        ensures
            g.stops_view() == Seq::<Rgb>::empty(),
    {
        Gradient { stops: Vec::new() }
    }
}

/// The colours among `raw` that parse, in order.
pub open spec fn parsed_stops(raw: Seq<String>) -> Seq<Rgb>
    decreases raw.len(),
{
    if raw.len() == 0 {
        seq![]
    } else {
        let rest = parsed_stops(raw.drop_last());
        match hex_color(raw.last()@) {
            Some(c) => rest.push(c),
            None => rest,
        }
    }
}

impl Gradient {
    /// A gradient from configured hex strings. Entries that are not colours
    /// are dropped, so one typo in a config doesn't cost you the animation.
    pub fn from_hex_list(raw: &[String]) -> (g: Self)
        ensures
            g.stops_view() == parsed_stops(raw@),
    {
        let mut stops: Vec<Rgb> = Vec::new();
        let mut i: usize = 0;
        while i < raw.len()
            invariant
                i <= raw@.len(),
                stops@ == parsed_stops(raw@.take(i as int)),
            decreases raw@.len() - i,
        {
            assert(raw@.take(i + 1).drop_last() =~= raw@.take(i as int));
            if let Some(c) = parse_hex(raw[i].as_str()) {
                stops.push(c);
            }
            i = i + 1;
        }
        assert(raw@.take(i as int) =~= raw@);
        Gradient { stops }
    }
}

impl Color {
    /// A configured colour, or the message saying why it is not one.
    pub fn from_hex(raw: &str) -> (r: Result<Color, String>)
        ensures
            match hex_color(raw@) {
                Some(c) => r == Ok::<Color, String>(Color(c)),
                None => r matches Err(m) && m@ == "not a hex colour: "@ + crate::text::debug_str(raw@),
            },
    {
        match parse_hex(raw) {
            Some(c) => Ok(Color(c)),
            None => {
                let mut m = "not a hex colour: ".to_owned();
                let quoted = crate::text::debug_quoted(raw);
                crate::text::push_str(&mut m, quoted.as_str());
                Err(m)
            },
        }
    }
}

/// The parameters of the foreground sequence for `c`: `38;2;R;G;B`.
pub open spec fn fg_params(c: Rgb) -> Seq<char> {
    seq!['3', '8', ';', '2', ';'] + dec(c.0 as nat) + seq![';'] + dec(c.1 as nat) + seq![';'] + dec(c.2 as nat)
}

proof fn lemma_dec_has_no(n: nat, c: char)
    requires
        !crate::text::is_digit(c),
    ensures
        forall|k: int| 0 <= k < dec(n).len() ==> dec(n)[k] != c,
{
    crate::text::lemma_dec_digits(n);
    assert forall|k: int| 0 <= k < dec(n).len() implies dec(n)[k] != c by {
        assert(crate::text::is_digit(dec(n)[k]));
    }
}

/// What [`Rgb::fg`] writes reads back, through [`parse_sgr`], as the colour
/// it was written for.
pub proof fn lemma_fg_parses_back(c: Rgb)
    ensures
        fg_seq(c) == seq![esc(), '['] + fg_params(c) + seq!['m'],
        sgr_of(fg_params(c)) == Sgr::Fg(c),
{
    assert(fg_seq(c) =~= seq![esc(), '['] + fg_params(c) + seq!['m']);
    let r = dec(c.0 as nat);
    let g = dec(c.1 as nat);
    let b = dec(c.2 as nat);
    lemma_dec_has_no(c.0 as nat, ';');
    lemma_dec_has_no(c.1 as nat, ';');
    lemma_dec_has_no(c.2 as nat, ';');
    crate::text::lemma_split_whole(b, ';');
    crate::text::lemma_split_joined(g, b, ';');
    crate::text::lemma_split_joined(r, g + seq![';'] + b, ';');
    assert(r + seq![';'] + (g + seq![';'] + b) =~= r + seq![';'] + g + seq![';'] + b);
    crate::text::lemma_split_joined(seq!['2'], r + seq![';'] + g + seq![';'] + b, ';');
    assert(seq!['2'] + seq![';'] + (r + seq![';'] + g + seq![';'] + b) =~= seq!['2', ';'] + r + seq![';'] + g + seq![
        ';'
    ] + b);
    crate::text::lemma_split_joined(seq!['3', '8'], seq!['2', ';'] + r + seq![';'] + g + seq![';'] + b, ';');
    assert(seq!['3', '8'] + seq![';'] + (seq!['2', ';'] + r + seq![';'] + g + seq![';'] + b) =~= fg_params(c));
    let parts = split_on(fg_params(c), ';');
    assert(parts =~= seq![seq!['3', '8'], seq!['2'], r, g, b]);
    crate::text::lemma_parse_dec(c.0 as nat, 255);
    crate::text::lemma_parse_dec(c.1 as nat, 255);
    crate::text::lemma_parse_dec(c.2 as nat, 255);
    assert(seq!['3', '8'] != Seq::<char>::empty());
    assert(seq!['3', '8'] != seq!['0']) by {
        assert(seq!['3', '8'].len() != seq!['0'].len());
    }
}

proof fn lemma_strip_has_no_escape(s: Seq<char>)
    ensures
        forall|k: int| 0 <= k < strip(s).len() ==> strip(s)[k] != esc(),
    decreases s.len(),
{
    if s.len() > 0 {
        if s[0] == esc() {
            lemma_after_escape_shorter(s.drop_first());
            lemma_strip_has_no_escape(after_escape(s.drop_first()));
            assert(strip(s) == strip(after_escape(s.drop_first())));
        } else {
            lemma_strip_has_no_escape(s.drop_first());
            let t = strip(s.drop_first());
            assert forall|k: int| 0 <= k < strip(s).len() implies strip(s)[k] != esc() by {
                if k > 0 {
                    assert(strip(s)[k] == t[k - 1]);
                }
            }
        }
    }
}

proof fn lemma_strip_plain(t: Seq<char>)
    requires
        forall|k: int| 0 <= k < t.len() ==> t[k] != esc(),
    ensures
        strip(t) == t,
    decreases t.len(),
{
    if t.len() > 0 {
        assert forall|k: int| 0 <= k < t.drop_first().len() implies t.drop_first()[k] != esc() by {
            assert(t.drop_first()[k] == t[k + 1]);
        }
        lemma_strip_plain(t.drop_first());
        assert(seq![t[0]] + t.drop_first() =~= t);
    }
}

/// `a` is `b` with some characters left out: each character of `a` is found
/// in `b`, in the same order.
pub open spec fn is_subsequence(a: Seq<char>, b: Seq<char>) -> bool {
    exists|idx: Seq<int>| #[trigger] picks(idx, a, b)
}

/// `idx` says where in `b` each character of `a` sits, in increasing order.
pub open spec fn picks(idx: Seq<int>, a: Seq<char>, b: Seq<char>) -> bool {
    &&& idx.len() == a.len()
    &&& forall|i: int| 0 <= i < idx.len() ==> 0 <= #[trigger] idx[i] < b.len() && b[idx[i]] == a[i]
    &&& forall|i: int, j: int| 0 <= i < j < idx.len() ==> #[trigger] idx[i] < #[trigger] idx[j]
}

/// What follows an escape is a suffix of the text.
proof fn lemma_after_escape_suffix(r: Seq<char>) -> (m: nat)
    ensures
        m <= r.len(),
        after_escape(r) == r.skip(m as int),
    decreases r.len(),
{
    if r.len() == 0 {
        assert(r.skip(0) =~= r);
        0
    } else if is_alpha(r[0]) {
        1
    } else {
        let m = lemma_after_escape_suffix(r.drop_first());
        assert(r.drop_first().skip(m as int) =~= r.skip(m as int + 1));
        m + 1
    }
}

/// Where each character stripping keeps came from.
proof fn lemma_strip_picks(s: Seq<char>) -> (idx: Seq<int>)
    ensures
        picks(idx, strip(s), s),
    decreases s.len(),
{
    if s.len() == 0 {
        Seq::empty()
    } else if s[0] == esc() {
        let rest = s.drop_first();
        lemma_after_escape_shorter(rest);
        let m = lemma_after_escape_suffix(rest);
        let sub = lemma_strip_picks(after_escape(rest));
        let off = m + 1;
        let idx = Seq::new(sub.len(), |i: int| sub[i] + off);
        assert forall|i: int| 0 <= i < idx.len() implies 0 <= #[trigger] idx[i] < s.len() && s[idx[i]] == strip(s)[i] by {
            assert(after_escape(rest)[sub[i]] == s[sub[i] + off]);
        }
        assert forall|i: int, j: int| 0 <= i < j < idx.len() implies #[trigger] idx[i] < #[trigger] idx[j] by {
            assert(sub[i] < sub[j]);
        }
        idx
    } else {
        let sub = lemma_strip_picks(s.drop_first());
        let idx = seq![0int] + Seq::new(sub.len(), |i: int| sub[i] + 1);
        let t = strip(s);
        assert(t == seq![s[0]] + strip(s.drop_first()));
        assert forall|i: int| 0 <= i < idx.len() implies 0 <= #[trigger] idx[i] < s.len() && s[idx[i]] == t[i] by {
            if i > 0 {
                assert(idx[i] == sub[i - 1] + 1);
                assert(s.drop_first()[sub[i - 1]] == s[sub[i - 1] + 1]);
            }
        }
        assert forall|i: int, j: int| 0 <= i < j < idx.len() implies #[trigger] idx[i] < #[trigger] idx[j] by {
            if i > 0 {
                assert(sub[i - 1] < sub[j - 1]);
            } else {
                assert(idx[j] == sub[j - 1] + 1);
                assert(0 <= sub[j - 1]);
            }
        }
        idx
    }
}

/// Stripping is done in one pass: what it leaves holds no escape character,
/// so stripping again changes nothing; it only ever leaves characters out;
/// and text without an escape comes back as it was.
pub proof fn lemma_strip_idempotent(s: Seq<char>)
    ensures
        forall|k: int| 0 <= k < strip(s).len() ==> strip(s)[k] != esc(),
        strip(strip(s)) == strip(s),
        is_subsequence(strip(s), s),
        (forall|k: int| 0 <= k < s.len() ==> s[k] != esc()) ==> strip(s) == s,
{
    lemma_strip_has_no_escape(s);
    lemma_strip_plain(strip(s));
    let idx = lemma_strip_picks(s);
    assert(picks(idx, strip(s), s));
    if forall|k: int| 0 <= k < s.len() ==> s[k] != esc() {
        lemma_strip_plain(s);
    }
}

/// `#abc` is shorthand for `#aabbcc`.
pub proof fn lemma_short_hex(x: char, y: char, z: char)
    requires
        hex_value(x) is Some,
        hex_value(y) is Some,
        hex_value(z) is Some,
    ensures
        hex_color(seq!['#', x, y, z]) == hex_color(seq!['#', x, x, y, y, z, z]),
        hex_color(seq!['#', x, y, z]) is Some,
{
    let short = seq!['#', x, y, z];
    let long = seq!['#', x, x, y, y, z, z];
    assert(!crate::text::is_ws(x) && !crate::text::is_ws(z));
    assert(crate::text::trim_start(short) == short);
    assert(crate::text::trim_end(short) == short);
    assert(crate::text::trim_start(long) == long);
    assert(crate::text::trim_end(long) == long);
    assert(drop_hashes(short) == drop_hashes(short.drop_first()));
    assert(short.drop_first() =~= seq![x, y, z]);
    assert(drop_hashes(seq![x, y, z]) == seq![x, y, z]);
    assert(long.drop_first() =~= seq![x, x, y, y, z, z]);
    assert(drop_hashes(seq![x, x, y, y, z, z]) == seq![x, x, y, y, z, z]);
    let vx = hex_value(x)->0;
    let vy = hex_value(y)->0;
    let vz = hex_value(z)->0;
    assert(vx * 16 + vx == vx * 17);
    assert(vy * 16 + vy == vy * 17);
    assert(vz * 16 + vz == vz * 17);
}

/// The lower-case hexadecimal digit for `d`, as `{:x}` writes it.
pub open spec fn hex_digit(d: nat) -> char {
    if d < 10 {
        (48 + d) as char
    } else {
        (87 + d) as char
    }
}

/// `v` as two lower-case hexadecimal digits, as `{:02x}` writes it.
pub open spec fn hex2(v: u8) -> Seq<char> {
    seq![hex_digit(v as nat / 16), hex_digit(v as nat % 16)]
}

/// Exactly the texts [`parse_hex`] accepts: once surrounding white space and
/// leading `#`s are dropped, three or six hexadecimal digits. (Hexadecimal
/// digits are ASCII, so counting characters here is counting bytes.)
pub proof fn lemma_hex_accepts(s: Seq<char>)
    ensures
        hex_color(s) is Some <==> ({
            let t = drop_hashes(trim(s));
            (t.len() == 3 || t.len() == 6) && all_hex(t)
        }),
{
}

/// Every colour written as `#rrggbb` in lower case reads back as itself.
pub proof fn lemma_hex_round_trip(c: Rgb)
    ensures
        hex_color(seq!['#'] + hex2(c.0) + hex2(c.1) + hex2(c.2)) == Some(c),
{
    let s = seq!['#'] + hex2(c.0) + hex2(c.1) + hex2(c.2);
    let t = hex2(c.0) + hex2(c.1) + hex2(c.2);
    assert forall|v: u8, k: nat| k < 2 implies {
        let d = #[trigger] hex2(v)[k as int];
        &&& !crate::text::is_ws(d)
        &&& d != '#'
        &&& hex_value(d) == Some((if k == 0 { v as nat / 16 } else { v as nat % 16 }) as u8)
    } by {
        let n: nat = if k == 0 { v as nat / 16 } else { v as nat % 16 };
        assert(n < 16);
        assert(hex2(v)[k as int] == hex_digit(n));
    }
    assert(t.len() == 6);
    assert(t[0] == hex2(c.0)[0]);
    assert(t[1] == hex2(c.0)[1]);
    assert(t[2] == hex2(c.1)[0]);
    assert(t[3] == hex2(c.1)[1]);
    assert(t[4] == hex2(c.2)[0]);
    assert(t[5] == hex2(c.2)[1]);
    assert(s.drop_first() =~= t);
    assert(s[0] == '#');
    assert(!crate::text::is_ws(s[0]));
    assert(!crate::text::is_ws(s.last()));
    assert(crate::text::trim_start(s) == s);
    assert(crate::text::trim_end(s) == s);
    assert(drop_hashes(s) == drop_hashes(t));
    assert(drop_hashes(t) == t);
    assert(all_hex(t));
    assert(c.0 as nat / 16 * 16 + c.0 as nat % 16 == c.0);
    assert(c.1 as nat / 16 * 16 + c.1 as nat % 16 == c.1);
    assert(c.2 as nat / 16 * 16 + c.2 as nat % 16 == c.2);
}

/// The upper-case hexadecimal digit for `d`, as `{:X}` writes it.
pub open spec fn hex_digit_upper(d: nat) -> char {
    if d < 10 {
        (48 + d) as char
    } else {
        (55 + d) as char
    }
}

/// `v` as two upper-case hexadecimal digits, as `{:02X}` writes it.
pub open spec fn hex2_upper(v: u8) -> Seq<char> {
    seq![hex_digit_upper(v as nat / 16), hex_digit_upper(v as nat % 16)]
}

/// Hex digits are read without regard to case: every colour written as
/// `#RRGGBB` in upper case reads back as itself, just as in lower case.
pub proof fn lemma_hex_round_trip_upper(c: Rgb)
    ensures
        hex_color(seq!['#'] + hex2_upper(c.0) + hex2_upper(c.1) + hex2_upper(c.2)) == Some(c),
{
    let s = seq!['#'] + hex2_upper(c.0) + hex2_upper(c.1) + hex2_upper(c.2);
    let t = hex2_upper(c.0) + hex2_upper(c.1) + hex2_upper(c.2);
    assert forall|v: u8, k: nat| k < 2 implies {
        let d = #[trigger] hex2_upper(v)[k as int];
        &&& !crate::text::is_ws(d)
        &&& d != '#'
        &&& hex_value(d) == Some((if k == 0 { v as nat / 16 } else { v as nat % 16 }) as u8)
    } by {
        let n: nat = if k == 0 { v as nat / 16 } else { v as nat % 16 };
        assert(n < 16);
        assert(hex2_upper(v)[k as int] == hex_digit_upper(n));
    }
    assert(t.len() == 6);
    assert(t[0] == hex2_upper(c.0)[0]);
    assert(t[1] == hex2_upper(c.0)[1]);
    assert(t[2] == hex2_upper(c.1)[0]);
    assert(t[3] == hex2_upper(c.1)[1]);
    assert(t[4] == hex2_upper(c.2)[0]);
    assert(t[5] == hex2_upper(c.2)[1]);
    assert(s.drop_first() =~= t);
    assert(s[0] == '#');
    assert(!crate::text::is_ws(s[0]));
    assert(!crate::text::is_ws(s.last()));
    assert(crate::text::trim_start(s) == s);
    assert(crate::text::trim_end(s) == s);
    assert(drop_hashes(s) == drop_hashes(t));
    assert(drop_hashes(t) == t);
    assert(all_hex(t));
    assert(c.0 as nat / 16 * 16 + c.0 as nat % 16 == c.0);
    assert(c.1 as nat / 16 * 16 + c.1 as nat % 16 == c.1);
    assert(c.2 as nat / 16 * 16 + c.2 as nat % 16 == c.2);
}

proof fn lemma_mix_ends(a: u8, b: u8, den: nat)
    requires
        den > 0,
    ensures
        mix(a, b, 0, den) == a,
        mix(a, b, den, den) == b,
{
    let d = den as int;
    assert((2 * (a * d + (b - a) * 0) + d) / (2 * d) == a as int) by (nonlinear_arith)
        requires
            d > 0,
    ;
    assert((2 * (a * d + (b - a) * d) + d) / (2 * d) == b as int) by (nonlinear_arith)
        requires
            d > 0,
    ;
}

/// A gradient without stops gives no colour anywhere, and one with stops
/// gives a colour everywhere: being empty is exactly never sampling.
pub proof fn lemma_gradient_empty(stops: Seq<Rgb>)
    ensures
        stops.len() == 0 <==> forall|num: nat, den: nat| den > 0 ==> #[trigger] sample_of(stops, num, den) is None,
        stops.len() > 0 ==> forall|num: nat, den: nat| den > 0 ==> #[trigger] sample_of(stops, num, den) is Some,
{
    if stops.len() > 0 {
        assert(sample_of(stops, 0, 1) is Some);
    }
}

/// A gradient starts at its first stop and ends at its last, whatever the
/// scale the position is given in.
pub proof fn lemma_gradient_endpoints(stops: Seq<Rgb>, den: nat)
    requires
        stops.len() > 0,
        den > 0,
    ensures
        sample_of(stops, 0, den) == Some(stops[0]),
        sample_of(stops, den, den) == Some(stops.last()),
{
    let n = stops.len();
    if n >= 2 {
        let a = stops[0];
        let b = stops[n - 1];
        let c = stops[n - 2];
        lemma_mix_ends(a.0, stops[1].0, den);
        lemma_mix_ends(a.1, stops[1].1, den);
        lemma_mix_ends(a.2, stops[1].2, den);
        lemma_mix_ends(c.0, b.0, den);
        lemma_mix_ends(c.1, b.1, den);
        lemma_mix_ends(c.2, b.2, den);
        let pos = den * (n - 1) as nat;
        assert(pos / den == n - 1) by (nonlinear_arith)
            requires
                pos == den * (n - 1),
                den > 0,
                n >= 2,
        ;
        assert(pos - (n - 2) * den == den) by (nonlinear_arith)
            requires
                pos == den * (n - 1),
                n >= 2,
        ;
        assert(0nat * (n - 1) as nat == 0);
        assert((0nat / den) == 0);
        assert(0nat * den == 0);
        assert(sample_of(stops, 0, den) == Some(Rgb(mix(a.0, stops[1].0, 0, den), mix(a.1, stops[1].1, 0, den), mix(a.2, stops[1].2, 0, den))));
    }
}

} // verus!
