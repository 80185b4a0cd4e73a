//! Dynamic colours from whatever themes your desktop (matugen, pywal, wallust).
//! They all write `name: colour` pairs somewhere; reading that is why changing
//! your wallpaper recolours the animation. Nothing here is ever fatal.

use vstd::prelude::*;
use crate::color::{hex_color, parse_hex, Color, Gradient, Rgb};
use crate::config::{ColorSource, Config};
use crate::text::{chars_of, same_chars, slice_of, string_of};

verus! {

broadcast use vstd::string::group_string_axioms;

/// The text of a quoted string whose opening quote has been read, and how
/// many characters it takes up to and including its closing quote. A
/// backslash takes the next character literally, which is just enough to stop
/// a quote ending the string early.
pub open spec fn read_str(s: Seq<char>) -> (Seq<char>, nat)
    decreases s.len(),
{
    if s.len() == 0 {
        (seq![], 0)
    } else if s[0] == '"' {
        (seq![], 1)
    } else if s[0] == '\\' {
        if s.len() >= 2 {
            let (t, n) = read_str(s.skip(2));
            (seq![s[1]] + t, n + 2)
        } else {
            (seq![], 1)
        }
    } else {
        let (t, n) = read_str(s.skip(1));
        (seq![s[0]] + t, n + 1)
    }
}

pub proof fn lemma_read_str_len(s: Seq<char>)
    ensures
        read_str(s).1 <= s.len(),
        s.len() > 0 ==> read_str(s).1 > 0,
    decreases s.len(),
{
    if s.len() > 0 && s[0] != '"' {
        if s[0] == '\\' {
            if s.len() >= 2 {
                lemma_read_str_len(s.skip(2));
            }
        } else {
            lemma_read_str_len(s.skip(1));
        }
    }
}

/// Whether `c` ends the current pair, so array strings are not read as keys.
pub open spec fn is_break(c: char) -> bool {
    c == ',' || c == '{' || c == '}' || c == '[' || c == ']'
}

/// Every `"name": "#rrggbb"` pair in `s`, at any depth, reading from a state
/// where the last string seen was `key` and `colon` says whether a `:` came
/// after it. A scanner, not a JSON parser: works on flat files (matugen) and
/// nested ones (pywal) alike.
pub open spec fn scan_from(s: Seq<char>, key: Option<Seq<char>>, colon: bool) -> Seq<(Seq<char>, Rgb)>
    decreases s.len(),
{
    if s.len() == 0 {
        seq![]
    } else {
        let c = s[0];
        if c == ':' {
            scan_from(s.skip(1), key, true)
        } else if is_break(c) {
            scan_from(s.skip(1), None, false)
        } else if c == '"' {
            let (text, n) = read_str(s.skip(1));
            proof {
                lemma_read_str_len(s.skip(1));
            }
            let rest = s.skip(1 + n as int);
            if colon && key is Some {
                match hex_color(text) {
                    Some(rgb) => seq![(key->0, rgb)] + scan_from(rest, None, false),
                    None => scan_from(rest, None, false),
                }
            } else {
                scan_from(rest, Some(text), false)
            }
        } else {
            scan_from(s.skip(1), key, colon)
        }
    }
}

/// Every `"name": "#rrggbb"` pair in `text`.
pub open spec fn scanned(text: Seq<char>) -> Seq<(Seq<char>, Rgb)> {
    scan_from(text, None, false)
}

/// The colour of the first pair named `name`.
pub open spec fn lookup(entries: Seq<(Seq<char>, Rgb)>, name: Seq<char>) -> Option<Rgb>
    decreases entries.len(),
{
    if entries.len() == 0 {
        None
    } else if entries[0].0 == name {
        Some(entries[0].1)
    } else {
        lookup(entries.drop_first(), name)
    }
}

/// The `name -> colour` pairs found in a palette file.
pub struct Palette {
    entries: Vec<(String, Rgb)>,
}

/// Reads a quoted string from `chars[from..]`, its opening quote already
/// consumed; returns its text and the index after its closing quote.
fn read_string(chars: &[char], from: usize) -> (r: (String, usize))
    requires
        from <= chars@.len(),
    ensures
        r.0@ == read_str(chars@.skip(from as int)).0,
        r.1 == from + read_str(chars@.skip(from as int)).1,
        r.1 <= chars@.len(),
{
    let mut out = String::new();
    let mut i = from;
    proof {
        lemma_read_str_len(chars@.skip(from as int));
    }
    while i < chars.len()
        invariant
            from <= i <= chars@.len(),
            out@ + read_str(chars@.skip(i as int)).0 == read_str(chars@.skip(from as int)).0,
            (i - from) + read_str(chars@.skip(i as int)).1 == read_str(chars@.skip(from as int)).1,
        decreases chars@.len() - i,
    {
        let c = chars[i];
        assert(chars@.skip(i as int)[0] == c);
        if c == '"' {
            return (out, i + 1);
        }
        if c == '\\' {
            if i + 1 < chars.len() {
                assert(chars@.skip(i as int)[1] == chars@[i + 1]);
                assert(chars@.skip(i as int).skip(2) =~= chars@.skip(i + 2));
                out.push(chars[i + 1]);
                i = i + 2;
            } else {
                assert(read_str(chars@.skip(i as int)) == (Seq::<char>::empty(), 1nat));
                assert(out@ + seq![] =~= out@);
                return (out, i + 1);
            }
        } else {
            assert(chars@.skip(i as int).skip(1) =~= chars@.skip(i + 1));
            out.push(c);
            i = i + 1;
        }
        assert(out@ + read_str(chars@.skip(i as int)).0 =~= read_str(chars@.skip(from as int)).0);
    }
    assert(chars@.skip(i as int) =~= seq![]);
    assert(out@ + seq![] =~= out@);
    (out, i)
}

/// Every `"name": "#rrggbb"` pair in `text`, at any depth.
fn scan(text: &str) -> (out: Vec<(String, Rgb)>)
    ensures
        out@.len() == scanned(text@).len(),
        forall|k: int| 0 <= k < out@.len() ==> (#[trigger] out@[k]).0@ == scanned(text@)[k].0 && out@[k].1 == scanned(text@)[k].1,
{
    let chars = chars_of(text);
    let mut out: Vec<(String, Rgb)> = Vec::new();
    let mut key: Option<String> = None;
    let mut after_colon = false;
    let mut i: usize = 0;
    let ghost found: Seq<(Seq<char>, Rgb)> = seq![];
    assert(chars@.skip(0) =~= chars@);
    while i < chars.len()
        invariant
            i <= chars@.len(),
            chars@ == text@,
            out@.len() == found.len(),
            forall|k: int| 0 <= k < out@.len() ==> (#[trigger] out@[k]).0@ == found[k].0 && out@[k].1 == found[k].1,
            found + scan_from(chars@.skip(i as int), match key {
                Some(k) => Some(k@),
                None => None,
            }, after_colon) == scanned(text@),
        decreases chars@.len() - i,
    {
        let c = chars[i];
        assert(chars@.skip(i as int)[0] == c);
        assert(chars@.skip(i as int).skip(1) =~= chars@.skip(i + 1));
        if c == ':' {
            after_colon = true;
            i = i + 1;
        } else if c == ',' || c == '{' || c == '}' || c == '[' || c == ']' {
            key = None;
            after_colon = false;
            i = i + 1;
        } else if c == '"' {
            let (text_read, next) = read_string(chars.as_slice(), i + 1);
            assert(chars@.skip(i as int).skip(1) =~= chars@.skip(i + 1));
            assert(chars@.skip(i as int).skip(1 + read_str(chars@.skip(i + 1)).1 as int) =~= chars@.skip(next as int));
            match (after_colon, key) {
                (true, Some(name)) => {
                    let ghost before = out@;
                    if let Some(rgb) = parse_hex(text_read.as_str()) {
                        proof {
                            found = found + seq![(name@, rgb)];
                        }
                        out.push((name, rgb));
                        assert(forall|k: int| 0 <= k < before.len() ==> out@[k] == before[k]);
                    }
                    key = None;
                    after_colon = false;
                },
                (_, _) => {
                    key = Some(text_read);
                    after_colon = false;
                },
            }
            i = next;
        } else {
            i = i + 1;
        }
    }
    assert(chars@.skip(i as int) =~= seq![]);
    assert(found + seq![] =~= found);
    out
}

impl Palette {
    /// The pairs found, in file order.
    pub closed spec fn entries_view(&self) -> Seq<(Seq<char>, Rgb)> {
        Seq::new(self.entries@.len(), |k: int| (self.entries@[k].0@, self.entries@[k].1))
    }

    pub fn parse(text: &str) -> (p: Self)
        ensures
            p.entries_view() == scanned(text@),
    {
        let entries = scan(text);
        let p = Palette { entries };
        assert(p.entries_view() =~= scanned(text@));
        p
    }

    /// The colour of the first entry called `name`.
    pub fn get(&self, name: &str) -> (r: Option<Rgb>)
        ensures
            r == lookup(self.entries_view(), name@),
    {
        let want = chars_of(name);
        let ghost ev = self.entries_view();
        let mut k: usize = 0;
        assert(ev.skip(0) =~= ev);
        while k < self.entries.len()
            invariant
                k <= self.entries@.len(),
                ev == self.entries_view(),
                want@ == name@,
                lookup(ev.skip(k as int), name@) == lookup(ev, name@),
            decreases self.entries@.len() - k,
        {
            assert(ev.skip(k as int)[0] == ev[k as int]);
            assert(ev.skip(k as int).drop_first() =~= ev.skip(k + 1));
            let entry_name = chars_of(self.entries[k].0.as_str());
            if same_chars(entry_name.as_slice(), want.as_slice()) {
                return Some(self.entries[k].1);
            }
            k = k + 1;
        }
        assert(ev.skip(k as int) =~= seq![]);
        None
    }
}

/// The colours found for `names`, in order, skipping names the palette lacks.
pub open spec fn found_stops(names: Seq<String>, entries: Seq<(Seq<char>, Rgb)>) -> Seq<Rgb>
    decreases names.len(),
{
    if names.len() == 0 {
        seq![]
    } else {
        let rest = found_stops(names.drop_last(), entries);
        match lookup(entries, names.last()@) {
            Some(c) => rest.push(c),
            None => rest,
        }
    }
}

/// `after` is `before` with at most its colours changed.
pub open spec fn same_but_colours(before: Config, after: Config) -> bool {
    &&& after.animation == before.animation
    &&& after.style == before.style
    &&& after.art_color == before.art_color
    &&& after.ramp == before.ramp
    &&& after.gradient_scroll == before.gradient_scroll
    &&& after.color_source == before.color_source
    &&& after.palette_files == before.palette_files
    &&& after.palette_accent == before.palette_accent
    &&& after.palette_value == before.palette_value
    &&& after.palette_gradient == before.palette_gradient
    &&& after.gap == before.gap
    &&& after.width == before.width
    &&& after.height == before.height
    &&& after.color == before.color
    &&& after.modules == before.modules
}

/// `after` is `before` recoloured from a palette with `entries`: each role
/// the palette names takes its colour, roles it omits keep theirs, and a
/// gradient none of whose stops are found is kept.
pub open spec fn recoloured(before: Config, after: Config, entries: Seq<(Seq<char>, Rgb)>) -> bool {
    &&& same_but_colours(before, after)
    &&& after.accent == match lookup(entries, before.palette_accent@) {
        Some(c) => Color(c),
        None => before.accent,
    }
    &&& after.value == match lookup(entries, before.palette_value@) {
        Some(c) => Color(c),
        None => before.value,
    }
    &&& ({
        let found = found_stops(before.palette_gradient@, entries);
        after.gradient.stops_view() == if found.len() > 0 {
            found
        } else {
            before.gradient.stops_view()
        }
    })
}

/// Resolve dynamic colours from the desktop's palette into `cfg`, when that is
/// where colours come from and a palette file was found (`palette`). Falls
/// back per colour rather than all or nothing. Returns whether the palette
/// was applied; when it was not, nothing changes.
pub fn apply(cfg: &mut Config, palette: Option<&Palette>) -> (applied: bool)
    ensures
        applied == (old(cfg).color_source == ColorSource::Palette && palette is Some),
        !applied ==> *final(cfg) == *old(cfg),
        palette matches Some(p) ==> (applied ==> recoloured(*old(cfg), *final(cfg), p.entries_view())),
{
    if cfg.color_source != ColorSource::Palette {
        return false;
    }
    match palette {
        Some(p) => {
            recolour(cfg, p);
            true
        },
        None => false,
    }
}

/// Every role `palette` names takes its colour.
fn recolour(cfg: &mut Config, palette: &Palette)
    ensures
        recoloured(*old(cfg), *final(cfg), palette.entries_view()),
{
    if let Some(rgb) = palette.get(cfg.palette_accent.as_str()) {
        cfg.accent = Color(rgb);
    }
    if let Some(rgb) = palette.get(cfg.palette_value.as_str()) {
        cfg.value = Color(rgb);
    }
    let mut stops: Vec<Rgb> = Vec::new();
    let mut k: usize = 0;
    while k < cfg.palette_gradient.len()
        invariant
            k <= cfg.palette_gradient@.len(),
            cfg.palette_gradient == old(cfg).palette_gradient,
            stops@ == found_stops(cfg.palette_gradient@.take(k as int), palette.entries_view()),
        decreases cfg.palette_gradient@.len() - k,
    {
        assert(cfg.palette_gradient@.take(k + 1).drop_last() =~= cfg.palette_gradient@.take(k as int));
        if let Some(c) = palette.get(cfg.palette_gradient[k].as_str()) {
            stops.push(c);
        }
        k = k + 1;
    }
    assert(cfg.palette_gradient@.take(k as int) =~= cfg.palette_gradient@);
    if stops.len() > 0 {
        cfg.gradient = Gradient::new(stops);
    }
}

/// `rest` joined onto directory `dir` as a path: an absolute `rest` stands on
/// its own, and a separator is added only when `dir` lacks one.
pub open spec fn joined_path(dir: Seq<char>, rest: Seq<char>) -> Seq<char> {
    if rest.len() > 0 && rest[0] == '/' {
        rest
    } else if dir.len() > 0 && dir.last() == '/' {
        dir + rest
    } else {
        dir + seq!['/'] + rest
    }
}

/// `path` with a leading `~/` expanded against `home`, when that is set.
pub open spec fn expanded(path: Seq<char>, home: Option<Seq<char>>) -> Seq<char> {
    if path.len() >= 2 && path[0] == '~' && path[1] == '/' {
        match home {
            Some(h) => if h.len() > 0 {
                joined_path(h, path.skip(2))
            } else {
                path
            },
            None => path,
        }
    } else {
        path
    }
}

/// Expand a leading `~/`, which is how these paths are written in a config.
pub fn expand(path: &str, home: Option<&str>) -> (r: String)
    ensures
        r@ == expanded(path@, match home {
            Some(h) => Some(h@),
            None => None,
        }),
{
    let p = chars_of(path);
    if p.len() >= 2 && p[0] == '~' && p[1] == '/' {
        if let Some(h) = home {
            let hc = chars_of(h);
            if hc.len() > 0 {
                let len = p.len();
                let rest = slice_of(p.as_slice(), 2, len);
                assert(rest@ =~= path@.skip(2));
                if rest.len() > 0 && rest[0] == '/' {
                    return string_of(rest.as_slice());
                }
                let mut out = h.to_owned();
                if hc[hc.len() - 1] != '/' {
                    out.push('/');
                }
                crate::text::push_all(&mut out, rest.as_slice());
                assert(out@ =~= joined_path(h@, path@.skip(2)));
                return out;
            }
        }
    }
    path.to_owned()
}

/// A file modification time, as seconds and nanoseconds.
pub type Stamp = (u64, u32);

/// What one poll of a [`Watch`] reports and keeps: a change is reported when
/// the stamp differs from the one seen last, which it then becomes.
pub open spec fn watch_step(watching: bool, seen: Option<Stamp>, now: Option<Stamp>) -> (bool, Option<Stamp>) {
    if !watching || now == seen {
        (false, seen)
    } else {
        (true, now)
    }
}

/// Notices when the palette file is rewritten, so `--pin` can recolour live.
pub struct Watch {
    path: Option<String>,
    seen: Option<Stamp>,
}

impl Watch {
    /// The file watched; none when colours come from the configuration.
    pub closed spec fn path_view(&self) -> Option<Seq<char>> {
        match self.path {
            Some(p) => Some(p@),
            None => None,
        }
    }

    /// The modification time last seen.
    pub closed spec fn seen_view(&self) -> Option<Stamp> {
        self.seen
    }

    /// A watch on `path`, the palette file found at startup (none when the
    /// source is the configuration, or no file was there), last modified at
    /// `stamp`. A file absent at startup is never picked up.
    pub fn new(cfg: &Config, path: Option<String>, stamp: Option<Stamp>) -> (w: Self)
        ensures
            w.path_view() == if cfg.color_source == ColorSource::Palette {
                match path {
                    Some(p) => Some(p@),
                    None => None,
                }
            } else {
                None
            },
            w.seen_view() == if cfg.color_source == ColorSource::Palette && path is Some {
                stamp
            } else {
                None
            },
    {
        match cfg.color_source {
            ColorSource::Palette => match path {
                Some(p) => Watch { path: Some(p), seen: stamp },
                None => Watch { path: None, seen: None },
            },
            ColorSource::Config => Watch { path: None, seen: None },
        }
    }

    /// The file to poll, if any.
    pub fn path(&self) -> (r: Option<&str>)
        ensures
            match r {
                Some(p) => self.path_view() == Some(p@),
                None => self.path_view() is None,
            },
    {
        match &self.path {
            Some(p) => Some(p.as_str()),
            None => None,
        }
    }

    /// True once per rewrite, given the file's modification time now.
    pub fn changed(&mut self, now: Option<Stamp>) -> (r: bool)
        ensures
            (r, final(self).seen_view()) == watch_step(old(self).path_view() is Some, old(self).seen_view(), now),
            final(self).path_view() == old(self).path_view(),
    {
        if self.path.is_none() {
            return false;
        }
        let same = match (now, self.seen) {
            (Some(a), Some(b)) => a.0 == b.0 && a.1 == b.1,
            (None, None) => true,
            _ => false,
        };
        if same {
            return false;
        }
        self.seen = now;
        true
    }
}

/// A rewrite is reported once, not on every poll after: polling again with
/// the same modification time reports nothing.
pub proof fn lemma_change_noticed_once(watching: bool, seen: Option<Stamp>, now: Option<Stamp>)
    ensures
        !watch_step(watching, watch_step(watching, seen, now).1, now).0,
{
}

} // verus!
