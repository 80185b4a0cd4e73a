//! Frame composition and painting.
//!
//! `compose` builds finished, coloured lines and does no I/O. `Pane` turns them
//! into the bytes of one repaint, rewriting only what changed. Clearing the
//! screen every frame, which is what most animated fetchers do, is the usual
//! source of flicker.

use vstd::prelude::*;
use vstd::arithmetic::div_mod::lemma_add_mod_noop;
use unicode_width::{UnicodeWidthChar, UnicodeWidthStr};
use crate::color::{esc, fg_seq, push_reset, reset_seq, sample_of, strip, strip_sgr, Rgb};
use crate::config::Config;
use crate::fetch::Item;
use crate::text::{chars_of, dec, push_dec, push_str, slice_of, string_of, trim_end, trim_end_len};

verus! {

broadcast use vstd::string::group_string_axioms;

/// What `UnicodeWidthChar::width` gives for a character: its column count, or
/// `None` for a control character.
pub uninterp spec fn char_columns(c: char) -> Option<usize>;

/// What `UnicodeWidthStr::width` gives for a string. Not the sum of its
/// characters' widths: emoji sequences, variation selectors and `\r\n` are
/// measured as units.
pub uninterp spec fn str_columns(s: Seq<char>) -> usize;

/// A character from space to tilde.
pub open spec fn is_printable_ascii(c: char) -> bool {
    0x20 <= (c as u32) < 0x7f
}

/// `UnicodeWidthChar::width`. Claimed: control characters below U+00A0 have
/// no width, printable ASCII is one column, everything from U+00A0 on has a
/// width of at most three columns. The table behind the rest is not restated.
#[verifier::external_body]
fn unicode_char_width(c: char) -> (r: Option<usize>)
    ensures
        r == char_columns(c),
        (c as u32) < 0x20 ==> r is None,
        is_printable_ascii(c) ==> r == Some(1usize),
        0x7f <= (c as u32) < 0xa0 ==> r is None,
        0xa0 <= (c as u32) ==> r is Some,
        r matches Some(w) ==> w <= 3,
{
    UnicodeWidthChar::width(c)
}

/// `UnicodeWidthStr::width`. Claimed: a string of printable ASCII is as wide
/// as it is long. How other strings are measured is not restated.
#[verifier::external_body]
fn unicode_str_width(s: &str) -> (r: usize)
    ensures
        r == str_columns(s@),
        (forall|i: int| 0 <= i < s@.len() ==> is_printable_ascii(#[trigger] s@[i])) ==> r == s@.len(),
{
    UnicodeWidthStr::width(s)
}

/// Columns one character takes; control characters take none.
pub open spec fn columns(c: char) -> nat {
    match char_columns(c) {
        Some(w) => w as nat,
        None => 0,
    }
}

/// Columns a run of characters takes, character by character.
pub open spec fn width_sum(s: Seq<char>) -> nat
    decreases s.len(),
{
    if s.len() == 0 {
        0
    } else {
        width_sum(s.drop_last()) + columns(s.last())
    }
}

/// `n`, or the largest `usize` when it does not fit.
pub open spec fn saturated(n: nat) -> nat {
    if n > usize::MAX {
        usize::MAX as nat
    } else {
        n
    }
}

/// Every character of `s` is printable ASCII.
pub open spec fn printable_ascii_text(s: Seq<char>) -> bool {
    forall|k: int| 0 <= k < s.len() ==> is_printable_ascii(#[trigger] s[k])
}

/// `s` cut to `width` columns when every character takes one: kept whole
/// when it fits, else its first `width - 1` characters and an ellipsis.
pub open spec fn ascii_truncated(s: Seq<char>, width: nat) -> Seq<char> {
    if s.len() <= width {
        s
    } else if width <= 1 {
        ellipses(width)
    } else {
        s.take(width - 1).push('…')
    }
}

/// Display width of one character. Control characters count as zero;
/// printable ASCII takes one column.
pub fn char_width(c: char) -> (r: usize)
    ensures
        r == columns(c),
        r <= 3,
        is_printable_ascii(c) ==> r == 1,
{
    match unicode_char_width(c) {
        Some(w) => w,
        None => 0,
    }
}

/// Display width of `s`, ignoring SGR escapes; a plain width would count
/// escape bytes as visible columns. Saturates rather than wrapping.
pub fn visible_width(s: &str) -> (r: usize)
    ensures
        r == saturated(width_sum(strip(s@))),
        printable_ascii_text(strip(s@)) ==> r == strip(s@).len(),
{
    let plain = strip_sgr(s);
    let chars = chars_of(plain.as_str());
    let mut width: usize = 0;
    let mut i: usize = 0;
    while i < chars.len()
        invariant
            i <= chars@.len(),
            chars@ == strip(s@),
            width == saturated(width_sum(chars@.take(i as int))),
            printable_ascii_text(chars@) ==> width == i,
        decreases chars@.len() - i,
    {
        let w = char_width(chars[i]);
        assert(chars@.take(i + 1).drop_last() =~= chars@.take(i as int));
        if w > usize::MAX - width {
            width = usize::MAX;
        } else {
            width = width + w;
        }
        i = i + 1;
    }
    assert(chars@.take(chars@.len() as int) =~= chars@);
    width
}

/// The longest prefix of `s` that fits in `room` columns, measured character
/// by character.
pub open spec fn cut(s: Seq<char>, room: nat) -> Seq<char>
    decreases s.len(),
{
    if s.len() == 0 || columns(s[0]) > room {
        seq![]
    } else {
        seq![s[0]] + cut(s.drop_first(), (room - columns(s[0])) as nat)
    }
}

/// `n` ellipses.
pub open spec fn ellipses(n: nat) -> Seq<char> {
    Seq::new(n, |_i: int| '…')
}

/// `s` cut to `width` columns, the cut marked with an ellipsis.
pub open spec fn truncated(s: Seq<char>, width: nat) -> Seq<char> {
    if str_columns(s) <= width {
        s
    } else if width <= 1 {
        ellipses(width)
    } else {
        cut(s, (width - 1) as nat).push('…')
    }
}

/// Cut `s` to `width` display columns, marking the cut with an ellipsis.
pub fn truncate(s: &str, width: usize) -> (r: String)
    ensures
        r@ == truncated(s@, width as nat),
        printable_ascii_text(s@) ==> r@ == ascii_truncated(s@, width as nat),
{
    let sw = unicode_str_width(s);
    if sw <= width {
        return s.to_owned();
    }
    if width <= 1 {
        let mut out = String::new();
        if width == 1 {
            out.push('…');
        }
        assert(out@ =~= ellipses(width as nat));
        return out;
    }
    let chars = chars_of(s);
    let room = width - 1;
    let mut out = String::new();
    let mut used: usize = 0;
    let mut i: usize = 0;
    let mut full = false;
    assert(chars@.skip(0) =~= chars@);
    while i < chars.len() && !full
        invariant
            i <= chars@.len(),
            chars@ == s@,
            room == width - 1,
            sw == str_columns(s@),
            sw > width,
            printable_ascii_text(s@) ==> sw == s@.len(),
            out@ == chars@.take(i as int),
            printable_ascii_text(s@) ==> used == i,
            printable_ascii_text(s@) && full ==> i == room,
            used <= room,
            out@ + cut(chars@.skip(i as int), (room - used) as nat) == cut(s@, room as nat),
            full ==> cut(chars@.skip(i as int), (room - used) as nat) == Seq::<char>::empty(),
        decreases chars@.len() - i + (if full { 0int } else { 1int }),
    {
        let c = chars[i];
        let w = char_width(c);
        assert(chars@.skip(i as int)[0] == c);
        if w > room - used {
            assert(cut(chars@.skip(i as int), (room - used) as nat) =~= seq![]);
            full = true;
            continue;
        }
        assert(chars@.skip(i as int).drop_first() =~= chars@.skip(i + 1));
        out.push(c);
        used = used + w;
        i = i + 1;
        assert(out@ + cut(chars@.skip(i as int), (room - used) as nat) =~= cut(s@, room as nat));
    }
    proof {
        if !full {
            assert(chars@.skip(i as int) =~= seq![]);
        }
        assert(out@ + seq![] =~= out@);
    }
    out.push('…');
    out
}

/// `text` in colour `c` when colour is on, followed by a reset.
pub open spec fn painted(on: bool, c: Rgb, text: Seq<char>) -> Seq<char> {
    if on {
        fg_seq(c) + text + reset_seq()
    } else {
        text
    }
}

/// A horizontal rule `n` columns long.
pub open spec fn rule(n: nat) -> Seq<char> {
    Seq::new(n, |_i: int| '─')
}

/// `n` blanks.
pub open spec fn spaces(n: nat) -> Seq<char> {
    Seq::new(n, |_i: int| ' ')
}

/// The smaller of two numbers.
pub open spec fn min_of(a: nat, b: nat) -> nat {
    if a < b {
        a
    } else {
        b
    }
}

/// The items that get a row: all of them with colour, and without it all but
/// the swatches, which are pure decoration.
pub open spec fn kept(items: Seq<Item>, color: bool) -> Seq<Item>
    decreases items.len(),
{
    if items.len() == 0 {
        seq![]
    } else {
        let rest = kept(items.drop_last(), color);
        if items.last().label@.len() == 0 && !color {
            rest
        } else {
            rest.push(items.last())
        }
    }
}

/// A labelled row: the label, then the value in what room is left once the
/// label and its separator are reserved.
pub open spec fn pair_text(label: Seq<char>, value: Seq<char>, cfg: Config, width: nat) -> Seq<char> {
    let head = painted(cfg.color, cfg.accent.0, truncated(label, width));
    let used = min_of(str_columns(label) as nat, width) + 2;
    if width > used {
        head + seq![':', ' '] + painted(cfg.color, cfg.value.0, truncated(value, (width - used) as nat))
    } else {
        head
    }
}

/// Info row `k` at `width` columns: the title, a rule under it, then one row
/// per kept item. Pre-coloured swatches pass through untouched.
pub open spec fn info_row_text(k: nat, title: Seq<char>, kept: Seq<Item>, cfg: Config, width: nat) -> Seq<char> {
    if width == 0 {
        seq![]
    } else if k == 0 {
        painted(cfg.color, cfg.accent.0, truncated(title, width))
    } else if k == 1 {
        painted(cfg.color, cfg.accent.0, rule(min_of(str_columns(title) as nat, width)))
    } else {
        let it = kept[k - 2];
        if it.label@.len() == 0 {
            it.value@
        } else {
            pair_text(it.label@, it.value@, cfg, width)
        }
    }
}

/// Art row `row`, drawn on line `y` of a pane `height` lines tall, in the
/// gradient's colour for that line. The gradient scrolls with `phase` when
/// configured to.
pub open spec fn art_row_text(row: Seq<char>, y: nat, height: nat, cfg: Config, phase: nat) -> Seq<char> {
    if row.len() == 0 {
        seq![]
    } else if !cfg.color || cfg.gradient.stops_view().len() == 0 {
        row
    } else {
        let span: nat = if height > 1 {
            height
        } else {
            1
        };
        let offset: nat = if cfg.gradient_scroll {
            phase
        } else {
            0
        };
        match sample_of(cfg.gradient.stops_view(), (y + offset) % span, span) {
            Some(c) => fg_seq(c) + row + reset_seq(),
            None => row,
        }
    }
}

/// Everything that varies between frames, so `compose` takes one argument.
#[derive(Clone, Copy)]
pub struct Scene<'a> {
    /// Pre-scaled art rows for this frame.
    pub art: &'a [String],
    /// Column count the art was scaled to; the info pane starts after it.
    pub art_w: usize,
    pub title: &'a str,
    pub items: &'a [Item],
    /// Frame counter, used to scroll the gradient.
    pub phase: usize,
    /// Terminal width. Wider content is truncated; wrapping breaks the diff.
    pub width: usize,
}

/// The column the info pane starts at: right after the art and the gap, or
/// the left edge when there is no art to separate it from.
pub open spec fn info_column(art_w: nat, gap: nat) -> nat {
    if art_w == 0 {
        0
    } else {
        art_w + gap
    }
}

/// Rows of the composed pane: the taller of the art and the info pane.
pub open spec fn pane_rows(art_len: nat, items: Seq<Item>, color: bool) -> nat {
    let rows = kept(items, color).len() + 2;
    if art_len > rows {
        art_len
    } else {
        rows
    }
}

/// Line `y` of the composed pane. The shorter pane is centred against the
/// taller one; the info pane is padded out to its column from the art's
/// visible width, and trailing blanks are dropped.
pub open spec fn composed_line(y: nat, scene: Scene, cfg: Config) -> Seq<char> {
    let art = scene.art@;
    let ks = kept(scene.items@, cfg.color);
    let rows = ks.len() + 2;
    let height = pane_rows(art.len(), scene.items@, cfg.color);
    let art_top = (height - art.len()) / 2;
    let info_top = (height - rows) / 2;
    let info_col = info_column(scene.art_w as nat, cfg.gap as nat);
    let info_w: nat = if scene.width > info_col {
        (scene.width - info_col) as nat
    } else {
        0
    };
    let has_art = art_top <= y < art_top + art.len();
    let art_part = if has_art {
        art_row_text(art[y - art_top]@, y, height, cfg, scene.phase as nat)
    } else {
        seq![]
    };
    let drawn: nat = if has_art {
        str_columns(art[y - art_top]@) as nat
    } else {
        0
    };
    let info_part = if info_top <= y < info_top + rows {
        spaces(if info_col > drawn {
            (info_col - drawn) as nat
        } else {
            0
        }) + info_row_text((y - info_top) as nat, scene.title@, ks, cfg, info_w)
    } else {
        seq![]
    };
    trim_end(art_part + info_part)
}

/// The shorter pane is centred against the taller one. When the art is
/// taller, the lines above the info pane, `(art rows - info rows) / 2` of
/// them, and the lines below it hold the art alone; when the info pane is
/// taller, the lines above the art, `(info rows - art rows) / 2` of them, hold
/// the info rows alone, at the info column. (The info pane has the title,
/// the rule under it, and a row per item kept.)
pub proof fn lemma_panes_centred(scene: Scene, cfg: Config, y: nat)
    ensures
        ({
            let art = scene.art@;
            let rows = kept(scene.items@, cfg.color).len() + 2;
            let top = if art.len() > rows { ((art.len() - rows) / 2) as nat } else { 0nat };
            art.len() > rows && (y < top || top + rows <= y < art.len()) ==> composed_line(y, scene, cfg)
                == trim_end(art_row_text(art[y as int]@, y, art.len(), cfg, scene.phase as nat))
        }),
        ({
            let art = scene.art@;
            let ks = kept(scene.items@, cfg.color);
            let rows = ks.len() + 2;
            let col = info_column(scene.art_w as nat, cfg.gap as nat);
            let info_w: nat = if scene.width > col { (scene.width - col) as nat } else { 0 };
            rows > art.len() && y < (rows - art.len()) / 2 ==> composed_line(y, scene, cfg)
                == trim_end(spaces(col) + info_row_text(y, scene.title@, ks, cfg, info_w))
        }),
{
    let art = scene.art@;
    let rows = kept(scene.items@, cfg.color).len() + 2;
    if art.len() > rows {
        let top = ((art.len() - rows) / 2) as nat;
        if y < top || top + rows <= y < art.len() {
            let a = art_row_text(art[y as int]@, y, art.len(), cfg, scene.phase as nat);
            assert(a + seq![] =~= a);
        }
    }
    if rows > art.len() && y < (rows - art.len()) / 2 {
        assert(seq![] + spaces(info_column(scene.art_w as nat, cfg.gap as nat)) =~= spaces(info_column(scene.art_w as nat, cfg.gap as nat)));
        assert(seq![] + (spaces(info_column(scene.art_w as nat, cfg.gap as nat)) + info_row_text(y, scene.title@, kept(scene.items@, cfg.color), cfg, if scene.width > info_column(scene.art_w as nat, cfg.gap as nat) { (scene.width - info_column(scene.art_w as nat, cfg.gap as nat)) as nat } else { 0 })) =~= spaces(info_column(scene.art_w as nat, cfg.gap as nat)) + info_row_text(y, scene.title@, kept(scene.items@, cfg.color), cfg, if scene.width > info_column(scene.art_w as nat, cfg.gap as nat) { (scene.width - info_column(scene.art_w as nat, cfg.gap as nat)) as nat } else { 0 }));
    }
}

/// What `compose` needs of its inputs to stay within `usize`.
pub open spec fn composable(scene: Scene, cfg: Config) -> bool {
    &&& scene.art_w == 0 || scene.art_w + cfg.gap <= usize::MAX
    &&& scene.width + 2 <= usize::MAX
    &&& scene.items@.len() + 2 <= usize::MAX
}

proof fn lemma_kept_len(items: Seq<Item>, color: bool)
    ensures
        kept(items, color).len() <= items.len(),
    decreases items.len(),
{
    if items.len() > 0 {
        lemma_kept_len(items.drop_last(), color);
    }
}

/// Indices of the items that get a row, in order.
fn info_rows(items: &[Item], color: bool) -> (idx: Vec<usize>)
    ensures
        idx@.len() == kept(items@, color).len(),
        forall|j: int| 0 <= j < idx@.len() ==> #[trigger] idx@[j] < items@.len() && items@[idx@[j] as int] == kept(items@, color)[j],
{
    let mut idx: Vec<usize> = Vec::new();
    let mut i: usize = 0;
    while i < items.len()
        invariant
            i <= items@.len(),
            idx@.len() == kept(items@.take(i as int), color).len(),
            forall|j: int| 0 <= j < idx@.len() ==> #[trigger] idx@[j] < i && items@[idx@[j] as int] == kept(items@.take(i as int), color)[j],
        decreases items@.len() - i,
    {
        assert(items@.take(i + 1).drop_last() =~= items@.take(i as int));
        assert(items@.take(i + 1).last() == items@[i as int]);
        // Swatches are pure decoration; nothing to show without colour.
        if color || !items[i].label.is_empty() {
            idx.push(i);
        }
        i = i + 1;
    }
    assert(items@.take(items@.len() as int) =~= items@);
    idx
}

/// Colour one art row from the vertical gradient.
fn paint_art_row(out: &mut String, row: &str, y: usize, height: usize, cfg: &Config, phase: usize)
    ensures
        final(out)@ == old(out)@ + art_row_text(row@, y as nat, height as nat, *cfg, phase as nat),
{
    if row.is_empty() {
        assert(old(out)@ + seq![] =~= old(out)@);
        return;
    }
    if !cfg.color || cfg.gradient.is_empty() {
        push_str(out, row);
        return;
    }
    // Advanced by the frame counter so the ramp flows down through the art.
    let span: usize = if height > 1 {
        height
    } else {
        1
    };
    let offset: usize = if cfg.gradient_scroll {
        phase
    } else {
        0
    };
    let pos = (((y % span) as u128 + (offset % span) as u128) % (span as u128)) as usize;
    proof {
        lemma_add_mod_noop(y as int, offset as int, span as int);
    }
    match cfg.gradient.sample_at(pos, span) {
        Some(color) => {
            color.fg(out);
            push_str(out, row);
            push_reset(out);
            assert(final(out)@ =~= old(out)@ + (fg_seq(color) + row@ + reset_seq()));
        },
        None => {
            push_str(out, row);
        },
    }
}

/// Appends `text` in colour `c` when colour is on.
fn push_painted(out: &mut String, on: bool, c: Rgb, text: &str)
    ensures
        final(out)@ == old(out)@ + painted(on, c, text@),
{
    if on {
        c.fg(out);
        push_str(out, text);
        push_reset(out);
        assert(final(out)@ =~= old(out)@ + (fg_seq(c) + text@ + reset_seq()));
    } else {
        push_str(out, text);
    }
}

/// Info row `k` (see [`info_row_text`]) at `width` columns.
fn paint_info_row(
    out: &mut String,
    k: usize,
    title: &str,
    title_w: usize,
    items: &[Item],
    kept_idx: &Vec<usize>,
    cfg: &Config,
    width: usize,
)
    requires
        title_w == str_columns(title@),
        kept_idx@.len() == kept(items@, cfg.color).len(),
        forall|j: int| 0 <= j < kept_idx@.len() ==> #[trigger] kept_idx@[j] < items@.len() && items@[kept_idx@[j] as int] == kept(items@, cfg.color)[j],
        k < kept_idx@.len() + 2,
        width + 2 <= usize::MAX,
    ensures
        final(out)@ == old(out)@ + info_row_text(k as nat, title@, kept(items@, cfg.color), *cfg, width as nat),
{
    if width == 0 {
        assert(old(out)@ + seq![] =~= old(out)@);
        return;
    }
    if k == 0 {
        let t = truncate(title, width);
        push_painted(out, cfg.color, cfg.accent.0, t.as_str());
    } else if k == 1 {
        let n = if title_w < width {
            title_w
        } else {
            width
        };
        let mut line = String::new();
        let mut j: usize = 0;
        while j < n
            invariant
                j <= n,
                line@ == rule(j as nat),
            decreases n - j,
        {
            line.push('─');
            j = j + 1;
            assert(line@ =~= rule(j as nat));
        }
        push_painted(out, cfg.color, cfg.accent.0, line.as_str());
    } else {
        let item = &items[kept_idx[k - 2]];
        if item.label.is_empty() {
            push_str(out, item.value.as_str());
        } else {
            let label = item.label;
            let t = truncate(label, width);
            push_painted(out, cfg.color, cfg.accent.0, t.as_str());
            // Reserve the label and its separator before truncating the value.
            let lw = unicode_str_width(label);
            let used = (if lw < width {
                lw
            } else {
                width
            }) + 2;
            if width > used {
                out.push(':');
                out.push(' ');
                let v = truncate(item.value.as_str(), width - used);
                push_painted(out, cfg.color, cfg.value.0, v.as_str());
            }
        }
    }
}

/// Line `y` of the pane (see [`composed_line`]).
fn compose_line(
    y: usize,
    scene: &Scene,
    cfg: &Config,
    kept_idx: &Vec<usize>,
    title_w: usize,
    height: usize,
) -> (line: String)
    requires
        composable(*scene, *cfg),
        title_w == str_columns(scene.title@),
        kept_idx@.len() == kept(scene.items@, cfg.color).len(),
        forall|j: int| 0 <= j < kept_idx@.len() ==> #[trigger] kept_idx@[j] < scene.items@.len() && scene.items@[kept_idx@[j] as int] == kept(scene.items@, cfg.color)[j],
        height == pane_rows(scene.art@.len(), scene.items@, cfg.color),
    ensures
        line@ == composed_line(y as nat, *scene, *cfg),
{
    proof {
        lemma_kept_len(scene.items@, cfg.color);
    }
    let art = scene.art;
    let rows = kept_idx.len() + 2;
    let art_top = (height - art.len()) / 2;
    let info_top = (height - rows) / 2;
    let info_col = if scene.art_w == 0 {
        0
    } else {
        scene.art_w + cfg.gap
    };
    let info_w = if scene.width > info_col {
        scene.width - info_col
    } else {
        0
    };
    let mut line = String::new();
    let has_art = art_top <= y && y - art_top < art.len();
    let mut drawn: usize = 0;
    if has_art {
        let row = art[y - art_top].as_str();
        paint_art_row(&mut line, row, y, height, cfg, scene.phase);
        drawn = unicode_str_width(row);
    }
    let ghost art_part = line@;
    if info_top <= y && y - info_top < rows {
        // Pad from the art's visible width; escapes occupy no columns.
        let mut p = drawn;
        while p < info_col
            invariant
                drawn <= info_col ==> drawn <= p <= info_col,
                drawn > info_col ==> p == drawn,
                line@ == art_part + spaces((p - drawn) as nat),
            decreases info_col - p,
        {
            line.push(' ');
            p = p + 1;
            assert(line@ =~= art_part + spaces((p - drawn) as nat));
        }
        paint_info_row(&mut line, y - info_top, scene.title, title_w, scene.items, kept_idx, cfg, info_w);
        assert(line@ =~= art_part + (spaces(if info_col > drawn {
            (info_col - drawn) as nat
        } else {
            0
        }) + info_row_text((y - info_top) as nat, scene.title@, kept(scene.items@, cfg.color), *cfg, info_w as nat)));
    } else {
        assert(line@ =~= art_part + seq![]);
    }
    // Trailing blanks are invisible but still cost bytes every repaint.
    let chars = chars_of(line.as_str());
    let n = trim_end_len(chars.as_slice());
    let kept_chars = slice_of(chars.as_slice(), 0, n);
    assert(chars@.subrange(0, n as int) =~= chars@.take(n as int));
    string_of(kept_chars.as_slice())
}

/// Build the fetch pane: art on the left, info on the right, one string per
/// terminal line.
pub fn compose(scene: &Scene, cfg: &Config) -> (out: Vec<String>)
    requires
        composable(*scene, *cfg),
    ensures
        out@.len() == pane_rows(scene.art@.len(), scene.items@, cfg.color),
        forall|y: int| 0 <= y < out@.len() ==> #[trigger] out@[y]@ == composed_line(y as nat, *scene, *cfg),
{
    proof {
        lemma_kept_len(scene.items@, cfg.color);
    }
    let kept_idx = info_rows(scene.items, cfg.color);
    let rows = kept_idx.len() + 2;
    // Centre the shorter pane against the taller one.
    let height = if scene.art.len() > rows {
        scene.art.len()
    } else {
        rows
    };
    let title_w = unicode_str_width(scene.title);
    let mut out: Vec<String> = Vec::new();
    let mut y: usize = 0;
    while y < height
        invariant
            y <= height,
            height == pane_rows(scene.art@.len(), scene.items@, cfg.color),
            composable(*scene, *cfg),
            title_w == str_columns(scene.title@),
            kept_idx@.len() == kept(scene.items@, cfg.color).len(),
            forall|j: int| 0 <= j < kept_idx@.len() ==> #[trigger] kept_idx@[j] < scene.items@.len() && scene.items@[kept_idx@[j] as int] == kept(scene.items@, cfg.color)[j],
            out@.len() == y,
            forall|j: int| 0 <= j < y ==> #[trigger] out@[j]@ == composed_line(j as nat, *scene, *cfg),
        decreases height - y,
    {
        let line = compose_line(y, scene, cfg, &kept_idx, title_w, height);
        out.push(line);
        y = y + 1;
    }
    out
}

/// Save cursor position and attributes (DECSC).
pub open spec fn save_cursor() -> Seq<char> {
    seq![esc(), '7']
}

/// Restore what [`save_cursor`] saved (DECRC).
pub open spec fn restore_cursor() -> Seq<char> {
    seq![esc(), '8']
}

/// Begin synchronized output: the frame lands in one go, so it cannot tear.
pub open spec fn begin_sync() -> Seq<char> {
    seq![esc(), '[', '?', '2', '0', '2', '6', 'h']
}

/// End synchronized output.
pub open spec fn end_sync() -> Seq<char> {
    seq![esc(), '[', '?', '2', '0', '2', '6', 'l']
}

/// Origin mode off (DECOM reset).
pub open spec fn origin_off() -> Seq<char> {
    seq![esc(), '[', '?', '6', 'l']
}

/// Origin mode on (DECOM set).
pub open spec fn origin_on() -> Seq<char> {
    seq![esc(), '[', '?', '6', 'h']
}

/// Move to the start of 0-based row `y` and erase it.
pub open spec fn goto_clear(y: nat) -> Seq<char> {
    seq![esc(), '['] + dec(y + 1) + seq![';', '1', 'H', esc(), '[', '2', 'K']
}

/// Erase rows `from..to`, top to bottom.
pub open spec fn clear_rows(from: nat, to: nat) -> Seq<char>
    decreases to,
{
    if to <= from {
        seq![]
    } else {
        clear_rows(from, (to - 1) as nat) + goto_clear((to - 1) as nat)
    }
}

/// Redraw the first `n` of `lines`, skipping each one that `prev` already
/// shows on its row.
pub open spec fn rewrites(prev: Seq<Seq<char>>, lines: Seq<Seq<char>>, n: nat) -> Seq<char>
    decreases n,
{
    if n == 0 {
        seq![]
    } else {
        let y = (n - 1) as nat;
        rewrites(prev, lines, y) + if y < prev.len() && prev[y as int] == lines[y as int] {
            seq![]
        } else {
            goto_clear(y) + lines[y as int]
        }
    }
}

/// The text of each string.
pub open spec fn texts(v: Seq<String>) -> Seq<Seq<char>> {
    Seq::new(v.len(), |i: int| v[i]@)
}

/// Lines that fit in a pane `height` rows tall.
pub open spec fn visible_rows(lines: nat, height: nat) -> nat {
    if lines < height {
        lines
    } else {
        height
    }
}

/// What opens every repaint.
pub open spec fn paint_open(origin: bool) -> Seq<char> {
    begin_sync() + save_cursor() + if origin {
        origin_off()
    } else {
        seq![]
    }
}

/// What closes every repaint.
pub open spec fn paint_close(origin: bool) -> Seq<char> {
    (if origin {
        origin_on()
    } else {
        seq![]
    }) + restore_cursor() + end_sync()
}

/// One repaint of `lines` into rows `1..=height`, by a pane that last showed
/// `prev` (or nothing it can rely on, when `needs_clear`). Absolute addressing
/// for each row; rows the previous frame used and this one does not are
/// erased; the cursor and, under origin mode, the addressing mode are left
/// as found.
pub open spec fn paint_text(prev: Seq<Seq<char>>, needs_clear: bool, origin: bool, lines: Seq<Seq<char>>, height: nat) -> Seq<char> {
    let visible = visible_rows(lines.len(), height);
    let shown = if needs_clear {
        Seq::<Seq<char>>::empty()
    } else {
        prev
    };
    paint_open(origin) + (if needs_clear {
        clear_rows(0, height)
    } else {
        seq![]
    }) + rewrites(shown, lines, visible) + clear_rows(visible, visible_rows(shown.len(), height)) + paint_close(origin)
}

/// Incremental painter for the pinned pane. Rewrites only changed lines and
/// leaves the cursor where it found it, since the user is typing below.
pub struct Pane {
    prev: Vec<String>,
    needs_clear: bool,
    /// Origin mode makes rows relative to the scroll region, which would put
    /// the art inside it. When set, each frame turns it off and back on.
    origin_mode: bool,
}

/// Appends [`goto_clear`] for row `y`.
fn push_goto_clear(out: &mut String, y: usize)
    requires
        y < usize::MAX,
    ensures
        final(out)@ == old(out)@ + goto_clear(y as nat),
{
    out.push('\x1b');
    out.push('[');
    push_dec(out, (y + 1) as u64);
    out.push(';');
    out.push('1');
    out.push('H');
    out.push('\x1b');
    out.push('[');
    out.push('2');
    out.push('K');
    assert(final(out)@ =~= old(out)@ + goto_clear(y as nat));
}

/// Appends [`clear_rows`] for `from..to`.
fn push_clear_rows(out: &mut String, from: usize, to: usize)
    ensures
        final(out)@ == old(out)@ + clear_rows(from as nat, to as nat),
{
    if to <= from {
        assert(old(out)@ + seq![] =~= old(out)@);
        return;
    }
    let mut y = from;
    assert(clear_rows(from as nat, from as nat) =~= seq![]);
    assert(old(out)@ + seq![] =~= old(out)@);
    while y < to
        invariant
            from <= y <= to,
            out@ == old(out)@ + clear_rows(from as nat, y as nat),
        decreases to - y,
    {
        push_goto_clear(out, y);
        y = y + 1;
        assert(out@ =~= old(out)@ + clear_rows(from as nat, y as nat));
    }
}

/// Appends [`rewrites`] of the first `n` lines against what `prev` shows.
fn push_rewrites(out: &mut String, prev: &Vec<String>, lines: &[String], n: usize)
    requires
        n <= lines@.len(),
    ensures
        final(out)@ == old(out)@ + rewrites(texts(prev@), texts(lines@), n as nat),
{
    let ghost shown = texts(prev@);
    let ghost lv = texts(lines@);
    let mut y: usize = 0;
    assert(old(out)@ + seq![] =~= old(out)@);
    while y < n
        invariant
            y <= n,
            n <= lines@.len(),
            shown == texts(prev@),
            lv == texts(lines@),
            out@ == old(out)@ + rewrites(shown, lv, y as nat),
        decreases n - y,
    {
        let same = y < prev.len() && prev[y] == lines[y];
        if !same {
            // Absolute per line; never trust where the last write left it.
            push_goto_clear(out, y);
            push_str(out, lines[y].as_str());
        }
        y = y + 1;
        assert(out@ =~= old(out)@ + rewrites(shown, lv, y as nat));
    }
}

/// Copies of the first `n` strings.
fn copy_prefix(lines: &[String], n: usize) -> (out: Vec<String>)
    requires
        n <= lines@.len(),
    ensures
        texts(out@) == texts(lines@).take(n as int),
{
    let mut out: Vec<String> = Vec::new();
    let mut j: usize = 0;
    while j < n
        invariant
            j <= n,
            n <= lines@.len(),
            out@.len() == j,
            forall|k: int| 0 <= k < j ==> #[trigger] out@[k]@ == lines@[k]@,
        decreases n - j,
    {
        let s = lines[j].clone();
        out.push(s);
        j = j + 1;
    }
    assert(texts(out@) =~= texts(lines@).take(n as int));
    out
}

/// Appends [`paint_open`].
fn push_paint_open(out: &mut String, origin: bool)
    ensures
        final(out)@ == old(out)@ + paint_open(origin),
{
    out.push('\x1b');
    out.push('[');
    out.push('?');
    out.push('2');
    out.push('0');
    out.push('2');
    out.push('6');
    out.push('h');
    out.push('\x1b');
    out.push('7');
    if origin {
        out.push('\x1b');
        out.push('[');
        out.push('?');
        out.push('6');
        out.push('l');
    }
    assert(final(out)@ =~= old(out)@ + paint_open(origin));
}

/// Appends [`paint_close`].
fn push_paint_close(out: &mut String, origin: bool)
    ensures
        final(out)@ == old(out)@ + paint_close(origin),
{
    if origin {
        out.push('\x1b');
        out.push('[');
        out.push('?');
        out.push('6');
        out.push('h');
    }
    out.push('\x1b');
    out.push('8');
    out.push('\x1b');
    out.push('[');
    out.push('?');
    out.push('2');
    out.push('0');
    out.push('2');
    out.push('6');
    out.push('l');
    assert(final(out)@ =~= old(out)@ + paint_close(origin));
}

impl Pane {
    /// The lines the terminal shows from the last repaint.
    pub closed spec fn shown(&self) -> Seq<Seq<char>> {
        texts(self.prev@)
    }

    /// Whether the next repaint starts by erasing every pane row.
    pub closed spec fn must_clear(&self) -> bool {
        self.needs_clear
    }

    /// Whether the terminal is in origin mode.
    pub closed spec fn in_origin_mode(&self) -> bool {
        self.origin_mode
    }

    pub fn new() -> (p: Self)
        ensures
            p.shown() == Seq::<Seq<char>>::empty(),
            p.must_clear(),
            !p.in_origin_mode(),
    {
        let p = Pane { prev: Vec::new(), needs_clear: true, origin_mode: false };
        assert(texts(p.prev@) =~= Seq::<Seq<char>>::empty());
        p
    }

    /// Declare that the terminal is in origin mode, so painting can opt out of
    /// it for the duration of each frame.
    pub fn with_origin_mode(self) -> (p: Self)
        ensures
            p.shown() == self.shown(),
            p.must_clear() == self.must_clear(),
            p.in_origin_mode(),
    {
        Pane { prev: self.prev, needs_clear: self.needs_clear, origin_mode: true }
    }

    /// Force a full repaint, after a resize or a child that drew over us.
    pub fn invalidate(&mut self)
        ensures
            final(self).shown() == old(self).shown(),
            final(self).must_clear(),
            final(self).in_origin_mode() == old(self).in_origin_mode(),
    {
        self.needs_clear = true;
    }

    /// The bytes that draw `lines` into rows `1..=height`, as one write so
    /// nothing can interleave with it. The pane then remembers what it drew.
    pub fn paint(&mut self, lines: &[String], height: usize) -> (buf: String)
        ensures
            buf@ == paint_text(old(self).shown(), old(self).must_clear(), old(self).in_origin_mode(), texts(lines@), height as nat),
            final(self).shown() == texts(lines@).take(visible_rows(lines@.len(), height as nat) as int),
            !final(self).must_clear(),
            final(self).in_origin_mode() == old(self).in_origin_mode(),
    {
        let visible = if lines.len() < height {
            lines.len()
        } else {
            height
        };
        let mut buf = String::new();
        push_paint_open(&mut buf, self.origin_mode);
        let ghost opened = buf@;
        if self.needs_clear {
            // Only our rows; a full clear would take the output below too.
            push_clear_rows(&mut buf, 0, height);
            self.prev = Vec::new();
            assert(texts(self.prev@) =~= Seq::<Seq<char>>::empty());
        }
        let ghost cleared = buf@;
        let ghost shown = texts(self.prev@);
        push_rewrites(&mut buf, &self.prev, lines, visible);
        let ghost rewritten = buf@;
        // The frame shrank: erase the rows the previous one occupied.
        let upto = if self.prev.len() < height {
            self.prev.len()
        } else {
            height
        };
        push_clear_rows(&mut buf, visible, upto);
        let ghost erased = buf@;
        push_paint_close(&mut buf, self.origin_mode);
        proof {
            let clear_part = if old(self).needs_clear {
                clear_rows(0, height as nat)
            } else {
                seq![]
            };
            assert(cleared =~= paint_open(self.origin_mode) + clear_part);
            assert(buf@ =~= paint_open(self.origin_mode) + clear_part + rewrites(shown, texts(lines@), visible as nat)
                + clear_rows(visible as nat, visible_rows(shown.len(), height as nat)) + paint_close(self.origin_mode));
        }
        self.prev = copy_prefix(lines, visible);
        self.needs_clear = false;
        buf
    }
}

proof fn lemma_rewrites_unchanged(prev: Seq<Seq<char>>, lines: Seq<Seq<char>>, n: nat)
    requires
        n <= prev.len(),
        n <= lines.len(),
        forall|y: int| 0 <= y < n ==> prev[y] == lines[y],
    ensures
        rewrites(prev, lines, n) == Seq::<char>::empty(),
    decreases n,
{
    if n > 0 {
        lemma_rewrites_unchanged(prev, lines, (n - 1) as nat);
        assert(rewrites(prev, lines, n) =~= Seq::<char>::empty());
    }
}

/// Every repaint is bracketed: it opens with synchronized output and a saved
/// cursor (origin mode suspended when the terminal uses it), and closes by
/// putting both back, so the cursor the user types at never moves.
pub proof fn lemma_paint_is_bracketed(prev: Seq<Seq<char>>, needs_clear: bool, origin: bool, lines: Seq<Seq<char>>, height: nat)
    ensures
        ({
            let t = paint_text(prev, needs_clear, origin, lines, height);
            &&& t.len() >= paint_open(origin).len() + paint_close(origin).len()
            &&& t.take(paint_open(origin).len() as int) == paint_open(origin)
            &&& t.skip(t.len() - paint_close(origin).len()) == paint_close(origin)
        }),
{
    let t = paint_text(prev, needs_clear, origin, lines, height);
    let visible = visible_rows(lines.len(), height);
    let shown = if needs_clear {
        Seq::<Seq<char>>::empty()
    } else {
        prev
    };
    let middle = (if needs_clear {
        clear_rows(0, height)
    } else {
        seq![]
    }) + rewrites(shown, lines, visible) + clear_rows(visible, visible_rows(shown.len(), height));
    assert(t =~= paint_open(origin) + middle + paint_close(origin));
    assert(t.take(paint_open(origin).len() as int) =~= paint_open(origin));
    assert(t.skip(t.len() - paint_close(origin).len()) =~= paint_close(origin));
}

/// Painting the frame the pane already shows writes nothing between the
/// brackets: unchanged lines are never rewritten.
pub proof fn lemma_repaint_of_same_frame_is_empty(origin: bool, lines: Seq<Seq<char>>, height: nat)
    ensures
        paint_text(lines.take(visible_rows(lines.len(), height) as int), false, origin, lines, height) == paint_open(origin)
            + paint_close(origin),
{
    let visible = visible_rows(lines.len(), height);
    let shown = lines.take(visible as int);
    lemma_rewrites_unchanged(shown, lines, visible);
    assert(visible_rows(shown.len(), height) == visible);
    assert(clear_rows(visible, visible) =~= Seq::<char>::empty());
    assert(paint_text(shown, false, origin, lines, height) =~= paint_open(origin) + paint_close(origin));
}

} // verus!
