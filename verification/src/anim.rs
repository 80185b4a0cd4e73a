//! Animation frames: loading, and resampling to the terminal's size.
//!
//! Art is plain text, one file per frame, read as a coverage grid rather than as
//! characters, which is what lets it be rescaled.
//!
//! [`Ink::Half`] uses half blocks: solid glyphs, crisp edges, small holes
//! survive. [`Ink::Ramp`] picks by density for a classic ASCII look, but shaded
//! blocks are stipple patterns in most fonts and read as noise.

use vstd::prelude::*;
use vstd::arithmetic::div_mod::{lemma_fundamental_div_mod, lemma_fundamental_div_mod_converse};
use crate::grid::{drop_specks, enclosed_cells, enclosed, holes_of};
use crate::color::{strip, strip_chars};
use crate::text::{
    debug_quoted, debug_str, push_str, chars_of, is_whitespace, is_ws, lines, lines_of,
    same_chars, string_of, trim_end, trim_end_len,
};

verus! {

broadcast use {vstd::string::group_string_axioms, vstd::seq_lib::group_to_multiset_ensures};

/// The animation used when nothing else is configured.
pub const DEFAULT_NAME: &'static str = "cat-run";

/// Width of the widest line.
pub open spec fn canvas_width(ls: Seq<Seq<char>>) -> nat
    decreases ls.len(),
{
    if ls.len() == 0 {
        0
    } else {
        let rest = canvas_width(ls.drop_last());
        if rest >= ls.last().len() {
            rest
        } else {
            ls.last().len()
        }
    }
}

/// Cell `i` of the coverage mask of `ls` on a canvas `w` wide: inked when the
/// line has a non-blank character there. Short lines are padded with blanks.
pub open spec fn mask_at(ls: Seq<Seq<char>>, w: nat, i: int) -> bool {
    let y = i / (w as int);
    let x = i % (w as int);
    x < ls[y].len() && !is_ws(ls[y][x])
}

/// The coverage mask of `ls`, row by row, each row `w` cells.
pub open spec fn ink_mask(ls: Seq<Seq<char>>, w: nat) -> Seq<bool> {
    Seq::new(ls.len() * w, |i: int| mask_at(ls, w, i))
}

/// The holes kept for a mask `w` by `h`: enclosed blank regions of two or more
/// cells, and none at all on an empty canvas.
pub open spec fn holes_for(ink: Seq<bool>, w: nat, h: nat) -> Seq<bool> {
    if w == 0 || h == 0 {
        Seq::empty()
    } else {
        holes_of(ink, w)
    }
}

/// A frame's text fits a canvas whose cell count a `usize` can hold.
pub open spec fn fits_canvas(text: Seq<char>) -> bool {
    canvas_width(lines(text)) * lines(text).len() <= usize::MAX
}

/// One frame as a binary coverage mask on a `width * height` grid.
pub struct Frame {
    width: usize,
    height: usize,
    ink: Vec<bool>,
    /// Blank cells enclosed by ink (an eye, a nostril) rather than background.
    /// Part of the drawing, so preserved rather than averaged.
    hole: Vec<bool>,
    /// The source lines, for art drawn with its own characters.
    rows: Vec<Vec<char>>,
}

proof fn lemma_cell_index(w: int, h: int, x: int, y: int)
    requires
        0 <= x < w,
        0 <= y < h,
    ensures
        0 <= y * w + x < h * w,
        (y * w + x) / w == y,
        (y * w + x) % w == x,
{
    assert(0 <= y * w + x < h * w) by (nonlinear_arith)
        requires
            0 <= x < w,
            0 <= y < h,
    ;
    lemma_fundamental_div_mod_converse(y * w + x, w, y, x);
}

proof fn lemma_mod_of_product(w: int, h: int)
    requires
        w > 0,
        h >= 0,
    ensures
        (h * w) % w == 0,
{
    lemma_fundamental_div_mod_converse(h * w, w, h, 0);
}

impl Frame {
    /// The source lines.
    pub closed spec fn rows_view(&self) -> Seq<Seq<char>> {
        self.rows@.map_values(|r: Vec<char>| r@)
    }

    /// Canvas width, in cells.
    pub closed spec fn width_view(&self) -> nat {
        self.width as nat
    }

    /// Canvas height, in cells.
    pub closed spec fn height_view(&self) -> nat {
        self.height as nat
    }

    /// The coverage mask, row by row.
    pub closed spec fn ink_view(&self) -> Seq<bool> {
        self.ink@
    }

    /// The enclosed holes, row by row.
    pub closed spec fn hole_view(&self) -> Seq<bool> {
        self.hole@
    }

    /// Everything a frame holds follows from its source lines.
    pub closed spec fn wf(&self) -> bool {
        &&& self.height == self.rows_view().len()
        &&& self.width == canvas_width(self.rows_view())
        &&& self.ink@ == ink_mask(self.rows_view(), self.width as nat)
        &&& self.ink@.len() == self.width * self.height
        &&& self.hole@ == holes_for(self.ink@, self.width as nat, self.height as nat)
        &&& (self.width > 0 && self.height > 0) ==> self.hole@.len() == self.ink@.len()
    }

    /// Whether `text` is small enough for its canvas to be held.
    pub fn fits(text: &str) -> (r: bool)
        ensures
            r == fits_canvas(text@),
    {
        let chars = chars_of(text);
        let rows = lines_of(chars.as_slice());
        let ghost ls = lines(text@);
        let w = Self::widest(&rows);
        assert(rows@.map_values(|r: Vec<char>| r@) =~= ls);
        let h = rows.len();
        proof {
            vstd::arithmetic::mul::lemma_mul_upper_bound(w as int, 0xffff_ffff_ffff_ffff, h as int, 0xffff_ffff_ffff_ffff);
        }
        (w as u128) * (h as u128) <= usize::MAX as u128
    }

    fn widest(rows: &Vec<Vec<char>>) -> (w: usize)
        ensures
            w == canvas_width(rows@.map_values(|r: Vec<char>| r@)),
    {
        let ghost ls = rows@.map_values(|r: Vec<char>| r@);
        let mut w: usize = 0;
        let mut k: usize = 0;
        while k < rows.len()
            invariant
                k <= rows@.len(),
                ls == rows@.map_values(|r: Vec<char>| r@),
                w == canvas_width(ls.take(k as int)),
            decreases rows@.len() - k,
        {
            assert(ls.take(k + 1).drop_last() =~= ls.take(k as int));
            assert(ls.take(k + 1).last() == rows@[k as int]@);
            if rows[k].len() > w {
                w = rows[k].len();
            }
            k = k + 1;
        }
        assert(ls.take(rows@.len() as int) =~= ls);
        w
    }

    /// Reads one frame of art.
    #[verifier::spinoff_prover]
    pub fn parse(text: &str) -> (f: Self)
        requires
            fits_canvas(text@),
        ensures
            f.wf(),
            f.rows_view() == lines(text@),
    {
        let chars = chars_of(text);
        let rows = lines_of(chars.as_slice());
        let ghost ls = lines(text@);
        assert(rows@.map_values(|r: Vec<char>| r@) =~= ls);
        let height = rows.len();
        let width = Self::widest(&rows);
        let mut ink: Vec<bool> = Vec::new();
        let mut y: usize = 0;
        while y < height
            invariant
                height == rows@.len(),
                ls == rows@.map_values(|r: Vec<char>| r@),
                width == canvas_width(ls),
                width * height <= usize::MAX,
                y <= height,
                ink@.len() == y * width,
                forall|i: int| 0 <= i < ink@.len() ==> #[trigger] ink@[i] == mask_at(ls, width as nat, i),
            decreases height - y,
        {
            let row = &rows[y];
            let mut x: usize = 0;
            while x < width
                invariant
                    height == rows@.len(),
                    ls == rows@.map_values(|r: Vec<char>| r@),
                    row@ == ls[y as int],
                    width * height <= usize::MAX,
                    y < height,
                    x <= width,
                    ink@.len() == y * width + x,
                    forall|i: int| 0 <= i < ink@.len() ==> #[trigger] ink@[i] == mask_at(ls, width as nat, i),
                decreases width - x,
            {
                proof {
                    lemma_cell_index(width as int, height as int, x as int, y as int);
                }
                let inked = x < row.len() && !is_whitespace(row[x]);
                ink.push(inked);
                x = x + 1;
            }
            assert(y * width + width == (y + 1) * width) by (nonlinear_arith);
            y = y + 1;
        }
        assert(ink@ =~= ink_mask(ls, width as nat));
        let hole = Self::enclosed_holes(&ink, width, height);
        Frame { width, height, ink, hole, rows }
    }

    /// Blank cells unreachable from the border, in regions of two or more.
    /// Flooding inward is what tells a deliberate hole from empty space: a gap
    /// between legs opens out, an eye doesn't.
    fn enclosed_holes(ink: &Vec<bool>, width: usize, height: usize) -> (hole: Vec<bool>)
        requires
            ink@.len() == width * height,
        ensures
            hole@ == holes_for(ink@, width as nat, height as nat),
            (width > 0 && height > 0) ==> hole@.len() == ink@.len(),
    {
        if width == 0 || height == 0 {
            return Vec::new();
        }
        proof {
            lemma_mod_of_product(width as int, height as int);
        }
        let mut hole = enclosed_cells(ink.as_slice(), width);
        assert(hole@ =~= Seq::new(ink@.len(), |i: int| enclosed(ink@, width as nat, i)));
        drop_specks(&mut hole, width);
        hole
    }

    /// Canvas width, in cells.
    pub fn width(&self) -> (r: usize)
        ensures
            r == self.width_view(),
    {
        self.width
    }

    /// Canvas height, in cells.
    pub fn height(&self) -> (r: usize)
        ensures
            r == self.height_view(),
    {
        self.height
    }

    /// The enclosed holes, row by row.
    pub fn hole(&self) -> (r: &[bool])
        ensures
            r@ == self.hole_view(),
    {
        self.hole.as_slice()
    }
}

/// How coverage is turned back into characters.
#[derive(Clone, Copy)]
pub enum Ink<'a> {
    /// Two vertical samples per cell. Crisp, twice the vertical resolution.
    Half,
    /// 2x2 samples per cell. Double `Half` in both directions, which is what a
    /// detail two source columns wide needs.
    Quad,
    /// One sample per cell, mapped onto a density ramp by coverage.
    Ramp(&'a [char]),
    /// The art's own characters, unresampled. `color` keeps escape sequences
    /// the art carries; without it they are removed.
    Raw { color: bool },
}

/// First source cell of the half-open range covering output index `i`.
pub open spec fn span_start(i: nat, out: nat, src: nat) -> nat {
    i * src / out
}

/// End of the half-open source range covering output index `i`: the range
/// reaches up to where the next index's begins, rounded up, stays inside the
/// source, and is never empty.
pub open spec fn span_end(i: nat, out: nat, src: nat) -> nat {
    let c = (((i + 1) * src + out - 1) as nat) / out;
    let e = if c < src {
        c
    } else {
        src
    };
    if e > span_start(i, out, src) + 1 {
        e
    } else {
        span_start(i, out, src) + 1
    }
}

/// Every range is non-empty and inside the source.
pub proof fn lemma_span(i: nat, out: nat, src: nat)
    requires
        i < out,
        src > 0,
    ensures
        span_start(i, out, src) < span_end(i, out, src) <= src,
{
    assert(i * src < out * src) by (nonlinear_arith)
        requires
            i < out,
            src > 0,
    ;
    assert(i * src / out < src) by (nonlinear_arith)
        requires
            i * src < out * src,
            out > 0,
    ;
}

/// Half-open source range covering output index `i`, guaranteed non-empty.
fn span_wide(i: u128, out_len: u128, src_len: u128) -> (r: (u128, u128))
    requires
        i < out_len,
        out_len <= usize::MAX,
        src_len <= usize::MAX,
        src_len > 0,
    ensures
        r.0 == span_start(i as nat, out_len as nat, src_len as nat),
        r.1 == span_end(i as nat, out_len as nat, src_len as nat),
        r.0 < r.1 <= src_len,
{
    proof {
        lemma_span(i as nat, out_len as nat, src_len as nat);
        vstd::arithmetic::mul::lemma_mul_upper_bound((i + 1) as int, 0xffff_ffff_ffff_ffff, src_len as int, 0xffff_ffff_ffff_ffff);
        vstd::arithmetic::mul::lemma_mul_upper_bound(i as int, 0xffff_ffff_ffff_ffff, src_len as int, 0xffff_ffff_ffff_ffff);
    }
    let start = i * src_len / out_len;
    let c = ((i + 1) * src_len + out_len - 1) / out_len;
    let e = if c < src_len {
        c
    } else {
        src_len
    };
    let end = if e > start + 1 {
        e
    } else {
        start + 1
    };
    (start, end)
}

/// Half-open source range covering output index `i` when `src_len` source
/// cells are spread over `out_len` output cells: from where the index's share
/// begins to where the next one's begins, rounded up and kept inside the
/// source, and never empty.
pub fn span(i: usize, out_len: usize, src_len: usize) -> (r: (usize, usize))
    requires
        out_len > 0,
        (i + 1) * src_len <= usize::MAX,
    ensures
        r.0 == span_start(i as nat, out_len as nat, src_len as nat),
        r.1 == span_end(i as nat, out_len as nat, src_len as nat),
        r.0 < r.1,
        i < out_len && src_len > 0 ==> r.1 <= src_len,
{
    proof {
        if i < out_len && src_len > 0 {
            lemma_span(i as nat, out_len as nat, src_len as nat);
        }
        assert(i * src_len <= (i + 1) * src_len) by (nonlinear_arith);
        assert((i as int) * (src_len as int) / (out_len as int) <= (i as int) * (src_len as int)) by (nonlinear_arith)
            requires
                out_len > 0,
                i >= 0,
                src_len >= 0,
        ;
    }
    let i = i as u128;
    let out_len = out_len as u128;
    let src_len = src_len as u128;
    let start = i * src_len / out_len;
    assert(start <= i * src_len) by (nonlinear_arith)
        requires
            start == (i * src_len) / (out_len as int),
            out_len > 0,
    ;
    assert(src_len > 0 ==> start < 0xffff_ffff_ffff_ffff_u128) by (nonlinear_arith)
        requires
            start <= i * src_len,
            (i + 1) * src_len <= usize::MAX,
            usize::MAX <= 0xffff_ffff_ffff_ffff_u128,
    ;
    assert(src_len > 0 ==> start < usize::MAX) by (nonlinear_arith)
        requires
            start <= i * src_len,
            (i + 1) * src_len <= usize::MAX,
    ;
    assert(src_len == 0 ==> start == 0) by (nonlinear_arith)
        requires
            start <= i * src_len,
    ;
    let c = ((i + 1) * src_len + out_len - 1) / out_len;
    let e = if c < src_len {
        c
    } else {
        src_len
    };
    let end = if e > start + 1 {
        e
    } else {
        start + 1
    };
    (start as usize, end as usize)
}

/// Inked cells of row `y` from column `x0` up to `x1`.
pub open spec fn row_hits(ink: Seq<bool>, w: nat, y: nat, x0: nat, x1: nat) -> nat
    decreases x1,
{
    if x1 <= x0 {
        0
    } else {
        row_hits(ink, w, y, x0, (x1 - 1) as nat) + if ink[(y * w + x1 - 1) as int] {
            1nat
        } else {
            0nat
        }
    }
}

/// Inked cells in rows `y0..y1`, columns `x0..x1`.
pub open spec fn block_hits(ink: Seq<bool>, w: nat, y0: nat, y1: nat, x0: nat, x1: nat) -> nat
    decreases y1,
{
    if y1 <= y0 {
        0
    } else {
        block_hits(ink, w, y0, (y1 - 1) as nat, x0, x1) + row_hits(ink, w, (y1 - 1) as nat, x0, x1)
    }
}

/// Some cell in rows `y0..y1`, columns `x0..x1` is a hole.
pub open spec fn block_has_hole(hole: Seq<bool>, w: nat, y0: nat, y1: nat, x0: nat, x1: nat) -> bool {
    exists|y: nat, x: nat| y0 <= y < y1 && x0 <= x < x1 && #[trigger] hole[(y * w + x) as int]
}

proof fn lemma_row_hits_bound(ink: Seq<bool>, w: nat, y: nat, x0: nat, x1: nat)
    requires
        x0 <= x1,
    ensures
        row_hits(ink, w, y, x0, x1) <= x1 - x0,
    decreases x1,
{
    if x1 > x0 {
        lemma_row_hits_bound(ink, w, y, x0, (x1 - 1) as nat);
    }
}

proof fn lemma_block_hits_bound(ink: Seq<bool>, w: nat, y0: nat, y1: nat, x0: nat, x1: nat)
    requires
        x0 <= x1,
        y0 <= y1,
    ensures
        block_hits(ink, w, y0, y1, x0, x1) <= (y1 - y0) * (x1 - x0),
    decreases y1,
{
    if y1 > y0 {
        lemma_block_hits_bound(ink, w, y0, (y1 - 1) as nat, x0, x1);
        lemma_row_hits_bound(ink, w, (y1 - 1) as nat, x0, x1);
        assert(((y1 - 1 - y0) as nat) * ((x1 - x0) as nat) + (x1 - x0) == (y1 - y0) * (x1 - x0)) by (nonlinear_arith)
            requires
                y1 > y0,
                x1 >= x0,
        ;
    }
}

/// Sample `(x, y)` of a `cols * rows` grid laid over the canvas is solid: no
/// hole under it and at least half of it inked. A hole anywhere forces blank,
/// otherwise it would flicker as the art moves across the output grid.
pub open spec fn solid_at(ink: Seq<bool>, hole: Seq<bool>, w: nat, h: nat, x: nat, y: nat, cols: nat, rows: nat) -> bool {
    let (x0, x1) = (span_start(x, cols, w), span_end(x, cols, w));
    let (y0, y1) = (span_start(y, rows, h), span_end(y, rows, h));
    !block_has_hole(hole, w, y0, y1, x0, x1) && 2 * block_hits(ink, w, y0, y1, x0, x1) >= (y1 - y0) * (x1 - x0)
}

/// Position on a ramp whose last index is `top` for sample `(x, y)`: the
/// inked fraction times `top`, rounded half up, or 0 over a hole.
pub open spec fn ramp_level(ink: Seq<bool>, hole: Seq<bool>, w: nat, h: nat, x: nat, y: nat, cols: nat, rows: nat, top: nat) -> nat {
    let (x0, x1) = (span_start(x, cols, w), span_end(x, cols, w));
    let (y0, y1) = (span_start(y, rows, h), span_end(y, rows, h));
    let area = ((y1 - y0) * (x1 - x0)) as nat;
    if block_has_hole(hole, w, y0, y1, x0, x1) {
        0
    } else {
        let a = block_hits(ink, w, y0, y1, x0, x1) * top;
        a / area + if 2 * (a % area) >= area {
            1nat
        } else {
            0nat
        }
    }
}

/// Block glyph for an upper and a lower half.
pub open spec fn half_glyph(upper: bool, lower: bool) -> char {
    if upper && lower {
        '█'
    } else if upper {
        '▀'
    } else if lower {
        '▄'
    } else {
        ' '
    }
}

/// Quadrant glyph, indexed by the four samples as bits: TL, TR, BL, BR.
pub open spec fn quad_glyph(bits: nat) -> char {
    quad_glyphs()[bits as int]
}

/// The sixteen quadrant glyphs, indexed by their four samples as bits.
pub open spec fn quad_glyphs() -> Seq<char> {
    seq![' ', '▗', '▖', '▄', '▝', '▐', '▞', '▟', '▘', '▚', '▌', '▙', '▀', '▜', '▛', '█']
}

/// The character for output cell `(ox, oy)` of an `out_w * out_h` resample.
pub open spec fn glyph(ink: Seq<bool>, hole: Seq<bool>, w: nat, h: nat, ox: nat, oy: nat, out_w: nat, out_h: nat, style: Ink) -> char {
    match style {
        Ink::Half => half_glyph(
            solid_at(ink, hole, w, h, ox, 2 * oy, out_w, 2 * out_h),
            solid_at(ink, hole, w, h, ox, 2 * oy + 1, out_w, 2 * out_h),
        ),
        Ink::Quad => {
            let b = |dx: nat, dy: nat| if solid_at(ink, hole, w, h, 2 * ox + dx, 2 * oy + dy, 2 * out_w, 2 * out_h) {
                1nat
            } else {
                0nat
            };
            quad_glyph(8 * b(0, 0) + 4 * b(1, 0) + 2 * b(0, 1) + b(1, 1))
        },
        Ink::Ramp(ramp) => ramp@[ramp_level(ink, hole, w, h, ox, oy, out_w, out_h, (ramp@.len() - 1) as nat) as int],
        Ink::Raw { .. } => ' ',
    }
}

impl Frame {
    /// Whether some cell of the block is a hole, how many are inked, and how
    /// many it has.
    fn block(&self, x: u128, y: u128, cols: u128, rows: u128) -> (r: (bool, u128, u128))
        requires
            self.wf(),
            self.width > 0,
            self.height > 0,
            x < cols <= usize::MAX,
            y < rows <= usize::MAX,
        ensures
            ({
                let (x0, x1) = (span_start(x as nat, cols as nat, self.width as nat), span_end(x as nat, cols as nat, self.width as nat));
                let (y0, y1) = (span_start(y as nat, rows as nat, self.height as nat), span_end(y as nat, rows as nat, self.height as nat));
                &&& r.0 == block_has_hole(self.hole@, self.width as nat, y0, y1, x0, x1)
                &&& !r.0 ==> r.1 == block_hits(self.ink@, self.width as nat, y0, y1, x0, x1)
                &&& r.2 == (y1 - y0) * (x1 - x0)
                &&& r.1 <= r.2
                &&& 0 < r.2 <= self.width * self.height
                &&& r.2 <= usize::MAX
            }),
    {
        let w = self.width as u128;
        let h = self.height as u128;
        let n = self.ink.len();
        assert((h as int) * (w as int) == n) by (nonlinear_arith)
            requires
                n == self.width * self.height,
                w == self.width,
                h == self.height,
        ;
        let (x0, x1) = span_wide(x, cols, w);
        let (y0, y1) = span_wide(y, rows, h);
        let ghost wn = self.width as nat;
        assert((y1 - y0) * (x1 - x0) <= (h as int) * (w as int)) by (nonlinear_arith)
            requires
                y0 < y1 <= h,
                x0 < x1 <= w,
        ;
        assert((y1 - y0) * (x1 - x0) > 0) by (nonlinear_arith)
            requires
                y0 < y1,
                x0 < x1,
        ;
        let area = (y1 - y0) * (x1 - x0);
        let mut hits: u128 = 0;
        let mut yy = y0;
        while yy < y1
            invariant
                self.wf(),
                w == self.width,
                h == self.height,
                wn == w as nat,
                (h as int) * (w as int) <= usize::MAX,
                x0 == span_start(x as nat, cols as nat, wn),
                x1 == span_end(x as nat, cols as nat, wn),
                y0 == span_start(y as nat, rows as nat, h as nat),
                y1 == span_end(y as nat, rows as nat, h as nat),
                area == (y1 - y0) * (x1 - x0),
                0 < area <= (h as int) * (w as int),
                y0 <= yy <= y1 <= h,
                x0 < x1 <= w,
                hits == block_hits(self.ink@, wn, y0 as nat, yy as nat, x0 as nat, x1 as nat),
                forall|py: nat, px: nat| y0 <= py < yy && x0 <= px < x1 ==> !#[trigger] self.hole@[(py * wn + px) as int],
            decreases y1 - yy,
        {
            proof {
                lemma_block_hits_bound(self.ink@, wn, y0 as nat, yy as nat, x0 as nat, x1 as nat);
                assert((yy - y0) * (x1 - x0) <= (h as int) * (w as int)) by (nonlinear_arith)
                    requires
                        y0 <= yy <= h,
                        x0 < x1 <= w,
                ;
            }
            let mut xx = x0;
            let ghost row_start = hits;
            while xx < x1
                invariant
                    self.wf(),
                    w == self.width,
                    h == self.height,
                    wn == w as nat,
                    (h as int) * (w as int) <= usize::MAX,
                    x0 == span_start(x as nat, cols as nat, wn),
                    x1 == span_end(x as nat, cols as nat, wn),
                    y0 == span_start(y as nat, rows as nat, h as nat),
                    y1 == span_end(y as nat, rows as nat, h as nat),
                    area == (y1 - y0) * (x1 - x0),
                    0 < area <= (h as int) * (w as int),
                x0 == span_start(x as nat, cols as nat, wn),
                x1 == span_end(x as nat, cols as nat, wn),
                y0 == span_start(y as nat, rows as nat, h as nat),
                y1 == span_end(y as nat, rows as nat, h as nat),
                area == (y1 - y0) * (x1 - x0),
                0 < area <= (h as int) * (w as int),
                    y0 <= yy < y1 <= h,
                    x0 <= xx <= x1 <= w,
                    row_start == block_hits(self.ink@, wn, y0 as nat, yy as nat, x0 as nat, x1 as nat),
                    row_start <= (yy - y0) * (x1 - x0),
                    (yy - y0) * (x1 - x0) <= (h as int) * (w as int),
                    hits == row_start + row_hits(self.ink@, wn, yy as nat, x0 as nat, xx as nat),
                    forall|py: nat, px: nat| y0 <= py < yy && x0 <= px < x1 ==> !#[trigger] self.hole@[(py * wn + px) as int],
                    forall|px: nat| x0 <= px < xx ==> !#[trigger] self.hole@[(yy * wn + px) as int],
                decreases x1 - xx,
            {
                proof {
                    lemma_cell_index(w as int, h as int, xx as int, yy as int);
                    lemma_row_hits_bound(self.ink@, wn, yy as nat, x0 as nat, xx as nat);
                    assert((yy - y0) * (x1 - x0) + (xx - x0) < (h as int) * (w as int)) by (nonlinear_arith)
                        requires
                            y0 <= yy < y1 <= h,
                            x0 <= xx < x1 <= w,
                    ;
                }
                let i = (yy * w + xx) as usize;
                if self.hole[i] {
                    proof {
                        let (py, px) = (yy as nat, xx as nat);
                        assert(y0 <= py < y1 && x0 <= px < x1 && self.hole@[(py * wn + px) as int]);
                        assert(block_has_hole(self.hole@, wn, y0 as nat, y1 as nat, x0 as nat, x1 as nat));
                    }
                    return (true, 0, area);
                }
                if self.ink[i] {
                    hits = hits + 1;
                }
                xx = xx + 1;
            }
            proof {
                assert forall|py: nat, px: nat| y0 <= py < yy + 1 && x0 <= px < x1 implies !#[trigger] self.hole@[(py * wn + px) as int] by {
                    if py == yy as nat {
                        assert(!self.hole@[(yy * wn + px) as int]);
                    }
                }
            }
            yy = yy + 1;
        }
        proof {
            lemma_block_hits_bound(self.ink@, wn, y0 as nat, y1 as nat, x0 as nat, x1 as nat);
            assert(!block_has_hole(self.hole@, wn, y0 as nat, y1 as nat, x0 as nat, x1 as nat));
        }
        (false, hits, area)
    }
}

/// The quadrant glyph for four samples packed as bits.
fn quad_char(bits: u128) -> (c: char)
    requires
        bits < 16,
    ensures
        c == quad_glyph(bits as nat),
{
    match bits {
        0 => ' ',
        1 => '▗',
        2 => '▖',
        3 => '▄',
        4 => '▝',
        5 => '▐',
        6 => '▞',
        7 => '▟',
        8 => '▘',
        9 => '▚',
        10 => '▌',
        11 => '▙',
        12 => '▀',
        13 => '▜',
        14 => '▛',
        _ => '█',
    }
}

/// `out_w` by `out_h` resampled: one line per output row, trailing blanks
/// dropped. Nothing when either size is zero.
pub open spec fn scaled(ink: Seq<bool>, hole: Seq<bool>, w: nat, h: nat, out_w: nat, out_h: nat, style: Ink) -> Seq<Seq<char>> {
    if out_w == 0 || out_h == 0 || w == 0 || h == 0 {
        Seq::empty()
    } else {
        Seq::new(
            out_h,
            |oy: int| trim_end(Seq::new(out_w, |ox: int| glyph(ink, hole, w, h, ox as nat, oy as nat, out_w, out_h, style))),
        )
    }
}

/// The art's own lines, with their escape sequences when `color` holds.
pub open spec fn raw_lines(rows: Seq<Seq<char>>, color: bool) -> Seq<Seq<char>> {
    Seq::new(rows.len(), |y: int| if color { rows[y] } else { strip(rows[y]) })
}

/// The sizes `scale` can double without overflow.
pub open spec fn scale_fits(out_w: nat, out_h: nat, style: Ink) -> bool {
    &&& (style is Half ==> 2 * out_h <= usize::MAX)
    &&& (style is Quad ==> 2 * out_w <= usize::MAX && 2 * out_h <= usize::MAX)
    &&& (style matches Ink::Ramp(r) ==> r@.len() > 0)
}

/// The output index whose source range takes in source cell `x`, when `src`
/// cells are spread over `out`.
pub open spec fn covering(x: nat, out: nat, src: nat) -> nat {
    x * out / src
}

/// Every source cell lies in the range of the output index covering it.
pub proof fn lemma_covering(x: nat, out: nat, src: nat)
    requires
        x < src,
        out > 0,
    ensures
        covering(x, out, src) < out,
        span_start(covering(x, out, src), out, src) <= x < span_end(covering(x, out, src), out, src),
{
    let i = x * out / src;
    assert(i < out) by (nonlinear_arith)
        requires
            i == x * out / src,
            x < src,
            out > 0,
    ;
    assert(i * src <= x * out) by (nonlinear_arith)
        requires
            i == x * out / src,
            src > 0,
    ;
    assert(i * src / out <= x) by (nonlinear_arith)
        requires
            i * src <= x * out,
            out > 0,
    ;
    assert((i + 1) * src > x * out) by (nonlinear_arith)
        requires
            i == x * out / src,
            src > 0,
    ;
    assert((((i + 1) * src + out - 1) as nat) / out > x) by (nonlinear_arith)
        requires
            (i + 1) * src > x * out,
            out > 0,
    ;
}

/// Where the hole cell `(x, y)` of a `w * h` canvas lands in an
/// `out_w * out_h` resample: the output cell holding the sample that covers
/// it, in the style's sample grid.
pub open spec fn hole_cell(x: nat, y: nat, w: nat, h: nat, out_w: nat, out_h: nat, style: Ink) -> (nat, nat) {
    match style {
        Ink::Half => (covering(x, out_w, w), covering(y, 2 * out_h, h) / 2),
        Ink::Quad => (covering(x, 2 * out_w, w) / 2, covering(y, 2 * out_h, h) / 2),
        _ => (covering(x, out_w, w), covering(y, out_h, h)),
    }
}

/// A sample whose block takes in a hole cell is never solid.
proof fn lemma_hole_sample(ink: Seq<bool>, hole: Seq<bool>, w: nat, h: nat, x: nat, y: nat, cols: nat, rows: nat)
    requires
        x < w,
        y < h,
        cols > 0,
        rows > 0,
        hole[(y * w + x) as int],
    ensures
        covering(x, cols, w) < cols,
        covering(y, rows, h) < rows,
        !solid_at(ink, hole, w, h, covering(x, cols, w), covering(y, rows, h), cols, rows),
        ramp_level(ink, hole, w, h, covering(x, cols, w), covering(y, rows, h), cols, rows, 0) == 0,
        forall|top: nat| ramp_level(ink, hole, w, h, covering(x, cols, w), covering(y, rows, h), cols, rows, top) == 0,
{
    lemma_covering(x, cols, w);
    lemma_covering(y, rows, h);
    let sx = covering(x, cols, w);
    let sy = covering(y, rows, h);
    assert(block_has_hole(hole, w, span_start(sy, rows, h), span_end(sy, rows, h), span_start(sx, cols, w), span_end(sx, cols, w)));
}

/// Quadrant glyphs other than the last are never the full block.
proof fn lemma_quad_not_full(bits: nat)
    requires
        bits < 15,
    ensures
        quad_glyph(bits) != '█',
{
    if bits == 0 {
    } else if bits == 1 {
    } else if bits == 2 {
    } else if bits == 3 {
    } else if bits == 4 {
    } else if bits == 5 {
    } else if bits == 6 {
    } else if bits == 7 {
    } else if bits == 8 {
    } else if bits == 9 {
    } else if bits == 10 {
    } else if bits == 11 {
    } else if bits == 12 {
    } else if bits == 13 {
    } else {
    }
}

/// An enclosed hole is never drawn over, at any size or alignment: the output
/// cell covering a hole cell is not a full block in the block styles, and is
/// the ramp's first character in the ramp style. This is how an eye stays an
/// eye when the art is scaled.
pub proof fn lemma_holes_stay_open(f: Frame, out_w: nat, out_h: nat, style: Ink, x: nat, y: nat)
    requires
        f.wf(),
        out_w > 0,
        out_h > 0,
        x < f.width_view(),
        y < f.height_view(),
        f.hole_view()[(y * f.width_view() + x) as int],
        style matches Ink::Ramp(r) ==> r@.len() > 0,
    ensures
        ({
            let (w, h) = (f.width_view(), f.height_view());
            let c = hole_cell(x, y, w, h, out_w, out_h, style);
            &&& c.0 < out_w
            &&& c.1 < out_h
            &&& (style is Half || style is Quad) ==> glyph(f.ink_view(), f.hole_view(), w, h, c.0, c.1, out_w, out_h, style) != '█'
            &&& style matches Ink::Ramp(r) ==> glyph(f.ink_view(), f.hole_view(), w, h, c.0, c.1, out_w, out_h, style) == r@[0]
        }),
{
    let (w, h) = (f.width_view(), f.height_view());
    let (ink, hole) = (f.ink_view(), f.hole_view());
    match style {
        Ink::Half => {
            lemma_hole_sample(ink, hole, w, h, x, y, out_w, 2 * out_h);
            let sy = covering(y, 2 * out_h, h);
            assert(sy / 2 < out_h) by (nonlinear_arith)
                requires
                    sy < 2 * out_h,
            ;
            assert(sy == 2 * (sy / 2) || sy == 2 * (sy / 2) + 1);
        },
        Ink::Quad => {
            lemma_hole_sample(ink, hole, w, h, x, y, 2 * out_w, 2 * out_h);
            let sx = covering(x, 2 * out_w, w);
            let sy = covering(y, 2 * out_h, h);
            assert(sx / 2 < out_w && sy / 2 < out_h) by (nonlinear_arith)
                requires
                    sx < 2 * out_w,
                    sy < 2 * out_h,
            ;
            let (ox, oy) = (sx / 2, sy / 2);
            assert(sx == 2 * ox || sx == 2 * ox + 1);
            assert(sy == 2 * oy || sy == 2 * oy + 1);
            let b = |dx: nat, dy: nat| if solid_at(ink, hole, w, h, 2 * ox + dx, 2 * oy + dy, 2 * out_w, 2 * out_h) {
                1nat
            } else {
                0nat
            };
            assert(b((sx - 2 * ox) as nat, (sy - 2 * oy) as nat) == 0);
            lemma_quad_not_full(8 * b(0, 0) + 4 * b(1, 0) + 2 * b(0, 1) + b(1, 1));
        },
        Ink::Ramp(r) => {
            lemma_hole_sample(ink, hole, w, h, x, y, out_w, out_h);
        },
        Ink::Raw { .. } => {
            lemma_hole_sample(ink, hole, w, h, x, y, out_w, out_h);
        },
    }
}

/// The characters a style draws with: the four half-block glyphs, the
/// sixteen quadrant glyphs, or the ramp's own characters.
pub open spec fn style_glyph(c: char, style: Ink) -> bool {
    match style {
        Ink::Half => c == ' ' || c == '▀' || c == '▄' || c == '█',
        Ink::Quad => quad_glyphs().contains(c),
        Ink::Ramp(r) => r@.contains(c),
        Ink::Raw { .. } => true,
    }
}

/// A ramp position never runs past the ramp's last index.
proof fn lemma_ramp_level_bound(ink: Seq<bool>, hole: Seq<bool>, w: nat, h: nat, x: nat, y: nat, cols: nat, rows: nat, top: nat)
    requires
        x < cols,
        y < rows,
        w > 0,
        h > 0,
    ensures
        ramp_level(ink, hole, w, h, x, y, cols, rows, top) <= top,
{
    lemma_span(x, cols, w);
    lemma_span(y, rows, h);
    let (x0, x1) = (span_start(x, cols, w), span_end(x, cols, w));
    let (y0, y1) = (span_start(y, rows, h), span_end(y, rows, h));
    let area = ((y1 - y0) * (x1 - x0)) as nat;
    assert(area > 0) by (nonlinear_arith)
        requires
            y1 > y0,
            x1 > x0,
            area == (y1 - y0) * (x1 - x0),
    ;
    if !block_has_hole(hole, w, y0, y1, x0, x1) {
        let hits = block_hits(ink, w, y0, y1, x0, x1);
        lemma_block_hits_bound(ink, w, y0, y1, x0, x1);
        let a = hits * top;
        let q = a / area;
        let rem = a % area;
        lemma_fundamental_div_mod(a as int, area as int);
        assert(q + (if 2 * rem >= area { 1int } else { 0int }) <= top) by (nonlinear_arith)
            requires
                a == hits * top,
                hits <= area,
                area > 0,
                a as int == area * q + rem,
                0 <= rem < area,
                q >= 0,
        ;
    }
}

/// Every output cell is drawn with one of the style's characters.
proof fn lemma_glyph_in_style(ink: Seq<bool>, hole: Seq<bool>, w: nat, h: nat, ox: nat, oy: nat, out_w: nat, out_h: nat, style: Ink)
    requires
        ox < out_w,
        oy < out_h,
        w > 0,
        h > 0,
        style matches Ink::Ramp(r) ==> r@.len() > 0,
    ensures
        style_glyph(glyph(ink, hole, w, h, ox, oy, out_w, out_h, style), style),
{
    match style {
        Ink::Quad => {
            let b = |dx: nat, dy: nat| if solid_at(ink, hole, w, h, 2 * ox + dx, 2 * oy + dy, 2 * out_w, 2 * out_h) {
                1nat
            } else {
                0nat
            };
            let bits = 8 * b(0, 0) + 4 * b(1, 0) + 2 * b(0, 1) + b(1, 1);
            assert(bits < 16);
            assert(quad_glyphs()[bits as int] == quad_glyph(bits));
        },
        Ink::Ramp(r) => {
            let top = (r@.len() - 1) as nat;
            lemma_ramp_level_bound(ink, hole, w, h, ox, oy, out_w, out_h, top);
            let l = ramp_level(ink, hole, w, h, ox, oy, out_w, out_h, top);
            assert(r@[l as int] == glyph(ink, hole, w, h, ox, oy, out_w, out_h, style));
        },
        _ => {},
    }
}

/// Trimming the end keeps a prefix that ends on a non-blank, if anything.
proof fn lemma_trim_end_shape(s: Seq<char>)
    ensures
        trim_end(s).len() <= s.len(),
        forall|j: int| 0 <= j < trim_end(s).len() ==> trim_end(s)[j] == s[j],
        trim_end(s).len() > 0 ==> !is_ws(trim_end(s).last()),
    decreases s.len(),
{
    if s.len() > 0 && is_ws(s.last()) {
        lemma_trim_end_shape(s.drop_last());
        assert forall|j: int| 0 <= j < trim_end(s).len() implies trim_end(s)[j] == s[j] by {
            assert(s.drop_last()[j] == s[j]);
        }
    }
}

/// Every resampled line is at most the output width, ends on a non-blank
/// (trailing blanks are dropped), and is drawn only with the style's
/// characters; there is one line per output row, and none at all when either
/// size is zero.
pub proof fn lemma_scaled_shape(f: Frame, out_w: nat, out_h: nat, style: Ink)
    requires
        f.wf(),
        !(style is Raw),
        style matches Ink::Ramp(r) ==> r@.len() > 0,
    ensures
        ({
            let ls = f.scaled_lines(out_w, out_h, style);
            let empty = out_w == 0 || out_h == 0 || f.width_view() == 0 || f.height_view() == 0;
            &&& empty ==> ls.len() == 0
            &&& !empty ==> ls.len() == out_h
            &&& forall|k: int| 0 <= k < ls.len() ==> {
                &&& (#[trigger] ls[k]).len() <= out_w
                &&& (ls[k].len() > 0 ==> !is_ws(ls[k].last()))
                &&& forall|j: int| 0 <= j < ls[k].len() ==> style_glyph(#[trigger] ls[k][j], style)
            }
        }),
{
    let (w, h) = (f.width_view(), f.height_view());
    let ls = f.scaled_lines(out_w, out_h, style);
    if !(out_w == 0 || out_h == 0 || w == 0 || h == 0) {
        assert forall|k: int| 0 <= k < ls.len() implies {
            &&& (#[trigger] ls[k]).len() <= out_w
            &&& (ls[k].len() > 0 ==> !is_ws(ls[k].last()))
            &&& forall|j: int| 0 <= j < ls[k].len() ==> style_glyph(#[trigger] ls[k][j], style)
        } by {
            let row = Seq::new(out_w, |ox: int| glyph(f.ink_view(), f.hole_view(), w, h, ox as nat, k as nat, out_w, out_h, style));
            assert(ls[k] == trim_end(row));
            lemma_trim_end_shape(row);
            assert forall|j: int| 0 <= j < ls[k].len() implies style_glyph(#[trigger] ls[k][j], style) by {
                lemma_glyph_in_style(f.ink_view(), f.hole_view(), w, h, j as nat, k as nat, out_w, out_h, style);
                assert(ls[k][j] == row[j]);
            }
        }
    }
}

impl Frame {
    fn solid(&self, x: u128, y: u128, cols: u128, rows: u128) -> (r: bool)
        requires
            self.wf(),
            self.width > 0,
            self.height > 0,
            x < cols <= usize::MAX,
            y < rows <= usize::MAX,
        ensures
            r == solid_at(self.ink@, self.hole@, self.width as nat, self.height as nat, x as nat, y as nat, cols as nat, rows as nat),
    {
        let (hole, hits, area) = self.block(x, y, cols, rows);
        !hole && 2 * hits >= area
    }

    fn ramp_index(&self, x: u128, y: u128, cols: u128, rows: u128, top: u128) -> (r: u128)
        requires
            self.wf(),
            self.width > 0,
            self.height > 0,
            x < cols <= usize::MAX,
            y < rows <= usize::MAX,
            top <= usize::MAX,
        ensures
            r == ramp_level(self.ink@, self.hole@, self.width as nat, self.height as nat, x as nat, y as nat, cols as nat, rows as nat, top as nat),
            r <= top,
    {
        let (hole, hits, area) = self.block(x, y, cols, rows);
        if hole {
            return 0;
        }
        proof {
            vstd::arithmetic::mul::lemma_mul_upper_bound(hits as int, 0xffff_ffff_ffff_ffff, top as int, 0xffff_ffff_ffff_ffff);
        }
        let a = hits * top;
        let q = a / area;
        let rem = a % area;
        proof {
            lemma_fundamental_div_mod(a as int, area as int);
            assert(q + (if 2 * rem >= area { 1int } else { 0int }) <= top) by (nonlinear_arith)
                requires
                    a == hits * top,
                    hits <= area,
                    area > 0,
                    a as int == area * q + rem,
                    0 <= rem < area,
                    q >= 0,
            ;
        }
        if 2 * rem >= area {
            q + 1
        } else {
            q
        }
    }

    /// The character for output cell `(ox, oy)`.
    fn cell(&self, ox: u128, oy: u128, out_w: u128, out_h: u128, ink: Ink) -> (c: char)
        requires
            self.wf(),
            self.width > 0,
            self.height > 0,
            ox < out_w <= usize::MAX,
            oy < out_h <= usize::MAX,
            scale_fits(out_w as nat, out_h as nat, ink),
        ensures
            c == glyph(self.ink@, self.hole@, self.width as nat, self.height as nat, ox as nat, oy as nat, out_w as nat, out_h as nat, ink),
    {
        match ink {
            Ink::Half => {
                // Two stacked samples per cell, which come out square, so
                // `fit` needs no aspect correction.
                let rows = out_h * 2;
                let upper = self.solid(ox, oy * 2, out_w, rows);
                let lower = self.solid(ox, oy * 2 + 1, out_w, rows);
                if upper && lower {
                    '█'
                } else if upper {
                    '▀'
                } else if lower {
                    '▄'
                } else {
                    ' '
                }
            },
            Ink::Quad => {
                let cols = out_w * 2;
                let rows = out_h * 2;
                let x = ox * 2;
                let y = oy * 2;
                let tl: u128 = if self.solid(x, y, cols, rows) { 1 } else { 0 };
                let tr: u128 = if self.solid(x + 1, y, cols, rows) { 1 } else { 0 };
                let bl: u128 = if self.solid(x, y + 1, cols, rows) { 1 } else { 0 };
                let br: u128 = if self.solid(x + 1, y + 1, cols, rows) { 1 } else { 0 };
                quad_char(8 * tl + 4 * tr + 2 * bl + br)
            },
            Ink::Ramp(ramp) => {
                let top = (ramp.len() - 1) as u128;
                let i = self.ramp_index(ox, oy, out_w, out_h, top);
                ramp[i as usize]
            },
            Ink::Raw { .. } => ' ',
        }
    }

    /// The lines [`Frame::scale`] gives: the resampled cells, or for raw art its
    /// own lines (nothing at all when either size is zero).
    pub open spec fn scaled_lines(&self, out_w: nat, out_h: nat, ink: Ink) -> Seq<Seq<char>> {
        match ink {
            Ink::Raw { color } => if out_w == 0 || out_h == 0 || self.width_view() == 0 || self.height_view() == 0 {
                Seq::empty()
            } else {
                raw_lines(self.rows_view(), color)
            },
            _ => scaled(self.ink_view(), self.hole_view(), self.width_view(), self.height_view(), out_w, out_h, ink),
        }
    }

    /// Resample to `out_w * out_h` character cells. Art drawn with its own
    /// characters comes back as written instead.
    pub fn scale(&self, out_w: usize, out_h: usize, ink: Ink) -> (out: Vec<String>)
        requires
            self.wf(),
            scale_fits(out_w as nat, out_h as nat, ink),
        ensures
            out@.len() == self.scaled_lines(out_w as nat, out_h as nat, ink).len(),
            forall|k: int| 0 <= k < out@.len() ==> #[trigger] out@[k]@ == self.scaled_lines(out_w as nat, out_h as nat, ink)[k],
    {
        let mut out: Vec<String> = Vec::new();
        if out_w == 0 || out_h == 0 || self.width == 0 || self.height == 0 {
            return out;
        }
        if let Ink::Raw { color } = ink {
            let mut y: usize = 0;
            while y < self.rows.len()
                invariant
                    y <= self.rows@.len(),
                    out@.len() == y,
                    forall|k: int| 0 <= k < y ==> #[trigger] out@[k]@ == raw_lines(self.rows_view(), color)[k],
                decreases self.rows@.len() - y,
            {
                let line = if color {
                    string_of(self.rows[y].as_slice())
                } else {
                    strip_chars(self.rows[y].as_slice())
                };
                out.push(line);
                y = y + 1;
            }
            return out;
        }
        let ghost expected = scaled(self.ink@, self.hole@, self.width as nat, self.height as nat, out_w as nat, out_h as nat, ink);
        let mut oy: usize = 0;
        while oy < out_h
            invariant
                self.wf(),
                self.width > 0,
                self.height > 0,
                0 < out_w,
                oy <= out_h,
                scale_fits(out_w as nat, out_h as nat, ink),
                !(ink is Raw),
                expected == scaled(self.ink@, self.hole@, self.width as nat, self.height as nat, out_w as nat, out_h as nat, ink),
                out@.len() == oy,
                forall|k: int| 0 <= k < oy ==> #[trigger] out@[k]@ == expected[k],
            decreases out_h - oy,
        {
            let mut line: Vec<char> = Vec::new();
            let mut ox: usize = 0;
            while ox < out_w
                invariant
                    self.wf(),
                    self.width > 0,
                    self.height > 0,
                    oy < out_h,
                    ox <= out_w,
                    scale_fits(out_w as nat, out_h as nat, ink),
                    line@ == Seq::new(ox as nat, |i: int| glyph(self.ink@, self.hole@, self.width as nat, self.height as nat, i as nat, oy as nat, out_w as nat, out_h as nat, ink)),
                decreases out_w - ox,
            {
                let c = self.cell(ox as u128, oy as u128, out_w as u128, out_h as u128, ink);
                line.push(c);
                ox = ox + 1;
                assert(line@ =~= Seq::new(ox as nat, |i: int| glyph(self.ink@, self.hole@, self.width as nat, self.height as nat, i as nat, oy as nat, out_w as nat, out_h as nat, ink)));
            }
            // Trailing blanks cost bytes on every repaint and render
            // identically to nothing.
            let n = trim_end_len(line.as_slice());
            let kept = crate::text::slice_of(line.as_slice(), 0, n);
            assert(kept@ =~= line@.take(n as int));
            out.push(string_of(kept.as_slice()));
            oy = oy + 1;
        }
        out
    }
}

/// Widest canvas among `frames`.
pub open spec fn widest(frames: Seq<Frame>) -> nat
    decreases frames.len(),
{
    if frames.len() == 0 {
        0
    } else {
        let rest = widest(frames.drop_last());
        if rest >= frames.last().width_view() {
            rest
        } else {
            frames.last().width_view()
        }
    }
}

/// Tallest canvas among `frames`.
pub open spec fn tallest(frames: Seq<Frame>) -> nat
    decreases frames.len(),
{
    if frames.len() == 0 {
        0
    } else {
        let rest = tallest(frames.drop_last());
        if rest >= frames.last().height_view() {
            rest
        } else {
            frames.last().height_view()
        }
    }
}

/// A loaded animation, every frame on a shared canvas.
pub struct Animation {
    pub frames: Vec<Frame>,
    /// Canvas size, used to preserve aspect ratio when fitting to the terminal.
    pub width: usize,
    pub height: usize,
}

/// How loading failed.
#[derive(Debug, Clone, Copy, PartialEq, Eq, Structural)]
pub enum ErrorKind {
    /// No animation by that name exists.
    NotFound,
    /// The animation exists but is unusable.
    Other,
}

/// Why an animation could not be loaded.
pub struct LoadError {
    kind: ErrorKind,
    message: String,
}

impl LoadError {
    pub closed spec fn kind_view(&self) -> ErrorKind {
        self.kind
    }

    pub closed spec fn message_view(&self) -> Seq<char> {
        self.message@
    }

    pub fn kind(&self) -> (r: ErrorKind)
        ensures
            r == self.kind_view(),
    {
        self.kind
    }

    /// The explanation to show.
    pub fn message(&self) -> (r: String)
        ensures
            r@ == self.message_view(),
    {
        self.message.clone()
    }
}

/// What is reported for an unknown animation `name`, looked for in
/// `looked_in` when an animation directory is configured.
pub open spec fn not_found_message(name: Seq<char>, looked_in: Option<Seq<char>>) -> Seq<char> {
    let where_ = match looked_in {
        Some(p) => "looked in "@ + p,
        None => "no animation directory is configured"@,
    };
    "no animation named "@ + debug_str(name) + " ("@ + where_ + "); try --list"@
}

/// `a` is the animation `texts` describe: one frame per text, in order.
pub open spec fn drawn_from(a: Animation, texts: Seq<String>) -> bool {
    &&& a.wf()
    &&& a.frames@.len() == texts.len()
    &&& forall|k: int| 0 <= k < texts.len() ==> #[trigger] a.frames@[k].rows_view() == lines(texts[k]@)
}

/// Every text fits a canvas.
pub open spec fn all_fit(texts: Seq<String>) -> bool {
    forall|k: int| 0 <= k < texts.len() ==> fits_canvas(#[trigger] texts[k]@)
}

impl Animation {
    /// Frames present, each well formed, and the canvas is the largest of
    /// them.
    pub open spec fn wf(&self) -> bool {
        &&& self.frames@.len() > 0
        &&& forall|k: int| 0 <= k < self.frames@.len() ==> #[trigger] self.frames@[k].wf()
        &&& self.width == widest(self.frames@)
        &&& self.height == tallest(self.frames@)
    }

    /// One frame per text; `None` when there are none.
    fn from_texts(texts: Vec<String>) -> (r: Option<Self>)
        requires
            all_fit(texts@),
        ensures
            match r {
                Some(a) => texts@.len() > 0 && drawn_from(a, texts@),
                None => texts@.len() == 0,
            },
    {
        let mut frames: Vec<Frame> = Vec::new();
        let mut width: usize = 0;
        let mut height: usize = 0;
        let mut k: usize = 0;
        while k < texts.len()
            invariant
                k <= texts@.len(),
                all_fit(texts@),
                frames@.len() == k,
                forall|j: int| 0 <= j < k ==> #[trigger] frames@[j].wf(),
                forall|j: int| 0 <= j < k ==> #[trigger] frames@[j].rows_view() == lines(texts@[j]@),
                width == widest(frames@),
                height == tallest(frames@),
            decreases texts@.len() - k,
        {
            let f = Frame::parse(texts[k].as_str());
            let ghost before = frames@;
            // Authored on one canvas, but be forgiving if they are not.
            if f.width() > width {
                width = f.width();
            }
            if f.height() > height {
                height = f.height();
            }
            frames.push(f);
            assert(frames@.drop_last() =~= before);
            k = k + 1;
        }
        if frames.len() == 0 {
            return None;
        }
        Some(Animation { frames, width, height })
    }

    /// Loads an animation, preferring frames read from disk over the copy
    /// built in, so built-in art can be replaced. `on_disk` holds the frame
    /// texts of the animation's directory when that directory exists;
    /// `built_in` the compiled-in frames of that name, if any. An unknown
    /// name errors rather than falling back, since a silent substitution
    /// would hide a typo.
    pub fn load(
        on_disk: Option<Vec<String>>,
        built_in: Option<Vec<String>>,
        name: &str,
        looked_in: Option<String>,
    ) -> (r: Result<Self, LoadError>)
        requires
            on_disk matches Some(t) ==> all_fit(t@),
            built_in matches Some(t) ==> all_fit(t@),
        ensures
            match (on_disk, built_in) {
                (Some(d), _) if d@.len() > 0 => r matches Ok(a) && drawn_from(a, d@),
                (_, Some(b)) => if b@.len() > 0 {
                    r matches Ok(a) && drawn_from(a, b@)
                } else {
                    r matches Err(e) && e.kind_view() == ErrorKind::Other && e.message_view() == "bundled animation is empty"@
                },
                _ => r matches Err(e) && e.kind_view() == ErrorKind::NotFound && e.message_view()
                    == not_found_message(name@, match looked_in {
                    Some(p) => Some(p@),
                    None => None,
                }),
            },
    {
        if let Some(texts) = on_disk {
            if let Some(anim) = Self::from_texts(texts) {
                return Ok(anim);
            }
        }
        if let Some(frames) = built_in {
            return match Self::from_texts(frames) {
                Some(anim) => Ok(anim),
                None => {
                    let mut message = String::new();
                    push_str(&mut message, "bundled animation is empty");
                    Err(LoadError { kind: ErrorKind::Other, message })
                },
            };
        }
        let mut message = String::new();
        push_str(&mut message, "no animation named ");
        let quoted = debug_quoted(name);
        push_str(&mut message, quoted.as_str());
        push_str(&mut message, " (");
        match &looked_in {
            Some(p) => {
                push_str(&mut message, "looked in ");
                push_str(&mut message, p.as_str());
            },
            None => {
                push_str(&mut message, "no animation directory is configured");
            },
        }
        push_str(&mut message, "); try --list");
        proof {
            let where_ = match looked_in {
                Some(p) => "looked in "@ + p@,
                None => "no animation directory is configured"@,
            };
            assert(message@ =~= "no animation named "@ + debug_str(name@) + " ("@ + where_ + "); try --list"@);
        }
        Err(LoadError { kind: ErrorKind::NotFound, message })
    }
}

/// `a / b` rounded to the nearest integer, halves up.
pub open spec fn round_ratio(a: nat, b: nat) -> nat {
    a / b + if 2 * (a % b) >= b {
        1nat
    } else {
        0nat
    }
}

/// `v` held within `lo..=hi`.
pub open spec fn clamp(v: nat, lo: nat, hi: nat) -> nat {
    if v < lo {
        lo
    } else if v > hi {
        hi
    } else {
        v
    }
}

/// The scale, as a fraction `num / den`, that fits a `w * h` canvas into a
/// `max_w * max_h` box: the smallest of the two ratios and 1. A side of the
/// canvas that is zero puts no limit on it.
pub open spec fn fit_scale(w: nat, h: nat, max_w: nat, max_h: nat) -> (nat, nat) {
    let s1 = (1nat, 1nat);
    let s2 = if w > 0 && max_w * s1.1 < s1.0 * w {
        (max_w, w)
    } else {
        s1
    };
    if h > 0 && max_h * s2.1 < s2.0 * h {
        (max_h, h)
    } else {
        s2
    }
}

/// Largest size fitting the box with the aspect ratio kept, never below one
/// cell nor above the box.
pub open spec fn fit_size(w: nat, h: nat, max_w: nat, max_h: nat) -> (nat, nat) {
    let (num, den) = fit_scale(w, h, max_w, max_h);
    let cap_w = if max_w > 1 {
        max_w
    } else {
        1
    };
    let cap_h = if max_h > 1 {
        max_h
    } else {
        1
    };
    (clamp(round_ratio(w * num, den), 1, cap_w), clamp(round_ratio(h * num, den), 1, cap_h))
}

proof fn lemma_round_le(a: nat, b: nat, c: nat)
    requires
        b > 0,
        a <= c * b,
    ensures
        round_ratio(a, b) <= c,
{
    vstd::arithmetic::div_mod::lemma_fundamental_div_mod(a as int, b as int);
    let q = a / b;
    let r = a % b;
    assert(q <= c) by (nonlinear_arith)
        requires
            a == b * q + r,
            r >= 0,
            a <= c * b,
            b > 0,
    ;
    if q == c {
        assert(r == 0) by (nonlinear_arith)
            requires
                a == b * q + r,
                a <= c * b,
                q == c,
                r >= 0,
        ;
    }
}

fn round_div(a: u128, b: u128) -> (r: u128)
    requires
        b > 0,
        b <= u64::MAX,
    ensures
        r == round_ratio(a as nat, b as nat),
{
    let q = a / b;
    let rem = a % b;
    proof {
        vstd::arithmetic::div_mod::lemma_fundamental_div_mod(a as int, b as int);
        assert(q <= a);
    }
    if 2 * rem >= b {
        assert(q + 1 <= a + 1);
        assert(q < u128::MAX) by (nonlinear_arith)
            requires
                a as int == b * q + rem,
                b > 0,
                2 * rem >= b,
                a <= u128::MAX,
        ;
        q + 1
    } else {
        q
    }
}

impl Animation {
    /// Largest size fitting `max_w * max_h`, aspect ratio kept. Capped at
    /// 1:1: upscaling a mask gives chunkier blocks, not detail. Cell shape is
    /// already baked into art authored for a character grid.
    pub fn fit(&self, max_w: usize, max_h: usize) -> (r: (usize, usize))
        ensures
            r.0 == fit_size(self.width as nat, self.height as nat, max_w as nat, max_h as nat).0,
            r.1 == fit_size(self.width as nat, self.height as nat, max_w as nat, max_h as nat).1,
            1 <= r.0,
            1 <= r.1,
            r.0 <= max_w || r.0 == 1,
            r.1 <= max_h || r.1 == 1,
            self.width > 0 ==> r.0 <= self.width,
            self.height > 0 ==> r.1 <= self.height,
    {
        let w = self.width as u128;
        let h = self.height as u128;
        let mut num: u128 = 1;
        let mut den: u128 = 1;
        if w > 0 && (max_w as u128) * den < num * w {
            num = max_w as u128;
            den = w;
        }
        proof {
            vstd::arithmetic::mul::lemma_mul_upper_bound(max_h as int, 0xffff_ffff_ffff_ffff, den as int, 0xffff_ffff_ffff_ffff);
            vstd::arithmetic::mul::lemma_mul_upper_bound(num as int, 0xffff_ffff_ffff_ffff, h as int, 0xffff_ffff_ffff_ffff);
        }
        assert(num <= den && den > 0);
        if h > 0 && (max_h as u128) * den < num * h {
            assert(max_h < h) by (nonlinear_arith)
                requires
                    max_h * den < num * h,
                    num <= den,
                    den > 0,
            ;
            num = max_h as u128;
            den = h;
        }
        let ghost sc = fit_scale(w as nat, h as nat, max_w as nat, max_h as nat);
        assert(num == sc.0 && den == sc.1);
        assert(num <= den);
        proof {
            vstd::arithmetic::mul::lemma_mul_upper_bound(w as int, 0xffff_ffff_ffff_ffff, num as int, 0xffff_ffff_ffff_ffff);
            vstd::arithmetic::mul::lemma_mul_upper_bound(h as int, 0xffff_ffff_ffff_ffff, num as int, 0xffff_ffff_ffff_ffff);
            assert(w * num <= w * den) by (nonlinear_arith)
                requires
                    num <= den,
            ;
            assert(h * num <= h * den) by (nonlinear_arith)
                requires
                    num <= den,
            ;
            lemma_round_le((w * num) as nat, den as nat, w as nat);
            lemma_round_le((h * num) as nat, den as nat, h as nat);
        }
        let rw = round_div(w * num, den);
        let rh = round_div(h * num, den);
        let cap_w: u128 = if max_w > 1 {
            max_w as u128
        } else {
            1
        };
        let cap_h: u128 = if max_h > 1 {
            max_h as u128
        } else {
            1
        };
        let fw = if rw < 1 {
            1
        } else if rw > cap_w {
            cap_w
        } else {
            rw
        };
        let fh = if rh < 1 {
            1
        } else if rh > cap_h {
            cap_h
        } else {
            rh
        };
        (fw as usize, fh as usize)
    }
}

// ---------------------------------------------------------------------------
// The listing
// ---------------------------------------------------------------------------

/// One animation in the listing.
#[derive(Debug)]
pub struct Entry {
    pub name: String,
    pub frames: usize,
    /// Where its frames were read from; `None` for built-in art.
    pub path: Option<String>,
}

/// `a` sorts no later than `b`, comparing characters in order (which is the
/// order of their UTF-8 bytes).
pub open spec fn name_le(a: Seq<char>, b: Seq<char>) -> bool
    decreases a.len(),
{
    if a.len() == 0 {
        true
    } else if b.len() == 0 {
        false
    } else if (a[0] as u32) != (b[0] as u32) {
        (a[0] as u32) < (b[0] as u32)
    } else {
        name_le(a.drop_first(), b.drop_first())
    }
}

proof fn lemma_name_le_total(a: Seq<char>, b: Seq<char>)
    ensures
        name_le(a, b) || name_le(b, a),
    decreases a.len(),
{
    if a.len() > 0 && b.len() > 0 && (a[0] as u32) == (b[0] as u32) {
        lemma_name_le_total(a.drop_first(), b.drop_first());
    }
}

proof fn lemma_name_le_trans(a: Seq<char>, b: Seq<char>, c: Seq<char>)
    requires
        name_le(a, b),
        name_le(b, c),
    ensures
        name_le(a, c),
    decreases a.len(),
{
    if a.len() > 0 && b.len() > 0 && c.len() > 0 && (a[0] as u32) == (b[0] as u32) && (b[0] as u32) == (c[0] as u32) {
        lemma_name_le_trans(a.drop_first(), b.drop_first(), c.drop_first());
    }
}

/// Entries in order of name.
pub open spec fn sorted_by_name(es: Seq<Entry>) -> bool {
    forall|i: int, j: int| 0 <= i < j < es.len() ==> name_le(#[trigger] es[i].name@, #[trigger] es[j].name@)
}

/// `es` with `e` in place of the first entry of the same name, or added.
pub open spec fn upsert(es: Seq<Entry>, e: Entry) -> Seq<Entry>
    decreases es.len(),
{
    if es.len() == 0 {
        seq![e]
    } else if es[0].name@ == e.name@ {
        es.update(0, e)
    } else {
        seq![es[0]] + upsert(es.drop_first(), e)
    }
}

/// The built-in entries, then each animation directory found (one with no
/// frames skipped) shadowing a built-in one of the same name.
pub open spec fn merged(built_in: Seq<Entry>, found: Seq<Entry>) -> Seq<Entry>
    decreases found.len(),
{
    if found.len() == 0 {
        built_in
    } else {
        let before = merged(built_in, found.drop_last());
        if found.last().frames == 0 {
            before
        } else {
            upsert(before, found.last())
        }
    }
}

fn name_le_exec(a: &str, b: &str) -> (r: bool)
    ensures
        r == name_le(a@, b@),
{
    let x = chars_of(a);
    let y = chars_of(b);
    let mut i: usize = 0;
    assert(x@.skip(0) =~= x@);
    assert(y@.skip(0) =~= y@);
    while i < x.len() && i < y.len() && (x[i] as u32) == (y[i] as u32)
        invariant
            i <= x@.len(),
            i <= y@.len(),
            x@ == a@,
            y@ == b@,
            name_le(x@.skip(i as int), y@.skip(i as int)) == name_le(a@, b@),
        decreases x@.len() - i,
    {
        assert(x@.skip(i as int).drop_first() =~= x@.skip(i + 1));
        assert(y@.skip(i as int).drop_first() =~= y@.skip(i + 1));
        i = i + 1;
    }
    if i == x.len() {
        true
    } else if i == y.len() {
        false
    } else {
        (x[i] as u32) < (y[i] as u32)
    }
}

#[verifier::spinoff_prover]
fn insert_sorted(out: &mut Vec<Entry>, e: Entry)
    requires
        sorted_by_name(old(out)@),
    ensures
        sorted_by_name(final(out)@),
        final(out)@.to_multiset() == old(out)@.to_multiset().insert(e),
{
    let mut pos: usize = 0;
    while pos < out.len() && name_le_exec(out[pos].name.as_str(), e.name.as_str())
        invariant
            pos <= out@.len(),
            out@ == old(out)@,
            forall|i: int| 0 <= i < pos ==> name_le(#[trigger] out@[i].name@, e.name@),
        decreases out@.len() - pos,
    {
        pos = pos + 1;
    }
    let ghost before = out@;
    proof {
        if pos < before.len() {
            lemma_name_le_total(before[pos as int].name@, e.name@);
        }
    }
    out.insert(pos, e);
    proof {
        assert(out@ == before.insert(pos as int, e));
        vstd::seq_lib::to_multiset_insert(before, pos as int, e);
        assert forall|i: int, j: int| 0 <= i < j < out@.len() implies name_le(#[trigger] out@[i].name@, #[trigger] out@[j].name@) by {
            if i < pos && j == pos {
            } else if i < pos && j > pos {
                assert(out@[j] == before[j - 1]);
                if pos < before.len() {
                    lemma_name_le_trans(out@[i].name@, e.name@, before[pos as int].name@);
                    if j - 1 > pos {
                        lemma_name_le_trans(out@[i].name@, before[pos as int].name@, before[j - 1].name@);
                    }
                }
            } else if i == pos {
                assert(out@[j] == before[j - 1]);
                if j - 1 > pos {
                    lemma_name_le_trans(e.name@, before[pos as int].name@, before[j - 1].name@);
                }
            } else if i < pos {
                assert(out@[i] == before[i]);
                assert(out@[j] == before[j]);
            } else {
                assert(out@[i] == before[i - 1]);
                assert(out@[j] == before[j - 1]);
            }
        }
    }
}

/// Every animation available, sorted by name. Directories shadow built-in
/// art here too, so the listing agrees with what loading would give you.
/// `found` holds one entry per animation directory.
pub fn list(built_in: Vec<Entry>, found: Vec<Entry>) -> (out: Vec<Entry>)
    ensures
        sorted_by_name(out@),
        out@.to_multiset() == merged(built_in@, found@).to_multiset(),
{
    let mut all = built_in;
    let ghost b = all@;
    let ghost f = found@;
    let count = found.len();
    assert(f.len() == count);
    let mut found_iter = found;
    let mut staged: Vec<Entry> = Vec::new();
    assert(staged@ + found_iter@.reverse() =~= f.reverse());
    // Keep the found entries in order while moving them out one by one.
    while found_iter.len() > 0
        invariant
            staged@ + found_iter@.reverse() == f.reverse(),
        decreases found_iter@.len(),
    {
        let e = found_iter.pop().unwrap();
        staged.push(e);
        assert(staged@ + found_iter@.reverse() =~= f.reverse());
    }
    assert(staged@ =~= f.reverse());
    assert(f.skip(0) =~= f);
    assert(f.take(0) =~= Seq::<Entry>::empty());
    let mut i: usize = 0;
    while staged.len() > 0
        invariant
            staged@.len() + i == f.len(),
            f.len() <= usize::MAX,
            staged@ == f.skip(i as int).reverse(),
            all@ == merged(b, f.take(i as int)),
        decreases staged@.len(),
    {
        let e = staged.pop().unwrap();
        assert(f.skip(i as int).reverse().drop_last() =~= f.skip(i + 1).reverse());
        assert(e == f[i as int]);
        assert(f.take(i + 1).drop_last() =~= f.take(i as int));
        if e.frames > 0 {
            upsert_vec(&mut all, e);
        }
        i = i + 1;
    }
    assert(f.take(i as int) =~= f);
    let mut out: Vec<Entry> = Vec::new();
    let ghost m = all@;
    while all.len() > 0
        invariant
            sorted_by_name(out@),
            out@.to_multiset().add(all@.to_multiset()) == m.to_multiset(),
        decreases all@.len(),
    {
        let ghost before = all@;
        let e = all.pop().unwrap();
        proof {
            assert(before =~= all@.push(e));
        }
        insert_sorted(&mut out, e);
    }
    out
}

/// Replace the first entry named like `e`, or add `e`.
fn upsert_vec(es: &mut Vec<Entry>, e: Entry)
    ensures
        final(es)@ == upsert(old(es)@, e),
{
    let mut k: usize = 0;
    assert(old(es)@.skip(0) =~= old(es)@);
    while k < es.len() && !same_name(es[k].name.as_str(), e.name.as_str())
        invariant
            k <= es@.len(),
            es@ == old(es)@,
            upsert(es@, e) == es@.take(k as int) + upsert(es@.skip(k as int), e),
        decreases es@.len() - k,
    {
        assert(es@.skip(k as int)[0] == es@[k as int]);
        assert(es@.skip(k as int).drop_first() =~= es@.skip(k + 1));
        assert(es@.take(k + 1) =~= es@.take(k as int) + seq![es@[k as int]]);
        k = k + 1;
    }
    if k == es.len() {
        assert(es@.skip(k as int) =~= Seq::<Entry>::empty());
        es.push(e);
        assert(es@ =~= upsert(old(es)@, e));
    } else {
        assert(es@.skip(k as int)[0] == es@[k as int]);
        es.set(k, e);
        assert(es@ =~= upsert(old(es)@, e));
    }
}

pub(crate) fn same_name(a: &str, b: &str) -> (r: bool)
    ensures
        r == (a@ == b@),
{
    let x = chars_of(a);
    let y = chars_of(b);
    same_chars(x.as_slice(), y.as_slice())
}

} // verus!
