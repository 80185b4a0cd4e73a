//! Screen geometry: how wide the art may be next to the info pane, and how the
//! terminal is divided between the pinned fetch and the scrolling area below.

use vstd::prelude::*;
use crate::anim::{fit_size, Animation, Frame, Ink};
use crate::color::strip;
use crate::config::{capped, ramp_chars, ArtColor, Config, Style};
use crate::fetch::Item;
use crate::render::{compose, composable, pane_rows, saturated, visible_width, width_sum, Scene};

verus! {

broadcast use vstd::string::group_string_axioms;

/// What the drawing code needs and never changes. Passed as one value because
/// these four travel together through every mode.
#[derive(Clone, Copy)]
pub struct Fetch<'a> {
    pub animation: &'a Animation,
    pub cfg: &'a Config,
    pub title: &'a str,
    pub items: &'a [Item],
}

/// Below this many columns, drop the art and give the info pane the whole
/// terminal.
pub const MIN_SPLIT_WIDTH: usize = 40;

/// Percentage of the width the info pane may claim before values get
/// truncated instead.
pub const INFO_WIDTH_SHARE: usize = 45;

/// Rows the scrolling area needs before splitting is worth it at all.
pub const MIN_SCROLL_ROWS: usize = 4;

/// Percentage of the rows the fetch may claim. The art gets the smaller half;
/// the rest is where you actually work.
pub const PANE_HEIGHT_SHARE: usize = 55;

/// Display width of `s` without escapes, as `visible_width` reports it.
pub open spec fn shown_width(s: Seq<char>) -> nat {
    saturated(width_sum(strip(s)))
}

/// Columns one info row asks for: the swatches alone, or label, separator and
/// value.
pub open spec fn item_width(it: Item) -> nat {
    if it.label@.len() == 0 {
        shown_width(it.value@)
    } else {
        saturated(shown_width(it.label@) + 2 + shown_width(it.value@))
    }
}

/// The widest info row, the title included.
pub open spec fn widest_info(title: Seq<char>, items: Seq<Item>) -> nat
    decreases items.len(),
{
    if items.len() == 0 {
        shown_width(title)
    } else {
        let rest = widest_info(title, items.drop_last());
        let last = item_width(items.last());
        if last > rest {
            last
        } else {
            rest
        }
    }
}

/// The art's box: the width the info pane leaves (never under 8 columns),
/// capped by the configuration, and `max_h` rows (never under 4).
pub open spec fn art_box(title: Seq<char>, items: Seq<Item>, cfg: Config, w: nat, max_h: nat) -> (nat, nat) {
    let info_w = info_width(title, items, w);
    let left: nat = if w > info_w + cfg.gap {
        (w - (info_w + cfg.gap)) as nat
    } else {
        0
    };
    let max_w = capped(cfg.width as nat, if left > 8 {
        left
    } else {
        8nat
    });
    (max_w, if max_h > 4 {
        max_h
    } else {
        4nat
    })
}

/// The art's size: the animation fitted into [`art_box`].
pub open spec fn art_size(a: Animation, title: Seq<char>, items: Seq<Item>, cfg: Config, w: nat, max_h: nat) -> (nat, nat) {
    let b = art_box(title, items, cfg, w, max_h);
    fit_size(a.width as nat, a.height as nat, b.0, b.1)
}

/// How `cfg` turns coverage into glyphs, for drawing with `ink`.
pub open spec fn ink_for(cfg: Config, ink: Ink) -> bool {
    match cfg.style {
        Style::Half => ink == Ink::Half,
        Style::Quad => ink == Ink::Quad,
        Style::Ramp => ink matches Ink::Ramp(r) && r@ == ramp_chars(cfg.ramp@),
        Style::Raw => ink == (Ink::Raw { color: cfg.color && cfg.art_color == ArtColor::Own }),
    }
}

/// Columns the info pane claims on a terminal `w` wide: as many as its
/// widest row needs, but no more than its share, so a long CPU model cannot
/// squeeze the art to a blob.
pub open spec fn info_width(title: Seq<char>, items: Seq<Item>, w: nat) -> nat {
    let share = w * INFO_WIDTH_SHARE / 100;
    let widest = widest_info(title, items);
    if widest < share {
        widest
    } else {
        share as nat
    }
}

/// The info pane's width plus the gap, which laying out art on a terminal
/// `cols` wide adds up, fits in a `usize`.
pub open spec fn gap_fits(fetch: Fetch, cols: nat) -> bool {
    cols >= MIN_SPLIT_WIDTH ==> info_width(fetch.title@, fetch.items@, cols) + fetch.cfg.gap <= usize::MAX
}

/// Whether the layouts can be built for `fetch` on a terminal `cols` wide.
pub fn layout_fits(fetch: &Fetch, cols: u16) -> (r: bool)
    ensures
        r == gap_fits(*fetch, cols as nat),
{
    let w = cols as usize;
    if w < MIN_SPLIT_WIDTH {
        return true;
    }
    let widest = widest_row(fetch.title, fetch.items);
    let share = w * INFO_WIDTH_SHARE / 100;
    let info_w = if widest < share {
        widest
    } else {
        share
    };
    info_w <= usize::MAX - fetch.cfg.gap
}

/// Pre-scaled frames for one terminal size. Rebuilt on resize, which is exactly
/// when the art and every [`Scene`] built from it go stale.
pub struct Layout<'a> {
    frames: Vec<Vec<String>>,
    art_w: usize,
    title: &'a str,
    items: &'a [Item],
    /// Terminal width this layout was scaled for.
    width: usize,
}

/// The text of each line of each frame.
pub open spec fn frame_texts(frames: Seq<Vec<String>>) -> Seq<Seq<Seq<char>>> {
    Seq::new(frames.len(), |k: int| Seq::new(frames[k]@.len(), |j: int| frames[k]@[j]@))
}

/// `l` is `fetch` laid out for a terminal `cols` wide, with `max_h` rows for
/// the art and at most `wanted` frames: below [`MIN_SPLIT_WIDTH`] no art at
/// all, otherwise the first frames resampled to [`art_size`].
pub open spec fn laid_out(l: Layout, fetch: Fetch, cols: nat, max_h: nat, wanted: nat) -> bool {
    &&& l.title_view() == fetch.title@
    &&& l.items_view() == fetch.items@
    &&& l.term_width() == cols
    &&& cols < MIN_SPLIT_WIDTH ==> l.art_width() == 0 && l.frames_view() == seq![Seq::<Seq<char>>::empty()]
    &&& cols >= MIN_SPLIT_WIDTH ==> ({
        let size = art_size(*fetch.animation, fetch.title@, fetch.items@, *fetch.cfg, cols, max_h);
        let n = fetch.animation.frames@.len();
        &&& l.art_width() == size.0
        &&& l.frames_view().len() == if wanted < n {
            wanted
        } else {
            n
        }
        &&& exists|ink: Ink| #[trigger] ink_for(*fetch.cfg, ink) && forall|k: int| 0 <= k < l.frames_view().len() ==> #[trigger] l.frames_view()[k]
            == fetch.animation.frames@[k].scaled_lines(size.0, size.1, ink)
    })
}

impl<'a> Layout<'a> {
    /// The scaled frames, line by line.
    pub closed spec fn frames_view(&self) -> Seq<Seq<Seq<char>>> {
        frame_texts(self.frames@)
    }

    /// The width the art was scaled to; 0 when there is no art.
    pub closed spec fn art_width(&self) -> nat {
        self.art_w as nat
    }

    /// The terminal width this layout was built for.
    pub closed spec fn term_width(&self) -> nat {
        self.width as nat
    }

    /// The title and items shown.
    pub closed spec fn title_view(&self) -> Seq<char> {
        self.title@
    }

    pub closed spec fn items_view(&self) -> Seq<Item> {
        self.items@
    }

    /// At least one frame, and every scene it gives can be composed with a
    /// configuration whose gap fits.
    pub closed spec fn wf(&self) -> bool {
        &&& self.frames@.len() > 0
        &&& self.width <= 0xffff
        &&& self.art_w <= 0xffff
        &&& self.items@.len() + 2 <= usize::MAX
    }

    /// Fit the art into whatever the info pane does not need. `max_h` is the
    /// pane's row budget, not the terminal height. `wanted` caps how many
    /// frames get scaled, since a still drawing has no use for the rest.
    fn build(fetch: &Fetch<'a>, cols: u16, max_h: usize, wanted: usize) -> (l: Self)
        requires
            fetch.animation.wf(),
            gap_fits(*fetch, cols as nat),
            fetch.items@.len() + 2 <= usize::MAX,
            max_h <= 0xffff,
            wanted >= 1,
        ensures
            l.wf(),
            laid_out(l, *fetch, cols as nat, max_h as nat, wanted as nat),
    {
        let cfg = fetch.cfg;
        let w = cols as usize;
        if w < MIN_SPLIT_WIDTH {
            // One empty frame, so `phase % len` needs no special case.
            let mut frames: Vec<Vec<String>> = Vec::new();
            frames.push(Vec::new());
            assert(frame_texts(frames@)[0] =~= Seq::<Seq<char>>::empty());
            assert(frame_texts(frames@) =~= seq![Seq::<Seq<char>>::empty()]);
            return Layout { frames, art_w: 0, title: fetch.title, items: fetch.items, width: w };
        }
        let widest = widest_row(fetch.title, fetch.items);
        // A long CPU model would otherwise squeeze the art to a blob.
        let share = w * INFO_WIDTH_SHARE / 100;
        let info_w = if widest < share {
            widest
        } else {
            share
        };
        let left = if w > info_w + cfg.gap {
            w - (info_w + cfg.gap)
        } else {
            0
        };
        let max_w = cfg.width(if left > 8 {
            left
        } else {
            8
        });
        let (art_w, art_h) = fetch.animation.fit(max_w, if max_h > 4 {
            max_h
        } else {
            4
        });
        let ramp = cfg.ramp();
        let ink = cfg.ink(ramp.as_slice());
        assert(ink_for(*cfg, ink));
        let n = fetch.animation.frames.len();
        let count = if wanted < n {
            wanted
        } else {
            n
        };
        let mut frames: Vec<Vec<String>> = Vec::new();
        let mut k: usize = 0;
        while k < count
            invariant
                k <= count,
                count <= n,
                n == fetch.animation.frames@.len(),
                fetch.animation.wf(),
                art_w <= 0xffff,
                art_h <= 0xffff,
                ink_for(*cfg, ink),
                ink matches Ink::Ramp(r) ==> r@.len() > 0,
                frames@.len() == k,
                forall|j: int| 0 <= j < k ==> #[trigger] frame_texts(frames@)[j]
                    == fetch.animation.frames@[j].scaled_lines(art_w as nat, art_h as nat, ink),
            decreases count - k,
        {
            let f: &Frame = &fetch.animation.frames[k];
            let lines = f.scale(art_w, art_h, ink);
            let ghost before = frames@;
            frames.push(lines);
            assert(forall|j: int| 0 <= j < k ==> frames@[j] == before[j]);
            assert(forall|j: int| 0 <= j < k ==> #[trigger] frame_texts(frames@)[j] == frame_texts(before)[j]);
            assert(frame_texts(frames@)[k as int] =~= fetch.animation.frames@[k as int].scaled_lines(art_w as nat, art_h as nat, ink));
            k = k + 1;
        }
        Layout { frames, art_w, title: fetch.title, items: fetch.items, width: w }
    }
}

/// The widest info row, saturating at the largest `usize`.
fn widest_row(title: &str, items: &[Item]) -> (r: usize)
    ensures
        r == widest_info(title@, items@),
{
    let mut best = visible_width(title);
    let mut i: usize = 0;
    while i < items.len()
        invariant
            i <= items@.len(),
            best == widest_info(title@, items@.take(i as int)),
        decreases items@.len() - i,
    {
        assert(items@.take(i + 1).drop_last() =~= items@.take(i as int));
        let item = &items[i];
        let w = if item.label.is_empty() {
            visible_width(item.value.as_str())
        } else {
            let a = visible_width(item.label);
            let b = visible_width(item.value.as_str());
            let with_sep = if a > usize::MAX - 2 {
                usize::MAX
            } else {
                a + 2
            };
            if b > usize::MAX - with_sep {
                usize::MAX
            } else {
                with_sep + b
            }
        };
        if w > best {
            best = w;
        }
        i = i + 1;
    }
    assert(items@.take(items@.len() as int) =~= items@);
    best
}

/// Row budget for the pane on a terminal of `rows` rows: its share of the
/// rows, leaving the scrolling area its minimum and a blank row, and never
/// under one row.
pub open spec fn split_budget(rows: nat) -> nat {
    let share: nat = (rows * PANE_HEIGHT_SHARE / 100) as nat;
    let room: nat = if rows > MIN_SCROLL_ROWS + 1 {
        (rows - (MIN_SCROLL_ROWS + 1)) as nat
    } else {
        0
    };
    let b: nat = if share < room {
        share
    } else {
        room
    };
    if b > 1 {
        b
    } else {
        1nat
    }
}

/// How the screen is divided between the pinned fetch and the scrolling area.
#[derive(Debug, Clone, Copy, PartialEq, Eq, Structural)]
pub struct Split {
    /// Rows the fetch pane occupies, starting at row 1.
    pub pane_h: usize,
    /// 1-based first row of the scroll region, one blank row below the pane.
    pub scroll_top: u16,
}

/// The split for a pane of `pane_lines` lines on `rows` rows: the pane gets
/// what the scrolling area and a blank row leave, and there is no split when
/// that is nothing.
pub open spec fn split_of(pane_lines: nat, rows: nat) -> Option<Split> {
    if rows < MIN_SCROLL_ROWS + 1 {
        None
    } else {
        let max_pane = (rows - (MIN_SCROLL_ROWS + 1)) as nat;
        let h = if pane_lines < max_pane {
            pane_lines
        } else {
            max_pane
        };
        if h > 0 {
            Some(Split { pane_h: h as usize, scroll_top: (h + 2) as u16 })
        } else {
            None
        }
    }
}

impl Split {
    /// Row budget for the pane on a terminal of `rows` rows.
    pub fn budget(rows: u16) -> (r: usize)
        ensures
            r == split_budget(rows as nat),
            1 <= r,
            rows as nat > MIN_SCROLL_ROWS + 1 ==> r + MIN_SCROLL_ROWS + 1 <= rows,
    {
        let rows = rows as usize;
        let share = rows * PANE_HEIGHT_SHARE / 100;
        let room = if rows > MIN_SCROLL_ROWS + 1 {
            rows - (MIN_SCROLL_ROWS + 1)
        } else {
            0
        };
        let b = if share < room {
            share
        } else {
            room
        };
        if b > 1 {
            b
        } else {
            1
        }
    }

    /// `None` when the terminal is too short to usefully divide. The scroll
    /// region starts one blank row below the pane, and leaves the scrolling
    /// area at least its minimum.
    pub fn new(pane_lines: usize, rows: u16) -> (r: Option<Self>)
        ensures
            r == split_of(pane_lines as nat, rows as nat),
            r matches Some(s) ==> s.pane_h > 0 && s.scroll_top == s.pane_h + 2 && s.pane_h + MIN_SCROLL_ROWS + 1 <= rows
                && s.pane_h <= pane_lines,
    {
        let rows = rows as usize;
        if rows < MIN_SCROLL_ROWS + 1 {
            return None;
        }
        let max_pane = rows - (MIN_SCROLL_ROWS + 1);
        let pane_h = if pane_lines < max_pane {
            pane_lines
        } else {
            max_pane
        };
        if pane_h > 0 {
            Some(Split { pane_h, scroll_top: (pane_h + 2) as u16 })
        } else {
            None
        }
    }

    /// The split for `layout`, whose composed height is what the pane needs.
    pub fn fit(layout: &Layout, cfg: &Config, rows: u16) -> (r: Option<Self>)
        requires
            layout.wf(),
            layout.art_width() == 0 || layout.art_width() + cfg.gap <= usize::MAX,
        ensures
            r == split_of(pane_rows(layout.frames_view()[0].len(), layout.items_view(), cfg.color), rows as nat),
    {
        let scene = layout.scene(0);
        assert(composable(scene, *cfg));
        assert(crate::render::texts(scene.art@).len() == scene.art@.len());
        assert(layout.frames_view().len() > 0);
        assert((0nat % layout.frames_view().len()) == 0);
        assert(scene.art@.len() == layout.frames_view()[0].len());
        let lines = compose(&scene, cfg);
        Self::new(lines.len(), rows)
    }
}

impl<'a> Layout<'a> {
    /// Layout for the pinned pane on a terminal of this size.
    pub fn pinned(fetch: &Fetch<'a>, cols: u16, rows: u16) -> (l: Self)
        requires
            fetch.animation.wf(),
            gap_fits(*fetch, cols as nat),
            fetch.items@.len() + 2 <= usize::MAX,
        ensures
            l.wf(),
            laid_out(l, *fetch, cols as nat, capped(fetch.cfg.height as nat, split_budget(rows as nat)), usize::MAX as nat),
    {
        let budget = Split::budget(rows);
        Self::build(fetch, cols, fetch.cfg.height(budget), usize::MAX)
    }

    /// Owns the whole terminal but the row the shell prompt lands on.
    pub fn full_screen(fetch: &Fetch<'a>, cols: u16, rows: u16) -> (l: Self)
        requires
            fetch.animation.wf(),
            gap_fits(*fetch, cols as nat),
            fetch.items@.len() + 2 <= usize::MAX,
        ensures
            l.wf(),
            laid_out(l, *fetch, cols as nat, capped(fetch.cfg.height as nat, if rows > 0 {
                (rows - 1) as nat
            } else {
                0
            }), usize::MAX as nat),
    {
        let below = if rows > 0 {
            (rows - 1) as usize
        } else {
            0
        };
        Self::build(fetch, cols, fetch.cfg.height(below), usize::MAX)
    }

    /// Like [`Layout::full_screen`], but only the one frame a still will use.
    pub fn still(fetch: &Fetch<'a>, cols: u16, rows: u16) -> (l: Self)
        requires
            fetch.animation.wf(),
            gap_fits(*fetch, cols as nat),
            fetch.items@.len() + 2 <= usize::MAX,
        ensures
            l.wf(),
            laid_out(l, *fetch, cols as nat, capped(fetch.cfg.height as nat, if rows > 0 {
                (rows - 1) as nat
            } else {
                0
            }), 1),
    {
        let below = if rows > 0 {
            (rows - 1) as usize
        } else {
            0
        };
        Self::build(fetch, cols, fetch.cfg.height(below), 1)
    }

    /// What to draw for frame `phase`: the frames cycle.
    pub fn scene(&self, phase: usize) -> (s: Scene<'_>)
        requires
            self.wf(),
        ensures
            crate::render::texts(s.art@) == self.frames_view()[(phase as nat % self.frames_view().len()) as int],
            s.art_w == self.art_width(),
            s.title@ == self.title_view(),
            s.items@ == self.items_view(),
            s.phase == phase,
            s.width == self.term_width(),
            s.width + 2 <= usize::MAX,
            s.items@.len() + 2 <= usize::MAX,
    {
        let k = phase % self.frames.len();
        let art = self.frames[k].as_slice();
        assert(crate::render::texts(art@) =~= frame_texts(self.frames@)[k as int]);
        Scene { art, art_w: self.art_w, title: self.title, items: self.items, phase, width: self.width }
    }
}

} // verus!
