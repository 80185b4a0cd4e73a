//! The bytes each mode writes around the pane: entering the split screen, the
//! prompt line, the in-place animation of `--play`, and the pinned pane's
//! region. Each is built as one string so it lands in one write.

use vstd::prelude::*;
use crate::color::esc;
use crate::layout::Split;
use crate::term::{csi_pair, move_to, scroll_region};
use crate::text::{dec, push_dec, push_str};

verus! {

broadcast use vstd::string::group_string_axioms;

/// Erase from the cursor to the end of the line.
pub open spec fn clear_line() -> Seq<char> {
    seq![esc(), '[', 'K']
}

/// Erase the whole screen.
pub open spec fn clear_screen() -> Seq<char> {
    seq![esc(), '[', '2', 'J']
}

/// Forget the scroll region.
pub open spec fn reset_scroll_region() -> Seq<char> {
    seq![esc(), '[', 'r']
}

/// Origin mode on.
pub open spec fn set_origin_mode() -> Seq<char> {
    seq![esc(), '[', '?', '6', 'h']
}

/// Origin mode off.
pub open spec fn reset_origin_mode() -> Seq<char> {
    seq![esc(), '[', '?', '6', 'l']
}

/// Cursor home.
pub open spec fn home() -> Seq<char> {
    seq![esc(), '[', 'H']
}

/// Cursor hidden and shown.
pub open spec fn hide_cursor() -> Seq<char> {
    seq![esc(), '[', '?', '2', '5', 'l']
}

pub open spec fn show_cursor() -> Seq<char> {
    seq![esc(), '[', '?', '2', '5', 'h']
}

/// Appends `ESC [ K`.
fn push_clear_line(out: &mut String)
    ensures
        final(out)@ == old(out)@ + clear_line(),
{
    out.push('\x1b');
    out.push('[');
    out.push('K');
    assert(final(out)@ =~= old(out)@ + clear_line());
}

/// What entering (or re-entering, after a resize) the split screen writes:
/// clear, then the scroll region with the cursor parked at its top, or no
/// region at all when the terminal is too short to split.
pub open spec fn enter_split_text(split: Option<Split>, rows: nat) -> Seq<char> {
    clear_screen() + match split {
        Some(s) => csi_pair(s.scroll_top as nat, rows, 'r') + csi_pair(s.scroll_top as nat, 1, 'H'),
        None => reset_scroll_region() + csi_pair(1, 1, 'H'),
    }
}

/// The bytes that enter the split screen for `split`.
pub fn enter_split(split: Option<Split>, rows: u16) -> (r: String)
    ensures
        r@ == enter_split_text(split, rows as nat),
{
    let mut out = String::new();
    out.push('\x1b');
    out.push('[');
    out.push('2');
    out.push('J');
    match split {
        Some(s) => {
            // Setting a region homes the cursor, so move in explicitly.
            let region = scroll_region(s.scroll_top, rows);
            push_str(&mut out, region.as_str());
            let park = move_to(s.scroll_top, 1);
            push_str(&mut out, park.as_str());
        },
        None => {
            out.push('\x1b');
            out.push('[');
            out.push('r');
            let park = move_to(1, 1);
            push_str(&mut out, park.as_str());
        },
    }
    assert(out@ =~= enter_split_text(split, rows as nat));
    out
}

/// The prompt line redrawn in place: carriage return, erase, the prompt.
pub open spec fn prompt_line_text(rendered: Seq<char>) -> Seq<char> {
    seq!['\r'] + clear_line() + rendered
}

/// The bytes that redraw the prompt line.
pub fn prompt_line(rendered: &str) -> (r: String)
    ensures
        r@ == prompt_line_text(rendered@),
{
    let mut out = String::new();
    out.push('\r');
    push_clear_line(&mut out);
    push_str(&mut out, rendered);
    assert(out@ =~= prompt_line_text(rendered@));
    out
}

/// A submitted command left in scrollback the way a shell leaves it: the
/// prefix without the block cursor, the command, a new line.
pub open spec fn echo_text(prefix: Seq<char>, command: Seq<char>) -> Seq<char> {
    seq!['\r'] + clear_line() + prefix + command + seq!['\r', '\n']
}

/// The bytes that echo a submitted command.
pub fn echo(prefix: &str, command: &str) -> (r: String)
    ensures
        r@ == echo_text(prefix@, command@),
{
    let mut out = String::new();
    out.push('\r');
    push_clear_line(&mut out);
    push_str(&mut out, prefix);
    push_str(&mut out, command);
    out.push('\r');
    out.push('\n');
    assert(out@ =~= echo_text(prefix@, command@));
    out
}

/// Leaving the session puts the shell's next prompt below everything rather
/// than on top of it.
pub open spec fn leave_text(rows: nat) -> Seq<char> {
    csi_pair(rows, 1, 'H') + seq!['\r', '\n']
}

/// The bytes written when the session ends.
pub fn leave(rows: u16) -> (r: String)
    ensures
        r@ == leave_text(rows as nat),
{
    let mut out = move_to(rows, 1);
    out.push('\r');
    out.push('\n');
    out
}

/// `ESC [ n last`.
pub open spec fn csi_one(n: nat, last: char) -> Seq<char> {
    seq![esc(), '['] + dec(n) + seq![last]
}

/// `n` new lines.
pub open spec fn newlines(n: nat) -> Seq<char> {
    Seq::new(n, |_i: int| '\n')
}

/// What `--play` writes first: the rows it needs, reserved by printing blank
/// lines so redrawing in place can never scroll again, the cursor moved back
/// up over them and hidden.
pub open spec fn reserve_text(height: nat) -> Seq<char> {
    newlines(height) + csi_one(height, 'A') + hide_cursor()
}

/// The bytes that reserve `height` rows for `--play`.
pub fn reserve(height: usize) -> (r: String)
    ensures
        r@ == reserve_text(height as nat),
{
    let mut out = String::new();
    let mut i: usize = 0;
    while i < height
        invariant
            i <= height,
            out@ == newlines(i as nat),
        decreases height - i,
    {
        out.push('\n');
        i = i + 1;
        assert(out@ =~= newlines(i as nat));
    }
    out.push('\x1b');
    out.push('[');
    push_dec(&mut out, height as u64);
    out.push('A');
    push_str(&mut out, "\x1b[?25l");
    proof {
        reveal_strlit("\x1b[?25l");
    }
    assert(out@ =~= reserve_text(height as nat));
    out
}

/// What `--play` writes last: the cursor shown and stepped below the art, so
/// the shell prompt lands after it.
pub open spec fn release_text(height: nat) -> Seq<char> {
    show_cursor() + csi_one(height, 'B') + seq!['\r']
}

/// The bytes that end `--play`.
pub fn release(height: usize) -> (r: String)
    ensures
        r@ == release_text(height as nat),
{
    let mut out = "\x1b[?25h".to_owned();
    proof {
        reveal_strlit("\x1b[?25h");
    }
    out.push('\x1b');
    out.push('[');
    push_dec(&mut out, height as u64);
    out.push('B');
    out.push('\r');
    assert(out@ =~= release_text(height as nat));
    out
}

/// Lines redrawn in place, each erased first, separated by line breaks.
pub open spec fn lines_in_place(lines: Seq<Seq<char>>) -> Seq<char>
    decreases lines.len(),
{
    if lines.len() == 0 {
        seq![]
    } else {
        lines_in_place(lines.drop_last()) + (if lines.len() > 1 {
            seq!['\r', '\n']
        } else {
            seq![]
        }) + seq!['\r', esc(), '[', 'K'] + lines.last()
    }
}

/// One `--play` frame: the lines redrawn in place between a saved and a
/// restored cursor, the same discipline as the interactive pane.
pub open spec fn frame_in_place_text(lines: Seq<Seq<char>>) -> Seq<char> {
    seq![esc(), '7'] + lines_in_place(lines) + seq![esc(), '8']
}

/// The bytes of one `--play` frame.
pub fn frame_in_place(lines: &[String]) -> (r: String)
    ensures
        r@ == frame_in_place_text(crate::render::texts(lines@)),
{
    let ghost lv = crate::render::texts(lines@);
    let mut out = String::new();
    out.push('\x1b');
    out.push('7');
    let ghost start = out@;
    let mut i: usize = 0;
    assert(lv.take(0) =~= Seq::<Seq<char>>::empty());
    assert(start + seq![] =~= start);
    while i < lines.len()
        invariant
            i <= lines@.len(),
            lv == crate::render::texts(lines@),
            out@ == start + lines_in_place(lv.take(i as int)),
        decreases lines@.len() - i,
    {
        assert(lv.take(i + 1).drop_last() =~= lv.take(i as int));
        if i > 0 {
            out.push('\r');
            out.push('\n');
        }
        out.push('\r');
        out.push('\x1b');
        out.push('[');
        out.push('K');
        push_str(&mut out, lines[i].as_str());
        i = i + 1;
        assert(out@ =~= start + lines_in_place(lv.take(i as int)));
    }
    assert(lv.take(i as int) =~= lv);
    out.push('\x1b');
    out.push('8');
    assert(out@ =~= frame_in_place_text(lv));
    out
}

/// Each line followed by a line break, as one static frame is printed.
pub open spec fn printed_lines(lines: Seq<Seq<char>>) -> Seq<char>
    decreases lines.len(),
{
    if lines.len() == 0 {
        seq![]
    } else {
        printed_lines(lines.drop_last()) + lines.last() + seq!['\n']
    }
}

/// The bytes of one static frame.
pub fn print_lines(lines: &[String]) -> (r: String)
    ensures
        r@ == printed_lines(crate::render::texts(lines@)),
{
    let ghost lv = crate::render::texts(lines@);
    let mut out = String::new();
    let mut i: usize = 0;
    assert(lv.take(0) =~= Seq::<Seq<char>>::empty());
    while i < lines.len()
        invariant
            i <= lines@.len(),
            lv == crate::render::texts(lines@),
            out@ == printed_lines(lv.take(i as int)),
        decreases lines@.len() - i,
    {
        assert(lv.take(i + 1).drop_last() =~= lv.take(i as int));
        push_str(&mut out, lines[i].as_str());
        out.push('\n');
        i = i + 1;
        assert(out@ =~= printed_lines(lv.take(i as int)));
    }
    assert(lv.take(i as int) =~= lv);
    out
}

/// What `--pin` writes before leaving the shell its terminal: a clean screen,
/// the region below the pane, origin mode so the shell's `clear` homes inside
/// the region, and the cursor at the region's top.
pub open spec fn pin_enter_text(scroll_top: nat, rows: nat) -> Seq<char> {
    clear_screen() + csi_pair(scroll_top, rows, 'r') + set_origin_mode() + home()
}

/// The bytes that set up a pinned pane.
pub fn pin_enter(scroll_top: u16, rows: u16) -> (r: String)
    ensures
        r@ == pin_enter_text(scroll_top as nat, rows as nat),
{
    let mut out = "\x1b[2J".to_owned();
    let region = scroll_region(scroll_top, rows);
    push_str(&mut out, region.as_str());
    push_str(&mut out, "\x1b[?6h\x1b[H");
    proof {
        reveal_strlit("\x1b[2J");
        reveal_strlit("\x1b[?6h\x1b[H");
    }
    assert(out@ =~= pin_enter_text(scroll_top as nat, rows as nat));
    out
}

/// What undoing `--pin` writes: origin mode and the region dropped, the
/// screen cleared, the cursor home.
pub open spec fn pin_leave_text() -> Seq<char> {
    reset_origin_mode() + reset_scroll_region() + clear_screen() + csi_pair(1, 1, 'H')
}

/// The bytes that undo a pinned pane.
pub fn pin_leave() -> (r: String)
    ensures
        r@ == pin_leave_text(),
{
    let mut out = "\x1b[?6l\x1b[r\x1b[2J".to_owned();
    proof {
        reveal_strlit("\x1b[?6l\x1b[r\x1b[2J");
    }
    let park = move_to(1, 1);
    push_str(&mut out, park.as_str());
    assert(out@ =~= pin_leave_text());
    out
}

/// Re-establishing the region: bracketed with save and restore, because
/// setting a region homes the cursor and the shell's must come back where it
/// was.
pub open spec fn reassert_text(top: nat, rows: nat) -> Seq<char> {
    seq![esc(), '7'] + csi_pair(top, rows, 'r') + set_origin_mode() + seq![esc(), '8']
}

/// The bytes that re-establish the scroll region.
pub fn reassert_region(top: u16, rows: u16) -> (r: String)
    ensures
        r@ == reassert_text(top as nat, rows as nat),
{
    let mut out = String::new();
    out.push('\x1b');
    out.push('7');
    let region = scroll_region(top, rows);
    push_str(&mut out, region.as_str());
    push_str(&mut out, "\x1b[?6h\x1b8");
    proof {
        reveal_strlit("\x1b[?6h\x1b8");
    }
    assert(out@ =~= reassert_text(top as nat, rows as nat));
    out
}

} // verus!
