//! Escape sequences for the two bits of terminal state the program owns: the
//! scroll region and origin mode. Entering and leaving raw mode is the
//! caller's.

use vstd::prelude::*;
use crate::color::esc;
use crate::text::{dec, push_dec};

verus! {

broadcast use vstd::string::group_string_axioms;

pub const HIDE_CURSOR: &'static str = "\x1b[?25l";
pub const SHOW_CURSOR: &'static str = "\x1b[?25h";
pub const RESET_SCROLL_REGION: &'static str = "\x1b[r";

/// DECOM: row addressing becomes relative to the scroll region. Without it,
/// `clear` homes to screen row 1 and paints the shell's prompt over the art.
pub const SET_ORIGIN_MODE: &'static str = "\x1b[?6h";
pub const RESET_ORIGIN_MODE: &'static str = "\x1b[?6l";

/// Home the cursor. Under origin mode this is the scroll region's top-left.
pub const HOME: &'static str = "\x1b[H";
pub const CLEAR_SCREEN: &'static str = "\x1b[2J";

/// `ESC [ a ; b` followed by `last`.
pub open spec fn csi_pair(a: nat, b: nat, last: char) -> Seq<char> {
    seq![esc(), '['] + dec(a) + seq![';'] + dec(b) + seq![last]
}

/// Appends `ESC [ a ; b last`.
fn push_csi_pair(out: &mut String, a: u16, b: u16, last: char)
    ensures
        final(out)@ == old(out)@ + csi_pair(a as nat, b as nat, last),
{
    out.push('\x1b');
    out.push('[');
    push_dec(out, a as u64);
    out.push(';');
    push_dec(out, b as u64);
    out.push(last);
    assert(final(out)@ =~= old(out)@ + csi_pair(a as nat, b as nat, last));
}

/// Confine scrolling to `top..=bottom`, 1-based. Homes the cursor as a side
/// effect, so callers must reposition.
pub fn scroll_region(top: u16, bottom: u16) -> (r: String)
    ensures
        r@ == csi_pair(top as nat, bottom as nat, 'r'),
{
    let mut out = String::new();
    push_csi_pair(&mut out, top, bottom, 'r');
    assert(out@ =~= csi_pair(top as nat, bottom as nat, 'r'));
    out
}

/// Move the cursor to a 1-based row and column.
pub fn move_to(row: u16, col: u16) -> (r: String)
    ensures
        r@ == csi_pair(row as nat, col as nat, 'H'),
{
    let mut out = String::new();
    push_csi_pair(&mut out, row, col, 'H');
    assert(out@ =~= csi_pair(row as nat, col as nat, 'H'));
    out
}

/// Raw mode and the scroll region both outlive the process if nothing undoes
/// them, so every exit path restores them. This remembers whether that has
/// happened, which makes restoring idempotent: a drop after an explicit
/// restore does nothing.
pub struct Guard {
    restored: bool,
}

/// What restoring writes: the scroll region dropped and the cursor shown.
pub open spec fn restore_text() -> Seq<char> {
    seq![esc(), '[', 'r', esc(), '[', '?', '2', '5', 'h']
}

impl Guard {
    /// Whether the terminal has been handed back.
    pub closed spec fn is_restored(&self) -> bool {
        self.restored
    }

    /// A guard for a terminal just put into raw mode.
    pub fn new() -> (g: Self)
        ensures
            !g.is_restored(),
    {
        Guard { restored: false }
    }

    /// What to write to undo our terminal state: the sequence the first time,
    /// nothing after that.
    pub fn restore(&mut self) -> (r: Option<String>)
        ensures
            final(self).is_restored(),
            old(self).is_restored() ==> r is None,
            !old(self).is_restored() ==> (r matches Some(t) && t@ == restore_text()),
    {
        if self.restored {
            return None;
        }
        self.restored = true;
        let mut out = String::new();
        out.push('\x1b');
        out.push('[');
        out.push('r');
        out.push('\x1b');
        out.push('[');
        out.push('?');
        out.push('2');
        out.push('5');
        out.push('h');
        assert(out@ =~= restore_text());
        Some(out)
    }
}

} // verus!
