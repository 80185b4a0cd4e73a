//! The decisions the program's modes make between reads and writes: the exit
//! status a command leaves, whether a pinned pane draws this tick, the
//! animation listing, rewriting the configured animation, and the pid file a
//! pinned pane is known by.

use vstd::prelude::*;
use crate::anim::Entry;
use crate::prompt::utf8_len;
use crate::text::{
    chars_of, debug_quoted, debug_str, dec, find_char, lines, lines_of, parse_u64, parse_uint,
    push_all, push_dec, push_str, slice_of, starts_with, trim, trim_start, trim_start_len,
    trimmed,
};

verus! {

broadcast use {vstd::string::group_string_axioms, vstd::seq_lib::group_to_multiset_ensures};

/// The status a finished command reports: its exit code clamped to a byte,
/// or 128 when a signal killed it, the way a shell reports it.
pub open spec fn status_byte(code: Option<i32>) -> u8 {
    match code {
        Some(c) => if c < 0 {
            0
        } else if c > 255 {
            255
        } else {
            c as u8
        },
        None => 128,
    }
}

/// The status for a child's exit code, `None` when a signal ended it.
pub fn exit_status(code: Option<i32>) -> (r: u8)
    ensures
        r == status_byte(code),
{
    match code {
        Some(c) => if c < 0 {
            0
        } else if c > 255 {
            255
        } else {
            c as u8
        },
        None => 128,
    }
}

/// What a pinned pane does on one tick.
#[derive(Debug, Clone, Copy, PartialEq, Eq, Structural)]
pub enum Tick {
    /// The shell or the terminal went away: stop animating.
    Stop,
    /// Carry on. `draw` when the shell holds the terminal (painting pauses
    /// while anything else does, which keeps the art off a full-screen
    /// program); `reassert` when it has just taken the terminal back, since
    /// the program that had it may have reset the scroll region on exit.
    Go { draw: bool, reassert: bool },
}

/// The tick for a pane pinned above the shell whose process group is
/// `shell_pgid`, given whether the shell still runs, the terminal's
/// foreground group (negative when there is no terminal), and whether the
/// shell held the terminal on the previous tick.
pub open spec fn tick_of(shell_alive: bool, foreground: i32, shell_pgid: i32, had_terminal: bool) -> Tick {
    if !shell_alive || foreground < 0 {
        Tick::Stop
    } else {
        let holds = foreground == shell_pgid;
        Tick::Go { draw: holds, reassert: holds && !had_terminal }
    }
}

/// Decides one tick of a pinned pane.
pub fn pin_tick(shell_alive: bool, foreground: i32, shell_pgid: i32, had_terminal: bool) -> (t: Tick)
    ensures
        t == tick_of(shell_alive, foreground, shell_pgid, had_terminal),
{
    if !shell_alive || foreground < 0 {
        return Tick::Stop;
    }
    let holds = foreground == shell_pgid;
    Tick::Go { draw: holds, reassert: holds && !had_terminal }
}

// ---------------------------------------------------------------------------
// Setting the animation in the configuration file
// ---------------------------------------------------------------------------

/// The line that sets the animation to `name`.
pub open spec fn setting_line(name: Seq<char>) -> Seq<char> {
    "animation = "@ + debug_str(name)
}

/// Whether `line` already sets the animation.
pub open spec fn sets_animation(line: Seq<char>) -> bool {
    let t = trim_start(line);
    &&& t.len() >= 9
    &&& t.take(9) == "animation"@
    &&& crate::text::first_at(line, '=') >= 0
}

/// `ls`, each followed by a line break, the first line that sets the
/// animation (when `replaced` is still false) swapped for `setting`; the
/// setting appended when no line set it.
pub open spec fn rewritten(ls: Seq<Seq<char>>, replaced: bool, setting: Seq<char>) -> Seq<char>
    decreases ls.len(),
{
    if ls.len() == 0 {
        if replaced {
            seq![]
        } else {
            setting + seq!['\n']
        }
    } else if !replaced && sets_animation(ls[0]) {
        setting + seq!['\n'] + rewritten(ls.drop_first(), true, setting)
    } else {
        ls[0] + seq!['\n'] + rewritten(ls.drop_first(), replaced, setting)
    }
}

/// The configuration text with `animation = "<name>"` set: the first line
/// that sets it is replaced, or the setting is appended. Edited as text, so
/// comments survive; a trailing comment on that line does not.
pub fn with_animation(existing: &str, name: &str) -> (r: String)
    ensures
        r@ == rewritten(lines(existing@), false, setting_line(name@)),
{
    let mut setting = "animation = ".to_owned();
    let quoted = debug_quoted(name);
    push_str(&mut setting, quoted.as_str());
    let chars = chars_of(existing);
    let ls = lines_of(chars.as_slice());
    let ghost lv = lines(existing@);
    let key = chars_of("animation");
    proof {
        reveal_strlit("animation");
    }
    let mut out = String::new();
    let mut replaced = false;
    let mut k: usize = 0;
    assert(lv.skip(0) =~= lv);
    assert(out@ + rewritten(lv, false, setting@) =~= rewritten(lv, false, setting@));
    while k < ls.len()
        invariant
            k <= ls@.len(),
            lv == lines(existing@),
            ls@.len() == lv.len(),
            forall|j: int| 0 <= j < ls@.len() ==> #[trigger] ls@[j]@ == lv[j],
            key@ == "animation"@,
            setting@ == setting_line(name@),
            out@ + rewritten(lv.skip(k as int), replaced, setting@) == rewritten(lv, false, setting@),
        decreases ls@.len() - k,
    {
        let line = ls[k].as_slice();
        proof {
            reveal_strlit("animation");
        }
        assert(lv.skip(k as int)[0] == line@);
        assert(lv.skip(k as int).drop_first() =~= lv.skip(k + 1));
        let start = trim_start_len(line);
        let len = line.len();
        let rest = slice_of(line, start, len);
        assert(rest@ =~= line@.skip(start as int));
        let is_setting = starts_with(rest.as_slice(), key.as_slice()) && find_char(line, '=').is_some();
        proof {
            crate::text::lemma_first_at(line@, '=');
        }
        if !replaced && is_setting {
            push_str(&mut out, setting.as_str());
            replaced = true;
        } else {
            push_all(&mut out, line);
        }
        out.push('\n');
        k = k + 1;
        assert(out@ + rewritten(lv.skip(k as int), replaced, setting@) =~= rewritten(lv, false, setting@));
    }
    assert(lv.skip(k as int) =~= Seq::<Seq<char>>::empty());
    if !replaced {
        push_str(&mut out, setting.as_str());
        out.push('\n');
    }
    assert(out@ =~= rewritten(lv, false, setting@));
    out
}

// ---------------------------------------------------------------------------
// The pid file of a pinned pane
// ---------------------------------------------------------------------------

/// What `char::is_alphanumeric` says of `c`: alphabetic or numeric in
/// Unicode's sense.
pub uninterp spec fn alphanumeric(c: char) -> bool;

/// Whether `c` is an ASCII letter or digit.
pub open spec fn ascii_alnum(c: char) -> bool {
    ||| '0' <= c <= '9'
    ||| 'a' <= c <= 'z'
    ||| 'A' <= c <= 'Z'
}

/// `char::is_alphanumeric`. Claimed: ASCII letters and digits are
/// alphanumeric and no other ASCII character is; outside ASCII the Unicode
/// tables decide, which is not restated.
#[verifier::external_body]
fn is_alphanumeric(c: char) -> (r: bool)
    ensures
        r == alphanumeric(c),
        (c as u32) < 0x80 ==> (r <==> ascii_alnum(c)),
{
    c.is_alphanumeric()
}

/// The terminal's device name made safe for a file name: leading `/`
/// dropped, every other character that is not alphanumeric turned into `-`.
pub open spec fn slug(name: Seq<char>) -> Seq<char> {
    let t = crate::fetch::trim_start_char(name, '/');
    Seq::new(t.len(), |i: int| if alphanumeric(t[i]) {
        t[i]
    } else {
        '-'
    })
}

/// The pid file name for the terminal named `tty`, keyed by device so nested
/// shells find each other: `animfetch-<slug>.pid`.
pub open spec fn pid_file_text(tty: Seq<char>) -> Seq<char> {
    "animfetch-"@ + slug(tty) + ".pid"@
}

/// The pid file name for the terminal device `tty` (e.g. `/dev/pts/3`).
pub fn pid_file_name(tty: &str) -> (r: String)
    ensures
        r@ == pid_file_text(tty@),
{
    let chars = chars_of(tty);
    let mut a: usize = 0;
    assert(chars@.skip(0) =~= chars@);
    while a < chars.len() && chars[a] == '/'
        invariant
            a <= chars@.len(),
            chars@ == tty@,
            crate::fetch::trim_start_char(chars@.skip(a as int), '/') == crate::fetch::trim_start_char(tty@, '/'),
        decreases chars@.len() - a,
    {
        assert(chars@.skip(a as int).drop_first() =~= chars@.skip(a + 1));
        a = a + 1;
    }
    let ghost t = chars@.skip(a as int);
    let mut out = "animfetch-".to_owned();
    let ghost head = out@;
    let mut i = a;
    while i < chars.len()
        invariant
            a <= i <= chars@.len(),
            t == chars@.skip(a as int),
            out@ == head + Seq::new((i - a) as nat, |k: int| if alphanumeric(t[k]) {
                t[k]
            } else {
                '-'
            }),
        decreases chars@.len() - i,
    {
        let c = chars[i];
        if is_alphanumeric(c) {
            out.push(c);
        } else {
            out.push('-');
        }
        i = i + 1;
        assert(out@ =~= head + Seq::new((i - a) as nat, |k: int| if alphanumeric(t[k]) {
            t[k]
        } else {
            '-'
        }));
    }
    push_str(&mut out, ".pid");
    assert(out@ =~= pid_file_text(tty@));
    out
}

/// What `str::parse` gives for a 32-bit signed integer: an optional sign,
/// then at least one decimal digit, and a value in range.
pub open spec fn parse_int32(s: Seq<char>) -> Option<int> {
    if s.len() > 0 && s[0] == '-' {
        match parse_uint(s.drop_first(), 0x8000_0000) {
            Some(n) => if s.len() > 1 && s[1] != '+' {
                Some(-(n as int))
            } else {
                None
            },
            None => None,
        }
    } else {
        match parse_uint(s, 0x7fff_ffff) {
            Some(n) => Some(n as int),
            None => None,
        }
    }
}

/// The pid recorded in a pid file's text, white space around it allowed.
pub fn parse_pid(text: &str) -> (r: Option<i32>)
    ensures
        match parse_int32(trim(text@)) {
            Some(v) => r == Some(v as i32),
            None => r is None,
        },
{
    let c = chars_of(text);
    let t = trimmed(c.as_slice());
    if t.len() > 0 && t[0] == '-' {
        let len = t.len();
        let digits = slice_of(t.as_slice(), 1, len);
        assert(digits@ =~= t@.drop_first());
        if len > 1 && t[1] == '+' {
            return None;
        }
        match parse_u64(digits.as_slice(), 0x8000_0000) {
            Some(n) => {
                if n == 0x8000_0000 {
                    Some(-0x8000_0000i32)
                } else {
                    Some(-(n as i32))
                }
            },
            None => None,
        }
    } else {
        match parse_u64(t.as_slice(), 0x7fff_ffff) {
            Some(n) => Some(n as i32),
            None => None,
        }
    }
}

// ---------------------------------------------------------------------------
// Listing lines
// ---------------------------------------------------------------------------

proof fn lemma_utf8_len_front(s: Seq<char>)
    requires
        s.len() > 0,
    ensures
        utf8_len(s) == crate::prompt::utf8_width(s[0]) + utf8_len(s.drop_first()),
    decreases s.len(),
{
    if s.len() > 1 {
        lemma_utf8_len_front(s.drop_last());
        assert(s.drop_last().drop_first() =~= s.drop_first().drop_last());
    } else {
        assert(s.drop_first() =~= Seq::<char>::empty());
        assert(s.drop_last() =~= Seq::<char>::empty());
    }
}

/// The UTF-8 encoding is as long as [`utf8_len`] says.
proof fn lemma_encoded_len(s: Seq<char>)
    ensures
        vstd::utf8::encode_utf8(s).len() == utf8_len(s),
    decreases s.len(),
{
    if s.len() > 0 {
        lemma_encoded_len(s.drop_first());
        lemma_utf8_len_front(s);
        vstd::utf8::char_is_scalar(s[0]);
    }
}

/// The byte length `str::len` reports.
pub open spec fn byte_len(s: Seq<char>) -> usize {
    utf8_len(s) as usize
}

/// The widest name, in bytes.
pub open spec fn name_width_of(es: Seq<Entry>) -> usize
    decreases es.len(),
{
    if es.len() == 0 {
        0
    } else {
        let rest = name_width_of(es.drop_last());
        let w = byte_len(es.last().name@);
        if w > rest {
            w
        } else {
            rest
        }
    }
}

/// The width the names column is padded to: the longest name's length in
/// bytes.
pub fn name_width(entries: &[Entry]) -> (r: usize)
    ensures
        r == name_width_of(entries@),
{
    let mut best: usize = 0;
    let mut i: usize = 0;
    while i < entries.len()
        invariant
            i <= entries@.len(),
            best == name_width_of(entries@.take(i as int)),
        decreases entries@.len() - i,
    {
        assert(entries@.take(i + 1).drop_last() =~= entries@.take(i as int));
        let w = entries[i].name.as_str().len();
        proof {
            lemma_encoded_len(entries@[i as int].name@);
        }
        if w > best {
            best = w;
        }
        i = i + 1;
    }
    assert(entries@.take(i as int) =~= entries@);
    best
}

/// `s` padded with blanks to `width` characters, as `{:width$}` pads.
pub open spec fn padded(s: Seq<char>, width: nat) -> Seq<char> {
    s + crate::render::spaces(if width > s.len() {
        (width - s.len()) as nat
    } else {
        0
    })
}

/// `n` right-aligned in two columns, as `{:>2}` writes it.
pub open spec fn right2(n: nat) -> Seq<char> {
    if n < 10 {
        seq![' '] + dec(n)
    } else {
        dec(n)
    }
}

/// One listing line: `*` marking the animation in effect, the name padded to
/// the names column, the frame count, and where the frames come from.
pub open spec fn list_line_text(e: Entry, width: nat, current: Seq<char>) -> Seq<char> {
    let mark = if e.name@ == current {
        '*'
    } else {
        ' '
    };
    let source = match e.path {
        Some(p) => p@,
        None => "built in"@,
    };
    seq![mark, ' '] + padded(e.name@, width) + seq![' ', ' '] + right2(e.frames as nat) + " frames  "@ + source
}

/// The listing line for `e`, names padded to `width`, `current` being the
/// animation in effect.
pub fn list_line(e: &Entry, width: usize, current: &str) -> (r: String)
    ensures
        r@ == list_line_text(*e, width as nat, current@),
{
    let mut out = String::new();
    if crate::anim::same_name(e.name.as_str(), current) {
        out.push('*');
    } else {
        out.push(' ');
    }
    out.push(' ');
    let name = chars_of(e.name.as_str());
    push_all(&mut out, name.as_slice());
    let mut n = name.len();
    let ghost named = out@;
    while n < width
        invariant
            name@.len() <= n <= width || (n == name@.len() && n >= width),
            out@ == named + crate::render::spaces((n - name@.len()) as nat),
        decreases width - n,
    {
        out.push(' ');
        n = n + 1;
        assert(out@ =~= named + crate::render::spaces((n - name@.len()) as nat));
    }
    out.push(' ');
    out.push(' ');
    if e.frames < 10 {
        out.push(' ');
    }
    push_dec(&mut out, e.frames as u64);
    push_str(&mut out, " frames  ");
    match &e.path {
        Some(p) => push_str(&mut out, p.as_str()),
        None => push_str(&mut out, "built in"),
    }
    assert(out@ =~= list_line_text(*e, width as nat, current@));
    out
}

// ---------------------------------------------------------------------------
// Modes and the interactive session
// ---------------------------------------------------------------------------

/// What a run does.
#[derive(Debug, PartialEq, Eq)]
pub enum Mode {
    /// Print the available animations.
    List,
    /// Make the named animation the default.
    SetDefault(String),
    /// Print one still frame.
    Once,
    /// Stop the pane pinned to this terminal.
    Unpin,
    /// Pin the fetch above the user's own shell.
    Pin,
    /// Animate in place for a while.
    Play,
    /// The interactive session: fetch above, prompt below.
    Shell,
}

/// The mode the arguments select. Listing and setting come first; without
/// a terminal on both ends, or on `--once`, a single still is all that makes
/// sense; then unpinning, pinning and playing, in that order of precedence.
pub open spec fn mode_of(args: crate::cli::Args, interactive: bool) -> Mode {
    if args.list {
        Mode::List
    } else if args.set is Some {
        Mode::SetDefault(args.set->0)
    } else if !interactive || args.once {
        Mode::Once
    } else if args.unpin {
        Mode::Unpin
    } else if args.pin {
        Mode::Pin
    } else if args.play {
        Mode::Play
    } else {
        Mode::Shell
    }
}

/// The mode for `args`, given whether both standard input and output are
/// terminals.
pub fn mode(args: &crate::cli::Args, interactive: bool) -> (m: Mode)
    ensures
        match mode_of(*args, interactive) {
            Mode::SetDefault(name) => m matches Mode::SetDefault(n) && n@ == name@,
            other => m == other,
        },
{
    if args.list {
        Mode::List
    } else if let Some(name) = &args.set {
        Mode::SetDefault(name.clone())
    } else if !interactive || args.once {
        Mode::Once
    } else if args.unpin {
        Mode::Unpin
    } else if args.pin {
        Mode::Pin
    } else if args.play {
        Mode::Play
    } else {
        Mode::Shell
    }
}

/// Whether colour stays on: it is meaningless when output is piped, and
/// setting `NO_COLOR` is how you opt out.
pub fn keep_color(configured: bool, stdout_is_terminal: bool, no_color_set: bool) -> (r: bool)
    ensures
        r == (configured && stdout_is_terminal && !no_color_set),
{
    configured && stdout_is_terminal && !no_color_set
}

/// The frame after `phase`, wrapping rather than overflowing.
pub open spec fn next_phase_of(phase: usize) -> usize {
    if phase == usize::MAX {
        0
    } else {
        (phase + 1) as usize
    }
}

/// The frame after `phase`.
pub fn next_phase(phase: usize) -> (r: usize)
    ensures
        r == next_phase_of(phase),
{
    if phase == usize::MAX {
        0
    } else {
        phase + 1
    }
}

/// What the interactive session does after a key.
#[derive(Debug)]
pub enum Reaction {
    /// Redraw the prompt and keep animating.
    Redraw,
    /// Run this command below the fetch.
    Run(String),
    /// Leave.
    Leave,
}

/// The interactive session's own state: the frame shown, the status of the
/// last command, and whether the prompt line needs drawing. Reprinting an
/// unchanged prompt makes the cursor visibly stutter.
pub struct Session {
    pub phase: usize,
    pub status: u8,
    pub prompt_dirty: bool,
}

impl Session {
    pub fn new() -> (s: Self)
        ensures
            s.phase == 0,
            s.status == 0,
            s.prompt_dirty,
    {
        Session { phase: 0, status: 0, prompt_dirty: true }
    }

    /// A key was pressed (terminals may also report releases, which would
    /// double every keystroke; those are not keys here).
    pub fn on_key(&mut self, prompt: &mut crate::prompt::Prompt, key: crate::prompt::Key) -> (r: Reaction)
        requires
            old(prompt).wf(),
        ensures
            final(prompt).wf(),
            final(prompt).prefix_view() == old(prompt).prefix_view(),
            final(prompt).input_view() == crate::prompt::next_input(old(prompt).input_view(), key),
            r is Leave <==> crate::prompt::quits(old(prompt).input_view(), key),
            r is Run <==> crate::prompt::submits(old(prompt).input_view(), key),
            r matches Reaction::Run(c) ==> c@ == crate::text::trim(old(prompt).input_view()),
            final(self).phase == old(self).phase,
            final(self).status == old(self).status,
            r is Redraw ==> final(self).prompt_dirty,
            !(r is Redraw) ==> final(self).prompt_dirty == old(self).prompt_dirty,
    {
        match prompt.handle(key) {
            crate::prompt::Action::Continue => {
                self.prompt_dirty = true;
                Reaction::Redraw
            },
            crate::prompt::Action::Quit => Reaction::Leave,
            crate::prompt::Action::Submit(command) => Reaction::Run(command),
        }
    }

    /// A command finished with `status`, or asked to leave (`None`). Returns
    /// whether the session goes on; the child may have drawn over the pane,
    /// so the prompt is drawn again.
    pub fn on_command_done(&mut self, status: Option<u8>) -> (go_on: bool)
        ensures
            go_on == status is Some,
            status matches Some(code) ==> final(self).status == code && final(self).prompt_dirty,
            status is None ==> final(self).status == old(self).status,
            final(self).phase == old(self).phase,
    {
        match status {
            Some(code) => {
                self.status = code;
                self.prompt_dirty = true;
                true
            },
            None => false,
        }
    }

    /// The terminal was resized: everything is drawn again.
    pub fn on_resize(&mut self)
        ensures
            final(self).prompt_dirty,
            final(self).phase == old(self).phase,
            final(self).status == old(self).status,
    {
        self.prompt_dirty = true;
    }

    /// A frame is due.
    pub fn on_frame(&mut self)
        ensures
            final(self).phase == next_phase_of(old(self).phase),
            final(self).status == old(self).status,
            final(self).prompt_dirty == old(self).prompt_dirty,
    {
        self.phase = next_phase(self.phase);
    }

    /// Whether the prompt line needs drawing now; once drawn, it does not.
    pub fn take_prompt_dirty(&mut self) -> (r: bool)
        ensures
            r == old(self).prompt_dirty,
            !final(self).prompt_dirty,
            final(self).phase == old(self).phase,
            final(self).status == old(self).status,
    {
        let r = self.prompt_dirty;
        self.prompt_dirty = false;
        r
    }
}

} // verus!
