//! The inline command prompt: the security-relevant part of the program.
//!
//! It draws something that looks like a shell prompt and hands what you type to
//! a real shell. No configuration value and no animation file reaches the
//! command; only keystrokes do.

use vstd::prelude::*;
use crate::color::Rgb;
use crate::config::Config;
use crate::fetch::first_word;
use crate::palette::joined_path;
use crate::render::painted;
use crate::text::{
    chars_of, is_whitespace, is_ws, push_all, push_str, string_of, trim, trim_end, trim_end_len,
    trimmed,
};

verus! {

broadcast use vstd::string::group_string_axioms;

/// Cap on input length, in bytes. Long enough for any real command, short
/// enough that a stuck key cannot grow the buffer without bound.
pub const MAX_INPUT: usize = 4096;

/// Bytes `c` takes in UTF-8.
pub open spec fn utf8_width(c: char) -> nat {
    let u = c as u32;
    if u < 0x80 {
        1
    } else if u < 0x800 {
        2
    } else if u < 0x10000 {
        3
    } else {
        4
    }
}

/// Bytes `s` takes in UTF-8.
pub open spec fn utf8_len(s: Seq<char>) -> nat
    decreases s.len(),
{
    if s.len() == 0 {
        0
    } else {
        utf8_len(s.drop_last()) + utf8_width(s.last())
    }
}

/// Which key was pressed.
#[derive(Debug, Clone, Copy, PartialEq, Eq, Structural)]
pub enum KeyCode {
    Enter,
    Esc,
    Backspace,
    Char(char),
    /// Anything the prompt does not act on.
    Other,
}

/// A key press, with whether Control was held.
#[derive(Debug, Clone, Copy, PartialEq, Eq, Structural)]
pub struct Key {
    pub code: KeyCode,
    pub ctrl: bool,
}

/// What the caller should do after a keypress.
#[derive(Debug)]
pub enum Action {
    /// Keep animating.
    Continue,
    /// Leave the animation and run this command.
    Submit(String),
    /// Leave the animation without running anything.
    Quit,
}

/// Index of the last white-space character of `s`, or -1.
pub open spec fn last_ws(s: Seq<char>) -> int
    decreases s.len(),
{
    if s.len() == 0 {
        -1
    } else if is_ws(s.last()) {
        s.len() - 1
    } else {
        last_ws(s.drop_last())
    }
}

/// The buffer after Ctrl-W: trailing blanks and the last word deleted.
pub open spec fn without_last_word(buf: Seq<char>) -> Seq<char> {
    let t = trim_end(buf);
    t.take(last_ws(t) + 1)
}

/// Whether `key` leaves the prompt.
pub open spec fn quits(buf: Seq<char>, key: Key) -> bool {
    ||| key.code == KeyCode::Esc
    ||| key.ctrl && key.code == KeyCode::Char('c')
    ||| key.ctrl && key.code == KeyCode::Char('d') && buf.len() == 0
}

/// Whether `key` submits a command: Enter on a line that is not blank. A bare
/// Enter at a shell prompt just gives you a new one.
pub open spec fn submits(buf: Seq<char>, key: Key) -> bool {
    key.code == KeyCode::Enter && trim(buf).len() > 0
}

/// The input after `key`. Raw mode disables the kernel's signal keys, so the
/// usual control characters are honoured by hand; other control chords type
/// nothing, and typing stops once the input reaches [`MAX_INPUT`] bytes.
pub open spec fn next_input(buf: Seq<char>, key: Key) -> Seq<char> {
    match key.code {
        KeyCode::Enter => seq![],
        KeyCode::Esc => buf,
        KeyCode::Backspace => if buf.len() > 0 {
            buf.drop_last()
        } else {
            buf
        },
        KeyCode::Char(c) => if key.ctrl {
            if c == 'u' {
                seq![]
            } else if c == 'w' {
                without_last_word(buf)
            } else {
                buf
            }
        } else if utf8_len(buf) < MAX_INPUT {
            buf.push(c)
        } else {
            buf
        },
        KeyCode::Other => buf,
    }
}

/// The prompt prefix: `user@host cwd $ `, in the accent and value colours,
/// with `#` for root.
pub open spec fn prefix_text(cfg: Config, title: Seq<char>, cwd: Seq<char>, root: bool) -> Seq<char> {
    painted(cfg.color, cfg.accent.0, title) + seq![' '] + painted(cfg.color, cfg.value.0, cwd) + if root {
        seq![' ', '#', ' ']
    } else {
        seq![' ', '$', ' ']
    }
}

pub struct Prompt {
    /// Styled prefix, rebuilt only when the working directory changes.
    prefix: String,
    buffer: Vec<char>,
    /// `buffer`'s length in bytes.
    bytes: usize,
}

fn utf8_width_of(c: char) -> (r: usize)
    ensures
        r == utf8_width(c),
{
    let u = c as u32;
    if u < 0x80 {
        1
    } else if u < 0x800 {
        2
    } else if u < 0x10000 {
        3
    } else {
        4
    }
}

proof fn lemma_utf8_len_bounds(s: Seq<char>)
    ensures
        s.len() <= utf8_len(s) <= 4 * s.len(),
    decreases s.len(),
{
    if s.len() > 0 {
        lemma_utf8_len_bounds(s.drop_last());
    }
}

fn push_colored(out: &mut String, on: bool, c: Rgb, text: &str)
    ensures
        final(out)@ == old(out)@ + painted(on, c, text@),
{
    if on {
        c.fg(out);
        push_str(out, text);
        crate::color::push_reset(out);
        assert(final(out)@ =~= old(out)@ + painted(on, c, text@));
    } else {
        push_str(out, text);
    }
}

impl Prompt {
    /// The styled prefix.
    pub closed spec fn prefix_view(&self) -> Seq<char> {
        self.prefix@
    }

    /// What has been typed so far.
    pub closed spec fn input_view(&self) -> Seq<char> {
        self.buffer@
    }

    /// The byte count is kept in step with the input.
    pub closed spec fn wf(&self) -> bool {
        &&& self.bytes == utf8_len(self.buffer@)
        &&& self.bytes <= MAX_INPUT + 3
    }

    /// A prompt for `title` (`user@host`) in `cwd`, the working directory as
    /// shown, with nothing typed yet.
    pub fn new(cfg: &Config, title: &str, cwd: &str, root: bool) -> (p: Self)
        ensures
            p.wf(),
            p.prefix_view() == prefix_text(*cfg, title@, cwd@, root),
            p.input_view() == Seq::<char>::empty(),
    {
        let mut prefix = String::new();
        push_colored(&mut prefix, cfg.color, cfg.accent.0, title);
        prefix.push(' ');
        push_colored(&mut prefix, cfg.color, cfg.value.0, cwd);
        if root {
            prefix.push(' ');
            prefix.push('#');
            prefix.push(' ');
        } else {
            prefix.push(' ');
            prefix.push('$');
            prefix.push(' ');
        }
        assert(prefix@ =~= prefix_text(*cfg, title@, cwd@, root));
        let p = Prompt { prefix, buffer: Vec::new(), bytes: 0 };
        assert(p.buffer@ =~= Seq::<char>::empty());
        p
    }

    /// A prompt with `prefix` already styled and `input` typed, as when the
    /// screen is redrawn mid-command.
    pub fn from_parts(prefix: &str, input: &str) -> (p: Self)
        requires
            utf8_len(input@) <= MAX_INPUT + 3,
        ensures
            p.wf(),
            p.prefix_view() == prefix@,
            p.input_view() == input@,
    {
        let buffer = chars_of(input);
        let mut bytes: usize = 0;
        let mut i: usize = 0;
        while i < buffer.len()
            invariant
                i <= buffer@.len(),
                buffer@ == input@,
                utf8_len(input@) <= MAX_INPUT + 3,
                bytes == utf8_len(buffer@.take(i as int)),
                bytes <= utf8_len(input@),
            decreases buffer@.len() - i,
        {
            assert(buffer@.take(i + 1).drop_last() =~= buffer@.take(i as int));
            proof {
                lemma_utf8_len_prefix(input@, (i + 1) as nat);
            }
            bytes = bytes + utf8_width_of(buffer[i]);
            i = i + 1;
        }
        assert(buffer@.take(i as int) =~= buffer@);
        Prompt { prefix: prefix.to_owned(), buffer, bytes }
    }

    /// The prompt line as it should appear this frame. A drawn block stands
    /// in for the real cursor, which stays hidden so it cannot flicker across
    /// the art as each frame is painted.
    pub fn render(&self) -> (r: String)
        ensures
            r@ == self.prefix_view() + self.input_view() + seq!['█'],
    {
        let mut out = self.prefix.clone();
        push_all(&mut out, self.buffer.as_slice());
        out.push('█');
        assert(out@ =~= self.prefix_view() + self.input_view() + seq!['█']);
        out
    }

    /// The prefix alone. Used to echo a submitted command into scrollback,
    /// without the block cursor, so it reads as a line you typed.
    pub fn prefix(&self) -> (r: &str)
        ensures
            r@ == self.prefix_view(),
    {
        self.prefix.as_str()
    }

    /// What has been typed so far.
    pub fn input(&self) -> (r: String)
        ensures
            r@ == self.input_view(),
    {
        string_of(self.buffer.as_slice())
    }

    /// Rebuild the prompt after the working directory changes.
    pub fn refresh(&mut self, cfg: &Config, title: &str, cwd: &str, root: bool)
        ensures
            final(self).wf(),
            final(self).prefix_view() == prefix_text(*cfg, title@, cwd@, root),
            final(self).input_view() == Seq::<char>::empty(),
    {
        *self = Self::new(cfg, title, cwd, root);
    }

    pub fn handle(&mut self, key: Key) -> (r: Action)
        requires
            old(self).wf(),
        ensures
            final(self).wf(),
            final(self).prefix_view() == old(self).prefix_view(),
            final(self).input_view() == next_input(old(self).input_view(), key),
            r is Quit <==> quits(old(self).input_view(), key),
            r is Submit <==> submits(old(self).input_view(), key),
            r matches Action::Submit(c) ==> c@ == trim(old(self).input_view()),
    {
        let ghost buf = self.buffer@;
        match key.code {
            KeyCode::Enter => {
                let t = trimmed(self.buffer.as_slice());
                self.buffer = Vec::new();
                self.bytes = 0;
                assert(self.buffer@ =~= Seq::<char>::empty());
                if t.len() == 0 {
                    Action::Continue
                } else {
                    Action::Submit(string_of(t.as_slice()))
                }
            },
            KeyCode::Esc => Action::Quit,
            KeyCode::Char(c) => {
                if key.ctrl {
                    if c == 'c' {
                        Action::Quit
                    } else if c == 'd' && self.buffer.len() == 0 {
                        Action::Quit
                    } else if c == 'u' {
                        self.buffer = Vec::new();
                        self.bytes = 0;
                        assert(self.buffer@ =~= Seq::<char>::empty());
                        Action::Continue
                    } else if c == 'w' {
                        self.delete_word();
                        Action::Continue
                    } else {
                        Action::Continue
                    }
                } else if self.bytes < MAX_INPUT {
                    self.buffer.push(c);
                    assert(self.buffer@.drop_last() =~= buf);
                    self.bytes = self.bytes + utf8_width_of(c);
                    Action::Continue
                } else {
                    Action::Continue
                }
            },
            KeyCode::Backspace => {
                if self.buffer.len() > 0 {
                    let c = self.buffer.pop().unwrap();
                    assert(buf.drop_last() =~= self.buffer@);
                    self.bytes = self.bytes - utf8_width_of(c);
                }
                Action::Continue
            },
            KeyCode::Other => Action::Continue,
        }
    }

    /// Ctrl-W: drop trailing blanks, then everything after the last blank.
    fn delete_word(&mut self)
        requires
            old(self).wf(),
        ensures
            final(self).wf(),
            final(self).prefix_view() == old(self).prefix_view(),
            final(self).input_view() == without_last_word(old(self).input_view()),
    {
        let n = trim_end_len(self.buffer.as_slice());
        let cut = match last_ws_index(self.buffer.as_slice(), n) {
            Some(j) => j + 1,
            None => 0,
        };
        let ghost t = self.buffer@.take(n as int);
        assert(t == trim_end(self.buffer@));
        let mut kept: Vec<char> = Vec::new();
        let mut bytes: usize = 0;
        let mut i: usize = 0;
        while i < cut
            invariant
                i <= cut <= n <= self.buffer@.len(),
                kept@ == self.buffer@.take(i as int),
                bytes == utf8_len(kept@),
                self.bytes == utf8_len(self.buffer@),
                self.bytes <= MAX_INPUT + 3,
            decreases cut - i,
        {
            proof {
                lemma_utf8_len_prefix(self.buffer@, (i + 1) as nat);
            }
            kept.push(self.buffer[i]);
            assert(kept@.drop_last() =~= self.buffer@.take(i as int));
            assert(kept@ =~= self.buffer@.take(i + 1));
            bytes = bytes + utf8_width_of(self.buffer[i]);
            i = i + 1;
        }
        proof {
            lemma_utf8_len_prefix(self.buffer@, cut as nat);
        }
        assert(kept@ =~= t.take(last_ws(t) + 1));
        self.buffer = kept;
        self.bytes = bytes;
    }
}

/// The prefix of a string is no longer in bytes.
proof fn lemma_utf8_len_prefix(s: Seq<char>, k: nat)
    requires
        k <= s.len(),
    ensures
        utf8_len(s.take(k as int)) <= utf8_len(s),
    decreases s.len() - k,
{
    if k < s.len() {
        lemma_utf8_len_prefix(s, k + 1);
        assert(s.take((k + 1) as int).drop_last() =~= s.take(k as int));
    } else {
        assert(s.take(k as int) =~= s);
    }
}

/// The last white-space character among the first `n` of `s`.
fn last_ws_index(s: &[char], n: usize) -> (r: Option<usize>)
    requires
        n <= s@.len(),
    ensures
        match r {
            Some(j) => j < n && j as int == last_ws(s@.take(n as int)),
            None => last_ws(s@.take(n as int)) == -1,
        },
{
    let mut k = n;
    while k > 0 && !is_whitespace(s[k - 1])
        invariant
            k <= n <= s@.len(),
            last_ws(s@.take(k as int)) == last_ws(s@.take(n as int)),
        decreases k,
    {
        assert(s@.take(k as int).drop_last() =~= s@.take(k - 1));
        k = k - 1;
    }
    if k == 0 {
        assert(s@.take(0) =~= Seq::<char>::empty());
        None
    } else {
        Some(k - 1)
    }
}

/// Typing never takes the input past [`MAX_INPUT`] by more than one
/// character's bytes, and once it holds [`MAX_INPUT`] bytes a plain key adds
/// nothing.
pub proof fn lemma_input_is_bounded(buf: Seq<char>, key: Key)
    requires
        utf8_len(buf) <= MAX_INPUT + 3,
    ensures
        utf8_len(next_input(buf, key)) <= MAX_INPUT + 3,
        utf8_len(buf) >= MAX_INPUT ==> utf8_len(next_input(buf, key)) <= utf8_len(buf),
{
    let next = next_input(buf, key);
    match key.code {
        KeyCode::Char(c) => {
            if key.ctrl && c == 'w' {
                let t = trim_end(buf);
                lemma_trim_end_prefix(buf);
                lemma_utf8_len_prefix(buf, t.len());
                lemma_last_ws_bounds(t);
                lemma_utf8_len_prefix(t, (last_ws(t) + 1) as nat);
            } else if !key.ctrl && utf8_len(buf) < MAX_INPUT {
                assert(buf.push(c).drop_last() =~= buf);
            }
        },
        KeyCode::Backspace => {
            if buf.len() > 0 {
                lemma_utf8_len_prefix(buf, (buf.len() - 1) as nat);
                assert(buf.take(buf.len() - 1) =~= buf.drop_last());
            }
        },
        _ => {},
    }
}

proof fn lemma_trim_end_prefix(s: Seq<char>)
    ensures
        trim_end(s).len() <= s.len(),
        trim_end(s) == s.take(trim_end(s).len() as int),
    decreases s.len(),
{
    if s.len() > 0 && is_ws(s.last()) {
        lemma_trim_end_prefix(s.drop_last());
        assert(s.drop_last().take(trim_end(s).len() as int) =~= s.take(trim_end(s).len() as int));
    } else {
        assert(s.take(s.len() as int) =~= s);
    }
}

proof fn lemma_last_ws_bounds(s: Seq<char>)
    ensures
        -1 <= last_ws(s) < s.len(),
    decreases s.len(),
{
    if s.len() > 0 && !is_ws(s.last()) {
        lemma_last_ws_bounds(s.drop_last());
    }
}

/// Commands that cannot be delegated to a child process.
#[derive(Debug)]
pub enum Builtin {
    /// Change directory; the argument as typed, quotes removed.
    Cd(String),
    /// Leave animfetch.
    Exit,
}

/// Characters that make a command shell syntax.
pub open spec fn is_shell_syntax(c: char) -> bool {
    c == '&' || c == '|' || c == ';' || c == '>' || c == '<' || c == '$' || c == '`' || c == '('
}

/// Whether `c` is one of the quote characters stripped from a `cd` argument.
pub open spec fn is_quote(c: char) -> bool {
    c == '"' || c == '\''
}

/// `s` without leading and trailing quote characters.
pub open spec fn trim_quotes(s: Seq<char>) -> Seq<char> {
    trim_quotes_end(trim_quotes_start(s))
}

pub open spec fn trim_quotes_start(s: Seq<char>) -> Seq<char>
    decreases s.len(),
{
    if s.len() > 0 && is_quote(s[0]) {
        trim_quotes_start(s.drop_first())
    } else {
        s
    }
}

pub open spec fn trim_quotes_end(s: Seq<char>) -> Seq<char>
    decreases s.len(),
{
    if s.len() > 0 && is_quote(s.last()) {
        trim_quotes_end(s.drop_last())
    } else {
        s
    }
}

/// The command past its first two bytes, where `cd` sits in a trimmed
/// command.
pub open spec fn after_two_bytes(cmd: Seq<char>) -> Seq<char> {
    if cmd.len() > 0 && utf8_width(cmd[0]) == 2 {
        cmd.skip(1)
    } else {
        cmd.skip(2)
    }
}

/// Some character of the command is shell syntax.
pub open spec fn has_shell_syntax(cmd: Seq<char>) -> bool {
    exists|i: int| 0 <= i < cmd.len() && is_shell_syntax(#[trigger] cmd[i])
}

/// The command's first two bytes end on a character boundary when it is a
/// `cd` without shell syntax, as every trimmed command that starts with `cd`
/// does: that is where its argument is read from.
pub open spec fn builtin_fits(cmd: Seq<char>) -> bool {
    (first_word(cmd) == Some("cd"@) && !has_shell_syntax(cmd)) ==> (cmd.len() > 0 && utf8_width(cmd[0]) == 2) || (
    cmd.len() >= 2 && utf8_width(cmd[0]) == 1 && utf8_width(cmd[1]) == 1)
}

/// What [`builtin`] recognises: nothing in a command with shell syntax in it,
/// which belongs to the shell even if it starts with `cd` (`cd /tmp && ls` is
/// not something to interpret half-right); `exit` and `logout`; and `cd` with
/// its argument.
pub open spec fn builtin_of(cmd: Seq<char>) -> Option<(bool, Seq<char>)> {
    if has_shell_syntax(cmd) {
        None
    } else {
        match first_word(cmd) {
            Some(w) => if w == "exit"@ || w == "logout"@ {
                Some((true, seq![]))
            } else if w == "cd"@ {
                Some((false, trim_quotes(trim(after_two_bytes(cmd)))))
            } else {
                None
            },
            None => None,
        }
    }
}

/// Recognise the builtins, or `None` to hand the command to the shell. `cd`
/// in a child does nothing observable, so every shell wrapper implements it.
pub fn builtin(command: &str) -> (r: Option<Builtin>)
    requires
        builtin_fits(command@),
    ensures
        match builtin_of(command@) {
            Some((true, _)) => r matches Some(Builtin::Exit),
            Some((false, arg)) => r matches Some(Builtin::Cd(a)) && a@ == arg,
            None => r is None,
        },
{
    let chars = chars_of(command);
    let mut i: usize = 0;
    while i < chars.len()
        invariant
            i <= chars@.len(),
            chars@ == command@,
            forall|k: int| 0 <= k < i ==> !is_shell_syntax(#[trigger] chars@[k]),
        decreases chars@.len() - i,
    {
        let c = chars[i];
        if c == '&' || c == '|' || c == ';' || c == '>' || c == '<' || c == '$' || c == '`' || c == '(' {
            assert(is_shell_syntax(chars@[i as int]));
            return None;
        }
        i = i + 1;
    }
    let word = match first_word_chars(chars.as_slice()) {
        Some(w) => w,
        None => return None,
    };
    if is_literal(word.as_slice(), "exit") || is_literal(word.as_slice(), "logout") {
        return Some(Builtin::Exit);
    }
    if !is_literal(word.as_slice(), "cd") {
        return None;
    }
    let skip: usize = if utf8_width_of(chars[0]) == 2 {
        1
    } else {
        2
    };
    let len = chars.len();
    let rest = crate::text::slice_of(chars.as_slice(), skip, len);
    assert(rest@ =~= after_two_bytes(command@));
    let t = trimmed(rest.as_slice());
    let a = trim_quote_chars(t.as_slice());
    Some(Builtin::Cd(string_of(a.as_slice())))
}

/// Whether [`builtin`] can read `command`: a `cd` without shell syntax must
/// have its argument start on a character boundary two bytes in.
pub fn builtin_readable(command: &str) -> (r: bool)
    ensures
        r == builtin_fits(command@),
{
    let chars = chars_of(command);
    let mut i: usize = 0;
    while i < chars.len()
        invariant
            i <= chars@.len(),
            chars@ == command@,
            forall|k: int| 0 <= k < i ==> !is_shell_syntax(#[trigger] chars@[k]),
        decreases chars@.len() - i,
    {
        let c = chars[i];
        if c == '&' || c == '|' || c == ';' || c == '>' || c == '<' || c == '$' || c == '`' || c == '(' {
            assert(is_shell_syntax(chars@[i as int]));
            return true;
        }
        i = i + 1;
    }
    let is_cd = match first_word_chars(chars.as_slice()) {
        Some(w) => is_literal(w.as_slice(), "cd"),
        None => false,
    };
    if !is_cd {
        return true;
    }
    (chars.len() > 0 && utf8_width_of(chars[0]) == 2) || (chars.len() >= 2 && utf8_width_of(chars[0]) == 1
        && utf8_width_of(chars[1]) == 1)
}

fn is_literal(a: &[char], lit: &str) -> (r: bool)
    ensures
        r == (a@ == lit@),
{
    let l = chars_of(lit);
    crate::text::same_chars(a, l.as_slice())
}

fn first_word_chars(s: &[char]) -> (r: Option<Vec<char>>)
    ensures
        match first_word(s@) {
            Some(w) => r matches Some(x) && x@ == w,
            None => r is None,
        },
{
    crate::fetch::first_word_of(s)
}

fn trim_quote_chars(s: &[char]) -> (out: Vec<char>)
    ensures
        out@ == trim_quotes(s@),
{
    let mut a: usize = 0;
    assert(s@.skip(0) =~= s@);
    while a < s.len() && (s[a] == '"' || s[a] == '\'')
        invariant
            a <= s@.len(),
            trim_quotes_start(s@.skip(a as int)) == trim_quotes_start(s@),
        decreases s@.len() - a,
    {
        assert(s@.skip(a as int).drop_first() =~= s@.skip(a + 1));
        a = a + 1;
    }
    let mut b: usize = s.len();
    assert(s@.subrange(a as int, b as int) =~= s@.skip(a as int));
    while b > a && (s[b - 1] == '"' || s[b - 1] == '\'')
        invariant
            a <= b <= s@.len(),
            trim_quotes_end(s@.subrange(a as int, b as int)) == trim_quotes_end(trim_quotes_start(s@)),
        decreases b,
    {
        assert(s@.subrange(a as int, b as int).drop_last() =~= s@.subrange(a as int, b - 1));
        b = b - 1;
    }
    crate::text::slice_of(s, a, b)
}

/// Where `cd arg` goes: home for nothing or `~`, the previous directory for
/// `-`, `~/...` under home, anything else as written. `Err` carries the
/// message to show when the variable needed is not set.
pub open spec fn cd_target_of(arg: Seq<char>, home: Option<Seq<char>>, oldpwd: Option<Seq<char>>) -> Result<Seq<char>, Seq<char>> {
    let h = crate::fetch::present(home);
    if arg.len() == 0 || arg == "~"@ {
        match h {
            Some(d) => Ok(d),
            None => Err("cd: HOME is not set"@),
        }
    } else if arg == "-"@ {
        match crate::fetch::present(oldpwd) {
            Some(d) => Ok(d),
            None => Err("cd: OLDPWD is not set"@),
        }
    } else if arg.len() >= 2 && arg[0] == '~' && arg[1] == '/' {
        match h {
            Some(d) => Ok(joined_path(d, arg.skip(2))),
            None => Err("cd: HOME is not set"@),
        }
    } else {
        Ok(arg)
    }
}

/// The directory `cd arg` should change to, given `HOME` and `OLDPWD`.
pub fn cd_target(arg: &str, home: Option<&str>, oldpwd: Option<&str>) -> (r: Result<String, String>)
    ensures
        match cd_target_of(arg@, crate::fetch::opt_view(home), crate::fetch::opt_view(oldpwd)) {
            Ok(t) => r matches Ok(x) && x@ == t,
            Err(m) => r matches Err(x) && x@ == m,
        },
{
    let a = chars_of(arg);
    let home = match home {
        Some(h) if !h.is_empty() => Some(h),
        _ => None,
    };
    if a.len() == 0 || is_literal(a.as_slice(), "~") {
        return match home {
            Some(h) => Ok(h.to_owned()),
            None => Err("cd: HOME is not set".to_owned()),
        };
    }
    if is_literal(a.as_slice(), "-") {
        return match oldpwd {
            Some(d) if !d.is_empty() => Ok(d.to_owned()),
            _ => Err("cd: OLDPWD is not set".to_owned()),
        };
    }
    if a.len() >= 2 && a[0] == '~' && a[1] == '/' {
        return match home {
            Some(h) => {
                // The same joining rule as a palette path's `~/`.
                Ok(crate::palette::expand(arg, Some(h)))
            },
            None => Err("cd: HOME is not set".to_owned()),
        };
    }
    Ok(arg.to_owned())
}

/// The named components among `pieces`: empty pieces and `.` dropped.
pub open spec fn named_parts(pieces: Seq<Seq<char>>) -> Seq<Seq<char>>
    decreases pieces.len(),
{
    if pieces.len() == 0 {
        seq![]
    } else {
        let rest = named_parts(pieces.drop_last());
        let p = pieces.last();
        if p.len() > 0 && p != seq!['.'] {
            rest.push(p)
        } else {
            rest
        }
    }
}

/// The components of absolute path `s` below the root.
pub open spec fn path_parts(s: Seq<char>) -> Seq<Seq<char>> {
    named_parts(crate::text::split_on(s, '/'))
}

/// `parts` joined by `/`.
pub open spec fn join_parts(parts: Seq<Seq<char>>) -> Seq<char>
    decreases parts.len(),
{
    if parts.len() == 0 {
        seq![]
    } else if parts.len() == 1 {
        parts[0]
    } else {
        join_parts(parts.drop_last()) + seq!['/'] + parts.last()
    }
}

/// A working directory as the system reports it: absolute, with no empty,
/// `.` or `..` components.
pub open spec fn canonical(cwd: Seq<char>) -> bool {
    &&& cwd.len() > 0
    &&& cwd[0] == '/'
    &&& forall|k: int| 1 <= k < crate::text::split_on(cwd, '/').len() ==> {
        let p = #[trigger] crate::text::split_on(cwd, '/')[k];
        (p.len() > 0 || cwd == seq!['/']) && p != seq!['.'] && p != seq!['.', '.']
    }
}

/// The working directory with a home directory prefix shown as `~`, compared
/// component by component.
pub open spec fn cwd_text(cwd: Seq<char>, home: Option<Seq<char>>) -> Seq<char> {
    match crate::fetch::present(home) {
        Some(h) => {
            let hp = path_parts(h);
            let cp = path_parts(cwd);
            if h[0] == '/' && hp.len() <= cp.len() && cp.take(hp.len() as int) == hp {
                let rest = cp.skip(hp.len() as int);
                if rest.len() == 0 {
                    seq!['~']
                } else {
                    seq!['~', '/'] + join_parts(rest)
                }
            } else {
                cwd
            }
        },
        None => cwd,
    }
}

/// The named components of `s` below the root.
fn parts_of(s: &str) -> (out: Vec<Vec<char>>)
    ensures
        out@.len() == path_parts(s@).len(),
        forall|k: int| 0 <= k < out@.len() ==> #[trigger] out@[k]@ == path_parts(s@)[k],
{
    let chars = chars_of(s);
    let pieces = crate::text::split_chars(chars.as_slice(), '/');
    let ghost pv = crate::text::split_on(s@, '/');
    let mut out: Vec<Vec<char>> = Vec::new();
    let mut k: usize = 0;
    while k < pieces.len()
        invariant
            k <= pieces@.len(),
            pv == crate::text::split_on(s@, '/'),
            pieces@.len() == pv.len(),
            forall|j: int| 0 <= j < pieces@.len() ==> #[trigger] pieces@[j]@ == pv[j],
            out@.len() == named_parts(pv.take(k as int)).len(),
            forall|j: int| 0 <= j < out@.len() ==> #[trigger] out@[j]@ == named_parts(pv.take(k as int))[j],
        decreases pieces@.len() - k,
    {
        assert(pv.take(k + 1).drop_last() =~= pv.take(k as int));
        assert(pv.take(k + 1).last() == pieces@[k as int]@);
        let p = &pieces[k];
        let dot = p.len() == 1 && p[0] == '.';
        proof {
            if dot {
                assert(p@ =~= seq!['.']);
            }
        }
        if p.len() > 0 && !dot {
            let copy = crate::text::slice_of(p.as_slice(), 0, p.len());
            assert(copy@ =~= p@);
            out.push(copy);
        }
        k = k + 1;
    }
    assert(pv.take(pv.len() as int) =~= pv);
    out
}

/// Whether `cwd` is the absolute, normalised path [`cwd_display`] expects.
pub fn is_canonical(cwd: &str) -> (r: bool)
    ensures
        r == canonical(cwd@),
{
    let chars = chars_of(cwd);
    if chars.len() == 0 || chars[0] != '/' {
        return false;
    }
    let root = chars.len() == 1;
    proof {
        if root {
            assert(cwd@ =~= seq!['/']);
        }
    }
    let pieces = crate::text::split_chars(chars.as_slice(), '/');
    let ghost parts = crate::text::split_on(cwd@, '/');
    let mut k: usize = 1;
    while k < pieces.len()
        invariant
            1 <= k,
            k <= pieces@.len() || pieces@.len() == 0,
            pieces@.len() == parts.len(),
            forall|j: int| 0 <= j < pieces@.len() ==> #[trigger] pieces@[j]@ == parts[j],
            parts == crate::text::split_on(cwd@, '/'),
            root == (cwd@ == seq!['/']),
            forall|j: int| 1 <= j < k && j < parts.len() ==> {
                let p = #[trigger] parts[j];
                (p.len() > 0 || cwd@ == seq!['/']) && p != seq!['.'] && p != seq!['.', '.']
            },
        decreases pieces@.len() - k,
    {
        let p = &pieces[k];
        let ok = (p.len() > 0 || root) && !(p.len() == 1 && p[0] == '.') && !(p.len() == 2 && p[0] == '.'
            && p[1] == '.');
        if !ok {
            proof {
                let q = parts[k as int];
                assert(q == p@);
                if p.len() == 1 && p[0] == '.' {
                    assert(q =~= seq!['.']);
                } else if p.len() == 2 && p[0] == '.' && p[1] == '.' {
                    assert(q =~= seq!['.', '.']);
                }
            }
            return false;
        }
        proof {
            let q = parts[k as int];
            assert(q == p@);
            if q =~= seq!['.'] {
                assert(p@.len() == 1 && p@[0] == '.');
            }
            if q =~= seq!['.', '.'] {
                assert(p@.len() == 2 && p@[0] == '.' && p@[1] == '.');
            }
        }
        k = k + 1;
    }
    true
}

/// `~`-abbreviated working directory.
pub fn cwd_display(cwd: &str, home: Option<&str>) -> (r: String)
    requires
        canonical(cwd@),
    ensures
        r@ == cwd_text(cwd@, crate::fetch::opt_view(home)),
{
    let h = match home {
        Some(h) if !h.is_empty() => h,
        _ => return cwd.to_owned(),
    };
    let hc = chars_of(h);
    let hp = parts_of(h);
    let cp = parts_of(cwd);
    if hc[0] != '/' || hp.len() > cp.len() {
        return cwd.to_owned();
    }
    let mut k: usize = 0;
    while k < hp.len()
        invariant
            k <= hp@.len() <= cp@.len(),
            crate::fetch::opt_view(home) == Some(h@),
            h@.len() > 0,
            hp@.len() == path_parts(h@).len(),
            forall|j: int| 0 <= j < hp@.len() ==> #[trigger] hp@[j]@ == path_parts(h@)[j],
            cp@.len() == path_parts(cwd@).len(),
            forall|j: int| 0 <= j < cp@.len() ==> #[trigger] cp@[j]@ == path_parts(cwd@)[j],
            forall|j: int| 0 <= j < k ==> #[trigger] cp@[j]@ == hp@[j]@,
        decreases hp@.len() - k,
    {
        if !crate::text::same_chars(cp[k].as_slice(), hp[k].as_slice()) {
            proof {
                let hv = path_parts(h@);
                let cv = path_parts(cwd@);
                assert(cp@[k as int]@ != hp@[k as int]@);
                assert(cv.take(hv.len() as int)[k as int] != hv[k as int]);
                assert(cv.take(hv.len() as int) != hv);
            }
            return cwd.to_owned();
        }
        k = k + 1;
    }
    let ghost hv = path_parts(h@);
    let ghost cv = path_parts(cwd@);
    assert(k == hv.len());
    assert(forall|j: int| 0 <= j < hv.len() ==> cv[j] == #[trigger] hv[j]) by {
        assert forall|j: int| 0 <= j < hv.len() implies cv[j] == #[trigger] hv[j] by {
            assert(cp@[j]@ == hp@[j]@);
        }
    }
    assert(cv.take(hv.len() as int) =~= hv);
    if hp.len() == cp.len() {
        let mut out = String::new();
        out.push('~');
        assert(cv.skip(hv.len() as int) =~= Seq::<Seq<char>>::empty());
        assert(out@ =~= seq!['~']);
        return out;
    }
    let mut out = String::new();
    out.push('~');
    out.push('/');
    let mut j = hp.len();
    let ghost start = out@;
    assert(start =~= seq!['~', '/']);
    push_all(&mut out, cp[j].as_slice());
    assert(cv.skip(hv.len() as int).take(1) =~= seq![cv[hv.len() as int]]);
    assert(join_parts(cv.skip(hv.len() as int).take(1)) =~= cv[hv.len() as int]);
    j = j + 1;
    while j < cp.len()
        invariant
            hp@.len() < j <= cp@.len(),
            hv.len() == hp@.len(),
            cv.len() == cp@.len(),
            forall|i: int| 0 <= i < cp@.len() ==> #[trigger] cp@[i]@ == cv[i],
            out@ == start + join_parts(cv.skip(hv.len() as int).take(j - hv.len())),
        decreases cp@.len() - j,
    {
        let ghost prev = cv.skip(hv.len() as int).take(j - hv.len());
        out.push('/');
        push_all(&mut out, cp[j].as_slice());
        let ghost next = cv.skip(hv.len() as int).take(j + 1 - hv.len());
        assert(next.drop_last() =~= prev);
        assert(next.last() == cv[j as int]);
        assert(out@ =~= start + join_parts(next));
        j = j + 1;
    }
    assert(cv.skip(hv.len() as int).take(cv.len() - hv.len()) =~= cv.skip(hv.len() as int));
    out
}

} // verus!
