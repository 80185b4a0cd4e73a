//! System information formatting. Where the numbers come from (files under
//! `/proc` and `/sys`, environment variables, system calls) is the caller's
//! business; everything here turns what was read into the rows shown.

use vstd::prelude::*;
use crate::config::Module;
use crate::text::{
    chars_of, dec, first_at, find_char, is_whitespace, is_ws, lemma_first_at, lines, lines_of,
    parse_u64, parse_uint, push_dec, push_str, same_chars, slice_of, split_chars, split_on,
    string_of, trim, trim_start, trim_start_len, trimmed,
};

verus! {

broadcast use vstd::string::group_string_axioms;

/// One info row. An empty `label` spans the full width (the colour swatches).
pub struct Item {
    pub label: &'static str,
    pub value: String,
}

// ---------------------------------------------------------------------------
// Text shapes
// ---------------------------------------------------------------------------

/// The part after the first `sep` of the first line whose part before it is
/// exactly `key`.
pub open spec fn keyed_value(ls: Seq<Seq<char>>, key: Seq<char>, sep: char) -> Option<Seq<char>>
    decreases ls.len(),
{
    if ls.len() == 0 {
        None
    } else {
        let l = ls[0];
        let i = first_at(l, sep);
        if i >= 0 && l.take(i) == key {
            Some(l.skip(i + 1))
        } else {
            keyed_value(ls.drop_first(), key, sep)
        }
    }
}

/// Looks up `key` among `text`'s `key<sep>value` lines.
fn find_keyed(text: &str, key: &str, sep: char) -> (r: Option<Vec<char>>)
    ensures
        match keyed_value(lines(text@), key@, sep) {
            Some(v) => r matches Some(x) && x@ == v,
            None => r is None,
        },
{
    let chars = chars_of(text);
    let ls = lines_of(chars.as_slice());
    let key_chars = chars_of(key);
    let ghost lv = lines(text@);
    let mut k: usize = 0;
    assert(lv.skip(0) =~= lv);
    while k < ls.len()
        invariant
            k <= ls@.len(),
            lv == lines(text@),
            ls@.len() == lv.len(),
            forall|j: int| 0 <= j < ls@.len() ==> #[trigger] ls@[j]@ == lv[j],
            key_chars@ == key@,
            keyed_value(lv.skip(k as int), key@, sep) == keyed_value(lv, key@, sep),
        decreases ls@.len() - k,
    {
        let l = &ls[k];
        assert(lv.skip(k as int)[0] == l@);
        assert(lv.skip(k as int).drop_first() =~= lv.skip(k + 1));
        match find_char(l.as_slice(), sep) {
            Some(i) => {
                proof {
                    lemma_first_at(l@, sep);
                }
                let head = slice_of(l.as_slice(), 0, i);
                assert(head@ =~= l@.take(i as int));
                if same_chars(head.as_slice(), key_chars.as_slice()) {
                    let len = l.len();
                    let v = slice_of(l.as_slice(), i + 1, len);
                    assert(v@ =~= l@.skip(i + 1));
                    assert(keyed_value(lv.skip(k as int), key@, sep) == Some(l@.skip(i + 1)));
                    return Some(v);
                }
            },
            None => {},
        }
        k = k + 1;
    }
    assert(lv.skip(k as int) =~= seq![]);
    None
}

/// `s` without leading `c`s.
pub open spec fn trim_start_char(s: Seq<char>, c: char) -> Seq<char>
    decreases s.len(),
{
    if s.len() > 0 && s[0] == c {
        trim_start_char(s.drop_first(), c)
    } else {
        s
    }
}

/// `s` without trailing `c`s.
pub open spec fn trim_end_char(s: Seq<char>, c: char) -> Seq<char>
    decreases s.len(),
{
    if s.len() > 0 && s.last() == c {
        trim_end_char(s.drop_last(), c)
    } else {
        s
    }
}

/// `s` without `c`s at either end, as `str::trim_matches` gives it.
pub open spec fn trim_char(s: Seq<char>, c: char) -> Seq<char> {
    trim_end_char(trim_start_char(s, c), c)
}

/// `s` with every `c` removed from both ends.
fn trim_char_chars(s: &[char], c: char) -> (out: Vec<char>)
    ensures
        out@ == trim_char(s@, c),
{
    let mut a: usize = 0;
    assert(s@.skip(0) =~= s@);
    while a < s.len() && s[a] == c
        invariant
            a <= s@.len(),
            trim_start_char(s@.skip(a as int), c) == trim_start_char(s@, c),
        decreases s@.len() - a,
    {
        assert(s@.skip(a as int).drop_first() =~= s@.skip(a + 1));
        a = a + 1;
    }
    let mut b: usize = s.len();
    assert(s@.subrange(a as int, b as int) =~= s@.skip(a as int));
    while b > a && s[b - 1] == c
        invariant
            a <= b <= s@.len(),
            trim_end_char(s@.subrange(a as int, b as int), c) == trim_end_char(trim_start_char(s@, c), c),
        decreases b,
    {
        assert(s@.subrange(a as int, b as int).drop_last() =~= s@.subrange(a as int, b - 1));
        b = b - 1;
    }
    slice_of(s, a, b)
}

/// Length of the run of non-white-space characters `s` starts with.
pub open spec fn word_len(s: Seq<char>) -> nat
    decreases s.len(),
{
    if s.len() == 0 || is_ws(s[0]) {
        0
    } else {
        1 + word_len(s.drop_first())
    }
}

/// The first white-space separated word of `s`, if there is one.
pub open spec fn first_word(s: Seq<char>) -> Option<Seq<char>> {
    let t = trim_start(s);
    if t.len() == 0 {
        None
    } else {
        Some(t.take(word_len(t) as int))
    }
}

/// What follows the first word of `s`.
pub open spec fn after_first_word(s: Seq<char>) -> Seq<char> {
    let t = trim_start(s);
    t.skip(word_len(t) as int)
}

proof fn lemma_word_len(s: Seq<char>)
    ensures
        word_len(s) <= s.len(),
        forall|k: int| 0 <= k < word_len(s) ==> !is_ws(#[trigger] s[k]),
        word_len(s) < s.len() ==> is_ws(s[word_len(s) as int]),
    decreases s.len(),
{
    if s.len() > 0 && !is_ws(s[0]) {
        lemma_word_len(s.drop_first());
        assert forall|k: int| 0 <= k < word_len(s) implies !is_ws(#[trigger] s[k]) by {
            if k > 0 {
                assert(s[k] == s.drop_first()[k - 1]);
            }
        }
    }
}

/// Where the first word of `s` starts and ends.
fn first_word_span(s: &[char]) -> (r: (usize, usize))
    ensures
        r.0 <= r.1 <= s@.len(),
        s@.skip(r.0 as int) == trim_start(s@),
        r.1 - r.0 == word_len(trim_start(s@)),
{
    let start = trim_start_len(s);
    let mut end = start;
    proof {
        lemma_word_len(s@.skip(start as int));
    }
    while end < s.len() && !is_whitespace(s[end])
        invariant
            start <= end <= s@.len(),
            s@.skip(start as int) == trim_start(s@),
            end - start <= word_len(s@.skip(start as int)),
            forall|k: int| start <= k < end ==> !is_ws(#[trigger] s@[k]),
        decreases s@.len() - end,
    {
        proof {
            let t = s@.skip(start as int);
            lemma_word_len(t);
            assert(t[end - start] == s@[end as int]);
        }
        end = end + 1;
    }
    proof {
        let t = s@.skip(start as int);
        lemma_word_len(t);
        if end - start < word_len(t) {
            assert(t[end - start] == s@[end as int]);
            if end < s@.len() {
                assert(!is_ws(t[end - start]));
            }
        }
        assert(end - start >= word_len(t)) by {
            if end - start < word_len(t) {
                assert(end < s@.len());
            }
        }
        if end - start > word_len(t) {
            assert(t[word_len(t) as int] == s@[start + word_len(t)]);
        }
    }
    (start, end)
}

/// The first word of `s`.
pub(crate) fn first_word_of(s: &[char]) -> (r: Option<Vec<char>>)
    ensures
        match first_word(s@) {
            Some(w) => r matches Some(x) && x@ == w,
            None => r is None,
        },
{
    let (a, b) = first_word_span(s);
    if a == s.len() {
        return None;
    }
    let w = slice_of(s, a, b);
    assert(w@ =~= trim_start(s@).take(word_len(trim_start(s@)) as int));
    Some(w)
}

// ---------------------------------------------------------------------------
// Parsing what the system reports
// ---------------------------------------------------------------------------

/// What [`os_release_field`] gives: the value of `key`, white space and
/// quotes stripped, unless that leaves nothing.
pub open spec fn os_release_value(text: Seq<char>, key: Seq<char>) -> Option<Seq<char>> {
    match keyed_value(lines(text), key, '=') {
        Some(v) => {
            let t = trim_char(trim(v), '"');
            if t.len() == 0 {
                None
            } else {
                Some(t)
            }
        },
        None => None,
    }
}

/// Read a `KEY=value` field from os-release, stripping optional quoting.
pub fn os_release_field(text: &str, key: &str) -> (r: Option<String>)
    ensures
        match os_release_value(text@, key@) {
            Some(v) => r matches Some(x) && x@ == v,
            None => r is None,
        },
{
    match find_keyed(text, key, '=') {
        Some(v) => {
            let t = trimmed(v.as_slice());
            let u = trim_char_chars(t.as_slice(), '"');
            if u.len() == 0 {
                None
            } else {
                Some(string_of(u.as_slice()))
            }
        },
        None => None,
    }
}

/// What [`meminfo_field`] gives: the first word after `key:`, as a number.
pub open spec fn meminfo_value(text: Seq<char>, key: Seq<char>) -> Option<nat> {
    match keyed_value(lines(text), key, ':') {
        Some(v) => match first_word(v) {
            Some(w) => parse_uint(w, u64::MAX as nat),
            None => None,
        },
        None => None,
    }
}

/// Read a `Key:  1234 kB` field from meminfo, in KiB.
pub fn meminfo_field(text: &str, key: &str) -> (r: Option<u64>)
    ensures
        match meminfo_value(text@, key@) {
            Some(v) => r == Some(v as u64),
            None => r is None,
        },
{
    match find_keyed(text, key, ':') {
        Some(v) => match first_word_of(v.as_slice()) {
            Some(w) => parse_u64(w.as_slice(), u64::MAX),
            None => None,
        },
        None => None,
    }
}

// ---------------------------------------------------------------------------
// Formatting
// ---------------------------------------------------------------------------

/// `n / d` rounded to the nearest integer, ties to even, which is how `{:.N}`
/// rounds a value it represents exactly.
pub open spec fn round_even(n: nat, d: nat) -> nat {
    let q = n / d;
    let r = n % d;
    if 2 * r > d {
        q + 1
    } else if 2 * r < d {
        q
    } else if q % 2 == 0 {
        q
    } else {
        q + 1
    }
}

/// How many times 1024 goes into `kib` before the value drops under 1024, up
/// to tebibytes.
pub open spec fn kib_unit(kib: nat) -> nat {
    if kib >= 0x4000_0000 {
        3
    } else if kib >= 0x10_0000 {
        2
    } else if kib >= 0x400 {
        1
    } else {
        0
    }
}

/// 1024 to the `u`.
pub open spec fn unit_size(u: nat) -> nat {
    if u == 3 {
        0x4000_0000
    } else if u == 2 {
        0x10_0000
    } else if u == 1 {
        0x400
    } else {
        1
    }
}

/// The name of unit `u`.
pub open spec fn unit_name(u: nat) -> Seq<char> {
    if u == 3 {
        seq!['T', 'i', 'B']
    } else if u == 2 {
        seq!['G', 'i', 'B']
    } else if u == 1 {
        seq!['M', 'i', 'B']
    } else {
        seq!['K', 'i', 'B']
    }
}

/// `n`, below 100, as two digits.
pub open spec fn two_digits(n: nat) -> Seq<char> {
    seq![crate::text::digit(n / 10), crate::text::digit(n % 10)]
}

/// `kib` in the largest binary unit that keeps it at 1 or more, up to TiB.
/// Sub-10 values in a unit above KiB keep two decimals to stay informative;
/// the rest are whole numbers.
pub open spec fn human_kib_text(kib: nat) -> Seq<char> {
    let u = kib_unit(kib);
    let d = unit_size(u);
    if u > 0 && kib < 10 * d {
        let q = round_even(kib * 100, d);
        dec(q / 100) + seq!['.'] + two_digits(q % 100) + unit_name(u)
    } else {
        dec(round_even(kib, d)) + unit_name(u)
    }
}

fn round_even_u128(n: u128, d: u128) -> (r: u128)
    requires
        d > 0,
        d <= 0x4000_0000,
        n <= u64::MAX as u128 * 100,
    ensures
        r == round_even(n as nat, d as nat),
        r <= n / d + 1,
{
    let q = n / d;
    let r = n % d;
    if 2 * r > d {
        q + 1
    } else if 2 * r < d {
        q
    } else if q % 2 == 0 {
        q
    } else {
        q + 1
    }
}

/// Appends the name of unit `u`.
fn push_unit(out: &mut String, u: u64)
    requires
        u <= 3,
    ensures
        final(out)@ == old(out)@ + unit_name(u as nat),
{
    if u == 3 {
        out.push('T');
    } else if u == 2 {
        out.push('G');
    } else if u == 1 {
        out.push('M');
    } else {
        out.push('K');
    }
    out.push('i');
    out.push('B');
    assert(final(out)@ =~= old(out)@ + unit_name(u as nat));
}

/// A size in KiB, human readable: `512KiB`, `2.00MiB`, `16GiB`.
pub fn human_kib(kib: u64) -> (r: String)
    ensures
        r@ == human_kib_text(kib as nat),
{
    let u: u64 = if kib >= 0x4000_0000 {
        3
    } else if kib >= 0x10_0000 {
        2
    } else if kib >= 0x400 {
        1
    } else {
        0
    };
    let d: u64 = if u == 3 {
        0x4000_0000
    } else if u == 2 {
        0x10_0000
    } else if u == 1 {
        0x400
    } else {
        1
    };
    let mut out = String::new();
    // Sub-10 values need a decimal to stay informative; larger ones do not.
    if u > 0 && (kib as u128) < 10 * (d as u128) {
        let q = round_even_u128(kib as u128 * 100, d as u128);
        let ghost n: int = kib as int * 100;
        assert(n / (d as int) < 1000) by (nonlinear_arith)
            requires
                kib < 10 * d,
                d > 0,
                n == kib * 100,
        ;
        push_dec(&mut out, (q / 100) as u64);
        out.push('.');
        out.push(crate::text::digit_char(((q % 100) / 10) as u64));
        out.push(crate::text::digit_char((q % 10) as u64));
        push_unit(&mut out, u);
        assert((q % 100) % 10 == q % 10);
        assert(out@ =~= human_kib_text(kib as nat));
    } else {
        let q = round_even_u128(kib as u128, d as u128);
        assert(q <= u64::MAX) by (nonlinear_arith)
            requires
                q <= (kib as int) / (d as int) + 1,
                d > 0,
                d == 1 ==> q == kib,
                d > 1 ==> kib >= d,
                kib <= u64::MAX,
        ;
        push_dec(&mut out, q as u64);
        push_unit(&mut out, u);
        assert(out@ =~= human_kib_text(kib as nat));
    }
    out
}

/// The percentage `used` is of `total`, rounded down; 0 of nothing.
pub open spec fn percent(used: nat, total: nat) -> nat {
    if total == 0 {
        0
    } else {
        used * 100 / total
    }
}

/// `used / total (pct%)`, both sizes human readable.
pub open spec fn usage_text(used_kib: nat, total_kib: nat) -> Seq<char> {
    human_kib_text(used_kib) + seq![' ', '/', ' '] + human_kib_text(total_kib) + seq![' ', '('] + dec(
        percent(used_kib, total_kib),
    ) + seq!['%', ')']
}

/// `1.2GiB / 15.5GiB (8%)` from KiB inputs.
pub fn format_usage(used_kib: u64, total_kib: u64) -> (r: String)
    requires
        used_kib * 100 <= u64::MAX,
    ensures
        r@ == usage_text(used_kib as nat, total_kib as nat),
{
    let pct = if total_kib == 0 {
        0
    } else {
        used_kib * 100 / total_kib
    };
    let mut out = human_kib(used_kib);
    out.push(' ');
    out.push('/');
    out.push(' ');
    let total = human_kib(total_kib);
    push_str(&mut out, total.as_str());
    out.push(' ');
    out.push('(');
    push_dec(&mut out, pct);
    out.push('%');
    out.push(')');
    assert(out@ =~= usage_text(used_kib as nat, total_kib as nat));
    out
}

/// `""` for one, `"s"` otherwise.
pub open spec fn plural_text(n: nat) -> Seq<char> {
    if n == 1 {
        seq![]
    } else {
        seq!['s']
    }
}

/// The plural suffix for a count of `n`.
pub fn plural(n: u64) -> (r: &'static str)
    ensures
        r@ == plural_text(n as nat),
{
    if n == 1 {
        let r = "";
        proof {
            reveal_strlit("");
        }
        r
    } else {
        let r = "s";
        proof {
            reveal_strlit("s");
        }
        r
    }
}

/// `n unit` with the plural suffix.
pub open spec fn count_text(n: nat, unit: Seq<char>) -> Seq<char> {
    dec(n) + seq![' '] + unit + plural_text(n)
}

/// A count of one takes the bare unit and every other count, zero
/// included, the plural `s`.
pub proof fn lemma_plurals(n: nat, unit: Seq<char>)
    ensures
        n == 1 ==> count_text(n, unit) == seq!['1', ' '] + unit,
        n != 1 ==> count_text(n, unit) == dec(n) + seq![' '] + unit + seq!['s'],
        n != 1 ==> count_text(n, unit).last() == 's',
{
    if n == 1 {
        assert(dec(1) =~= seq!['1']);
        assert(count_text(n, unit) =~= seq!['1', ' '] + unit);
    }
}

/// Whole hours, minutes and days read as such, with the plural for counts
/// above one: `7200` seconds are `2 hours`, `120` are `2 mins`, `172800`
/// are `2 days`.
pub proof fn lemma_whole_units(n: nat)
    ensures
        2 <= n <= 23 ==> duration_text(n * 3600) == dec(n) + " hours"@,
        2 <= n <= 59 ==> duration_text(n * 60) == dec(n) + " mins"@,
        2 <= n ==> duration_text(n * 86400) == dec(n) + " days"@,
{
    reveal_strlit(" hours");
    reveal_strlit(" mins");
    reveal_strlit(" days");
    if 2 <= n <= 23 {
        let secs = n * 3600;
        assert(secs / 86400 == 0 && secs % 86400 / 3600 == n && secs % 3600 / 60 == 0) by (nonlinear_arith)
            requires
                secs == n * 3600,
                2 <= n <= 23,
        ;
        lemma_plurals(n, seq!['h', 'o', 'u', 'r']);
        let parts = Seq::<Seq<char>>::empty() + seq![count_text(n, seq!['h', 'o', 'u', 'r'])];
        assert(parts.len() == 1);
        assert(dec(n) + seq![' '] + seq!['h', 'o', 'u', 'r'] + seq!['s'] =~= dec(n) + " hours"@);
    }
    if 2 <= n <= 59 {
        let secs = n * 60;
        assert(secs / 86400 == 0 && secs % 86400 / 3600 == 0 && secs % 3600 / 60 == n) by (nonlinear_arith)
            requires
                secs == n * 60,
                2 <= n <= 59,
        ;
        lemma_plurals(n, seq!['m', 'i', 'n']);
        assert((Seq::<Seq<char>>::empty() + Seq::<Seq<char>>::empty()).push(count_text(n, seq!['m', 'i', 'n']))
            =~= seq![count_text(n, seq!['m', 'i', 'n'])]);
        assert(dec(n) + seq![' '] + seq!['m', 'i', 'n'] + seq!['s'] =~= dec(n) + " mins"@);
    }
    if 2 <= n {
        let secs = n * 86400;
        assert(secs / 86400 == n && secs % 86400 / 3600 == 0 && secs % 3600 / 60 == 0) by (nonlinear_arith)
            requires
                secs == n * 86400,
                2 <= n,
        ;
        lemma_plurals(n, seq!['d', 'a', 'y']);
        assert(seq![count_text(n, seq!['d', 'a', 'y'])] + Seq::<Seq<char>>::empty() =~= seq![count_text(n, seq!['d', 'a', 'y'])]);
        assert(dec(n) + seq![' '] + seq!['d', 'a', 'y'] + seq!['s'] =~= dec(n) + " days"@);
    }
}

/// Days, hours and minutes of `secs`, the parts that are not zero joined by
/// commas; minutes stay when nothing bigger applies, so a fresh boot reads
/// `0 mins` rather than nothing.
pub open spec fn duration_text(secs: nat) -> Seq<char> {
    let d = secs / 86400;
    let h = secs % 86400 / 3600;
    let m = secs % 3600 / 60;
    let day = if d > 0 {
        seq![count_text(d, seq!['d', 'a', 'y'])]
    } else {
        seq![]
    };
    let hour = if h > 0 {
        seq![count_text(h, seq!['h', 'o', 'u', 'r'])]
    } else {
        seq![]
    };
    let parts = day + hour;
    let all = if m > 0 || parts.len() == 0 {
        parts.push(count_text(m, seq!['m', 'i', 'n']))
    } else {
        parts
    };
    joined(all)
}

/// `parts` separated by `, `.
pub open spec fn joined(parts: Seq<Seq<char>>) -> Seq<char>
    decreases parts.len(),
{
    if parts.len() == 0 {
        seq![]
    } else if parts.len() == 1 {
        parts[0]
    } else {
        joined(parts.drop_last()) + seq![',', ' '] + parts.last()
    }
}

/// Appends `n unit` with the plural suffix.
fn push_count(out: &mut String, n: u64, unit: &str)
    ensures
        final(out)@ == old(out)@ + count_text(n as nat, unit@),
{
    push_dec(out, n);
    out.push(' ');
    push_str(out, unit);
    push_str(out, plural(n));
    assert(final(out)@ =~= old(out)@ + count_text(n as nat, unit@));
}

/// Uptime in words: `1 day, 1 hour, 1 min`.
pub fn humanize_duration(secs: u64) -> (r: String)
    ensures
        r@ == duration_text(secs as nat),
{
    let d = secs / 86400;
    let h = secs % 86400 / 3600;
    let m = secs % 3600 / 60;
    let day = "day";
    let hour = "hour";
    let min = "min";
    proof {
        reveal_strlit("day");
        reveal_strlit("hour");
        reveal_strlit("min");
    }
    assert(day@ =~= seq!['d', 'a', 'y']);
    assert(hour@ =~= seq!['h', 'o', 'u', 'r']);
    assert(min@ =~= seq!['m', 'i', 'n']);
    let mut out = String::new();
    let mut parts: usize = 0;
    let ghost dayp = if d > 0 {
        seq![count_text(d as nat, seq!['d', 'a', 'y'])]
    } else {
        seq![]
    };
    let ghost hourp = if h > 0 {
        seq![count_text(h as nat, seq!['h', 'o', 'u', 'r'])]
    } else {
        seq![]
    };
    if d > 0 {
        push_count(&mut out, d, day);
        parts = 1;
    }
    assert(out@ =~= joined(dayp));
    if h > 0 {
        if parts > 0 {
            out.push(',');
            out.push(' ');
        }
        push_count(&mut out, h, hour);
        parts = parts + 1;
        assert(dayp + hourp =~= dayp.push(count_text(h as nat, seq!['h', 'o', 'u', 'r'])));
        assert((dayp + hourp).drop_last() =~= dayp);
    } else {
        assert(dayp + hourp =~= dayp);
    }
    let ghost ps = dayp + hourp;
    assert(out@ =~= joined(ps));
    assert(parts == ps.len());
    if m > 0 || parts == 0 {
        if parts > 0 {
            out.push(',');
            out.push(' ');
        }
        push_count(&mut out, m, min);
        assert(ps.push(count_text(m as nat, seq!['m', 'i', 'n'])).drop_last() =~= ps);
        assert(out@ =~= joined(ps.push(count_text(m as nat, seq!['m', 'i', 'n']))));
    }
    out
}

// ---------------------------------------------------------------------------
// Names and placeholders
// ---------------------------------------------------------------------------

/// Whether `a` is exactly the characters of `lit`.
fn is_lit(a: &[char], lit: &str) -> (r: bool)
    ensures
        r == (a@ == lit@),
{
    let l = chars_of(lit);
    same_chars(a, l.as_slice())
}

/// The shells a login can run, by name.
pub open spec fn is_shell_name(t: Seq<char>) -> bool {
    ||| t == "sh"@
    ||| t == "bash"@
    ||| t == "zsh"@
    ||| t == "fish"@
    ||| t == "dash"@
    ||| t == "ksh"@
    ||| t == "tcsh"@
    ||| t == "nu"@
    ||| t == "elvish"@
}

/// Whether a process name is a shell. Login shells appear as `-bash`, so the
/// marker is stripped before comparing.
pub fn is_shell(name: &str) -> (r: bool)
    ensures
        r == is_shell_name(trim_start_char(name@, '-')),
{
    let chars = chars_of(name);
    let mut a: usize = 0;
    assert(chars@.skip(0) =~= chars@);
    while a < chars.len() && chars[a] == '-'
        invariant
            a <= chars@.len(),
            chars@ == name@,
            trim_start_char(chars@.skip(a as int), '-') == trim_start_char(name@, '-'),
        decreases chars@.len() - a,
    {
        assert(chars@.skip(a as int).drop_first() =~= chars@.skip(a + 1));
        a = a + 1;
    }
    let len = chars.len();
    let t = slice_of(chars.as_slice(), a, len);
    assert(t@ =~= chars@.skip(a as int));
    let t = t.as_slice();
    is_lit(t, "sh") || is_lit(t, "bash") || is_lit(t, "zsh") || is_lit(t, "fish") || is_lit(t, "dash")
        || is_lit(t, "ksh") || is_lit(t, "tcsh") || is_lit(t, "nu") || is_lit(t, "elvish")
}

/// How many ancestors the terminal search looks at before giving up on the
/// process tree.
pub const MAX_ANCESTORS: usize = 8;

/// Whether the search for the terminal goes on to `parent`, having looked at
/// `looked_at` ancestors that were all shells: not past init, and not past
/// the limit.
pub fn climbs_to(parent: u32, looked_at: usize) -> (r: bool)
    ensures
        r == (parent > 1 && looked_at < MAX_ANCESTORS),
{
    parent > 1 && looked_at < MAX_ANCESTORS
}

/// `c` as ASCII lower case compares it.
pub open spec fn ascii_lower(c: char) -> u32 {
    let u = c as u32;
    if 0x41 <= u <= 0x5a {
        (u + 0x20) as u32
    } else {
        u
    }
}

/// Equal ignoring ASCII case, as `str::eq_ignore_ascii_case` compares a string
/// against an ASCII one.
pub open spec fn ascii_ci_eq(a: Seq<char>, b: Seq<char>) -> bool {
    a.len() == b.len() && forall|i: int| 0 <= i < a.len() ==> ascii_lower(#[trigger] a[i]) == ascii_lower(b[i])
}

fn eq_ignore_ascii_case(a: &[char], lit: &str) -> (r: bool)
    ensures
        r == ascii_ci_eq(a@, lit@),
{
    let b = chars_of(lit);
    if a.len() != b.len() {
        return false;
    }
    let mut i: usize = 0;
    while i < a.len()
        invariant
            i <= a@.len(),
            a@.len() == b@.len(),
            b@ == lit@,
            forall|k: int| 0 <= k < i ==> ascii_lower(#[trigger] a@[k]) == ascii_lower(b@[k]),
        decreases a@.len() - i,
    {
        let x = a[i] as u32;
        let y = b[i] as u32;
        let lx = if 0x41 <= x && x <= 0x5a {
            x + 0x20
        } else {
            x
        };
        let ly = if 0x41 <= y && y <= 0x5a {
            y + 0x20
        } else {
            y
        };
        if lx != ly {
            return false;
        }
        i = i + 1;
    }
    true
}

/// Text a DMI field holds when nobody filled it in.
pub open spec fn is_placeholder(v: Seq<char>) -> bool {
    ||| ascii_ci_eq(v, "Default string"@)
    ||| ascii_ci_eq(v, "To be filled by O.E.M."@)
    ||| ascii_ci_eq(v, "System Product Name"@)
    ||| ascii_ci_eq(v, "None"@)
}

/// DMI fields are frequently placeholder text on desktops and VMs.
pub fn is_meaningful(value: &str) -> (r: bool)
    ensures
        r == (value@.len() > 0 && !is_placeholder(value@)),
{
    let v = chars_of(value);
    v.len() != 0 && !eq_ignore_ascii_case(v.as_slice(), "Default string") && !eq_ignore_ascii_case(
        v.as_slice(),
        "To be filled by O.E.M.",
    ) && !eq_ignore_ascii_case(v.as_slice(), "System Product Name") && !eq_ignore_ascii_case(
        v.as_slice(),
        "None",
    )
}

/// Index of the last `c` in `s`, or -1 when there is none.
pub open spec fn last_at(s: Seq<char>, c: char) -> int
    decreases s.len(),
{
    if s.len() == 0 {
        -1
    } else if s.last() == c {
        s.len() - 1
    } else {
        last_at(s.drop_last(), c)
    }
}

/// What follows the last `c` in `s`; all of `s` when there is none.
pub open spec fn after_last(s: Seq<char>, c: char) -> Seq<char> {
    s.skip(last_at(s, c) + 1)
}

/// Position just past the last `c` in `s`, or 0.
fn after_last_index(s: &[char], c: char) -> (r: usize)
    ensures
        r as int == last_at(s@, c) + 1,
        r <= s@.len(),
{
    let mut n = s.len();
    assert(s@.take(n as int) =~= s@);
    while n > 0 && s[n - 1] != c
        invariant
            n <= s@.len(),
            last_at(s@.take(n as int), c) == last_at(s@, c),
        decreases n,
    {
        assert(s@.take(n as int).drop_last() =~= s@.take(n - 1));
        n = n - 1;
    }
    n
}

/// The last `/`-separated component, as a shell's `basename` gives it.
pub fn basename(value: &str) -> (r: String)
    ensures
        r@ == after_last(value@, '/'),
{
    let v = chars_of(value);
    let i = after_last_index(v.as_slice(), '/');
    let len = v.len();
    let t = slice_of(v.as_slice(), i, len);
    assert(t@ =~= v@.skip(i as int));
    string_of(t.as_slice())
}

/// An environment value as the fetch uses it: unset and empty are the same.
pub open spec fn present(v: Option<Seq<char>>) -> Option<Seq<char>> {
    match v {
        Some(s) => if s.len() > 0 {
            Some(s)
        } else {
            None
        },
        None => None,
    }
}

/// The view of an optional string.
pub open spec fn opt_view(v: Option<&str>) -> Option<Seq<char>> {
    match v {
        Some(s) => Some(s@),
        None => None,
    }
}

/// What [`basename_of_env`] gives: the last path component of a set value.
pub open spec fn env_basename(v: Option<Seq<char>>) -> Option<Seq<char>> {
    match present(v) {
        Some(s) => Some(after_last(s, '/')),
        None => None,
    }
}

/// The last path component of an environment value, e.g. `zsh` from
/// `SHELL=/usr/bin/zsh`.
pub fn basename_of_env(value: Option<&str>) -> (r: Option<String>)
    ensures
        match env_basename(opt_view(value)) {
            Some(v) => r matches Some(x) && x@ == v,
            None => r is None,
        },
{
    match value {
        Some(v) => if v.is_empty() {
            None
        } else {
            Some(basename(v))
        },
        None => None,
    }
}

/// What a file read as a single value gives: its text trimmed, or nothing when
/// that is empty.
pub open spec fn trimmed_value(s: Seq<char>) -> Option<Seq<char>> {
    if trim(s).len() == 0 {
        None
    } else {
        Some(trim(s))
    }
}

/// The trimmed text, unless nothing is left.
pub fn nonempty_trimmed(text: &str) -> (r: Option<String>)
    ensures
        match trimmed_value(text@) {
            Some(v) => r matches Some(x) && x@ == v,
            None => r is None,
        },
{
    let c = chars_of(text);
    let t = trimmed(c.as_slice());
    if t.len() == 0 {
        None
    } else {
        Some(string_of(t.as_slice()))
    }
}

// ---------------------------------------------------------------------------
// Title and fixed rows
// ---------------------------------------------------------------------------

/// `user@host`: the first set one of `USER` and `LOGNAME`, or `user`.
pub open spec fn title_text(user: Option<Seq<char>>, logname: Option<Seq<char>>, host: Seq<char>) -> Seq<char> {
    let name = match present(user) {
        Some(u) => u,
        None => match present(logname) {
            Some(l) => l,
            None => "user"@,
        },
    };
    name + seq!['@'] + host
}

/// `user@host`, shown above the info rows.
pub fn title(user: Option<&str>, logname: Option<&str>, host: &str) -> (r: String)
    ensures
        r@ == title_text(opt_view(user), opt_view(logname), host@),
{
    let mut out = String::new();
    let name = match user {
        Some(u) if !u.is_empty() => u,
        _ => match logname {
            Some(l) if !l.is_empty() => l,
            _ => "user",
        },
    };
    push_str(&mut out, name);
    out.push('@');
    push_str(&mut out, host);
    assert(out@ =~= title_text(opt_view(user), opt_view(logname), host@));
    out
}

/// The host name: the kernel's, else `/etc/hostname`'s, else `localhost`.
/// Each is a file's text, trimmed.
pub open spec fn hostname_text(kernel: Option<Seq<char>>, etc: Option<Seq<char>>) -> Seq<char> {
    let k = match kernel {
        Some(t) => trimmed_value(t),
        None => None,
    };
    let e = match etc {
        Some(t) => trimmed_value(t),
        None => None,
    };
    match k {
        Some(h) => h,
        None => match e {
            Some(h) => h,
            None => "localhost"@,
        },
    }
}

/// The host name from the texts of the two files that may hold it.
pub fn hostname(kernel: Option<&str>, etc: Option<&str>) -> (r: String)
    ensures
        r@ == hostname_text(opt_view(kernel), opt_view(etc)),
{
    if let Some(k) = kernel {
        if let Some(h) = nonempty_trimmed(k) {
            return h;
        }
    }
    if let Some(e) = etc {
        if let Some(h) = nonempty_trimmed(e) {
            return h;
        }
    }
    "localhost".to_owned()
}

/// The eight ANSI colours as solid blocks, then a reset.
pub open spec fn swatch_text(n: nat) -> Seq<char>
    decreases n,
{
    if n == 0 {
        seq![]
    } else {
        swatch_text((n - 1) as nat) + seq![crate::color::esc(), '[', '3', crate::text::digit((n - 1) as nat), 'm', '█', '█', '█']
    }
}

/// The eight ANSI colours as solid blocks, so you can see your terminal theme.
pub fn swatches() -> (r: String)
    ensures
        r@ == swatch_text(8) + crate::color::reset_seq(),
{
    let mut out = String::new();
    let mut code: u64 = 0;
    while code < 8
        invariant
            code <= 8,
            out@ == swatch_text(code as nat),
        decreases 8 - code,
    {
        out.push('\x1b');
        out.push('[');
        out.push('3');
        out.push(crate::text::digit_char(code));
        out.push('m');
        out.push('█');
        out.push('█');
        out.push('█');
        code = code + 1;
        assert(out@ =~= swatch_text(code as nat));
    }
    crate::color::push_reset(&mut out);
    out
}

// ---------------------------------------------------------------------------
// CPU
// ---------------------------------------------------------------------------

/// CPUs in one entry of a kernel CPU list: `n` counts one, `n-m` the range
/// inclusive; `None` for anything else, a reversed range included.
pub open spec fn range_size(piece: Seq<char>) -> Option<nat> {
    let i = first_at(piece, '-');
    let a = if i >= 0 {
        piece.take(i)
    } else {
        piece
    };
    let b = if i >= 0 {
        piece.skip(i + 1)
    } else {
        piece
    };
    match (parse_uint(trim(a), usize::MAX as nat), parse_uint(trim(b), usize::MAX as nat)) {
        (Some(x), Some(y)) => if y >= x {
            Some((y - x + 1) as nat)
        } else {
            None
        },
        _ => None,
    }
}

/// CPUs in a list of entries, or `None` when any entry is malformed.
pub open spec fn cpu_total(pieces: Seq<Seq<char>>) -> Option<nat>
    decreases pieces.len(),
{
    if pieces.len() == 0 {
        Some(0)
    } else {
        match (cpu_total(pieces.drop_last()), range_size(pieces.last())) {
            (Some(t), Some(n)) => Some(t + n),
            _ => None,
        }
    }
}

/// Counting never passes the largest `usize` part way through the list.
pub open spec fn cpu_list_fits(text: Seq<char>) -> bool {
    let pieces = split_on(text, ',');
    forall|k: int| 0 <= k <= pieces.len() ==> (#[trigger] cpu_total(pieces.take(k)) matches Some(t) ==> t <= usize::MAX)
}

/// What [`count_cpu_list`] gives: the count, unless malformed or zero.
pub open spec fn cpu_list_count(text: Seq<char>) -> Option<nat> {
    match cpu_total(split_on(text, ',')) {
        Some(t) => if t > 0 {
            Some(t)
        } else {
            None
        },
        None => None,
    }
}

/// Trimmed and parsed as a `usize`.
fn parse_trimmed_usize(s: &[char]) -> (r: Option<usize>)
    ensures
        match parse_uint(trim(s@), usize::MAX as nat) {
            Some(v) => r == Some(v as usize),
            None => r is None,
        },
{
    let t = trimmed(s);
    match parse_u64(t.as_slice(), usize::MAX as u64) {
        Some(v) => Some(v as usize),
        None => None,
    }
}

/// Size of a kernel CPU list: comma-separated `n` or `n-m` ranges, inclusive.
pub fn count_cpu_list(text: &str) -> (r: Option<usize>)
    requires
        cpu_list_fits(text@),
    ensures
        match cpu_list_count(text@) {
            Some(n) => r == Some(n as usize),
            None => r is None,
        },
{
    let chars = chars_of(text);
    let pieces = split_chars(chars.as_slice(), ',');
    let ghost pv = split_on(text@, ',');
    let mut total: usize = 0;
    let mut k: usize = 0;
    assert(pv.take(0) =~= seq![]);
    while k < pieces.len()
        invariant
            k <= pieces@.len(),
            pv == split_on(text@, ','),
            pieces@.len() == pv.len(),
            forall|j: int| 0 <= j < pieces@.len() ==> #[trigger] pieces@[j]@ == pv[j],
            cpu_list_fits(text@),
            cpu_total(pv.take(k as int)) == Some(total as nat),
        decreases pieces@.len() - k,
    {
        let piece = pieces[k].as_slice();
        assert(pv.take(k + 1).drop_last() =~= pv.take(k as int));
        assert(pv.take(k + 1).last() == piece@);
        let (first, last) = match find_char(piece, '-') {
            Some(i) => {
                proof {
                    lemma_first_at(piece@, '-');
                }
                let len = piece.len();
                let a = slice_of(piece, 0, i);
                let b = slice_of(piece, i + 1, len);
                assert(a@ =~= piece@.take(i as int));
                assert(b@ =~= piece@.skip(i + 1));
                (a, b)
            },
            None => (slice_of(piece, 0, piece.len()), slice_of(piece, 0, piece.len())),
        };
        assert(first_at(piece@, '-') < 0 ==> piece@.subrange(0, piece@.len() as int) =~= piece@);
        let x = match parse_trimmed_usize(first.as_slice()) {
            Some(x) => x,
            None => {
                assert(cpu_total(pv.take(k + 1)) is None);
                proof {
                    lemma_cpu_total_none(pv, (k + 1) as nat);
                }
                return None;
            },
        };
        let y = match parse_trimmed_usize(last.as_slice()) {
            Some(y) => y,
            None => {
                assert(cpu_total(pv.take(k + 1)) is None);
                proof {
                    lemma_cpu_total_none(pv, (k + 1) as nat);
                }
                return None;
            },
        };
        if y < x {
            assert(cpu_total(pv.take(k + 1)) is None);
            proof {
                lemma_cpu_total_none(pv, (k + 1) as nat);
            }
            return None;
        }
        assert(cpu_total(pv.take(k + 1)) == Some((total + (y - x + 1)) as nat));
        assert(total + (y - x) + 1 <= usize::MAX) by {
            assert(cpu_total(pv.take(k + 1)) matches Some(t) ==> t <= usize::MAX);
        }
        total = total + (y - x) + 1;
        k = k + 1;
    }
    assert(pv.take(pv.len() as int) =~= pv);
    if total > 0 {
        Some(total)
    } else {
        None
    }
}

/// Whether counting `text` stays within `usize` (see [`cpu_list_fits`]), so
/// a caller can check before [`count_cpu_list`].
pub fn cpu_list_in_range(text: &str) -> (r: bool)
    ensures
        r == cpu_list_fits(text@),
{
    let chars = chars_of(text);
    let pieces = split_chars(chars.as_slice(), ',');
    let ghost pv = split_on(text@, ',');
    let mut total: usize = 0;
    let mut k: usize = 0;
    assert(pv.take(0) =~= seq![]);
    while k < pieces.len()
        invariant
            k <= pieces@.len(),
            pv == split_on(text@, ','),
            pieces@.len() == pv.len(),
            forall|j: int| 0 <= j < pieces@.len() ==> #[trigger] pieces@[j]@ == pv[j],
            cpu_total(pv.take(k as int)) == Some(total as nat),
            forall|j: int| 0 <= j <= k ==> (#[trigger] cpu_total(pv.take(j)) matches Some(t) ==> t <= usize::MAX),
        decreases pieces@.len() - k,
    {
        let piece = pieces[k].as_slice();
        assert(pv.take(k + 1).drop_last() =~= pv.take(k as int));
        assert(pv.take(k + 1).last() == piece@);
        let (first, last) = match find_char(piece, '-') {
            Some(i) => {
                proof {
                    lemma_first_at(piece@, '-');
                }
                let len = piece.len();
                let a = slice_of(piece, 0, i);
                let b = slice_of(piece, i + 1, len);
                assert(a@ =~= piece@.take(i as int));
                assert(b@ =~= piece@.skip(i + 1));
                (a, b)
            },
            None => (slice_of(piece, 0, piece.len()), slice_of(piece, 0, piece.len())),
        };
        assert(first_at(piece@, '-') < 0 ==> piece@.subrange(0, piece@.len() as int) =~= piece@);
        let x = parse_trimmed_usize(first.as_slice());
        let y = parse_trimmed_usize(last.as_slice());
        if x.is_none() || y.is_none() || y.unwrap() < x.unwrap() {
            assert(cpu_total(pv.take(k + 1)) is None);
            proof {
                lemma_cpu_total_none_after(pv, (k + 1) as nat);
            }
            return true;
        }
        let x = x.unwrap();
        let y = y.unwrap();
        let size: u128 = (y - x) as u128 + 1;
        assert(cpu_total(pv.take(k + 1)) == Some((total + size) as nat));
        if total as u128 + size > usize::MAX as u128 {
            return false;
        }
        total = (total as u128 + size) as usize;
        k = k + 1;
    }
    assert(pv.take(pv.len() as int) =~= pv);
    true
}

/// Once an entry is malformed, every longer prefix is malformed too.
proof fn lemma_cpu_total_none_after(pieces: Seq<Seq<char>>, k: nat)
    requires
        k <= pieces.len(),
        cpu_total(pieces.take(k as int)) is None,
    ensures
        forall|j: int| k <= j <= pieces.len() ==> #[trigger] cpu_total(pieces.take(j)) is None,
    decreases pieces.len() - k,
{
    if k < pieces.len() {
        assert(pieces.take((k + 1) as int).drop_last() =~= pieces.take(k as int));
        lemma_cpu_total_none_after(pieces, k + 1);
    }
}

/// Once an entry is malformed the whole list is.
proof fn lemma_cpu_total_none(pieces: Seq<Seq<char>>, k: nat)
    requires
        k <= pieces.len(),
        cpu_total(pieces.take(k as int)) is None,
    ensures
        cpu_total(pieces) is None,
    decreases pieces.len() - k,
{
    if k < pieces.len() {
        assert(pieces.take((k + 1) as int).drop_last() =~= pieces.take(k as int));
        lemma_cpu_total_none(pieces, k + 1);
    } else {
        assert(pieces.take(k as int) =~= pieces);
    }
}

/// The parent pid in a `/proc/<pid>/stat` line. The executable name in field
/// two is in parentheses and may itself contain spaces or parens, so fields
/// are counted from the last `)`.
pub open spec fn stat_ppid(stat: Seq<char>) -> Option<nat> {
    let i = last_at(stat, ')');
    if i < 0 {
        None
    } else {
        match first_word(after_first_word(stat.skip(i + 1))) {
            Some(w) => parse_uint(w, u32::MAX as nat),
            None => None,
        }
    }
}

/// The parent pid from the text of a `/proc/<pid>/stat` file.
pub fn parent_pid_of(stat: &str) -> (r: Option<u32>)
    ensures
        match stat_ppid(stat@) {
            Some(v) => r == Some(v as u32),
            None => r is None,
        },
{
    let chars = chars_of(stat);
    let i = after_last_index(chars.as_slice(), ')');
    if i == 0 {
        return None;
    }
    let len = chars.len();
    let rest = slice_of(chars.as_slice(), i, len);
    assert(rest@ =~= stat@.skip(i as int));
    let (a, end) = first_word_span(rest.as_slice());
    let rlen = rest.len();
    let tail = slice_of(rest.as_slice(), end, rlen);
    assert(rest@.skip(end as int) =~= rest@.skip(a as int).skip(end - a));
    assert(tail@ =~= after_first_word(rest@));
    match first_word_of(tail.as_slice()) {
        Some(w) => match parse_u64(w.as_slice(), u32::MAX as u64) {
            Some(v) => Some(v as u32),
            None => None,
        },
        None => None,
    }
}

/// The model name: the text after the `:` of the first `model name` line.
pub open spec fn model_in(ls: Seq<Seq<char>>) -> Option<Seq<char>>
    decreases ls.len(),
{
    if ls.len() == 0 {
        None
    } else {
        let l = ls[0];
        let p = "model name"@;
        let rest = l.skip(p.len() as int);
        let i = first_at(rest, ':');
        if l.len() >= p.len() && l.take(p.len() as int) == p && i >= 0 {
            Some(trim(rest.skip(i + 1)))
        } else {
            model_in(ls.drop_first())
        }
    }
}

/// Lines of `ls` that start with `p`.
pub open spec fn count_prefixed(ls: Seq<Seq<char>>, p: Seq<char>) -> nat
    decreases ls.len(),
{
    if ls.len() == 0 {
        0
    } else {
        count_prefixed(ls.drop_last(), p) + if ls.last().len() >= p.len() && ls.last().take(p.len() as int) == p {
            1nat
        } else {
            0nat
        }
    }
}

/// How many of `text`'s lines start with `prefix`.
fn count_lines_with(text: &str, prefix: &str) -> (n: usize)
    ensures
        n == count_prefixed(lines(text@), prefix@),
{
    let chars = chars_of(text);
    let ls = lines_of(chars.as_slice());
    let p = chars_of(prefix);
    let ghost lv = lines(text@);
    let mut n: usize = 0;
    let mut k: usize = 0;
    while k < ls.len()
        invariant
            k <= ls@.len(),
            lv == lines(text@),
            ls@.len() == lv.len(),
            forall|j: int| 0 <= j < ls@.len() ==> #[trigger] ls@[j]@ == lv[j],
            p@ == prefix@,
            n <= k,
            n == count_prefixed(lv.take(k as int), prefix@),
        decreases ls@.len() - k,
    {
        assert(lv.take(k + 1).drop_last() =~= lv.take(k as int));
        assert(lv.take(k + 1).last() == ls@[k as int]@);
        if crate::text::starts_with(ls[k].as_slice(), p.as_slice()) {
            n = n + 1;
        }
        k = k + 1;
    }
    assert(lv.take(lv.len() as int) =~= lv);
    n
}

/// The CPU model named in `/proc/cpuinfo` text.
pub fn model_name(text: &str) -> (r: Option<String>)
    ensures
        match model_in(lines(text@)) {
            Some(v) => r matches Some(x) && x@ == v,
            None => r is None,
        },
{
    let chars = chars_of(text);
    let ls = lines_of(chars.as_slice());
    let p = chars_of("model name");
    let ghost lv = lines(text@);
    let mut k: usize = 0;
    assert(lv.skip(0) =~= lv);
    while k < ls.len()
        invariant
            k <= ls@.len(),
            lv == lines(text@),
            ls@.len() == lv.len(),
            forall|j: int| 0 <= j < ls@.len() ==> #[trigger] ls@[j]@ == lv[j],
            p@ == "model name"@,
            model_in(lv.skip(k as int)) == model_in(lv),
        decreases ls@.len() - k,
    {
        let l = ls[k].as_slice();
        assert(lv.skip(k as int)[0] == l@);
        assert(lv.skip(k as int).drop_first() =~= lv.skip(k + 1));
        if crate::text::starts_with(l, p.as_slice()) {
            let len = l.len();
            let rest = slice_of(l, p.len(), len);
            assert(rest@ =~= l@.skip(p@.len() as int));
            if let Some(i) = find_char(rest.as_slice(), ':') {
                proof {
                    lemma_first_at(rest@, ':');
                }
                let rlen = rest.len();
                let v = slice_of(rest.as_slice(), i + 1, rlen);
                assert(v@ =~= rest@.skip(i + 1));
                let t = trimmed(v.as_slice());
                return Some(string_of(t.as_slice()));
            }
        }
        k = k + 1;
    }
    assert(lv.skip(k as int) =~= seq![]);
    None
}

/// What `cpuinfo_summary` gives: the model and the count of `processor`
/// lines.
pub open spec fn cpuinfo_text(text: Seq<char>) -> Option<(Seq<char>, nat)> {
    match model_in(lines(text)) {
        Some(m) => Some((m, count_prefixed(lines(text), "processor"@))),
        None => None,
    }
}

/// The model and core count from the whole of `/proc/cpuinfo`.
pub fn cpuinfo_summary(text: &str) -> (r: Option<(String, usize)>)
    ensures
        match cpuinfo_text(text@) {
            Some((m, n)) => r matches Some((x, c)) && x@ == m && c == n,
            None => r is None,
        },
{
    let cores = count_lines_with(text, "processor");
    match model_name(text) {
        Some(m) => Some((m, cores)),
        None => None,
    }
}

/// `model (cores)` and the clock suffix.
pub open spec fn cpu_line(model: Seq<char>, cores: nat, clock: Seq<char>) -> Seq<char> {
    model + seq![' ', '('] + dec(cores) + seq![')'] + clock
}

/// The CPU row: `AMD Ryzen 9 7950X (32) @ 5.88GHz`, the clock as formatted by
/// the caller (empty when unknown).
pub fn cpu_text(model: &str, cores: usize, clock: &str) -> (r: String)
    ensures
        r@ == cpu_line(model@, cores as nat, clock@),
{
    let mut out = String::new();
    push_str(&mut out, model);
    out.push(' ');
    out.push('(');
    push_dec(&mut out, cores as u64);
    out.push(')');
    push_str(&mut out, clock);
    assert(out@ =~= cpu_line(model@, cores as nat, clock@));
    out
}

// ---------------------------------------------------------------------------
// Memory, swap, disk
// ---------------------------------------------------------------------------

/// The memory row from meminfo: used is total minus available, since
/// available counts reclaimable cache and free alone overstates usage.
pub open spec fn memory_text(info: Seq<char>) -> Option<Seq<char>> {
    match meminfo_value(info, "MemTotal"@) {
        Some(total) => match meminfo_value(info, "MemAvailable"@) {
            Some(avail) => Some(usage_text((total - avail) as nat, total)),
            None => None,
        },
        None => None,
    }
}

/// Available memory does not exceed the total, and the used amount can be
/// turned into a percentage.
pub open spec fn memory_fits(info: Seq<char>) -> bool {
    match (meminfo_value(info, "MemTotal"@), meminfo_value(info, "MemAvailable"@)) {
        (Some(total), Some(avail)) => avail <= total && (total - avail) * 100 <= u64::MAX,
        _ => true,
    }
}

/// The memory row from the text of `/proc/meminfo`.
pub fn memory(info: &str) -> (r: Option<String>)
    requires
        memory_fits(info@),
    ensures
        match memory_text(info@) {
            Some(v) => r matches Some(x) && x@ == v,
            None => r is None,
        },
{
    let total = match meminfo_field(info, "MemTotal") {
        Some(t) => t,
        None => return None,
    };
    let available = match meminfo_field(info, "MemAvailable") {
        Some(a) => a,
        None => return None,
    };
    Some(format_usage(total - available, total))
}

/// The swap row from meminfo; none configured means no row, since one
/// reading "0B / 0B" is noise.
pub open spec fn swap_text(info: Seq<char>) -> Option<Seq<char>> {
    match meminfo_value(info, "SwapTotal"@) {
        Some(total) => if total == 0 {
            None
        } else {
            match meminfo_value(info, "SwapFree"@) {
                Some(free) => Some(usage_text((total - free) as nat, total)),
                None => None,
            }
        },
        None => None,
    }
}

/// Free swap does not exceed the total, and the used amount can be turned
/// into a percentage.
pub open spec fn swap_fits(info: Seq<char>) -> bool {
    match (meminfo_value(info, "SwapTotal"@), meminfo_value(info, "SwapFree"@)) {
        (Some(total), Some(free)) => total > 0 ==> free <= total && (total - free) * 100 <= u64::MAX,
        _ => true,
    }
}

/// The swap row from the text of `/proc/meminfo`.
pub fn swap(info: &str) -> (r: Option<String>)
    requires
        swap_fits(info@),
    ensures
        match swap_text(info@) {
            Some(v) => r matches Some(x) && x@ == v,
            None => r is None,
        },
{
    let total = match meminfo_field(info, "SwapTotal") {
        Some(t) => t,
        None => return None,
    };
    if total == 0 {
        return None;
    }
    let free = match meminfo_field(info, "SwapFree") {
        Some(f) => f,
        None => return None,
    };
    Some(format_usage(total - free, total))
}

/// The disk row from a filesystem's block counts: used is what unprivileged
/// users cannot have, since the available count excludes root's reserve.
pub open spec fn disk_text(blocks: nat, available: nat, block_size: nat) -> Option<Seq<char>> {
    let total = blocks * block_size;
    let free = available * block_size;
    if total == 0 {
        None
    } else {
        Some(usage_text(((total - free) as nat) / 1024, total / 1024))
    }
}

/// The counts fit in bytes, available does not exceed the total, and the
/// used amount can be turned into a percentage.
pub open spec fn disk_fits(blocks: nat, available: nat, block_size: nat) -> bool {
    &&& blocks * block_size <= u64::MAX
    &&& available * block_size <= u64::MAX
    &&& blocks * block_size > 0 ==> available <= blocks && (((blocks * block_size - available * block_size) as nat) / 1024) * 100 <= u64::MAX
}

/// The disk row from `statvfs` counts.
pub fn disk_usage(blocks: u64, available: u64, block_size: u64) -> (r: Option<String>)
    requires
        disk_fits(blocks as nat, available as nat, block_size as nat),
    ensures
        match disk_text(blocks as nat, available as nat, block_size as nat) {
            Some(v) => r matches Some(x) && x@ == v,
            None => r is None,
        },
{
    let total = blocks * block_size;
    let free = available * block_size;
    if total == 0 {
        return None;
    }
    assert(free <= total) by (nonlinear_arith)
        requires
            available <= blocks,
            total == blocks * block_size,
            free == available * block_size,
    ;
    Some(format_usage((total - free) / 1024, total / 1024))
}

// ---------------------------------------------------------------------------
// Packages, desktop, OS, host
// ---------------------------------------------------------------------------

/// The packages row: pacman's count of package directories when there are
/// any, else the `Package: ` stanzas of dpkg's status file.
pub open spec fn packages_line(pacman: Option<nat>, dpkg_status: Option<Seq<char>>) -> Option<Seq<char>> {
    if pacman matches Some(n) && n > 0 {
        Some(dec(pacman.unwrap()) + " (pacman)"@)
    } else {
        match dpkg_status {
            Some(t) => {
                let n = count_prefixed(lines(t), "Package: "@);
                if n > 0 {
                    Some(dec(n) + " (dpkg)"@)
                } else {
                    None
                }
            },
            None => None,
        }
    }
}

/// The packages row from pacman's directory count and dpkg's status file.
pub fn packages(pacman: Option<usize>, dpkg_status: Option<&str>) -> (r: Option<String>)
    ensures
        match packages_line(match pacman {
            Some(n) => Some(n as nat),
            None => None,
        }, opt_view(dpkg_status)) {
            Some(v) => r matches Some(x) && x@ == v,
            None => r is None,
        },
{
    if let Some(n) = pacman {
        if n > 0 {
            let mut out = String::new();
            push_dec(&mut out, n as u64);
            push_str(&mut out, " (pacman)");
            return Some(out);
        }
    }
    if let Some(status) = dpkg_status {
        let n = count_lines_with(status, "Package: ");
        if n > 0 {
            let mut out = String::new();
            push_dec(&mut out, n as u64);
            push_str(&mut out, " (dpkg)");
            return Some(out);
        }
    }
    None
}

/// The window manager row. Compositor-specific markers win over the generic
/// variables, which sessions often leave unset or stale; the desktop name
/// drops any `prefix:`, and the session type is appended when known.
pub open spec fn wm_line(
    hyprland: bool,
    sway: bool,
    current: Option<Seq<char>>,
    session_desktop: Option<Seq<char>>,
    desktop_session: Option<Seq<char>>,
    session_type: Option<Seq<char>>,
) -> Option<Seq<char>> {
    if hyprland {
        Some("Hyprland"@)
    } else if sway {
        Some("sway"@)
    } else {
        let name = match present(current) {
            Some(n) => Some(n),
            None => match present(session_desktop) {
                Some(n) => Some(n),
                None => present(desktop_session),
            },
        };
        match name {
            Some(n) => {
                let suffix = if session_type == Some("wayland"@) {
                    " (Wayland)"@
                } else if session_type == Some("x11"@) {
                    " (X11)"@
                } else {
                    seq![]
                };
                Some(after_last(n, ':') + suffix)
            },
            None => None,
        }
    }
}

/// The window manager row from the session's environment: whether the
/// Hyprland and sway markers are set, then `XDG_CURRENT_DESKTOP`,
/// `XDG_SESSION_DESKTOP`, `DESKTOP_SESSION` and `XDG_SESSION_TYPE`.
pub fn wm(
    hyprland: bool,
    sway: bool,
    current: Option<&str>,
    session_desktop: Option<&str>,
    desktop_session: Option<&str>,
    session_type: Option<&str>,
) -> (r: Option<String>)
    ensures
        match wm_line(hyprland, sway, opt_view(current), opt_view(session_desktop), opt_view(desktop_session), opt_view(session_type)) {
            Some(v) => r matches Some(x) && x@ == v,
            None => r is None,
        },
{
    if hyprland {
        return Some("Hyprland".to_owned());
    }
    if sway {
        return Some("sway".to_owned());
    }
    let name = match current {
        Some(n) if !n.is_empty() => n,
        _ => match session_desktop {
            Some(n) if !n.is_empty() => n,
            _ => match desktop_session {
                Some(n) if !n.is_empty() => n,
                _ => return None,
            },
        },
    };
    // Colon-separated, may carry a prefix: "wlroots:Hyprland".
    let mut out = basename_after(name, ':');
    let kind = match session_type {
        Some(t) => chars_of(t),
        None => Vec::new(),
    };
    if session_type.is_some() && is_lit(kind.as_slice(), "wayland") {
        push_str(&mut out, " (Wayland)");
    } else if session_type.is_some() && is_lit(kind.as_slice(), "x11") {
        push_str(&mut out, " (X11)");
    } else {
        assert(out@ + seq![] =~= out@);
    }
    Some(out)
}

/// What follows the last `c` in `s`.
fn basename_after(s: &str, c: char) -> (r: String)
    ensures
        r@ == after_last(s@, c),
{
    let v = chars_of(s);
    let i = after_last_index(v.as_slice(), c);
    let len = v.len();
    let t = slice_of(v.as_slice(), i, len);
    assert(t@ =~= v@.skip(i as int));
    string_of(t.as_slice())
}

/// The OS row: os-release's pretty name, else its name, then the
/// architecture when known.
pub open spec fn os_line(release: Seq<char>, arch: Option<Seq<char>>) -> Option<Seq<char>> {
    let pretty = match os_release_value(release, "PRETTY_NAME"@) {
        Some(p) => Some(p),
        None => os_release_value(release, "NAME"@),
    };
    match pretty {
        Some(p) => match present(arch) {
            Some(a) => Some(p + seq![' '] + a),
            None => Some(p),
        },
        None => None,
    }
}

/// The OS row from the text of `/etc/os-release` and the architecture.
pub fn os(release: &str, arch: Option<&str>) -> (r: Option<String>)
    ensures
        match os_line(release@, opt_view(arch)) {
            Some(v) => r matches Some(x) && x@ == v,
            None => r is None,
        },
{
    let pretty = match os_release_field(release, "PRETTY_NAME") {
        Some(p) => p,
        None => match os_release_field(release, "NAME") {
            Some(p) => p,
            None => return None,
        },
    };
    match arch {
        Some(a) if !a.is_empty() => {
            let mut out = pretty;
            out.push(' ');
            push_str(&mut out, a);
            Some(out)
        },
        _ => Some(pretty),
    }
}

/// The host row: the product name, with the product version when that is
/// meaningful (laptops put the useful string there; desktops leave filler),
/// and nothing when the result is itself a placeholder.
pub open spec fn host_line(name: Option<Seq<char>>, version: Option<Seq<char>>) -> Option<Seq<char>> {
    match name {
        Some(n) => {
            let full = match version {
                Some(v) => if v.len() > 0 && !is_placeholder(v) {
                    n + seq![' '] + v
                } else {
                    n
                },
                None => n,
            };
            if full.len() > 0 && !is_placeholder(full) {
                Some(full)
            } else {
                None
            }
        },
        None => None,
    }
}

/// The host row from the DMI product name and version, each as read and
/// trimmed.
pub fn host(name: Option<&str>, version: Option<&str>) -> (r: Option<String>)
    ensures
        match host_line(opt_view(name), opt_view(version)) {
            Some(v) => r matches Some(x) && x@ == v,
            None => r is None,
        },
{
    let name = match name {
        Some(n) => n,
        None => return None,
    };
    let mut full = name.to_owned();
    if let Some(v) = version {
        if is_meaningful(v) {
            full.push(' ');
            push_str(&mut full, v);
            assert(full@ =~= name@ + seq![' '] + v@);
        }
    }
    if is_meaningful(full.as_str()) {
        Some(full)
    } else {
        None
    }
}

/// Whether `pat` occurs in `s` at `i`.
pub open spec fn occurs_at(s: Seq<char>, pat: Seq<char>, i: int) -> bool {
    0 <= i && i + pat.len() <= s.len() && s.subrange(i, i + pat.len()) == pat
}

/// Index of the first occurrence of `pat` in `s` at or after `from`, or -1.
pub open spec fn find_from(s: Seq<char>, pat: Seq<char>, from: int) -> int
    decreases s.len() + 1 - from,
{
    if from < 0 || from + pat.len() > s.len() {
        -1
    } else if occurs_at(s, pat, from) {
        from
    } else {
        find_from(s, pat, from + 1)
    }
}

/// Index of the first occurrence of `pat` in `s`, or -1.
pub open spec fn find_sub(s: Seq<char>, pat: Seq<char>) -> int {
    find_from(s, pat, 0)
}

proof fn lemma_find_from(s: Seq<char>, pat: Seq<char>, from: int)
    requires
        0 <= from,
    ensures
        find_from(s, pat, from) == -1 || (from <= find_from(s, pat, from) && occurs_at(s, pat, find_from(s, pat, from))),
    decreases s.len() + 1 - from,
{
    if from + pat.len() <= s.len() && !occurs_at(s, pat, from) {
        lemma_find_from(s, pat, from + 1);
    }
}

/// First occurrence of `pat` in `s`.
fn find_substring(s: &[char], pat: &[char]) -> (r: Option<usize>)
    ensures
        match r {
            Some(i) => i as int == find_sub(s@, pat@),
            None => find_sub(s@, pat@) == -1,
        },
{
    if pat.len() > s.len() {
        return None;
    }
    if pat.len() == 0 {
        assert(s@.subrange(0, 0) =~= pat@);
        assert(occurs_at(s@, pat@, 0));
        return Some(0);
    }
    let mut i: usize = 0;
    while pat.len() <= s.len() - i
        invariant
            0 < pat@.len() <= s@.len(),
            i <= s@.len(),
            find_from(s@, pat@, i as int) == find_sub(s@, pat@),
        decreases s@.len() - i,
    {
        let piece = slice_of(s, i, i + pat.len());
        if same_chars(piece.as_slice(), pat) {
            assert(occurs_at(s@, pat@, i as int));
            return Some(i);
        }
        assert(!occurs_at(s@, pat@, i as int));
        i = i + 1;
    }
    assert(find_from(s@, pat@, i as int) == -1);
    None
}

/// What [`plist_value`] gives: the `<string>` following `<key>key</key>`,
/// trimmed, unless empty.
pub open spec fn plist_text(plist: Seq<char>, key: Seq<char>) -> Option<Seq<char>> {
    let tag = "<key>"@ + key + "</key>"@;
    let p = find_sub(plist, tag);
    if p < 0 {
        None
    } else {
        let rest = plist.skip(p + tag.len());
        let s0 = find_sub(rest, "<string>"@);
        let e = find_sub(rest, "</string>"@);
        if s0 < 0 || e < 0 {
            None
        } else {
            let v = trim(rest.subrange(s0 + 8, e));
            if v.len() == 0 {
                None
            } else {
                Some(v)
            }
        }
    }
}

/// The value after `key` starts no later than its closing tag.
pub open spec fn plist_fits(plist: Seq<char>, key: Seq<char>) -> bool {
    let tag = "<key>"@ + key + "</key>"@;
    let p = find_sub(plist, tag);
    p >= 0 ==> {
        let rest = plist.skip(p + tag.len());
        let s0 = find_sub(rest, "<string>"@);
        let e = find_sub(rest, "</string>"@);
        s0 >= 0 && e >= 0 ==> s0 + 8 <= e
    }
}

/// The `<string>` following `<key>{key}</key>` in a plist.
pub fn plist_value(plist: &str, key: &str) -> (r: Option<String>)
    requires
        plist_fits(plist@, key@),
    ensures
        match plist_text(plist@, key@) {
            Some(v) => r matches Some(x) && x@ == v,
            None => r is None,
        },
{
    let mut tag = "<key>".to_owned();
    push_str(&mut tag, key);
    push_str(&mut tag, "</key>");
    let chars = chars_of(plist);
    let tag_chars = chars_of(tag.as_str());
    let p = match find_substring(chars.as_slice(), tag_chars.as_slice()) {
        Some(p) => p,
        None => return None,
    };
    proof {
        lemma_find_from(chars@, tag_chars@, 0);
        reveal_strlit("<key>");
        reveal_strlit("</key>");
    }
    assert(tag@ == "<key>"@ + key@ + "</key>"@);
    let len = chars.len();
    let rest = slice_of(chars.as_slice(), p + tag_chars.len(), len);
    assert(rest@ =~= plist@.skip(p + tag@.len()));
    let open_tag = chars_of("<string>");
    let close_tag = chars_of("</string>");
    proof {
        reveal_strlit("<string>");
    }
    let s0 = match find_substring(rest.as_slice(), open_tag.as_slice()) {
        Some(s0) => s0,
        None => return None,
    };
    proof {
        lemma_find_from(rest@, open_tag@, 0);
    }
    let e = match find_substring(rest.as_slice(), close_tag.as_slice()) {
        Some(e) => e,
        None => return None,
    };
    proof {
        lemma_find_from(rest@, close_tag@, 0);
    }
    let v = slice_of(rest.as_slice(), s0 + 8, e);
    let t = trimmed(v.as_slice());
    if t.len() == 0 {
        None
    } else {
        Some(string_of(t.as_slice()))
    }
}

/// The macOS OS row from `SystemVersion.plist`: product name (`macOS` when
/// absent) and version, then the architecture when known.
pub open spec fn macos_line(plist: Seq<char>, arch: Option<Seq<char>>) -> Option<Seq<char>> {
    let name = match plist_text(plist, "ProductName"@) {
        Some(n) => n,
        None => "macOS"@,
    };
    match plist_text(plist, "ProductVersion"@) {
        Some(v) => match present(arch) {
            Some(a) => Some(name + seq![' '] + v + seq![' '] + a),
            None => Some(name + seq![' '] + v),
        },
        None => None,
    }
}

/// The macOS OS row from the text of `SystemVersion.plist`.
pub fn macos_os(plist: &str, arch: Option<&str>) -> (r: Option<String>)
    requires
        plist_fits(plist@, "ProductName"@),
        plist_fits(plist@, "ProductVersion"@),
    ensures
        match macos_line(plist@, opt_view(arch)) {
            Some(v) => r matches Some(x) && x@ == v,
            None => r is None,
        },
{
    let name = match plist_value(plist, "ProductName") {
        Some(n) => n,
        None => "macOS".to_owned(),
    };
    let version = match plist_value(plist, "ProductVersion") {
        Some(v) => v,
        None => return None,
    };
    let mut out = name;
    out.push(' ');
    push_str(&mut out, version.as_str());
    match arch {
        Some(a) if !a.is_empty() => {
            out.push(' ');
            push_str(&mut out, a);
        },
        _ => {},
    }
    Some(out)
}

/// A host name without its domain: Bonjour appends `.local`, and the short
/// name is what a prompt shows.
pub open spec fn short_host(name: Seq<char>) -> Seq<char> {
    let i = first_at(name, '.');
    if i < 0 {
        name
    } else {
        name.take(i)
    }
}

/// The host name up to its first dot.
pub fn short_hostname(name: &str) -> (r: String)
    ensures
        r@ == short_host(name@),
{
    let chars = chars_of(name);
    proof {
        lemma_first_at(name@, '.');
    }
    match find_char(chars.as_slice(), '.') {
        Some(i) => {
            let head = slice_of(chars.as_slice(), 0, i);
            assert(head@ =~= name@.take(i as int));
            string_of(head.as_slice())
        },
        None => name.to_owned(),
    }
}

/// The Homebrew packages row: the kegs of the first cellar that has any.
pub open spec fn brew_line(counts: Seq<usize>) -> Option<Seq<char>>
    decreases counts.len(),
{
    if counts.len() == 0 {
        None
    } else if counts[0] > 0 {
        Some(dec(counts[0] as nat) + " (brew)"@)
    } else {
        brew_line(counts.drop_first())
    }
}

/// The packages row from the keg counts of the cellars that could be read,
/// in the order they are looked at.
pub fn brew_packages(counts: &[usize]) -> (r: Option<String>)
    ensures
        match brew_line(counts@) {
            Some(v) => r matches Some(x) && x@ == v,
            None => r is None,
        },
{
    let mut i: usize = 0;
    assert(counts@.skip(0) =~= counts@);
    while i < counts.len()
        invariant
            i <= counts@.len(),
            brew_line(counts@) == brew_line(counts@.skip(i as int)),
        decreases counts@.len() - i,
    {
        assert(counts@.skip(i as int).drop_first() =~= counts@.skip(i + 1));
        if counts[i] > 0 {
            let mut out = String::new();
            push_dec(&mut out, counts[i] as u64);
            push_str(&mut out, " (brew)");
            proof {
                reveal_strlit(" (brew)");
            }
            return Some(out);
        }
        i = i + 1;
    }
    None
}

/// Memory in use from Mach's page counts: app, wired and compressed pages,
/// which is what Activity Monitor calls used; free and reclaimable cache are
/// left out, as on Linux. No row when the byte count overflows.
pub open spec fn vm_memory_text(total: nat, page: nat, active: nat, wire: nat, compressed: nat) -> Option<Seq<char>> {
    let used = (active + wire + compressed) * page;
    if used > u64::MAX {
        None
    } else {
        Some(usage_text(used / 1024, total / 1024))
    }
}

/// The used amount can be turned into a percentage.
pub open spec fn vm_memory_fits(page: nat, active: nat, wire: nat, compressed: nat) -> bool {
    let used = (active + wire + compressed) * page;
    used <= u64::MAX ==> (used / 1024) * 100 <= u64::MAX
}

/// The memory row from the total in bytes, the page size and the active,
/// wired and compressed page counts.
pub fn vm_memory(total: u64, page: u64, active: u32, wire: u32, compressed: u32) -> (r: Option<String>)
    requires
        vm_memory_fits(page as nat, active as nat, wire as nat, compressed as nat),
    ensures
        match vm_memory_text(total as nat, page as nat, active as nat, wire as nat, compressed as nat) {
            Some(v) => r matches Some(x) && x@ == v,
            None => r is None,
        },
{
    let pages = active as u64 + wire as u64 + compressed as u64;
    match pages.checked_mul(page) {
        Some(used) => Some(format_usage(used / 1024, total / 1024)),
        None => None,
    }
}

// ---------------------------------------------------------------------------
// Rows
// ---------------------------------------------------------------------------

/// What this machine answered for each module, `None` where it could not.
pub struct Readings {
    pub os: Option<String>,
    pub host: Option<String>,
    pub kernel: Option<String>,
    pub uptime: Option<String>,
    pub packages: Option<String>,
    pub shell: Option<String>,
    pub wm: Option<String>,
    pub terminal: Option<String>,
    pub cpu: Option<String>,
    pub memory: Option<String>,
    pub swap: Option<String>,
    pub disk: Option<String>,
}

/// The label a module's row carries; the swatches have none.
pub open spec fn module_label(m: Module) -> Seq<char> {
    match m {
        Module::Os => "OS"@,
        Module::Host => "Host"@,
        Module::Kernel => "Kernel"@,
        Module::Uptime => "Uptime"@,
        Module::Packages => "Packages"@,
        Module::Shell => "Shell"@,
        Module::Wm => "WM"@,
        Module::Terminal => "Terminal"@,
        Module::Cpu => "CPU"@,
        Module::Memory => "Memory"@,
        Module::Swap => "Swap"@,
        Module::Disk => "Disk"@,
        Module::Colors => seq![],
    }
}

/// The view of an optional string.
pub open spec fn opt_string(v: Option<String>) -> Option<Seq<char>> {
    match v {
        Some(s) => Some(s@),
        None => None,
    }
}

/// What a module's row shows, if this machine could answer it. The swatches
/// always can.
pub open spec fn module_value(r: Readings, m: Module) -> Option<Seq<char>> {
    match m {
        Module::Os => opt_string(r.os),
        Module::Host => opt_string(r.host),
        Module::Kernel => opt_string(r.kernel),
        Module::Uptime => opt_string(r.uptime),
        Module::Packages => opt_string(r.packages),
        Module::Shell => opt_string(r.shell),
        Module::Wm => opt_string(r.wm),
        Module::Terminal => opt_string(r.terminal),
        Module::Cpu => opt_string(r.cpu),
        Module::Memory => opt_string(r.memory),
        Module::Swap => opt_string(r.swap),
        Module::Disk => opt_string(r.disk),
        Module::Colors => Some(swatch_text(8) + crate::color::reset_seq()),
    }
}

/// Label and value of each requested module that could be answered, in the
/// requested order.
pub open spec fn collected(modules: Seq<Module>, r: Readings) -> Seq<(Seq<char>, Seq<char>)>
    decreases modules.len(),
{
    if modules.len() == 0 {
        seq![]
    } else {
        let rest = collected(modules.drop_last(), r);
        match module_value(r, modules.last()) {
            Some(v) => rest.push((module_label(modules.last()), v)),
            None => rest,
        }
    }
}

/// The rows collected stand for the requested modules, in order: row `k`
/// is module `idx[k]`'s label and reading, with `idx` increasing, so there
/// are never more rows than modules. A module is left out exactly when this
/// machine could not answer it, which the swatches always can.
pub proof fn lemma_collected_rows(modules: Seq<Module>, r: Readings) -> (idx: Seq<int>)
    ensures
        idx.len() == collected(modules, r).len(),
        collected(modules, r).len() <= modules.len(),
        forall|k: int| 0 <= k < idx.len() ==> {
            &&& 0 <= #[trigger] idx[k] < modules.len()
            &&& module_value(r, modules[idx[k]]) is Some
            &&& collected(modules, r)[k] == (module_label(modules[idx[k]]), module_value(r, modules[idx[k]])->0)
        },
        forall|k: int, l: int| 0 <= k < l < idx.len() ==> #[trigger] idx[k] < #[trigger] idx[l],
        forall|j: int| 0 <= j < modules.len() && module_value(r, #[trigger] modules[j]) is Some ==> exists|k: int| 0 <= k < idx.len() && idx[k] == j,
        forall|j: int| 0 <= j < modules.len() && #[trigger] modules[j] == Module::Colors ==> exists|k: int| 0 <= k < idx.len() && idx[k] == j,
    decreases modules.len(),
{
    if modules.len() == 0 {
        Seq::empty()
    } else {
        let init = modules.drop_last();
        let sub = lemma_collected_rows(init, r);
        let n = modules.len() - 1;
        assert forall|k: int| 0 <= k < sub.len() implies modules[sub[k]] == init[sub[k]] by {}
        let idx = match module_value(r, modules.last()) {
            Some(v) => sub.push(n),
            None => sub,
        };
        assert forall|k: int| 0 <= k < idx.len() implies {
            &&& 0 <= #[trigger] idx[k] < modules.len()
            &&& module_value(r, modules[idx[k]]) is Some
            &&& collected(modules, r)[k] == (module_label(modules[idx[k]]), module_value(r, modules[idx[k]])->0)
        } by {
            if k < sub.len() {
                assert(idx[k] == sub[k]);
            }
        }
        assert forall|j: int| 0 <= j < modules.len() && module_value(r, #[trigger] modules[j]) is Some implies exists|k: int| 0 <= k < idx.len() && idx[k] == j by {
            if j < n {
                assert(init[j] == modules[j]);
                let k = choose|k: int| 0 <= k < sub.len() && sub[k] == j;
                assert(idx[k] == j);
            } else {
                assert(idx[idx.len() - 1] == j);
            }
        }
        assert forall|j: int| 0 <= j < modules.len() && #[trigger] modules[j] == Module::Colors implies exists|k: int| 0 <= k < idx.len() && idx[k] == j by {
            assert(module_value(r, modules[j]) is Some);
            assert(module_value(r, modules[j]) is Some ==> exists|k: int| 0 <= k < idx.len() && idx[k] == j);
        }
        idx
    }
}

fn copy_of(v: &Option<String>) -> (r: Option<String>)
    ensures
        opt_string(r) == opt_string(*v),
{
    match v {
        Some(s) => Some(s.clone()),
        None => None,
    }
}

/// The label and reading for one module.
fn module_row(m: Module, r: &Readings) -> (row: (&'static str, Option<String>))
    ensures
        row.0@ == module_label(m),
        opt_string(row.1) == module_value(*r, m),
{
    proof {
        reveal_strlit("OS");
        reveal_strlit("Host");
        reveal_strlit("Kernel");
        reveal_strlit("Uptime");
        reveal_strlit("Packages");
        reveal_strlit("Shell");
        reveal_strlit("WM");
        reveal_strlit("Terminal");
        reveal_strlit("CPU");
        reveal_strlit("Memory");
        reveal_strlit("Swap");
        reveal_strlit("Disk");
        reveal_strlit("");
    }
    match m {
        Module::Os => ("OS", copy_of(&r.os)),
        Module::Host => ("Host", copy_of(&r.host)),
        Module::Kernel => ("Kernel", copy_of(&r.kernel)),
        Module::Uptime => ("Uptime", copy_of(&r.uptime)),
        Module::Packages => ("Packages", copy_of(&r.packages)),
        Module::Shell => ("Shell", copy_of(&r.shell)),
        Module::Wm => ("WM", copy_of(&r.wm)),
        Module::Terminal => ("Terminal", copy_of(&r.terminal)),
        Module::Cpu => ("CPU", copy_of(&r.cpu)),
        Module::Memory => ("Memory", copy_of(&r.memory)),
        Module::Swap => ("Swap", copy_of(&r.swap)),
        Module::Disk => ("Disk", copy_of(&r.disk)),
        Module::Colors => {
            let s = "";
            assert(s@ =~= seq![]);
            (s, Some(swatches()))
        },
    }
}

/// Collect the requested modules, skipping any this machine cannot answer
/// rather than printing "Unknown".
pub fn collect(modules: &[Module], readings: &Readings) -> (items: Vec<Item>)
    ensures
        items@.len() == collected(modules@, *readings).len(),
        forall|k: int| 0 <= k < items@.len() ==> (#[trigger] items@[k]).label@ == collected(modules@, *readings)[k].0
            && items@[k].value@ == collected(modules@, *readings)[k].1,
{
    let mut items: Vec<Item> = Vec::new();
    let mut i: usize = 0;
    while i < modules.len()
        invariant
            i <= modules@.len(),
            items@.len() == collected(modules@.take(i as int), *readings).len(),
            forall|k: int| 0 <= k < items@.len() ==> (#[trigger] items@[k]).label@ == collected(modules@.take(i as int), *readings)[k].0
                && items@[k].value@ == collected(modules@.take(i as int), *readings)[k].1,
        decreases modules@.len() - i,
    {
        assert(modules@.take(i + 1).drop_last() =~= modules@.take(i as int));
        assert(modules@.take(i + 1).last() == modules@[i as int]);
        let (label, value) = module_row(modules[i], readings);
        if let Some(value) = value {
            items.push(Item { label, value });
        }
        i = i + 1;
    }
    assert(modules@.take(modules@.len() as int) =~= modules@);
    items
}

} // verus!
