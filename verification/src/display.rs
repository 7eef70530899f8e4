//! Text layout of the command-line interface: visible text of colored
//! strings, relative times and clocks, health bars, word wrapping, tables
//! and boxes. The colors themselves are applied at the terminal's edge.

use vstd::prelude::*;
use vstd::string::*;
use crate::text::{chars_of, push_char, push_decimal, decimal, str_eq, split_words, string_of, words, texts};
use colored::Colorize;

verus! {

// ── Visible text ─────────────────────────────────────────────────────────────

/// The visible characters of `s` read from a state inside (`in_esc`) or
/// outside an escape sequence: an escape character opens a sequence, and a
/// sequence ends at its first `m`.
pub open spec fn visible_from(s: Seq<char>, in_esc: bool) -> Seq<char>
    decreases s.len(),
{
    if s.len() == 0 {
        Seq::empty()
    } else if s[0] == '\x1b' {
        visible_from(s.drop_first(), true)
    } else if in_esc {
        visible_from(s.drop_first(), s[0] != 'm')
    } else {
        seq![s[0]] + visible_from(s.drop_first(), false)
    }
}

/// The characters of `s` a terminal shows: `s` without its ANSI escape
/// sequences.
pub open spec fn visible(s: Seq<char>) -> Seq<char> {
    visible_from(s, false)
}

/// `s` without its ANSI escape sequences.
pub fn strip_ansi(s: &str) -> (r: String)
    ensures
        r@ == visible(s@),
{
    let cs = chars_of(s);
    let mut out = String::new();
    let mut in_esc = false;
    let mut i: usize = 0;
    proof {
        assert(cs@.skip(0) =~= cs@);
        assert(out@ + visible(s@) =~= visible(s@));
    }
    while i < cs.len()
        invariant
            cs@ == s@,
            i <= cs.len(),
            out@ + visible_from(cs@.skip(i as int), in_esc) == visible(s@),
        decreases cs.len() - i,
    {
        let c = cs[i];
        proof {
            assert(cs@.skip(i as int).drop_first() =~= cs@.skip(i + 1));
            assert(cs@.skip(i as int)[0] == c);
        }
        if c == '\x1b' {
            in_esc = true;
        } else if in_esc {
            if c == 'm' {
                in_esc = false;
            }
        } else {
            let ghost o = out@;
            push_char(&mut out, c);
            proof {
                assert(o + visible_from(cs@.skip(i as int), false)
                    =~= out@ + visible_from(cs@.skip(i + 1), false));
            }
        }
        i += 1;
    }
    proof {
        assert(cs@.skip(cs.len() as int) =~= Seq::<char>::empty());
        assert(out@ + Seq::<char>::empty() =~= out@);
    }
    out
}

/// The number of characters of `s` a terminal shows.
pub fn strip_ansi_len(s: &str) -> (n: usize)
    ensures
        n == visible(s@).len(),
{
    let v = strip_ansi(s);
    v.unicode_len()
}

// ── Times ────────────────────────────────────────────────────────────────────

/// `n` in decimal with at least two digits.
pub open spec fn two_digits(n: nat) -> Seq<char> {
    if n < 10 { seq!['0'] + decimal(n) } else { decimal(n) }
}

fn push_two_digits(s: &mut String, n: u64)
    ensures
        final(s)@ == old(s)@ + two_digits(n as nat),
{
    if n < 10 {
        push_char(s, '0');
    }
    push_decimal(s, n);
    proof {
        if n < 10 {
            assert(final(s)@ =~= old(s)@ + two_digits(n as nat));
        }
    }
}

/// A relative time until `ts` seen at `now`, in seconds, minutes and seconds,
/// or hours and minutes.
pub open spec fn next_text(ts: u64, now: u64) -> Seq<char> {
    if ts <= now {
        "overdue"@
    } else {
        let d = (ts - now) as nat;
        if d < 60 {
            "in "@ + decimal(d) + "s"@
        } else if d < 3600 {
            "in "@ + decimal(d / 60) + "m "@ + decimal(d % 60) + "s"@
        } else {
            "in "@ + decimal(d / 3600) + "h "@ + decimal((d % 3600) / 60) + "m"@
        }
    }
}

/// When a scheduled job fires next, as seen at `now`.
pub fn format_next(ts: u64, now: u64) -> (r: String)
    ensures
        r@ == next_text(ts, now),
{
    if ts <= now {
        return String::from_str("overdue");
    }
    let d = ts - now;
    let mut r = String::from_str("in ");
    if d < 60 {
        push_decimal(&mut r, d);
        r.append("s");
    } else if d < 3600 {
        push_decimal(&mut r, d / 60);
        r.append("m ");
        push_decimal(&mut r, d % 60);
        r.append("s");
    } else {
        push_decimal(&mut r, d / 3600);
        r.append("h ");
        push_decimal(&mut r, (d % 3600) / 60);
        r.append("m");
    }
    r
}

/// A relative time until `ts` seen at `now`, in one unit.
pub open spec fn next_compact_text(ts: u64, now: u64) -> Seq<char> {
    if ts <= now {
        "overdue"@
    } else {
        let d = (ts - now) as nat;
        if d < 60 {
            "in "@ + decimal(d) + "s"@
        } else if d < 3600 {
            "in "@ + decimal(d / 60) + "m"@
        } else {
            "in "@ + decimal(d / 3600) + "h"@
        }
    }
}

/// When a scheduled job fires next, in the dashboard's short form.
pub fn format_next_compact(ts: u64, now: u64) -> (r: String)
    ensures
        r@ == next_compact_text(ts, now),
{
    if ts <= now {
        return String::from_str("overdue");
    }
    let d = ts - now;
    let mut r = String::from_str("in ");
    if d < 60 {
        push_decimal(&mut r, d);
        r.append("s");
    } else if d < 3600 {
        push_decimal(&mut r, d / 60);
        r.append("m");
    } else {
        push_decimal(&mut r, d / 3600);
        r.append("h");
    }
    r
}

/// The time of day of the Unix time `secs`, as `HH:MM:SS UTC`.
pub open spec fn clock_of(secs: u64) -> Seq<char> {
    two_digits(((secs % 86400) / 3600) as nat) + ":"@ + two_digits(((secs % 3600) / 60) as nat) + ":"@
        + two_digits((secs % 60) as nat) + " UTC"@
}

pub fn clock_text(secs: u64) -> (r: String)
    ensures
        r@ == clock_of(secs),
{
    let mut r = String::new();
    push_two_digits(&mut r, (secs % 86400) / 3600);
    r.append(":");
    push_two_digits(&mut r, (secs % 3600) / 60);
    r.append(":");
    push_two_digits(&mut r, secs % 60);
    r.append(" UTC");
    proof {
        assert(r@ =~= clock_of(secs));
    }
    r
}

// ── Word wrapping ────────────────────────────────────────────────────────────

/// The length of `s` in bytes, as UTF-8.
pub open spec fn blen(s: Seq<char>) -> int {
    vstd::utf8::encode_utf8(s).len() as int
}

/// The finished lines and the current line after wrapping the words `ws`
/// at `width` bytes: a word that would make the current line longer than
/// `width - 1` bytes starts a new line, and the current line, even empty,
/// is finished.
pub open spec fn wrap_state(ws: Seq<Seq<char>>, width: int) -> (Seq<Seq<char>>, Seq<char>)
    decreases ws.len(),
{
    if ws.len() == 0 {
        (Seq::empty(), Seq::empty())
    } else {
        let st = wrap_state(ws.drop_last(), width);
        let w = ws.last();
        if blen(st.1) + blen(w) + 1 > width {
            (st.0.push(st.1), w)
        } else {
            (st.0, if st.1.len() == 0 { w } else { st.1 + seq![' '] + w })
        }
    }
}

/// The lines of `text` wrapped at `width` bytes.
pub open spec fn wrapped(text: Seq<char>, width: int) -> Seq<Seq<char>> {
    let st = wrap_state(words(text), width);
    if st.1.len() > 0 { st.0.push(st.1) } else { st.0 }
}

/// Wraps the words of `text` into lines of at most `width - 1` bytes (a
/// longer word stands on a line of its own).
pub fn textwrap(text: &str, width: usize) -> (lines: Vec<String>)
    ensures
        texts(lines@) == wrapped(text@, width as int),
{
    let cs = chars_of(text);
    let ws = split_words(&cs);
    let ghost wv = ws@.map_values(|w: Vec<char>| w@);
    let mut lines: Vec<String> = Vec::new();
    let mut cur = String::new();
    let mut i: usize = 0;
    proof {
        assert(wv.take(0) =~= Seq::<Seq<char>>::empty());
        assert(texts(lines@) =~= Seq::<Seq<char>>::empty());
    }
    while i < ws.len()
        invariant
            cs@ == text@,
            wv == ws@.map_values(|w: Vec<char>| w@),
            wv == words(text@),
            i <= ws.len(),
            texts(lines@) == wrap_state(wv.take(i as int), width as int).0,
            cur@ == wrap_state(wv.take(i as int), width as int).1,
        decreases ws.len() - i,
    {
        let ghost st = wrap_state(wv.take(i as int), width as int);
        proof {
            assert(wv.take(i + 1).drop_last() =~= wv.take(i as int));
            assert(wv.take(i + 1).last() == ws@[i as int]@);
        }
        let w = string_of(&ws[i]);
        let cl = cur.as_str().as_bytes().len();
        let wl = w.as_str().as_bytes().len();
        proof {
            assert(w@ == wv[i as int]);
            assert(cl == blen(st.1));
            assert(wl == blen(w@));
        }
        if cl >= width || wl >= width - cl {
            let ghost lv = lines@;
            lines.push(cur);
            cur = w;
            proof {
                assert(texts(lines@) =~= texts(lv).push(st.1));
            }
        } else {
            let ghost c0 = cur@;
            if cur.unicode_len() > 0 {
                push_char(&mut cur, ' ');
            }
            cur.append(w.as_str());
            proof {
                if c0.len() == 0 {
                    assert(cur@ =~= w@);
                } else {
                    assert(cur@ =~= c0 + seq![' '] + w@);
                }
            }
        }
        i += 1;
    }
    proof {
        assert(wv.take(ws.len() as int) =~= wv);
    }
    if cur.unicode_len() > 0 {
        let ghost lv = lines@;
        lines.push(cur);
        proof {
            assert(texts(lines@) =~= texts(lv).push(cur@));
        }
    }
    lines
}

// ── Colors ───────────────────────────────────────────────────────────────────

/// The state, inside an escape sequence or not, after reading `s` from the
/// state `in_esc`.
pub open spec fn esc_state(s: Seq<char>, in_esc: bool) -> bool
    decreases s.len(),
{
    if s.len() == 0 {
        in_esc
    } else if s[0] == '\x1b' {
        esc_state(s.drop_first(), true)
    } else if in_esc {
        esc_state(s.drop_first(), s[0] != 'm')
    } else {
        esc_state(s.drop_first(), false)
    }
}

/// `r` shows `s` on a terminal and closes every escape sequence it opens.
pub open spec fn shows(r: Seq<char>, s: Seq<char>) -> bool {
    visible(r) == s && !esc_state(r, false)
}

pub open spec fn no_escape(s: Seq<char>) -> bool {
    forall|i: int| 0 <= i < s.len() ==> s[i] != '\x1b'
}

proof fn lemma_visible_concat(a: Seq<char>, b: Seq<char>, e: bool)
    ensures
        visible_from(a + b, e) == visible_from(a, e) + visible_from(b, esc_state(a, e)),
        esc_state(a + b, e) == esc_state(b, esc_state(a, e)),
    decreases a.len(),
{
    if a.len() == 0 {
        assert(a + b =~= b);
    } else {
        assert((a + b).drop_first() =~= a.drop_first() + b);
        assert((a + b)[0] == a[0]);
        let e2 = if a[0] == '\x1b' { true } else if e { a[0] != 'm' } else { false };
        lemma_visible_concat(a.drop_first(), b, e2);
        if a[0] != '\x1b' && !e {
            assert(seq![a[0]] + visible_from(a.drop_first(), false) + visible_from(b, esc_state(a, e))
                =~= seq![a[0]] + (visible_from(a.drop_first(), false) + visible_from(b, esc_state(a, e))));
        }
    }
}

proof fn lemma_shows_concat(r1: Seq<char>, s1: Seq<char>, r2: Seq<char>, s2: Seq<char>)
    requires
        shows(r1, s1),
        shows(r2, s2),
    ensures
        shows(r1 + r2, s1 + s2),
{
    lemma_visible_concat(r1, r2, false);
}

/// `s` in green by `colored`. Whether escape codes are written depends on
/// the terminal settings in the environment: for a text with no escape
/// character of its own, the result is either `s` itself or the colour's
/// SGR code, `s` and the reset code, and either way it shows `s`.
#[verifier::external_body]
fn paint_green(s: &str) -> (r: String)
    ensures
        no_escape(s@) ==> shows(r@, s@) && plain_or_painted(r@, s@, Tint::Green),
{
    s.green().to_string()
}

/// `s` in yellow by `colored`; what shows is as for `paint_green`.
#[verifier::external_body]
fn paint_yellow(s: &str) -> (r: String)
    ensures
        no_escape(s@) ==> shows(r@, s@) && plain_or_painted(r@, s@, Tint::Yellow),
{
    s.yellow().to_string()
}

/// `s` in red by `colored`; what shows is as for `paint_green`.
#[verifier::external_body]
fn paint_red(s: &str) -> (r: String)
    ensures
        no_escape(s@) ==> shows(r@, s@) && plain_or_painted(r@, s@, Tint::Red),
{
    s.red().to_string()
}

/// `s` in bold red by `colored`; what shows is as for `paint_green`.
#[verifier::external_body]
fn paint_red_bold(s: &str) -> (r: String)
    ensures
        no_escape(s@) ==> shows(r@, s@) && plain_or_painted(r@, s@, Tint::RedBold),
{
    s.red().bold().to_string()
}

/// `s` dimmed by `colored`; what shows is as for `paint_green`.
#[verifier::external_body]
fn paint_dimmed(s: &str) -> (r: String)
    ensures
        no_escape(s@) ==> shows(r@, s@) && plain_or_painted(r@, s@, Tint::Dimmed),
{
    s.dimmed().to_string()
}

/// How a piece of text is colored.
pub enum Tint {
    Green,
    Yellow,
    Red,
    RedBold,
    Dimmed,
}

/// The SGR code `colored` writes before a text of the tint.
pub open spec fn sgr(t: Tint) -> Seq<char> {
    match t {
        Tint::Green => "\x1b[32m"@,
        Tint::Yellow => "\x1b[33m"@,
        Tint::Red => "\x1b[31m"@,
        Tint::RedBold => "\x1b[1;31m"@,
        Tint::Dimmed => "\x1b[2m"@,
    }
}

/// `s` wrapped in the tint's SGR code and the reset code.
pub open spec fn painted(s: Seq<char>, t: Tint) -> Seq<char> {
    sgr(t) + s + "\x1b[0m"@
}

/// `r` is `s`, plain or painted in the tint.
pub open spec fn plain_or_painted(r: Seq<char>, s: Seq<char>, t: Tint) -> bool {
    r == s || r == painted(s, t)
}

fn paint(s: &str, t: &Tint) -> (r: String)
    ensures
        no_escape(s@) ==> shows(r@, s@) && plain_or_painted(r@, s@, *t),
{
    match t {
        Tint::Green => paint_green(s),
        Tint::Yellow => paint_yellow(s),
        Tint::Red => paint_red(s),
        Tint::RedBold => paint_red_bold(s),
        Tint::Dimmed => paint_dimmed(s),
    }
}

// ── Health bars and states ───────────────────────────────────────────────────

/// `n` copies of `c`.
pub open spec fn repeat_char(c: char, n: nat) -> Seq<char> {
    Seq::new(n, |i: int| c)
}

fn push_repeat(s: &mut String, c: char, n: usize)
    ensures
        final(s)@ == old(s)@ + repeat_char(c, n as nat),
{
    let mut k: usize = 0;
    while k < n
        invariant
            k <= n,
            s@ == old(s)@ + repeat_char(c, k as nat),
        decreases n - k,
    {
        push_char(s, c);
        proof {
            assert(s@ =~= old(s)@ + repeat_char(c, (k + 1) as nat));
        }
        k += 1;
    }
}

/// The bar of a health score: a full block per ten points, up to ten, and
/// light blocks for the rest.
pub open spec fn bar_of(score: u32) -> Seq<char> {
    let filled = (score / 10) as nat;
    let empty = if filled <= 10 { (10 - filled) as nat } else { 0nat };
    repeat_char('\u{2588}', filled) + repeat_char('\u{2591}', empty)
}

/// The color of a health score: green from 80 to 100, yellow from 40 to
/// 79, red otherwise.
pub open spec fn health_tint_of(score: u32) -> Tint {
    if 80 <= score && score <= 100 { Tint::Green } else if 40 <= score && score <= 79 { Tint::Yellow } else { Tint::Red }
}

pub fn health_tint(score: u32) -> (t: Tint)
    ensures
        t == health_tint_of(score),
{
    if 80 <= score && score <= 100 { Tint::Green } else if 40 <= score && score <= 79 { Tint::Yellow } else { Tint::Red }
}

/// A health bar like `████████░░ 82`, colored by the score: the bar and the
/// number are each plain or painted in the score's tint.
pub fn health_bar(score: u32) -> (r: String)
    ensures
        visible(r@) == bar_of(score) + seq![' '] + decimal(score as nat),
        exists|a: Seq<char>, b: Seq<char>| r@ == a + b
            && #[trigger] plain_or_painted(a, bar_of(score), health_tint_of(score))
            && #[trigger] plain_or_painted(b, seq![' '] + decimal(score as nat), health_tint_of(score)),
{
    let filled = (score / 10) as usize;
    let empty = if filled <= 10 { 10 - filled } else { 0 };
    let mut bar = String::new();
    push_repeat(&mut bar, '\u{2588}', filled);
    push_repeat(&mut bar, '\u{2591}', empty);
    let mut num = String::from_str(" ");
    push_decimal(&mut num, score as u64);
    proof {
        reveal_strlit(" ");
        assert(num@ =~= seq![' '] + decimal(score as nat));
        lemma_decimal_digits(score as nat);
        assert(no_escape(bar@));
        assert(no_escape(num@)) by {
            assert forall|i: int| 0 <= i < num@.len() implies num@[i] != '\x1b' by {
                if i > 0 {
                    assert(num@[i] == decimal(score as nat)[i - 1]);
                }
            }
        }
    }
    let t = health_tint(score);
    let a = paint(bar.as_str(), &t);
    let b = paint(num.as_str(), &t);
    let mut r = a;
    r.append(b.as_str());
    proof {
        lemma_shows_concat(a@, bar@, b@, num@);
        assert(bar@ + num@ =~= bar_of(score) + seq![' '] + decimal(score as nat));
        assert(bar@ =~= bar_of(score));
        assert(r@ == a@ + b@);
        assert(plain_or_painted(a@, bar_of(score), health_tint_of(score)));
        assert(plain_or_painted(b@, seq![' '] + decimal(score as nat), health_tint_of(score)));
    }
    r
}

/// Every character of a decimal form is a digit.
proof fn lemma_decimal_digits(n: nat)
    ensures
        forall|i: int| 0 <= i < decimal(n).len() ==> '0' <= #[trigger] decimal(n)[i] <= '9',
    decreases n,
{
    if n >= 10 {
        lemma_decimal_digits(n / 10);
        let d = decimal(n / 10);
        assert forall|i: int| 0 <= i < decimal(n).len() implies '0' <= #[trigger] decimal(n)[i] <= '9' by {
            if i < d.len() {
                assert(decimal(n)[i] == d[i]);
            }
        }
    }
}

/// The color of a state name.
pub open spec fn status_tint_of(s: Seq<char>) -> Tint {
    if s == "running"@ || s == "Healthy"@ {
        Tint::Green
    } else if s == "stopped"@ || s == "Dead"@ {
        Tint::Red
    } else if s == "Degraded"@ || s == "degraded"@ {
        Tint::Yellow
    } else if s == "Critical"@ || s == "critical"@ {
        Tint::RedBold
    } else {
        Tint::Dimmed
    }
}

pub fn status_tint(s: &str) -> (t: Tint)
    ensures
        t == status_tint_of(s@),
{
    if str_eq(s, "running") || str_eq(s, "Healthy") {
        Tint::Green
    } else if str_eq(s, "stopped") || str_eq(s, "Dead") {
        Tint::Red
    } else if str_eq(s, "Degraded") || str_eq(s, "degraded") {
        Tint::Yellow
    } else if str_eq(s, "Critical") || str_eq(s, "critical") {
        Tint::RedBold
    } else {
        Tint::Dimmed
    }
}

/// A state name colored by what it means: plain or painted in its tint.
pub fn status_str(s: &str) -> (r: String)
    ensures
        no_escape(s@) ==> visible(r@) == s@ && plain_or_painted(r@, s@, status_tint_of(s@)),
{
    let t = status_tint(s);
    paint(s, &t)
}

} // verus!
