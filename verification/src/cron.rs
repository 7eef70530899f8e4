//! Five-field cron expressions: `minute hour day-of-month month day-of-week`.
//!
//! Each field is a comma-separated list of parts; a part is `*`, `*/n`
//! (every n-th value from the field's minimum), `n-m` (inclusive range) or a
//! single number `n`. Values outside the field's range are dropped.

use vstd::prelude::*;
use crate::calendar::{unix_to_parts, ts_month, ts_dom, ts_dow, ts_hour, ts_minute, ts_in_calendar_range, civil, lemma_civil_succ, lemma_civil_bounds, lemma_days_before_year_lower};
use crate::text::{words, split_words, chars_of, copy_range, split_on, split_from, first_index, lemma_first_index};

verus! {

// ── Numbers ──────────────────────────────────────────────────────────────────

pub open spec fn is_digit(c: char) -> bool {
    '0' <= c && c <= '9'
}

pub open spec fn all_digits(s: Seq<char>) -> bool {
    forall|i: int| 0 <= i < s.len() ==> #[trigger] is_digit(s[i])
}

/// Decimal value of a string of ASCII digits.
pub open spec fn digits_value(s: Seq<char>) -> int
    decreases s.len(),
{
    if s.len() == 0 {
        0
    } else {
        digits_value(s.drop_last()) * 10 + (s.last() as int - '0' as int)
    }
}

/// The unsigned decimal syntax accepted by `str::parse::<u32>`: an optional
/// `+`, then at least one ASCII digit, with a value that fits 32 bits.
pub open spec fn parse_u32_spec(s: Seq<char>) -> Option<u32> {
    let d = if s.len() > 0 && s[0] == '+' { s.drop_first() } else { s };
    if d.len() > 0 && all_digits(d) && digits_value(d) <= u32::MAX {
        Some(digits_value(d) as u32)
    } else {
        None
    }
}

pub(crate) proof fn lemma_digits_value_prefix(s: Seq<char>, k: int)
    requires
        0 <= k <= s.len(),
        all_digits(s),
    ensures
        0 <= digits_value(s.subrange(0, k)) <= digits_value(s),
    decreases s.len() - k,
{
    if k < s.len() {
        lemma_digits_value_prefix(s, k + 1);
        assert(s.subrange(0, k + 1).drop_last() =~= s.subrange(0, k));
        assert(all_digits(s.subrange(0, k)));
        lemma_digits_value_nonneg(s.subrange(0, k));
        assert(is_digit(s[k]));
    } else {
        assert(s.subrange(0, k) =~= s);
        lemma_digits_value_nonneg(s);
    }
}

pub(crate) proof fn lemma_digits_value_nonneg(s: Seq<char>)
    requires
        all_digits(s),
    ensures
        digits_value(s) >= 0,
    decreases s.len(),
{
    if s.len() > 0 {
        assert(is_digit(s[s.len() - 1]));
        lemma_digits_value_nonneg(s.drop_last());
    }
}

/// Parses `v[lo..hi]` as `str::parse::<u32>` does.
pub fn parse_u32(v: &Vec<char>, lo: usize, hi: usize) -> (r: Option<u32>)
    requires
        lo <= hi <= v.len(),
    ensures
        r == parse_u32_spec(v@.subrange(lo as int, hi as int)),
{
    let ghost s = v@.subrange(lo as int, hi as int);
    let mut i = lo;
    if lo < hi && v[lo] == '+' {
        i = lo + 1;
    }
    let ghost d = v@.subrange(i as int, hi as int);
    proof {
        if s.len() > 0 && s[0] == '+' {
            assert(d =~= s.drop_first());
        } else {
            assert(d =~= s);
        }
    }
    if i == hi {
        return None;
    }
    let first = i;
    let mut value: u64 = 0;
    while i < hi
        invariant
            lo <= first <= i <= hi <= v.len(),
            d == v@.subrange(first as int, hi as int),
            d.len() > 0,
            s == v@.subrange(lo as int, hi as int),
            parse_u32_spec(s) == (if all_digits(d) && digits_value(d) <= u32::MAX {
                Some(digits_value(d) as u32)
            } else {
                None::<u32>
            }),
            all_digits(v@.subrange(first as int, i as int)),
            value as int == digits_value(v@.subrange(first as int, i as int)),
            value <= u32::MAX,
        decreases hi - i,
    {
        let c = v[i];
        if !('0' <= c && c <= '9') {
            proof {
                assert(d[i - first] == c);
                assert(!is_digit(d[i - first]));
            }
            return None;
        }
        proof {
            assert(v@.subrange(first as int, i + 1).drop_last() =~= v@.subrange(first as int, i as int));
        }
        let digit = (c as u32 - '0' as u32) as u64;
        value = value * 10 + digit;
        i += 1;
        assert(value as int == digits_value(v@.subrange(first as int, i as int)));
        proof {
            assert forall|j: int| 0 <= j < v@.subrange(first as int, i as int).len() implies
                #[trigger] is_digit(v@.subrange(first as int, i as int)[j]) by {
                if j < i - 1 - first {
                    assert(v@.subrange(first as int, i as int)[j] == v@.subrange(first as int, i - 1)[j]);
                }
            }
        }
        if value > u32::MAX as u64 {
            proof {
                if all_digits(d) {
                    lemma_digits_value_prefix(d, i - first);
                    assert(d.subrange(0, i - first) =~= v@.subrange(first as int, i as int));
                }
            }
            return None;
        }
    }
    proof {
        assert(v@.subrange(first as int, i as int) =~= d);
    }
    Some(value as u32)
}

// ── Fields ───────────────────────────────────────────────────────────────────

/// What a part or a field of a cron expression denotes.
pub enum FieldOutcome {
    /// The set of values it selects.
    Values(Set<int>),
    /// It is malformed.
    Invalid,
    /// It holds a `*/0` step, which divides by zero.
    ZeroStep,
}

pub open spec fn part_outcome(p: Seq<char>, min: int, max: int) -> FieldOutcome {
    if p.len() == 1 && p[0] == '*' {
        FieldOutcome::Values(Set::new(|v: int| min <= v <= max))
    } else if p.len() >= 2 && p[0] == '*' && p[1] == '/' {
        match parse_u32_spec(p.subrange(2, p.len() as int)) {
            None => FieldOutcome::Invalid,
            Some(step) => if step == 0 {
                FieldOutcome::ZeroStep
            } else {
                FieldOutcome::Values(Set::new(|v: int| min <= v <= max && (v - min) % (step as int) == 0))
            },
        }
    } else if p.contains('-') {
        let k = first_index(p, '-', 0);
        match (parse_u32_spec(p.subrange(0, k)), parse_u32_spec(p.subrange(k + 1, p.len() as int))) {
            (Some(lo), Some(hi)) => FieldOutcome::Values(Set::new(|v: int| lo <= v <= hi)),
            _ => FieldOutcome::Invalid,
        }
    } else {
        match parse_u32_spec(p) {
            Some(v) => FieldOutcome::Values(set![v as int]),
            None => FieldOutcome::Invalid,
        }
    }
}

/// Joins `first` with what follows it: values are united, and the first
/// failure wins.
pub open spec fn then_outcome(first: FieldOutcome, rest: FieldOutcome) -> FieldOutcome {
    match first {
        FieldOutcome::Values(a) => match rest {
            FieldOutcome::Values(b) => FieldOutcome::Values(a.union(b)),
            other => other,
        },
        other => other,
    }
}

pub open spec fn parts_outcome(ps: Seq<Seq<char>>, min: int, max: int) -> FieldOutcome
    decreases ps.len(),
{
    if ps.len() == 0 {
        FieldOutcome::Values(Set::empty())
    } else {
        then_outcome(part_outcome(ps[0], min, max), parts_outcome(ps.drop_first(), min, max))
    }
}

/// What a comma-separated field denotes over `[min, max]`; a field that
/// selects no value in range is invalid.
pub open spec fn field_outcome(f: Seq<char>, min: int, max: int) -> FieldOutcome {
    match parts_outcome(split_on(f, ','), min, max) {
        FieldOutcome::Values(s) => {
            let r = s.filter(|v: int| min <= v <= max);
            if exists|v: int| r.contains(v) {
                FieldOutcome::Values(r)
            } else {
                FieldOutcome::Invalid
            }
        },
        other => other,
    }
}

pub open spec fn strictly_increasing(v: Seq<u32>) -> bool {
    forall|a: int, b: int| 0 <= a < b < v.len() ==> v[a] < v[b]
}

/// Marks every `v` in `[min, max]` with `pred(v)`.
fn mark_where(marks: &mut Vec<bool>, min: u32, max: u32, step: u32, lo: u32, hi: u32)
    requires
        min <= max < 1000,
        old(marks).len() == max - min + 1,
        step > 0,
    ensures
        final(marks).len() == old(marks).len(),
        forall|v: int| min <= v <= max ==> #[trigger] final(marks)@[v - min] == (old(marks)@[v - min]
            || (lo <= v <= hi && (v - min) % (step as int) == 0)),
{
    let mut v = min;
    while v <= max
        invariant
            min <= v <= max + 1,
            max < 1000,
            step > 0,
            marks.len() == max - min + 1,
            forall|w: int| min <= w < v ==> #[trigger] marks@[w - min] == (old(marks)@[w - min]
                || (lo <= w <= hi && (w - min) % (step as int) == 0)),
            forall|w: int| v <= w <= max ==> #[trigger] marks@[w - min] == old(marks)@[w - min],
        decreases max + 1 - v,
    {
        if lo <= v && v <= hi && (v - min) % step == 0 {
            marks.set((v - min) as usize, true);
        }
        v += 1;
    }
}

/// Marks the values selected by the part `f[lo..hi]`; false when the part is
/// malformed.
fn mark_part(f: &Vec<char>, lo: usize, hi: usize, min: u32, max: u32, marks: &mut Vec<bool>) -> (ok: bool)
    requires
        lo <= hi <= f.len(),
        min <= max < 1000,
        old(marks).len() == max - min + 1,
        part_outcome(f@.subrange(lo as int, hi as int), min as int, max as int) != FieldOutcome::ZeroStep,
    ensures
        final(marks).len() == old(marks).len(),
        match part_outcome(f@.subrange(lo as int, hi as int), min as int, max as int) {
            FieldOutcome::Values(b) => ok && forall|v: int| min <= v <= max ==>
                #[trigger] final(marks)@[v - min] == (old(marks)@[v - min] || b.contains(v)),
            _ => !ok,
        },
{
    let ghost p = f@.subrange(lo as int, hi as int);
    if hi - lo == 1 && f[lo] == '*' {
        mark_where(marks, min, max, 1, min, max);
        return true;
    }
    if hi - lo >= 2 && f[lo] == '*' && f[lo + 1] == '/' {
        proof {
            assert(p.subrange(2, p.len() as int) =~= f@.subrange(lo + 2, hi as int));
        }
        match parse_u32(f, lo + 2, hi) {
            None => {
                return false;
            },
            Some(step) => {
                mark_where(marks, min, max, step, min, max);
                return true;
            },
        }
    }
    let mut k = lo;
    while k < hi && f[k] != '-'
        invariant
            lo <= k <= hi <= f.len(),
            forall|j: int| lo <= j < k ==> f@[j] != '-',
        decreases hi - k,
    {
        k += 1;
    }
    proof {
        lemma_first_index(p, '-', 0, k - lo);
    }
    if k < hi {
        proof {
            assert(p[k - lo] == '-');
            assert(p.contains('-'));
            assert(p.subrange(0, k - lo) =~= f@.subrange(lo as int, k as int));
            assert(p.subrange(k - lo + 1, p.len() as int) =~= f@.subrange(k + 1, hi as int));
        }
        let a = parse_u32(f, lo, k);
        let b = parse_u32(f, k + 1, hi);
        match (a, b) {
            (Some(a), Some(b)) => {
                mark_where(marks, min, max, 1, a, b);
                return true;
            },
            _ => {
                return false;
            },
        }
    }
    proof {
        assert(!p.contains('-'));
        assert(p =~= f@.subrange(lo as int, hi as int));
    }
    match parse_u32(f, lo, hi) {
        None => false,
        Some(v) => {
            mark_where(marks, min, max, 1, v, v);
            true
        },
    }
}


proof fn lemma_then_assoc(a: Set<int>, p: FieldOutcome, rest: FieldOutcome)
    ensures
        then_outcome(FieldOutcome::Values(a), then_outcome(p, rest)) == match p {
            FieldOutcome::Values(b) => then_outcome(FieldOutcome::Values(a.union(b)), rest),
            other => other,
        },
{
    match p {
        FieldOutcome::Values(b) => {
            match rest {
                FieldOutcome::Values(c) => {
                    assert(a.union(b.union(c)) =~= a.union(b).union(c));
                },
                _ => {},
            }
        },
        _ => {},
    }
}

/// The values selected by the field `f` within `[min, max]`, in increasing
/// order; `None` when the field is malformed or selects nothing.
pub fn parse_field(f: &Vec<char>, min: u32, max: u32) -> (r: Option<Vec<u32>>)
    requires
        min <= max < 1000,
        field_outcome(f@, min as int, max as int) != FieldOutcome::ZeroStep,
    ensures
        match field_outcome(f@, min as int, max as int) {
            FieldOutcome::Values(s) => r matches Some(v) && strictly_increasing(v@) && v.len() > 0
                && (forall|x: u32| v@.contains(x) <==> s.contains(x as int))
                && (forall|k: int| 0 <= k < v.len() ==> min <= #[trigger] v@[k] <= max),
            _ => r is None,
        },
{
    let n = (max - min + 1) as usize;
    let mut marks: Vec<bool> = Vec::new();
    while marks.len() < n
        invariant
            marks.len() <= n,
            forall|k: int| 0 <= k < marks.len() ==> !#[trigger] marks@[k],
        decreases n - marks.len(),
    {
        marks.push(false);
    }
    let ghost whole = parts_outcome(split_on(f@, ','), min as int, max as int);
    let ghost mut acc: Set<int> = Set::empty();
    proof {
        match whole {
            FieldOutcome::Values(b) => {
                assert(Set::<int>::empty().union(b) =~= b);
            },
            _ => {},
        }
    }
    let mut start: usize = 0;
    let mut i: usize = 0;
    loop
        invariant_except_break
            whole == then_outcome(FieldOutcome::Values(acc),
                parts_outcome(split_from(f@, ',', start as int, i as int), min as int, max as int)),
        invariant
            start <= i <= f.len(),
            min <= max < 1000,
            n == max - min + 1,
            marks.len() == n,
            whole == parts_outcome(split_on(f@, ','), min as int, max as int),
            field_outcome(f@, min as int, max as int) != FieldOutcome::ZeroStep,
            forall|v: int| min <= v <= max ==> #[trigger] marks@[v - min] == acc.contains(v),
        ensures
            whole == FieldOutcome::Values(acc),
        decreases f.len() + 1 - i,
    {
        if i == f.len() || f[i] == ',' {
            let ghost p = f@.subrange(start as int, i as int);
            let ghost rest = if i == f.len() {
                Seq::<Seq<char>>::empty()
            } else {
                split_from(f@, ',', i + 1, i + 1)
            };
            proof {
                assert(split_from(f@, ',', start as int, i as int) =~= seq![p] + rest);
                assert((seq![p] + rest)[0] == p);
                assert((seq![p] + rest).drop_first() =~= rest);
                lemma_then_assoc(acc, part_outcome(p, min as int, max as int),
                    parts_outcome(rest, min as int, max as int));
                if part_outcome(p, min as int, max as int) == FieldOutcome::ZeroStep {
                    assert(whole == FieldOutcome::ZeroStep);
                }
            }
            let ok = mark_part(f, start, i, min, max, &mut marks);
            if !ok {
                proof {
                    assert(whole == FieldOutcome::Invalid);
                }
                return None;
            }
            proof {
                match part_outcome(p, min as int, max as int) {
                    FieldOutcome::Values(b) => {
                        assert(acc.union(b).union(Set::empty()) =~= acc.union(b));
                        acc = acc.union(b);
                    },
                    _ => {},
                }
            }
            if i == f.len() {
                proof {
                    assert(whole == FieldOutcome::Values(acc));
                }
                break;
            }
            i += 1;
            start = i;
        } else {
            i += 1;
        }
    }
    let mut out: Vec<u32> = Vec::new();
    let mut v = min;
    while v <= max
        invariant
            min <= v <= max + 1,
            max < 1000,
            marks.len() == max - min + 1,
            forall|w: int| min <= w <= max ==> #[trigger] marks@[w - min] == acc.contains(w),
            strictly_increasing(out@),
            forall|k: int| 0 <= k < out.len() ==> min <= #[trigger] out@[k] < v,
            forall|x: u32| out@.contains(x) <==> (min <= x < v && acc.contains(x as int)),
        decreases max + 1 - v,
    {
        if marks[(v - min) as usize] {
            proof {
                assert forall|x: u32| out@.push(v).contains(x) <==> (min <= x < v + 1 && acc.contains(x as int)) by {
                    if out@.push(v).contains(x) && x != v {
                        let k = choose|k: int| 0 <= k < out@.push(v).len() && out@.push(v)[k] == x;
                        assert(out@.contains(x));
                    }
                    if min <= x < v + 1 && acc.contains(x as int) && x != v {
                        assert(out@.contains(x));
                        let k = choose|k: int| 0 <= k < out@.len() && out@[k] == x;
                        assert(out@.push(v)[k] == x);
                    }
                    if x == v {
                        assert(out@.push(v)[out@.len() as int] == v);
                    }
                }
            }
            out.push(v);
        }
        v += 1;
    }
    proof {
        let r = acc.filter(|w: int| min <= w <= max);
        assert forall|x: u32| out@.contains(x) <==> r.contains(x as int) by {}
        if exists|w: int| r.contains(w) {
            let w = choose|w: int| r.contains(w);
            assert(out@.contains(w as u32));
        }
        assert(field_outcome(f@, min as int, max as int) == if exists|w: int| r.contains(w) {
            FieldOutcome::Values(r)
        } else {
            FieldOutcome::Invalid
        });
    }
    if out.len() == 0 {
        proof {
            let r = acc.filter(|w: int| min <= w <= max);
            if exists|w: int| r.contains(w) {
                let w = choose|w: int| r.contains(w);
                assert(out@.contains(w as u32));
            }
        }
        return None;
    }
    proof {
        let r = acc.filter(|w: int| min <= w <= max);
        assert(out@.contains(out@[0]));
        assert(r.contains(out@[0] as int));
    }
    Some(out)
}


// ── Zero steps ───────────────────────────────────────────────────────────────

/// Whether the field `f` over `[min, max]` holds a `*/0` step before any
/// malformed part.
pub fn field_zero_step(f: &Vec<char>, min: u32, max: u32) -> (b: bool)
    requires
        min <= max < 1000,
    ensures
        b == (field_outcome(f@, min as int, max as int) == FieldOutcome::ZeroStep),
{
    let n = (max - min + 1) as usize;
    let mut marks: Vec<bool> = Vec::new();
    while marks.len() < n
        invariant
            marks.len() <= n,
        decreases n - marks.len(),
    {
        marks.push(false);
    }
    let ghost whole = parts_outcome(split_on(f@, ','), min as int, max as int);
    let ghost mut acc: Set<int> = Set::empty();
    proof {
        match whole {
            FieldOutcome::Values(b) => {
                assert(Set::<int>::empty().union(b) =~= b);
            },
            _ => {},
        }
    }
    let mut start: usize = 0;
    let mut i: usize = 0;
    loop
        invariant
            start <= i <= f.len(),
            min <= max < 1000,
            n == max - min + 1,
            marks.len() == n,
            whole == parts_outcome(split_on(f@, ','), min as int, max as int),
            whole == then_outcome(FieldOutcome::Values(acc),
                parts_outcome(split_from(f@, ',', start as int, i as int), min as int, max as int)),
        decreases f.len() + 1 - i,
    {
        if i == f.len() || f[i] == ',' {
            let ghost p = f@.subrange(start as int, i as int);
            let ghost rest = if i == f.len() {
                Seq::<Seq<char>>::empty()
            } else {
                split_from(f@, ',', i + 1, i + 1)
            };
            proof {
                assert(split_from(f@, ',', start as int, i as int) =~= seq![p] + rest);
                assert((seq![p] + rest)[0] == p);
                assert((seq![p] + rest).drop_first() =~= rest);
                lemma_then_assoc(acc, part_outcome(p, min as int, max as int),
                    parts_outcome(rest, min as int, max as int));
            }
            let zero = if i - start >= 2 && f[start] == '*' && f[start + 1] == '/' {
                proof {
                    assert(p.subrange(2, p.len() as int) =~= f@.subrange(start + 2, i as int));
                }
                match parse_u32(f, start + 2, i) {
                    Some(step) => step == 0,
                    None => false,
                }
            } else {
                false
            };
            if zero {
                proof {
                    assert(part_outcome(p, min as int, max as int) == FieldOutcome::ZeroStep);
                    assert(whole == FieldOutcome::ZeroStep);
                }
                return true;
            }
            proof {
                assert(part_outcome(p, min as int, max as int) != FieldOutcome::ZeroStep);
            }
            let ok = mark_part(f, start, i, min, max, &mut marks);
            if !ok {
                proof {
                    assert(whole == FieldOutcome::Invalid);
                }
                return false;
            }
            proof {
                match part_outcome(p, min as int, max as int) {
                    FieldOutcome::Values(b) => {
                        assert(acc.union(b).union(Set::empty()) =~= acc.union(b));
                        acc = acc.union(b);
                    },
                    _ => {},
                }
            }
            if i == f.len() {
                proof {
                    assert(whole == FieldOutcome::Values(acc));
                }
                return false;
            }
            i += 1;
            start = i;
        } else {
            i += 1;
        }
    }
}

/// Whether the cron expression `expr` holds a `*/0` step in a field that is
/// reached before any malformed one: `next_cron` cannot search then.
pub fn cron_zero_step(expr: &str) -> (b: bool)
    ensures
        b == (cron_outcome(expr@) == CronOutcome::ZeroStep),
{
    let chars = chars_of(expr);
    let fields = split_words(&chars);
    if fields.len() != 5 {
        return false;
    }
    proof {
        let w = words(expr@);
        assert(fields[0]@ == w[0] && fields[1]@ == w[1] && fields[2]@ == w[2]);
        assert(fields[3]@ == w[3] && fields[4]@ == w[4]);
    }
    if field_zero_step(&fields[0], 0, 59) {
        return true;
    }
    if parse_field(&fields[0], 0, 59).is_none() {
        return false;
    }
    if field_zero_step(&fields[1], 0, 23) {
        return true;
    }
    if parse_field(&fields[1], 0, 23).is_none() {
        return false;
    }
    if field_zero_step(&fields[2], 1, 31) {
        return true;
    }
    if parse_field(&fields[2], 1, 31).is_none() {
        return false;
    }
    if field_zero_step(&fields[3], 1, 12) {
        return true;
    }
    if parse_field(&fields[3], 1, 12).is_none() {
        return false;
    }
    field_zero_step(&fields[4], 0, 6)
}

/// Whether `expr` has five fields that each select values.
pub fn cron_parses(expr: &str) -> (b: bool)
    ensures
        b == (cron_outcome(expr@) is Fields),
{
    let chars = chars_of(expr);
    let fields = split_words(&chars);
    if fields.len() != 5 {
        return false;
    }
    proof {
        let w = words(expr@);
        assert(fields[0]@ == w[0] && fields[1]@ == w[1] && fields[2]@ == w[2]);
        assert(fields[3]@ == w[3] && fields[4]@ == w[4]);
    }
    if field_zero_step(&fields[0], 0, 59) || parse_field(&fields[0], 0, 59).is_none() {
        return false;
    }
    if field_zero_step(&fields[1], 0, 23) || parse_field(&fields[1], 0, 23).is_none() {
        return false;
    }
    if field_zero_step(&fields[2], 1, 31) || parse_field(&fields[2], 1, 31).is_none() {
        return false;
    }
    if field_zero_step(&fields[3], 1, 12) || parse_field(&fields[3], 1, 12).is_none() {
        return false;
    }
    !field_zero_step(&fields[4], 0, 6) && parse_field(&fields[4], 0, 6).is_some()
}

/// Whether `next_cron` can search from `after_ts`: the search window stays
/// within the calendar's range.
pub fn cron_after_ok(after_ts: u64) -> (b: bool)
    ensures
        b == cron_after_in_range(after_ts as int),
{
    after_ts <= 135_446_026_520_736_000 - 160_790_460
}

// ── Searching for the next fire time ─────────────────────────────────────────

/// What a whole expression denotes: the five value sets (minute, hour, day of
/// month, month, day of week), or why it has none.
pub enum CronOutcome {
    Fields(Set<int>, Set<int>, Set<int>, Set<int>, Set<int>, bool),
    Invalid,
    ZeroStep,
}

pub open spec fn cron_outcome(expr: Seq<char>) -> CronOutcome {
    let w = words(expr);
    if w.len() != 5 {
        CronOutcome::Invalid
    } else {
        match field_outcome(w[0], 0, 59) {
            FieldOutcome::Values(mi) => match field_outcome(w[1], 0, 23) {
                FieldOutcome::Values(h) => match field_outcome(w[2], 1, 31) {
                    FieldOutcome::Values(dom) => match field_outcome(w[3], 1, 12) {
                        FieldOutcome::Values(mon) => match field_outcome(w[4], 0, 6) {
                            FieldOutcome::Values(dow) => CronOutcome::Fields(mi, h, dom, mon, dow,
                                !day_star(w[2]) && !day_star(w[4])),
                            FieldOutcome::Invalid => CronOutcome::Invalid,
                            FieldOutcome::ZeroStep => CronOutcome::ZeroStep,
                        },
                        FieldOutcome::Invalid => CronOutcome::Invalid,
                        FieldOutcome::ZeroStep => CronOutcome::ZeroStep,
                    },
                    FieldOutcome::Invalid => CronOutcome::Invalid,
                    FieldOutcome::ZeroStep => CronOutcome::ZeroStep,
                },
                FieldOutcome::Invalid => CronOutcome::Invalid,
                FieldOutcome::ZeroStep => CronOutcome::ZeroStep,
            },
            FieldOutcome::Invalid => CronOutcome::Invalid,
            FieldOutcome::ZeroStep => CronOutcome::ZeroStep,
        }
    }
}

/// A day-of-month or day-of-week field that starts with `*` leaves the day
/// unrestricted by it.
pub open spec fn day_star(f: Seq<char>) -> bool {
    f.len() > 0 && f[0] == '*'
}

/// The day of `ts` is selected: when both day fields are restricted
/// (`either`), by either of them, as POSIX cron has it; otherwise by both.
pub open spec fn day_matches(dom: Set<int>, dow: Set<int>, either: bool, ts: int) -> bool {
    if either {
        dom.contains(ts_dom(ts)) || dow.contains(ts_dow(ts))
    } else {
        dom.contains(ts_dom(ts)) && dow.contains(ts_dow(ts))
    }
}

pub open spec fn cron_matches(
    mi: Set<int>,
    h: Set<int>,
    dom: Set<int>,
    mon: Set<int>,
    dow: Set<int>,
    either: bool,
    ts: int,
) -> bool {
    &&& mon.contains(ts_month(ts))
    &&& day_matches(dom, dow, either, ts)
    &&& h.contains(ts_hour(ts))
    &&& mi.contains(ts_minute(ts))
}

/// The first minute boundary strictly after `after`.
pub open spec fn cron_window_start(after: int) -> int {
    (after + 60) - (after + 60) % 60
}

/// The search stops four years (of 365 days) after `after + 60`.
pub open spec fn cron_window_end(after: int) -> int {
    after + 60 + 4 * 365 * 86400
}

/// `r` is the earliest minute boundary in the search window that the fields
/// match, or `None` when no minute in the window matches.
pub open spec fn is_next_cron_time(
    mi: Set<int>,
    h: Set<int>,
    dom: Set<int>,
    mon: Set<int>,
    dow: Set<int>,
    either: bool,
    after: int,
    r: Option<u64>,
) -> bool {
    match r {
        Some(t) => {
            &&& cron_window_start(after) <= t < cron_window_end(after)
            &&& t % 60 == 0
            &&& cron_matches(mi, h, dom, mon, dow, either, t as int)
            &&& forall|u: int| cron_window_start(after) <= u < t && u % 60 == 0
                ==> !cron_matches(mi, h, dom, mon, dow, either, u)
        },
        None => forall|u: int| cron_window_start(after) <= u < cron_window_end(after) && u % 60 == 0
            ==> !cron_matches(mi, h, dom, mon, dow, either, u),
    }
}

/// Largest starting time for which the search stays within the range of
/// the 32-bit year counter.
pub open spec fn cron_after_in_range(after: int) -> bool {
    0 <= after && after + 160_790_460 <= 135_446_026_520_736_000
}

pub proof fn lemma_calendar_range(ts: int)
    requires
        0 <= ts < 135_446_026_520_736_000,
    ensures
        ts_in_calendar_range(ts),
{
    lemma_days_before_year_lower(u32::MAX as int + 1);
}

fn contains_u32(v: &Vec<u32>, x: u32) -> (b: bool)
    ensures
        b == v@.contains(x),
{
    let mut i: usize = 0;
    while i < v.len()
        invariant
            i <= v.len(),
            forall|k: int| 0 <= k < i ==> v@[k] != x,
        decreases v.len() - i,
    {
        if v[i] == x {
            return true;
        }
        i += 1;
    }
    false
}

pub open spec fn cyc(a: int, b: int) -> int {
    (b - a + 12) % 12
}

/// Position reached after walking day by day from a month `m0`: months
/// count 32 each, plus the day of month.
pub open spec fn walk_pos(m0: int, d: int) -> int {
    cyc(m0, civil(d).1) * 32 + civil(d).2
}

/// Every day from `d0` to `d0 + k` lies in a month strictly before `nm`,
/// counting cyclically from `m0`, and the walk has advanced at least `k + 1`.
pub open spec fn walked_within(m0: int, nm: int, d0: int, k: int) -> bool {
    &&& d0 >= 0
    &&& k >= 0
    &&& forall|d: int| d0 <= d <= d0 + k ==> cyc(m0, #[trigger] civil(d).1) < cyc(m0, nm)
    &&& walk_pos(m0, d0 + k) >= k + 1
}

proof fn lemma_walked_month(m0: int, nm: int, d0: int, k: int, d: int)
    requires
        walked_within(m0, nm, d0, k),
        d0 <= d <= d0 + k,
    ensures
        cyc(m0, civil(d).1) < cyc(m0, nm),
{
}

proof fn lemma_walk_step(m0: int, nm: int, d0: int, k: int)
    requires
        1 <= m0 <= 12,
        1 <= nm <= 12,
        walked_within(m0, nm, d0, k),
        civil(d0 + k + 1).1 != nm,
    ensures
        walked_within(m0, nm, d0, k + 1),
{
    lemma_civil_succ(d0 + k, 1970);
    lemma_civil_bounds(d0 + k, 1970);
    lemma_civil_bounds(d0 + k + 1, 1970);
    crate::calendar::lemma_month_len_bounds(civil(d0 + k).0, civil(d0 + k).1);
    let m1 = civil(d0 + k).1;
    let m2 = civil(d0 + k + 1).1;
    assert(cyc(m0, m1) < cyc(m0, nm));
    if m2 != m1 {
        assert(m2 == m1 % 12 + 1);
        assert(cyc(m0, m2) == cyc(m0, m1) + 1);
    }
    assert(cyc(m0, m2) < cyc(m0, nm));
    assert forall|d: int| d0 <= d <= d0 + k + 1 implies cyc(m0, #[trigger] civil(d).1) < cyc(m0, nm) by {
        if d <= d0 + k {
            lemma_walked_month(m0, nm, d0, k, d);
        }
    }
}

proof fn lemma_walk_bound(m0: int, nm: int, d0: int, k: int)
    requires
        1 <= m0 <= 12,
        1 <= nm <= 12,
        walked_within(m0, nm, d0, k),
    ensures
        k <= 351,
{
    lemma_civil_bounds(d0 + k, 1970);
    crate::calendar::lemma_month_len_bounds(civil(d0 + k).0, civil(d0 + k).1);
    lemma_walked_month(m0, nm, d0, k, d0 + k);
}

/// Moves to the first day of the next month that `months` allows.
pub fn advance_to_month(ts: u64, months: &Vec<u32>) -> (r: Option<u64>)
    requires
        months.len() > 0,
        strictly_increasing(months@),
        forall|k: int| 0 <= k < months.len() ==> 1 <= #[trigger] months@[k] <= 12,
        !months@.contains(ts_month(ts as int) as u32),
        ts as int + 401 * 86400 < 135_446_026_520_736_000,
    ensures
        r matches Some(x) && {
            &&& ts < x <= ts + 400 * 86400
            &&& x % 86400 == 0
            &&& months@.contains(ts_month(x as int) as u32)
            &&& forall|t: int| ts <= t < x ==> !months@.contains(#[trigger] ts_month(t) as u32)
        },
{
    proof {
        lemma_calendar_range(ts as int);
        lemma_civil_bounds(ts as int / 86400, 1970);
    }
    let t = unix_to_parts(ts);
    let ghost m0 = t.month as int;
    let ghost d0 = ts as int / 86400;
    let mut next_month = months[0];
    let mut i: usize = 0;
    while i < months.len()
        invariant
            i <= months.len(),
            next_month == months@[0],
            forall|j: int| 0 <= j < i ==> months@[j] <= t.month,
        ensures
            i <= months.len(),
            forall|j: int| 0 <= j < i ==> months@[j] <= t.month,
            i < months.len() ==> months@[i as int] > t.month,
        decreases months.len() - i,
    {
        if months[i] > t.month {
            break;
        }
        i += 1;
    }
    if i < months.len() {
        next_month = months[i];
    }
    let ghost nm = next_month as int;
    proof {
        assert(months@.contains(next_month));
        assert(nm != m0);
        assert forall|m: int| 1 <= m <= 12 && cyc(m0, m) < cyc(m0, nm) implies !months@.contains(m as u32) by {
            assert(!months@.contains(m0 as u32));
            if i < months.len() {
                assert(cyc(m0, nm) == nm - m0);
                if m < m0 {
                    assert(cyc(m0, m) == m - m0 + 12);
                } else {
                    assert(cyc(m0, m) == m - m0);
                }
            } else {
                assert(nm < m0);
                assert(cyc(m0, nm) == nm - m0 + 12);
                if m < m0 {
                    assert(cyc(m0, m) == m - m0 + 12);
                } else {
                    assert(cyc(m0, m) == m - m0);
                }
            }
            if months@.contains(m as u32) {
                let j = choose|j: int| 0 <= j < months.len() && months@[j] == m as u32;
                if i < months.len() {
                    if j < i {
                        assert(months@[j] <= t.month);
                    } else if j > i {
                        assert(months@[i as int] < months@[j]);
                    }
                } else {
                    if j > 0 {
                        assert(months@[0] < months@[j]);
                    }
                }
            }
        }
    }
    proof {
        assert(walk_pos(m0, d0) >= 1);
        assert(walked_within(m0, nm, d0, 0));
    }
    let mut candidate = ts + 86400;
    let mut k: u64 = 0;
    while k < 400
        invariant
            k <= 400,
            candidate == ts + 86400 * (k + 1),
            ts as int + 401 * 86400 < 135_446_026_520_736_000,
            d0 == ts as int / 86400,
            m0 == civil(d0).1,
            1 <= m0 <= 12,
            1 <= nm <= 12,
            nm != m0,
            next_month == nm,
            months@.contains(next_month),
            forall|m: int| 1 <= m <= 12 && cyc(m0, m) < cyc(m0, nm) ==> !months@.contains(m as u32),
            walked_within(m0, nm, d0, k as int),
        decreases 400 - k,
    {
        proof {
            lemma_calendar_range(candidate as int);
            assert(candidate as int / 86400 == d0 + k + 1);
        }
        let ct = unix_to_parts(candidate);
        if ct.month == next_month {
            let r = candidate - candidate % 86400;
            proof {
                assert(r as int / 86400 == d0 + k + 1);
                assert forall|t: int| ts <= t < r implies !months@.contains(#[trigger] ts_month(t) as u32) by {
                    assert(d0 <= t / 86400 <= d0 + k);
                    lemma_walked_month(m0, nm, d0, k as int, t / 86400);
                    lemma_civil_bounds(t / 86400, 1970);
                }
            }
            return Some(r);
        }
        proof {
            lemma_walk_step(m0, nm, d0, k as int);
        }
        candidate = candidate + 86400;
        k += 1;
    }
    proof {
        lemma_walk_bound(m0, nm, d0, 400);
    }
    None
}


/// Membership in a field's value list agrees with its value set.
pub open spec fn lists_set(v: Seq<u32>, s: Set<int>, min: int, max: int) -> bool {
    &&& strictly_increasing(v)
    &&& v.len() > 0
    &&& forall|x: u32| v.contains(x) <==> s.contains(x as int)
    &&& forall|k: int| 0 <= k < v.len() ==> min <= #[trigger] v[k] <= max
}

/// No minute boundary in `[lo, hi)` matches the fields.
pub open spec fn no_match_between(
    mi: Set<int>,
    h: Set<int>,
    dom: Set<int>,
    mon: Set<int>,
    dow: Set<int>,
    either: bool,
    lo: int,
    hi: int,
) -> bool {
    forall|u: int| lo <= u < hi && u % 60 == 0 ==> !#[trigger] cron_matches(mi, h, dom, mon, dow, either, u)
}

proof fn lemma_no_match_join(
    mi: Set<int>,
    h: Set<int>,
    dom: Set<int>,
    mon: Set<int>,
    dow: Set<int>,
    either: bool,
    a: int,
    b: int,
    c: int,
)
    requires
        no_match_between(mi, h, dom, mon, dow, either, a, b),
        no_match_between(mi, h, dom, mon, dow, either, b, c),
    ensures
        no_match_between(mi, h, dom, mon, dow, either, a, c),
{
    assert forall|u: int| a <= u < c && u % 60 == 0 implies !#[trigger] cron_matches(mi, h, dom, mon, dow, either, u) by {
        if u < b {
            assert(a <= u < b);
        } else {
            assert(b <= u < c);
        }
    }
}

proof fn lemma_skip_day(
    mi: Set<int>,
    h: Set<int>,
    dom: Set<int>,
    mon: Set<int>,
    dow: Set<int>,
    either: bool,
    ts: int,
    next: int,
)
    requires
        ts >= 0,
        next == (ts / 86400 + 1) * 86400,
        !day_matches(dom, dow, either, ts),
    ensures
        no_match_between(mi, h, dom, mon, dow, either, ts, next),
{
    assert forall|u: int| ts <= u < next && u % 60 == 0 implies !#[trigger] cron_matches(mi, h, dom, mon, dow, either, u) by {
        assert(u / 86400 == ts / 86400);
    }
}

proof fn lemma_skip_hour(
    mi: Set<int>,
    h: Set<int>,
    dom: Set<int>,
    mon: Set<int>,
    dow: Set<int>,
    either: bool,
    ts: int,
    next: int,
)
    requires
        ts >= 0,
        next == (ts / 3600 + 1) * 3600,
        !h.contains(ts_hour(ts)),
    ensures
        no_match_between(mi, h, dom, mon, dow, either, ts, next),
{
    assert forall|u: int| ts <= u < next && u % 60 == 0 implies !#[trigger] cron_matches(mi, h, dom, mon, dow, either, u) by {
        assert(u / 3600 == ts / 3600);
    }
}

proof fn lemma_skip_minute(
    mi: Set<int>,
    h: Set<int>,
    dom: Set<int>,
    mon: Set<int>,
    dow: Set<int>,
    either: bool,
    ts: int,
)
    requires
        ts >= 0,
        ts % 60 == 0,
        !mi.contains(ts_minute(ts)),
    ensures
        no_match_between(mi, h, dom, mon, dow, either, ts, ts + 60),
{
    assert forall|u: int| ts <= u < ts + 60 && u % 60 == 0 implies !#[trigger] cron_matches(mi, h, dom, mon, dow, either, u) by {
        assert(u == ts);
    }
}

proof fn lemma_skip_months(
    mi: Set<int>,
    h: Set<int>,
    dom: Set<int>,
    mon: Set<int>,
    dow: Set<int>,
    either: bool,
    months: Seq<u32>,
    ts: int,
    next: int,
)
    requires
        lists_set(months, mon, 1, 12),
        0 <= ts <= next,
        forall|t: int| ts <= t < next ==> !months.contains(#[trigger] ts_month(t) as u32),
    ensures
        no_match_between(mi, h, dom, mon, dow, either, ts, next),
{
    assert forall|u: int| ts <= u < next && u % 60 == 0 implies !#[trigger] cron_matches(mi, h, dom, mon, dow, either, u) by {
        assert(!months.contains(ts_month(u) as u32));
        lemma_civil_bounds(u / 86400, 1970);
    }
}

/// The next time after `after_ts` that the cron expression `expr` selects:
/// the earliest minute boundary, from the first one after `after_ts` and for
/// four years on, whose minute, hour and month belong to the expression's
/// fields and whose day is selected by its day fields: by either of them
/// when both are restricted, by both when one starts with `*`. `None` when the expression does not
/// have exactly five valid fields or no minute in that window matches.
#[verifier::rlimit(40)]
#[verifier::spinoff_prover]
pub fn next_cron(expr: &str, after_ts: u64) -> (r: Option<u64>)
    requires
        cron_outcome(expr@) != CronOutcome::ZeroStep,
        cron_outcome(expr@) is Fields ==> cron_after_in_range(after_ts as int),
    ensures
        match cron_outcome(expr@) {
            CronOutcome::Fields(mi, h, dom, mon, dow, either) => is_next_cron_time(mi, h, dom, mon, dow, either, after_ts as int, r),
            _ => r is None,
        },
{
    let chars = chars_of(expr);
    let fields = split_words(&chars);
    if fields.len() != 5 {
        return None;
    }
    let minutes = match parse_field(&fields[0], 0, 59) {
        Some(v) => v,
        None => return None,
    };
    let hours = match parse_field(&fields[1], 0, 23) {
        Some(v) => v,
        None => return None,
    };
    let doms = match parse_field(&fields[2], 1, 31) {
        Some(v) => v,
        None => return None,
    };
    let months = match parse_field(&fields[3], 1, 12) {
        Some(v) => v,
        None => return None,
    };
    let dows = match parse_field(&fields[4], 0, 6) {
        Some(v) => v,
        None => return None,
    };
    proof {
        let w = words(expr@);
        assert(fields[0]@ == w[0] && fields[1]@ == w[1] && fields[2]@ == w[2]);
        assert(fields[3]@ == w[3] && fields[4]@ == w[4]);
        assert(cron_outcome(expr@) is Fields);
    }
    let either = !(fields[2].len() > 0 && fields[2][0] == '*') && !(fields[4].len() > 0 && fields[4][0] == '*');
    let ghost (smi, sh, sdom, smon, sdow, seither) = match cron_outcome(expr@) {
        CronOutcome::Fields(a, b, c, d, e, f) => (a, b, c, d, e, f),
        _ => arbitrary(),
    };
    proof {
        let w = words(expr@);
        assert(fields[2]@ == w[2] && fields[4]@ == w[4]);
        assert(either == seither);
    }
    proof {
        assert(lists_set(minutes@, smi, 0, 59));
        assert(lists_set(hours@, sh, 0, 23));
        assert(lists_set(doms@, sdom, 1, 31));
        assert(lists_set(months@, smon, 1, 12));
        assert(lists_set(dows@, sdow, 0, 6));
    }
    let ghost lo = cron_window_start(after_ts as int);
    let start = after_ts + 60;
    let limit = start + 4 * 365 * 86400;
    let mut ts = start - (start % 60);
    while ts < limit
        invariant
            cron_after_in_range(after_ts as int),
            lo == cron_window_start(after_ts as int),
            cron_outcome(expr@) == CronOutcome::Fields(smi, sh, sdom, smon, sdow, seither),
            limit == cron_window_end(after_ts as int),
            lo <= ts <= limit + 400 * 86400,
            ts % 60 == 0,
            lists_set(minutes@, smi, 0, 59),
            lists_set(hours@, sh, 0, 23),
            lists_set(doms@, sdom, 1, 31),
            lists_set(months@, smon, 1, 12),
            lists_set(dows@, sdow, 0, 6),
            either == seither,
            no_match_between(smi, sh, sdom, smon, sdow, seither, lo, ts as int),
        decreases limit + 400 * 86400 - ts,
    {
        proof {
            lemma_calendar_range(ts as int);
        }
        let t = unix_to_parts(ts);
        if !contains_u32(&months, t.month) {
            match advance_to_month(ts, &months) {
                Some(x) => {
                    proof {
                        lemma_skip_months(smi, sh, sdom, smon, sdow, seither, months@, ts as int, x as int);
                        lemma_no_match_join(smi, sh, sdom, smon, sdow, seither, lo, ts as int, x as int);
                    }
                    ts = x;
                },
                None => {
                    return None;
                },
            }
            continue;
        }
        let dm = contains_u32(&doms, t.dom);
        let wm = contains_u32(&dows, t.dow);
        let day_ok = if either { dm || wm } else { dm && wm };
        if !day_ok {
            let old_ts = ts;
            ts += 86400;
            ts -= ts % 86400;
            proof {
                lemma_skip_day(smi, sh, sdom, smon, sdow, seither, old_ts as int, ts as int);
                lemma_no_match_join(smi, sh, sdom, smon, sdow, seither, lo, old_ts as int, ts as int);
            }
            continue;
        }
        if !contains_u32(&hours, t.hour) {
            let old_ts = ts;
            ts += 3600;
            ts -= ts % 3600;
            proof {
                lemma_skip_hour(smi, sh, sdom, smon, sdow, seither, old_ts as int, ts as int);
                lemma_no_match_join(smi, sh, sdom, smon, sdow, seither, lo, old_ts as int, ts as int);
            }
            continue;
        }
        if !contains_u32(&minutes, t.minute) {
            proof {
                lemma_skip_minute(smi, sh, sdom, smon, sdow, seither, ts as int);
                lemma_no_match_join(smi, sh, sdom, smon, sdow, seither, lo, ts as int, ts + 60);
            }
            ts += 60;
            continue;
        }
        proof {
            assert(smon.contains(t.month as int));
            assert(day_matches(sdom, sdow, seither, ts as int));
            assert(sh.contains(t.hour as int));
            assert(smi.contains(t.minute as int));
            assert(cron_matches(smi, sh, sdom, smon, sdow, seither, ts as int));
            assert(cron_outcome(expr@) == CronOutcome::Fields(smi, sh, sdom, smon, sdow, seither));
        }
        return Some(ts);
    }
    None
}

} // verus!
