//! Sorting of entries by date (and time of day), moving as few entries as
//! possible: the longest run of entries already in order stays, the others
//! are merged into it.
use vstd::prelude::*;
use std::collections::HashSet;
use crate::lex::{date_at, date_at_exec, rtrim, rtrim_exec, skip_class_exec, skip_ws, CharClass};
use crate::line::{parse_line, spec_parse_line, Line, LineParts};
use crate::options::{SortableDirective, TimelessPosition};
use crate::options::chars_eq_str;
use crate::text::{
    append_str, chars_of, ends_line, is_digit, lemma_line_pieces_short, lemma_short_lines_concat,
    lemma_short_lines_line, push_char, short_lines, split_lines, views,
};

verus! {

// ---------------------------------------------------------------------------
// Time of day
// ---------------------------------------------------------------------------

/// The number written by the decimal digits `s`.
pub open spec fn digits_value(s: Seq<char>) -> int
    decreases s.len(),
{
    if s.len() == 0 {
        0
    } else {
        digits_value(s.drop_last()) * 10 + (s.last() as int - '0' as int)
    }
}

pub open spec fn all_digits(s: Seq<char>) -> bool {
    forall|k: int| 0 <= k < s.len() ==> is_digit(#[trigger] s[k])
}

/// The first position at or after `i` that does not hold `"`.
pub open spec fn skip_quotes(s: Seq<char>, i: int) -> int
    decreases s.len() - i,
{
    if 0 <= i < s.len() && s[i] == '"' {
        skip_quotes(s, i + 1)
    } else {
        i
    }
}

/// The end of `s[lo..hi]` once trailing `"` are taken off.
pub open spec fn rtrim_quotes(s: Seq<char>, lo: int, hi: int) -> int
    decreases hi - lo,
{
    if lo < hi && s[hi - 1] == '"' {
        rtrim_quotes(s, lo, hi - 1)
    } else {
        hi
    }
}

/// The value with surrounding whitespace, then surrounding `"`, taken off.
pub open spec fn trimmed_value(s: Seq<char>) -> Seq<char> {
    let a = skip_ws(s, 0);
    let b = rtrim(s, a, s.len() as int);
    let a2 = skip_quotes(s.subrange(a, b), 0);
    let b2 = rtrim_quotes(s.subrange(a, b), a2, b - a);
    s.subrange(a, b).subrange(a2, b2)
}

/// Hours, minutes and seconds of a Unix timestamp given in seconds,
/// milliseconds (13 to 15 digits) or microseconds (16 digits).
pub open spec fn unix_fields(v: Seq<char>) -> (int, int, int) {
    let d = digits_value(v);
    let secs = if d >= 1_000_000_000_000_000 {
        d / 1_000_000
    } else if d >= 1_000_000_000_000 {
        d / 1_000
    } else {
        d
    };
    let tod = secs % 86400;
    (tod / 3600, (tod % 3600) / 60, tod % 60)
}

pub open spec fn two_digits_at(t: Seq<char>, p: int) -> bool {
    0 <= p && p + 1 < t.len() && is_digit(t[p]) && is_digit(t[p + 1])
}

pub open spec fn two_digit_value(t: Seq<char>, p: int) -> int {
    (t[p] as int - '0' as int) * 10 + (t[p + 1] as int - '0' as int)
}

/// The first position at or after `i` that is not a digit.
pub open spec fn skip_digits(s: Seq<char>, i: int) -> int
    decreases s.len() - i,
{
    if 0 <= i < s.len() && is_digit(s[i]) {
        skip_digits(s, i + 1)
    } else {
        i
    }
}

/// What may follow a time of day and is ignored: `(\.\d+)?` then a zone,
/// `Z`, `z`, or `[+-]HH`, `[+-]HHMM`, `[+-]HH:MM`; then the end.
pub open spec fn suffix_ok(t: Seq<char>, p: int) -> bool {
    let q: int = if 0 <= p && p + 1 < t.len() && t[p] == '.' && is_digit(t[p + 1]) {
        skip_digits(t, p + 1)
    } else {
        p
    };
    let r: int = q + 3;
    ||| q == t.len()
    ||| (q + 1 == t.len() && (t[q] == 'Z' || t[q] == 'z'))
    ||| (0 <= q < t.len() && (t[q] == '+' || t[q] == '-') && two_digits_at(t, q + 1) && (r
        == t.len() || (r + 3 == t.len() && t[r] == ':' && two_digits_at(t, r + 1)) || (r + 2
        == t.len() && two_digits_at(t, r))))
}

/// `H:MM`, `HH:MM`, `H:MM:SS` or `HH:MM:SS`, then `suffix_ok`.
pub open spec fn clock_fields(t: Seq<char>) -> Option<(int, int, int)> {
    let hl: int = if two_digits_at(t, 0) {
        2
    } else if t.len() >= 1 && is_digit(t[0]) {
        1
    } else {
        0
    };
    let p = hl + 3;
    let with_secs = p < t.len() && t[p] == ':' && two_digits_at(t, p + 1);
    let end = if with_secs {
        p + 3
    } else {
        p
    };
    if hl > 0 && hl < t.len() && t[hl] == ':' && two_digits_at(t, hl + 1) && suffix_ok(t, end) {
        Some(
            (
                digits_value(t.take(hl)),
                two_digit_value(t, hl + 1),
                if with_secs {
                    two_digit_value(t, p + 1)
                } else {
                    0
                },
            ),
        )
    } else {
        None
    }
}

/// Hours, minutes and seconds of a `time` value: a Unix timestamp of 10 to 16
/// digits, a date `YYYY-MM-DD` then `T` or a space then a time of day, or a
/// time of day; surrounding whitespace and quotes ignored.
pub open spec fn time_fields(value: Seq<char>) -> Option<(int, int, int)> {
    let v = trimmed_value(value);
    if all_digits(v) && 10 <= v.len() <= 16 {
        Some(unix_fields(v))
    } else if date_at(v, 0) && v.len() > 10 && (v[10] == 'T' || v[10] == ' ') {
        clock_fields(v.skip(11))
    } else {
        clock_fields(v)
    }
}

/// `n` (below 100) as two decimal digits.
pub open spec fn two_digits(n: int) -> Seq<char> {
    seq![(('0' as int) + n / 10) as char, (('0' as int) + n % 10) as char]
}

/// `HH:MM:SS` of the value, when it has a time of day.
pub open spec fn spec_parse_time(value: Seq<char>) -> Option<Seq<char>> {
    match time_fields(value) {
        Some((h, m, s)) => Some(two_digits(h) + seq![':'] + two_digits(m) + seq![':'] + two_digits(s)),
        None => None,
    }
}

/// The time fields of a value are below 100 each.
proof fn lemma_time_fields_small(value: Seq<char>)
    ensures
        time_fields(value) matches Some((h, m, s)) ==> 0 <= h < 100 && 0 <= m < 100 && 0 <= s < 100,
{
    let v = trimmed_value(value);
    if all_digits(v) && 10 <= v.len() <= 16 {
        lemma_digits_value_bound(v);
        let d = digits_value(v);
        let secs = if d >= 1_000_000_000_000_000 {
            d / 1_000_000
        } else if d >= 1_000_000_000_000 {
            d / 1_000
        } else {
            d
        };
        assert(secs >= 0);
        let tod = secs % 86400;
        assert(0 <= tod < 86400);
        assert(tod / 3600 < 24);
        assert((tod % 3600) / 60 < 60);
    } else {
        let t = if date_at(v, 0) && v.len() > 10 && (v[10] == 'T' || v[10] == ' ') {
            v.skip(11)
        } else {
            v
        };
        assert(time_fields(value) == clock_fields(t));
        let hl: int = if two_digits_at(t, 0) {
            2
        } else if t.len() >= 1 && is_digit(t[0]) {
            1
        } else {
            0
        };
        if hl > 0 && hl <= t.len() {
            let hs = t.take(hl);
            assert(all_digits(hs));
            lemma_digits_value_bound(hs);
            lemma_pow10_mono(hl as nat, 2);
            assert(pow10(2) == 100) by {
                reveal_with_fuel(pow10, 3);
            }
        }
    }
}

proof fn lemma_two_digits(n: int)
    requires
        0 <= n < 100,
    ensures
        two_digits(n).len() == 2,
        is_digit(two_digits(n)[0]) && is_digit(two_digits(n)[1]),
        two_digit_value(two_digits(n), 0) == n,
        digits_value(two_digits(n)) == n,
{
    let t = two_digits(n);
    let u = t.drop_last();
    assert(u.drop_last().len() == 0);
    assert(u[0] == t[0]);
    assert(t[0] as int - '0' as int == n / 10);
    assert(t[1] as int - '0' as int == n % 10);
    assert(digits_value(u) == digits_value(u.drop_last()) * 10 + (u.last() as int - '0' as int));
    assert(digits_value(u) == n / 10);
    assert(digits_value(t) == digits_value(u) * 10 + (t.last() as int - '0' as int));
}

/// A time of day that `parse_time` writes out reads back as itself.
pub proof fn law_parse_time_canonical(value: Seq<char>)
    ensures
        spec_parse_time(value) matches Some(t) ==> spec_parse_time(t) == Some(t),
{
    lemma_time_fields_small(value);
    if let Some((h, m, s)) = time_fields(value) {
        lemma_two_digits(h);
        lemma_two_digits(m);
        lemma_two_digits(s);
        let t = two_digits(h) + seq![':'] + two_digits(m) + seq![':'] + two_digits(s);
        assert(t.len() == 8);
        assert(t[0] == two_digits(h)[0] && t[1] == two_digits(h)[1]);
        assert(t[3] == two_digits(m)[0] && t[4] == two_digits(m)[1]);
        assert(t[6] == two_digits(s)[0] && t[7] == two_digits(s)[1]);
        assert(t[2] == ':' && t[5] == ':');
        // surrounding whitespace and quotes: none
        crate::lex::lemma_skip_class(t, 0, CharClass::Ws);
        assert(!crate::text::is_ws(t[0]));
        assert(skip_ws(t, 0) == 0);
        assert(!crate::text::is_ws(t[7]));
        assert(rtrim(t, 0, 8) == 8);
        assert(t.subrange(0, 8) =~= t);
        assert(skip_quotes(t, 0) == 0);
        assert(rtrim_quotes(t, 0, 8) == 8);
        assert(trimmed_value(t) =~= t);
        assert(!is_digit(t[2]));
        assert(!all_digits(t));
        assert(!date_at(t, 0));
        assert(two_digits_at(t, 0));
        assert(two_digits_at(t, 3));
        assert(two_digits_at(t, 6));
        assert(suffix_ok(t, 8));
        assert(t.take(2) =~= two_digits(h));
        assert(two_digit_value(t, 3) == two_digit_value(two_digits(m), 0));
        assert(two_digit_value(t, 6) == two_digit_value(two_digits(s), 0));
        assert(clock_fields(t) == Some((h, m, s)));
        assert(time_fields(t) == Some((h, m, s)));
    }
}


/// A number that orders times of day as their `HH:MM:SS` texts do.
pub open spec fn time_key(value: Seq<char>) -> Option<u32> {
    match time_fields(value) {
        Some((h, m, s)) => Some((h * 10000 + m * 100 + s) as u32),
        None => None,
    }
}

proof fn lemma_time_key_digits(value: Seq<char>)
    requires
        time_fields(value) is Some,
    ensures
        ({
            let t = spec_parse_time(value).unwrap();
            &&& t.len() == 8
            &&& t[2] == ':' && t[5] == ':'
            &&& time_key(value).unwrap() as int == dv(t[0]) * 100000 + dv(t[1]) * 10000 + dv(t[3]) * 1000
                + dv(t[4]) * 100 + dv(t[6]) * 10 + dv(t[7])
        }),
{
    lemma_time_fields_small(value);
    let (h, m, s) = time_fields(value).unwrap();
    lemma_two_digits(h);
    lemma_two_digits(m);
    lemma_two_digits(s);
    let t = spec_parse_time(value).unwrap();
    assert(t == two_digits(h) + seq![':'] + two_digits(m) + seq![':'] + two_digits(s));
    assert(t[0] == two_digits(h)[0] && t[1] == two_digits(h)[1]);
    assert(t[3] == two_digits(m)[0] && t[4] == two_digits(m)[1]);
    assert(t[6] == two_digits(s)[0] && t[7] == two_digits(s)[1]);
    assert(dv(t[0]) * 10 + dv(t[1]) == h);
    assert(dv(t[3]) * 10 + dv(t[4]) == m);
    assert(dv(t[6]) * 10 + dv(t[7]) == s);
}

/// Times of day sort as their `HH:MM:SS` texts do: the value whose time
/// reads earlier has the smaller sort key, and equal times have equal keys.
pub proof fn law_time_key_order(v1: Seq<char>, v2: Seq<char>)
    requires
        time_fields(v1) is Some,
        time_fields(v2) is Some,
    ensures
        text_less(spec_parse_time(v1).unwrap(), spec_parse_time(v2).unwrap()) ==> time_key(v1).unwrap()
            < time_key(v2).unwrap(),
        spec_parse_time(v1) == spec_parse_time(v2) ==> time_key(v1) == time_key(v2),
{
    lemma_time_key_digits(v1);
    lemma_time_key_digits(v2);
    let a = spec_parse_time(v1).unwrap();
    let b = spec_parse_time(v2).unwrap();
    lemma_time_fields_small(v1);
    lemma_time_fields_small(v2);
    let (h1, m1, s1) = time_fields(v1).unwrap();
    let (h2, m2, s2) = time_fields(v2).unwrap();
    lemma_two_digits(h1);
    lemma_two_digits(m1);
    lemma_two_digits(s1);
    lemma_two_digits(h2);
    lemma_two_digits(m2);
    lemma_two_digits(s2);
    assert forall|i: int| 0 <= i < 8 && i != 2 && i != 5 implies 0 <= #[trigger] dv(a[i]) <= 9 && 0
        <= dv(b[i]) <= 9 by {
        assert(a == two_digits(h1) + seq![':'] + two_digits(m1) + seq![':'] + two_digits(s1));
        assert(b == two_digits(h2) + seq![':'] + two_digits(m2) + seq![':'] + two_digits(s2));
    }
    if text_less(a, b) {
        let i = choose|i: int|
            0 <= i < a.len() && i < b.len() && a.take(i) == b.take(i) && (#[trigger] a[i] as int) < (
            b[i] as int);
        assert forall|j: int| 0 <= j < i implies a[j] == b[j] by {
            assert(a.take(i)[j] == b.take(i)[j]);
        }
        assert(i != 2 && i != 5);
        assert(0 <= dv(a[0]) <= 9 && 0 <= dv(a[1]) <= 9 && 0 <= dv(a[3]) <= 9 && 0 <= dv(a[4]) <= 9
            && 0 <= dv(a[6]) <= 9 && 0 <= dv(a[7]) <= 9);
        assert(0 <= dv(b[0]) <= 9 && 0 <= dv(b[1]) <= 9 && 0 <= dv(b[3]) <= 9 && 0 <= dv(b[4]) <= 9
            && 0 <= dv(b[6]) <= 9 && 0 <= dv(b[7]) <= 9) by {
            assert(0 <= dv(b[0]) <= 9);
            assert(0 <= dv(b[1]) <= 9);
            assert(0 <= dv(b[3]) <= 9);
            assert(0 <= dv(b[4]) <= 9);
            assert(0 <= dv(b[6]) <= 9);
            assert(0 <= dv(b[7]) <= 9);
        }
    }
}


/// `10^n`.
pub open spec fn pow10(n: nat) -> int
    decreases n,
{
    if n == 0 {
        1
    } else {
        10 * pow10((n - 1) as nat)
    }
}

proof fn lemma_pow10_mono(a: nat, b: nat)
    requires
        a <= b,
    ensures
        1 <= pow10(a) <= pow10(b),
    decreases b,
{
    if a < b {
        lemma_pow10_mono(a, (b - 1) as nat);
    } else if a > 0 {
        lemma_pow10_mono((a - 1) as nat, (a - 1) as nat);
    }
}

proof fn lemma_digits_value_bound(s: Seq<char>)
    requires
        all_digits(s),
    ensures
        0 <= digits_value(s) < pow10(s.len()),
    decreases s.len(),
{
    if s.len() > 0 {
        assert(all_digits(s.drop_last()));
        lemma_digits_value_bound(s.drop_last());
        assert(is_digit(s[s.len() - 1]));
    }
}

/// The value of the decimal digits `v[lo..hi]`.
fn digits_value_exec(v: &[char], lo: usize, hi: usize) -> (r: u64)
    requires
        lo <= hi <= v@.len(),
        hi - lo <= 16,
        all_digits(v@.subrange(lo as int, hi as int)),
    ensures
        r == digits_value(v@.subrange(lo as int, hi as int)),
{
    let mut r: u64 = 0;
    let mut k = lo;
    while k < hi
        invariant
            lo <= k <= hi <= v@.len(),
            hi - lo <= 16,
            all_digits(v@.subrange(lo as int, hi as int)),
            r == digits_value(v@.subrange(lo as int, k as int)),
        decreases hi - k,
    {
        let ghost part = v@.subrange(lo as int, k as int);
        proof {
            assert(all_digits(part)) by {
                assert forall|j: int| 0 <= j < part.len() implies is_digit(#[trigger] part[j]) by {
                    assert(part[j] == v@.subrange(lo as int, hi as int)[j]);
                }
            }
            lemma_digits_value_bound(part);
            lemma_pow10_mono(part.len(), 15);
            assert(pow10(15) == 1_000_000_000_000_000) by {
                reveal_with_fuel(pow10, 16);
            }
            assert(is_digit(v@.subrange(lo as int, hi as int)[k - lo]));
        }
        let d = (v[k] as u32 - '0' as u32) as u64;
        r = r * 10 + d;
        k = k + 1;
        assert(v@.subrange(lo as int, k as int).drop_last() =~= part);
    }
    r
}

fn two_digit_value_exec(v: &[char], p: usize) -> (r: u32)
    requires
        two_digits_at(v@, p as int),
    ensures
        r == two_digit_value(v@, p as int),
        r < 100,
{
    (v[p] as u32 - '0' as u32) * 10 + (v[p + 1] as u32 - '0' as u32)
}

fn two_digits_at_exec(v: &[char], p: usize) -> (r: bool)
    ensures
        r == two_digits_at(v@, p as int),
{
    p < v.len() && p + 1 < v.len() && crate::text::is_digit_char(v[p]) && crate::text::is_digit_char(
        v[p + 1],
    )
}

proof fn lemma_skip_digits(s: Seq<char>, i: int)
    requires
        0 <= i <= s.len(),
    ensures
        i <= skip_digits(s, i) <= s.len(),
    decreases s.len() - i,
{
    if i < s.len() && is_digit(s[i]) {
        lemma_skip_digits(s, i + 1);
    }
}

fn suffix_ok_exec(t: &[char], p: usize) -> (r: bool)
    requires
        p <= t@.len(),
    ensures
        r == suffix_ok(t@, p as int),
{
    let n = t.len();
    let q = if p < n && p + 1 < n && t[p] == '.' && crate::text::is_digit_char(t[p + 1]) {
        skip_class_exec(t, p + 1, CharClass::Digit)
    } else {
        p
    };
    proof {
        assert(forall|i: int| #![auto] 0 <= i <= t@.len() ==> skip_digits(t@, i)
            == crate::lex::skip_class(t@, i, CharClass::Digit)) by {
            assert forall|i: int| #![auto] 0 <= i <= t@.len() implies skip_digits(t@, i)
                == crate::lex::skip_class(t@, i, CharClass::Digit) by {
                lemma_skip_digits_class(t@, i);
            }
        }
    }
    if q == n {
        return true;
    }
    if q + 1 == n && (t[q] == 'Z' || t[q] == 'z') {
        return true;
    }
    if q < n && (t[q] == '+' || t[q] == '-') && two_digits_at_exec(t, q + 1) {
        let r = q + 3;
        if r == n {
            return true;
        }
        if r < n && n - r == 3 && t[r] == ':' && two_digits_at_exec(t, r + 1) {
            return true;
        }
        if r < n && n - r == 2 && two_digits_at_exec(t, r) {
            return true;
        }
    }
    false
}

proof fn lemma_skip_digits_class(s: Seq<char>, i: int)
    requires
        0 <= i <= s.len(),
    ensures
        skip_digits(s, i) == crate::lex::skip_class(s, i, CharClass::Digit),
    decreases s.len() - i,
{
    if i < s.len() && is_digit(s[i]) {
        lemma_skip_digits_class(s, i + 1);
    }
}

fn clock_fields_exec(t: &[char]) -> (r: Option<(u32, u32, u32)>)
    ensures
        r matches Some((h, m, s)) ==> clock_fields(t@) == Some((h as int, m as int, s as int))
            && h < 100 && m < 100 && s < 100,
        r is None ==> clock_fields(t@) is None,
{
    let n = t.len();
    let hl: usize = if two_digits_at_exec(t, 0) {
        2
    } else if n >= 1 && crate::text::is_digit_char(t[0]) {
        1
    } else {
        0
    };
    if hl == 0 || hl >= n || t[hl] != ':' || !two_digits_at_exec(t, hl + 1) {
        return None;
    }
    let p = hl + 3;
    let with_secs = p < n && t[p] == ':' && two_digits_at_exec(t, p + 1);
    let end = if with_secs {
        p + 3
    } else {
        p
    };
    if !suffix_ok_exec(t, end) {
        return None;
    }
    let h: u32 = if hl == 2 {
        two_digit_value_exec(t, 0)
    } else {
        t[0] as u32 - '0' as u32
    };
    proof {
        assert(t@.take(1).drop_last() =~= Seq::<char>::empty());
        assert(digits_value(Seq::<char>::empty()) == 0);
        assert(t@.take(1).last() == t@[0]);
        assert(digits_value(t@.take(1)) == t@[0] as int - '0' as int);
        if hl == 2 {
            assert(t@.take(2).drop_last() =~= t@.take(1));
            assert(digits_value(t@.take(2)) == two_digit_value(t@, 0));
        }
    }
    let m = two_digit_value_exec(t, hl + 1);
    let s = if with_secs {
        two_digit_value_exec(t, p + 1)
    } else {
        0
    };
    Some((h, m, s))
}

fn push_two_digits(out: &mut String, n: u32)
    requires
        n < 100,
    ensures
        final(out)@ == old(out)@ + two_digits(n as int),
{
    let tens = ('0' as u32 + n / 10) as u8 as char;
    let ones = ('0' as u32 + n % 10) as u8 as char;
    push_char(out, tens);
    push_char(out, ones);
    assert(final(out)@ =~= old(out)@ + two_digits(n as int));
}

/// Hours, minutes and seconds of a `time` value (see `time_fields`).
fn time_fields_exec(value: &str) -> (r: Option<(u32, u32, u32)>)
    ensures
        r matches Some((h, m, s)) ==> time_fields(value@) == Some((h as int, m as int, s as int))
            && h < 100 && m < 100 && s < 100,
        r is None ==> time_fields(value@) is None,
{
    let w = chars_of(value);
    let n = w.len();
    let a = skip_class_exec(&w, 0, CharClass::Ws);
    let b = rtrim_exec(&w, a, n);
    let mut a2 = a;
    while a2 < b && w[a2] == '"'
        invariant
            a <= a2 <= b <= n,
            n == w@.len(),
            skip_quotes(w@.subrange(a as int, b as int), a2 - a) == skip_quotes(
                w@.subrange(a as int, b as int),
                0,
            ),
        decreases b - a2,
    {
        a2 = a2 + 1;
    }
    let mut b2 = b;
    while b2 > a2 && w[b2 - 1] == '"'
        invariant
            a <= a2 <= b2 <= b <= n,
            n == w@.len(),
            rtrim_quotes(w@.subrange(a as int, b as int), a2 - a, b2 - a) == rtrim_quotes(
                w@.subrange(a as int, b as int),
                a2 - a,
                b - a,
            ),
        decreases b2,
    {
        b2 = b2 - 1;
    }
    let v = crate::text::copy_range(&w, a2, b2);
    assert(v@ =~= trimmed_value(value@));
    let len = v.len();
    let mut digits = true;
    let mut k: usize = 0;
    while k < len
        invariant
            k <= len,
            len == v@.len(),
            digits == (forall|j: int| 0 <= j < k ==> is_digit(#[trigger] v@[j])),
        decreases len - k,
    {
        if !crate::text::is_digit_char(v[k]) {
            digits = false;
        }
        k = k + 1;
    }
    if digits && 10 <= len && len <= 16 {
        let d = digits_value_exec(&v, 0, len);
        assert(v@.subrange(0, len as int) =~= v@);
        let secs = if d >= 1_000_000_000_000_000 {
            d / 1_000_000
        } else if d >= 1_000_000_000_000 {
            d / 1_000
        } else {
            d
        };
        let tod = secs % 86400;
        let h = (tod / 3600) as u32;
        let m = ((tod % 3600) / 60) as u32;
        let s = (tod % 60) as u32;
        return Some((h, m, s));
    }
    if date_at_exec(&v, 0) && len > 10 && (v[10] == 'T' || v[10] == ' ') {
        let rest = crate::text::copy_range(&v, 11, len);
        assert(rest@ =~= v@.skip(11));
        clock_fields_exec(&rest)
    } else {
        clock_fields_exec(&v)
    }
}

/// The time of day of a `time` metadata value as `HH:MM:SS`: from `H:MM`,
/// `HH:MM[:SS]`, an ISO date-time (zone and fraction ignored), or a Unix
/// timestamp in seconds, milliseconds or microseconds.
pub fn parse_time(value: &str) -> (r: Option<String>)
    ensures
        r matches Some(t) ==> spec_parse_time(value@) == Some(t@),
        r is None ==> spec_parse_time(value@) is None,
{
    match time_fields_exec(value) {
        Some((h, m, s)) => {
            let mut out = String::new();
            push_two_digits(&mut out, h);
            push_char(&mut out, ':');
            push_two_digits(&mut out, m);
            push_char(&mut out, ':');
            push_two_digits(&mut out, s);
            Some(out)
        },
        None => None,
    }
}

/// The time of day of a `time` metadata value as a number (see `time_key`).
fn time_key_exec(value: &str) -> (r: Option<u32>)
    ensures
        r == time_key(value@),
{
    match time_fields_exec(value) {
        Some((h, m, s)) => Some(h * 10000 + m * 100 + s),
        None => None,
    }
}

// ---------------------------------------------------------------------------
// Order of entries
// ---------------------------------------------------------------------------

/// What an entry is sorted by: its date (as `YYYYMMDD`) and its time of day
/// (see `time_key`), when it has them.
#[derive(Clone, Copy)]
pub struct SortKey {
    pub date: Option<u32>,
    pub time: Option<u32>,
}

/// Whether an entry with key `a` may stand before one with key `b`. Entries
/// without a date go anywhere; dates ascend (or descend when `reverse`); on
/// one day times ascend (or descend), and an entry without a time goes
/// before timed ones (`Begin`), after them (`End`), or anywhere (`Keep`).
pub open spec fn can_go_before(a: SortKey, b: SortKey, reverse: bool, timeless: TimelessPosition) -> bool {
    match (a.date, b.date) {
        (Some(da), Some(db)) => if da != db {
            if reverse {
                da > db
            } else {
                da < db
            }
        } else {
            match (a.time, b.time) {
                (Some(ta), Some(tb)) => if reverse {
                    ta >= tb
                } else {
                    ta <= tb
                },
                (None, Some(_)) => !(timeless is End),
                (Some(_), None) => !(timeless is Begin),
                (None, None) => true,
            }
        },
        _ => true,
    }
}

/// The strict order by which the entries to move are sorted among themselves:
/// entries without a date first, then by date, then by time, an entry
/// without a time counting as earlier than timed ones unless `End`.
pub open spec fn sorts_before(a: SortKey, b: SortKey, reverse: bool, timeless: TimelessPosition) -> bool {
    match (a.date, b.date) {
        (None, Some(_)) => true,
        (Some(da), Some(db)) => if da != db {
            if reverse {
                da > db
            } else {
                da < db
            }
        } else {
            match (a.time, b.time) {
                (Some(ta), Some(tb)) => if reverse {
                    ta > tb
                } else {
                    ta < tb
                },
                (None, Some(_)) => !(timeless is End),
                (Some(_), None) => timeless is End,
                (None, None) => false,
            }
        },
        _ => false,
    }
}

fn can_go_before_exec(a: SortKey, b: SortKey, reverse: bool, timeless: TimelessPosition) -> (r: bool)
    ensures
        r == can_go_before(a, b, reverse, timeless),
{
    match (a.date, b.date) {
        (Some(da), Some(db)) => if da != db {
            if reverse {
                da > db
            } else {
                da < db
            }
        } else {
            match (a.time, b.time) {
                (Some(ta), Some(tb)) => if reverse {
                    ta >= tb
                } else {
                    ta <= tb
                },
                (None, Some(_)) => !matches!(timeless, TimelessPosition::End),
                (Some(_), None) => !matches!(timeless, TimelessPosition::Begin),
                (None, None) => true,
            }
        },
        _ => true,
    }
}

fn sorts_before_exec(a: SortKey, b: SortKey, reverse: bool, timeless: TimelessPosition) -> (r: bool)
    ensures
        r == sorts_before(a, b, reverse, timeless),
{
    match (a.date, b.date) {
        (None, Some(_)) => true,
        (Some(da), Some(db)) => if da != db {
            if reverse {
                da > db
            } else {
                da < db
            }
        } else {
            match (a.time, b.time) {
                (Some(ta), Some(tb)) => if reverse {
                    ta > tb
                } else {
                    ta < tb
                },
                (None, Some(_)) => !matches!(timeless, TimelessPosition::End),
                (Some(_), None) => matches!(timeless, TimelessPosition::End),
                (None, None) => false,
            }
        },
        _ => false,
    }
}

/// The binary search of `slice::partition_point`, over `tails[base..base + size]`
/// with the predicate "may stand before `x`".
pub open spec fn search_from(
    keys: Seq<SortKey>,
    tails: Seq<usize>,
    x: SortKey,
    base: int,
    size: int,
    reverse: bool,
    timeless: TimelessPosition,
) -> int
    decreases size,
{
    if size <= 1 {
        base
    } else {
        let half = size / 2;
        let mid = base + half;
        search_from(
            keys,
            tails,
            x,
            if can_go_before(keys[tails[mid] as int], x, reverse, timeless) {
                mid
            } else {
                base
            },
            size - half,
            reverse,
            timeless,
        )
    }
}

/// Where `x` goes among the tails: after those that may stand before it
/// (exactly so when they are partitioned by that predicate).
pub open spec fn partition_point(
    keys: Seq<SortKey>,
    tails: Seq<usize>,
    x: SortKey,
    reverse: bool,
    timeless: TimelessPosition,
) -> int {
    if tails.len() == 0 {
        0
    } else {
        let b = search_from(keys, tails, x, 0, tails.len() as int, reverse, timeless);
        b + if can_go_before(keys[tails[b] as int], x, reverse, timeless) {
            1int
        } else {
            0int
        }
    }
}

proof fn lemma_search_from(
    keys: Seq<SortKey>,
    tails: Seq<usize>,
    x: SortKey,
    base: int,
    size: int,
    reverse: bool,
    timeless: TimelessPosition,
)
    requires
        0 <= base,
        1 <= size,
        base + size <= tails.len(),
    ensures
        base <= search_from(keys, tails, x, base, size, reverse, timeless) < base + size,
    decreases size,
{
    if size > 1 {
        let half = size / 2;
        let mid = base + half;
        let nb = if can_go_before(keys[tails[mid] as int], x, reverse, timeless) {
            mid
        } else {
            base
        };
        lemma_search_from(keys, tails, x, nb, size - half, reverse, timeless);
    }
}

/// The state of the patience sort after the first `i` entries: the tails of
/// the increasing runs found so far, and each entry's predecessor.
pub open spec fn lis_state(keys: Seq<SortKey>, i: int, reverse: bool, timeless: TimelessPosition) -> (
    Seq<usize>,
    Seq<Option<usize>>,
)
    decreases i,
{
    if i <= 0 {
        (seq![], seq![])
    } else {
        let (tails, preds) = lis_state(keys, i - 1, reverse, timeless);
        let x = (i - 1) as usize;
        let pos = partition_point(keys, tails, keys[i - 1], reverse, timeless);
        let tails2 = if pos >= tails.len() {
            tails.push(x)
        } else {
            tails.update(pos, x)
        };
        let pred = if pos > 0 {
            Some(tails[pos - 1])
        } else {
            None
        };
        (tails2, preds.push(pred))
    }
}

/// The chain of predecessors from `idx` back, latest first.
pub open spec fn chain_back(preds: Seq<Option<usize>>, idx: int) -> Seq<usize>
    decreases idx,
{
    if idx < 0 || idx >= preds.len() {
        seq![]
    } else {
        match preds[idx] {
            Some(p) => if p < idx {
                seq![idx as usize] + chain_back(preds, p as int)
            } else {
                seq![idx as usize]
            },
            None => seq![idx as usize],
        }
    }
}

/// The longest run of entries that may stay where they are, in order.
pub open spec fn kept_run(keys: Seq<SortKey>, reverse: bool, timeless: TimelessPosition) -> Seq<usize> {
    let (tails, preds) = lis_state(keys, keys.len() as int, reverse, timeless);
    if tails.len() == 0 {
        seq![]
    } else {
        chain_back(preds, tails.last() as int).reverse()
    }
}

/// The positions below `k` not in `run`, in order.
pub open spec fn others(run: Seq<usize>, k: int) -> Seq<usize>
    decreases k,
{
    if k <= 0 {
        seq![]
    } else if run.contains((k - 1) as usize) {
        others(run, k - 1)
    } else {
        others(run, k - 1).push((k - 1) as usize)
    }
}

/// Where `x` goes in `sorted`: after every entry it does not sort before.
pub open spec fn insert_pos(
    keys: Seq<SortKey>,
    sorted: Seq<usize>,
    x: usize,
    reverse: bool,
    timeless: TimelessPosition,
) -> int
    decreases sorted.len(),
{
    if sorted.len() == 0 {
        0
    } else if sorts_before(keys[x as int], keys[sorted.last() as int], reverse, timeless) {
        insert_pos(keys, sorted.drop_last(), x, reverse, timeless)
    } else {
        sorted.len() as int
    }
}

/// A stable insertion sort of `u` by `sorts_before`.
pub open spec fn insertion_sort(keys: Seq<SortKey>, u: Seq<usize>, reverse: bool, timeless: TimelessPosition) -> Seq<usize>
    decreases u.len(),
{
    if u.len() == 0 {
        seq![]
    } else {
        let s = insertion_sort(keys, u.drop_last(), reverse, timeless);
        s.insert(insert_pos(keys, s, u.last(), reverse, timeless), u.last())
    }
}

/// Two dated entries that may each stand before the other: their order is
/// the one they came in.
pub open spec fn same_place(a: SortKey, b: SortKey, reverse: bool, timeless: TimelessPosition) -> bool {
    a.date is Some && b.date is Some && can_go_before(a, b, reverse, timeless) && can_go_before(
        b,
        a,
        reverse,
        timeless,
    )
}

/// Whether the entry to move at `u` goes before the kept entry at `s`: it may
/// stand before it, and when the two are tied it came first.
pub open spec fn goes_first(keys: Seq<SortKey>, u: usize, s: usize, reverse: bool, timeless: TimelessPosition) -> bool {
    can_go_before(keys[u as int], keys[s as int], reverse, timeless) && !(same_place(
        keys[u as int],
        keys[s as int],
        reverse,
        timeless,
    ) && s < u)
}

fn goes_first_exec(keys: &Vec<SortKey>, u: usize, s: usize, reverse: bool, timeless: TimelessPosition) -> (r: bool)
    requires
        u < keys@.len(),
        s < keys@.len(),
    ensures
        r == goes_first(keys@, u, s, reverse, timeless),
{
    let a = keys[u];
    let b = keys[s];
    if !can_go_before_exec(a, b, reverse, timeless) {
        return false;
    }
    let tied = a.date.is_some() && b.date.is_some() && can_go_before_exec(b, a, reverse, timeless);
    !(tied && s < u)
}

/// The kept run with the other entries merged in: an entry to move goes
/// before the next kept entry as soon as it goes first (`goes_first`).
pub open spec fn merge(
    keys: Seq<SortKey>,
    s: Seq<usize>,
    u: Seq<usize>,
    reverse: bool,
    timeless: TimelessPosition,
) -> Seq<usize>
    decreases s.len() + u.len(),
{
    if s.len() == 0 {
        u
    } else if u.len() == 0 {
        s
    } else if goes_first(keys, u[0], s[0], reverse, timeless) {
        seq![u[0]] + merge(keys, s, u.drop_first(), reverse, timeless)
    } else {
        seq![s[0]] + merge(keys, s.drop_first(), u, reverse, timeless)
    }
}

/// `0, 1, ..., n - 1`.
pub open spec fn identity(n: int) -> Seq<usize> {
    Seq::new(n as nat, |i: int| i as usize)
}

/// The order in which the entries come out.
pub open spec fn sort_order(keys: Seq<SortKey>, reverse: bool, timeless: TimelessPosition) -> Seq<usize> {
    let n = keys.len() as int;
    let run = kept_run(keys, reverse, timeless);
    let rest = others(run, n);
    if n <= 1 || rest.len() == 0 {
        identity(n)
    } else {
        merge(keys, run, insertion_sort(keys, rest, reverse, timeless), reverse, timeless)
    }
}

pub open spec fn indices_below(s: Seq<usize>, n: int) -> bool {
    forall|k: int| 0 <= k < s.len() ==> (#[trigger] s[k] as int) < n
}

fn partition_point_exec(
    keys: &Vec<SortKey>,
    tails: &Vec<usize>,
    x: SortKey,
    reverse: bool,
    timeless: TimelessPosition,
) -> (r: usize)
    requires
        indices_below(tails@, keys@.len() as int),
    ensures
        r == partition_point(keys@, tails@, x, reverse, timeless),
        r <= tails@.len(),
{
    let size0 = tails.len();
    if size0 == 0 {
        return 0;
    }
    let mut base: usize = 0;
    let mut size: usize = size0;
    proof {
        lemma_search_from(keys@, tails@, x, 0, size0 as int, reverse, timeless);
    }
    while size > 1
        invariant
            1 <= size,
            base + size <= size0,
            size0 == tails@.len(),
            indices_below(tails@, keys@.len() as int),
            search_from(keys@, tails@, x, base as int, size as int, reverse, timeless) == search_from(
                keys@,
                tails@,
                x,
                0,
                size0 as int,
                reverse,
                timeless,
            ),
        decreases size,
    {
        let half = size / 2;
        let mid = base + half;
        if can_go_before_exec(keys[tails[mid]], x, reverse, timeless) {
            base = mid;
        }
        size = size - half;
    }
    if can_go_before_exec(keys[tails[base]], x, reverse, timeless) {
        base + 1
    } else {
        base
    }
}

/// The well-formedness of the patience sort's state after `i` entries.
pub open spec fn lis_ok(tails: Seq<usize>, preds: Seq<Option<usize>>, i: int) -> bool {
    &&& preds.len() == i
    &&& tails.len() <= i
    &&& i > 0 ==> tails.len() > 0
    &&& indices_below(tails, i)
    &&& forall|k: int| 0 <= k < preds.len() ==> (#[trigger] preds[k] matches Some(p) ==> p < k)
}

proof fn lemma_lis_state(keys: Seq<SortKey>, i: int, reverse: bool, timeless: TimelessPosition)
    requires
        0 <= i <= keys.len(),
    ensures
        lis_ok(lis_state(keys, i, reverse, timeless).0, lis_state(keys, i, reverse, timeless).1, i),
    decreases i,
{
    if i > 0 {
        lemma_lis_state(keys, i - 1, reverse, timeless);
        let (tails, preds) = lis_state(keys, i - 1, reverse, timeless);
        if tails.len() > 0 {
            lemma_search_from(keys, tails, keys[i - 1], 0, tails.len() as int, reverse, timeless);
        }
        let (t2, p2) = lis_state(keys, i, reverse, timeless);
        assert forall|k: int| 0 <= k < p2.len() implies (#[trigger] p2[k] matches Some(p) ==> p < k) by {
            if k < i - 1 {
                assert(p2[k] == preds[k]);
            }
        }
    }
}

fn lis_exec(keys: &Vec<SortKey>, reverse: bool, timeless: TimelessPosition) -> (r: (
    Vec<usize>,
    Vec<Option<usize>>,
))
    ensures
        (r.0@, r.1@) == lis_state(keys@, keys@.len() as int, reverse, timeless),
        lis_ok(r.0@, r.1@, keys@.len() as int),
{
    let n = keys.len();
    let mut tails: Vec<usize> = Vec::new();
    let mut preds: Vec<Option<usize>> = Vec::new();
    let mut i: usize = 0;
    while i < n
        invariant
            i <= n,
            n == keys@.len(),
            (tails@, preds@) == lis_state(keys@, i as int, reverse, timeless),
            lis_ok(tails@, preds@, i as int),
        decreases n - i,
    {
        proof {
            lemma_lis_state(keys@, i + 1, reverse, timeless);
        }
        let pos = partition_point_exec(keys, &tails, keys[i], reverse, timeless);
        let pred = if pos > 0 {
            Some(tails[pos - 1])
        } else {
            None
        };
        if pos == tails.len() {
            tails.push(i);
        } else {
            tails.set(pos, i);
        }
        preds.push(pred);
        i = i + 1;
    }
    (tails, preds)
}

fn kept_run_exec(keys: &Vec<SortKey>, reverse: bool, timeless: TimelessPosition) -> (r: Vec<usize>)
    ensures
        r@ == kept_run(keys@, reverse, timeless),
{
    let (tails, preds) = lis_exec(keys, reverse, timeless);
    if tails.len() == 0 {
        return Vec::new();
    }
    let start = tails[tails.len() - 1];
    let mut back: Vec<usize> = Vec::new();
    let mut cur = start;
    let ghost total = chain_back(preds@, start as int);
    loop
        invariant_except_break
            (cur as int) < preds@.len(),
            back@ + chain_back(preds@, cur as int) == total,
        ensures
            back@ == total,
        decreases cur,
    {
        let ghost before = back@;
        back.push(cur);
        match preds[cur] {
            Some(p) => {
                if p < cur {
                    assert(back@ + chain_back(preds@, p as int) =~= before + chain_back(
                        preds@,
                        cur as int,
                    ));
                    cur = p;
                } else {
                    assert(back@ =~= total);
                    break ;
                }
            },
            None => {
                assert(back@ =~= total);
                break ;
            },
        }
    }
    let m = back.len();
    let mut run: Vec<usize> = Vec::new();
    let mut k: usize = 0;
    while k < m
        invariant
            k <= m,
            m == back@.len(),
            run@ == back@.reverse().take(k as int),
        decreases m - k,
    {
        run.push(back[m - 1 - k]);
        k = k + 1;
        assert(run@ =~= back@.reverse().take(k as int));
    }
    assert(run@ =~= back@.reverse());
    run
}

fn others_exec(run: &Vec<usize>, n: usize) -> (r: Vec<usize>)
    ensures
        r@ == others(run@, n as int),
{
    broadcast use vstd::std_specs::hash::group_hash_axioms;

    let mut kept: HashSet<usize> = HashSet::new();
    let mut j: usize = 0;
    while j < run.len()
        invariant
            j <= run@.len(),
            forall|t: usize| #[trigger] kept@.contains(t) <==> run@.take(j as int).contains(t),
        decreases run@.len() - j,
    {
        let x = run[j];
        kept.insert(x);
        proof {
            assert forall|t: usize| #[trigger] kept@.contains(t) <==> run@.take(j + 1).contains(t) by {
                let pre = run@.take(j as int);
                assert(run@.take(j + 1) =~= pre.push(x));
                if run@.take(j + 1).contains(t) {
                    let w = choose|w: int| 0 <= w < j + 1 && #[trigger] run@.take(j + 1)[w] == t;
                    if w < j {
                        assert(pre[w] == t);
                    }
                }
                if pre.contains(t) {
                    let w = choose|w: int| 0 <= w < j && #[trigger] pre[w] == t;
                    assert(run@.take(j + 1)[w] == t);
                }
                if x == t {
                    assert(run@.take(j + 1)[j as int] == t);
                }
            }
        }
        j = j + 1;
    }
    assert(run@.take(run@.len() as int) =~= run@);
    let mut out: Vec<usize> = Vec::new();
    let mut k: usize = 0;
    while k < n
        invariant
            k <= n,
            forall|t: usize| #[trigger] kept@.contains(t) <==> run@.contains(t),
            out@ == others(run@, k as int),
        decreases n - k,
    {
        if !kept.contains(&k) {
            out.push(k);
        }
        k = k + 1;
    }
    out
}

fn insertion_sort_exec(
    keys: &Vec<SortKey>,
    u: &Vec<usize>,
    reverse: bool,
    timeless: TimelessPosition,
) -> (r: Vec<usize>)
    requires
        indices_below(u@, keys@.len() as int),
    ensures
        r@ == insertion_sort(keys@, u@, reverse, timeless),
{
    let mut sorted: Vec<usize> = Vec::new();
    let mut k: usize = 0;
    while k < u.len()
        invariant
            k <= u@.len(),
            indices_below(u@, keys@.len() as int),
            sorted@ == insertion_sort(keys@, u@.take(k as int), reverse, timeless),
            indices_below(sorted@, keys@.len() as int),
        decreases u@.len() - k,
    {
        let x = u[k];
        let mut p = sorted.len();
        assert(sorted@.take(p as int) =~= sorted@);
        while p > 0 && sorts_before_exec(keys[x], keys[sorted[p - 1]], reverse, timeless)
            invariant
                p <= sorted@.len(),
                (x as int) < keys@.len(),
                indices_below(sorted@, keys@.len() as int),
                insert_pos(keys@, sorted@.take(p as int), x, reverse, timeless) == insert_pos(
                    keys@,
                    sorted@,
                    x,
                    reverse,
                    timeless,
                ),
            decreases p,
        {
            assert(sorted@.take(p as int).drop_last() =~= sorted@.take(p - 1));
            p = p - 1;
        }
        proof {
            if p > 0 {
                assert(sorted@.take(p as int).last() == sorted@[p - 1]);
            }
        }
        let ghost old_sorted = sorted@;
        sorted.insert(p, x);
        assert(u@.take(k + 1).drop_last() =~= u@.take(k as int));
        k = k + 1;
        proof {
            assert forall|t: int| 0 <= t < sorted@.len() implies (#[trigger] sorted@[t] as int)
                < keys@.len() by {
                if t < p {
                    assert(sorted@[t] == old_sorted[t]);
                } else if t > p {
                    assert(sorted@[t] == old_sorted[t - 1]);
                }
            }
        }
    }
    assert(u@.take(u@.len() as int) =~= u@);
    sorted
}

fn merge_exec(
    keys: &Vec<SortKey>,
    s: &Vec<usize>,
    u: &Vec<usize>,
    reverse: bool,
    timeless: TimelessPosition,
) -> (r: Vec<usize>)
    requires
        indices_below(s@, keys@.len() as int),
        indices_below(u@, keys@.len() as int),
    ensures
        r@ == merge(keys@, s@, u@, reverse, timeless),
{
    let mut out: Vec<usize> = Vec::new();
    let mut si: usize = 0;
    let mut ui: usize = 0;
    let ghost total = merge(keys@, s@, u@, reverse, timeless);
    assert(s@.skip(0) =~= s@);
    assert(u@.skip(0) =~= u@);
    while si < s.len() || ui < u.len()
        invariant
            si <= s@.len(),
            ui <= u@.len(),
            indices_below(s@, keys@.len() as int),
            indices_below(u@, keys@.len() as int),
            out@ + merge(keys@, s@.skip(si as int), u@.skip(ui as int), reverse, timeless) == total,
        decreases s@.len() - si + u@.len() - ui,
    {
        let ghost before = out@;
        let ghost ss = s@.skip(si as int);
        let ghost us = u@.skip(ui as int);
        if si < s.len() && (ui >= u.len() || !goes_first_exec(keys, u[ui], s[si], reverse, timeless)) {
            out.push(s[si]);
            si = si + 1;
            assert(ss.drop_first() =~= s@.skip(si as int));
            proof {
                if us.len() == 0 {
                    assert(merge(keys@, ss, us, reverse, timeless) == ss);
                    assert(merge(keys@, ss.drop_first(), us, reverse, timeless) == ss.drop_first());
                }
            }
            assert(out@ + merge(keys@, s@.skip(si as int), us, reverse, timeless) =~= before + merge(
                keys@,
                ss,
                us,
                reverse,
                timeless,
            ));
        } else {
            out.push(u[ui]);
            ui = ui + 1;
            assert(us.drop_first() =~= u@.skip(ui as int));
            proof {
                if ss.len() == 0 {
                    assert(merge(keys@, ss, us, reverse, timeless) == us);
                    assert(merge(keys@, ss, us.drop_first(), reverse, timeless) == us.drop_first());
                }
            }
            assert(out@ + merge(keys@, ss, u@.skip(ui as int), reverse, timeless) =~= before + merge(
                keys@,
                ss,
                us,
                reverse,
                timeless,
            ));
        }
    }
    assert(s@.skip(si as int) =~= Seq::<usize>::empty());
    assert(u@.skip(ui as int) =~= Seq::<usize>::empty());
    out
}

proof fn lemma_chain_back_below(preds: Seq<Option<usize>>, idx: int)
    requires
        0 <= idx,
    ensures
        indices_below(chain_back(preds, idx), idx + 1),
    decreases idx,
{
    if 0 <= idx < preds.len() {
        match preds[idx] {
            Some(p) => if p < idx {
                lemma_chain_back_below(preds, p as int);
                let c = chain_back(preds, idx);
                assert forall|k: int| 0 <= k < c.len() implies (#[trigger] c[k] as int) < idx + 1 by {
                    if k > 0 {
                        assert(c[k] == chain_back(preds, p as int)[k - 1]);
                    }
                }
            },
            None => {},
        }
    }
}

proof fn lemma_kept_run_below(keys: Seq<SortKey>, reverse: bool, timeless: TimelessPosition)
    ensures
        indices_below(kept_run(keys, reverse, timeless), keys.len() as int),
{
    lemma_lis_state(keys, keys.len() as int, reverse, timeless);
    let (tails, preds) = lis_state(keys, keys.len() as int, reverse, timeless);
    if tails.len() > 0 {
        let start = tails.last() as int;
        assert(start < keys.len());
        lemma_chain_back_below(preds, start);
        let c = chain_back(preds, start);
        assert forall|k: int| 0 <= k < c.reverse().len() implies (#[trigger] c.reverse()[k] as int)
            < keys.len() by {
            assert(c.reverse()[k] == c[c.len() - 1 - k]);
        }
    }
}

proof fn lemma_others_below(run: Seq<usize>, k: int)
    ensures
        indices_below(others(run, k), k),
    decreases k,
{
    if k > 0 {
        lemma_others_below(run, k - 1);
    }
}

proof fn lemma_insertion_sort_below(keys: Seq<SortKey>, u: Seq<usize>, reverse: bool, timeless: TimelessPosition, n: int)
    requires
        indices_below(u, n),
    ensures
        indices_below(insertion_sort(keys, u, reverse, timeless), n),
    decreases u.len(),
{
    if u.len() > 0 {
        assert(indices_below(u.drop_last(), n));
        lemma_insertion_sort_below(keys, u.drop_last(), reverse, timeless, n);
        let s = insertion_sort(keys, u.drop_last(), reverse, timeless);
        lemma_insert_pos(keys, s, u.last(), reverse, timeless);
        let p = insert_pos(keys, s, u.last(), reverse, timeless);
        let r = s.insert(p, u.last());
        assert forall|k: int| 0 <= k < r.len() implies (#[trigger] r[k] as int) < n by {
            if k < p {
                assert(r[k] == s[k]);
            } else if k > p {
                assert(r[k] == s[k - 1]);
            } else {
                assert(u.last() == u[u.len() - 1]);
            }
        }
    }
}

proof fn lemma_insert_pos(keys: Seq<SortKey>, sorted: Seq<usize>, x: usize, reverse: bool, timeless: TimelessPosition)
    ensures
        0 <= insert_pos(keys, sorted, x, reverse, timeless) <= sorted.len(),
    decreases sorted.len(),
{
    if sorted.len() > 0 {
        lemma_insert_pos(keys, sorted.drop_last(), x, reverse, timeless);
    }
}

/// The order in which the entries with these keys come out (see `sort_order`).
fn sort_order_exec(keys: &Vec<SortKey>, reverse: bool, timeless: TimelessPosition) -> (r: Vec<usize>)
    ensures
        r@ == sort_order(keys@, reverse, timeless),
{
    let n = keys.len();
    let run = kept_run_exec(keys, reverse, timeless);
    let rest = others_exec(&run, n);
    if n <= 1 || rest.len() == 0 {
        let mut id: Vec<usize> = Vec::new();
        let mut k: usize = 0;
        while k < n
            invariant
                k <= n,
                id@ == identity(k as int),
            decreases n - k,
        {
            id.push(k);
            k = k + 1;
            assert(id@ =~= identity(k as int));
        }
        return id;
    }
    proof {
        lemma_kept_run_below(keys@, reverse, timeless);
        lemma_others_below(run@, n as int);
        lemma_insertion_sort_below(keys@, rest@, reverse, timeless, n as int);
    }
    let ins = insertion_sort_exec(keys, &rest, reverse, timeless);
    merge_exec(keys, &run, &ins, reverse, timeless)
}

// ---------------------------------------------------------------------------
// Entries and segments of a text
// ---------------------------------------------------------------------------

/// An entry: the lines `first..end` of the text (a directive and the indented
/// lines that follow it), with its sort key.
#[derive(Clone, Copy)]
pub struct Entry {
    pub first: usize,
    pub end: usize,
    pub key: SortKey,
}

/// A piece of the text: lines that nothing moves across (block directives and
/// excluded directives with their indented lines), a blank line, or a run of
/// entries.
pub enum Segment<E> {
    Barrier(usize, usize),
    Blank,
    Entries(E),
}

/// `YYYYMMDD` of a date `YYYY-MM-DD`.
pub open spec fn date_key(d: Seq<char>) -> u32 {
    (digits_value(d.take(4)) * 10000 + two_digit_value(d, 5) * 100 + two_digit_value(d, 8)) as u32
}

/// `a` comes before `b` in text order: at the first place where they differ,
/// `a` has the smaller character.
pub open spec fn text_less(a: Seq<char>, b: Seq<char>) -> bool {
    exists|i: int|
        0 <= i < a.len() && i < b.len() && a.take(i) == b.take(i) && (#[trigger] a[i] as int) < (
        b[i] as int)
}

/// The value of the digit `c`.
pub open spec fn dv(c: char) -> int {
    c as int - '0' as int
}

proof fn lemma_date_key_digits(d: Seq<char>)
    requires
        date_at(d, 0),
    ensures
        date_key(d) as int == dv(d[0]) * 10000000 + dv(d[1]) * 1000000 + dv(d[2]) * 100000 + dv(d[3])
            * 10000 + dv(d[5]) * 1000 + dv(d[6]) * 100 + dv(d[8]) * 10 + dv(d[9]),
{
    let y = d.take(4);
    assert(y.drop_last() =~= d.take(3));
    assert(d.take(3).drop_last() =~= d.take(2));
    assert(d.take(2).drop_last() =~= d.take(1));
    assert(d.take(1).drop_last() =~= d.take(0));
    assert(digits_value(d.take(0)) == 0);
    assert(digits_value(d.take(1)) == dv(d[0]));
    assert(digits_value(d.take(2)) == dv(d[0]) * 10 + dv(d[1]));
    assert(digits_value(d.take(3)) == (dv(d[0]) * 10 + dv(d[1])) * 10 + dv(d[2]));
    assert(digits_value(y) == ((dv(d[0]) * 10 + dv(d[1])) * 10 + dv(d[2])) * 10 + dv(d[3]));
}

/// Dates sort in calendar order: for two dates `YYYY-MM-DD`, the one written
/// earlier in text order has the smaller sort key, and equal dates have equal
/// keys.
pub proof fn law_date_key_calendar_order(d1: Seq<char>, d2: Seq<char>)
    requires
        date_at(d1, 0),
        date_at(d2, 0),
    ensures
        text_less(d1.take(10), d2.take(10)) ==> date_key(d1) < date_key(d2),
        d1.take(10) == d2.take(10) ==> date_key(d1) == date_key(d2),
{
    lemma_date_key_digits(d1);
    lemma_date_key_digits(d2);
    let a = d1.take(10);
    let b = d2.take(10);
    if text_less(a, b) {
        let i = choose|i: int|
            0 <= i < a.len() && i < b.len() && a.take(i) == b.take(i) && (#[trigger] a[i] as int) < (
            b[i] as int);
        assert forall|j: int| 0 <= j < i implies d1[j] == d2[j] by {
            assert(a.take(i)[j] == b.take(i)[j]);
        }
        assert(d1[i] == a[i] && d2[i] == b[i]);
        assert(i != 4 && i != 7);
    }
    if a == b {
        assert forall|j: int| 0 <= j < 10 implies d1[j] == d2[j] by {
            assert(a[j] == b[j]);
        }
    }
}


/// The date of a dated directive.
pub open spec fn line_date(p: LineParts<Seq<char>>) -> Option<Seq<char>> {
    match p {
        LineParts::TransactionHeader { date, .. } => Some(date),
        LineParts::Balance { date, .. } => Some(date),
        LineParts::Open { date, .. } => Some(date),
        LineParts::Close { date, .. } => Some(date),
        LineParts::Price { date, .. } => Some(date),
        LineParts::DateDirective { date, .. } => Some(date),
        _ => None,
    }
}

/// The directive type of a line, for exclusion from sorting.
pub open spec fn line_directive(p: LineParts<Seq<char>>) -> Option<SortableDirective> {
    match p {
        LineParts::TransactionHeader { .. } => Some(SortableDirective::Transaction),
        LineParts::Balance { .. } => Some(SortableDirective::Balance),
        LineParts::Open { .. } => Some(SortableDirective::Open),
        LineParts::Close { .. } => Some(SortableDirective::Close),
        LineParts::Price { .. } => Some(SortableDirective::Price),
        LineParts::DateDirective { keyword, .. } => keyword_directive(keyword),
        _ => None,
    }
}

pub open spec fn keyword_directive(k: Seq<char>) -> Option<SortableDirective> {
    if k == "pad"@ {
        Some(SortableDirective::Pad)
    } else if k == "note"@ {
        Some(SortableDirective::Note)
    } else if k == "document"@ {
        Some(SortableDirective::Document)
    } else if k == "event"@ {
        Some(SortableDirective::Event)
    } else if k == "custom"@ {
        Some(SortableDirective::Custom)
    } else if k == "query"@ {
        Some(SortableDirective::Query)
    } else if k == "commodity"@ {
        Some(SortableDirective::Commodity)
    } else {
        None
    }
}

/// Postings, metadata and indented comments belong to the entry above them.
pub open spec fn spec_is_continuation(p: LineParts<Seq<char>>) -> bool {
    match p {
        LineParts::Posting { .. } => true,
        LineParts::MetaItem { .. } => true,
        LineParts::Comment { indent, .. } => indent.len() > 0,
        _ => false,
    }
}

/// A dated directive is sorted under the type its keyword names, and by its
/// date; so is every dated line of the other kinds.
pub proof fn law_directive_kinds(d: SortableDirective, date: Seq<char>, rest: Seq<char>)
    ensures
        !(d is Transaction || d is Balance || d is Open || d is Close || d is Price) ==> line_directive(
            LineParts::DateDirective { date, keyword: d.spec_name(), rest },
        ) == Some(d),
        line_date(LineParts::DateDirective { date, keyword: d.spec_name(), rest }) == Some(date),
{
    reveal_strlit("pad");
    reveal_strlit("note");
    reveal_strlit("document");
    reveal_strlit("event");
    reveal_strlit("custom");
    reveal_strlit("query");
    reveal_strlit("commodity");
    assert("pad"@.len() == 3 && "note"@.len() == 4 && "document"@.len() == 8 && "event"@.len() == 5
        && "custom"@.len() == 6 && "query"@.len() == 5 && "commodity"@.len() == 9);
    assert("query"@[0] != "event"@[0]);
    assert("commodity"@[0] != "document"@[0]);
}

/// What may stand before what: with dates ascending an earlier date goes
/// first (descending, a later one); on one day times go in their order (or
/// the reverse), and an entry without a time goes before timed ones with
/// `Begin`, after them with `End`.
pub proof fn law_can_go_before_meaning(a: SortKey, b: SortKey, reverse: bool, timeless: TimelessPosition)
    requires
        a.date is Some,
        b.date is Some,
    ensures
        a.date.unwrap() < b.date.unwrap() ==> (can_go_before(a, b, reverse, timeless) <==> !reverse),
        a.date.unwrap() > b.date.unwrap() ==> (can_go_before(a, b, reverse, timeless) <==> reverse),
        a.date == b.date && a.time is Some && b.time is Some ==> (can_go_before(a, b, reverse, timeless)
            <==> (if reverse {
            a.time.unwrap() >= b.time.unwrap()
        } else {
            a.time.unwrap() <= b.time.unwrap()
        })),
        a.date == b.date && a.time is None && b.time is Some ==> (timeless is Begin ==> can_go_before(
            a,
            b,
            reverse,
            timeless,
        ) && !can_go_before(b, a, reverse, timeless)),
        a.date == b.date && a.time is None && b.time is Some ==> (timeless is End ==> !can_go_before(
            a,
            b,
            reverse,
            timeless,
        ) && can_go_before(b, a, reverse, timeless)),
{
}


pub open spec fn is_excluded(p: LineParts<Seq<char>>, exclude: Seq<SortableDirective>) -> bool {
    match line_directive(p) {
        Some(d) => exclude.contains(d),
        None => false,
    }
}

/// The state of the split into segments: the segments so far, the entries
/// of the current run, the entry being read and whether it is a barrier.
pub open spec fn flush_entries(segs: Seq<Segment<Seq<Entry>>>, ents: Seq<Entry>) -> Seq<Segment<Seq<Entry>>> {
    if ents.len() > 0 {
        segs.push(Segment::Entries(ents))
    } else {
        segs
    }
}

pub open spec fn flush_current(
    segs: Seq<Segment<Seq<Entry>>>,
    ents: Seq<Entry>,
    cur: Option<Entry>,
    barrier: bool,
) -> (Seq<Segment<Seq<Entry>>>, Seq<Entry>) {
    match cur {
        Some(e) => if barrier {
            (flush_entries(segs, ents).push(Segment::Barrier(e.first, e.end)), seq![])
        } else {
            (segs, ents.push(e))
        },
        None => (segs, ents),
    }
}

/// The split state after the first `k` lines.
pub open spec fn segment_state(ls: Seq<Seq<char>>, k: int, exclude: Seq<SortableDirective>) -> (
    Seq<Segment<Seq<Entry>>>,
    Seq<Entry>,
    Option<Entry>,
    bool,
)
    decreases k,
{
    if k <= 0 {
        (seq![], seq![], None, false)
    } else {
        let (segs, ents, cur, barrier) = segment_state(ls, k - 1, exclude);
        let i = k - 1;
        let p = spec_parse_line(ls[i]);
        if p is BlankLine || p is BlockDirective {
            let (segs2, ents2) = flush_current(segs, ents, cur, barrier);
            let seg = if p is BlankLine {
                Segment::Blank
            } else {
                Segment::Barrier(i as usize, k as usize)
            };
            (flush_entries(segs2, ents2).push(seg), seq![], None, false)
        } else if spec_is_continuation(p) {
            match cur {
                Some(e) => {
                    let key = match p {
                        LineParts::MetaItem { key, value, .. } => if key == "time"@ {
                            SortKey { date: e.key.date, time: time_key(value) }
                        } else {
                            e.key
                        },
                        _ => e.key,
                    };
                    (segs, ents, Some(Entry { first: e.first, end: k as usize, key }), barrier)
                },
                None => (
                    segs,
                    ents,
                    Some(
                        Entry {
                            first: i as usize,
                            end: k as usize,
                            key: SortKey { date: None, time: None },
                        },
                    ),
                    false,
                ),
            }
        } else {
            let (segs2, ents2) = flush_current(segs, ents, cur, barrier);
            let date = match line_date(p) {
                Some(d) => Some(date_key(d)),
                None => None,
            };
            let e = Entry { first: i as usize, end: k as usize, key: SortKey { date, time: None } };
            if is_excluded(p, exclude) {
                (flush_entries(segs2, ents2), seq![], Some(e), true)
            } else {
                (segs2, ents2, Some(e), false)
            }
        }
    }
}

/// The segments of the lines.
pub open spec fn spec_parse_segments(ls: Seq<Seq<char>>, exclude: Seq<SortableDirective>) -> Seq<
    Segment<Seq<Entry>>,
> {
    let (segs, ents, cur, barrier) = segment_state(ls, ls.len() as int, exclude);
    let (segs2, ents2) = flush_current(segs, ents, cur, barrier);
    flush_entries(segs2, ents2)
}

pub open spec fn seg_view(s: Segment<Vec<Entry>>) -> Segment<Seq<Entry>> {
    match s {
        Segment::Barrier(a, b) => Segment::Barrier(a, b),
        Segment::Blank => Segment::Blank,
        Segment::Entries(v) => Segment::Entries(v@),
    }
}

pub open spec fn segs_view(v: Seq<Segment<Vec<Entry>>>) -> Seq<Segment<Seq<Entry>>> {
    v.map_values(|s: Segment<Vec<Entry>>| seg_view(s))
}

pub open spec fn entries_ok(es: Seq<Entry>, n: int) -> bool {
    forall|j: int| 0 <= j < es.len() ==> (#[trigger] es[j]).first <= es[j].end <= n
}

/// Every segment's lines lie within the first `n` lines.
pub open spec fn segs_ok(segs: Seq<Segment<Seq<Entry>>>, n: int) -> bool {
    forall|j: int|
        0 <= j < segs.len() ==> match #[trigger] segs[j] {
            Segment::Barrier(a, b) => a <= b <= n,
            Segment::Blank => true,
            Segment::Entries(es) => entries_ok(es, n),
        }
}

/// Whether `line` is an indented line that belongs to the entry above it.
fn is_continuation(line: &Line) -> (r: bool)
    ensures
        r == spec_is_continuation(line@),
{
    match line {
        Line::Posting { .. } => true,
        Line::MetaItem { .. } => true,
        Line::Comment { indent, .. } => indent.unicode_len() > 0,
        _ => false,
    }
}

fn date_key_exec(d: &str) -> (r: u32)
    requires
        date_at(d@, 0),
    ensures
        r == date_key(d@),
{
    let v = chars_of(d);
    assert(v@.subrange(0, 4) =~= d@.take(4));
    assert(all_digits(v@.subrange(0, 4))) by {
        assert forall|j: int| 0 <= j < 4 implies is_digit(#[trigger] v@.subrange(0, 4)[j]) by {
            assert(v@.subrange(0, 4)[j] == v@[j]);
        }
    }
    let y = digits_value_exec(&v, 0, 4);
    proof {
        lemma_digits_value_bound(v@.subrange(0, 4));
        assert(pow10(4) == 10000) by {
            reveal_with_fuel(pow10, 5);
        }
    }
    let m = two_digit_value_exec(&v, 5);
    let day = two_digit_value_exec(&v, 8);
    (y as u32) * 10000 + m * 100 + day
}

/// The key date of a dated directive.
fn extract_date(line: &Line) -> (r: Option<u32>)
    requires
        line_date(line@) matches Some(d) ==> date_at(d, 0),
    ensures
        r == (match line_date(line@) {
            Some(d) => Some(date_key(d)),
            None => None,
        }),
{
    match line {
        Line::TransactionHeader { date, .. } => Some(date_key_exec(date)),
        Line::Balance { date, .. } => Some(date_key_exec(date)),
        Line::Open { date, .. } => Some(date_key_exec(date)),
        Line::Close { date, .. } => Some(date_key_exec(date)),
        Line::Price { date, .. } => Some(date_key_exec(date)),
        Line::DateDirective { date, .. } => Some(date_key_exec(date)),
        _ => None,
    }
}

pub(crate) fn line_directive_exec(line: &Line) -> (r: Option<SortableDirective>)
    ensures
        r == line_directive(line@),
{
    match line {
        Line::TransactionHeader { .. } => Some(SortableDirective::Transaction),
        Line::Balance { .. } => Some(SortableDirective::Balance),
        Line::Open { .. } => Some(SortableDirective::Open),
        Line::Close { .. } => Some(SortableDirective::Close),
        Line::Price { .. } => Some(SortableDirective::Price),
        Line::DateDirective { keyword, .. } => {
            let k = chars_of(keyword);
            if chars_eq_str(&k, "pad") {
                Some(SortableDirective::Pad)
            } else if chars_eq_str(&k, "note") {
                Some(SortableDirective::Note)
            } else if chars_eq_str(&k, "document") {
                Some(SortableDirective::Document)
            } else if chars_eq_str(&k, "event") {
                Some(SortableDirective::Event)
            } else if chars_eq_str(&k, "custom") {
                Some(SortableDirective::Custom)
            } else if chars_eq_str(&k, "query") {
                Some(SortableDirective::Query)
            } else if chars_eq_str(&k, "commodity") {
                Some(SortableDirective::Commodity)
            } else {
                None
            }
        },
        _ => None,
    }
}

fn contains_directive(v: &Vec<SortableDirective>, d: SortableDirective) -> (r: bool)
    ensures
        r == v@.contains(d),
{
    let mut k: usize = 0;
    while k < v.len()
        invariant
            k <= v@.len(),
            forall|i: int| 0 <= i < k ==> v@[i] != d,
        decreases v@.len() - k,
    {
        if v[k] == d {
            return true;
        }
        k = k + 1;
    }
    false
}

fn flush_entries_exec(segs: &mut Vec<Segment<Vec<Entry>>>, ents: Vec<Entry>, n: usize)
    requires
        segs_ok(segs_view(old(segs)@), n as int),
        entries_ok(ents@, n as int),
    ensures
        segs_view(final(segs)@) == flush_entries(segs_view(old(segs)@), ents@),
        segs_ok(segs_view(final(segs)@), n as int),
{
    let ghost e = ents@;
    if ents.len() > 0 {
        segs.push(Segment::Entries(ents));
        assert(segs_view(final(segs)@) =~= segs_view(old(segs)@).push(Segment::Entries(e)));
        assert forall|j: int| 0 <= j < segs_view(final(segs)@).len() implies match #[trigger] segs_view(final(segs)@)[j] {
            Segment::Barrier(a, b) => a <= b <= n,
            Segment::Blank => true,
            Segment::Entries(es) => entries_ok(es, n as int),
        } by {
            if j < segs_view(old(segs)@).len() {
                assert(segs_view(final(segs)@)[j] == segs_view(old(segs)@)[j]);
            }
        }
    }
}

fn push_segment(segs: &mut Vec<Segment<Vec<Entry>>>, seg: Segment<Vec<Entry>>, n: usize)
    requires
        segs_ok(segs_view(old(segs)@), n as int),
        segs_ok(seq![seg_view(seg)], n as int),
    ensures
        segs_view(final(segs)@) == segs_view(old(segs)@).push(seg_view(seg)),
        segs_ok(segs_view(final(segs)@), n as int),
{
    let ghost sv = seg_view(seg);
    segs.push(seg);
    assert(segs_view(final(segs)@) =~= segs_view(old(segs)@).push(sv));
    assert forall|j: int| 0 <= j < segs_view(final(segs)@).len() implies match #[trigger] segs_view(final(segs)@)[j] {
        Segment::Barrier(a, b) => a <= b <= n,
        Segment::Blank => true,
        Segment::Entries(es) => entries_ok(es, n as int),
    } by {
        if j < segs_view(old(segs)@).len() {
            assert(segs_view(final(segs)@)[j] == segs_view(old(segs)@)[j]);
        } else {
            assert(seq![sv][0] == sv);
        }
    }
}

fn flush_current_exec(
    segs: &mut Vec<Segment<Vec<Entry>>>,
    ents: Vec<Entry>,
    cur: Option<Entry>,
    barrier: bool,
    n: usize,
) -> (r: Vec<Entry>)
    requires
        segs_ok(segs_view(old(segs)@), n as int),
        entries_ok(ents@, n as int),
        cur matches Some(e) ==> e.first <= e.end <= n,
    ensures
        (segs_view(final(segs)@), r@) == flush_current(segs_view(old(segs)@), ents@, cur, barrier),
        segs_ok(segs_view(final(segs)@), n as int),
        entries_ok(r@, n as int),
{
    match cur {
        Some(e) => {
            if barrier {
                flush_entries_exec(segs, ents, n);
                push_segment(segs, Segment::Barrier(e.first, e.end), n);
                Vec::new()
            } else {
                let mut ents = ents;
                let ghost before = ents@;
                ents.push(e);
                assert forall|j: int| 0 <= j < ents@.len() implies (#[trigger] ents@[j]).first
                    <= ents@[j].end <= n by {
                    if j < before.len() {
                        assert(ents@[j] == before[j]);
                    }
                }
                ents
            }
        },
        None => ents,
    }
}

proof fn lemma_parsed_date(s: Seq<char>)
    ensures
        line_date(spec_parse_line(s)) matches Some(d) ==> date_at(d, 0),
{
    reveal(spec_parse_line);
    let p = spec_parse_line(s);
    if line_date(p) is Some {
        assert(date_at(s, 0));
        assert(s.subrange(0, 10).subrange(0, 10) =~= s.subrange(0, 10));
    }
}

/// Split the lines into segments: blank lines, barriers and runs of entries.
fn parse_segments(lines: &Vec<String>, exclude: &Vec<SortableDirective>) -> (r: Vec<Segment<Vec<Entry>>>)
    ensures
        segs_view(r@) == spec_parse_segments(views(lines@), exclude@),
        segs_ok(segs_view(r@), lines@.len() as int),
{
    let n = lines.len();
    let ghost ls = views(lines@);
    let mut segs: Vec<Segment<Vec<Entry>>> = Vec::new();
    let mut ents: Vec<Entry> = Vec::new();
    let mut cur: Option<Entry> = None;
    let mut barrier = false;
    let mut k: usize = 0;
    assert(segs_view(segs@) =~= Seq::<Segment<Seq<Entry>>>::empty());
    while k < n
        invariant
            k <= n,
            n == lines@.len(),
            ls == views(lines@),
            (segs_view(segs@), ents@, cur, barrier) == segment_state(ls, k as int, exclude@),
            segs_ok(segs_view(segs@), k as int),
            entries_ok(ents@, k as int),
            cur matches Some(e) ==> e.first < e.end == k,
        decreases n - k,
    {
        let p = parse_line(lines[k].as_str());
        assert(ls[k as int] == lines@[k as int]@);
        proof {
            lemma_parsed_date(lines@[k as int]@);
        }
        let k1 = k + 1;
        proof {
            assert forall|j: int| 0 <= j < segs_view(segs@).len() implies match #[trigger] segs_view(segs@)[j] {
                Segment::Barrier(a, b) => a <= b <= k1,
                Segment::Blank => true,
                Segment::Entries(es) => entries_ok(es, k1 as int),
            } by {
                let sj = segs_view(segs@)[j];
                match sj {
                    Segment::Entries(es) => {
                        assert(entries_ok(es, k as int));
                    },
                    _ => {},
                }
            }
        }
        let is_blank = matches!(p, Line::BlankLine);
        let is_block = matches!(p, Line::BlockDirective { .. });
        if is_blank || is_block {
            let ents2 = flush_current_exec(&mut segs, ents, cur, barrier, k1);
            flush_entries_exec(&mut segs, ents2, k1);
            let seg = if is_blank {
                Segment::Blank
            } else {
                Segment::Barrier(k, k1)
            };
            push_segment(&mut segs, seg, k1);
            ents = Vec::new();
            cur = None;
            barrier = false;
        } else if is_continuation(&p) {
            match cur {
                Some(e) => {
                    let mut key = e.key;
                    match &p {
                        Line::MetaItem { key: mk, value, .. } => {
                            let kc = chars_of(mk);
                            if chars_eq_str(&kc, "time") {
                                key = SortKey { date: e.key.date, time: time_key_exec(value) };
                            }
                        },
                        _ => {},
                    }
                    cur = Some(Entry { first: e.first, end: k1, key });
                },
                None => {
                    cur = Some(Entry { first: k, end: k1, key: SortKey { date: None, time: None } });
                    barrier = false;
                },
            }
        } else {
            let ents2 = flush_current_exec(&mut segs, ents, cur, barrier, k1);
            let date = extract_date(&p);
            let e = Entry { first: k, end: k1, key: SortKey { date, time: None } };
            let excluded = match line_directive_exec(&p) {
                Some(d) => contains_directive(exclude, d),
                None => false,
            };
            if excluded {
                flush_entries_exec(&mut segs, ents2, k1);
                ents = Vec::new();
                barrier = true;
            } else {
                ents = ents2;
                barrier = false;
            }
            cur = Some(e);
        }
        k = k1;
    }
    let ents2 = flush_current_exec(&mut segs, ents, cur, barrier, n);
    flush_entries_exec(&mut segs, ents2, n);
    segs
}

// ---------------------------------------------------------------------------
// Sorting only reorders
// ---------------------------------------------------------------------------

proof fn lemma_chain_back_desc(preds: Seq<Option<usize>>, idx: int)
    requires
        0 <= idx <= usize::MAX,
    ensures
        forall|i: int, j: int|
            0 <= i < j < chain_back(preds, idx).len() ==> chain_back(preds, idx)[i]
                > chain_back(preds, idx)[j],
        forall|i: int|
            0 <= i < chain_back(preds, idx).len() ==> (chain_back(preds, idx)[i] as int) <= idx,
    decreases idx,
{
    if 0 <= idx < preds.len() {
        match preds[idx] {
            Some(p) => if p < idx {
                lemma_chain_back_desc(preds, p as int);
                let c = chain_back(preds, idx);
                let t = chain_back(preds, p as int);
                assert(c =~= seq![idx as usize] + t);
                assert(c[0] == idx as usize);
                assert forall|i: int, j: int| 0 <= i < j < c.len() implies c[i] > c[j] by {
                    assert(c[j] == t[j - 1]);
                    assert((t[j - 1] as int) <= p);
                    if i > 0 {
                        assert(c[i] == t[i - 1]);
                    }
                }
                assert forall|i: int| 0 <= i < c.len() implies (c[i] as int) <= idx by {
                    if i > 0 {
                        assert(c[i] == t[i - 1]);
                    }
                }
            },
            None => {},
        }
    }
}

proof fn lemma_count_identity(k: int, x: usize)
    requires
        0 <= k <= usize::MAX + 1,
    ensures
        identity(k).to_multiset().count(x) == if (x as int) < k {
            1nat
        } else {
            0nat
        },
    decreases k,
{
    broadcast use vstd::seq_lib::group_to_multiset_ensures;
    broadcast use vstd::multiset::group_multiset_axioms;
    broadcast use vstd::multiset::group_multiset_properties;

    if k == 0 {
        assert(identity(0) =~= Seq::<usize>::empty());
        vstd::seq_lib::to_multiset_len(identity(0));
        vstd::multiset::lemma_multiset_empty_len(identity(0).to_multiset());
    } else {
        lemma_count_identity(k - 1, x);
        assert(identity(k) =~= identity(k - 1).push((k - 1) as usize));
    }
}

proof fn lemma_count_others(run: Seq<usize>, k: int, x: usize)
    requires
        0 <= k <= usize::MAX + 1,
    ensures
        others(run, k).to_multiset().count(x) == if (x as int) < k && !run.contains(x) {
            1nat
        } else {
            0nat
        },
    decreases k,
{
    broadcast use vstd::seq_lib::group_to_multiset_ensures;
    broadcast use vstd::multiset::group_multiset_axioms;
    broadcast use vstd::multiset::group_multiset_properties;

    if k == 0 {
        assert(others(run, 0) =~= Seq::<usize>::empty());
        vstd::seq_lib::to_multiset_len(others(run, 0));
        vstd::multiset::lemma_multiset_empty_len(others(run, 0).to_multiset());
    } else {
        lemma_count_others(run, k - 1, x);
    }
}

proof fn lemma_merge_ms(
    keys: Seq<SortKey>,
    s: Seq<usize>,
    u: Seq<usize>,
    reverse: bool,
    timeless: TimelessPosition,
)
    ensures
        merge(keys, s, u, reverse, timeless).to_multiset() == s.to_multiset().add(u.to_multiset()),
    decreases s.len() + u.len(),
{
    broadcast use vstd::multiset::group_multiset_axioms;

    if s.len() == 0 {
        vstd::seq_lib::to_multiset_len(s);
        vstd::multiset::lemma_multiset_empty_len(s.to_multiset());
    } else if u.len() == 0 {
        vstd::seq_lib::to_multiset_len(u);
        vstd::multiset::lemma_multiset_empty_len(u.to_multiset());
    } else if goes_first(keys, u[0], s[0], reverse, timeless) {
        lemma_merge_ms(keys, s, u.drop_first(), reverse, timeless);
        vstd::seq_lib::lemma_multiset_commutative(seq![u[0]], merge(keys, s, u.drop_first(), reverse, timeless));
        assert(u =~= seq![u[0]] + u.drop_first());
        vstd::seq_lib::lemma_multiset_commutative(seq![u[0]], u.drop_first());
    } else {
        lemma_merge_ms(keys, s.drop_first(), u, reverse, timeless);
        vstd::seq_lib::lemma_multiset_commutative(seq![s[0]], merge(keys, s.drop_first(), u, reverse, timeless));
        assert(s =~= seq![s[0]] + s.drop_first());
        vstd::seq_lib::lemma_multiset_commutative(seq![s[0]], s.drop_first());
    }
}

proof fn lemma_insertion_sort_ms(keys: Seq<SortKey>, u: Seq<usize>, reverse: bool, timeless: TimelessPosition)
    ensures
        insertion_sort(keys, u, reverse, timeless).to_multiset() == u.to_multiset(),
    decreases u.len(),
{
    broadcast use vstd::seq_lib::group_to_multiset_ensures;

    if u.len() == 0 {
    } else {
        lemma_insertion_sort_ms(keys, u.drop_last(), reverse, timeless);
        let s = insertion_sort(keys, u.drop_last(), reverse, timeless);
        lemma_insert_pos(keys, s, u.last(), reverse, timeless);
        assert(u =~= u.drop_last().push(u.last()));
    }
}

/// Sorting only reorders the entries: each position comes out exactly once.
pub proof fn law_sort_order_permutes(keys: Seq<SortKey>, reverse: bool, timeless: TimelessPosition)
    requires
        keys.len() <= usize::MAX,
    ensures
        sort_order(keys, reverse, timeless).to_multiset() == identity(keys.len() as int).to_multiset(),
{
    lemma_sort_order_perm(keys, reverse, timeless);
}

proof fn lemma_sort_order_perm(keys: Seq<SortKey>, reverse: bool, timeless: TimelessPosition)
    requires
        keys.len() <= usize::MAX,
    ensures
        sort_order(keys, reverse, timeless).to_multiset() == identity(keys.len() as int).to_multiset(),
{
    broadcast use vstd::multiset::group_multiset_axioms;
    broadcast use vstd::seq_lib::group_to_multiset_ensures;

    let n = keys.len() as int;
    let run = kept_run(keys, reverse, timeless);
    let rest = others(run, n);
    if n <= 1 || rest.len() == 0 {
        return ;
    }
    lemma_merge_ms(keys, run, insertion_sort(keys, rest, reverse, timeless), reverse, timeless);
    lemma_insertion_sort_ms(keys, rest, reverse, timeless);
    lemma_lis_state(keys, n, reverse, timeless);
    let (tails, preds) = lis_state(keys, n, reverse, timeless);
    let c = chain_back(preds, tails.last() as int);
    lemma_chain_back_desc(preds, tails.last() as int);
    assert(c.no_duplicates());
    c.lemma_multiset_has_no_duplicates();
    c.lemma_reverse_to_multiset();
    assert(run == c.reverse());
    let o = sort_order(keys, reverse, timeless);
    assert forall|x: usize| o.to_multiset().count(x) == identity(n).to_multiset().count(x) by {
        lemma_count_identity(n, x);
        lemma_count_others(run, n, x);
        assert(run.contains(x) <==> c.contains(x)) by {
            if run.contains(x) {
                let w = choose|w: int| 0 <= w < run.len() && run[w] == x;
                assert(c[c.len() - 1 - w] == x);
            }
            if c.contains(x) {
                let w = choose|w: int| 0 <= w < c.len() && c[w] == x;
                assert(run[c.len() - 1 - w] == x);
            }
        }
        if c.contains(x) {
            let w = choose|w: int| 0 <= w < c.len() && c[w] == x;
            assert((x as int) <= tails.last());
            assert((tails.last() as int) < n);
            assert(c.to_multiset().contains(x));
        } else {
            assert(c.to_multiset().count(x) == 0);
        }
    }
    assert(o.to_multiset() =~= identity(n).to_multiset());
}

// ---------------------------------------------------------------------------
// Sorting sorts
// ---------------------------------------------------------------------------

/// Every entry has a date and entries without a time have a fixed place in
/// their day: `can_go_before` is then a total preorder.
pub open spec fn total_order_case(keys: Seq<SortKey>, timeless: TimelessPosition) -> bool {
    &&& !(timeless is Keep)
    &&& forall|k: int| 0 <= k < keys.len() ==> (#[trigger] keys[k]).date is Some
}

/// `o` lists entries each of which may stand before every later one.
pub open spec fn sorted_by(keys: Seq<SortKey>, o: Seq<usize>, reverse: bool, timeless: TimelessPosition) -> bool {
    forall|i: int, j: int|
        0 <= i < j < o.len() ==> can_go_before(
            #[trigger] keys[o[i] as int],
            #[trigger] keys[o[j] as int],
            reverse,
            timeless,
        )
}

proof fn lemma_cgb_total(a: SortKey, b: SortKey, reverse: bool, timeless: TimelessPosition)
    requires
        a.date is Some,
        b.date is Some,
        !(timeless is Keep),
    ensures
        can_go_before(a, b, reverse, timeless) || can_go_before(b, a, reverse, timeless),
        sorts_before(a, b, reverse, timeless) == !can_go_before(b, a, reverse, timeless),
{
}

proof fn lemma_cgb_trans(a: SortKey, b: SortKey, c: SortKey, reverse: bool, timeless: TimelessPosition)
    requires
        a.date is Some,
        b.date is Some,
        c.date is Some,
        !(timeless is Keep),
        can_go_before(a, b, reverse, timeless),
        can_go_before(b, c, reverse, timeless),
    ensures
        can_go_before(a, c, reverse, timeless),
{
}

/// The predicate of the binary search holds on a prefix of sorted tails.
proof fn lemma_pred_prefix(
    keys: Seq<SortKey>,
    tails: Seq<usize>,
    x: SortKey,
    i: int,
    j: int,
    reverse: bool,
    timeless: TimelessPosition,
)
    requires
        total_order_case(keys, timeless),
        x.date is Some,
        indices_below(tails, keys.len() as int),
        sorted_by(keys, tails, reverse, timeless),
        0 <= i <= j < tails.len(),
        can_go_before(keys[tails[j] as int], x, reverse, timeless),
    ensures
        can_go_before(keys[tails[i] as int], x, reverse, timeless),
{
    if i < j {
        assert(keys[tails[i] as int].date is Some);
        assert(keys[tails[j] as int].date is Some);
        lemma_cgb_trans(keys[tails[i] as int], keys[tails[j] as int], x, reverse, timeless);
    }
}

proof fn lemma_search_exact(
    keys: Seq<SortKey>,
    tails: Seq<usize>,
    x: SortKey,
    base: int,
    size: int,
    reverse: bool,
    timeless: TimelessPosition,
)
    requires
        total_order_case(keys, timeless),
        x.date is Some,
        indices_below(tails, keys.len() as int),
        sorted_by(keys, tails, reverse, timeless),
        0 <= base,
        1 <= size,
        base + size <= tails.len(),
        base == 0 || can_go_before(keys[tails[base] as int], x, reverse, timeless),
        forall|j: int|
            base + size <= j < tails.len() ==> !can_go_before(
                #[trigger] keys[tails[j] as int],
                x,
                reverse,
                timeless,
            ),
    ensures
        ({
            let b = search_from(keys, tails, x, base, size, reverse, timeless);
            &&& base <= b < base + size
            &&& (b == 0 || can_go_before(keys[tails[b] as int], x, reverse, timeless))
            &&& forall|j: int|
                b + 1 <= j < tails.len() ==> !can_go_before(
                    #[trigger] keys[tails[j] as int],
                    x,
                    reverse,
                    timeless,
                )
        }),
    decreases size,
{
    if size > 1 {
        let half = size / 2;
        let mid = base + half;
        if can_go_before(keys[tails[mid] as int], x, reverse, timeless) {
            lemma_search_exact(keys, tails, x, mid, size - half, reverse, timeless);
        } else {
            assert forall|j: int| base + (size - half) <= j < tails.len() implies !can_go_before(
                #[trigger] keys[tails[j] as int],
                x,
                reverse,
                timeless,
            ) by {
                if can_go_before(keys[tails[j] as int], x, reverse, timeless) {
                    lemma_pred_prefix(keys, tails, x, mid, j, reverse, timeless);
                }
            }
            lemma_search_exact(keys, tails, x, base, size - half, reverse, timeless);
        }
    }
}

/// On sorted tails the binary search finds the exact end of the prefix of
/// tails that may stand before `x`.
proof fn lemma_partition_point_exact(
    keys: Seq<SortKey>,
    tails: Seq<usize>,
    x: SortKey,
    reverse: bool,
    timeless: TimelessPosition,
)
    requires
        total_order_case(keys, timeless),
        x.date is Some,
        indices_below(tails, keys.len() as int),
        sorted_by(keys, tails, reverse, timeless),
    ensures
        ({
            let r = partition_point(keys, tails, x, reverse, timeless);
            &&& 0 <= r <= tails.len()
            &&& forall|j: int|
                0 <= j < r ==> can_go_before(#[trigger] keys[tails[j] as int], x, reverse, timeless)
            &&& forall|j: int|
                r <= j < tails.len() ==> !can_go_before(
                    #[trigger] keys[tails[j] as int],
                    x,
                    reverse,
                    timeless,
                )
        }),
{
    if tails.len() > 0 {
        lemma_search_exact(keys, tails, x, 0, tails.len() as int, reverse, timeless);
        let b = search_from(keys, tails, x, 0, tails.len() as int, reverse, timeless);
        let r = partition_point(keys, tails, x, reverse, timeless);
        assert forall|j: int| 0 <= j < r implies can_go_before(
            #[trigger] keys[tails[j] as int],
            x,
            reverse,
            timeless,
        ) by {
            lemma_pred_prefix(keys, tails, x, j, b, reverse, timeless);
        }
    }
}

/// The patience sort's state is sorted: its tails, and each entry after its
/// predecessor.
pub open spec fn lis_sorted(
    keys: Seq<SortKey>,
    tails: Seq<usize>,
    preds: Seq<Option<usize>>,
    reverse: bool,
    timeless: TimelessPosition,
) -> bool {
    &&& sorted_by(keys, tails, reverse, timeless)
    &&& forall|k: int|
        0 <= k < preds.len() ==> (#[trigger] preds[k] matches Some(p) ==> can_go_before(
            keys[p as int],
            keys[k],
            reverse,
            timeless,
        ))
}

proof fn lemma_lis_sorted(keys: Seq<SortKey>, i: int, reverse: bool, timeless: TimelessPosition)
    requires
        total_order_case(keys, timeless),
        0 <= i <= keys.len(),
        keys.len() <= usize::MAX,
    ensures
        lis_sorted(
            keys,
            lis_state(keys, i, reverse, timeless).0,
            lis_state(keys, i, reverse, timeless).1,
            reverse,
            timeless,
        ),
    decreases i,
{
    if i > 0 {
        lemma_lis_sorted(keys, i - 1, reverse, timeless);
        lemma_lis_state(keys, i - 1, reverse, timeless);
        let (tails, preds) = lis_state(keys, i - 1, reverse, timeless);
        let x = keys[i - 1];
        assert(x.date is Some);
        assert(indices_below(tails, keys.len() as int));
        lemma_partition_point_exact(keys, tails, x, reverse, timeless);
        let pos = partition_point(keys, tails, x, reverse, timeless);
        let (t2, p2) = lis_state(keys, i, reverse, timeless);
        assert forall|a: int, b: int| 0 <= a < b < t2.len() implies can_go_before(
            #[trigger] keys[t2[a] as int],
            #[trigger] keys[t2[b] as int],
            reverse,
            timeless,
        ) by {
            if a == pos {
                assert(t2[a] == (i - 1) as usize);
                assert(t2[b] == tails[b]);
                let y = keys[tails[b] as int];
                let z = keys[tails[pos] as int];
                assert(!can_go_before(z, x, reverse, timeless));
                lemma_cgb_total(z, x, reverse, timeless);
                assert(y.date is Some);
                assert(z.date is Some);
                assert(can_go_before(keys[tails[pos] as int], keys[tails[b] as int], reverse, timeless));
                lemma_cgb_trans(x, z, y, reverse, timeless);
            } else if b == pos {
                assert(t2[b] == (i - 1) as usize);
                assert(t2[a] == tails[a]);
                assert(can_go_before(keys[tails[a] as int], x, reverse, timeless));
            } else {
                assert(t2[a] == tails[a]);
                assert(t2[b] == tails[b]);
            }
        }
        assert forall|k: int| 0 <= k < p2.len() implies (#[trigger] p2[k] matches Some(p) ==> can_go_before(
            keys[p as int],
            keys[k],
            reverse,
            timeless,
        )) by {
            if k < i - 1 {
                assert(p2[k] == preds[k]);
            } else if pos > 0 {
                assert(can_go_before(keys[tails[pos - 1] as int], x, reverse, timeless));
            }
        }
    }
}

proof fn lemma_chain_sorted(
    keys: Seq<SortKey>,
    preds: Seq<Option<usize>>,
    idx: int,
    reverse: bool,
    timeless: TimelessPosition,
)
    requires
        total_order_case(keys, timeless),
        0 <= idx <= usize::MAX,
        preds.len() <= keys.len(),
        forall|k: int|
            0 <= k < preds.len() ==> (#[trigger] preds[k] matches Some(p) ==> p < k
                && can_go_before(keys[p as int], keys[k], reverse, timeless)),
    ensures
        forall|a: int, b: int|
            0 <= a < b < chain_back(preds, idx).len() ==> can_go_before(
                #[trigger] keys[chain_back(preds, idx)[b] as int],
                #[trigger] keys[chain_back(preds, idx)[a] as int],
                reverse,
                timeless,
            ),
    decreases idx,
{
    if 0 <= idx < preds.len() {
        match preds[idx] {
            Some(p) => if p < idx {
                lemma_chain_sorted(keys, preds, p as int, reverse, timeless);
                lemma_chain_back_desc(preds, p as int);
                let c = chain_back(preds, idx);
                let t = chain_back(preds, p as int);
                assert(c =~= seq![idx as usize] + t);
                assert forall|a: int, b: int| 0 <= a < b < c.len() implies can_go_before(
                    #[trigger] keys[c[b] as int],
                    #[trigger] keys[c[a] as int],
                    reverse,
                    timeless,
                ) by {
                    assert(c[b] == t[b - 1]);
                    if a > 0 {
                        assert(c[a] == t[a - 1]);
                    } else {
                        assert(c[a] == idx as usize);
                        assert(can_go_before(keys[p as int], keys[idx], reverse, timeless));
                        if b > 1 {
                            assert(t[0] == p);
                            assert(can_go_before(keys[t[b - 1] as int], keys[t[0] as int], reverse, timeless));
                            assert((t[b - 1] as int) < keys.len()) by {
                                lemma_chain_back_below(preds, p as int);
                            }
                            assert(keys[t[b - 1] as int].date is Some);
                            lemma_cgb_trans(keys[t[b - 1] as int], keys[p as int], keys[idx], reverse, timeless);
                        } else {
                            assert(t[0] == p);
                        }
                    }
                }
            },
            None => {},
        }
    }
}

proof fn lemma_insert_pos_props(
    keys: Seq<SortKey>,
    sorted: Seq<usize>,
    x: usize,
    reverse: bool,
    timeless: TimelessPosition,
)
    ensures
        ({
            let p = insert_pos(keys, sorted, x, reverse, timeless);
            &&& 0 <= p <= sorted.len()
            &&& forall|k: int|
                p <= k < sorted.len() ==> sorts_before(
                    keys[x as int],
                    #[trigger] keys[sorted[k] as int],
                    reverse,
                    timeless,
                )
            &&& (p == 0 || !sorts_before(keys[x as int], keys[sorted[p - 1] as int], reverse, timeless))
        }),
    decreases sorted.len(),
{
    if sorted.len() > 0 {
        lemma_insert_pos_props(keys, sorted.drop_last(), x, reverse, timeless);
        let p = insert_pos(keys, sorted, x, reverse, timeless);
        if sorts_before(keys[x as int], keys[sorted.last() as int], reverse, timeless) {
            assert forall|k: int| p <= k < sorted.len() implies sorts_before(
                keys[x as int],
                #[trigger] keys[sorted[k] as int],
                reverse,
                timeless,
            ) by {
                if k < sorted.len() - 1 {
                    assert(sorted[k] == sorted.drop_last()[k]);
                }
            }
            if p > 0 {
                assert(sorted[p - 1] == sorted.drop_last()[p - 1]);
            }
        }
    }
}

proof fn lemma_insertion_sorted(keys: Seq<SortKey>, u: Seq<usize>, reverse: bool, timeless: TimelessPosition)
    requires
        total_order_case(keys, timeless),
        indices_below(u, keys.len() as int),
    ensures
        sorted_by(keys, insertion_sort(keys, u, reverse, timeless), reverse, timeless),
    decreases u.len(),
{
    if u.len() > 0 {
        assert(indices_below(u.drop_last(), keys.len() as int));
        lemma_insertion_sorted(keys, u.drop_last(), reverse, timeless);
        lemma_insertion_sort_below(keys, u.drop_last(), reverse, timeless, keys.len() as int);
        let s = insertion_sort(keys, u.drop_last(), reverse, timeless);
        let x = u.last();
        assert((x as int) < keys.len()) by {
            assert(u[u.len() - 1] == x);
        }
        lemma_insert_pos_props(keys, s, x, reverse, timeless);
        let p = insert_pos(keys, s, x, reverse, timeless);
        let r = s.insert(p, x);
        let kx = keys[x as int];
        assert(kx.date is Some);
        assert forall|a: int, b: int| 0 <= a < b < r.len() implies can_go_before(
            #[trigger] keys[r[a] as int],
            #[trigger] keys[r[b] as int],
            reverse,
            timeless,
        ) by {
            if a < p && b < p {
                assert(r[a] == s[a] && r[b] == s[b]);
            } else if a > p && b > p {
                assert(r[a] == s[a - 1] && r[b] == s[b - 1]);
            } else if a < p && b > p {
                assert(r[a] == s[a] && r[b] == s[b - 1]);
            } else if a == p {
                assert(r[a] == x && r[b] == s[b - 1]);
                let y = keys[s[b - 1] as int];
                assert(y.date is Some);
                assert(sorts_before(kx, y, reverse, timeless));
                lemma_cgb_total(kx, y, reverse, timeless);
                lemma_cgb_total(y, kx, reverse, timeless);
            } else {
                assert(b == p);
                assert(r[a] == s[a] && r[b] == x);
                let y = keys[s[a] as int];
                let z = keys[s[p - 1] as int];
                assert(y.date is Some);
                assert(z.date is Some);
                lemma_cgb_total(kx, z, reverse, timeless);
                lemma_cgb_total(z, kx, reverse, timeless);
                assert(can_go_before(z, kx, reverse, timeless));
                if a < p - 1 {
                    assert(can_go_before(y, z, reverse, timeless));
                    lemma_cgb_trans(y, z, kx, reverse, timeless);
                }
            }
        }
    }
}

proof fn lemma_merge_contains(
    keys: Seq<SortKey>,
    s: Seq<usize>,
    u: Seq<usize>,
    y: usize,
    reverse: bool,
    timeless: TimelessPosition,
)
    ensures
        merge(keys, s, u, reverse, timeless).contains(y) ==> s.contains(y) || u.contains(y),
{
    broadcast use vstd::seq_lib::group_to_multiset_ensures;
    broadcast use vstd::multiset::group_multiset_axioms;

    lemma_merge_ms(keys, s, u, reverse, timeless);
    let m = merge(keys, s, u, reverse, timeless);
    if m.contains(y) {
        assert(m.to_multiset().count(y) > 0);
        assert(s.to_multiset().add(u.to_multiset()).count(y) == s.to_multiset().count(y)
            + u.to_multiset().count(y));
        assert(s.to_multiset().count(y) > 0 || u.to_multiset().count(y) > 0);
    }
}

proof fn lemma_merge_sorted(
    keys: Seq<SortKey>,
    s: Seq<usize>,
    u: Seq<usize>,
    reverse: bool,
    timeless: TimelessPosition,
)
    requires
        total_order_case(keys, timeless),
        indices_below(s, keys.len() as int),
        indices_below(u, keys.len() as int),
        sorted_by(keys, s, reverse, timeless),
        sorted_by(keys, u, reverse, timeless),
    ensures
        sorted_by(keys, merge(keys, s, u, reverse, timeless), reverse, timeless),
    decreases s.len() + u.len(),
{
    if s.len() > 0 && u.len() > 0 {
        let ks0 = keys[s[0] as int];
        let ku0 = keys[u[0] as int];
        assert(ks0.date is Some);
        assert(ku0.date is Some);
        let takes_u = goes_first(keys, u[0], s[0], reverse, timeless);
        let (h, s2, u2) = if takes_u {
            (u[0], s, u.drop_first())
        } else {
            (s[0], s.drop_first(), u)
        };
        assert(indices_below(s2, keys.len() as int));
        assert(indices_below(u2, keys.len() as int));
        assert(sorted_by(keys, s2, reverse, timeless)) by {
            if !takes_u {
                assert forall|i: int, j: int| 0 <= i < j < s2.len() implies can_go_before(
                    #[trigger] keys[s2[i] as int],
                    #[trigger] keys[s2[j] as int],
                    reverse,
                    timeless,
                ) by {
                    assert(s2[i] == s[i + 1] && s2[j] == s[j + 1]);
                }
            }
        }
        assert(sorted_by(keys, u2, reverse, timeless)) by {
            if takes_u {
                assert forall|i: int, j: int| 0 <= i < j < u2.len() implies can_go_before(
                    #[trigger] keys[u2[i] as int],
                    #[trigger] keys[u2[j] as int],
                    reverse,
                    timeless,
                ) by {
                    assert(u2[i] == u[i + 1] && u2[j] == u[j + 1]);
                }
            }
        }
        lemma_merge_sorted(keys, s2, u2, reverse, timeless);
        let rest = merge(keys, s2, u2, reverse, timeless);
        let kh = keys[h as int];
        if !takes_u {
            lemma_cgb_total(ku0, ks0, reverse, timeless);
        }
        assert(can_go_before(kh, if takes_u { ks0 } else { ku0 }, reverse, timeless));
        assert forall|y: usize| rest.contains(y) implies can_go_before(kh, keys[y as int], reverse, timeless) by {
            lemma_merge_contains(keys, s2, u2, y, reverse, timeless);
            if s2.contains(y) {
                let w = choose|w: int| 0 <= w < s2.len() && s2[w] == y;
                assert(keys[y as int].date is Some);
                if takes_u {
                    if w > 0 {
                        assert(can_go_before(ks0, keys[s[w] as int], reverse, timeless));
                        lemma_cgb_trans(kh, ks0, keys[y as int], reverse, timeless);
                    }
                } else {
                    assert(can_go_before(keys[s[0] as int], keys[s[w + 1] as int], reverse, timeless));
                }
            } else {
                let w = choose|w: int| 0 <= w < u2.len() && u2[w] == y;
                assert(keys[y as int].date is Some);
                if takes_u {
                    assert(can_go_before(keys[u[0] as int], keys[u[w + 1] as int], reverse, timeless));
                } else {
                    if w > 0 {
                        assert(can_go_before(ku0, keys[u[w] as int], reverse, timeless));
                        lemma_cgb_trans(kh, ku0, keys[y as int], reverse, timeless);
                    }
                }
            }
        }
        let m = merge(keys, s, u, reverse, timeless);
        assert(m == seq![h] + rest);
        assert forall|i: int, j: int| 0 <= i < j < m.len() implies can_go_before(
            #[trigger] keys[m[i] as int],
            #[trigger] keys[m[j] as int],
            reverse,
            timeless,
        ) by {
            assert(m[j] == rest[j - 1]);
            if i == 0 {
                assert(m[0] == h);
                assert(rest.contains(rest[j - 1]));
            } else {
                assert(m[i] == rest[i - 1]);
            }
        }
    }
}

/// Entries tied in the order keep the order they came in.
pub open spec fn stable(keys: Seq<SortKey>, o: Seq<usize>, reverse: bool, timeless: TimelessPosition) -> bool {
    forall|i: int, j: int|
        0 <= i < j < o.len() && same_place(
            #[trigger] keys[o[i] as int],
            #[trigger] keys[o[j] as int],
            reverse,
            timeless,
        ) ==> o[i] < o[j]
}

/// Positions that rise.
pub open spec fn rising(o: Seq<usize>) -> bool {
    forall|i: int, j: int| 0 <= i < j < o.len() ==> #[trigger] o[i] < #[trigger] o[j]
}

proof fn lemma_others_rising(run: Seq<usize>, k: int)
    requires
        k <= usize::MAX + 1,
    ensures
        rising(others(run, k)),
    decreases k,
{
    if k > 0 {
        lemma_others_rising(run, k - 1);
        lemma_others_below(run, k - 1);
        let o = others(run, k - 1);
        if !run.contains((k - 1) as usize) {
            let o2 = o.push((k - 1) as usize);
            assert forall|i: int, j: int| 0 <= i < j < o2.len() implies #[trigger] o2[i] < #[trigger] o2[j] by {
                if j == o.len() {
                    assert((o[i] as int) < k - 1);
                } else {
                    assert(o2[i] == o[i] && o2[j] == o[j]);
                }
            }
        }
    }
}

proof fn lemma_others_excludes(run: Seq<usize>, k: int, x: usize)
    ensures
        others(run, k).contains(x) ==> !run.contains(x),
    decreases k,
{
    if k > 0 {
        lemma_others_excludes(run, k - 1, x);
        let o = others(run, k - 1);
        let o2 = o.push((k - 1) as usize);
        if !run.contains((k - 1) as usize) && o2.contains(x) && !o.contains(x) {
            let w = choose|w: int| 0 <= w < o2.len() && o2[w] == x;
            if w < o.len() {
                assert(o[w] == x);
            }
        }
    }
}

proof fn lemma_insertion_stable(keys: Seq<SortKey>, u: Seq<usize>, reverse: bool, timeless: TimelessPosition)
    requires
        total_order_case(keys, timeless),
        indices_below(u, keys.len() as int),
        rising(u),
    ensures
        stable(keys, insertion_sort(keys, u, reverse, timeless), reverse, timeless),
    decreases u.len(),
{
    broadcast use vstd::seq_lib::group_to_multiset_ensures;

    if u.len() > 0 {
        let v = u.drop_last();
        let x = u.last();
        assert(indices_below(v, keys.len() as int));
        assert(rising(v)) by {
            assert forall|i: int, j: int| 0 <= i < j < v.len() implies #[trigger] v[i] < #[trigger] v[j] by {
                assert(v[i] == u[i] && v[j] == u[j]);
            }
        }
        lemma_insertion_stable(keys, v, reverse, timeless);
        let s = insertion_sort(keys, v, reverse, timeless);
        lemma_insertion_sort_ms(keys, v, reverse, timeless);
        lemma_insertion_sort_below(keys, v, reverse, timeless, keys.len() as int);
        assert forall|i: int| 0 <= i < s.len() implies #[trigger] s[i] < x by {
            assert(s.to_multiset().count(s[i]) > 0);
            assert(v.contains(s[i]));
            let w = choose|w: int| 0 <= w < v.len() && v[w] == s[i];
            assert(u[w] < u[u.len() - 1]);
        }
        lemma_insert_pos_props(keys, s, x, reverse, timeless);
        let p = insert_pos(keys, s, x, reverse, timeless);
        let r = s.insert(p, x);
        assert(r == insertion_sort(keys, u, reverse, timeless));
        assert(keys[x as int].date is Some);
        assert forall|i: int, j: int|
            0 <= i < j < r.len() && same_place(
                #[trigger] keys[r[i] as int],
                #[trigger] keys[r[j] as int],
                reverse,
                timeless,
            ) implies r[i] < r[j] by {
            if j < p {
                assert(r[i] == s[i] && r[j] == s[j]);
            } else if j == p {
                assert(r[i] == s[i] && r[j] == x);
            } else if i < p {
                assert(r[i] == s[i] && r[j] == s[j - 1]);
            } else if i == p {
                assert(r[i] == x && r[j] == s[j - 1]);
                assert(sorts_before(keys[x as int], keys[s[j - 1] as int], reverse, timeless));
                assert(keys[s[j - 1] as int].date is Some);
                lemma_cgb_total(keys[x as int], keys[s[j - 1] as int], reverse, timeless);
            } else {
                assert(r[i] == s[i - 1] && r[j] == s[j - 1]);
            }
        }
    }
}

proof fn lemma_merge_stable(
    keys: Seq<SortKey>,
    s: Seq<usize>,
    u: Seq<usize>,
    reverse: bool,
    timeless: TimelessPosition,
)
    requires
        total_order_case(keys, timeless),
        indices_below(s, keys.len() as int),
        indices_below(u, keys.len() as int),
        sorted_by(keys, s, reverse, timeless),
        sorted_by(keys, u, reverse, timeless),
        rising(s),
        stable(keys, u, reverse, timeless),
        forall|i: int, j: int| 0 <= i < s.len() && 0 <= j < u.len() ==> #[trigger] s[i] != #[trigger] u[j],
    ensures
        stable(keys, merge(keys, s, u, reverse, timeless), reverse, timeless),
    decreases s.len() + u.len(),
{
    if s.len() > 0 && u.len() > 0 {
        let s0 = s[0];
        let u0 = u[0];
        let ks0 = keys[s0 as int];
        let ku0 = keys[u0 as int];
        assert(ks0.date is Some);
        assert(ku0.date is Some);
        let takes_u = goes_first(keys, u0, s0, reverse, timeless);
        let (h, s2, u2) = if takes_u {
            (u0, s, u.drop_first())
        } else {
            (s0, s.drop_first(), u)
        };
        assert(indices_below(s2, keys.len() as int));
        assert(indices_below(u2, keys.len() as int));
        assert(sorted_by(keys, s2, reverse, timeless) && rising(s2)) by {
            if !takes_u {
                assert forall|i: int, j: int| 0 <= i < j < s2.len() implies can_go_before(
                    #[trigger] keys[s2[i] as int],
                    #[trigger] keys[s2[j] as int],
                    reverse,
                    timeless,
                ) by {
                    assert(s2[i] == s[i + 1] && s2[j] == s[j + 1]);
                }
                assert forall|i: int, j: int| 0 <= i < j < s2.len() implies #[trigger] s2[i] < #[trigger] s2[j] by {
                    assert(s2[i] == s[i + 1] && s2[j] == s[j + 1]);
                }
            }
        }
        assert(sorted_by(keys, u2, reverse, timeless) && stable(keys, u2, reverse, timeless)) by {
            if takes_u {
                assert forall|i: int, j: int| 0 <= i < j < u2.len() implies can_go_before(
                    #[trigger] keys[u2[i] as int],
                    #[trigger] keys[u2[j] as int],
                    reverse,
                    timeless,
                ) by {
                    assert(u2[i] == u[i + 1] && u2[j] == u[j + 1]);
                }
                assert forall|i: int, j: int|
                    0 <= i < j < u2.len() && same_place(
                        #[trigger] keys[u2[i] as int],
                        #[trigger] keys[u2[j] as int],
                        reverse,
                        timeless,
                    ) implies u2[i] < u2[j] by {
                    assert(u2[i] == u[i + 1] && u2[j] == u[j + 1]);
                }
            }
        }
        assert forall|i: int, j: int| 0 <= i < s2.len() && 0 <= j < u2.len() implies #[trigger] s2[i]
            != #[trigger] u2[j] by {
            if takes_u {
                assert(s2[i] == s[i] && u2[j] == u[j + 1]);
            } else {
                assert(s2[i] == s[i + 1] && u2[j] == u[j]);
            }
        }
        lemma_merge_stable(keys, s2, u2, reverse, timeless);
        let rest = merge(keys, s2, u2, reverse, timeless);
        let kh = keys[h as int];
        assert forall|y: usize| rest.contains(y) && same_place(kh, keys[y as int], reverse, timeless) implies h
            < y by {
            lemma_merge_contains(keys, s2, u2, y, reverse, timeless);
            let ky = keys[y as int];
            if s2.contains(y) {
                let w = choose|w: int| 0 <= w < s2.len() && s2[w] == y;
                assert(ky.date is Some);
                if takes_u {
                    // h is the first entry to move, y a kept one
                    if w > 0 {
                        assert(can_go_before(ks0, keys[s[w] as int], reverse, timeless));
                        assert(s[0] < s[w]);
                        lemma_cgb_trans(ks0, ky, ku0, reverse, timeless);
                        lemma_cgb_trans(ku0, ks0, ky, reverse, timeless);
                    }
                } else {
                    assert(s[0] < s[w + 1]);
                }
            } else {
                let w = choose|w: int| 0 <= w < u2.len() && u2[w] == y;
                assert(ky.date is Some);
                if takes_u {
                    assert(same_place(keys[u[0] as int], keys[u[w + 1] as int], reverse, timeless) ==> u[0]
                        < u[w + 1]);
                } else {
                    // h is a kept entry, y one to move
                    assert(can_go_before(ku0, keys[u[w] as int], reverse, timeless));
                    lemma_cgb_trans(ku0, ky, ks0, reverse, timeless);
                    if w > 0 {
                        lemma_cgb_trans(ky, ks0, ku0, reverse, timeless);
                        assert(same_place(keys[u[0] as int], keys[u[w] as int], reverse, timeless));
                    }
                }
            }
        }
        let m = merge(keys, s, u, reverse, timeless);
        assert(m == seq![h] + rest);
        assert forall|i: int, j: int|
            0 <= i < j < m.len() && same_place(
                #[trigger] keys[m[i] as int],
                #[trigger] keys[m[j] as int],
                reverse,
                timeless,
            ) implies m[i] < m[j] by {
            assert(m[j] == rest[j - 1]);
            if i == 0 {
                assert(m[0] == h);
                assert(rest.contains(rest[j - 1]));
            } else {
                assert(m[i] == rest[i - 1]);
            }
        }
    }
}

/// When every entry has a date and entries without a time have a fixed place
/// in their day, entries tied in the order (same date, and same time or both
/// without one) come out in the order they came in.
pub proof fn law_sort_order_stable(keys: Seq<SortKey>, reverse: bool, timeless: TimelessPosition)
    requires
        total_order_case(keys, timeless),
        keys.len() <= usize::MAX,
    ensures
        stable(keys, sort_order(keys, reverse, timeless), reverse, timeless),
{
    let n = keys.len() as int;
    let run = kept_run(keys, reverse, timeless);
    let rest = others(run, n);
    if n <= 1 || rest.len() == 0 {
        assert forall|i: int, j: int|
            0 <= i < j < identity(n).len() && same_place(
                #[trigger] keys[identity(n)[i] as int],
                #[trigger] keys[identity(n)[j] as int],
                reverse,
                timeless,
            ) implies identity(n)[i] < identity(n)[j] by {}
    } else {
        lemma_lis_state(keys, n, reverse, timeless);
        lemma_lis_sorted(keys, n, reverse, timeless);
        lemma_kept_run_below(keys, reverse, timeless);
        let (tails, preds) = lis_state(keys, n, reverse, timeless);
        let start = tails.last() as int;
        assert forall|k: int| 0 <= k < preds.len() implies (#[trigger] preds[k] matches Some(p) ==> p < k
            && can_go_before(keys[p as int], keys[k], reverse, timeless)) by {
            assert(preds[k] matches Some(p) ==> p < k);
        }
        lemma_chain_sorted(keys, preds, start, reverse, timeless);
        lemma_chain_back_desc(preds, start);
        let c = chain_back(preds, start);
        assert(sorted_by(keys, run, reverse, timeless) && rising(run)) by {
            assert forall|i: int, j: int| 0 <= i < j < run.len() implies can_go_before(
                #[trigger] keys[run[i] as int],
                #[trigger] keys[run[j] as int],
                reverse,
                timeless,
            ) by {
                assert(run[i] == c[c.len() - 1 - i]);
                assert(run[j] == c[c.len() - 1 - j]);
            }
            assert forall|i: int, j: int| 0 <= i < j < run.len() implies #[trigger] run[i] < #[trigger] run[j] by {
                assert(run[i] == c[c.len() - 1 - i]);
                assert(run[j] == c[c.len() - 1 - j]);
            }
        }
        lemma_others_below(run, n);
        lemma_others_rising(run, n);
        lemma_insertion_sorted(keys, rest, reverse, timeless);
        lemma_insertion_sort_below(keys, rest, reverse, timeless, n);
        lemma_insertion_stable(keys, rest, reverse, timeless);
        let moved = insertion_sort(keys, rest, reverse, timeless);
        lemma_insertion_sort_ms(keys, rest, reverse, timeless);
        assert forall|i: int, j: int| 0 <= i < run.len() && 0 <= j < moved.len() implies #[trigger] run[i]
            != #[trigger] moved[j] by {
            broadcast use vstd::seq_lib::group_to_multiset_ensures;
            assert(moved.to_multiset().count(moved[j]) > 0);
            assert(rest.contains(moved[j]));
            lemma_others_excludes(run, n, moved[j]);
            assert(run.contains(run[i]));
        }
        lemma_merge_stable(keys, run, moved, reverse, timeless);
    }
}


/// Each entry may stand before every later one.
pub open spec fn in_order(keys: Seq<SortKey>, reverse: bool, timeless: TimelessPosition) -> bool {
    forall|i: int, j: int|
        0 <= i < j < keys.len() ==> can_go_before(#[trigger] keys[i], #[trigger] keys[j], reverse, timeless)
}

/// The predecessors the patience sort records for entries that are all in order.
pub open spec fn chained_preds(i: int) -> Seq<Option<usize>> {
    Seq::new(
        i as nat,
        |j: int|
            if j > 0 {
                Some((j - 1) as usize)
            } else {
                None
            },
    )
}

proof fn lemma_search_all_before(
    keys: Seq<SortKey>,
    tails: Seq<usize>,
    x: SortKey,
    base: int,
    size: int,
    reverse: bool,
    timeless: TimelessPosition,
)
    requires
        0 <= base,
        1 <= size,
        base + size <= tails.len(),
        forall|k: int| 0 <= k < tails.len() ==> can_go_before(keys[#[trigger] tails[k] as int], x, reverse, timeless),
    ensures
        search_from(keys, tails, x, base, size, reverse, timeless) == base + size - 1,
    decreases size,
{
    if size > 1 {
        let half = size / 2;
        let mid = base + half;
        assert(can_go_before(keys[tails[mid] as int], x, reverse, timeless));
        lemma_search_all_before(keys, tails, x, mid, size - half, reverse, timeless);
    }
}

proof fn lemma_lis_in_order(keys: Seq<SortKey>, i: int, reverse: bool, timeless: TimelessPosition)
    requires
        0 <= i <= keys.len(),
        keys.len() <= usize::MAX,
        in_order(keys, reverse, timeless),
    ensures
        lis_state(keys, i, reverse, timeless) == (identity(i), chained_preds(i)),
    decreases i,
{
    if i > 0 {
        lemma_lis_in_order(keys, i - 1, reverse, timeless);
        let tails = identity(i - 1);
        let x = keys[i - 1];
        let pos = partition_point(keys, tails, x, reverse, timeless);
        assert forall|k: int| 0 <= k < tails.len() implies can_go_before(
            keys[#[trigger] tails[k] as int],
            x,
            reverse,
            timeless,
        ) by {
            assert(tails[k] as int == k);
        }
        if tails.len() > 0 {
            lemma_search_all_before(keys, tails, x, 0, tails.len() as int, reverse, timeless);
            let b = tails.len() - 1;
            assert(can_go_before(keys[tails[b] as int], x, reverse, timeless));
        }
        assert(pos == i - 1);
        assert(tails.push((i - 1) as usize) =~= identity(i));
        assert(chained_preds(i - 1).push(
            if i - 1 > 0 {
                Some(tails[i - 2])
            } else {
                None
            },
        ) =~= chained_preds(i));
    }
}

proof fn lemma_chain_back_chained(n: int, idx: int)
    requires
        0 <= idx < n,
        n <= usize::MAX,
    ensures
        chain_back(chained_preds(n), idx) == identity(idx + 1).reverse(),
    decreases idx,
{
    if idx > 0 {
        lemma_chain_back_chained(n, idx - 1);
        assert(seq![idx as usize] + identity(idx).reverse() =~= identity(idx + 1).reverse());
    } else {
        assert(seq![0usize] =~= identity(1).reverse());
    }
}

proof fn lemma_others_identity(n: int, k: int)
    requires
        0 <= k <= n,
        n <= usize::MAX,
    ensures
        others(identity(n), k).len() == 0,
    decreases k,
{
    if k > 0 {
        assert(identity(n)[k - 1] == (k - 1) as usize);
        lemma_others_identity(n, k - 1);
    }
}

/// Entries that are already in order stay where they are: sorting them yields
/// the order they came in.
pub proof fn law_sort_order_keeps_ordered(keys: Seq<SortKey>, reverse: bool, timeless: TimelessPosition)
    requires
        keys.len() <= usize::MAX,
        in_order(keys, reverse, timeless),
    ensures
        sort_order(keys, reverse, timeless) == identity(keys.len() as int),
{
    let n = keys.len() as int;
    lemma_lis_in_order(keys, n, reverse, timeless);
    if n > 0 {
        lemma_chain_back_chained(n, n - 1);
        assert(identity(n).reverse().reverse() =~= identity(n));
        assert(kept_run(keys, reverse, timeless) == identity(n));
        lemma_others_identity(n, n);
    }
}


/// The pile an entry is put on by the patience sort: where it goes among the
/// tails found before it.
pub open spec fn pile(keys: Seq<SortKey>, y: int, reverse: bool, timeless: TimelessPosition) -> int {
    partition_point(keys, lis_state(keys, y, reverse, timeless).0, keys[y], reverse, timeless)
}

/// After `i` entries: each entry's pile is open and ends in an entry that may
/// stand before it, and each tail lies on its own pile.
pub open spec fn piles_ok(keys: Seq<SortKey>, i: int, reverse: bool, timeless: TimelessPosition) -> bool {
    let tails = lis_state(keys, i, reverse, timeless).0;
    &&& forall|y: int|
        0 <= y < i ==> 0 <= pile(keys, y, reverse, timeless) < tails.len() && can_go_before(
            keys[tails[#[trigger] pile(keys, y, reverse, timeless)] as int],
            keys[y],
            reverse,
            timeless,
        )
    &&& forall|q: int| 0 <= q < tails.len() ==> pile(keys, #[trigger] tails[q] as int, reverse, timeless) == q
}

proof fn lemma_piles(keys: Seq<SortKey>, i: int, reverse: bool, timeless: TimelessPosition)
    requires
        total_order_case(keys, timeless),
        0 <= i <= keys.len(),
        keys.len() <= usize::MAX,
    ensures
        piles_ok(keys, i, reverse, timeless),
    decreases i,
{
    if i > 0 {
        lemma_piles(keys, i - 1, reverse, timeless);
        lemma_lis_state(keys, i - 1, reverse, timeless);
        lemma_lis_sorted(keys, i - 1, reverse, timeless);
        let tails = lis_state(keys, i - 1, reverse, timeless).0;
        let x = keys[i - 1];
        assert(x.date is Some);
        lemma_partition_point_exact(keys, tails, x, reverse, timeless);
        let p = pile(keys, i - 1, reverse, timeless);
        let t2 = lis_state(keys, i, reverse, timeless).0;
        assert(t2 == if p >= tails.len() {
            tails.push((i - 1) as usize)
        } else {
            tails.update(p, (i - 1) as usize)
        });
        assert(t2[p] == (i - 1) as usize);
        assert forall|y: int| 0 <= y < i implies 0 <= pile(keys, y, reverse, timeless) < t2.len() && can_go_before(
            keys[t2[#[trigger] pile(keys, y, reverse, timeless)] as int],
            keys[y],
            reverse,
            timeless,
        ) by {
            let py = pile(keys, y, reverse, timeless);
            if y < i - 1 {
                assert(0 <= py < tails.len() && can_go_before(
                    keys[tails[pile(keys, y, reverse, timeless)] as int],
                    keys[y],
                    reverse,
                    timeless,
                ));
            }
            if y == i - 1 {
                assert(keys[y].date is Some);
            } else if py != p {
                assert(t2[py] == tails[py]);
            } else {
                let z = keys[tails[p] as int];
                assert(tails[p] < i - 1);
                assert(z.date is Some);
                assert(keys[y].date is Some);
                lemma_cgb_total(z, x, reverse, timeless);
                lemma_cgb_trans(x, z, keys[y], reverse, timeless);
            }
        }
        assert forall|q: int| 0 <= q < t2.len() implies pile(keys, #[trigger] t2[q] as int, reverse, timeless) == q by {
            if q != p {
                assert(t2[q] == tails[q]);
            }
        }
    }
}

/// Earlier entries keep their predecessors as the sort goes on.
proof fn lemma_preds_stable(keys: Seq<SortKey>, y: int, i: int, reverse: bool, timeless: TimelessPosition)
    requires
        0 <= y < i <= keys.len(),
    ensures
        lis_state(keys, i, reverse, timeless).1[y] == lis_state(keys, y + 1, reverse, timeless).1[y],
    decreases i,
{
    if i > y + 1 {
        lemma_preds_stable(keys, y, i - 1, reverse, timeless);
        lemma_lis_state(keys, i - 1, reverse, timeless);
    }
}

/// Following predecessors back from an entry visits one entry per pile below
/// its own.
proof fn lemma_chain_len(keys: Seq<SortKey>, idx: int, reverse: bool, timeless: TimelessPosition)
    requires
        total_order_case(keys, timeless),
        0 <= idx < keys.len(),
        keys.len() <= usize::MAX,
    ensures
        chain_back(lis_state(keys, keys.len() as int, reverse, timeless).1, idx).len() == pile(
            keys,
            idx,
            reverse,
            timeless,
        ) + 1,
    decreases idx,
{
    let n = keys.len() as int;
    let preds = lis_state(keys, n, reverse, timeless).1;
    lemma_lis_state(keys, n, reverse, timeless);
    lemma_lis_state(keys, idx, reverse, timeless);
    lemma_preds_stable(keys, idx, n, reverse, timeless);
    lemma_piles(keys, idx, reverse, timeless);
    let tails = lis_state(keys, idx, reverse, timeless).0;
    lemma_lis_sorted(keys, idx, reverse, timeless);
    assert(keys[idx].date is Some);
    lemma_partition_point_exact(keys, tails, keys[idx], reverse, timeless);
    let p = pile(keys, idx, reverse, timeless);
    if p > 0 {
        let q = tails[p - 1];
        assert(preds[idx] == Some(q));
        assert(pile(keys, q as int, reverse, timeless) == p - 1);
        assert((q as int) < idx);
        lemma_chain_len(keys, q as int, reverse, timeless);
    } else {
        assert(preds[idx] == None::<usize>);
    }
}

/// Indices that rise, each entry in range and in order before every later one.
pub open spec fn ordered_run(keys: Seq<SortKey>, c: Seq<int>, reverse: bool, timeless: TimelessPosition) -> bool {
    &&& forall|j: int| 0 <= j < c.len() ==> 0 <= #[trigger] c[j] < keys.len()
    &&& forall|a: int, b: int|
        0 <= a < b < c.len() ==> #[trigger] c[a] < #[trigger] c[b] && can_go_before(
            keys[c[a]],
            keys[c[b]],
            reverse,
            timeless,
        )
}

/// Each entry of an ordered run lies on a pile above the run's earlier ones.
proof fn lemma_run_piles(keys: Seq<SortKey>, c: Seq<int>, j: int, reverse: bool, timeless: TimelessPosition)
    requires
        total_order_case(keys, timeless),
        keys.len() <= usize::MAX,
        ordered_run(keys, c, reverse, timeless),
        0 <= j < c.len(),
    ensures
        pile(keys, c[j], reverse, timeless) >= j,
    decreases j,
{
    if j > 0 {
        lemma_run_piles(keys, c, j - 1, reverse, timeless);
        let y = c[j - 1];
        let x = c[j];
        assert(y < x && can_go_before(keys[y], keys[x], reverse, timeless));
        lemma_piles(keys, x, reverse, timeless);
        lemma_lis_sorted(keys, x, reverse, timeless);
        lemma_lis_state(keys, x, reverse, timeless);
        let tails = lis_state(keys, x, reverse, timeless).0;
        assert(keys[x].date is Some);
        lemma_partition_point_exact(keys, tails, keys[x], reverse, timeless);
        let py = pile(keys, y, reverse, timeless);
        assert(py < tails.len() && can_go_before(
            keys[tails[pile(keys, y, reverse, timeless)] as int],
            keys[y],
            reverse,
            timeless,
        ));
        let z = keys[tails[py] as int];
        assert(can_go_before(z, keys[y], reverse, timeless));
        assert(z.date is Some && keys[y].date is Some);
        lemma_cgb_trans(z, keys[y], keys[x], reverse, timeless);
        assert(py < pile(keys, x, reverse, timeless));
    } else {
        let x = c[0];
        lemma_lis_sorted(keys, x, reverse, timeless);
        lemma_lis_state(keys, x, reverse, timeless);
        assert(keys[x].date is Some);
        lemma_partition_point_exact(keys, lis_state(keys, x, reverse, timeless).0, keys[x], reverse, timeless);
    }
}

/// When every entry has a date and entries without a time have a fixed place,
/// the entries that stay where they are form a longest ordered run: sorting
/// moves as few entries as it can.
pub proof fn law_kept_run_longest(
    keys: Seq<SortKey>,
    c: Seq<int>,
    reverse: bool,
    timeless: TimelessPosition,
)
    requires
        total_order_case(keys, timeless),
        keys.len() <= usize::MAX,
        ordered_run(keys, c, reverse, timeless),
    ensures
        c.len() <= kept_run(keys, reverse, timeless).len(),
{
    let n = keys.len() as int;
    lemma_lis_state(keys, n, reverse, timeless);
    lemma_piles(keys, n, reverse, timeless);
    let (tails, preds) = lis_state(keys, n, reverse, timeless);
    if c.len() > 0 {
        lemma_run_piles(keys, c, c.len() - 1, reverse, timeless);
        let last = c[c.len() - 1];
        assert(pile(keys, last, reverse, timeless) < tails.len());
        let t = tails.last() as int;
        assert(pile(keys, t, reverse, timeless) == tails.len() - 1);
        lemma_chain_len(keys, t, reverse, timeless);
    }
}


/// When every entry has a date and entries without a time have a fixed place
/// in their day, sorting yields an order in which each entry may stand
/// before every later one.
pub proof fn law_sort_order_sorted(keys: Seq<SortKey>, reverse: bool, timeless: TimelessPosition)
    requires
        total_order_case(keys, timeless),
        keys.len() <= usize::MAX,
    ensures
        sorted_by(keys, sort_order(keys, reverse, timeless), reverse, timeless),
{
    broadcast use vstd::seq_lib::group_to_multiset_ensures;

    let n = keys.len() as int;
    let run = kept_run(keys, reverse, timeless);
    let rest = others(run, n);
    lemma_lis_state(keys, n, reverse, timeless);
    lemma_lis_sorted(keys, n, reverse, timeless);
    lemma_kept_run_below(keys, reverse, timeless);
    let (tails, preds) = lis_state(keys, n, reverse, timeless);
    if tails.len() > 0 {
        let start = tails.last() as int;
        assert forall|k: int| 0 <= k < preds.len() implies (#[trigger] preds[k] matches Some(p) ==> p < k
            && can_go_before(keys[p as int], keys[k], reverse, timeless)) by {
            assert(preds[k] matches Some(p) ==> p < k);
        }
        lemma_chain_sorted(keys, preds, start, reverse, timeless);
        lemma_chain_back_desc(preds, start);
    }
    assert(sorted_by(keys, run, reverse, timeless)) by {
        if tails.len() > 0 {
            let c = chain_back(preds, tails.last() as int);
            assert forall|i: int, j: int| 0 <= i < j < run.len() implies can_go_before(
                #[trigger] keys[run[i] as int],
                #[trigger] keys[run[j] as int],
                reverse,
                timeless,
            ) by {
                assert(run[i] == c[c.len() - 1 - i]);
                assert(run[j] == c[c.len() - 1 - j]);
            }
        }
    }
    if n <= 1 {
        assert forall|i: int, j: int| 0 <= i < j < identity(n).len() implies can_go_before(
            #[trigger] keys[identity(n)[i] as int],
            #[trigger] keys[identity(n)[j] as int],
            reverse,
            timeless,
        ) by {}
    } else if rest.len() == 0 {
        assert forall|i: int, j: int| 0 <= i < j < identity(n).len() implies can_go_before(
            #[trigger] keys[identity(n)[i] as int],
            #[trigger] keys[identity(n)[j] as int],
            reverse,
            timeless,
        ) by {
            lemma_count_others(run, n, i as usize);
            lemma_count_others(run, n, j as usize);
            assert(rest.to_multiset().count(i as usize) == 0);
            assert(rest.to_multiset().count(j as usize) == 0);
            assert(run.contains(i as usize));
            assert(run.contains(j as usize));
            let a = choose|a: int| 0 <= a < run.len() && run[a] == i as usize;
            let b = choose|b: int| 0 <= b < run.len() && run[b] == j as usize;
            let c = chain_back(preds, tails.last() as int);
            assert(run[a] == c[c.len() - 1 - a]);
            assert(run[b] == c[c.len() - 1 - b]);
            if b < a {
                assert(c[c.len() - 1 - a] > c[c.len() - 1 - b]);
            }
            assert(a != b);
            assert(identity(n)[i] == i as usize);
            assert(identity(n)[j] == j as usize);
        }
    } else {
        lemma_others_below(run, n);
        lemma_insertion_sorted(keys, rest, reverse, timeless);
        lemma_insertion_sort_below(keys, rest, reverse, timeless, n);
        lemma_merge_sorted(keys, run, insertion_sort(keys, rest, reverse, timeless), reverse, timeless);
    }
}

// ---------------------------------------------------------------------------
// The sorted text
// ---------------------------------------------------------------------------

/// Lines `a..b`, each followed by a line feed.
pub open spec fn lines_text(ls: Seq<Seq<char>>, a: int, b: int) -> Seq<char>
    decreases b - a,
{
    if b <= a {
        seq![]
    } else {
        lines_text(ls, a, b - 1) + ls[b - 1] + seq!['\n']
    }
}

/// The first `k` entries in `order`, a line feed between two entries.
pub open spec fn emitted(ls: Seq<Seq<char>>, all: Seq<Entry>, order: Seq<usize>, k: int) -> Seq<char>
    decreases k,
{
    if k <= 0 {
        seq![]
    } else {
        let e = all[order[k - 1] as int];
        emitted(ls, all, order, k - 1) + (if k > 1 {
            seq!['\n']
        } else {
            seq![]
        }) + lines_text(ls, e.first as int, e.end as int)
    }
}

pub open spec fn newlines(n: int) -> Seq<char> {
    Seq::new(n as nat, |_i: int| '\n')
}

pub open spec fn keys_of(all: Seq<Entry>) -> Seq<SortKey> {
    all.map_values(|e: Entry| e.key)
}

/// The entries of a compartment, the blank lines before the first of them,
/// and the blank lines after it.
pub open spec fn compartment_state(items: Seq<Segment<Seq<Entry>>>, k: int) -> (Seq<Entry>, int, int)
    decreases k,
{
    if k <= 0 {
        (seq![], 0, 0)
    } else {
        let (all, lead, seps) = compartment_state(items, k - 1);
        match items[k - 1] {
            Segment::Entries(es) => (all + es, lead, seps),
            Segment::Blank => if all.len() > 0 {
                (all, lead, seps + 1)
            } else {
                (all, lead + 1, seps)
            },
            Segment::Barrier(_, _) => (all, lead, seps),
        }
    }
}

/// A compartment's text: its leading blank lines, its entries in sorted order
/// with a blank line between two entries, then the blank lines not used as
/// separators.
pub open spec fn compartment_text(
    ls: Seq<Seq<char>>,
    items: Seq<Segment<Seq<Entry>>>,
    reverse: bool,
    timeless: TimelessPosition,
) -> Seq<char> {
    let (all, lead, seps) = compartment_state(items, items.len() as int);
    if all.len() == 0 {
        newlines(lead)
    } else {
        let order = sort_order(keys_of(all), reverse, timeless);
        newlines(lead) + emitted(ls, all, order, all.len() as int) + newlines(
            crate::normalize::clamp0(seps - (all.len() - 1)),
        )
    }
}

/// The text so far and the compartment being gathered, after `k` segments.
pub open spec fn text_state(
    ls: Seq<Seq<char>>,
    segs: Seq<Segment<Seq<Entry>>>,
    k: int,
    reverse: bool,
    timeless: TimelessPosition,
) -> (Seq<char>, Seq<Segment<Seq<Entry>>>)
    decreases k,
{
    if k <= 0 {
        (seq![], seq![])
    } else {
        let (out, items) = text_state(ls, segs, k - 1, reverse, timeless);
        match segs[k - 1] {
            Segment::Barrier(a, b) => (
                out + compartment_text(ls, items, reverse, timeless) + lines_text(ls, a as int, b as int),
                seq![],
            ),
            _ => (out, items.push(segs[k - 1])),
        }
    }
}

/// The input with the entries between barriers sorted, as `sort_input` returns it.
pub open spec fn spec_sort_input(
    input: Seq<char>,
    reverse: bool,
    timeless: TimelessPosition,
    exclude: Seq<SortableDirective>,
) -> Seq<char> {
    let ls = crate::text::spec_lines(input);
    let segs = spec_parse_segments(ls, exclude);
    let (out, items) = text_state(ls, segs, segs.len() as int, reverse, timeless);
    let text = out + compartment_text(ls, items, reverse, timeless);
    if !(input.len() > 0 && input.last() == '\n') && text.len() > 0 && text.last() == '\n' {
        text.drop_last()
    } else {
        text
    }
}

/// Every line is at most `m` long and holds no line feed.
pub open spec fn lines_short(ls: Seq<Seq<char>>, m: int) -> bool {
    forall|k: int|
        0 <= k < ls.len() ==> #[trigger] ls[k].len() <= m && !crate::lex::has_newline(
            ls[k],
            0,
            ls[k].len() as int,
        )
}

proof fn lemma_push_newline_short(t: Seq<char>, m: int)
    requires
        short_lines(t, m),
        m >= 0,
    ensures
        short_lines(t.push('\n'), m),
        ends_line(t.push('\n')),
{
    if t.len() > 0 && t.last() == '\n' {
        lemma_short_lines_line(seq![], m);
        assert(seq![] + seq!['\n'] =~= seq!['\n']);
        lemma_short_lines_concat(t, seq!['\n'], m);
        assert(t + seq!['\n'] =~= t.push('\n'));
    } else {
        let u = t.push('\n');
        assert forall|i: int, j: int|
            0 <= i <= j <= u.len() && !crate::lex::has_newline(u, i, j) implies j - i <= m by {
            if j == u.len() && i < j {
                assert(u[u.len() - 1] == '\n');
            } else {
                assert forall|k: int| i <= k < j implies t[k] != '\n' by {
                    assert(u[k] == t[k]);
                }
                assert(!crate::lex::has_newline(t, i, j));
            }
        }
    }
}

fn push_lines(out: &mut Vec<char>, lines: &Vec<String>, a: usize, b: usize, Ghost(m): Ghost<int>)
    requires
        a <= b <= lines@.len(),
        lines_short(views(lines@), m),
        short_lines(old(out)@, m),
        ends_line(old(out)@),
    ensures
        final(out)@ == old(out)@ + lines_text(views(lines@), a as int, b as int),
        short_lines(final(out)@, m),
        ends_line(final(out)@),
{
    let ghost o0 = old(out)@;
    let mut i = a;
    while i < b
        invariant
            a <= i <= b <= lines@.len(),
            out@ == o0 + lines_text(views(lines@), a as int, i as int),
            lines_short(views(lines@), m),
            short_lines(out@, m),
            ends_line(out@),
        decreases b - i,
    {
        let ghost before = out@;
        append_str(out, lines[i].as_str());
        out.push('\n');
        assert(views(lines@)[i as int] == lines@[i as int]@);
        proof {
            let l = lines@[i as int]@;
            lemma_short_lines_line(l, m);
            lemma_short_lines_concat(before, l + seq!['\n'], m);
            assert(before + (l + seq!['\n']) =~= out@);
        }
        i = i + 1;
        assert(out@ =~= o0 + lines_text(views(lines@), a as int, i as int));
    }
}

fn push_newlines(out: &mut Vec<char>, n: usize, Ghost(m): Ghost<int>)
    requires
        short_lines(old(out)@, m),
        ends_line(old(out)@),
        m >= 0,
    ensures
        final(out)@ == old(out)@ + newlines(n as int),
        short_lines(final(out)@, m),
        ends_line(final(out)@),
{
    let ghost o0 = old(out)@;
    let mut i: usize = 0;
    while i < n
        invariant
            i <= n,
            out@ == o0 + newlines(i as int),
            short_lines(out@, m),
            ends_line(out@),
            m >= 0,
        decreases n - i,
    {
        proof {
            lemma_push_newline_short(out@, m);
        }
        out.push('\n');
        i = i + 1;
        assert(out@ =~= o0 + newlines(i as int));
    }
}

proof fn lemma_sort_order_below(keys: Seq<SortKey>, reverse: bool, timeless: TimelessPosition)
    requires
        keys.len() <= usize::MAX,
    ensures
        indices_below(sort_order(keys, reverse, timeless), keys.len() as int),
        sort_order(keys, reverse, timeless).len() == keys.len(),
{
    broadcast use vstd::seq_lib::group_to_multiset_ensures;

    lemma_sort_order_perm(keys, reverse, timeless);
    let o = sort_order(keys, reverse, timeless);
    assert forall|k: int| 0 <= k < o.len() implies (#[trigger] o[k] as int) < keys.len() by {
        lemma_count_identity(keys.len() as int, o[k]);
        assert(o.contains(o[k]));
        assert(o.to_multiset().count(o[k]) > 0);
        assert(identity(keys.len() as int).to_multiset().count(o[k]) > 0);
    }
    assert(o.to_multiset().len() == identity(keys.len() as int).to_multiset().len());
}

/// Sort the entries of a compartment: the order in which they come out.
fn sort_entries(all: &Vec<Entry>, reverse: bool, timeless: TimelessPosition) -> (r: Vec<usize>)
    ensures
        r@ == sort_order(keys_of(all@), reverse, timeless),
        indices_below(r@, all@.len() as int),
        r@.len() == all@.len(),
{
    let mut keys: Vec<SortKey> = Vec::new();
    let mut k: usize = 0;
    while k < all.len()
        invariant
            k <= all@.len(),
            keys@ == keys_of(all@.take(k as int)),
        decreases all@.len() - k,
    {
        keys.push(all[k].key);
        k = k + 1;
        assert(keys@ =~= keys_of(all@.take(k as int)));
    }
    assert(all@.take(all@.len() as int) =~= all@);
    proof {
        lemma_sort_order_below(keys@, reverse, timeless);
    }
    sort_order_exec(&keys, reverse, timeless)
}

fn flush_compartment(
    lines: &Vec<String>,
    out: &mut Vec<char>,
    items: &Vec<Segment<Vec<Entry>>>,
    reverse: bool,
    timeless: TimelessPosition,
    Ghost(m): Ghost<int>,
)
    requires
        segs_ok(segs_view(items@), lines@.len() as int),
        lines_short(views(lines@), m),
        short_lines(old(out)@, m),
        ends_line(old(out)@),
        m >= 0,
    ensures
        final(out)@ == old(out)@ + compartment_text(
            views(lines@),
            segs_view(items@),
            reverse,
            timeless,
        ),
        short_lines(final(out)@, m),
        ends_line(final(out)@),
{
    let ghost iv = segs_view(items@);
    let mut all: Vec<Entry> = Vec::new();
    let mut lead: usize = 0;
    let mut seps: usize = 0;
    let mut k: usize = 0;
    while k < items.len()
        invariant
            k <= items@.len(),
            iv == segs_view(items@),
            segs_ok(iv, lines@.len() as int),
            (all@, lead as int, seps as int) == compartment_state(iv, k as int),
            entries_ok(all@, lines@.len() as int),
            lead + seps <= k,
        decreases items@.len() - k,
    {
        assert(iv[k as int] == seg_view(items@[k as int]));
        match &items[k] {
            Segment::Entries(es) => {
                let ghost before = all@;
                assert(entries_ok(es@, lines@.len() as int));
                let mut j: usize = 0;
                while j < es.len()
                    invariant
                        j <= es@.len(),
                        all@ == before + es@.take(j as int),
                        entries_ok(before, lines@.len() as int),
                        entries_ok(es@, lines@.len() as int),
                        entries_ok(all@, lines@.len() as int),
                    decreases es@.len() - j,
                {
                    all.push(es[j]);
                    j = j + 1;
                    assert(all@ =~= before + es@.take(j as int));
                }
                assert(es@.take(es@.len() as int) =~= es@);
            },
            Segment::Blank => {
                if all.len() > 0 {
                    seps = seps + 1;
                } else {
                    lead = lead + 1;
                }
            },
            Segment::Barrier(_, _) => {},
        }
        k = k + 1;
    }
    let ghost o0 = old(out)@;
    push_newlines(out, lead, Ghost(m));
    if all.len() == 0 {
        return ;
    }
    let order = sort_entries(&all, reverse, timeless);
    let ghost bound = m;
    let m = all.len();
    let ghost ls = views(lines@);
    let ghost o1 = out@;
    let mut i: usize = 0;
    while i < m
        invariant
            i <= m,
            m == all@.len(),
            order@.len() == m,
            indices_below(order@, m as int),
            entries_ok(all@, lines@.len() as int),
            ls == views(lines@),
            out@ == o1 + emitted(ls, all@, order@, i as int),
            lines_short(views(lines@), bound),
            short_lines(out@, bound),
            ends_line(out@),
            bound >= 0,
        decreases m - i,
    {
        if i > 0 {
            proof {
                lemma_push_newline_short(out@, bound);
            }
            out.push('\n');
        }
        let e = all[order[i]];
        push_lines(out, lines, e.first, e.end, Ghost(bound));
        i = i + 1;
        assert(out@ =~= o1 + emitted(ls, all@, order@, i as int));
    }
    let used = m - 1;
    let extra = if seps > used {
        seps - used
    } else {
        0
    };
    push_newlines(out, extra, Ghost(bound));
}

fn copy_entries(es: &Vec<Entry>) -> (r: Vec<Entry>)
    ensures
        r@ == es@,
{
    let mut r: Vec<Entry> = Vec::new();
    let mut j: usize = 0;
    while j < es.len()
        invariant
            j <= es@.len(),
            r@ == es@.take(j as int),
        decreases es@.len() - j,
    {
        r.push(es[j]);
        j = j + 1;
        assert(r@ =~= es@.take(j as int));
    }
    assert(es@.take(es@.len() as int) =~= es@);
    r
}

/// The text of the segments: each compartment between barriers sorted.
#[verifier::spinoff_prover]
#[verifier::rlimit(40)]
fn segments_text(
    lines: &Vec<String>,
    segs: &Vec<Segment<Vec<Entry>>>,
    reverse: bool,
    timeless: TimelessPosition,
    Ghost(m): Ghost<int>,
) -> (r: Vec<char>)
    requires
        segs_ok(segs_view(segs@), lines@.len() as int),
        lines_short(views(lines@), m),
        m >= 0,
    ensures
        short_lines(r@, m),
        ends_line(r@),
        r@ == ({
            let (out, items) = text_state(
                views(lines@),
                segs_view(segs@),
                segs@.len() as int,
                reverse,
                timeless,
            );
            out + compartment_text(views(lines@), items, reverse, timeless)
        }),
{
    let ghost ls = views(lines@);
    let ghost sv = segs_view(segs@);
    let mut out: Vec<char> = Vec::new();
    let mut items: Vec<Segment<Vec<Entry>>> = Vec::new();
    let mut k: usize = 0;
    assert(segs_view(items@) =~= Seq::<Segment<Seq<Entry>>>::empty());
    while k < segs.len()
        invariant
            k <= segs@.len(),
            ls == views(lines@),
            sv == segs_view(segs@),
            segs_ok(sv, lines@.len() as int),
            segs_ok(segs_view(items@), lines@.len() as int),
            (out@, segs_view(items@)) == text_state(ls, sv, k as int, reverse, timeless),
            lines_short(views(lines@), m),
            short_lines(out@, m),
            ends_line(out@),
            m >= 0,
        decreases segs@.len() - k,
    {
        proof {
            assert(sv[k as int] == seg_view(segs@[k as int]));
            let sk = sv[k as int];
            assert(match sk {
                Segment::Barrier(a, b) => a <= b <= lines@.len(),
                Segment::Blank => true,
                Segment::Entries(es) => entries_ok(es, lines@.len() as int),
            });
        }
        match &segs[k] {
            Segment::Barrier(a, b) => {
                flush_compartment(lines, &mut out, &items, reverse, timeless, Ghost(m));
                items = Vec::new();
                assert(segs_view(items@) =~= Seq::<Segment<Seq<Entry>>>::empty());
                push_lines(&mut out, lines, *a, *b, Ghost(m));
            },
            Segment::Blank => {
                push_segment(&mut items, Segment::Blank, lines.len());
            },
            Segment::Entries(es) => {
                let copied = copy_entries(es);
                push_segment(&mut items, Segment::Entries(copied), lines.len());
            },
        }
        k = k + 1;
    }
    flush_compartment(lines, &mut out, &items, reverse, timeless, Ghost(m));
    out
}

/// Sort the entries of `input` by date, keeping `pushtag`/`poptag`-style block
/// directives and the directive types in `exclude` as barriers that nothing
/// moves across.
pub fn sort_input_excluding(
    input: &str,
    reverse: bool,
    timeless: TimelessPosition,
    exclude: &Vec<SortableDirective>,
) -> (r: String)
    ensures
        r@ == spec_sort_input(input@, reverse, timeless, exclude@),
        short_lines(r@, input@.len() as int),
{
    let lines = split_lines(input);
    let segs = parse_segments(&lines, exclude);
    proof {
        lemma_line_pieces_short(input@, 0, input@.len() as int);
        assert forall|k: int| 0 <= k < views(lines@).len() implies #[trigger] views(lines@)[k].len()
            <= input@.len() && !crate::lex::has_newline(
            views(lines@)[k],
            0,
            views(lines@)[k].len() as int,
        ) by {
            assert(views(lines@)[k] == crate::text::line_pieces(input@, 0)[k]);
        }
    }
    let out = segments_text(&lines, &segs, reverse, timeless, Ghost(input@.len() as int));
    let chars = chars_of(input);
    let ends_with_newline = chars.len() > 0 && chars[chars.len() - 1] == '\n';
    let n = out.len();
    if !ends_with_newline && n > 0 && out[n - 1] == '\n' {
        let r = crate::text::string_of(&crate::text::copy_range(&out, 0, n - 1));
        assert(out@.subrange(0, n - 1) =~= out@.drop_last());
        proof {
            crate::text::lemma_short_lines_prefix(out@, n - 1, input@.len() as int);
            assert(out@.take(n - 1) =~= out@.drop_last());
        }
        r
    } else {
        crate::text::string_of(&out)
    }
}

/// Sort the entries of `input` by date (see `sort_input_excluding`), with no
/// directive type excluded.
pub fn sort_input(input: &str, reverse: bool, timeless: TimelessPosition) -> (r: String)
    ensures
        r@ == spec_sort_input(input@, reverse, timeless, Seq::<SortableDirective>::empty()),
{
    let none: Vec<SortableDirective> = Vec::new();
    sort_input_excluding(input, reverse, timeless, &none)
}

} // verus!
