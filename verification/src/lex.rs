//! Token scanners for the beancount line grammar: positions in a character
//! sequence, with a spec function and an executable twin for each.
use vstd::prelude::*;
use crate::text::{is_digit, is_digit_char, is_ws, is_ws_char, is_word, is_word_char};

verus! {

/// Classes of characters that tokens are made of.
#[derive(Clone, Copy, PartialEq, Eq, Structural)]
pub enum CharClass {
    /// `\s`
    Ws,
    /// `0`-`9`
    Digit,
    /// `[0-9,]`
    DigitComma,
    /// the space character
    Space,
    /// `[\w-]`: word characters and `-`, as in account names and metadata keys
    AcctChar,
    /// `[A-Z0-9'._-]`, the body of a currency
    CurrencyBody,
    /// `;`
    Semi,
}

pub open spec fn in_class(c: char, cls: CharClass) -> bool {
    match cls {
        CharClass::Ws => is_ws(c),
        CharClass::Digit => is_digit(c),
        CharClass::DigitComma => is_digit(c) || c == ',',
        CharClass::Space => c == ' ',
        CharClass::AcctChar => is_word(c) || c == '-',
        CharClass::CurrencyBody => ('A' <= c && c <= 'Z') || is_digit(c) || c == '\'' || c == '.'
            || c == '_' || c == '-',
        CharClass::Semi => c == ';',
    }
}

pub fn in_class_exec(c: char, cls: CharClass) -> (r: bool)
    ensures
        r == in_class(c, cls),
{
    match cls {
        CharClass::Ws => is_ws_char(c),
        CharClass::Digit => is_digit_char(c),
        CharClass::DigitComma => is_digit_char(c) || c == ',',
        CharClass::Space => c == ' ',
        CharClass::AcctChar => c == '-' || is_word_char(c),
        CharClass::CurrencyBody => ('A' <= c && c <= 'Z') || is_digit_char(c) || c == '\'' || c
            == '.' || c == '_' || c == '-',
        CharClass::Semi => c == ';',
    }
}

/// The first position at or after `i` whose character is not in `cls`.
pub open spec fn skip_class(s: Seq<char>, i: int, cls: CharClass) -> int
    decreases s.len() - i,
{
    if 0 <= i < s.len() && in_class(s[i], cls) {
        skip_class(s, i + 1, cls)
    } else {
        i
    }
}

pub proof fn lemma_skip_class(s: Seq<char>, i: int, cls: CharClass)
    requires
        0 <= i <= s.len(),
    ensures
        i <= skip_class(s, i, cls) <= s.len(),
        forall|k: int| i <= k < skip_class(s, i, cls) ==> in_class(#[trigger] s[k], cls),
        skip_class(s, i, cls) < s.len() ==> !in_class(s[skip_class(s, i, cls)], cls),
    decreases s.len() - i,
{
    if i < s.len() && in_class(s[i], cls) {
        lemma_skip_class(s, i + 1, cls);
    }
}

pub fn skip_class_exec(s: &[char], i: usize, cls: CharClass) -> (r: usize)
    requires
        i <= s@.len(),
    ensures
        r == skip_class(s@, i as int, cls),
        i <= r <= s@.len(),
{
    let mut k = i;
    proof {
        lemma_skip_class(s@, i as int, cls);
    }
    while k < s.len() && in_class_exec(s[k], cls)
        invariant
            i <= k <= s@.len(),
            skip_class(s@, k as int, cls) == skip_class(s@, i as int, cls),
        decreases s@.len() - k,
    {
        k = k + 1;
    }
    k
}

/// `skip_class(_, _, Ws)`.
pub open spec fn skip_ws(s: Seq<char>, i: int) -> int {
    skip_class(s, i, CharClass::Ws)
}

/// The end of the run of whitespace that closes `s[lo..hi]`: the least
/// `e >= lo` such that `s[e..hi]` is all whitespace.
pub open spec fn rtrim(s: Seq<char>, lo: int, hi: int) -> int
    decreases hi - lo,
{
    if lo < hi && is_ws(s[hi - 1]) {
        rtrim(s, lo, hi - 1)
    } else {
        hi
    }
}

pub proof fn lemma_rtrim(s: Seq<char>, lo: int, hi: int)
    requires
        0 <= lo <= hi <= s.len(),
    ensures
        lo <= rtrim(s, lo, hi) <= hi,
        forall|k: int| rtrim(s, lo, hi) <= k < hi ==> is_ws(#[trigger] s[k]),
        rtrim(s, lo, hi) > lo ==> !is_ws(s[rtrim(s, lo, hi) - 1]),
    decreases hi - lo,
{
    if lo < hi && is_ws(s[hi - 1]) {
        lemma_rtrim(s, lo, hi - 1);
    }
}

pub fn rtrim_exec(s: &[char], lo: usize, hi: usize) -> (r: usize)
    requires
        lo <= hi <= s@.len(),
    ensures
        r == rtrim(s@, lo as int, hi as int),
        lo <= r <= hi,
{
    let mut k = hi;
    proof {
        lemma_rtrim(s@, lo as int, hi as int);
    }
    while lo < k && is_ws_char(s[k - 1])
        invariant
            lo <= k <= hi,
            hi <= s@.len(),
            rtrim(s@, lo as int, k as int) == rtrim(s@, lo as int, hi as int),
        decreases k,
    {
        k = k - 1;
    }
    k
}

/// Whether `s[lo..hi]` holds a line feed (which `.` in the grammar does not match).
pub open spec fn has_newline(s: Seq<char>, lo: int, hi: int) -> bool {
    exists|k: int| lo <= k < hi && s[k] == '\n'
}

pub fn has_newline_exec(s: &[char], lo: usize, hi: usize) -> (r: bool)
    requires
        lo <= hi <= s@.len(),
    ensures
        r == has_newline(s@, lo as int, hi as int),
{
    let mut k = lo;
    while k < hi
        invariant
            lo <= k <= hi,
            hi <= s@.len(),
            forall|j: int| lo <= j < k ==> s@[j] != '\n',
        decreases hi - k,
    {
        if s[k] == '\n' {
            return true;
        }
        k = k + 1;
    }
    false
}

/// The first line feed at or after `i`, or the end.
pub open spec fn line_end(s: Seq<char>, i: int) -> int
    decreases s.len() - i,
{
    if 0 <= i < s.len() && s[i] != '\n' {
        line_end(s, i + 1)
    } else {
        i
    }
}

pub proof fn lemma_line_end(s: Seq<char>, i: int)
    requires
        0 <= i <= s.len(),
    ensures
        i <= line_end(s, i) <= s.len(),
        !has_newline(s, i, line_end(s, i)),
        line_end(s, i) < s.len() ==> s[line_end(s, i)] == '\n',
    decreases s.len() - i,
{
    if i < s.len() && s[i] != '\n' {
        lemma_line_end(s, i + 1);
    }
}

pub fn line_end_exec(s: &[char], i: usize) -> (r: usize)
    requires
        i <= s@.len(),
    ensures
        r == line_end(s@, i as int),
        i <= r <= s@.len(),
{
    let mut k = i;
    proof {
        lemma_line_end(s@, i as int);
    }
    while k < s.len() && s[k] != '\n'
        invariant
            i <= k <= s@.len(),
            line_end(s@, k as int) == line_end(s@, i as int),
        decreases s@.len() - k,
    {
        k = k + 1;
    }
    k
}

/// `lit` occurs in `s` at position `i`.
pub open spec fn lit_at(s: Seq<char>, i: int, lit: Seq<char>) -> bool {
    0 <= i && i + lit.len() <= s.len() && s.subrange(i, i + lit.len()) == lit
}

pub fn lit_at_exec(s: &[char], i: usize, lit: &str) -> (r: bool)
    ensures
        r == lit_at(s@, i as int, lit@),
{
    let n = lit.unicode_len();
    if i > s.len() || n > s.len() - i {
        return false;
    }
    let mut k: usize = 0;
    while k < n
        invariant
            k <= n,
            n == lit@.len(),
            i + n <= s@.len(),
            forall|j: int| 0 <= j < k ==> s@[i + j] == lit@[j],
        decreases n - k,
    {
        assert(i + k < s.len());
        if s[i + k] != lit.get_char(k) {
            assert(s@.subrange(i as int, i + n)[k as int] != lit@[k as int]);
            return false;
        }
        k = k + 1;
    }
    assert(s@.subrange(i as int, i + n) =~= lit@);
    true
}

/// A date `dddd-dd-dd` at position `i`.
pub open spec fn date_at(s: Seq<char>, i: int) -> bool {
    &&& 0 <= i && i + 10 <= s.len()
    &&& is_digit(s[i]) && is_digit(s[i + 1]) && is_digit(s[i + 2]) && is_digit(s[i + 3])
    &&& s[i + 4] == '-'
    &&& is_digit(s[i + 5]) && is_digit(s[i + 6])
    &&& s[i + 7] == '-'
    &&& is_digit(s[i + 8]) && is_digit(s[i + 9])
}

pub fn date_at_exec(s: &[char], i: usize) -> (r: bool)
    ensures
        r == date_at(s@, i as int),
{
    if i > s.len() || s.len() - i < 10 {
        return false;
    }
    is_digit_char(s[i]) && is_digit_char(s[i + 1]) && is_digit_char(s[i + 2]) && is_digit_char(
        s[i + 3],
    ) && s[i + 4] == '-' && is_digit_char(s[i + 5]) && is_digit_char(s[i + 6]) && s[i + 7] == '-'
        && is_digit_char(s[i + 8]) && is_digit_char(s[i + 9])
}

/// The digits of a number, `\\d[\\d,]*(\\.\\d+)?`, starting at `j`: their end,
/// taking every part greedily.
pub open spec fn unsigned_end(s: Seq<char>, j: int) -> Option<int> {
    if 0 <= j < s.len() && is_digit(s[j]) {
        let k = skip_class(s, j + 1, CharClass::DigitComma);
        if k + 1 < s.len() && s[k] == '.' && is_digit(s[k + 1]) {
            Some(skip_class(s, k + 1, CharClass::Digit))
        } else {
            Some(k)
        }
    } else {
        None
    }
}

/// A number `-?␣*\\d[\\d,]*(\\.\\d+)?` starting at `i` (spaces may follow the
/// sign): its end.
pub open spec fn number_end(s: Seq<char>, i: int) -> Option<int> {
    unsigned_end(
        s,
        if 0 <= i < s.len() && s[i] == '-' {
            skip_class(s, i + 1, CharClass::Space)
        } else {
            i
        },
    )
}

/// A number `-?\\d[\\d,]*(\\.\\d+)?` starting at `i`: its end.
pub open spec fn plain_number_end(s: Seq<char>, i: int) -> Option<int> {
    unsigned_end(
        s,
        if 0 <= i < s.len() && s[i] == '-' {
            i + 1
        } else {
            i
        },
    )
}

/// The characters a number is made of.
pub open spec fn is_number_char(c: char) -> bool {
    is_digit(c) || c == ',' || c == '.' || c == '-' || c == ' '
}

pub proof fn lemma_unsigned_end(s: Seq<char>, j: int)
    requires
        0 <= j <= s.len(),
    ensures
        unsigned_end(s, j) matches Some(e) ==> j < e <= s.len(),
        unsigned_end(s, j) matches Some(e) ==> forall|k: int|
            j <= k < e ==> is_number_char(#[trigger] s[k]),
{
    if 0 <= j < s.len() && is_digit(s[j]) {
        lemma_skip_class(s, j + 1, CharClass::DigitComma);
        let k = skip_class(s, j + 1, CharClass::DigitComma);
        if k + 1 < s.len() && s[k] == '.' && is_digit(s[k + 1]) {
            lemma_skip_class(s, k + 1, CharClass::Digit);
        }
    }
}

pub proof fn lemma_number_end(s: Seq<char>, i: int)
    requires
        0 <= i <= s.len(),
    ensures
        number_end(s, i) matches Some(e) ==> i < e <= s.len(),
        number_end(s, i) matches Some(e) ==> forall|k: int|
            i <= k < e ==> is_number_char(#[trigger] s[k]),
        plain_number_end(s, i) matches Some(e) ==> i < e <= s.len(),
        plain_number_end(s, i) matches Some(e) ==> forall|k: int|
            i <= k < e ==> is_number_char(#[trigger] s[k]),
{
    if 0 <= i < s.len() && s[i] == '-' {
        lemma_skip_class(s, i + 1, CharClass::Space);
        lemma_unsigned_end(s, skip_class(s, i + 1, CharClass::Space));
        lemma_unsigned_end(s, i + 1);
    } else {
        lemma_unsigned_end(s, i);
    }
}

fn unsigned_end_exec(s: &[char], j: usize) -> (r: Option<usize>)
    requires
        j <= s@.len(),
    ensures
        r == (match unsigned_end(s@, j as int) {
            Some(e) => Some(e as usize),
            None => None::<usize>,
        }),
        r matches Some(e) ==> j < e <= s@.len(),
{
    proof {
        lemma_unsigned_end(s@, j as int);
    }
    if j < s.len() && is_digit_char(s[j]) {
        let k = skip_class_exec(s, j + 1, CharClass::DigitComma);
        if k < s.len() && k + 1 < s.len() && s[k] == '.' && is_digit_char(s[k + 1]) {
            Some(skip_class_exec(s, k + 1, CharClass::Digit))
        } else {
            Some(k)
        }
    } else {
        None
    }
}

pub fn number_end_exec(s: &[char], i: usize) -> (r: Option<usize>)
    requires
        i <= s@.len(),
    ensures
        r == (match number_end(s@, i as int) {
            Some(e) => Some(e as usize),
            None => None::<usize>,
        }),
        r matches Some(e) ==> i < e <= s@.len(),
{
    proof {
        lemma_number_end(s@, i as int);
    }
    let j = if i < s.len() && s[i] == '-' {
        skip_class_exec(s, i + 1, CharClass::Space)
    } else {
        i
    };
    unsigned_end_exec(s, j)
}

pub fn plain_number_end_exec(s: &[char], i: usize) -> (r: Option<usize>)
    requires
        i <= s@.len(),
    ensures
        r == (match plain_number_end(s@, i as int) {
            Some(e) => Some(e as usize),
            None => None::<usize>,
        }),
        r matches Some(e) ==> i < e <= s@.len(),
{
    proof {
        lemma_number_end(s@, i as int);
    }
    let j = if i < s.len() && s[i] == '-' {
        i + 1
    } else {
        i
    };
    unsigned_end_exec(s, j)
}

/// A currency `[A-Z][A-Z0-9'._-]{0,22}[A-Z0-9]` that fills the whole run of
/// currency characters starting at `i`: its end.
pub open spec fn currency_end(s: Seq<char>, i: int) -> Option<int> {
    if 0 <= i < s.len() && 'A' <= s[i] && s[i] <= 'Z' {
        let k = skip_class(s, i + 1, CharClass::CurrencyBody);
        if 2 <= k - i <= 24 && (('A' <= s[k - 1] && s[k - 1] <= 'Z') || is_digit(s[k - 1])) {
            Some(k)
        } else {
            None
        }
    } else {
        None
    }
}

pub proof fn lemma_currency_end(s: Seq<char>, i: int)
    requires
        0 <= i <= s.len(),
    ensures
        currency_end(s, i) matches Some(e) ==> i < e <= s.len(),
{
    if 0 <= i < s.len() && 'A' <= s[i] && s[i] <= 'Z' {
        lemma_skip_class(s, i + 1, CharClass::CurrencyBody);
    }
}

pub fn currency_end_exec(s: &[char], i: usize) -> (r: Option<usize>)
    requires
        i <= s@.len(),
    ensures
        r == (match currency_end(s@, i as int) {
            Some(e) => Some(e as usize),
            None => None::<usize>,
        }),
        r matches Some(e) ==> i < e <= s@.len(),
{
    if i < s.len() && 'A' <= s[i] && s[i] <= 'Z' {
        let k = skip_class_exec(s, i + 1, CharClass::CurrencyBody);
        if k - i >= 2 && k - i <= 24 && (('A' <= s[k - 1] && s[k - 1] <= 'Z') || is_digit_char(
            s[k - 1],
        )) {
            Some(k)
        } else {
            None
        }
    } else {
        None
    }
}

/// `: [\w-]+` segments of an account, from `k` on: the end of the last one.
pub open spec fn segments_end(s: Seq<char>, k: int) -> int
    decreases s.len() - k,
{
    if 0 <= k && k + 1 < s.len() && s[k] == ':' && in_class(s[k + 1], CharClass::AcctChar) {
        let e = skip_class(s, k + 1, CharClass::AcctChar);
        proof {
            lemma_skip_class(s, k + 1, CharClass::AcctChar);
        }
        if e > k {
            segments_end(s, e)
        } else {
            k
        }
    } else {
        k
    }
}

pub proof fn lemma_segments_end(s: Seq<char>, k: int)
    requires
        0 <= k <= s.len(),
    ensures
        k <= segments_end(s, k) <= s.len(),
    decreases s.len() - k,
{
    if 0 <= k && k + 1 < s.len() && s[k] == ':' && in_class(s[k + 1], CharClass::AcctChar) {
        lemma_skip_class(s, k + 1, CharClass::AcctChar);
        let e = skip_class(s, k + 1, CharClass::AcctChar);
        lemma_segments_end(s, e);
    }
}

pub fn segments_end_exec(s: &[char], k: usize) -> (r: usize)
    requires
        k <= s@.len(),
    ensures
        r == segments_end(s@, k as int),
        k <= r <= s@.len(),
{
    let mut p = k;
    proof {
        lemma_segments_end(s@, k as int);
    }
    while p < s.len() && p + 1 < s.len() && s[p] == ':' && in_class_exec(s[p + 1], CharClass::AcctChar)
        invariant
            k <= p <= s@.len(),
            segments_end(s@, p as int) == segments_end(s@, k as int),
        decreases s@.len() - p,
    {
        let e = skip_class_exec(s, p + 1, CharClass::AcctChar);
        proof {
            lemma_skip_class(s@, p + 1, CharClass::AcctChar);
        }
        p = e;
    }
    p
}

/// An account `[A-Z\p{Lu}][\w-]*(:[\w-]+)+` starting at `i`, taken greedily: its end.
pub open spec fn account_end(s: Seq<char>, i: int) -> Option<int> {
    if 0 <= i < s.len() && crate::text::is_upper_letter(s[i]) {
        let k = skip_class(s, i + 1, CharClass::AcctChar);
        let e = segments_end(s, k);
        if e > k {
            Some(e)
        } else {
            None
        }
    } else {
        None
    }
}

pub proof fn lemma_account_end(s: Seq<char>, i: int)
    requires
        0 <= i <= s.len(),
    ensures
        account_end(s, i) matches Some(e) ==> i < e <= s.len(),
{
    if 0 <= i < s.len() && crate::text::is_upper_letter(s[i]) {
        lemma_skip_class(s, i + 1, CharClass::AcctChar);
        lemma_segments_end(s, skip_class(s, i + 1, CharClass::AcctChar));
    }
}

pub fn account_end_exec(s: &[char], i: usize) -> (r: Option<usize>)
    requires
        i <= s@.len(),
    ensures
        r == (match account_end(s@, i as int) {
            Some(e) => Some(e as usize),
            None => None::<usize>,
        }),
        r matches Some(e) ==> i < e <= s@.len(),
{
    if i < s.len() && crate::text::is_upper_letter_char(s[i]) {
        let k = skip_class_exec(s, i + 1, CharClass::AcctChar);
        let e = segments_end_exec(s, k);
        if e > k {
            Some(e)
        } else {
            None
        }
    } else {
        None
    }
}

/// `[A-Z0-9]`.
pub open spec fn is_upper_or_digit(c: char) -> bool {
    ('A' <= c && c <= 'Z') || is_digit(c)
}

/// The last position in `[lo, hi)` that holds `[A-Z0-9]`, or `lo - 1`.
pub open spec fn last_upper_or_digit(s: Seq<char>, lo: int, hi: int) -> int
    decreases hi - lo,
{
    if hi <= lo {
        lo - 1
    } else if is_upper_or_digit(s[hi - 1]) {
        hi - 1
    } else {
        last_upper_or_digit(s, lo, hi - 1)
    }
}

proof fn lemma_last_upper_or_digit(s: Seq<char>, lo: int, hi: int)
    requires
        lo <= hi,
    ensures
        lo - 1 <= last_upper_or_digit(s, lo, hi) < hi,
    decreases hi - lo,
{
    if lo < hi && !is_upper_or_digit(s[hi - 1]) {
        lemma_last_upper_or_digit(s, lo, hi - 1);
    }
}

/// The end of the longest currency `[A-Z][A-Z0-9'._-]{0,22}[A-Z0-9]` that starts
/// at `q`, whatever follows it.
pub open spec fn currency_match_end(s: Seq<char>, q: int) -> Option<int> {
    if 0 <= q < s.len() && 'A' <= s[q] && s[q] <= 'Z' {
        let r = skip_class(s, q + 1, CharClass::CurrencyBody);
        let hi = if r < q + 24 {
            r
        } else {
            q + 24
        };
        let k = last_upper_or_digit(s, q + 1, hi);
        if k >= q + 1 {
            Some(k + 1)
        } else {
            None
        }
    } else {
        None
    }
}

pub proof fn lemma_currency_match_end(s: Seq<char>, q: int)
    requires
        0 <= q <= s.len(),
    ensures
        currency_match_end(s, q) matches Some(m) ==> q < m <= s.len(),
{
    if 0 <= q < s.len() && 'A' <= s[q] && s[q] <= 'Z' {
        lemma_skip_class(s, q + 1, CharClass::CurrencyBody);
        let r = skip_class(s, q + 1, CharClass::CurrencyBody);
        let hi = if r < q + 24 {
            r
        } else {
            q + 24
        };
        lemma_last_upper_or_digit(s, q + 1, hi);
    }
}

pub fn currency_match_end_exec(s: &[char], q: usize) -> (r: Option<usize>)
    requires
        q <= s@.len(),
    ensures
        r == (match currency_match_end(s@, q as int) {
            Some(e) => Some(e as usize),
            None => None::<usize>,
        }),
        r matches Some(e) ==> q < e <= s@.len(),
{
    if q < s.len() && 'A' <= s[q] && s[q] <= 'Z' {
        let r = skip_class_exec(s, q + 1, CharClass::CurrencyBody);
        let hi = if r - q < 24 {
            r
        } else {
            q + 24
        };
        let mut k = hi;
        proof {
            lemma_last_upper_or_digit(s@, q + 1, hi as int);
        }
        while k > q + 1 && !(('A' <= s[k - 1] && s[k - 1] <= 'Z') || is_digit_char(s[k - 1]))
            invariant
                q + 1 <= k <= hi <= s@.len(),
                last_upper_or_digit(s@, q + 1, k as int) == last_upper_or_digit(
                    s@,
                    q + 1,
                    hi as int,
                ),
            decreases k,
        {
            k = k - 1;
        }
        if k > q + 1 {
            Some(k)
        } else {
            None
        }
    } else {
        None
    }
}

/// A run of `cls` from `i` that ends at `j` makes `skip_class` stop there.
pub proof fn lemma_skip_class_stops(s: Seq<char>, i: int, j: int, cls: CharClass)
    requires
        0 <= i <= j <= s.len(),
        forall|k: int| i <= k < j ==> in_class(#[trigger] s[k], cls),
        j == s.len() || !in_class(s[j], cls),
    ensures
        skip_class(s, i, cls) == j,
    decreases j - i,
{
    if i < j {
        lemma_skip_class_stops(s, i + 1, j, cls);
    }
}

} // verus!
