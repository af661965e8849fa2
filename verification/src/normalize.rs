//! Normalization of indentation, comments, numbers and braces.
use std::borrow::Cow;
use vstd::prelude::*;
use crate::align::spaces;
use crate::lex::{
    currency_match_end, currency_match_end_exec, has_newline, has_newline_exec, is_number_char,
    lemma_currency_match_end, lemma_number_end, lemma_rtrim, lemma_skip_class, plain_number_end, plain_number_end_exec, rtrim,
    rtrim_exec, skip_class, skip_class_exec, skip_ws, CharClass, lit_at, lit_at_exec,
};
use crate::options::{AmountScope, DecimalMode, Options, ThousandsSeparator};
use crate::text::{
    all_ascii, chars_of, index_or_len, index_or_len_exec, is_ws, lemma_index_or_len, push_char,
    push_range, push_repeat, remove_char, string_of, without_char, copy_range, lemma_remove_char_ascii, append_range, append_str,
};

verus! {

// ---------------------------------------------------------------------------
// Indentation
// ---------------------------------------------------------------------------

/// Columns taken by leading whitespace: a tab counts `base`, anything else 1.
pub open spec fn indent_weight(s: Seq<char>, base: int) -> int
    decreases s.len(),
{
    if s.len() == 0 {
        0
    } else {
        indent_weight(s.drop_last(), base) + if s.last() == '\t' {
            base
        } else {
            1int
        }
    }
}

/// `a / b` rounded up.
pub open spec fn ceil_div(a: int, b: int) -> int {
    a / b + if a % b == 0 {
        0int
    } else {
        1int
    }
}

/// Leading whitespace replaced by `indent` spaces per level, the level being the
/// leading width over the base width (`indent`, or 4 when it is 0), rounded up,
/// and at least 1. Lines that are empty, all whitespace or not indented stay.
pub open spec fn spec_normalize_indent(line: Seq<char>, indent: int) -> Seq<char> {
    let k = skip_ws(line, 0);
    if line.len() == 0 || !is_ws(line[0]) || k >= line.len() {
        line
    } else {
        let base = if indent > 0 {
            indent
        } else {
            4
        };
        let d = ceil_div(indent_weight(line.take(k), base), base);
        let depth = if d < 1 {
            1
        } else {
            d
        };
        spaces(indent * depth) + line.skip(k)
    }
}

proof fn lemma_indent_weight_bounds(s: Seq<char>, base: int)
    requires
        base >= 1,
    ensures
        s.len() <= indent_weight(s, base) <= s.len() * base,
    decreases s.len(),
{
    if s.len() > 0 {
        lemma_indent_weight_bounds(s.drop_last(), base);
        assert((s.len() - 1) * base + base == s.len() * base) by (nonlinear_arith);
    }
}

proof fn lemma_depth_bound(eff: int, base: int, k: int)
    requires
        base >= 1,
        k >= 1,
        0 <= eff <= k * base,
    ensures
        ceil_div(eff, base) <= k,
{
    assert(eff / base <= k) by (nonlinear_arith)
        requires
            base >= 1,
            0 <= eff <= k * base,
    ;
    if eff / base == k {
        assert(eff % base == 0) by (nonlinear_arith)
            requires
                base >= 1,
                eff / base == k,
                0 <= eff <= k * base,
        ;
    }
}

/// Replace leading whitespace with the configured indent string.
/// Indent depth is determined by dividing leading space count by base width (default 4),
/// rounding up, with a minimum of 1.
pub fn normalize_indent(line: &str, indent: usize) -> (r: String)
    requires
        skip_ws(line@, 0) * (indent + 4) <= usize::MAX,
    ensures
        r@ == spec_normalize_indent(line@, indent as int),
{
    let v = chars_of(line);
    let n = v.len();
    if n == 0 || !crate::text::is_ws_char(v[0]) {
        return string_of(&v);
    }
    let k = skip_class_exec(&v, 0, CharClass::Ws);
    if k >= n {
        return string_of(&v);
    }
    proof {
        lemma_skip_class(v@, 1, CharClass::Ws);
        assert(skip_class(v@, 0, CharClass::Ws) == skip_class(v@, 1, CharClass::Ws));
    }
    let base: usize = if indent > 0 {
        indent
    } else {
        4
    };
    let mut eff: usize = 0;
    let mut j: usize = 0;
    proof {
        assert(k * base <= k * (indent + 4)) by (nonlinear_arith)
            requires
                base <= indent + 4,
        ;
    }
    while j < k
        invariant
            j <= k <= n,
            n == v@.len(),
            1 <= base <= indent + 4,
            k * base <= usize::MAX,
            eff == indent_weight(v@.take(j as int), base as int),
            eff <= j * base,
        decreases k - j,
    {
        assert(v@.take(j + 1).drop_last() =~= v@.take(j as int));
        assert((j + 1) * base == j * base + base) by (nonlinear_arith);
        assert((j + 1) * base <= k * base) by (nonlinear_arith)
            requires
                j + 1 <= k,
                base >= 1,
        ;
        if v[j] == '\t' {
            eff = eff + base;
        } else {
            eff = eff + 1;
        }
        j = j + 1;
    }
    proof {
        lemma_depth_bound(eff as int, base as int, k as int);
    }
    let d = eff / base + if eff % base == 0 {
        0
    } else {
        1
    };
    let depth = if d < 1 {
        1
    } else {
        d
    };
    proof {
        assert(indent * depth <= k * (indent + 4)) by (nonlinear_arith)
            requires
                depth <= k,
        ;
    }
    let mut r = String::new();
    push_repeat(&mut r, ' ', indent * depth);
    push_range(&mut r, &v, k, n);
    assert(v@.subrange(k as int, n as int) =~= v@.skip(k as int));
    r
}

// ---------------------------------------------------------------------------
// Comments
// ---------------------------------------------------------------------------

/// `n` if positive, else 0.
pub open spec fn clamp0(n: int) -> int {
    if n > 0 {
        n
    } else {
        0
    }
}

/// A comment line (indentation, a run of `;`, then the content) with exactly
/// one space before its trimmed content, the run of `;` padded with spaces to
/// `width` first, and nothing after an empty content. Other lines stay.
pub open spec fn spec_normalize_comment_aligned(line: Seq<char>, width: int) -> Seq<char> {
    let w = skip_ws(line, 0);
    let e = skip_class(line, w, CharClass::Semi);
    let a = skip_ws(line, e);
    let b = rtrim(line, a, line.len() as int);
    if w < line.len() && line[w] == ';' && !has_newline(line, a, b) {
        if a == b {
            line.take(e)
        } else {
            line.take(e) + spaces(clamp0(width - (e - w))) + seq![' '] + line.subrange(a, b)
        }
    } else {
        line
    }
}

/// Normalize a comment line as `normalize_comment` does, but pad the semicolon
/// prefix to `width` before the single space that precedes the content.
pub fn normalize_comment_aligned(line: &str, width: usize) -> (r: String)
    ensures
        r@ == spec_normalize_comment_aligned(line@, width as int),
{
    let v = chars_of(line);
    let n = v.len();
    let w = skip_class_exec(&v, 0, CharClass::Ws);
    let e = skip_class_exec(&v, w, CharClass::Semi);
    let a = skip_class_exec(&v, e, CharClass::Ws);
    let b = rtrim_exec(&v, a, n);
    if w < n && v[w] == ';' && !has_newline_exec(&v, a, b) {
        let mut r = String::new();
        push_range(&mut r, &v, 0, e);
        if a < b {
            let semis = e - w;
            let pad = if width > semis {
                width - semis
            } else {
                0
            };
            push_repeat(&mut r, ' ', pad);
            push_char(&mut r, ' ');
            push_range(&mut r, &v, a, b);
        }
        assert(v@.subrange(0, e as int) =~= v@.take(e as int));
        assert(r@ =~= spec_normalize_comment_aligned(line@, width as int));
        r
    } else {
        string_of(&v)
    }
}

/// Normalize comment spacing: exactly one space after semicolons, no trailing space if empty.
pub fn normalize_comment(line: &str) -> (r: String)
    ensures
        r@ == spec_normalize_comment_aligned(line@, 0),
{
    normalize_comment_aligned(line, 0)
}

// ---------------------------------------------------------------------------
// Thousands separators
// ---------------------------------------------------------------------------

/// The number of bytes of `c` in UTF-8.
pub open spec fn utf8_len(c: char) -> int {
    if (c as u32) < 0x80 {
        1
    } else if (c as u32) < 0x800 {
        2
    } else if (c as u32) < 0x10000 {
        3
    } else {
        4
    }
}

/// The number of bytes of `d` in UTF-8.
pub open spec fn byte_len(d: Seq<char>) -> int
    decreases d.len(),
{
    if d.len() == 0 {
        0
    } else {
        byte_len(d.drop_last()) + utf8_len(d.last())
    }
}

/// A comma goes before character `j` of `d`: it is not the first, and a
/// multiple of three bytes of `d` start at it.
pub open spec fn comma_before(d: Seq<char>, j: int) -> bool {
    j > 0 && (byte_len(d) - byte_len(d.take(j))) % 3 == 0
}

/// Cutting `d` every three bytes from the right falls between characters:
/// no cut lands inside the UTF-8 bytes of a character.
pub open spec fn cuts_between_chars(d: Seq<char>) -> bool {
    forall|k: int|
        0 <= k < d.len() ==> {
            let r = (byte_len(d) - byte_len(d.take(k))) % 3;
            r != 0 ==> utf8_len(#[trigger] d[k]) <= r
        } && (utf8_len(d[k]) <= 3 || (byte_len(d) - byte_len(d.take(k))) % 3 != 0)
}

/// The first `k` characters of `d`, each preceded by a comma when
/// `comma_before` says so.
pub open spec fn grouped(d: Seq<char>, k: int) -> Seq<char>
    decreases k,
{
    if k <= 0 {
        seq![]
    } else {
        grouped(d, k - 1) + (if comma_before(d, k - 1) {
            seq![',']
        } else {
            seq![]
        }) + seq![d[k - 1]]
    }
}

/// `d` with a comma every three bytes from the right, as long as that falls
/// before a character.
pub open spec fn spec_add_commas(d: Seq<char>) -> Seq<char> {
    grouped(d, d.len() as int)
}

/// 1 when `t` starts with a sign, else 0.
pub open spec fn sign_len(t: Seq<char>) -> int {
    if t.len() > 0 && (t[0] == '-' || t[0] == '+') {
        1
    } else {
        0
    }
}

/// `t` (which holds no spaces) with its commas taken out and put back every
/// three digits of the integer part, after the sign and before the first `.`.
pub open spec fn spec_add_separators(t: Seq<char>) -> Seq<char> {
    let u = remove_char(t, ',');
    let rest = u.skip(sign_len(u));
    let dot = index_or_len(rest, '.');
    u.take(sign_len(u)) + spec_add_commas(rest.take(dot)) + rest.skip(dot)
}

/// The integer part that `ThousandsSeparator::Add` regroups.
pub open spec fn thousands_int_part(num: Seq<char>) -> Seq<char> {
    let u = remove_char(remove_char(num, ' '), ',');
    let rest = u.skip(sign_len(u));
    rest.take(index_or_len(rest, '.'))
}

/// The number with its spaces taken out, then its commas kept, taken out, or
/// regrouped.
pub open spec fn spec_normalize_thousands(num: Seq<char>, separator: ThousandsSeparator) -> Seq<
    char,
> {
    let t = remove_char(num, ' ');
    match separator {
        ThousandsSeparator::Keep => t,
        ThousandsSeparator::Remove => remove_char(t, ','),
        ThousandsSeparator::Add => spec_add_separators(t),
    }
}

fn utf8_len_exec(c: char) -> (r: u8)
    ensures
        r == utf8_len(c),
{
    let u = c as u32;
    if u < 0x80 {
        1
    } else if u < 0x800 {
        2
    } else if u < 0x10000 {
        3
    } else {
        4
    }
}

proof fn lemma_byte_len_step(d: Seq<char>, k: int)
    requires
        0 <= k < d.len(),
    ensures
        byte_len(d.take(k + 1)) == byte_len(d.take(k)) + utf8_len(d[k]),
{
    assert(d.take(k + 1).drop_last() =~= d.take(k));
}

fn add_commas(int_part: &str) -> (r: String)
    ensures
        r@ == spec_add_commas(int_part@),
{
    let d = chars_of(int_part);
    let n = d.len();
    // the byte length modulo 3
    let mut total: u8 = 0;
    let mut k: usize = 0;
    while k < n
        invariant
            k <= n,
            n == d@.len(),
            total < 3,
            total == byte_len(d@.take(k as int)) % 3,
        decreases n - k,
    {
        proof {
            lemma_byte_len_step(d@, k as int);
        }
        total = (total + utf8_len_exec(d[k])) % 3;
        k = k + 1;
    }
    assert(d@.take(n as int) =~= d@);
    // bytes from character `k` to the end, modulo 3
    let mut rem: u8 = total;
    let mut r = String::new();
    k = 0;
    assert(d@.take(0) =~= Seq::<char>::empty());
    while k < n
        invariant
            k <= n,
            n == d@.len(),
            d@ == int_part@,
            rem < 3,
            rem == (byte_len(d@) - byte_len(d@.take(k as int))) % 3,
            r@ == grouped(d@, k as int),
        decreases n - k,
    {
        if k > 0 && rem == 0 {
            push_char(&mut r, ',');
        }
        push_char(&mut r, d[k]);
        proof {
            lemma_byte_len_step(d@, k as int);
        }
        let w = utf8_len_exec(d[k]);
        rem = (rem + 6 - w) % 3;
        k = k + 1;
        assert(r@ =~= grouped(d@, k as int));
    }
    r
}

/// Normalize thousands separators on an extracted number string.
pub fn normalize_thousands(num_str: &str, separator: &ThousandsSeparator) -> (r: String)
    requires
        *separator is Add ==> cuts_between_chars(thousands_int_part(num_str@)),
    ensures
        r@ == spec_normalize_thousands(num_str@, *separator),
{
    let v = chars_of(num_str);
    let t = without_char(&v, ' ');
    match separator {
        ThousandsSeparator::Keep => string_of(&t),
        ThousandsSeparator::Remove => string_of(&without_char(&t, ',')),
        ThousandsSeparator::Add => {
            let u = without_char(&t, ',');
            let sl: usize = if u.len() > 0 && (u[0] == '-' || u[0] == '+') {
                1
            } else {
                0
            };
            let rest = copy_range(&u, sl, u.len());
            assert(rest@ =~= u@.skip(sl as int));
            let dot = index_or_len_exec(&rest, '.');
            let int_part = string_of(&copy_range(&rest, 0, dot));
            assert(int_part@ =~= rest@.take(dot as int));
            let grouped_int = add_commas(int_part.as_str());
            let mut r = String::new();
            push_range(&mut r, &u, 0, sl);
            crate::text::push_str(&mut r, grouped_int.as_str());
            push_range(&mut r, &rest, dot, rest.len());
            assert(u@.subrange(0, sl as int) =~= u@.take(sl as int));
            assert(rest@.subrange(dot as int, rest@.len() as int) =~= rest@.skip(dot as int));
            assert(r@ =~= spec_normalize_thousands(num_str@, *separator));
            r
        },
    }
}

// ---------------------------------------------------------------------------
// Decimal places
// ---------------------------------------------------------------------------

/// `n` zeros.
pub open spec fn zeros(n: int) -> Seq<char> {
    Seq::new(n as nat, |_i: int| '0')
}

/// The length of `f` once its trailing zeros are taken off.
pub open spec fn without_trailing_zeros(f: Seq<char>) -> int
    decreases f.len(),
{
    if f.len() > 0 && f.last() == '0' {
        without_trailing_zeros(f.drop_last())
    } else {
        f.len() as int
    }
}

proof fn lemma_without_trailing_zeros(f: Seq<char>)
    ensures
        0 <= without_trailing_zeros(f) <= f.len(),
        without_trailing_zeros(f.drop_last()) == without_trailing_zeros(f) || f.len() == 0
            || f.last() != '0',
    decreases f.len(),
{
    if f.len() > 0 && f.last() == '0' {
        lemma_without_trailing_zeros(f.drop_last());
    }
}

/// The number's decimal places: kept as written; or, with its spaces taken out,
/// cut to the fewest (`Minimal`: trailing zeros and a bare point go) or
/// padded with zeros to at least `places` (`Pad`).
pub open spec fn spec_normalize_decimals(num: Seq<char>, mode: DecimalMode, places: int) -> Seq<
    char,
> {
    let t = remove_char(num, ' ');
    let dot = index_or_len(t, '.');
    match mode {
        DecimalMode::Keep => num,
        DecimalMode::Minimal => if dot == t.len() {
            t
        } else {
            let m = without_trailing_zeros(t.skip(dot + 1));
            if m == 0 {
                t.take(dot)
            } else {
                t.take(dot + 1 + m)
            }
        },
        DecimalMode::Pad => if dot == t.len() {
            if places > 0 {
                t + seq!['.'] + zeros(places)
            } else {
                t
            }
        } else {
            let flen = t.len() - dot - 1;
            if flen < places {
                t + zeros(places - flen)
            } else {
                t
            }
        },
    }
}

/// Normalize the decimal places of a number string.
pub fn normalize_decimals(num: &str, mode: DecimalMode, places: usize) -> (r: String)
    ensures
        r@ == spec_normalize_decimals(num@, mode, places as int),
{
    let v = chars_of(num);
    if mode == DecimalMode::Keep {
        return string_of(&v);
    }
    let t = without_char(&v, ' ');
    let n = t.len();
    let dot = index_or_len_exec(&t, '.');
    proof {
        lemma_index_or_len(t@, '.');
    }
    let mut r = String::new();
    match mode {
        DecimalMode::Minimal => {
            if dot == n {
                push_range(&mut r, &t, 0, n);
            } else {
                let mut m = n;
                proof {
                    lemma_without_trailing_zeros(t@.skip(dot + 1));
                }
                while m > dot + 1 && t[m - 1] == '0'
                    invariant
                        dot + 1 <= m <= n,
                        n == t@.len(),
                        without_trailing_zeros(t@.subrange(dot + 1, m as int))
                            == without_trailing_zeros(t@.skip(dot + 1)),
                    decreases m,
                {
                    assert(t@.subrange(dot + 1, m as int).drop_last() =~= t@.subrange(
                        dot + 1,
                        m - 1,
                    ));
                    m = m - 1;
                }
                assert(t@.subrange(dot + 1, n as int) =~= t@.skip(dot + 1));
                if m == dot + 1 {
                    push_range(&mut r, &t, 0, dot);
                } else {
                    assert(t@.subrange(dot + 1, m as int).last() != '0');
                    push_range(&mut r, &t, 0, m);
                }
            }
        },
        _ => {
            push_range(&mut r, &t, 0, n);
            if dot == n {
                if places > 0 {
                    push_char(&mut r, '.');
                    push_repeat(&mut r, '0', places);
                }
            } else {
                let flen = n - dot - 1;
                if flen < places {
                    push_repeat(&mut r, '0', places - flen);
                }
            }
        },
    }
    assert(t@.subrange(0, n as int) =~= t@);
    assert(r@ =~= spec_normalize_decimals(num@, mode, places as int));
    r
}

/// Thousands separators, then decimal places, as the options say.
pub open spec fn spec_normalize_number(num: Seq<char>, options: Options) -> Seq<char> {
    spec_normalize_decimals(
        spec_normalize_thousands(num, options.thousands_separator),
        options.decimal_mode,
        options.decimal_places as int,
    )
}

/// Normalize a number: thousands separators first, then decimal places.
pub fn normalize_number(num: &str, options: &Options) -> (r: String)
    requires
        options.thousands_separator is Add ==> cuts_between_chars(thousands_int_part(num@)),
    ensures
        r@ == spec_normalize_number(num@, *options),
{
    let t = normalize_thousands(num, &options.thousands_separator);
    normalize_decimals(t.as_str(), options.decimal_mode, options.decimal_places)
}

// ---------------------------------------------------------------------------
// Amounts inside costs and price annotations
// ---------------------------------------------------------------------------

/// An amount at `i`: a number, whitespace, then a currency. The end of the
/// number and the end of the amount.
pub open spec fn amount_match(s: Seq<char>, i: int) -> Option<(int, int)> {
    match plain_number_end(s, i) {
        Some(e) => {
            let q = skip_ws(s, e);
            if q > e {
                match currency_match_end(s, q) {
                    Some(m) => Some((e, m)),
                    None => None,
                }
            } else {
                None
            }
        },
        None => None,
    }
}

/// `s[i..]` with the number of each amount normalized, scanning from the left
/// and resuming after each amount.
pub open spec fn amount_rewrite(s: Seq<char>, i: int, options: Options) -> Seq<char>
    decreases s.len() - i,
{
    if i < 0 || i >= s.len() {
        seq![]
    } else {
        match amount_match(s, i) {
            Some((e, m)) => if i < e <= m <= s.len() {
                spec_normalize_number(s.subrange(i, e), options) + s.subrange(e, m)
                    + amount_rewrite(s, m, options)
            } else {
                seq![]
            },
            None => seq![s[i]] + amount_rewrite(s, i + 1, options),
        }
    }
}

/// Whether number normalization leaves every amount as it is.
pub open spec fn amounts_untouched(options: Options) -> bool {
    options.amount_scope is Amounts || (options.thousands_separator is Keep
        && options.decimal_mode is Keep)
}

pub open spec fn spec_normalize_amount(s: Seq<char>, options: Options) -> Seq<char> {
    if amounts_untouched(options) {
        s
    } else {
        amount_rewrite(s, 0, options)
    }
}

pub proof fn lemma_number_token_ascii(s: Seq<char>, i: int, e: int)
    requires
        0 <= i < e <= s.len(),
        forall|k: int| i <= k < e ==> is_number_char(#[trigger] s[k]),
    ensures
        all_ascii(thousands_int_part(s.subrange(i, e))),
{
    let tok = s.subrange(i, e);
    assert(all_ascii(tok)) by {
        assert forall|k: int| 0 <= k < tok.len() implies (tok[k] as u32) < 128 by {
            assert(is_number_char(s[i + k]));
        }
    }
    lemma_remove_char_ascii(tok, ' ');
    lemma_remove_char_ascii(remove_char(tok, ' '), ',');
    let u = remove_char(remove_char(tok, ' '), ',');
    let rest = u.skip(sign_len(u));
    lemma_index_or_len(rest, '.');
    assert(all_ascii(rest));
}

/// Normalize the numbers of the amounts in a cost or price annotation: each
/// number followed by whitespace and a currency gets thousands and decimal
/// normalization. Dates and other text stay.
pub fn normalize_amount<'a>(s: &'a str, options: &Options) -> (r: Cow<'a, str>)
    ensures
        r@ == spec_normalize_amount(s@, *options),
        amounts_untouched(*options) ==> r matches Cow::Borrowed(_),
{
    if options.amount_scope == AmountScope::Amounts || (options.thousands_separator
        == ThousandsSeparator::Keep && options.decimal_mode == DecimalMode::Keep) {
        return Cow::Borrowed(s);
    }
    let v = chars_of(s);
    let n = v.len();
    let mut out = String::new();
    let mut i: usize = 0;
    while i < n
        invariant
            i <= n,
            n == v@.len(),
            v@ == s@,
            !amounts_untouched(*options),
            out@ + amount_rewrite(v@, i as int, *options) == amount_rewrite(v@, 0, *options),
        decreases n - i,
    {
        let mut matched = false;
        proof {
            lemma_number_end(v@, i as int);
        }
        match plain_number_end_exec(&v, i) {
            Some(e) => {
                let q = skip_class_exec(&v, e, CharClass::Ws);
                if q > e {
                    match currency_match_end_exec(&v, q) {
                        Some(m) => {
                            proof {
                                lemma_currency_match_end(v@, q as int);
                                lemma_number_end(v@, i as int);
                                lemma_number_token_ascii(v@, i as int, e as int);
                                lemma_skip_class(v@, e as int, CharClass::Ws);
                            }
                            let token = string_of(&copy_range(&v, i, e));
                            let normalized = normalize_number(token.as_str(), options);
                            let ghost before = out@;
                            assert(amount_match(v@, i as int) == Some((e as int, m as int)));
                            assert(token@ == v@.subrange(i as int, e as int));
                            assert(amount_rewrite(v@, i as int, *options) == spec_normalize_number(
                                v@.subrange(i as int, e as int),
                                *options,
                            ) + v@.subrange(e as int, m as int) + amount_rewrite(
                                v@,
                                m as int,
                                *options,
                            ));
                            crate::text::push_str(&mut out, normalized.as_str());
                            push_range(&mut out, &v, e, m);
                            assert(out@ + amount_rewrite(v@, m as int, *options) =~= before
                                + amount_rewrite(v@, i as int, *options));
                            i = m;
                            matched = true;
                        },
                        None => {},
                    }
                }
            },
            None => {},
        }
        if !matched {
            let ghost before = out@;
            push_char(&mut out, v[i]);
            assert(out@ + amount_rewrite(v@, i + 1, *options) =~= before + amount_rewrite(
                v@,
                i as int,
                *options,
            ));
            i = i + 1;
        }
    }
    assert(out@ =~= amount_rewrite(v@, 0, *options));
    Cow::Owned(out)
}

// ---------------------------------------------------------------------------
// Braces
// ---------------------------------------------------------------------------

/// `close`, after any whitespace, at `c`.
pub open spec fn close_at(s: Seq<char>, c: int, close: Seq<char>) -> bool {
    lit_at(s, skip_ws(s, c), close)
}

/// The least `c` at or after `from`, with no line feed in `s[from..c]`, where
/// `close_at` holds: the end of the shortest content.
pub open spec fn find_close(s: Seq<char>, c: int, close: Seq<char>) -> Option<int>
    decreases s.len() - c,
{
    if c < 0 || c > s.len() {
        None
    } else if close_at(s, c, close) {
        Some(c)
    } else if c < s.len() && s[c] != '\n' {
        find_close(s, c + 1, close)
    } else {
        None
    }
}

proof fn lemma_find_close(s: Seq<char>, c: int, close: Seq<char>)
    requires
        0 <= c <= s.len(),
    ensures
        find_close(s, c, close) matches Some(e) ==> c <= e <= s.len() && close_at(s, e, close)
            && e <= skip_ws(s, e) && skip_ws(s, e) + close.len() <= s.len(),
    decreases s.len() - c,
{
    lemma_skip_class(s, c, CharClass::Ws);
    if !close_at(s, c, close) && c < s.len() && s[c] != '\n' {
        lemma_find_close(s, c + 1, close);
    }
}

/// A group opened by `open` at `p`: the start and end of its content (without
/// the whitespace around it) and the end of the group.
pub open spec fn brace_group(s: Seq<char>, p: int, open: Seq<char>, close: Seq<char>) -> Option<
    (int, int, int),
> {
    if lit_at(s, p, open) {
        let a = skip_ws(s, p + open.len());
        match find_close(s, a, close) {
            Some(c) => Some((a, c, skip_ws(s, c) + close.len())),
            None => None,
        }
    } else {
        None
    }
}

/// What a group becomes: the two markers around the content, with one space
/// inside each when there is content.
pub open spec fn group_text(content: Seq<char>, open_rep: Seq<char>, close_rep: Seq<char>) -> Seq<
    char,
> {
    if content.len() == 0 {
        open_rep + close_rep
    } else {
        open_rep + seq![' '] + content + seq![' '] + close_rep
    }
}

/// `s[i..]` with each group, found from the left, rewritten by `group_text`.
pub open spec fn brace_rewrite(
    s: Seq<char>,
    i: int,
    open: Seq<char>,
    close: Seq<char>,
    open_rep: Seq<char>,
    close_rep: Seq<char>,
) -> Seq<char>
    decreases s.len() - i,
{
    if i < 0 || i >= s.len() {
        seq![]
    } else {
        match brace_group(s, i, open, close) {
            Some((a, c, m)) => if 0 <= a <= c <= s.len() && i < m <= s.len() {
                group_text(s.subrange(a, c), open_rep, close_rep) + brace_rewrite(
                    s,
                    m,
                    open,
                    close,
                    open_rep,
                    close_rep,
                )
            } else {
                seq![]
            },
            None => seq![s[i]] + brace_rewrite(s, i + 1, open, close, open_rep, close_rep),
        }
    }
}

/// `s[i..]` with each occurrence of `pat`, found from the left, replaced by `rep`.
pub open spec fn replace_from(s: Seq<char>, i: int, pat: Seq<char>, rep: Seq<char>) -> Seq<char>
    decreases s.len() - i,
{
    if i < 0 || i >= s.len() || pat.len() == 0 {
        s.subrange(i, s.len() as int)
    } else if lit_at(s, i, pat) {
        rep + replace_from(s, i + pat.len(), pat, rep)
    } else {
        seq![s[i]] + replace_from(s, i + 1, pat, rep)
    }
}

pub open spec fn open_marker() -> Seq<char> {
    "\u{0}DOPEN\u{0}"@
}

pub open spec fn close_marker() -> Seq<char> {
    "\u{0}DCLOSE\u{0}"@
}

/// Spaces inside `{{...}}` and `{...}` groups when `spaces_in_braces`: double
/// groups are rewritten first (to markers), then single groups, then the
/// markers become `{{` and `}}` again.
pub open spec fn spec_normalize_braces(s: Seq<char>, spaces_in_braces: bool) -> Seq<char> {
    if !spaces_in_braces {
        s
    } else {
        let doubled = brace_rewrite(s, 0, "{{"@, "}}"@, open_marker(), close_marker());
        let singled = brace_rewrite(doubled, 0, "{"@, "}"@, "{"@, "}"@);
        replace_from(
            replace_from(singled, 0, open_marker(), "{{"@),
            0,
            close_marker(),
            "}}"@,
        )
    }
}

fn find_close_exec(v: &[char], a: usize, close: &str) -> (r: Option<usize>)
    requires
        a <= v@.len(),
    ensures
        r == (match find_close(v@, a as int, close@) {
            Some(e) => Some(e as usize),
            None => None::<usize>,
        }),
{
    let n = v.len();
    let mut c = a;
    proof {
        lemma_find_close(v@, a as int, close@);
    }
    loop
        invariant
            a <= c <= n,
            n == v@.len(),
            find_close(v@, c as int, close@) == find_close(v@, a as int, close@),
        decreases n - c,
    {
        let q = skip_class_exec(v, c, CharClass::Ws);
        if lit_at_exec(v, q, close) {
            return Some(c);
        }
        if c < n && v[c] != '\n' {
            c = c + 1;
        } else {
            return None;
        }
    }
}

fn brace_rewrite_exec(v: &[char], open: &str, close: &str, open_rep: &str, close_rep: &str) -> (r:
    Vec<char>)
    requires
        open@.len() > 0,
    ensures
        r@ == brace_rewrite(v@, 0, open@, close@, open_rep@, close_rep@),
{
    let n = v.len();
    let mut out: Vec<char> = Vec::new();
    let mut i: usize = 0;
    let ghost total = brace_rewrite(v@, 0, open@, close@, open_rep@, close_rep@);
    while i < n
        invariant
            i <= n,
            n == v@.len(),
            open@.len() > 0,
            out@ + brace_rewrite(v@, i as int, open@, close@, open_rep@, close_rep@) == total,
        decreases n - i,
    {
        let ghost before = out@;
        let mut done = false;
        if lit_at_exec(v, i, open) {
            let a = skip_class_exec(v, i + open.unicode_len(), CharClass::Ws);
            proof {
                lemma_find_close(v@, a as int, close@);
            }
            match find_close_exec(v, a, close) {
                Some(c) => {
                    let q = skip_class_exec(v, c, CharClass::Ws);
                    let m = q + close.unicode_len();
                    append_str(&mut out, open_rep);
                    if a < c {
                        out.push(' ');
                        append_range(&mut out, v, a, c);
                        out.push(' ');
                    }
                    append_str(&mut out, close_rep);
                    assert(out@ =~= before + group_text(
                        v@.subrange(a as int, c as int),
                        open_rep@,
                        close_rep@,
                    ));
                    i = m;
                    done = true;
                },
                None => {},
            }
        }
        if !done {
            out.push(v[i]);
            i = i + 1;
            assert(out@ + brace_rewrite(v@, i as int, open@, close@, open_rep@, close_rep@)
                =~= before + brace_rewrite(v@, i - 1, open@, close@, open_rep@, close_rep@));
        }
    }
    assert(out@ =~= total);
    out
}

pub(crate) fn replace_all_exec(v: &[char], pat: &str, rep: &str) -> (r: Vec<char>)
    requires
        pat@.len() > 0,
    ensures
        r@ == replace_from(v@, 0, pat@, rep@),
{
    let n = v.len();
    let p = pat.unicode_len();
    let mut out: Vec<char> = Vec::new();
    let mut i: usize = 0;
    let ghost total = replace_from(v@, 0, pat@, rep@);
    while i < n
        invariant
            i <= n,
            n == v@.len(),
            p == pat@.len(),
            p > 0,
            out@ + replace_from(v@, i as int, pat@, rep@) == total,
        decreases n - i,
    {
        let ghost before = out@;
        if lit_at_exec(v, i, pat) {
            append_str(&mut out, rep);
            i = i + p;
            assert(out@ + replace_from(v@, i as int, pat@, rep@) =~= before + replace_from(
                v@,
                i - p,
                pat@,
                rep@,
            ));
        } else {
            out.push(v[i]);
            i = i + 1;
            assert(out@ + replace_from(v@, i as int, pat@, rep@) =~= before + replace_from(
                v@,
                i - 1,
                pat@,
                rep@,
            ));
        }
    }
    assert(v@.subrange(n as int, n as int) =~= Seq::<char>::empty());
    assert(out@ =~= total);
    out
}

/// Normalize brace spacing: add spaces inside `{...}` and `{{...}}` if enabled.
pub fn normalize_braces(s: &str, spaces_in_braces: bool) -> (r: String)
    ensures
        r@ == spec_normalize_braces(s@, spaces_in_braces),
{
    let v = chars_of(s);
    if !spaces_in_braces {
        return string_of(&v);
    }
    proof {
        reveal_strlit("{{");
        reveal_strlit("{");
        reveal_strlit("\u{0}DOPEN\u{0}");
        reveal_strlit("\u{0}DCLOSE\u{0}");
    }
    let doubled = brace_rewrite_exec(&v, "{{", "}}", "\u{0}DOPEN\u{0}", "\u{0}DCLOSE\u{0}");
    let singled = brace_rewrite_exec(&doubled, "{", "}", "{", "}");
    let opened = replace_all_exec(&singled, "\u{0}DOPEN\u{0}", "{{");
    let closed = replace_all_exec(&opened, "\u{0}DCLOSE\u{0}", "}}");
    string_of(&closed)
}

// ---------------------------------------------------------------------------
// Laws
// ---------------------------------------------------------------------------

/// Normalizing a comment line twice, to the same width, gives what normalizing
/// it once does.
pub proof fn law_comment_normalization_idempotent(line: Seq<char>, width: int)
    ensures
        spec_normalize_comment_aligned(spec_normalize_comment_aligned(line, width), width)
            == spec_normalize_comment_aligned(line, width),
{
    let n = line.len() as int;
    let w = skip_ws(line, 0);
    lemma_skip_class(line, 0, CharClass::Ws);
    let e = skip_class(line, w, CharClass::Semi);
    lemma_skip_class(line, w, CharClass::Semi);
    let a = skip_ws(line, e);
    lemma_skip_class(line, e, CharClass::Ws);
    let b = rtrim(line, a, n);
    lemma_rtrim(line, a, n);
    let c = spec_normalize_comment_aligned(line, width);
    if w < n && line[w] == ';' && !has_newline(line, a, b) {
        assert(e > w);
        if a == b {
            assert(c == line.take(e));
            assert forall|k: int| 0 <= k < w implies crate::lex::in_class(#[trigger] c[k], CharClass::Ws) by {
                assert(c[k] == line[k]);
            }
            crate::lex::lemma_skip_class_stops(c, 0, w, CharClass::Ws);
            assert forall|k: int| w <= k < e implies crate::lex::in_class(#[trigger] c[k], CharClass::Semi) by {
                assert(c[k] == line[k]);
            }
            crate::lex::lemma_skip_class_stops(c, w, e, CharClass::Semi);
            crate::lex::lemma_skip_class_stops(c, e, e, CharClass::Ws);
            assert(!has_newline(c, e, e));
            assert(c.take(e) =~= c);
        } else {
            let pad = clamp0(width - (e - w));
            let content = line.subrange(a, b);
            let start = e + pad + 1;
            assert(c == line.take(e) + spaces(pad) + seq![' '] + content);
            let len = c.len() as int;
            assert(len == start + (b - a));
            assert forall|k: int| 0 <= k < w implies crate::lex::in_class(#[trigger] c[k], CharClass::Ws) by {
                assert(c[k] == line[k]);
            }
            assert(c[w] == line[w]);
            crate::lex::lemma_skip_class_stops(c, 0, w, CharClass::Ws);
            assert forall|k: int| w <= k < e implies crate::lex::in_class(#[trigger] c[k], CharClass::Semi) by {
                assert(c[k] == line[k]);
            }
            assert(c[e] == ' ');
            crate::lex::lemma_skip_class_stops(c, w, e, CharClass::Semi);
            assert forall|k: int| e <= k < start implies crate::lex::in_class(#[trigger] c[k], CharClass::Ws) by {
                assert(c[k] == ' ');
            }
            assert(a < n);
            assert(c[start] == line[a]);
            crate::lex::lemma_skip_class_stops(c, e, start, CharClass::Ws);
            assert(c[len - 1] == line[b - 1]);
            assert(rtrim(c, start, len) == len);
            assert(!has_newline(c, start, len)) by {
                assert forall|k: int| start <= k < len implies c[k] != '\n' by {
                    assert(c[k] == line[a + (k - start)]);
                }
            }
            assert(c.take(e) =~= line.take(e));
            assert(c.subrange(start, len) =~= content);
        }
    }
}

proof fn lemma_indent_weight_spaces(n: int, base: int)
    requires
        n >= 0,
    ensures
        indent_weight(spaces(n), base) == n,
    decreases n,
{
    if n > 0 {
        assert(spaces(n).drop_last() =~= spaces(n - 1));
        lemma_indent_weight_spaces(n - 1, base);
    } else {
        assert(spaces(n).len() == 0);
    }
}

/// Normalizing the indentation of a line twice, to the same width, gives what
/// normalizing it once does.
pub proof fn law_indent_idempotent(line: Seq<char>, indent: int)
    requires
        indent >= 0,
    ensures
        spec_normalize_indent(spec_normalize_indent(line, indent), indent)
            == spec_normalize_indent(line, indent),
{
    let k = skip_ws(line, 0);
    lemma_skip_class(line, 0, CharClass::Ws);
    if line.len() == 0 || !is_ws(line[0]) || k >= line.len() {
    } else {
        let base = if indent > 0 {
            indent
        } else {
            4
        };
        let d = ceil_div(indent_weight(line.take(k), base), base);
        let depth = if d < 1 {
            1
        } else {
            d
        };
        let m = indent * depth;
        assert(m >= 0) by (nonlinear_arith)
            requires
                indent >= 0,
                depth >= 1,
                m == indent * depth,
        ;
        let rest = line.skip(k);
        let c = spaces(m) + rest;
        assert(c == spec_normalize_indent(line, indent));
        assert(!is_ws(rest[0]));
        if indent == 0 {
            assert(m == 0) by (nonlinear_arith)
                requires
                    indent == 0,
                    m == indent * depth,
            ;
            assert(spaces(m).len() == 0);
            assert(c =~= rest);
        } else {
            assert(m >= indent) by (nonlinear_arith)
                requires
                    indent >= 1,
                    depth >= 1,
                    m == indent * depth,
            ;
            assert forall|j: int| 0 <= j < m implies crate::lex::in_class(#[trigger] c[j], CharClass::Ws) by {
                assert(c[j] == ' ');
            }
            assert(c[m] == rest[0]);
            crate::lex::lemma_skip_class_stops(c, 0, m, CharClass::Ws);
            assert(c.take(m) =~= spaces(m));
            lemma_indent_weight_spaces(m, base);
            assert(m / indent == depth && m % indent == 0) by (nonlinear_arith)
                requires
                    indent >= 1,
                    depth >= 1,
                    m == indent * depth,
            ;
            assert(c.skip(m) =~= rest);
        }
    }
}

proof fn lemma_index_at(s: Seq<char>, c: char, j: int)
    requires
        0 <= j <= s.len(),
        forall|k: int| 0 <= k < j ==> s[k] != c,
        j == s.len() || s[j] == c,
    ensures
        index_or_len(s, c) == j,
{
    lemma_index_or_len(s, c);
    let i = index_or_len(s, c);
    if i < j {
        assert(s[i] != c);
    } else if i > j {
        assert(s[j] != c);
    }
}

proof fn lemma_wtz_take(f: Seq<char>)
    ensures
        without_trailing_zeros(f.take(without_trailing_zeros(f))) == without_trailing_zeros(f),
    decreases f.len(),
{
    lemma_without_trailing_zeros(f);
    if f.len() > 0 && f.last() == '0' {
        let g = f.drop_last();
        lemma_wtz_take(g);
        lemma_without_trailing_zeros(g);
        assert(f.take(without_trailing_zeros(f)) =~= g.take(without_trailing_zeros(g)));
    } else {
        assert(f.take(f.len() as int) =~= f);
    }
}

/// Normalizing the decimal places of a number twice, in the same mode and to
/// the same number of places, gives what normalizing it once does.
pub proof fn law_decimals_idempotent(num: Seq<char>, mode: DecimalMode, places: int)
    requires
        places >= 0,
    ensures
        spec_normalize_decimals(spec_normalize_decimals(num, mode, places), mode, places)
            == spec_normalize_decimals(num, mode, places),
{
    let t = remove_char(num, ' ');
    lemma_remove_lacks_self(num, ' ');
    let dot = index_or_len(t, '.');
    lemma_index_or_len(t, '.');
    let r = spec_normalize_decimals(num, mode, places);
    match mode {
        DecimalMode::Keep => {},
        DecimalMode::Minimal => {
            if dot == t.len() {
                lemma_remove_absent(t, ' ');
            } else {
                let f = t.skip(dot + 1);
                let m = without_trailing_zeros(f);
                lemma_without_trailing_zeros(f);
                assert(lacks(r, ' '));
                lemma_remove_absent(r, ' ');
                if m == 0 {
                    assert(r == t.take(dot));
                    lemma_index_at(r, '.', dot);
                } else {
                    assert(r == t.take(dot + 1 + m));
                    lemma_index_at(r, '.', dot);
                    assert(r.skip(dot + 1) =~= f.take(m));
                    lemma_wtz_take(f);
                    assert(r.take(dot + 1 + m) =~= r);
                }
            }
        },
        DecimalMode::Pad => {
            if dot == t.len() {
                if places > 0 {
                    let n = t.len() as int;
                    assert(r == t + seq!['.'] + zeros(places));
                    assert(lacks(r, ' '));
                    lemma_remove_absent(r, ' ');
                    assert(r[n] == '.');
                    lemma_index_at(r, '.', n);
                } else {
                    lemma_remove_absent(t, ' ');
                }
            } else {
                let flen = t.len() - dot - 1;
                if flen < places {
                    assert(r == t + zeros(places - flen));
                    assert(lacks(r, ' '));
                    lemma_remove_absent(r, ' ');
                    assert(r[dot] == '.');
                    lemma_index_at(r, '.', dot);
                } else {
                    lemma_remove_absent(t, ' ');
                }
            }
        },
    }
}

proof fn lemma_rtrim_stops(s: Seq<char>, lo: int, e: int, hi: int)
    requires
        0 <= lo <= e <= hi <= s.len(),
        forall|k: int| e <= k < hi ==> is_ws(#[trigger] s[k]),
        e == lo || !is_ws(s[e - 1]),
    ensures
        rtrim(s, lo, hi) == e,
    decreases hi - e,
{
    if e < hi {
        lemma_rtrim_stops(s, lo, e, hi - 1);
    }
}

/// Brace rewriting leaves text in which the opening pattern never occurs.
proof fn lemma_brace_rewrite_none(
    s: Seq<char>,
    i: int,
    open: Seq<char>,
    close: Seq<char>,
    open_rep: Seq<char>,
    close_rep: Seq<char>,
)
    requires
        0 <= i <= s.len(),
        forall|j: int| i <= j < s.len() ==> !lit_at(s, j, open),
    ensures
        brace_rewrite(s, i, open, close, open_rep, close_rep) == s.subrange(i, s.len() as int),
    decreases s.len() - i,
{
    if i < s.len() {
        lemma_brace_rewrite_none(s, i + 1, open, close, open_rep, close_rep);
        assert(s.subrange(i, s.len() as int) =~= seq![s[i]] + s.subrange(i + 1, s.len() as int));
    }
}

/// Replacing a pattern whose first character does not occur changes nothing.
proof fn lemma_replace_none(s: Seq<char>, i: int, pat: Seq<char>, rep: Seq<char>)
    requires
        0 <= i <= s.len(),
        pat.len() > 0,
        forall|j: int| 0 <= j < s.len() ==> s[j] != pat[0],
    ensures
        replace_from(s, i, pat, rep) == s.subrange(i, s.len() as int),
    decreases s.len() - i,
{
    if i < s.len() {
        assert(!lit_at(s, i, pat)) by {
            if lit_at(s, i, pat) {
                assert(s.subrange(i, i + pat.len())[0] == s[i]);
            }
        }
        lemma_replace_none(s, i + 1, pat, rep);
        assert(s.subrange(i, s.len() as int) =~= seq![s[i]] + s.subrange(i + 1, s.len() as int));
    }
}

/// Inside a single-brace group, the scan for its closing brace finds the end
/// of the content without its trailing whitespace.
proof fn lemma_find_close_group(s: Seq<char>, close: Seq<char>, p: int, e: int)
    requires
        close.len() >= 1,
        close[0] == '}',
        1 <= p <= e <= s.len() - close.len(),
        s.subrange(s.len() - close.len(), s.len() as int) == close,
        forall|k: int| e <= k < s.len() - close.len() ==> is_ws(#[trigger] s[k]),
        e == p || !is_ws(s[e - 1]),
        forall|k: int| 1 <= k < s.len() - close.len() ==> s[k] != '}' && s[k] != '\n',
    ensures
        find_close(s, p, close) == Some(e),
    decreases e - p,
{
    let n = s.len() as int;
    let l = close.len() as int;
    lemma_skip_class(s, p, CharClass::Ws);
    assert(s[n - l] == close[0]) by {
        assert(s.subrange(n - l, n)[0] == s[n - l]);
    }
    if p == e {
        crate::lex::lemma_skip_class_stops(s, e, n - l, CharClass::Ws);
    } else {
        let q = skip_ws(s, p);
        if q > e - 1 {
            assert(crate::lex::in_class(s[e - 1], CharClass::Ws));
        }
        assert(!close_at(s, p, close)) by {
            if lit_at(s, q, close) {
                assert(s.subrange(q, q + l)[0] == s[q]);
            }
        }
        lemma_find_close_group(s, close, p + 1, e);
    }
}

/// The content of `{...}` with its surrounding whitespace taken off.
pub open spec fn trimmed(c: Seq<char>) -> Seq<char> {
    let lo = skip_ws(c, 0);
    c.subrange(lo, rtrim(c, lo, c.len() as int))
}

/// With spaces in braces on, a single-brace group holding no brace, line feed
/// or NUL becomes `{ content }`, its content trimmed, or `{}` when empty.
#[verifier::spinoff_prover]
#[verifier::rlimit(50)]
pub proof fn law_braces_single_group(c: Seq<char>)
    requires
        forall|k: int|
            0 <= k < c.len() ==> #[trigger] c[k] != '{' && c[k] != '}' && c[k] != '\n' && c[k] != '\u{0}',
    ensures
        spec_normalize_braces(seq!['{'] + c + seq!['}'], true) == group_text(trimmed(c), "{"@, "}"@),
{
    reveal_strlit("{");
    reveal_strlit("}");
    reveal_strlit("{{");
    reveal_strlit("}}");
    reveal_strlit("\u{0}DOPEN\u{0}");
    reveal_strlit("\u{0}DCLOSE\u{0}");
    let s = seq!['{'] + c + seq!['}'];
    let n = s.len() as int;
    assert forall|k: int| 1 <= k < n - 1 implies s[k] == c[k - 1] by {}
    assert(s[0] == '{' && s[n - 1] == '}');
    // no `{{` anywhere
    assert forall|j: int| 0 <= j < n implies !lit_at(s, j, "{{"@) by {
        if lit_at(s, j, "{{"@) {
            assert(s.subrange(j, j + 2)[1] == s[j + 1]);
            assert(s[j + 1] == '{');
        }
    }
    lemma_brace_rewrite_none(s, 0, "{{"@, "}}"@, open_marker(), close_marker());
    assert(s.subrange(0, n) =~= s);
    // the single group
    assert(lit_at(s, 0, "{"@)) by {
        assert(s.subrange(0, 1) =~= "{"@);
    }
    let lo = skip_ws(c, 0);
    lemma_skip_class(c, 0, CharClass::Ws);
    let hi = rtrim(c, lo, c.len() as int);
    lemma_rtrim(c, lo, c.len() as int);
    let a = 1 + lo;
    let e = 1 + hi;
    assert forall|k: int| 1 <= k < a implies crate::lex::in_class(#[trigger] s[k], CharClass::Ws) by {
        assert(s[k] == c[k - 1]);
    }
    crate::lex::lemma_skip_class_stops(s, 1, a, CharClass::Ws);
    assert(skip_ws(s, 1) == a);
    assert forall|k: int| e <= k < n - 1 implies is_ws(#[trigger] s[k]) by {
        assert(s[k] == c[k - 1]);
    }
    if e > a {
        assert(s[e - 1] == c[hi - 1]);
    }
    assert forall|k: int| 1 <= k < n - 1 implies s[k] != '}' && s[k] != '\n' by {
        assert(s[k] == c[k - 1]);
    }
    assert(s.subrange(n - 1, n) =~= "}"@);
    lemma_find_close_group(s, "}"@, a, e);
    lemma_skip_class(s, e, CharClass::Ws);
    crate::lex::lemma_skip_class_stops(s, e, n - 1, CharClass::Ws);
    assert(brace_group(s, 0, "{"@, "}"@) == Some((a, e, n)));
    assert(brace_rewrite(s, n, "{"@, "}"@, "{"@, "}"@) == Seq::<char>::empty());
    assert(s.subrange(a, e) =~= trimmed(c));
    let g = group_text(trimmed(c), "{"@, "}"@);
    assert(brace_rewrite(s, 0, "{"@, "}"@, "{"@, "}"@) =~= g);
    // no NUL, so no marker to put back
    assert forall|j: int| 0 <= j < g.len() implies g[j] != open_marker()[0] by {
        let t = trimmed(c);
        if t.len() > 0 && 2 <= j < 2 + t.len() {
            assert(g[j] == t[j - 2]);
            assert(t[j - 2] == c[lo + j - 2]);
        }
    }
    lemma_replace_none(g, 0, open_marker(), "{{"@);
    assert(g.subrange(0, g.len() as int) =~= g);
    assert forall|j: int| 0 <= j < g.len() implies g[j] != close_marker()[0] by {
        let t = trimmed(c);
        if t.len() > 0 && 2 <= j < 2 + t.len() {
            assert(g[j] == t[j - 2]);
            assert(t[j - 2] == c[lo + j - 2]);
        }
    }
    lemma_replace_none(g, 0, close_marker(), "}}"@);
}


/// Replacing a pattern that does not occur from `i` on changes nothing there.
proof fn lemma_replace_absent(s: Seq<char>, i: int, j: int, pat: Seq<char>, rep: Seq<char>)
    requires
        0 <= i <= j <= s.len(),
        pat.len() > 0,
        forall|k: int| i <= k < j ==> !lit_at(s, k, pat),
    ensures
        replace_from(s, i, pat, rep) == s.subrange(i, j) + replace_from(s, j, pat, rep),
    decreases j - i,
{
    if i < j {
        lemma_replace_absent(s, i + 1, j, pat, rep);
        assert(s.subrange(i, j) =~= seq![s[i]] + s.subrange(i + 1, j));
    } else {
        assert(s.subrange(i, j) =~= Seq::<char>::empty());
    }
}

/// With spaces in braces on, a double-brace group holding no brace, line feed
/// or NUL becomes `{{ content }}`, its content trimmed, or `{{}}` when empty.
#[verifier::spinoff_prover]
#[verifier::rlimit(50)]
pub proof fn law_braces_double_group(c: Seq<char>)
    requires
        forall|k: int|
            0 <= k < c.len() ==> #[trigger] c[k] != '{' && c[k] != '}' && c[k] != '\n' && c[k] != '\u{0}',
    ensures
        spec_normalize_braces(seq!['{', '{'] + c + seq!['}', '}'], true) == group_text(
            trimmed(c),
            "{{"@,
            "}}"@,
        ),
{
    reveal_strlit("{");
    reveal_strlit("}");
    reveal_strlit("{{");
    reveal_strlit("}}");
    reveal_strlit("\u{0}DOPEN\u{0}");
    reveal_strlit("\u{0}DCLOSE\u{0}");
    let s = seq!['{', '{'] + c + seq!['}', '}'];
    let n = s.len() as int;
    assert forall|k: int| 2 <= k < n - 2 implies s[k] == c[k - 2] by {}
    // the double group
    assert(lit_at(s, 0, "{{"@)) by {
        assert(s.subrange(0, 2) =~= "{{"@);
    }
    let lo = skip_ws(c, 0);
    lemma_skip_class(c, 0, CharClass::Ws);
    let hi = rtrim(c, lo, c.len() as int);
    lemma_rtrim(c, lo, c.len() as int);
    let a = 2 + lo;
    let e = 2 + hi;
    assert forall|k: int| 2 <= k < a implies crate::lex::in_class(#[trigger] s[k], CharClass::Ws) by {
        assert(s[k] == c[k - 2]);
    }
    crate::lex::lemma_skip_class_stops(s, 2, a, CharClass::Ws);
    assert forall|k: int| e <= k < n - 2 implies is_ws(#[trigger] s[k]) by {
        assert(s[k] == c[k - 2]);
    }
    if e > a {
        assert(s[e - 1] == c[hi - 1]);
    }
    assert forall|k: int| 1 <= k < n - 2 implies s[k] != '}' && s[k] != '\n' by {
        if k >= 2 {
            assert(s[k] == c[k - 2]);
        }
    }
    assert(s.subrange(n - 2, n) =~= "}}"@);
    lemma_find_close_group(s, "}}"@, a, e);
    lemma_skip_class(s, e, CharClass::Ws);
    crate::lex::lemma_skip_class_stops(s, e, n - 2, CharClass::Ws);
    assert(brace_group(s, 0, "{{"@, "}}"@) == Some((a, e, n)));
    assert(brace_rewrite(s, n, "{{"@, "}}"@, open_marker(), close_marker()) == Seq::<char>::empty());
    let t = trimmed(c);
    assert(s.subrange(a, e) =~= t);
    assert forall|k: int| 0 <= k < t.len() implies #[trigger] t[k] != '{' && t[k] != '\u{0}' by {
        assert(t[k] == c[lo + k]);
    }
    let d = group_text(t, open_marker(), close_marker());
    assert(brace_rewrite(s, 0, "{{"@, "}}"@, open_marker(), close_marker()) =~= d);
    // no single brace is left in it
    let om = open_marker();
    let cm = close_marker();
    let mid = if t.len() == 0 {
        Seq::<char>::empty()
    } else {
        seq![' '] + t + seq![' ']
    };
    assert(d =~= om + mid + cm);
    assert forall|k: int| 0 <= k < mid.len() implies #[trigger] mid[k] != '{' && mid[k] != '\u{0}' by {
        if t.len() > 0 && 1 <= k < 1 + t.len() {
            assert(mid[k] == t[k - 1]);
        }
    }
    let lo_m = om.len() as int;
    let hi_m = lo_m + mid.len();
    assert forall|k: int| 0 <= k < d.len() implies d[k] != '{' by {
        if lo_m <= k < hi_m {
            assert(d[k] == mid[k - lo_m]);
        }
    }
    assert forall|j: int| 0 <= j < d.len() implies !lit_at(d, j, "{"@) by {
        if lit_at(d, j, "{"@) {
            assert(d.subrange(j, j + 1)[0] == d[j]);
        }
    }
    lemma_brace_rewrite_none(d, 0, "{"@, "}"@, "{"@, "}"@);
    assert(d.subrange(0, d.len() as int) =~= d);
    // the open marker is put back
    assert(lit_at(d, 0, om)) by {
        assert(d.subrange(0, lo_m) =~= om);
    }
    assert forall|j: int| lo_m <= j < d.len() implies !lit_at(d, j, om) by {
        if lit_at(d, j, om) {
            assert(d.subrange(j, j + 7)[0] == d[j]);
            assert(d.subrange(j, j + 7)[2] == d[j + 2]);
            if j < hi_m {
                assert(d[j] == mid[j - lo_m]);
            } else if j == hi_m {
                assert(d[j + 2] == cm[2]);
            } else {
                assert(j + 7 > d.len());
            }
        }
    }
    lemma_replace_absent(d, lo_m, d.len() as int, om, "{{"@);
    assert(replace_from(d, d.len() as int, om, "{{"@) =~= Seq::<char>::empty());
    let r1 = replace_from(d, 0, om, "{{"@);
    assert(r1 =~= "{{"@ + mid + cm);
    // then the close marker
    let j0: int = 2 + mid.len() as int;
    assert forall|j: int| 0 <= j < j0 implies !lit_at(r1, j, cm) by {
        if lit_at(r1, j, cm) {
            assert(r1.subrange(j, j + 8)[0] == r1[j]);
            if j >= 2 {
                assert(r1[j] == mid[j - 2]);
            }
        }
    }
    lemma_replace_absent(r1, 0, j0, cm, "}}"@);
    assert(lit_at(r1, j0, cm)) by {
        assert(r1.subrange(j0, j0 + 8) =~= cm);
    }
    assert(replace_from(r1, j0 + 8, cm, "}}"@) =~= Seq::<char>::empty());
    assert(r1.subrange(0, j0) =~= "{{"@ + mid);
    assert(replace_from(r1, 0, cm, "}}"@) =~= group_text(t, "{{"@, "}}"@));
}


pub open spec fn lacks(x: Seq<char>, c: char) -> bool {
    forall|i: int| 0 <= i < x.len() ==> x[i] != c
}

proof fn lemma_remove_concat(x: Seq<char>, y: Seq<char>, c: char)
    ensures
        remove_char(x + y, c) == remove_char(x, c) + remove_char(y, c),
    decreases y.len(),
{
    if y.len() == 0 {
        assert(x + y =~= x);
        assert(remove_char(y, c) =~= Seq::<char>::empty());
        assert(remove_char(x, c) + remove_char(y, c) =~= remove_char(x, c));
    } else {
        lemma_remove_concat(x, y.drop_last(), c);
        assert((x + y).drop_last() =~= x + y.drop_last());
        assert((x + y).last() == y.last());
        if y.last() != c {
            assert(remove_char(x, c) + remove_char(y.drop_last(), c).push(y.last()) =~= (remove_char(
                x,
                c,
            ) + remove_char(y.drop_last(), c)).push(y.last()));
        }
    }
}

proof fn lemma_remove_absent(x: Seq<char>, c: char)
    requires
        lacks(x, c),
    ensures
        remove_char(x, c) == x,
    decreases x.len(),
{
    if x.len() > 0 {
        assert(lacks(x.drop_last(), c));
        lemma_remove_absent(x.drop_last(), c);
        assert(x.drop_last().push(x.last()) =~= x);
    }
}

proof fn lemma_remove_lacks(x: Seq<char>, c: char, d: char)
    requires
        lacks(x, d),
    ensures
        lacks(remove_char(x, c), c),
        lacks(remove_char(x, c), d),
    decreases x.len(),
{
    if x.len() > 0 {
        assert(lacks(x.drop_last(), d));
        lemma_remove_lacks(x.drop_last(), c, d);
        let r = remove_char(x.drop_last(), c);
        if x.last() != c {
            assert forall|i: int| 0 <= i < r.push(x.last()).len() implies r.push(x.last())[i] != c
                && r.push(x.last())[i] != d by {
                if i < r.len() {
                    assert(r.push(x.last())[i] == r[i]);
                } else {
                    assert(x.last() == x[x.len() - 1]);
                }
            }
        }
    }
}

proof fn lemma_remove_lacks_self(x: Seq<char>, c: char)
    ensures
        lacks(remove_char(x, c), c),
    decreases x.len(),
{
    if x.len() > 0 {
        lemma_remove_lacks_self(x.drop_last(), c);
        let r = remove_char(x.drop_last(), c);
        if x.last() != c {
            assert forall|i: int| 0 <= i < r.push(x.last()).len() implies r.push(x.last())[i] != c by {
                if i < r.len() {
                    assert(r.push(x.last())[i] == r[i]);
                }
            }
        }
    }
}

proof fn lemma_grouped_remove(d: Seq<char>, k: int)
    requires
        0 <= k <= d.len(),
        lacks(d, ','),
    ensures
        remove_char(grouped(d, k), ',') == d.take(k),
        lacks(grouped(d, k), ' ') || !lacks(d, ' '),
    decreases k,
{
    if k > 0 {
        lemma_grouped_remove(d, k - 1);
        let g = grouped(d, k - 1);
        let mid = if comma_before(d, k - 1) {
            seq![',']
        } else {
            seq![]
        };
        lemma_remove_concat(g + mid, seq![d[k - 1]], ',');
        lemma_remove_concat(g, mid, ',');
        let empty = Seq::<char>::empty();
        assert(remove_char(empty, ',') == empty);
        assert(remove_char(mid, ',') =~= Seq::<char>::empty()) by {
            if mid.len() > 0 {
                assert(mid.drop_last() =~= empty);
                assert(mid.last() == ',');
            } else {
                assert(mid =~= empty);
            }
        }
        assert(seq![d[k - 1]].drop_last() =~= empty);
        assert(d[k - 1] != ',');
        assert(seq![d[k - 1]].last() == d[k - 1]);
        assert(remove_char(seq![d[k - 1]], ',') =~= empty.push(d[k - 1]));
        assert(empty.push(d[k - 1]) =~= seq![d[k - 1]]);
        assert(d.take(k) =~= d.take(k - 1).push(d[k - 1]));
        if lacks(d, ' ') {
            let gk = grouped(d, k);
            assert(gk == g + mid + seq![d[k - 1]]);
            assert forall|i: int| 0 <= i < gk.len() implies gk[i] != ' ' by {
                if i < g.len() {
                    assert(gk[i] == g[i]);
                } else if i < g.len() + mid.len() {
                    assert(gk[i] == mid[i - g.len()]);
                } else {
                    assert(gk[i] == d[k - 1]);
                }
            }
        }
    }
}

proof fn lemma_add_separators_parts(t: Seq<char>)
    requires
        lacks(t, ' '),
    ensures
        lacks(spec_add_separators(t), ' '),
        remove_char(spec_add_separators(t), ',') == remove_char(t, ','),
{
    let u = remove_char(t, ',');
    lemma_remove_lacks(t, ',', ' ');
    let sl = sign_len(u);
    let rest = u.skip(sl);
    lemma_index_or_len(rest, '.');
    let dot = index_or_len(rest, '.');
    let int_part = rest.take(dot);
    assert(lacks(int_part, ',')) by {
        assert forall|i: int| 0 <= i < int_part.len() implies int_part[i] != ',' by {
            assert(int_part[i] == u[sl + i]);
        }
    }
    assert(lacks(int_part, ' ')) by {
        assert forall|i: int| 0 <= i < int_part.len() implies int_part[i] != ' ' by {
            assert(int_part[i] == u[sl + i]);
        }
    }
    lemma_grouped_remove(int_part, int_part.len() as int);
    let sign = u.take(sl);
    let tail = rest.skip(dot);
    assert(lacks(sign, ',') && lacks(tail, ',') && lacks(sign, ' ') && lacks(tail, ' ')) by {
        assert forall|i: int| 0 <= i < sign.len() implies sign[i] != ',' && sign[i] != ' ' by {
            assert(sign[i] == u[i]);
        }
        assert forall|i: int| 0 <= i < tail.len() implies tail[i] != ',' && tail[i] != ' ' by {
            assert(tail[i] == u[sl + dot + i]);
        }
    }
    let g = spec_add_commas(int_part);
    let r = sign + g + tail;
    assert(r == spec_add_separators(t));
    assert forall|i: int| 0 <= i < r.len() implies r[i] != ' ' by {
        if i < sign.len() {
            assert(r[i] == sign[i]);
        } else if i < sign.len() + g.len() {
            assert(r[i] == g[i - sign.len()]);
        } else {
            assert(r[i] == tail[i - sign.len() - g.len()]);
        }
    }
    lemma_remove_concat(sign + g, tail, ',');
    lemma_remove_concat(sign, g, ',');
    lemma_remove_absent(sign, ',');
    lemma_remove_absent(tail, ',');
    assert(int_part.take(int_part.len() as int) =~= int_part);
    assert(sign + int_part + tail =~= u);
    lemma_remove_lacks_self(t, ',');
    lemma_remove_absent(u, ',');
}

/// Taking the thousands separators out of a number they were added to gives
/// the number with them taken out: adding them changes nothing else.
pub proof fn law_thousands_remove_after_add(num: Seq<char>)
    ensures
        spec_normalize_thousands(spec_normalize_thousands(num, ThousandsSeparator::Add), ThousandsSeparator::Remove)
            == spec_normalize_thousands(num, ThousandsSeparator::Remove),
{
    let t = remove_char(num, ' ');
    lemma_remove_lacks_self(num, ' ');
    lemma_add_separators_parts(t);
    lemma_remove_absent(spec_add_separators(t), ' ');
}

/// Adding thousands separators to a number they were taken out of gives what
/// adding them to the number itself does.
pub proof fn law_thousands_add_after_remove(num: Seq<char>)
    ensures
        spec_normalize_thousands(spec_normalize_thousands(num, ThousandsSeparator::Remove), ThousandsSeparator::Add)
            == spec_normalize_thousands(num, ThousandsSeparator::Add),
{
    let t = remove_char(num, ' ');
    lemma_remove_lacks_self(num, ' ');
    lemma_remove_lacks(t, ',', ' ');
    let r = remove_char(t, ',');
    lemma_remove_absent(r, ' ');
    lemma_remove_absent(r, ',');
}

/// No mode leaves a space in a number, and taking the separators out leaves
/// no comma.
pub proof fn law_thousands_clean(num: Seq<char>, separator: ThousandsSeparator)
    ensures
        lacks(spec_normalize_thousands(num, separator), ' '),
        lacks(spec_normalize_thousands(num, ThousandsSeparator::Remove), ','),
{
    let t = remove_char(num, ' ');
    lemma_remove_lacks_self(num, ' ');
    lemma_remove_lacks(t, ',', ' ');
    if separator is Add {
        lemma_add_separators_parts(t);
    }
}

/// Adding thousands separators twice gives what adding them once does.
pub proof fn law_thousands_add_idempotent(num: Seq<char>)
    ensures
        spec_normalize_thousands(spec_normalize_thousands(num, ThousandsSeparator::Add), ThousandsSeparator::Add)
            == spec_normalize_thousands(num, ThousandsSeparator::Add),
{
    let t = remove_char(num, ' ');
    lemma_remove_lacks_self(num, ' ');
    lemma_add_separators_parts(t);
    let once = spec_add_separators(t);
    lemma_remove_absent(once, ' ');
    assert(remove_char(once, ',') == remove_char(t, ','));
}

proof fn lemma_grouped_lacks(d: Seq<char>, k: int, c: char)
    requires
        0 <= k <= d.len(),
        lacks(d, c),
        c != ',',
    ensures
        lacks(grouped(d, k), c),
    decreases k,
{
    if k > 0 {
        lemma_grouped_lacks(d, k - 1, c);
        let g = grouped(d, k - 1);
        let mid = if comma_before(d, k - 1) {
            seq![',']
        } else {
            seq![]
        };
        let r = g + mid + seq![d[k - 1]];
        assert forall|i: int| 0 <= i < r.len() implies r[i] != c by {
            if i < g.len() {
                assert(r[i] == g[i]);
            } else if i < g.len() + mid.len() {
                assert(r[i] == mid[i - g.len()]);
            } else {
                assert(r[i] == d[k - 1]);
            }
        }
    }
}

proof fn lemma_shape_lacks(y: Seq<char>, r: Seq<char>, c: char)
    requires
        lacks(y, c),
        c != '.',
        c != '0',
        forall|i: int|
            0 <= i < r.len() ==> (i < y.len() && #[trigger] r[i] == y[i]) || r[i] == '.' || r[i]
                == '0',
    ensures
        lacks(r, c),
{
    assert forall|i: int| 0 <= i < r.len() implies r[i] != c by {
        if i < y.len() && r[i] == y[i] {
            assert(y[i] != c);
        }
    }
}

/// Decimal normalization of a number without spaces keeps everything before
/// its first `.`; what it leaves after that is empty or starts with `.`, and
/// brings no character but `.` and `0` that was not there.
proof fn lemma_decimals_shape(y: Seq<char>, mode: DecimalMode, places: int)
    requires
        lacks(y, ' '),
        places >= 0,
    ensures
        ({
            let pl = index_or_len(y, '.');
            let r = spec_normalize_decimals(y, mode, places);
            &&& pl <= r.len()
            &&& r.take(pl) == y.take(pl)
            &&& (r.len() == pl || r[pl] == '.')
            &&& forall|i: int|
                0 <= i < r.len() ==> (i < y.len() && #[trigger] r[i] == y[i]) || r[i] == '.' || r[i]
                    == '0'
        }),
{
    lemma_remove_absent(y, ' ');
    lemma_index_or_len(y, '.');
    let pl = index_or_len(y, '.');
    let r = spec_normalize_decimals(y, mode, places);
    match mode {
        DecimalMode::Keep => {},
        DecimalMode::Minimal => {
            if pl < y.len() {
                let m = without_trailing_zeros(y.skip(pl + 1));
                lemma_without_trailing_zeros(y.skip(pl + 1));
                if m == 0 {
                    assert(r == y.take(pl));
                } else {
                    assert(r == y.take(pl + 1 + m));
                }
                assert(r.take(pl) =~= y.take(pl));
                assert forall|i: int| 0 <= i < r.len() implies (i < y.len() && #[trigger] r[i] == y[i])
                    || r[i] == '.' || r[i] == '0' by {
                    assert(r[i] == y[i]);
                }
            }
        },
        DecimalMode::Pad => {
            if pl == y.len() {
                if places > 0 {
                    assert(r == y + seq!['.'] + zeros(places));
                    assert(r[pl] == '.');
                }
            } else {
                let flen = y.len() - pl - 1;
                if flen < places {
                    assert(r == y + zeros(places - flen));
                    assert(r[pl] == y[pl]);
                }
            }
            assert(r.take(pl) =~= y.take(pl));
            assert forall|i: int| 0 <= i < r.len() implies (i < y.len() && #[trigger] r[i] == y[i])
                || r[i] == '.' || r[i] == '0' by {
                if i < y.len() {
                    assert(r[i] == y[i]);
                }
            }
        },
    }
}

/// Re-adding thousands separators to a regrouped number followed by a
/// fraction (or nothing) changes nothing.
proof fn lemma_add_separators_stable(t: Seq<char>, q: Seq<char>)
    requires
        lacks(t, ' '),
        lacks(q, ','),
        lacks(q, ' '),
        q.len() == 0 || q[0] == '.',
    ensures
        ({
            let y = spec_add_separators(t);
            let pl = index_or_len(y, '.');
            &&& pl <= y.len()
            &&& (pl == y.len() || y[pl] == '.')
            &&& lacks(y.skip(pl), ',')
            &&& spec_add_separators(y.take(pl) + q) == y.take(pl) + q
        }),
{
    let u = remove_char(t, ',');
    lemma_remove_lacks(t, ',', ' ');
    lemma_remove_lacks_self(t, ',');
    let sl = sign_len(u);
    let rest = u.skip(sl);
    lemma_index_or_len(rest, '.');
    let dot = index_or_len(rest, '.');
    let int_part = rest.take(dot);
    let sign = u.take(sl);
    let tail = rest.skip(dot);
    assert(lacks(int_part, ',') && lacks(int_part, '.') && lacks(int_part, ' ')) by {
        assert forall|i: int| 0 <= i < int_part.len() implies int_part[i] != ',' && int_part[i]
            != '.' && int_part[i] != ' ' by {
            assert(int_part[i] == u[sl + i]);
            assert(int_part[i] == rest[i]);
        }
    }
    assert(lacks(sign, ',') && lacks(sign, '.') && lacks(tail, ',')) by {
        assert forall|i: int| 0 <= i < sign.len() implies sign[i] != ',' && sign[i] != '.' by {
            assert(sign[i] == u[i]);
        }
        assert forall|i: int| 0 <= i < tail.len() implies tail[i] != ',' by {
            assert(tail[i] == u[sl + dot + i]);
        }
    }
    lemma_grouped_remove(int_part, int_part.len() as int);
    assert(int_part.take(int_part.len() as int) =~= int_part);
    let g = spec_add_commas(int_part);
    assert(lacks(g, '.')) by {
        lemma_grouped_lacks(int_part, int_part.len() as int, '.');
    }
    let y = sign + g + tail;
    assert(y == spec_add_separators(t));
    let p = sign + g;
    // the first `.` of `y` is where the fraction starts
    assert forall|k: int| 0 <= k < p.len() implies y[k] != '.' by {
        if k < sign.len() {
            assert(y[k] == sign[k]);
        } else {
            assert(y[k] == g[k - sign.len()]);
        }
    }
    if tail.len() > 0 {
        assert(y[p.len() as int] == tail[0]);
        assert(tail[0] == rest[dot]);
    }
    lemma_index_at(y, '.', p.len() as int);
    assert(y.take(p.len() as int) =~= p);
    assert(y.skip(p.len() as int) =~= tail);
    // re-adding separators to `p + q`
    let z = p + q;
    lemma_remove_concat(p, q, ',');
    lemma_remove_concat(sign, g, ',');
    lemma_remove_absent(sign, ',');
    lemma_remove_absent(q, ',');
    let u2 = sign + int_part + q;
    assert(remove_char(z, ',') == u2);
    // the sign is read the same way
    if sl == 0 {
        if int_part.len() > 0 {
            assert(u2[0] == int_part[0]);
            assert(int_part[0] == u[0]);
        } else if q.len() > 0 {
            assert(u2[0] == q[0]);
        }
        assert(sign_len(u2) == 0);
    } else {
        assert(u2[0] == sign[0]);
        assert(sign[0] == u[0]);
        assert(sign_len(u2) == 1);
    }
    let rest2 = u2.skip(sl);
    assert(rest2 =~= int_part + q);
    assert forall|k: int| 0 <= k < int_part.len() implies rest2[k] != '.' by {
        assert(rest2[k] == int_part[k]);
    }
    if q.len() > 0 {
        assert(rest2[int_part.len() as int] == q[0]);
    }
    lemma_index_at(rest2, '.', int_part.len() as int);
    assert(rest2.take(int_part.len() as int) =~= int_part);
    assert(rest2.skip(int_part.len() as int) =~= q);
    assert(u2.take(sl) =~= sign);
    assert(spec_add_separators(z) =~= sign + g + q);
}

/// Normalizing a number twice, with the same options, gives what normalizing
/// it once does.
pub proof fn law_number_idempotent(num: Seq<char>, options: Options)
    ensures
        spec_normalize_number(spec_normalize_number(num, options), options) == spec_normalize_number(
            num,
            options,
        ),
{
    let mode = options.decimal_mode;
    let places = options.decimal_places as int;
    let t = remove_char(num, ' ');
    lemma_remove_lacks_self(num, ' ');
    let y = spec_normalize_thousands(num, options.thousands_separator);
    let z = spec_normalize_number(num, options);
    assert(z == spec_normalize_decimals(y, mode, places));
    match options.thousands_separator {
        ThousandsSeparator::Keep => {
            lemma_decimals_shape(y, mode, places);
            lemma_shape_lacks(y, z, ' ');
            lemma_remove_absent(z, ' ');
        },
        ThousandsSeparator::Remove => {
            lemma_remove_lacks(t, ',', ' ');
            lemma_decimals_shape(y, mode, places);
            lemma_shape_lacks(y, z, ' ');
            lemma_shape_lacks(y, z, ',');
            lemma_remove_absent(z, ' ');
            lemma_remove_absent(z, ',');
        },
        ThousandsSeparator::Add => {
            lemma_add_separators_parts(t);
            assert(lacks(y, ' '));
            lemma_decimals_shape(y, mode, places);
            let pl = index_or_len(y, '.');
            lemma_index_or_len(y, '.');
            let q = z.skip(pl);
            lemma_add_separators_stable(t, seq![]);
            assert(lacks(y.skip(pl), ','));
            assert(lacks(y, ' '));
            lemma_shape_lacks(y, z, ' ');
            assert(lacks(q, ',') && lacks(q, ' ')) by {
                assert forall|i: int| 0 <= i < q.len() implies q[i] != ',' && q[i] != ' ' by {
                    assert(q[i] == z[pl + i]);
                    if pl + i < y.len() && z[pl + i] == y[pl + i] {
                        assert(y[pl + i] == y.skip(pl)[i]);
                    }
                }
            }
            lemma_add_separators_stable(t, q);
            assert(z =~= y.take(pl) + q);
            lemma_remove_absent(z, ' ');
        },
    }
    law_decimals_idempotent(y, mode, places);
}


} // verus!
