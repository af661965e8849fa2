//! A formatter for beancount ledgers: it aligns amounts, normalizes comments,
//! numbers and braces, and can sort entries by date.
pub mod align;
pub mod cli;
pub mod config;
pub mod lex;
pub mod line;
pub mod normalize;
pub mod options;
pub mod recursive;
pub mod sort;
pub mod text;

use vstd::prelude::*;
use std::borrow::Cow;
use crate::align::{
    align_balance, align_close, align_open, align_posting, align_price, append_comment, opt_view,
    spaces, spec_align_balance, spec_align_close, spec_align_open, spec_align_posting,
    spec_align_price, spec_append_comment,
};
use crate::lex::{
    account_end, currency_end, lemma_skip_class, lit_at, number_end, skip_class, skip_class_exec,
    skip_ws, CharClass,
};
use crate::line::{parse_line, spec_parse_line, Line, LineParts};
use crate::normalize::{
    lemma_number_token_ascii, normalize_amount, normalize_braces, normalize_comment_aligned,
    normalize_indent, normalize_number, replace_all_exec, replace_from, spec_normalize_amount, spec_normalize_braces,
    spec_normalize_comment_aligned, spec_normalize_indent, spec_normalize_number,
    thousands_int_part,
};
use crate::options::{AmountScope, Options, SortOrder, SortableDirective};
use crate::sort::{line_directive, sort_input_excluding, spec_sort_input};
use crate::text::{
    all_ascii, chars_of, join_lines, push_char, push_repeat, push_str, spec_lines, split_lines,
    string_of, views,
};

verus! {

// ---------------------------------------------------------------------------
// Comment blocks
// ---------------------------------------------------------------------------

/// The indentation and the number of leading `;` of a comment line, or `None`
/// when the line does not start, after its indentation, with `;`.
pub open spec fn spec_comment_prefix(l: Seq<char>) -> Option<(int, int)> {
    let w = skip_ws(l, 0);
    let e = skip_class(l, w, CharClass::Semi);
    if e > w {
        Some((w, e - w))
    } else {
        None
    }
}

/// Lines `a` and `b` are comment lines with the same indentation.
pub open spec fn same_indent_comments(ls: Seq<Seq<char>>, a: int, b: int) -> bool {
    match (spec_comment_prefix(ls[a]), spec_comment_prefix(ls[b])) {
        (Some((wa, _)), Some((wb, _))) => ls[a].take(wa) == ls[b].take(wb),
        _ => false,
    }
}

pub open spec fn semis_of(l: Seq<char>) -> int {
    match spec_comment_prefix(l) {
        Some((_, n)) => n,
        None => 0,
    }
}

pub open spec fn max(a: int, b: int) -> int {
    if a >= b {
        a
    } else {
        b
    }
}

/// The longest run of `;` among line `k` and the comment lines just above it
/// that share its indentation.
pub open spec fn widest_above(ls: Seq<Seq<char>>, k: int) -> int
    decreases k,
{
    if k <= 0 {
        semis_of(ls[k])
    } else if same_indent_comments(ls, k - 1, k) {
        max(semis_of(ls[k]), widest_above(ls, k - 1))
    } else {
        semis_of(ls[k])
    }
}

/// The same, for the comment lines just below line `k`.
pub open spec fn widest_below(ls: Seq<Seq<char>>, k: int) -> int
    decreases ls.len() - k,
{
    if k >= ls.len() - 1 {
        semis_of(ls[k])
    } else if same_indent_comments(ls, k, k + 1) {
        max(semis_of(ls[k]), widest_below(ls, k + 1))
    } else {
        semis_of(ls[k])
    }
}

/// The width a comment line's `;` run is padded to: the longest run in its
/// block, a block being a maximal run of consecutive comment lines with the
/// same indentation. 0 for other lines.
pub open spec fn block_width(ls: Seq<Seq<char>>, k: int) -> int {
    if spec_comment_prefix(ls[k]) is Some {
        max(widest_above(ls, k), widest_below(ls, k))
    } else {
        0
    }
}

/// Leading whitespace and semicolon-run length of a comment line, or `None` if the
/// line does not begin (after indentation) with `;`.
fn comment_prefix(line: &str) -> (r: Option<(&str, usize)>)
    ensures
        r matches Some((ind, n)) ==> spec_comment_prefix(line@) == Some(
            (ind@.len() as int, n as int),
        ) && ind@ == line@.take(ind@.len() as int),
        r is None ==> spec_comment_prefix(line@) is None,
{
    let v = chars_of(line);
    let w = skip_class_exec(&v, 0, CharClass::Ws);
    let e = skip_class_exec(&v, w, CharClass::Semi);
    if e > w {
        let ind = line.substring_char(0, w);
        assert(ind@ =~= line@.take(w as int));
        Some((ind, e - w))
    } else {
        None
    }
}

fn same_prefix(a: &str, b: &str) -> (r: bool)
    ensures
        r == (a@ == b@),
{
    let va = chars_of(a);
    let vb = chars_of(b);
    if va.len() != vb.len() {
        return false;
    }
    let mut k: usize = 0;
    while k < va.len()
        invariant
            k <= va@.len(),
            va@ == a@,
            vb@ == b@,
            va@.len() == vb@.len(),
            forall|j: int| 0 <= j < k ==> va@[j] == vb@[j],
        decreases va@.len() - k,
    {
        if va[k] != vb[k] {
            assert(va@[k as int] != vb@[k as int]);
            return false;
        }
        k = k + 1;
    }
    assert(va@ =~= vb@);
    true
}

/// For each line, the semicolon-prefix width its comment block should align to.
/// A comment block is a maximal run of consecutive comment lines sharing the same
/// indentation; the width is the longest semicolon prefix in that run. Non-comment
/// lines get 0.
fn comment_block_semi_widths(lines: &Vec<String>) -> (r: Vec<usize>)
    ensures
        r@.len() == lines@.len(),
        forall|k: int| 0 <= k < lines@.len() ==> r@[k] == block_width(views(lines@), k),
{
    let n = lines.len();
    let ghost ls = views(lines@);
    let mut prefixes: Vec<Option<(&str, usize)>> = Vec::new();
    let mut k: usize = 0;
    while k < n
        invariant
            k <= n,
            n == lines@.len(),
            ls == views(lines@),
            prefixes@.len() == k,
            forall|j: int|
                0 <= j < k ==> match #[trigger] prefixes@[j] {
                    Some((ind, m)) => spec_comment_prefix(ls[j]) == Some(
                        (ind@.len() as int, m as int),
                    ) && ind@ == ls[j].take(ind@.len() as int),
                    None => spec_comment_prefix(ls[j]) is None,
                },
        decreases n - k,
    {
        assert(ls[k as int] == lines@[k as int]@);
        prefixes.push(comment_prefix(lines[k].as_str()));
        k = k + 1;
    }
    let mut above: Vec<usize> = Vec::new();
    let mut k: usize = 0;
    while k < n
        invariant
            k <= n,
            n == lines@.len(),
            ls == views(lines@),
            prefixes@.len() == n,
            forall|j: int|
                0 <= j < n ==> match #[trigger] prefixes@[j] {
                    Some((ind, m)) => spec_comment_prefix(ls[j]) == Some(
                        (ind@.len() as int, m as int),
                    ) && ind@ == ls[j].take(ind@.len() as int),
                    None => spec_comment_prefix(ls[j]) is None,
                },
            above@.len() == k,
            forall|j: int| 0 <= j < k ==> #[trigger] above@[j] == widest_above(ls, j),
        decreases n - k,
    {
        let own = match prefixes[k] {
            Some((_, m)) => m,
            None => 0,
        };
        let mut w = own;
        if k > 0 {
            match (prefixes[k - 1], prefixes[k]) {
                (Some((ia, _)), Some((ib, _))) => {
                    if same_prefix(ia, ib) && above[k - 1] > own {
                        w = above[k - 1];
                    }
                },
                _ => {},
            }
        }
        above.push(w);
        k = k + 1;
    }
    let mut below: Vec<usize> = Vec::new();
    let mut k: usize = n;
    while k > 0
        invariant
            k <= n,
            n == lines@.len(),
            ls == views(lines@),
            prefixes@.len() == n,
            forall|j: int|
                0 <= j < n ==> match #[trigger] prefixes@[j] {
                    Some((ind, m)) => spec_comment_prefix(ls[j]) == Some(
                        (ind@.len() as int, m as int),
                    ) && ind@ == ls[j].take(ind@.len() as int),
                    None => spec_comment_prefix(ls[j]) is None,
                },
            below@.len() == n - k,
            forall|j: int| 0 <= j < n - k ==> #[trigger] below@[j] == widest_below(ls, n - 1 - j),
        decreases k,
    {
        let i = k - 1;
        let own = match prefixes[i] {
            Some((_, m)) => m,
            None => 0,
        };
        let mut w = own;
        if i + 1 < n {
            match (prefixes[i], prefixes[i + 1]) {
                (Some((ia, _)), Some((ib, _))) => {
                    let last = below[below.len() - 1];
                    if same_prefix(ia, ib) && last > own {
                        w = last;
                    }
                },
                _ => {},
            }
        }
        below.push(w);
        k = i;
    }
    let mut widths: Vec<usize> = Vec::new();
    let mut k: usize = 0;
    while k < n
        invariant
            k <= n,
            n == lines@.len(),
            ls == views(lines@),
            prefixes@.len() == n,
            forall|j: int|
                0 <= j < n ==> match #[trigger] prefixes@[j] {
                    Some((ind, m)) => spec_comment_prefix(ls[j]) == Some(
                        (ind@.len() as int, m as int),
                    ) && ind@ == ls[j].take(ind@.len() as int),
                    None => spec_comment_prefix(ls[j]) is None,
                },
            above@.len() == n,
            below@.len() == n,
            forall|j: int| 0 <= j < n ==> #[trigger] above@[j] == widest_above(ls, j),
            forall|j: int| 0 <= j < n ==> #[trigger] below@[j] == widest_below(ls, n - 1 - j),
            widths@.len() == k,
            forall|j: int| 0 <= j < k ==> #[trigger] widths@[j] == block_width(ls, j),
        decreases n - k,
    {
        let a = above[k];
        let b = below[n - 1 - k];
        let w = match prefixes[k] {
            Some(_) => if a >= b {
                a
            } else {
                b
            },
            None => 0,
        };
        widths.push(w);
        k = k + 1;
    }
    widths
}

// ---------------------------------------------------------------------------
// Formatting
// ---------------------------------------------------------------------------

pub open spec fn map_number(n: Option<Seq<char>>, o: Options) -> Option<Seq<char>> {
    match n {
        Some(x) => Some(spec_normalize_number(x, o)),
        None => None,
    }
}

pub open spec fn map_cost(c: Option<Seq<char>>, o: Options) -> Option<Seq<char>> {
    match c {
        Some(x) => Some(spec_normalize_braces(spec_normalize_amount(x, o), o.spaces_in_braces)),
        None => None,
    }
}

/// A price annotation with its amount normalized and `- ` closed up to `-`.
pub open spec fn map_price(p: Option<Seq<char>>, o: Options) -> Option<Seq<char>> {
    match p {
        Some(x) => Some(replace_from(spec_normalize_amount(x, o), 0, "- "@, "-"@)),
        None => None,
    }
}

/// `date flag` or `date flag rest`.
pub open spec fn joined(a: Seq<char>, b: Seq<char>, rest: Seq<char>) -> Seq<char> {
    if rest.len() == 0 {
        a + seq![' '] + b
    } else {
        a + seq![' '] + b + seq![' '] + rest
    }
}

/// How one line is formatted, given its parts, its text, the width of its
/// comment block and the metadata depth (1 under a transaction, 2 under a
/// posting).
#[verifier::opaque]
pub open spec fn fmt_line(p: LineParts<Seq<char>>, raw: Seq<char>, width: int, depth: int, o: Options) -> Seq<char> {
    match p {
        LineParts::BlankLine => seq![],
        LineParts::TransactionHeader { date, flag, rest } => joined(
            date,
            flag,
            spec_normalize_braces(rest, o.spaces_in_braces),
        ),
        LineParts::Posting { account, number, currency, cost, price, comment, .. } => spec_align_posting(
            spaces(o.indent as int),
            account,
            map_number(number, o),
            currency,
            map_cost(cost, o),
            map_price(price, o),
            comment,
            o,
        ),
        LineParts::Balance { date, account, number, currency, comment } => spec_append_comment(
            spec_align_balance(date, account, spec_normalize_number(number, o), currency, o),
            comment,
            o,
        ),
        LineParts::Open { date, account, currencies, comment } => spec_append_comment(
            spec_align_open(date, account, currencies, o),
            comment,
            o,
        ),
        LineParts::Close { date, account, comment } => spec_align_close(date, account, comment, o),
        LineParts::Price { date, commodity, number, currency, comment } => spec_append_comment(
            spec_align_price(
                date,
                commodity,
                if o.amount_scope is All {
                    spec_normalize_number(number, o)
                } else {
                    number
                },
                currency,
                o,
            ),
            comment,
            o,
        ),
        LineParts::MetaItem { key, value, .. } => spaces(o.indent * depth) + key + seq![':', ' ']
            + spec_normalize_braces(value, o.spaces_in_braces),
        LineParts::Comment { indent, .. } => {
            let c = spec_normalize_comment_aligned(raw, width);
            if indent.len() > 0 {
                spec_normalize_indent(c, o.indent as int)
            } else {
                c
            }
        },
        LineParts::DateDirective { date, keyword, rest } => joined(date, keyword, rest),
        _ => raw,
    }
}

/// The metadata depth after a line.
pub open spec fn next_depth(p: LineParts<Seq<char>>, depth: int) -> int {
    match p {
        LineParts::Posting { .. } => 2,
        LineParts::TransactionHeader { .. } => 1,
        LineParts::MetaItem { .. } => depth,
        LineParts::Comment { .. } => depth,
        _ => 1,
    }
}

/// A dated directive whose type is not excluded from sorting: such an entry
/// gets a blank line before it when the line before is neither blank nor a
/// comment.
pub open spec fn starts_entry(p: LineParts<Seq<char>>, exclude: Seq<SortableDirective>) -> bool {
    match p {
        LineParts::TransactionHeader { .. } | LineParts::Balance { .. } | LineParts::Open { .. }
        | LineParts::Close { .. } | LineParts::Price { .. } | LineParts::DateDirective { .. } =>
            match line_directive(p) {
            Some(d) => !exclude.contains(d),
            None => true,
        },
        _ => false,
    }
}

/// The metadata depth and the output lines after the first `k` lines.
pub open spec fn fmt_state(ls: Seq<Seq<char>>, k: int, o: Options) -> (int, Seq<Seq<char>>)
    decreases k,
{
    if k <= 0 {
        (1, seq![])
    } else {
        let (depth, out) = fmt_state(ls, k - 1, o);
        let raw = ls[k - 1];
        let p = spec_parse_line(raw);
        let f = fmt_line(p, raw, block_width(ls, k - 1), depth, o);
        let spaced = starts_entry(p, o.sort_exclude@) && out.len() > 0 && out.last().len() > 0
            && out.last()[0] != ';';
        let out2 = if spaced {
            out.push(seq![])
        } else {
            out
        };
        (next_depth(p, depth), out2.push(f))
    }
}

/// The text that is formatted: the input, or the input sorted.
pub open spec fn working_text(input: Seq<char>, o: Options) -> Seq<char> {
    match o.sort {
        SortOrder::Off => input,
        SortOrder::Asc => spec_sort_input(input, false, o.sort_timeless, o.sort_exclude@),
        SortOrder::Desc => spec_sort_input(input, true, o.sort_timeless, o.sort_exclude@),
    }
}

/// The formatted text: each line of the working text formatted, joined with
/// line feeds, with a final line feed when the input has one.
pub open spec fn spec_format(input: Seq<char>, o: Options) -> Seq<char> {
    let ls = spec_lines(working_text(input, o));
    let out = join_lines(fmt_state(ls, ls.len() as int, o).1);
    if input.len() > 0 && input.last() == '\n' && !(out.len() > 0 && out.last() == '\n') {
        out.push('\n')
    } else {
        out
    }
}

proof fn lemma_parsed_numbers(s: Seq<char>)
    ensures
        match spec_parse_line(s) {
            LineParts::Posting { number: Some(n), .. } => all_ascii(thousands_int_part(n)),
            LineParts::Balance { number, .. } => all_ascii(thousands_int_part(number)),
            LineParts::Price { number, .. } => all_ascii(thousands_int_part(number)),
            _ => true,
        },
{
    crate::line::lemma_parse_line_cases(s);
    match crate::line::parse_posting(s) {
        Some(LineParts::Posting { number: Some(n), .. }) => {
            let i0 = skip_ws(s, 0);
            lemma_skip_class(s, 0, CharClass::Ws);
            crate::lex::lemma_account_end(s, i0);
            let ae = account_end(s, i0).unwrap();
            lemma_skip_class(s, ae, CharClass::Ws);
            let r = skip_ws(s, ae);
            crate::lex::lemma_number_end(s, r);
            let ne = number_end(s, r).unwrap();
            lemma_number_token_ascii(s, r, ne);
        },
        _ => {},
    }
    match crate::line::parse_balance(s) {
        Some(LineParts::Balance { number, .. }) => {
            let q = crate::line::dated_keyword(s, "balance"@).unwrap();
            lemma_dated_keyword(s, "balance"@);
            crate::lex::lemma_account_end(s, q);
            let ae = account_end(s, q).unwrap();
            lemma_skip_class(s, ae, CharClass::Ws);
            let r = skip_ws(s, ae);
            crate::lex::lemma_number_end(s, r);
            let ne = number_end(s, r).unwrap();
            lemma_number_token_ascii(s, r, ne);
        },
        _ => {},
    }
    match crate::line::parse_price(s) {
        Some(LineParts::Price { number, .. }) => {
            let q = crate::line::dated_keyword(s, "price"@).unwrap();
            lemma_dated_keyword(s, "price"@);
            crate::lex::lemma_currency_end(s, q);
            let c1 = currency_end(s, q).unwrap();
            lemma_skip_class(s, c1, CharClass::Ws);
            let r = skip_ws(s, c1);
            crate::lex::lemma_number_end(s, r);
            let ne = number_end(s, r).unwrap();
            lemma_number_token_ascii(s, r, ne);
        },
        _ => {},
    }
}

proof fn lemma_dated_keyword(s: Seq<char>, k: Seq<char>)
    ensures
        crate::line::dated_keyword(s, k) matches Some(q) ==> 0 <= q <= s.len(),
{
    if s.len() >= 10 {
        lemma_skip_class(s, 10, CharClass::Ws);
        let p = skip_ws(s, 10);
        if lit_at(s, p, k) {
            lemma_skip_class(s, p + k.len(), CharClass::Ws);
        }
    }
}

proof fn lemma_comment_leading(raw: Seq<char>, width: int)
    requires
        skip_ws(raw, 0) < raw.len(),
        raw[skip_ws(raw, 0)] == ';',
    ensures
        skip_ws(spec_normalize_comment_aligned(raw, width), 0) == skip_ws(raw, 0),
{
    let w = skip_ws(raw, 0);
    lemma_skip_class(raw, 0, CharClass::Ws);
    let c = spec_normalize_comment_aligned(raw, width);
    let e = skip_class(raw, w, CharClass::Semi);
    lemma_skip_class(raw, w, CharClass::Semi);
    lemma_skip_class(raw, 0, CharClass::Ws);
    if c != raw {
        assert(c.len() > w);
        assert forall|k: int| 0 <= k < w implies crate::lex::in_class(#[trigger] c[k], CharClass::Ws) by {
            assert(c[k] == raw.take(e)[k]);
        }
        assert(c[w] == raw.take(e)[w]);
        crate::lex::lemma_skip_class_stops(c, 0, w, CharClass::Ws);
    }
}

fn joined_exec(a: &str, b: &str, rest: &str) -> (r: String)
    ensures
        r@ == joined(a@, b@, rest@),
{
    let mut r = String::new();
    push_str(&mut r, a);
    push_char(&mut r, ' ');
    push_str(&mut r, b);
    if rest.unicode_len() > 0 {
        push_char(&mut r, ' ');
        push_str(&mut r, rest);
    }
    assert(r@ =~= joined(a@, b@, rest@));
    r
}

fn cow_braces(c: Cow<'_, str>, spaces_in_braces: bool) -> (r: String)
    ensures
        r@ == spec_normalize_braces(c@, spaces_in_braces),
{
    match c {
        Cow::Borrowed(b) => normalize_braces(b, spaces_in_braces),
        Cow::Owned(o) => normalize_braces(o.as_str(), spaces_in_braces),
    }
}

fn cow_chars(c: Cow<'_, str>) -> (r: Vec<char>)
    ensures
        r@ == c@,
{
    match c {
        Cow::Borrowed(b) => chars_of(b),
        Cow::Owned(o) => chars_of(o.as_str()),
    }
}

fn as_opt_str(o: &Option<String>) -> (r: Option<&str>)
    ensures
        opt_view(r) == (match o {
            Some(x) => Some(x@),
            None => None,
        }),
{
    match o {
        Some(x) => Some(x.as_str()),
        None => None,
    }
}

/// Format one parsed line.
fn format_parsed(
    p: &Line,
    raw: &str,
    width: usize,
    depth: usize,
    options: &Options,
    indent_str: &String,
) -> (r: String)
    requires
        p@ == spec_parse_line(raw@),
        indent_str@ == spaces(options.indent as int),
        depth == 1 || depth == 2,
        raw@.len() * (options.indent + 4) <= usize::MAX,
    ensures
        r@ == fmt_line(p@, raw@, width as int, depth as int, *options),
{
    proof {
        lemma_parsed_numbers(raw@);
        crate::line::lemma_parsed_comment(raw@);
        crate::line::lemma_parsed_meta(raw@);
        reveal(fmt_line);
    }
    match p {
        Line::BlankLine => String::new(),
        Line::TransactionHeader { date, flag, rest } => {
            let r = normalize_braces(rest, options.spaces_in_braces);
            joined_exec(date, flag, r.as_str())
        },
        Line::Posting { account, number, currency, cost, price, comment, .. } => {
            let number2: Option<String> = match number {
                Some(n) => Some(normalize_number(n, options)),
                None => None,
            };
            let cost2: Option<String> = match cost {
                Some(c) => Some(cow_braces(normalize_amount(c, options), options.spaces_in_braces)),
                None => None,
            };
            let price2: Option<String> = match price {
                Some(pr) => {
                    let v = cow_chars(normalize_amount(pr, options));
                    proof {
                        reveal_strlit("- ");
                    }
                    Some(string_of(&replace_all_exec(&v, "- ", "-")))
                },
                None => None,
            };
            align_posting(
                indent_str.as_str(),
                account,
                as_opt_str(&number2),
                *currency,
                as_opt_str(&cost2),
                as_opt_str(&price2),
                *comment,
                options,
            )
        },
        Line::Balance { date, account, number, currency, comment } => {
            let n = normalize_number(number, options);
            append_comment(align_balance(date, account, n.as_str(), currency, options), *comment, options)
        },
        Line::Open { date, account, currencies, comment } => {
            append_comment(align_open(date, account, currencies, options), *comment, options)
        },
        Line::Close { date, account, comment } => align_close(date, account, *comment, options),
        Line::Price { date, commodity, number, currency, comment } => {
            let n = if options.amount_scope == AmountScope::All {
                normalize_number(number, options)
            } else {
                string_of(&chars_of(number))
            };
            append_comment(align_price(date, commodity, n.as_str(), currency, options), *comment, options)
        },
        Line::MetaItem { key, value, .. } => {
            proof {
                assert(options.indent * depth <= raw@.len() * (options.indent + 4)) by (nonlinear_arith)
                    requires
                        raw@.len() >= 2,
                        depth <= 2,
                ;
            }
            let mut r = String::new();
            push_repeat(&mut r, ' ', options.indent * depth);
            push_str(&mut r, key);
            push_char(&mut r, ':');
            push_char(&mut r, ' ');
            let v = normalize_braces(value, options.spaces_in_braces);
            push_str(&mut r, v.as_str());
            assert(r@ =~= fmt_line(p@, raw@, width as int, depth as int, *options));
            r
        },
        Line::Comment { indent, .. } => {
            let c = normalize_comment_aligned(raw, width);
            if indent.unicode_len() > 0 {
                proof {
                    lemma_comment_leading(raw@, width as int);
                    lemma_skip_class(raw@, 0, CharClass::Ws);
                    assert(skip_ws(raw@, 0) * (options.indent + 4) <= raw@.len() * (options.indent
                        + 4)) by (nonlinear_arith)
                        requires
                            skip_ws(raw@, 0) <= raw@.len(),
                    ;
                }
                normalize_indent(c.as_str(), options.indent)
            } else {
                c
            }
        },
        Line::DateDirective { date, keyword, rest } => joined_exec(date, keyword, rest),
        _ => string_of(&chars_of(raw)),
    }
}

fn next_depth_exec(p: &Line, depth: usize) -> (r: usize)
    requires
        depth == 1 || depth == 2,
    ensures
        r == next_depth(p@, depth as int),
        r == 1 || r == 2,
{
    match p {
        Line::Posting { .. } => 2,
        Line::TransactionHeader { .. } => 1,
        Line::MetaItem { .. } => depth,
        Line::Comment { .. } => depth,
        _ => 1,
    }
}

fn starts_entry_exec(p: &Line, options: &Options) -> (r: bool)
    ensures
        r == starts_entry(p@, options.sort_exclude@),
{
    match p {
        Line::TransactionHeader { .. } | Line::Balance { .. } | Line::Open { .. } | Line::Close {
            ..
        } | Line::Price { .. } | Line::DateDirective { .. } => {
            match crate::sort::line_directive_exec(p) {
                Some(d) => !options.excludes(d),
                None => true,
            }
        },
        _ => false,
    }
}

/// The last output line is neither blank nor a comment.
pub open spec fn blocks_spacing(out: Seq<Seq<char>>) -> bool {
    out.len() > 0 && out.last().len() > 0 && out.last()[0] != ';'
}

/// Appends line `f` to the joined lines `ls`.
fn push_out_line(out: &mut String, any: bool, f: &str, Ghost(ls): Ghost<Seq<Seq<char>>>)
    requires
        old(out)@ == join_lines(ls),
        any == (ls.len() > 0),
    ensures
        final(out)@ == join_lines(ls.push(f@)),
{
    if any {
        push_char(out, '\n');
    }
    push_str(out, f);
    assert(ls.push(f@).drop_last() =~= ls);
    proof {
        if ls.len() == 0 {
            assert(join_lines(ls.push(f@)) == f@);
            assert(final(out)@ =~= f@);
        } else {
            assert(final(out)@ =~= join_lines(ls.push(f@)));
        }
    }
}

/// Format a beancount text: sort it if asked, then normalize and align each line.
pub fn format(input: &str, options: &Options) -> (r: String)
    requires
        input@.len() * (options.indent + 4) <= usize::MAX,
    ensures
        r@ == spec_format(input@, *options),
{
    let working: String = match options.sort {
        SortOrder::Off => string_of(&chars_of(input)),
        SortOrder::Asc => sort_input_excluding(input, false, options.sort_timeless, &options.sort_exclude),
        SortOrder::Desc => sort_input_excluding(input, true, options.sort_timeless, &options.sort_exclude),
    };
    let ghost bound = input@.len() as int;
    proof {
        if options.sort is Off {
            assert forall|i: int, j: int|
                0 <= i <= j <= working@.len() && !crate::lex::has_newline(working@, i, j) implies j - i
                <= bound by {}
        }
    }
    let lines = split_lines(working.as_str());
    proof {
        crate::text::lemma_line_pieces_short(working@, 0, bound);
    }
    let widths = comment_block_semi_widths(&lines);
    let indent_str = options.indent_str();
    let n = lines.len();
    let ghost ls = views(lines@);
    let mut out = String::new();
    let mut any = false;
    let mut last_blocks = false;
    let mut depth: usize = 1;
    let mut k: usize = 0;
    while k < n
        invariant
            k <= n,
            n == lines@.len(),
            ls == views(lines@),
            ls == spec_lines(working@),
            widths@.len() == n,
            forall|j: int| 0 <= j < n ==> #[trigger] widths@[j] == block_width(ls, j),
            indent_str@ == spaces(options.indent as int),
            forall|j: int| 0 <= j < ls.len() ==> #[trigger] ls[j].len() <= bound,
            bound * (options.indent + 4) <= usize::MAX,
            depth == 1 || depth == 2,
            depth == fmt_state(ls, k as int, *options).0,
            out@ == join_lines(fmt_state(ls, k as int, *options).1),
            any == (fmt_state(ls, k as int, *options).1.len() > 0),
            last_blocks == blocks_spacing(fmt_state(ls, k as int, *options).1),
        decreases n - k,
    {
        let raw = lines[k].as_str();
        assert(raw@ == ls[k as int]);
        proof {
            assert(raw@.len() * (options.indent + 4) <= bound * (options.indent + 4)) by (nonlinear_arith)
                requires
                    raw@.len() <= bound,
            ;
        }
        let p = parse_line(raw);
        let f = format_parsed(&p, raw, widths[k], depth, options, &indent_str);
        let ghost st = fmt_state(ls, k as int, *options);
        let spaced = starts_entry_exec(&p, options) && any && last_blocks;
        let ghost mid = if spaced {
            st.1.push(seq![])
        } else {
            st.1
        };
        if spaced {
            push_out_line(&mut out, any, "", Ghost(st.1));
            any = true;
        }
        proof {
            reveal_strlit("");
            assert(""@ =~= Seq::<char>::empty());
        }
        push_out_line(&mut out, any, f.as_str(), Ghost(mid));
        any = true;
        let fc = chars_of(f.as_str());
        last_blocks = fc.len() > 0 && fc[0] != ';';
        depth = next_depth_exec(&p, depth);
        proof {
            assert(fmt_state(ls, k + 1, *options) == (next_depth(p@, st.0), mid.push(f@)));
        }
        k = k + 1;
    }
    let ic = chars_of(input);
    let oc = chars_of(out.as_str());
    if ic.len() > 0 && ic[ic.len() - 1] == '\n' && !(oc.len() > 0 && oc[oc.len() - 1] == '\n') {
        push_char(&mut out, '\n');
    }
    out
}

// ---------------------------------------------------------------------------
// Laws of formatting
// ---------------------------------------------------------------------------

/// Formatting an empty text gives an empty text, sorted or not.
pub proof fn law_format_empty(o: Options)
    ensures
        spec_format(seq![], o) == Seq::<char>::empty(),
{
    let e = Seq::<char>::empty();
    assert(spec_lines(e) =~= Seq::<Seq<char>>::empty());
    let ls = Seq::<Seq<char>>::empty();
    assert(crate::sort::spec_parse_segments(ls, o.sort_exclude@) =~= Seq::empty());
    let segs = crate::sort::spec_parse_segments(ls, o.sort_exclude@);
    assert(crate::sort::text_state(ls, segs, 0, false, o.sort_timeless) == (
        Seq::<char>::empty(),
        Seq::<crate::sort::Segment<Seq<crate::sort::Entry>>>::empty(),
    ));
    assert(crate::sort::text_state(ls, segs, 0, true, o.sort_timeless) == (
        Seq::<char>::empty(),
        Seq::<crate::sort::Segment<Seq<crate::sort::Entry>>>::empty(),
    ));
    let items = Seq::<crate::sort::Segment<Seq<crate::sort::Entry>>>::empty();
    assert(crate::sort::compartment_state(items, 0) == (Seq::<crate::sort::Entry>::empty(), 0int, 0int));
    assert(crate::sort::newlines(0) =~= e);
    assert(working_text(e, o) =~= e);
    assert(join_lines(Seq::<Seq<char>>::empty()) == e);
}

/// A text that ends with a line feed still does once formatted.
pub proof fn law_format_keeps_final_newline(input: Seq<char>, o: Options)
    requires
        input.len() > 0,
        input.last() == '\n',
    ensures
        spec_format(input, o).len() > 0,
        spec_format(input, o).last() == '\n',
{
}

/// A text without a final line feed gets none added: the output is the
/// formatted lines joined by line feeds, nothing more.
pub proof fn law_format_adds_no_final_newline(input: Seq<char>, o: Options)
    requires
        !(input.len() > 0 && input.last() == '\n'),
    ensures
        spec_format(input, o) == join_lines(
            fmt_state(spec_lines(working_text(input, o)), spec_lines(working_text(input, o)).len() as int, o).1,
        ),
{
}

/// The number of a `price` directive is normalized unless the amount scope is
/// `Amounts`: with scope `All` (the default) the formatted line is the one
/// formatting gives, under scope `Amounts`, to the same directive with its
/// number already normalized; under `Amounts` the number is left as written.
pub proof fn law_price_number_scope(
    date: Seq<char>,
    commodity: Seq<char>,
    number: Seq<char>,
    currency: Seq<char>,
    comment: Option<Seq<char>>,
    raw: Seq<char>,
    width: int,
    depth: int,
    o: Options,
)
    requires
        o.amount_scope is All,
    ensures
        fmt_line(
            LineParts::Price { date, commodity, number, currency, comment },
            raw,
            width,
            depth,
            o,
        ) == fmt_line(
            LineParts::Price {
                date,
                commodity,
                number: spec_normalize_number(number, o),
                currency,
                comment,
            },
            raw,
            width,
            depth,
            Options { amount_scope: AmountScope::Amounts, ..o },
        ),
        fmt_line(
            LineParts::Price { date, commodity, number, currency, comment },
            raw,
            width,
            depth,
            o,
        ) == spec_append_comment(
            spec_align_price(date, commodity, spec_normalize_number(number, o), currency, o),
            comment,
            o,
        ),
{
    reveal(fmt_line);
    let o2 = Options { amount_scope: AmountScope::Amounts, ..o };
    assert(spec_align_price(date, commodity, spec_normalize_number(number, o), currency, o2)
        == spec_align_price(date, commodity, spec_normalize_number(number, o), currency, o));
    assert(spec_append_comment(
        spec_align_price(date, commodity, spec_normalize_number(number, o), currency, o),
        comment,
        o2,
    ) == spec_append_comment(
        spec_align_price(date, commodity, spec_normalize_number(number, o), currency, o),
        comment,
        o,
    ));
}


/// Numbers of postings and `balance` directives are normalized whatever the
/// amount scope: for a balance line, and for a posting without cost or price
/// annotation, changing the scope changes nothing, and the number written is
/// the normalized one.
pub proof fn law_amount_numbers_every_scope(p: LineParts<Seq<char>>, raw: Seq<char>, width: int, depth: int, o: Options)
    requires
        p is Balance || (p matches LineParts::Posting { cost, price, .. } && cost is None && price is None),
    ensures
        fmt_line(p, raw, width, depth, o) == fmt_line(p, raw, width, depth, Options { amount_scope: AmountScope::All, ..o }),
        fmt_line(p, raw, width, depth, o) == fmt_line(p, raw, width, depth, Options { amount_scope: AmountScope::Amounts, ..o }),
        p matches LineParts::Balance { date, account, number, currency, comment } ==> fmt_line(
            p,
            raw,
            width,
            depth,
            o,
        ) == spec_append_comment(
            spec_align_balance(date, account, spec_normalize_number(number, o), currency, o),
            comment,
            o,
        ),
{
    reveal(fmt_line);
    let oa = Options { amount_scope: AmountScope::All, ..o };
    let om = Options { amount_scope: AmountScope::Amounts, ..o };
    match p {
        LineParts::Balance { date, account, number, currency, comment } => {
            let a = spec_align_balance(date, account, spec_normalize_number(number, o), currency, o);
            assert(spec_align_balance(date, account, spec_normalize_number(number, o), currency, oa) == a);
            assert(spec_align_balance(date, account, spec_normalize_number(number, o), currency, om) == a);
            assert(spec_append_comment(a, comment, oa) == spec_append_comment(a, comment, o));
            assert(spec_append_comment(a, comment, om) == spec_append_comment(a, comment, o));
        },
        LineParts::Posting { account, number, currency, cost, price, comment, .. } => {
            let n = map_number(number, o);
            assert(map_number(number, oa) == n);
            assert(map_number(number, om) == n);
            assert(map_cost(cost, oa) == map_cost(cost, o));
            assert(map_cost(cost, om) == map_cost(cost, o));
            assert(map_price(price, oa) == map_price(price, o));
            assert(map_price(price, om) == map_price(price, o));
            let ind = spaces(o.indent as int);
            assert(spec_align_posting(ind, account, n, currency, map_cost(cost, o), map_price(price, o), comment, oa)
                == spec_align_posting(ind, account, n, currency, map_cost(cost, o), map_price(price, o), comment, o));
            assert(spec_align_posting(ind, account, n, currency, map_cost(cost, o), map_price(price, o), comment, om)
                == spec_align_posting(ind, account, n, currency, map_cost(cost, o), map_price(price, o), comment, o));
        },
        _ => {},
    }
}


/// All lines of one comment block are padded to the same width.
pub proof fn law_comment_block_same_width(ls: Seq<Seq<char>>, k: int)
    requires
        0 <= k,
        k + 1 < ls.len(),
        same_indent_comments(ls, k, k + 1),
    ensures
        block_width(ls, k) == block_width(ls, k + 1),
{
    lemma_widest_ge(ls, k);
    lemma_widest_ge(ls, k + 1);
}

proof fn lemma_widest_ge(ls: Seq<Seq<char>>, k: int)
    requires
        0 <= k < ls.len(),
    ensures
        widest_above(ls, k) >= semis_of(ls[k]),
        widest_below(ls, k) >= semis_of(ls[k]),
{
}

// ---------------------------------------------------------------------------
// Formatting twice: texts of comments and blank lines
// ---------------------------------------------------------------------------

/// A line of whitespace only.
pub open spec fn blank_line(l: Seq<char>) -> bool {
    skip_ws(l, 0) >= l.len()
}

/// A comment line that is not indented.
pub open spec fn top_comment(l: Seq<char>) -> bool {
    &&& l.len() > 0
    &&& l[0] == ';'
    &&& forall|k: int| 0 <= k < l.len() ==> #[trigger] l[k] != '\n'
}

/// A line that formatting leaves as it is: an option or other undated line, a
/// tag or metadata block directive, or an `include`.
pub open spec fn kept_line(l: Seq<char>) -> bool {
    &&& !blank_line(l)
    &&& crate::text::plain_line(l)
    &&& (spec_parse_line(l) is Other || spec_parse_line(l) is BlockDirective || spec_parse_line(
        l,
    ) is Include)
}

/// A text whose lines are blank, comments that are not indented, or lines
/// that formatting keeps.
pub open spec fn comment_text(ls: Seq<Seq<char>>) -> bool {
    forall|k: int| 0 <= k < ls.len() ==> blank_line(#[trigger] ls[k]) || top_comment(ls[k]) || kept_line(ls[k])
}

/// What formatting makes of line `j` of such a text.
pub open spec fn comment_line_out(ls: Seq<Seq<char>>, j: int) -> Seq<char> {
    if blank_line(ls[j]) {
        seq![]
    } else if kept_line(ls[j]) {
        ls[j]
    } else {
        spec_normalize_comment_aligned(ls[j], block_width(ls, j))
    }
}

/// A kept line is no comment, so it has no run of `;` to align.
proof fn lemma_kept_parts(l: Seq<char>)
    requires
        kept_line(l),
    ensures
        spec_comment_prefix(l) is None,
        !top_comment(l),
{
    reveal(spec_parse_line);
    let w = skip_ws(l, 0);
    lemma_skip_class(l, 0, CharClass::Ws);
    let e = skip_class(l, w, CharClass::Semi);
    lemma_skip_class(l, w, CharClass::Semi);
    if e > w || (l.len() > 0 && l[0] == ';') {
        assert(l[w] == ';') by {
            if !(e > w) {
                crate::lex::lemma_skip_class_stops(l, 0, 0, CharClass::Ws);
            }
        }
        if w > 0 {
            assert(crate::text::is_ws(l[0]));
        }
        assert(!crate::lex::date_at(l, 0));
        assert(crate::lex::account_end(l, w) is None);
        crate::lex::lemma_skip_class_stops(l, w, w, CharClass::AcctChar);
        let e2 = crate::line::semis_end(l, w);
        let a2 = if e2 < l.len() && crate::text::is_ws(l[e2]) {
            e2 + 1
        } else {
            e2
        };
        crate::lex::lemma_rtrim(l, a2, l.len() as int);
        assert(!crate::lex::has_newline(l, a2, crate::lex::rtrim(l, a2, l.len() as int)));
        assert(spec_parse_line(l) is Comment);
    }
}

proof fn lemma_top_comment_parts(l: Seq<char>, width: int)
    requires
        top_comment(l),
    ensures
        spec_parse_line(l) matches LineParts::Comment { indent, .. } && indent.len() == 0,
        spec_comment_prefix(l) == Some((0int, skip_class(l, 0, CharClass::Semi))),
        ({
            let c = spec_normalize_comment_aligned(l, width);
            &&& top_comment(c)
            &&& crate::text::plain_line(c)
            &&& spec_comment_prefix(c) == spec_comment_prefix(l)
        }),
{
    reveal(spec_parse_line);
    lemma_skip_class(l, 0, CharClass::Ws);
    assert(!crate::text::is_ws(l[0]));
    crate::lex::lemma_skip_class_stops(l, 0, 0, CharClass::Ws);
    assert(!crate::lex::date_at(l, 0));
    let e = skip_class(l, 0, CharClass::Semi);
    lemma_skip_class(l, 0, CharClass::Semi);
    assert(e >= 1);
    let a = skip_ws(l, e);
    lemma_skip_class(l, e, CharClass::Ws);
    let b = crate::lex::rtrim(l, a, l.len() as int);
    crate::lex::lemma_rtrim(l, a, l.len() as int);
    assert(!crate::lex::has_newline(l, a, b));
    // the parser's own comment split
    let e2 = crate::line::semis_end(l, 0);
    let a2 = if e2 < l.len() && crate::text::is_ws(l[e2]) {
        e2 + 1
    } else {
        e2
    };
    crate::lex::lemma_rtrim(l, a2, l.len() as int);
    assert(!crate::lex::has_newline(l, a2, crate::lex::rtrim(l, a2, l.len() as int)));
    assert(l.take(0) =~= Seq::<char>::empty());
    let c = spec_normalize_comment_aligned(l, width);
    if a == b {
        assert(c == l.take(e));
    } else {
        assert(c == l.take(e) + spaces(crate::normalize::clamp0(width - e)) + seq![' '] + l.subrange(a, b));
        assert(c[e] == ' ');
        assert(c.last() == l[b - 1]);
    }
    assert forall|k: int| 0 <= k < e implies crate::lex::in_class(#[trigger] c[k], CharClass::Semi) by {
        assert(c[k] == l[k]);
    }
    crate::lex::lemma_skip_class_stops(c, 0, e, CharClass::Semi);
    assert(c[0] == ';');
    crate::lex::lemma_skip_class_stops(c, 0, 0, CharClass::Ws);
    assert forall|k: int| 0 <= k < c.len() implies #[trigger] c[k] != '\n' by {
        if k < e {
            assert(c[k] == l[k]);
        } else if a != b && k >= c.len() - (b - a) {
            assert(c[k] == l[a + (k - (c.len() - (b - a)))]);
        }
    }
    if a == b {
        assert(c.last() == l[e - 1]);
    }
}

proof fn lemma_blank_parts(l: Seq<char>)
    requires
        blank_line(l),
    ensures
        spec_parse_line(l) is BlankLine,
        spec_comment_prefix(l) is None,
{
    reveal(spec_parse_line);
    lemma_skip_class(l, 0, CharClass::Ws);
}

/// Formatting a text of blank lines and unindented comments: each line on its
/// own, no blank line added.
proof fn lemma_fmt_comment_text(ls: Seq<Seq<char>>, o: Options, k: int)
    requires
        comment_text(ls),
        0 <= k <= ls.len(),
    ensures
        fmt_state(ls, k, o) == (1int, Seq::new(k as nat, |j: int| comment_line_out(ls, j))),
    decreases k,
{
    if k > 0 {
        lemma_fmt_comment_text(ls, o, k - 1);
        let raw = ls[k - 1];
        let p = spec_parse_line(raw);
        reveal(fmt_line);
        if blank_line(raw) {
            lemma_blank_parts(raw);
        } else if kept_line(raw) {
        } else {
            lemma_top_comment_parts(raw, block_width(ls, k - 1));
        }
        assert(!starts_entry(p, o.sort_exclude@));
        assert(fmt_line(p, raw, block_width(ls, k - 1), 1, o) == comment_line_out(ls, k - 1));
        assert(Seq::new((k - 1) as nat, |j: int| comment_line_out(ls, j)).push(comment_line_out(ls, k - 1))
            =~= Seq::new(k as nat, |j: int| comment_line_out(ls, j)));
    }
}

proof fn lemma_widest_same(ls: Seq<Seq<char>>, ms: Seq<Seq<char>>, k: int)
    requires
        ls.len() == ms.len(),
        0 <= k < ls.len(),
        forall|j: int| 0 <= j < ls.len() ==> #[trigger] spec_comment_prefix(ms[j]) == spec_comment_prefix(ls[j]),
        forall|j: int|
            0 <= j < ls.len() ==> (#[trigger] spec_comment_prefix(ls[j]) matches Some((w, _)) ==> w == 0),
    ensures
        widest_above(ms, k) == widest_above(ls, k),
        widest_below(ms, k) == widest_below(ls, k),
        block_width(ms, k) == block_width(ls, k),
    decreases ls.len(),
{
    lemma_widest_above_same(ls, ms, k);
    lemma_widest_below_same(ls, ms, k);
}

proof fn lemma_same_indent_same(ls: Seq<Seq<char>>, ms: Seq<Seq<char>>, a: int, b: int)
    requires
        ls.len() == ms.len(),
        0 <= a < ls.len(),
        0 <= b < ls.len(),
        forall|j: int| 0 <= j < ls.len() ==> #[trigger] spec_comment_prefix(ms[j]) == spec_comment_prefix(ls[j]),
        forall|j: int|
            0 <= j < ls.len() ==> (#[trigger] spec_comment_prefix(ls[j]) matches Some((w, _)) ==> w == 0),
    ensures
        same_indent_comments(ms, a, b) == same_indent_comments(ls, a, b),
        semis_of(ms[a]) == semis_of(ls[a]),
{
    assert(spec_comment_prefix(ms[a]) == spec_comment_prefix(ls[a]));
    assert(spec_comment_prefix(ms[b]) == spec_comment_prefix(ls[b]));
    assert(ms[a].take(0) =~= ls[a].take(0));
    assert(ms[b].take(0) =~= ls[b].take(0));
}

proof fn lemma_widest_above_same(ls: Seq<Seq<char>>, ms: Seq<Seq<char>>, k: int)
    requires
        ls.len() == ms.len(),
        0 <= k < ls.len(),
        forall|j: int| 0 <= j < ls.len() ==> #[trigger] spec_comment_prefix(ms[j]) == spec_comment_prefix(ls[j]),
        forall|j: int|
            0 <= j < ls.len() ==> (#[trigger] spec_comment_prefix(ls[j]) matches Some((w, _)) ==> w == 0),
    ensures
        widest_above(ms, k) == widest_above(ls, k),
    decreases k,
{
    lemma_same_indent_same(ls, ms, k, k);
    if k > 0 {
        lemma_same_indent_same(ls, ms, k - 1, k);
        lemma_widest_above_same(ls, ms, k - 1);
    }
}

proof fn lemma_widest_below_same(ls: Seq<Seq<char>>, ms: Seq<Seq<char>>, k: int)
    requires
        ls.len() == ms.len(),
        0 <= k < ls.len(),
        forall|j: int| 0 <= j < ls.len() ==> #[trigger] spec_comment_prefix(ms[j]) == spec_comment_prefix(ls[j]),
        forall|j: int|
            0 <= j < ls.len() ==> (#[trigger] spec_comment_prefix(ls[j]) matches Some((w, _)) ==> w == 0),
    ensures
        widest_below(ms, k) == widest_below(ls, k),
    decreases ls.len() - k,
{
    lemma_same_indent_same(ls, ms, k, k);
    if k < ls.len() - 1 {
        lemma_same_indent_same(ls, ms, k, k + 1);
        lemma_widest_below_same(ls, ms, k + 1);
    }
}

/// Formatting a text made of blank lines, comments that are not indented and
/// lines formatting keeps (options, tag and metadata blocks, includes, other
/// undated lines), whose last line is not blank, gives a text that formatting
/// leaves as it is (without sorting; blocks of comments are aligned once and
/// for all).
pub proof fn law_format_idempotent_comments(input: Seq<char>, o: Options)
    requires
        o.sort is Off,
        comment_text(spec_lines(input)),
        spec_lines(input).len() > 0 ==> top_comment(spec_lines(input).last()) || kept_line(
            spec_lines(input).last(),
        ),
    ensures
        spec_format(spec_format(input, o), o) == spec_format(input, o),
{
    let ls = spec_lines(input);
    let n = ls.len() as int;
    assert(working_text(input, o) == input);
    lemma_fmt_comment_text(ls, o, n);
    let ms = Seq::new(n as nat, |j: int| comment_line_out(ls, j));
    let out1 = spec_format(input, o);
    if n == 0 {
        // a text with no line is empty
        assert(input.len() == 0) by {
            if input.len() > 0 {
                assert(crate::text::line_pieces(input, 0).len() >= 1);
            }
        }
        assert(join_lines(ms) == Seq::<char>::empty());
        assert(out1 == Seq::<char>::empty());
        assert(spec_lines(out1) == Seq::<Seq<char>>::empty());
    } else {
        // each output line is blank (empty) or a plain unindented comment
        assert forall|j: int| 0 <= j < n implies (#[trigger] ms[j] == comment_line_out(ls, j)) && (
            blank_line(ms[j]) || top_comment(ms[j]) || kept_line(ms[j])) && crate::text::plain_line(ms[j])
            && spec_comment_prefix(ms[j]) == spec_comment_prefix(ls[j]) && (spec_comment_prefix(ls[j]) matches Some(
            (w, _)) ==> w == 0) by {
            if blank_line(ls[j]) {
                lemma_blank_parts(ls[j]);
                assert(ms[j] == Seq::<char>::empty());
                lemma_blank_parts(ms[j]);
            } else if kept_line(ls[j]) {
                lemma_kept_parts(ls[j]);
            } else {
                lemma_top_comment_parts(ls[j], block_width(ls, j));
            }
        }
        assert(comment_text(ms));
        assert forall|k: int| 0 <= k < ms.len() implies crate::text::plain_line(#[trigger] ms[k]) by {
            assert(ms[k] == comment_line_out(ls, k));
        }
        if kept_line(ls[n - 1]) {
            assert(ms.last() == ls[n - 1]);
        } else {
            lemma_top_comment_parts(ls[n - 1], block_width(ls, n - 1));
        }
        assert(ms.last().len() > 0);
        let j1 = join_lines(ms);
        assert(j1.len() > 0 && j1.last() == ms.last().last()) by {
            if n >= 2 {
                assert(j1 == join_lines(ms.drop_last()) + seq!['\n'] + ms.last());
            }
        }
        assert(ms.last().last() != '\n') by {
            assert(ms.last()[ms.last().len() - 1] != '\n');
        }
        let tail = if input.len() > 0 && input.last() == '\n' {
            seq!['\n']
        } else {
            Seq::<char>::empty()
        };
        assert(out1 == j1 + tail);
        crate::text::lemma_lines_of_join(ms, tail);
        assert(spec_lines(out1) == ms);
        assert(working_text(out1, o) == out1);
        lemma_fmt_comment_text(ms, o, n);
        assert forall|j: int| 0 <= j < n implies (#[trigger] spec_comment_prefix(ls[j]) matches Some((w, _))
            ==> w == 0) && spec_comment_prefix(ms[j]) == spec_comment_prefix(ls[j]) by {
            assert(ms[j] == comment_line_out(ls, j));
        }
        assert forall|j: int| 0 <= j < n implies comment_line_out(ms, j) == ms[j] by {
            lemma_widest_same(ls, ms, j);
            if blank_line(ls[j]) {
                assert(ms[j] == Seq::<char>::empty());
                lemma_blank_parts(ms[j]);
                assert(blank_line(ms[j]));
            } else if kept_line(ls[j]) {
                assert(ms[j] == ls[j]);
            } else {
                let w = block_width(ls, j);
                lemma_top_comment_parts(ls[j], w);
                assert(!blank_line(ms[j])) by {
                    crate::lex::lemma_skip_class_stops(ms[j], 0, 0, CharClass::Ws);
                }
                crate::normalize::law_comment_normalization_idempotent(ls[j], w);
            }
        }
        assert(Seq::new(n as nat, |j: int| comment_line_out(ms, j)) =~= ms);
        if tail.len() > 0 {
            assert(out1.last() == '\n');
        } else {
            assert(out1 == j1);
        }
    }
}


} // verus!
