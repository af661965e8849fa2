//! The line grammar of beancount files: each line is classified and split
//! into its parts.
use vstd::prelude::*;
use crate::lex::{
    account_end, account_end_exec, currency_end, currency_end_exec, date_at, date_at_exec,
    has_newline, has_newline_exec, lemma_line_end, lemma_rtrim, lemma_skip_class, line_end,
    line_end_exec, lit_at, lit_at_exec, number_end, number_end_exec, rtrim, rtrim_exec, skip_class,
    skip_class_exec, skip_ws, CharClass,
};
use crate::text::{chars_of, index_or_len, is_ws, is_ws_char};

verus! {

#[derive(Debug, Clone, Copy, PartialEq, Eq, Structural)]
pub enum BlockKind {
    PushTag,
    PopTag,
    PushMeta,
    PopMeta,
}

/// The parts of a classified line, as values of `S`.
#[allow(inconsistent_fields)]
pub enum LineParts<S> {
    TransactionHeader { date: S, flag: S, rest: S },
    Posting {
        indent: S,
        account: S,
        number: Option<S>,
        currency: Option<S>,
        cost: Option<S>,
        price: Option<S>,
        comment: Option<S>,
    },
    Balance { date: S, account: S, number: S, currency: S, comment: Option<S> },
    Open { date: S, account: S, currencies: S, comment: Option<S> },
    Close { date: S, account: S, comment: Option<S> },
    Price { date: S, commodity: S, number: S, currency: S, comment: Option<S> },
    MetaItem { indent: S, key: S, value: S },
    Comment { indent: S, semicolons: S, content: S },
    BlockDirective { kind: BlockKind, rest: S },
    DateDirective { date: S, keyword: S, rest: S },
    Include { path: S },
    BlankLine,
    Other(S),
}

#[derive(Debug, PartialEq, Eq)]
#[allow(inconsistent_fields)]
pub enum Line<'a> {
    TransactionHeader { date: &'a str, flag: &'a str, rest: &'a str },
    Posting {
        indent: &'a str,
        account: &'a str,
        number: Option<&'a str>,
        currency: Option<&'a str>,
        cost: Option<&'a str>,
        price: Option<&'a str>,
        comment: Option<&'a str>,
    },
    Balance {
        date: &'a str,
        account: &'a str,
        number: &'a str,
        currency: &'a str,
        comment: Option<&'a str>,
    },
    Open { date: &'a str, account: &'a str, currencies: &'a str, comment: Option<&'a str> },
    Close { date: &'a str, account: &'a str, comment: Option<&'a str> },
    Price {
        date: &'a str,
        commodity: &'a str,
        number: &'a str,
        currency: &'a str,
        comment: Option<&'a str>,
    },
    MetaItem { indent: &'a str, key: &'a str, value: &'a str },
    Comment { indent: &'a str, semicolons: &'a str, content: &'a str },
    BlockDirective { kind: BlockKind, rest: &'a str },
    DateDirective { date: &'a str, keyword: &'a str, rest: &'a str },
    Include { path: &'a str },
    BlankLine,
    Other(&'a str),
}

pub open spec fn ov(o: Option<&str>) -> Option<Seq<char>> {
    match o {
        Some(s) => Some(s@),
        None => None,
    }
}

impl<'a> View for Line<'a> {
    type V = LineParts<Seq<char>>;

    open spec fn view(&self) -> LineParts<Seq<char>> {
        match *self {
            Line::TransactionHeader { date, flag, rest } => LineParts::TransactionHeader {
                date: date@,
                flag: flag@,
                rest: rest@,
            },
            Line::Posting { indent, account, number, currency, cost, price, comment } =>
                LineParts::Posting {
                indent: indent@,
                account: account@,
                number: ov(number),
                currency: ov(currency),
                cost: ov(cost),
                price: ov(price),
                comment: ov(comment),
            },
            Line::Balance { date, account, number, currency, comment } => LineParts::Balance {
                date: date@,
                account: account@,
                number: number@,
                currency: currency@,
                comment: ov(comment),
            },
            Line::Open { date, account, currencies, comment } => LineParts::Open {
                date: date@,
                account: account@,
                currencies: currencies@,
                comment: ov(comment),
            },
            Line::Close { date, account, comment } => LineParts::Close {
                date: date@,
                account: account@,
                comment: ov(comment),
            },
            Line::Price { date, commodity, number, currency, comment } => LineParts::Price {
                date: date@,
                commodity: commodity@,
                number: number@,
                currency: currency@,
                comment: ov(comment),
            },
            Line::MetaItem { indent, key, value } => LineParts::MetaItem {
                indent: indent@,
                key: key@,
                value: value@,
            },
            Line::Comment { indent, semicolons, content } => LineParts::Comment {
                indent: indent@,
                semicolons: semicolons@,
                content: content@,
            },
            Line::BlockDirective { kind, rest } => LineParts::BlockDirective { kind, rest: rest@ },
            Line::DateDirective { date, keyword, rest } => LineParts::DateDirective {
                date: date@,
                keyword: keyword@,
                rest: rest@,
            },
            Line::Include { path } => LineParts::Include { path: path@ },
            Line::BlankLine => LineParts::BlankLine,
            Line::Other(s) => LineParts::Other(s@),
        }
    }
}

// ---------------------------------------------------------------------------
// Pieces shared by several line kinds
// ---------------------------------------------------------------------------

/// `\s*(.*?)\s*$` from `from`: the content without surrounding whitespace,
/// which may not hold a line feed.
pub open spec fn trimmed_rest(s: Seq<char>, from: int) -> Option<(int, int)> {
    let a = skip_ws(s, from);
    let b = rtrim(s, a, s.len() as int);
    if has_newline(s, a, b) {
        None
    } else {
        Some((a, b))
    }
}

/// `(?:\s+(;.*))?\s*$` from `x`: `Some(None)` when only whitespace is left,
/// `Some(Some(span))` for a comment (up to the first line feed, after which
/// only whitespace may follow), `None` otherwise.
pub open spec fn tail_comment(s: Seq<char>, x: int) -> Option<Option<(int, int)>> {
    let q = skip_ws(s, x);
    if q >= s.len() {
        Some(None)
    } else if q > x && s[q] == ';' && skip_ws(s, line_end(s, q)) >= s.len() {
        Some(Some((q, line_end(s, q))))
    } else {
        None
    }
}

/// A date, whitespace, and `keyword`, at the start of the line: where the
/// whitespace after the keyword ends, when there is some.
pub open spec fn dated_keyword(s: Seq<char>, keyword: Seq<char>) -> Option<int> {
    let p = skip_ws(s, 10);
    let q = skip_ws(s, p + keyword.len());
    if date_at(s, 0) && p > 10 && lit_at(s, p, keyword) && q > p + keyword.len() {
        Some(q)
    } else {
        None
    }
}

fn trimmed_rest_exec(v: &[char], from: usize) -> (r: Option<(usize, usize)>)
    requires
        from <= v@.len(),
    ensures
        r matches Some((a, b)) ==> from <= a <= b <= v@.len() && trimmed_rest(v@, from as int)
            == Some((a as int, b as int)),
        r is None ==> trimmed_rest(v@, from as int) is None,
{
    let a = skip_class_exec(v, from, CharClass::Ws);
    let b = rtrim_exec(v, a, v.len());
    if has_newline_exec(v, a, b) {
        None
    } else {
        Some((a, b))
    }
}

fn tail_comment_exec(v: &[char], x: usize) -> (r: Option<Option<(usize, usize)>>)
    requires
        x <= v@.len(),
    ensures
        r matches Some(Some((a, b))) ==> x < a <= b <= v@.len() && tail_comment(v@, x as int)
            == Some(Some((a as int, b as int))),
        r matches Some(None) ==> tail_comment(v@, x as int) == Some(None::<(int, int)>),
        r is None ==> tail_comment(v@, x as int) is None,
{
    let q = skip_class_exec(v, x, CharClass::Ws);
    if q >= v.len() {
        return Some(None);
    }
    if q > x && v[q] == ';' {
        let le = line_end_exec(v, q);
        let after = skip_class_exec(v, le, CharClass::Ws);
        if after >= v.len() {
            return Some(Some((q, le)));
        }
    }
    None
}

fn dated_keyword_exec(v: &[char], keyword: &str) -> (r: Option<usize>)
    ensures
        r matches Some(q) ==> 10 < q <= v@.len() && dated_keyword(v@, keyword@) == Some(
            q as int,
        ),
        r is None ==> dated_keyword(v@, keyword@) is None,
{
    if !date_at_exec(v, 0) {
        return None;
    }
    let p = skip_class_exec(v, 10, CharClass::Ws);
    if p <= 10 {
        return None;
    }
    let found = lit_at_exec(v, p, keyword);
    if !found {
        return None;
    }
    let kl = keyword.unicode_len();
    let n = v.len();
    let q = skip_class_exec(v, p + kl, CharClass::Ws);
    if q > p + kl {
        Some(q)
    } else {
        None
    }
}

/// `\\s+NUMBER\\s+CURRENCY` from `x` (`\\s*` before the currency when not
/// `spaced`): the start and end of the number and of the currency.
pub open spec fn amount_after(s: Seq<char>, x: int, spaced: bool) -> Option<(int, int, int, int)> {
    let r = skip_ws(s, x);
    if r > x {
        match number_end(s, r) {
            Some(ne) => {
                let c = skip_ws(s, ne);
                if c > ne || !spaced {
                    match currency_end(s, c) {
                        Some(ce) => Some((r, ne, c, ce)),
                        None => None,
                    }
                } else {
                    None
                }
            },
            None => None,
        }
    } else {
        None
    }
}

pub open spec fn span_of(o: Option<(usize, usize)>) -> Option<(int, int)> {
    match o {
        Some((a, b)) => Some((a as int, b as int)),
        None => None,
    }
}

pub open spec fn span_ok(o: Option<(usize, usize)>, n: int) -> bool {
    o matches Some((a, b)) ==> a <= b <= n
}

fn amount_after_exec(v: &[char], x: usize, spaced: bool) -> (r: Option<(usize, usize, usize, usize)>)
    requires
        x <= v@.len(),
    ensures
        r matches Some((a, b, c, d)) ==> x < a <= b <= c <= d <= v@.len() && amount_after(
            v@,
            x as int,
            spaced,
        ) == Some((a as int, b as int, c as int, d as int)),
        r is None ==> amount_after(v@, x as int, spaced) is None,
{
    let n = v.len();
    let r = skip_class_exec(v, x, CharClass::Ws);
    if r <= x {
        return None;
    }
    proof {
        crate::lex::lemma_number_end(v@, r as int);
    }
    match number_end_exec(v, r) {
        Some(ne) => {
            let c = skip_class_exec(v, ne, CharClass::Ws);
            if c > ne || !spaced {
                proof {
                    crate::lex::lemma_currency_end(v@, c as int);
                }
                match currency_end_exec(v, c) {
                    Some(ce) => Some((r, ne, c, ce)),
                    None => None,
                }
            } else {
                None
            }
        },
        None => None,
    }
}

fn slice<'a>(line: &'a str, a: usize, b: usize) -> (r: &'a str)
    requires
        a <= b <= line@.len(),
    ensures
        r@ == line@.subrange(a as int, b as int),
{
    line.substring_char(a, b)
}

fn sub_opt<'a>(line: &'a str, o: Option<(usize, usize)>) -> (r: Option<&'a str>)
    requires
        span_ok(o, line@.len() as int),
    ensures
        ov(r) == (match span_of(o) {
            Some((a, b)) => Some(line@.subrange(a, b)),
            None => None,
        }),
{
    match o {
        Some((a, b)) => Some(line.substring_char(a, b)),
        None => None,
    }
}

pub open spec fn opt_sub(s: Seq<char>, o: Option<(int, int)>) -> Option<Seq<char>> {
    match o {
        Some((a, b)) => Some(s.subrange(a, b)),
        None => None,
    }
}

// ---------------------------------------------------------------------------
// Transaction headers
// ---------------------------------------------------------------------------

/// The length of the flag at `p`: `txn`, `tx`, `*`, `!`, `T` or `X`, tried in
/// that order; 0 when there is none.
pub open spec fn flag_len(s: Seq<char>, p: int) -> int {
    if lit_at(s, p, "txn"@) {
        3
    } else if lit_at(s, p, "tx"@) {
        2
    } else if 0 <= p < s.len() && (s[p] == '*' || s[p] == '!' || s[p] == 'T' || s[p] == 'X') {
        1
    } else {
        0
    }
}

/// `^DATE\\s+FLAG\\s*(.*?)\\s*$`
pub open spec fn parse_transaction(s: Seq<char>) -> Option<LineParts<Seq<char>>> {
    let p = skip_ws(s, 10);
    let fl = flag_len(s, p);
    if date_at(s, 0) && p > 10 && fl > 0 {
        match trimmed_rest(s, p + fl) {
            Some((a, b)) => Some(
                LineParts::TransactionHeader {
                    date: s.subrange(0, 10),
                    flag: s.subrange(p, p + fl),
                    rest: s.subrange(a, b),
                },
            ),
            None => None,
        }
    } else {
        None
    }
}

fn flag_len_exec(v: &[char], p: usize) -> (r: usize)
    ensures
        r == flag_len(v@, p as int),
        r > 0 ==> p + r <= v@.len(),
{
    proof {
        reveal_strlit("txn");
        reveal_strlit("tx");
    }
    if lit_at_exec(v, p, "txn") {
        3
    } else if lit_at_exec(v, p, "tx") {
        2
    } else if p < v.len() && (v[p] == '*' || v[p] == '!' || v[p] == 'T' || v[p] == 'X') {
        1
    } else {
        0
    }
}

fn parse_transaction_exec<'a>(line: &'a str, v: &[char]) -> (r: Option<Line<'a>>)
    requires
        v@ == line@,
    ensures
        r matches Some(l) ==> parse_transaction(line@) == Some(l@),
        r is None ==> parse_transaction(line@) is None,
{
    let n = v.len();
    if !date_at_exec(v, 0) {
        return None;
    }
    let p = skip_class_exec(v, 10, CharClass::Ws);
    let fl = flag_len_exec(v, p);
    if p <= 10 || fl == 0 {
        return None;
    }
    match trimmed_rest_exec(v, p + fl) {
        Some((a, b)) => Some(
            Line::TransactionHeader {
                date: slice(line, 0, 10),
                flag: slice(line, p, p + fl),
                rest: slice(line, a, b),
            },
        ),
        None => None,
    }
}

// ---------------------------------------------------------------------------
// Directives with an account or an amount
// ---------------------------------------------------------------------------

/// `^DATE\\s+balance\\s+ACCOUNT\\s+NUMBER\\s+CURRENCY`, then an optional comment.
pub open spec fn parse_balance(s: Seq<char>) -> Option<LineParts<Seq<char>>> {
    match dated_keyword(s, "balance"@) {
        Some(q) => match account_end(s, q) {
            Some(ae) => match amount_after(s, ae, true) {
                Some((r, ne, c, ce)) => match tail_comment(s, ce) {
                    Some(cm) => Some(
                        LineParts::Balance {
                            date: s.subrange(0, 10),
                            account: s.subrange(q, ae),
                            number: s.subrange(r, ne),
                            currency: s.subrange(c, ce),
                            comment: opt_sub(s, cm),
                        },
                    ),
                    None => None,
                },
                None => None,
            },
            None => None,
        },
        None => None,
    }
}

fn parse_balance_exec<'a>(line: &'a str, v: &[char]) -> (r: Option<Line<'a>>)
    requires
        v@ == line@,
    ensures
        r matches Some(l) ==> parse_balance(line@) == Some(l@),
        r is None ==> parse_balance(line@) is None,
{
    let n = v.len();
    let q = match dated_keyword_exec(v, "balance") {
        Some(q) => q,
        None => return None,
    };
    proof {
        crate::lex::lemma_account_end(v@, q as int);
    }
    let ae = match account_end_exec(v, q) {
        Some(ae) => ae,
        None => return None,
    };
    let (r, ne, c, ce) = match amount_after_exec(v, ae, true) {
        Some(t) => t,
        None => return None,
    };
    let cm = match tail_comment_exec(v, ce) {
        Some(cm) => cm,
        None => return None,
    };
    Some(
        Line::Balance {
            date: slice(line, 0, 10),
            account: slice(line, q, ae),
            number: slice(line, r, ne),
            currency: slice(line, c, ce),
            comment: sub_opt(line, cm),
        },
    )
}

/// Where the currencies of an `open` directive end: before the first `;` (or
/// the end), without trailing whitespace.
pub open spec fn currencies_end(s: Seq<char>, r: int) -> int {
    rtrim(s, r, r + index_or_len(s.subrange(r, s.len() as int), ';'))
}

/// `^DATE\\s+open\\s+ACCOUNT`, then optional currencies (text up to a `;`),
/// then an optional comment.
pub open spec fn parse_open(s: Seq<char>) -> Option<LineParts<Seq<char>>> {
    match dated_keyword(s, "open"@) {
        Some(q) => match account_end(s, q) {
            Some(ae) => {
                let r = skip_ws(s, ae);
                let has_currencies = r < s.len() && s[r] != ';' && r > ae;
                let cend = if has_currencies {
                    currencies_end(s, r)
                } else {
                    ae
                };
                let cstart = if has_currencies {
                    r
                } else {
                    ae
                };
                match tail_comment(s, cend) {
                    Some(cm) => Some(
                        LineParts::Open {
                            date: s.subrange(0, 10),
                            account: s.subrange(q, ae),
                            currencies: s.subrange(cstart, cend),
                            comment: opt_sub(s, cm),
                        },
                    ),
                    None => None,
                }
            },
            None => None,
        },
        None => None,
    }
}

fn parse_open_exec<'a>(line: &'a str, v: &[char]) -> (r: Option<Line<'a>>)
    requires
        v@ == line@,
    ensures
        r matches Some(l) ==> parse_open(line@) == Some(l@),
        r is None ==> parse_open(line@) is None,
{
    let n = v.len();
    let q = match dated_keyword_exec(v, "open") {
        Some(q) => q,
        None => return None,
    };
    proof {
        crate::lex::lemma_account_end(v@, q as int);
    }
    let ae = match account_end_exec(v, q) {
        Some(ae) => ae,
        None => return None,
    };
    let r = skip_class_exec(v, ae, CharClass::Ws);
    let has_currencies = r < n && v[r] != ';' && r > ae;
    let mut cstart = ae;
    let mut cend = ae;
    if has_currencies {
        let rest = crate::text::copy_range(v, r, n);
        let semi = crate::text::index_or_len_exec(&rest, ';');
        cend = rtrim_exec(v, r, r + semi);
        cstart = r;
    }
    let cm = match tail_comment_exec(v, cend) {
        Some(cm) => cm,
        None => return None,
    };
    Some(
        Line::Open {
            date: slice(line, 0, 10),
            account: slice(line, q, ae),
            currencies: slice(line, cstart, cend),
            comment: sub_opt(line, cm),
        },
    )
}

/// `^DATE\\s+close\\s+ACCOUNT`, then an optional comment.
pub open spec fn parse_close(s: Seq<char>) -> Option<LineParts<Seq<char>>> {
    match dated_keyword(s, "close"@) {
        Some(q) => match account_end(s, q) {
            Some(ae) => match tail_comment(s, ae) {
                Some(cm) => Some(
                    LineParts::Close {
                        date: s.subrange(0, 10),
                        account: s.subrange(q, ae),
                        comment: opt_sub(s, cm),
                    },
                ),
                None => None,
            },
            None => None,
        },
        None => None,
    }
}

fn parse_close_exec<'a>(line: &'a str, v: &[char]) -> (r: Option<Line<'a>>)
    requires
        v@ == line@,
    ensures
        r matches Some(l) ==> parse_close(line@) == Some(l@),
        r is None ==> parse_close(line@) is None,
{
    let n = v.len();
    let q = match dated_keyword_exec(v, "close") {
        Some(q) => q,
        None => return None,
    };
    proof {
        crate::lex::lemma_account_end(v@, q as int);
    }
    let ae = match account_end_exec(v, q) {
        Some(ae) => ae,
        None => return None,
    };
    let cm = match tail_comment_exec(v, ae) {
        Some(cm) => cm,
        None => return None,
    };
    Some(
        Line::Close {
            date: slice(line, 0, 10),
            account: slice(line, q, ae),
            comment: sub_opt(line, cm),
        },
    )
}

/// `^DATE\\s+price\\s+CURRENCY\\s+NUMBER\\s+CURRENCY`, then an optional comment.
pub open spec fn parse_price(s: Seq<char>) -> Option<LineParts<Seq<char>>> {
    match dated_keyword(s, "price"@) {
        Some(q) => match currency_end(s, q) {
            Some(c1) => match amount_after(s, c1, true) {
                Some((r, ne, c, ce)) => match tail_comment(s, ce) {
                    Some(cm) => Some(
                        LineParts::Price {
                            date: s.subrange(0, 10),
                            commodity: s.subrange(q, c1),
                            number: s.subrange(r, ne),
                            currency: s.subrange(c, ce),
                            comment: opt_sub(s, cm),
                        },
                    ),
                    None => None,
                },
                None => None,
            },
            None => None,
        },
        None => None,
    }
}

fn parse_price_exec<'a>(line: &'a str, v: &[char]) -> (r: Option<Line<'a>>)
    requires
        v@ == line@,
    ensures
        r matches Some(l) ==> parse_price(line@) == Some(l@),
        r is None ==> parse_price(line@) is None,
{
    let n = v.len();
    let q = match dated_keyword_exec(v, "price") {
        Some(q) => q,
        None => return None,
    };
    proof {
        crate::lex::lemma_currency_end(v@, q as int);
    }
    let c1 = match currency_end_exec(v, q) {
        Some(c1) => c1,
        None => return None,
    };
    let (r, ne, c, ce) = match amount_after_exec(v, c1, true) {
        Some(t) => t,
        None => return None,
    };
    let cm = match tail_comment_exec(v, ce) {
        Some(cm) => cm,
        None => return None,
    };
    Some(
        Line::Price {
            date: slice(line, 0, 10),
            commodity: slice(line, q, c1),
            number: slice(line, r, ne),
            currency: slice(line, c, ce),
            comment: sub_opt(line, cm),
        },
    )
}

// ---------------------------------------------------------------------------
// Metadata, comments, block directives, other dated directives, includes
// ---------------------------------------------------------------------------

/// `^(\\s+)([\\w-]+)\\s*:\\s*(.*?)\\s*$`
pub open spec fn parse_meta(s: Seq<char>) -> Option<LineParts<Seq<char>>> {
    let i0 = skip_ws(s, 0);
    let ke = skip_class(s, i0, CharClass::AcctChar);
    let c = skip_ws(s, ke);
    if i0 > 0 && ke > i0 && c < s.len() && s[c] == ':' {
        match trimmed_rest(s, c + 1) {
            Some((a, b)) => Some(
                LineParts::MetaItem {
                    indent: s.subrange(0, i0),
                    key: s.subrange(i0, ke),
                    value: s.subrange(a, b),
                },
            ),
            None => None,
        }
    } else {
        None
    }
}

fn parse_meta_exec<'a>(line: &'a str, v: &[char]) -> (r: Option<Line<'a>>)
    requires
        v@ == line@,
    ensures
        r matches Some(l) ==> parse_meta(line@) == Some(l@),
        r is None ==> parse_meta(line@) is None,
{
    let n = v.len();
    let i0 = skip_class_exec(v, 0, CharClass::Ws);
    let ke = skip_class_exec(v, i0, CharClass::AcctChar);
    let c = skip_class_exec(v, ke, CharClass::Ws);
    if i0 > 0 && ke > i0 && c < n && v[c] == ':' {
        match trimmed_rest_exec(v, c + 1) {
            Some((a, b)) => Some(
                Line::MetaItem {
                    indent: slice(line, 0, i0),
                    key: slice(line, i0, ke),
                    value: slice(line, a, b),
                },
            ),
            None => None,
        }
    } else {
        None
    }
}

/// Where the `;` or `;;` of a comment at `w` ends.
pub open spec fn semis_end(s: Seq<char>, w: int) -> int {
    if w + 1 < s.len() && s[w + 1] == ';' {
        w + 2
    } else {
        w + 1
    }
}

/// `^(\\s*)(;;?)\\s?(.*?)\\s*$`
pub open spec fn parse_comment(s: Seq<char>) -> Option<LineParts<Seq<char>>> {
    let w = skip_ws(s, 0);
    let e = semis_end(s, w);
    let a = if e < s.len() && is_ws(s[e]) {
        e + 1
    } else {
        e
    };
    let b = rtrim(s, a, s.len() as int);
    if w < s.len() && s[w] == ';' && !has_newline(s, a, b) {
        Some(
            LineParts::Comment {
                indent: s.subrange(0, w),
                semicolons: s.subrange(w, e),
                content: s.subrange(a, b),
            },
        )
    } else {
        None
    }
}

fn parse_comment_exec<'a>(line: &'a str, v: &[char]) -> (r: Option<Line<'a>>)
    requires
        v@ == line@,
    ensures
        r matches Some(l) ==> parse_comment(line@) == Some(l@),
        r is None ==> parse_comment(line@) is None,
{
    let n = v.len();
    let w = skip_class_exec(v, 0, CharClass::Ws);
    if w >= n || v[w] != ';' {
        return None;
    }
    let e = if w + 1 < n && v[w + 1] == ';' {
        w + 2
    } else {
        w + 1
    };
    let a = if e < n && is_ws_char(v[e]) {
        e + 1
    } else {
        e
    };
    let b = rtrim_exec(v, a, n);
    if has_newline_exec(v, a, b) {
        return None;
    }
    Some(
        Line::Comment {
            indent: slice(line, 0, w),
            semicolons: slice(line, w, e),
            content: slice(line, a, b),
        },
    )
}

/// The block keyword at the start of the line, tried in the order `pushtag`,
/// `poptag`, `pushmeta`, `popmeta`, with its length.
pub open spec fn block_keyword(s: Seq<char>) -> Option<(BlockKind, int)> {
    if lit_at(s, 0, "pushtag"@) {
        Some((BlockKind::PushTag, 7))
    } else if lit_at(s, 0, "poptag"@) {
        Some((BlockKind::PopTag, 6))
    } else if lit_at(s, 0, "pushmeta"@) {
        Some((BlockKind::PushMeta, 8))
    } else if lit_at(s, 0, "popmeta"@) {
        Some((BlockKind::PopMeta, 7))
    } else {
        None
    }
}

/// `^(pushtag|poptag|pushmeta|popmeta)\\s+(.*?)\\s*$`
pub open spec fn parse_block(s: Seq<char>) -> Option<LineParts<Seq<char>>> {
    match block_keyword(s) {
        Some((kind, kl)) => if skip_ws(s, kl) > kl {
            match trimmed_rest(s, kl) {
                Some((a, b)) => Some(LineParts::BlockDirective { kind, rest: s.subrange(a, b) }),
                None => None,
            }
        } else {
            None
        },
        None => None,
    }
}

fn parse_block_exec<'a>(line: &'a str, v: &[char]) -> (r: Option<Line<'a>>)
    requires
        v@ == line@,
    ensures
        r matches Some(l) ==> parse_block(line@) == Some(l@),
        r is None ==> parse_block(line@) is None,
{
    let n = v.len();
    proof {
        reveal_strlit("pushtag");
        reveal_strlit("poptag");
        reveal_strlit("pushmeta");
        reveal_strlit("popmeta");
    }
    let (kind, kl) = if lit_at_exec(v, 0, "pushtag") {
        (BlockKind::PushTag, 7)
    } else if lit_at_exec(v, 0, "poptag") {
        (BlockKind::PopTag, 6)
    } else if lit_at_exec(v, 0, "pushmeta") {
        (BlockKind::PushMeta, 8)
    } else if lit_at_exec(v, 0, "popmeta") {
        (BlockKind::PopMeta, 7)
    } else {
        return None;
    };
    if skip_class_exec(v, kl, CharClass::Ws) <= kl {
        return None;
    }
    match trimmed_rest_exec(v, kl) {
        Some((a, b)) => Some(Line::BlockDirective { kind, rest: slice(line, a, b) }),
        None => None,
    }
}

/// The keyword of a dated directive at `p`, tried in the order `note`,
/// `document`, `pad`, `event`, `custom`, `query`, `commodity`, with its length.
pub open spec fn date_keyword_len(s: Seq<char>, p: int) -> int {
    if lit_at(s, p, "note"@) {
        4
    } else if lit_at(s, p, "document"@) {
        8
    } else if lit_at(s, p, "pad"@) {
        3
    } else if lit_at(s, p, "event"@) {
        5
    } else if lit_at(s, p, "custom"@) {
        6
    } else if lit_at(s, p, "query"@) {
        5
    } else if lit_at(s, p, "commodity"@) {
        9
    } else {
        0
    }
}

/// `^DATE\\s+(note|document|pad|event|custom|query|commodity)\\s+(.*?)\\s*$`
pub open spec fn parse_date_directive(s: Seq<char>) -> Option<LineParts<Seq<char>>> {
    let p = skip_ws(s, 10);
    let kl = date_keyword_len(s, p);
    if date_at(s, 0) && p > 10 && kl > 0 && skip_ws(s, p + kl) > p + kl {
        match trimmed_rest(s, p + kl) {
            Some((a, b)) => Some(
                LineParts::DateDirective {
                    date: s.subrange(0, 10),
                    keyword: s.subrange(p, p + kl),
                    rest: s.subrange(a, b),
                },
            ),
            None => None,
        }
    } else {
        None
    }
}

fn date_keyword_len_exec(v: &[char], p: usize) -> (r: usize)
    ensures
        r == date_keyword_len(v@, p as int),
        r > 0 ==> p + r <= v@.len(),
{
    proof {
        reveal_strlit("note");
        reveal_strlit("document");
        reveal_strlit("pad");
        reveal_strlit("event");
        reveal_strlit("custom");
        reveal_strlit("query");
        reveal_strlit("commodity");
    }
    if lit_at_exec(v, p, "note") {
        4
    } else if lit_at_exec(v, p, "document") {
        8
    } else if lit_at_exec(v, p, "pad") {
        3
    } else if lit_at_exec(v, p, "event") {
        5
    } else if lit_at_exec(v, p, "custom") {
        6
    } else if lit_at_exec(v, p, "query") {
        5
    } else if lit_at_exec(v, p, "commodity") {
        9
    } else {
        0
    }
}

fn parse_date_directive_exec<'a>(line: &'a str, v: &[char]) -> (r: Option<Line<'a>>)
    requires
        v@ == line@,
    ensures
        r matches Some(l) ==> parse_date_directive(line@) == Some(l@),
        r is None ==> parse_date_directive(line@) is None,
{
    let n = v.len();
    if !date_at_exec(v, 0) {
        return None;
    }
    let p = skip_class_exec(v, 10, CharClass::Ws);
    let kl = date_keyword_len_exec(v, p);
    if p <= 10 || kl == 0 || skip_class_exec(v, p + kl, CharClass::Ws) <= p + kl {
        return None;
    }
    match trimmed_rest_exec(v, p + kl) {
        Some((a, b)) => Some(
            Line::DateDirective {
                date: slice(line, 0, 10),
                keyword: slice(line, p, p + kl),
                rest: slice(line, a, b),
            },
        ),
        None => None,
    }
}

/// The closing quote of an include path: the first `"` at or after `j`, with
/// no line feed before it, that only whitespace follows.
pub open spec fn closing_quote(s: Seq<char>, j: int) -> Option<int>
    decreases s.len() - j,
{
    if j < 0 || j >= s.len() {
        None
    } else if s[j] == '"' && skip_ws(s, j + 1) >= s.len() {
        Some(j)
    } else if s[j] != '\n' {
        closing_quote(s, j + 1)
    } else {
        None
    }
}

proof fn lemma_closing_quote(s: Seq<char>, j: int)
    requires
        0 <= j,
    ensures
        closing_quote(s, j) matches Some(e) ==> j <= e < s.len(),
    decreases s.len() - j,
{
    if 0 <= j < s.len() && !(s[j] == '"' && skip_ws(s, j + 1) >= s.len()) && s[j] != '\n' {
        lemma_closing_quote(s, j + 1);
    }
}

/// `^include\\s+"(.*?)"\\s*$`
pub open spec fn parse_include(s: Seq<char>) -> Option<LineParts<Seq<char>>> {
    let q = skip_ws(s, 7);
    if lit_at(s, 0, "include"@) && q > 7 && q < s.len() && s[q] == '"' {
        match closing_quote(s, q + 1) {
            Some(e) => Some(LineParts::Include { path: s.subrange(q + 1, e) }),
            None => None,
        }
    } else {
        None
    }
}

fn parse_include_exec<'a>(line: &'a str, v: &[char]) -> (r: Option<Line<'a>>)
    requires
        v@ == line@,
    ensures
        r matches Some(l) ==> parse_include(line@) == Some(l@),
        r is None ==> parse_include(line@) is None,
{
    let n = v.len();
    proof {
        reveal_strlit("include");
    }
    if !lit_at_exec(v, 0, "include") {
        return None;
    }
    let q = skip_class_exec(v, 7, CharClass::Ws);
    if q <= 7 || q >= n || v[q] != '"' {
        return None;
    }
    let mut j = q + 1;
    proof {
        lemma_closing_quote(v@, j as int);
    }
    loop
        invariant
            q + 1 <= j <= n,
            n == v@.len(),
            v@ == line@,
            lit_at(v@, 0, "include"@),
            q == skip_ws(v@, 7),
            7 < q < n,
            v@[q as int] == '"',
            closing_quote(v@, j as int) == closing_quote(v@, q + 1),
        decreases n - j,
    {
        if j >= n {
            return None;
        }
        if v[j] == '"' && skip_class_exec(v, j + 1, CharClass::Ws) >= n {
            return Some(Line::Include { path: slice(line, q + 1, j) });
        }
        if v[j] == '\n' {
            return None;
        }
        j = j + 1;
    }
}

// ---------------------------------------------------------------------------
// Postings
// ---------------------------------------------------------------------------

/// `(?:\\s+(;.*))?$` from `x`: the end of the text, or whitespace and a
/// comment that runs to the end without a line feed.
pub open spec fn comment_end(s: Seq<char>, x: int) -> Option<Option<(int, int)>> {
    let q = skip_ws(s, x);
    if x >= s.len() {
        Some(None)
    } else if q > x && q < s.len() && s[q] == ';' && !has_newline(s, q, s.len() as int) {
        Some(Some((q, s.len() as int)))
    } else {
        None
    }
}

/// Where the `@` or `@@` of a price annotation at `q` ends.
pub open spec fn at_end(s: Seq<char>, q: int) -> int {
    if q + 1 < s.len() && s[q + 1] == '@' {
        q + 2
    } else {
        q + 1
    }
}

/// `(?:\\s+(@@?\\s+NUMBER\\s+CURRENCY))?(?:\\s+(;.*))?$` from `x`: the price
/// annotation and the comment.
pub open spec fn price_comment(s: Seq<char>, x: int) -> Option<(Option<(int, int)>, Option<(int, int)>)> {
    let q = skip_ws(s, x);
    if q > x && q < s.len() && s[q] == '@' {
        match amount_after(s, at_end(s, q), true) {
            Some((r, ne, c, ce)) => match comment_end(s, ce) {
                Some(cm) => Some((Some((q, ce)), cm)),
                None => None,
            },
            None => None,
        }
    } else {
        match comment_end(s, x) {
            Some(cm) => Some((None, cm)),
            None => None,
        }
    }
}

/// The shortest cost whose closing brace (`}}` when `double`, else `}`) is at
/// or after `j`, with no line feed before it, after which the price and
/// comment parts match: the end of the cost, and those parts.
pub open spec fn find_cost_end(s: Seq<char>, j: int, double: bool) -> Option<
    (int, (Option<(int, int)>, Option<(int, int)>)),
>
    decreases s.len() - j,
{
    let w = if double {
        2int
    } else {
        1int
    };
    let closes = if double {
        lit_at(s, j, "}}"@)
    } else {
        0 <= j < s.len() && s[j] == '}'
    };
    if j < 0 || j > s.len() {
        None
    } else if closes && price_comment(s, j + w) is Some {
        Some((j + w, price_comment(s, j + w).unwrap()))
    } else if j < s.len() && s[j] != '\n' {
        find_cost_end(s, j + 1, double)
    } else {
        None
    }
}

/// `(?:\\s+(\\{\\{.*?\\}\\}|\\{.*?\\}))?` then the price and comment parts,
/// from `x`: the cost, the price annotation and the comment.
pub open spec fn posting_rest(s: Seq<char>, x: int) -> Option<
    (Option<(int, int)>, Option<(int, int)>, Option<(int, int)>),
> {
    let q = skip_ws(s, x);
    if q > x && q < s.len() && s[q] == '{' {
        let double = if lit_at(s, q, "{{"@) {
            find_cost_end(s, q + 2, true)
        } else {
            None
        };
        match double {
            Some((e, (pr, cm))) => Some((Some((q, e)), pr, cm)),
            None => match find_cost_end(s, q + 1, false) {
                Some((e, (pr, cm))) => Some((Some((q, e)), pr, cm)),
                None => None,
            },
        }
    } else {
        match price_comment(s, x) {
            Some((pr, cm)) => Some((None, pr, cm)),
            None => None,
        }
    }
}

/// `^(\\s+)ACCOUNT(?:\\s+NUMBER\\s*CURRENCY)?`, then cost, price and comment.
pub open spec fn parse_posting(s: Seq<char>) -> Option<LineParts<Seq<char>>> {
    let i0 = skip_ws(s, 0);
    if i0 > 0 {
        match account_end(s, i0) {
            Some(ae) => {
                let amount = amount_after(s, ae, false);
                let x = match amount {
                    Some((r, ne, c, ce)) => ce,
                    None => ae,
                };
                match posting_rest(s, x) {
                    Some((co, pr, cm)) => Some(
                        LineParts::Posting {
                            indent: s.subrange(0, i0),
                            account: s.subrange(i0, ae),
                            number: match amount {
                                Some((r, ne, c, ce)) => Some(s.subrange(r, ne)),
                                None => None,
                            },
                            currency: match amount {
                                Some((r, ne, c, ce)) => Some(s.subrange(c, ce)),
                                None => None,
                            },
                            cost: opt_sub(s, co),
                            price: opt_sub(s, pr),
                            comment: opt_sub(s, cm),
                        },
                    ),
                    None => None,
                }
            },
            None => None,
        }
    } else {
        None
    }
}

fn comment_end_exec(v: &[char], x: usize) -> (r: Option<Option<(usize, usize)>>)
    requires
        x <= v@.len(),
    ensures
        r matches Some(cm) ==> span_ok(cm, v@.len() as int) && comment_end(v@, x as int) == Some(
            span_of(cm),
        ),
        r is None ==> comment_end(v@, x as int) is None,
{
    let n = v.len();
    if x >= n {
        return Some(None);
    }
    let q = skip_class_exec(v, x, CharClass::Ws);
    if q > x && q < n && v[q] == ';' && !has_newline_exec(v, q, n) {
        Some(Some((q, n)))
    } else {
        None
    }
}

fn price_comment_exec(v: &[char], x: usize) -> (r: Option<
    (Option<(usize, usize)>, Option<(usize, usize)>),
>)
    requires
        x <= v@.len(),
    ensures
        r matches Some((pr, cm)) ==> span_ok(pr, v@.len() as int) && span_ok(cm, v@.len() as int)
            && price_comment(v@, x as int) == Some((span_of(pr), span_of(cm))),
        r is None ==> price_comment(v@, x as int) is None,
{
    let n = v.len();
    let q = skip_class_exec(v, x, CharClass::Ws);
    if q > x && q < n && v[q] == '@' {
        let p2 = if q + 1 < n && v[q + 1] == '@' {
            q + 2
        } else {
            q + 1
        };
        match amount_after_exec(v, p2, true) {
            Some((r, ne, c, ce)) => match comment_end_exec(v, ce) {
                Some(cm) => Some((Some((q, ce)), cm)),
                None => None,
            },
            None => None,
        }
    } else {
        match comment_end_exec(v, x) {
            Some(cm) => Some((None, cm)),
            None => None,
        }
    }
}

fn find_cost_end_exec(v: &[char], j0: usize, double: bool) -> (r: Option<
    (usize, (Option<(usize, usize)>, Option<(usize, usize)>)),
>)
    requires
        j0 <= v@.len(),
    ensures
        r matches Some((e, (pr, cm))) ==> j0 <= e <= v@.len() && span_ok(pr, v@.len() as int) && span_ok(
            cm,
            v@.len() as int,
        ) && find_cost_end(v@, j0 as int, double) == Some(
            (e as int, (span_of(pr), span_of(cm))),
        ),
        r is None ==> find_cost_end(v@, j0 as int, double) is None,
{
    let n = v.len();
    let mut j = j0;
    loop
        invariant
            j0 <= j <= n,
            n == v@.len(),
            find_cost_end(v@, j as int, double) == find_cost_end(v@, j0 as int, double),
        decreases n - j,
    {
        proof {
            reveal_strlit("}}");
        }
        let w: usize = if double {
            2
        } else {
            1
        };
        let closes = if double {
            lit_at_exec(v, j, "}}")
        } else {
            j < n && v[j] == '}'
        };
        if closes {
            match price_comment_exec(v, j + w) {
                Some(pc) => {
                    return Some((j + w, pc));
                },
                None => {},
            }
        }
        if j < n && v[j] != '\n' {
            j = j + 1;
        } else {
            return None;
        }
    }
}

fn posting_rest_exec(v: &[char], x: usize) -> (r: Option<
    (Option<(usize, usize)>, Option<(usize, usize)>, Option<(usize, usize)>),
>)
    requires
        x <= v@.len(),
    ensures
        r matches Some((co, pr, cm)) ==> span_ok(co, v@.len() as int) && span_ok(
            pr,
            v@.len() as int,
        ) && span_ok(cm, v@.len() as int) && posting_rest(v@, x as int) == Some(
            (span_of(co), span_of(pr), span_of(cm)),
        ),
        r is None ==> posting_rest(v@, x as int) is None,
{
    let n = v.len();
    let q = skip_class_exec(v, x, CharClass::Ws);
    if q > x && q < n && v[q] == '{' {
        proof {
            reveal_strlit("{{");
        }
        let double = if lit_at_exec(v, q, "{{") {
            find_cost_end_exec(v, q + 2, true)
        } else {
            None
        };
        match double {
            Some((e, (pr, cm))) => Some((Some((q, e)), pr, cm)),
            None => match find_cost_end_exec(v, q + 1, false) {
                Some((e, (pr, cm))) => Some((Some((q, e)), pr, cm)),
                None => None,
            },
        }
    } else {
        match price_comment_exec(v, x) {
            Some((pr, cm)) => Some((None, pr, cm)),
            None => None,
        }
    }
}

fn parse_posting_exec<'a>(line: &'a str, v: &[char]) -> (r: Option<Line<'a>>)
    requires
        v@ == line@,
    ensures
        r matches Some(l) ==> parse_posting(line@) == Some(l@),
        r is None ==> parse_posting(line@) is None,
{
    let n = v.len();
    let i0 = skip_class_exec(v, 0, CharClass::Ws);
    if i0 == 0 {
        return None;
    }
    proof {
        crate::lex::lemma_account_end(v@, i0 as int);
    }
    let ae = match account_end_exec(v, i0) {
        Some(ae) => ae,
        None => return None,
    };
    let amount = amount_after_exec(v, ae, false);
    let x = match amount {
        Some((r, ne, c, ce)) => ce,
        None => ae,
    };
    let (co, pr, cm) = match posting_rest_exec(v, x) {
        Some(t) => t,
        None => return None,
    };
    let (number, currency) = match amount {
        Some((r, ne, c, ce)) => (Some(slice(line, r, ne)), Some(slice(line, c, ce))),
        None => (None, None),
    };
    Some(
        Line::Posting {
            indent: slice(line, 0, i0),
            account: slice(line, i0, ae),
            number,
            currency,
            cost: sub_opt(line, co),
            price: sub_opt(line, pr),
            comment: sub_opt(line, cm),
        },
    )
}

// ---------------------------------------------------------------------------
// Classification
// ---------------------------------------------------------------------------

/// The first kind that matches, in the order: blank, transaction header,
/// balance, open, close, price, posting, metadata, comment, block directive,
/// dated directive, include; otherwise `Other`.
#[verifier::opaque]
pub open spec fn spec_parse_line(s: Seq<char>) -> LineParts<Seq<char>> {
    if skip_ws(s, 0) >= s.len() {
        LineParts::BlankLine
    } else if parse_transaction(s) is Some {
        parse_transaction(s).unwrap()
    } else if parse_balance(s) is Some {
        parse_balance(s).unwrap()
    } else if parse_open(s) is Some {
        parse_open(s).unwrap()
    } else if parse_close(s) is Some {
        parse_close(s).unwrap()
    } else if parse_price(s) is Some {
        parse_price(s).unwrap()
    } else if parse_posting(s) is Some {
        parse_posting(s).unwrap()
    } else if parse_meta(s) is Some {
        parse_meta(s).unwrap()
    } else if parse_comment(s) is Some {
        parse_comment(s).unwrap()
    } else if parse_block(s) is Some {
        parse_block(s).unwrap()
    } else if parse_date_directive(s) is Some {
        parse_date_directive(s).unwrap()
    } else if parse_include(s) is Some {
        parse_include(s).unwrap()
    } else {
        LineParts::Other(s)
    }
}

/// Classify a line and split it into its parts.
pub fn parse_line(line: &str) -> (r: Line<'_>)
    ensures
        r@ == spec_parse_line(line@),
{
    reveal(spec_parse_line);
    let v = chars_of(line);
    if skip_class_exec(&v, 0, CharClass::Ws) >= v.len() {
        return Line::BlankLine;
    }
    if let Some(l) = parse_transaction_exec(line, &v) {
        return l;
    }
    if let Some(l) = parse_balance_exec(line, &v) {
        return l;
    }
    if let Some(l) = parse_open_exec(line, &v) {
        return l;
    }
    if let Some(l) = parse_close_exec(line, &v) {
        return l;
    }
    if let Some(l) = parse_price_exec(line, &v) {
        return l;
    }
    if let Some(l) = parse_posting_exec(line, &v) {
        return l;
    }
    if let Some(l) = parse_meta_exec(line, &v) {
        return l;
    }
    if let Some(l) = parse_comment_exec(line, &v) {
        return l;
    }
    if let Some(l) = parse_block_exec(line, &v) {
        return l;
    }
    if let Some(l) = parse_date_directive_exec(line, &v) {
        return l;
    }
    if let Some(l) = parse_include_exec(line, &v) {
        return l;
    }
    Line::Other(line)
}

/// The transaction flags: `*`, `!`, `txn`, `tx`, `T` and `X`.
pub open spec fn transaction_flag(k: Seq<char>) -> bool {
    ||| k == "*"@
    ||| k == "!"@
    ||| k == "txn"@
    ||| k == "tx"@
    ||| k == "T"@
    ||| k == "X"@
}

/// A line made of a date, whitespace and a transaction flag, then the rest,
/// is a transaction header with that date and flag (`txn` read whole), and
/// the rest with its surrounding whitespace taken off.
pub proof fn law_transaction_flags(s: Seq<char>, k: Seq<char>)
    requires
        transaction_flag(k),
        date_at(s, 0),
        skip_ws(s, 10) > 10,
        lit_at(s, skip_ws(s, 10), k),
        k == "tx"@ ==> !lit_at(s, skip_ws(s, 10), "txn"@),
        forall|i: int| 0 <= i < s.len() ==> #[trigger] s[i] != '\n',
    ensures
        ({
            let p = skip_ws(s, 10);
            let a = skip_ws(s, p + k.len());
            let b = rtrim(s, a, s.len() as int);
            spec_parse_line(s) == LineParts::TransactionHeader {
                date: s.take(10),
                flag: k,
                rest: s.subrange(a, b),
            }
        }),
{
    reveal(spec_parse_line);
    reveal_strlit("*");
    reveal_strlit("!");
    reveal_strlit("txn");
    reveal_strlit("tx");
    reveal_strlit("T");
    reveal_strlit("X");
    let p = skip_ws(s, 10);
    lemma_skip_class(s, 10, CharClass::Ws);
    let kl = k.len() as int;
    assert(s.subrange(p, p + kl) == k);
    assert(s[p] == k[0]) by {
        assert(s.subrange(p, p + kl)[0] == s[p]);
    }
    assert(!is_ws(s[0]));
    crate::lex::lemma_skip_class_stops(s, 0, 0, CharClass::Ws);
    if k.len() == 1 {
        assert(!lit_at(s, p, "txn"@)) by {
            if lit_at(s, p, "txn"@) {
                assert(s.subrange(p, p + 3)[0] == s[p]);
            }
        }
        assert(!lit_at(s, p, "tx"@)) by {
            if lit_at(s, p, "tx"@) {
                assert(s.subrange(p, p + 2)[0] == s[p]);
            }
        }
    }
    assert(flag_len(s, p) == kl);
    let a = skip_ws(s, p + kl);
    lemma_skip_class(s, p + kl, CharClass::Ws);
    let b = rtrim(s, a, s.len() as int);
    lemma_rtrim(s, a, s.len() as int);
    assert(!has_newline(s, a, b));
    assert(trimmed_rest(s, p + kl) == Some((a, b)));
}


/// The keywords of the dated directives that take free text.
pub open spec fn dated_keyword_word(k: Seq<char>) -> bool {
    ||| k == "note"@
    ||| k == "document"@
    ||| k == "pad"@
    ||| k == "event"@
    ||| k == "custom"@
    ||| k == "query"@
    ||| k == "commodity"@
}

/// A line made of a date, whitespace, one of the keywords `note`, `document`,
/// `pad`, `event`, `custom`, `query` or `commodity`, whitespace and the rest
/// is a dated directive with that date and keyword, and the rest with its
/// surrounding whitespace taken off.
pub proof fn law_date_directive_keywords(s: Seq<char>, k: Seq<char>)
    requires
        dated_keyword_word(k),
        date_at(s, 0),
        skip_ws(s, 10) > 10,
        lit_at(s, skip_ws(s, 10), k),
        skip_ws(s, skip_ws(s, 10) + k.len()) > skip_ws(s, 10) + k.len(),
        forall|i: int| 0 <= i < s.len() ==> #[trigger] s[i] != '\n',
    ensures
        ({
            let p = skip_ws(s, 10);
            let a = skip_ws(s, p + k.len());
            let b = rtrim(s, a, s.len() as int);
            spec_parse_line(s) == LineParts::DateDirective {
                date: s.take(10),
                keyword: k,
                rest: s.subrange(a, b),
            }
        }),
{
    reveal(spec_parse_line);
    reveal_strlit("note");
    reveal_strlit("document");
    reveal_strlit("pad");
    reveal_strlit("event");
    reveal_strlit("custom");
    reveal_strlit("query");
    reveal_strlit("commodity");
    reveal_strlit("txn");
    reveal_strlit("tx");
    reveal_strlit("balance");
    reveal_strlit("open");
    reveal_strlit("close");
    reveal_strlit("price");
    reveal_strlit("pushtag");
    reveal_strlit("poptag");
    reveal_strlit("pushmeta");
    reveal_strlit("popmeta");
    let p = skip_ws(s, 10);
    lemma_skip_class(s, 10, CharClass::Ws);
    let kl = k.len() as int;
    assert(kl >= 3);
    let q = skip_ws(s, p + kl);
    lemma_skip_class(s, p + kl, CharClass::Ws);
    assert(s.subrange(p, p + kl) == k);
    assert(s[p] == k[0]) by {
        assert(s.subrange(p, p + kl)[0] == s[p]);
    }
    assert(s[p + 1] == k[1]) by {
        assert(s.subrange(p, p + kl)[1] == s[p + 1]);
    }
    assert(s[p + 2] == k[2]) by {
        assert(s.subrange(p, p + kl)[2] == s[p + 2]);
    }
    // the line is not blank, and starts with a digit
    assert(!is_ws(s[0]));
    crate::lex::lemma_skip_class_stops(s, 0, 0, CharClass::Ws);
    // no transaction flag at the keyword
    assert(!lit_at(s, p, "txn"@)) by {
        if lit_at(s, p, "txn"@) {
            assert(s.subrange(p, p + 3)[0] == s[p]);
        }
    }
    assert(!lit_at(s, p, "tx"@)) by {
        if lit_at(s, p, "tx"@) {
            assert(s.subrange(p, p + 2)[0] == s[p]);
        }
    }
    // none of the other dated keywords
    assert(!lit_at(s, p, "balance"@)) by {
        if lit_at(s, p, "balance"@) {
            assert(s.subrange(p, p + 7)[0] == s[p]);
        }
    }
    assert(!lit_at(s, p, "open"@)) by {
        if lit_at(s, p, "open"@) {
            assert(s.subrange(p, p + 4)[0] == s[p]);
        }
    }
    assert(!lit_at(s, p, "close"@)) by {
        if lit_at(s, p, "close"@) {
            assert(s.subrange(p, p + 5)[0] == s[p]);
            assert(s.subrange(p, p + 5)[1] == s[p + 1]);
        }
    }
    assert(!lit_at(s, p, "price"@)) by {
        if lit_at(s, p, "price"@) {
            assert(s.subrange(p, p + 5)[0] == s[p]);
            assert(s.subrange(p, p + 5)[1] == s[p + 1]);
        }
    }
    // the earlier keywords of the list do not match a later one
    assert(k == "commodity"@ ==> !lit_at(s, p, "custom"@)) by {
        if k == "commodity"@ && lit_at(s, p, "custom"@) {
            assert(s.subrange(p, p + 6)[1] == s[p + 1]);
        }
    }
    assert(k == "custom"@ ==> !lit_at(s, p, "commodity"@));
    assert(k == "pad"@ ==> !lit_at(s, p, "price"@));
    // block directives start with a keyword, not a digit
    assert(!lit_at(s, 0, "pushtag"@) && !lit_at(s, 0, "poptag"@) && !lit_at(s, 0, "pushmeta"@)
        && !lit_at(s, 0, "popmeta"@)) by {
        if lit_at(s, 0, "pushtag"@) {
            assert(s.subrange(0, 7)[0] == s[0]);
        }
        if lit_at(s, 0, "poptag"@) {
            assert(s.subrange(0, 6)[0] == s[0]);
        }
        if lit_at(s, 0, "pushmeta"@) {
            assert(s.subrange(0, 8)[0] == s[0]);
        }
        if lit_at(s, 0, "popmeta"@) {
            assert(s.subrange(0, 7)[0] == s[0]);
        }
    }
    assert(date_keyword_len(s, p) == kl) by {
        if k == "note"@ {
        } else if k == "document"@ {
            assert(!lit_at(s, p, "note"@)) by {
                if lit_at(s, p, "note"@) {
                    assert(s.subrange(p, p + 4)[0] == s[p]);
                }
            }
        } else {
            assert(!lit_at(s, p, "note"@)) by {
                if lit_at(s, p, "note"@) {
                    assert(s.subrange(p, p + 4)[0] == s[p]);
                }
            }
            assert(!lit_at(s, p, "document"@)) by {
                if lit_at(s, p, "document"@) {
                    assert(s.subrange(p, p + 8)[0] == s[p]);
                }
            }
            if k != "pad"@ {
                assert(!lit_at(s, p, "pad"@)) by {
                    if lit_at(s, p, "pad"@) {
                        assert(s.subrange(p, p + 3)[0] == s[p]);
                    }
                }
                if k != "event"@ {
                    assert(!lit_at(s, p, "event"@)) by {
                        if lit_at(s, p, "event"@) {
                            assert(s.subrange(p, p + 5)[0] == s[p]);
                        }
                    }
                    if k != "custom"@ {
                        assert(!lit_at(s, p, "query"@) || k == "query"@) by {
                            if lit_at(s, p, "query"@) {
                                assert(s.subrange(p, p + 5)[0] == s[p]);
                            }
                        }
                    }
                }
            }
        }
    }
    let a = q;
    let b = rtrim(s, a, s.len() as int);
    lemma_rtrim(s, a, s.len() as int);
    assert(!has_newline(s, a, b));
    assert(trimmed_rest(s, p + kl) == Some((a, b)));
}


/// A comment line starts, after its indentation, with `;`.
pub proof fn lemma_parsed_comment(s: Seq<char>)
    ensures
        spec_parse_line(s) is Comment ==> skip_ws(s, 0) < s.len() && s[skip_ws(s, 0)] == ';',
{
    reveal(spec_parse_line);
}

/// A metadata line has at least an indentation, a key and a colon.
pub proof fn lemma_parsed_meta(s: Seq<char>)
    ensures
        spec_parse_line(s) is MetaItem ==> s.len() >= 3,
{
    reveal(spec_parse_line);
    if spec_parse_line(s) is MetaItem {
        let i0 = skip_ws(s, 0);
        let ke = skip_class(s, i0, CharClass::AcctChar);
        lemma_skip_class(s, 0, CharClass::Ws);
        lemma_skip_class(s, i0, CharClass::AcctChar);
        lemma_skip_class(s, ke, CharClass::Ws);
    }
}

/// Postings, balances and prices come from their own matchers.
pub proof fn lemma_parse_line_cases(s: Seq<char>)
    ensures
        spec_parse_line(s) is Posting ==> parse_posting(s) == Some(spec_parse_line(s)),
        spec_parse_line(s) is Balance ==> parse_balance(s) == Some(spec_parse_line(s)),
        spec_parse_line(s) is Price ==> parse_price(s) == Some(spec_parse_line(s)),
{
    reveal(spec_parse_line);
}

} // verus!
