//! Column alignment of postings and single-line directives.
use vstd::prelude::*;
use crate::options::Options;
use crate::text::{push_char, push_repeat, push_str};

verus! {

/// What `UnicodeWidthStr::width` returns for a string with these characters.
pub uninterp spec fn unicode_str_width(s: Seq<char>) -> usize;

/// Calls `UnicodeWidthStr::width` of `unicode-width` (UAX #11 column widths,
/// with the crate's ligature rules, so a string's width need not be the sum
/// of its parts' widths). The contract names the result and states the facts
/// its source shows plainly: the empty string has width 0, and a string of
/// printable ASCII characters is one column per character.
#[verifier::external_body]
fn unicode_width(s: &str) -> (w: usize)
    ensures
        w == unicode_str_width(s@),
        s@.len() == 0 ==> w == 0,
        (forall|i: int| 0 <= i < s@.len() ==> ' ' <= #[trigger] s@[i] && s@[i] <= '~') ==> w == s@.len(),
{
    unicode_width::UnicodeWidthStr::width(s)
}

/// `n` spaces.
pub open spec fn spaces(n: int) -> Seq<char> {
    Seq::new(n as nat, |_i: int| ' ')
}

/// Display width: Unicode column width when `fixed_cjk_width`, otherwise the
/// number of characters.
pub open spec fn spec_display_width(s: Seq<char>, fixed_cjk_width: bool) -> int {
    if fixed_cjk_width {
        unicode_str_width(s) as int
    } else {
        s.len() as int
    }
}

/// Calculate display width of a string, accounting for CJK double-width characters.
pub fn display_width(s: &str, fixed_cjk_width: bool) -> (r: usize)
    ensures
        r == spec_display_width(s@, fixed_cjk_width),
        (forall|i: int| 0 <= i < s@.len() ==> ' ' <= #[trigger] s@[i] && s@[i] <= '~') ==> r == s@.len(),
{
    if fixed_cjk_width {
        unicode_width(s)
    } else {
        s.unicode_len()
    }
}

/// Spaces needed so that what follows starts at the 1-indexed `target_column`
/// after `content_width` columns, or `min_gap` when that would leave less than
/// `min_gap`.
pub open spec fn spec_padding(target_column: int, content_width: int, min_gap: int) -> int {
    if target_column > content_width + min_gap {
        target_column - 1 - content_width
    } else {
        min_gap
    }
}

/// `spec_padding`, with a content width that may have been capped at `usize::MAX`.
pub fn compute_padding(target_column: usize, content_width: usize, min_gap: usize) -> (r: usize)
    ensures
        r == spec_padding(target_column as int, content_width as int, min_gap as int),
{
    if target_column > content_width.saturating_add(min_gap) {
        target_column - 1 - content_width
    } else {
        min_gap
    }
}

/// A capped sum gives the same padding as the exact one.
proof fn lemma_padding_capped(t: usize, exact: int, g: usize)
    requires
        exact >= 0,
    ensures
        spec_padding(t as int, if exact > usize::MAX { usize::MAX as int } else { exact }, g as int)
            == spec_padding(t as int, exact, g as int),
{
}

/// `a + b`, capped at `usize::MAX`.
fn add_capped(a: usize, b: usize) -> (r: usize)
    ensures
        r == (if a + b > usize::MAX {
            usize::MAX as int
        } else {
            a + b
        }),
{
    a.saturating_add(b)
}

pub open spec fn spec_append_comment(result: Seq<char>, comment: Option<Seq<char>>, options: Options) -> Seq<char> {
    match comment {
        None => result,
        Some(c) => if options.inline_comment_column == 0 {
            result.push(' ') + c
        } else {
            result + spaces(
                spec_padding(
                    options.inline_comment_column as int,
                    spec_display_width(result, options.fixed_cjk_width),
                    1,
                ),
            ) + c
        },
    }
}

pub open spec fn opt_view(o: Option<&str>) -> Option<Seq<char>> {
    match o {
        Some(s) => Some(s@),
        None => None,
    }
}

/// Append an inline comment to `result`, aligning its `;` to `inline_comment_column`
/// (1-indexed) when set. A column of 0 keeps the comment one space after the content.
/// When the content already reaches or passes the target column, a single space is used.
pub fn append_comment(result: String, comment: Option<&str>, options: &Options) -> (r: String)
    ensures
        r@ == spec_append_comment(result@, opt_view(comment), *options),
{
    match comment {
        None => result,
        Some(c) => {
            let mut result = result;
            if options.inline_comment_column == 0 {
                push_char(&mut result, ' ');
                push_str(&mut result, c);
            } else {
                let current = display_width(result.as_str(), options.fixed_cjk_width);
                let padding = compute_padding(options.inline_comment_column, current, 1);
                push_repeat(&mut result, ' ', padding);
                push_str(&mut result, c);
            }
            result
        },
    }
}

pub open spec fn spec_pad_to_width(s: Seq<char>, target_width: int, fixed_cjk_width: bool) -> Seq<char> {
    let current = spec_display_width(s, fixed_cjk_width);
    if current >= target_width {
        s.push(' ')
    } else {
        s + spaces(target_width - current)
    }
}

/// Right-pad a string with spaces to reach `target_width` display columns.
/// If already at or beyond target, append a single space.
pub fn pad_to_width(s: &str, target_width: usize, fixed_cjk_width: bool) -> (r: String)
    ensures
        r@ == spec_pad_to_width(s@, target_width as int, fixed_cjk_width),
{
    let current = display_width(s, fixed_cjk_width);
    let mut r = String::new();
    push_str(&mut r, s);
    if current >= target_width {
        push_char(&mut r, ' ');
    } else {
        push_repeat(&mut r, ' ', target_width - current);
    }
    assert(r@ =~= spec_pad_to_width(s@, target_width as int, fixed_cjk_width));
    r
}

/// The posting text up to and including the currency.
pub open spec fn posting_amount_part(
    indent: Seq<char>,
    account: Seq<char>,
    number: Seq<char>,
    currency: Seq<char>,
    options: Options,
) -> Seq<char> {
    let cjk = options.fixed_cjk_width;
    let min_before = spec_display_width(indent, cjk) + spec_display_width(account, cjk)
        + spec_display_width(number, cjk) + 1;
    indent + account + spaces(spec_padding(options.currency_column as int, min_before, 2)) + number
        + seq![' '] + currency
}

pub open spec fn posting_cost_part(head: Seq<char>, cost: Option<Seq<char>>, options: Options) -> Seq<char> {
    match cost {
        None => head,
        Some(c) => head + spaces(
            spec_padding(
                options.cost_column as int,
                spec_display_width(head, options.fixed_cjk_width) + 1,
                1,
            ),
        ) + seq![' '] + c,
    }
}

pub open spec fn posting_price_part(head: Seq<char>, price: Option<Seq<char>>) -> Seq<char> {
    match price {
        None => head,
        Some(p) => head + seq![' '] + p,
    }
}

pub open spec fn spec_align_posting(
    indent: Seq<char>,
    account: Seq<char>,
    number: Option<Seq<char>>,
    currency: Option<Seq<char>>,
    cost: Option<Seq<char>>,
    price: Option<Seq<char>>,
    comment: Option<Seq<char>>,
    options: Options,
) -> Seq<char> {
    match (number, currency) {
        (Some(n), Some(c)) => spec_append_comment(
            posting_price_part(
                posting_cost_part(posting_amount_part(indent, account, n, c, options), cost, options),
                price,
            ),
            comment,
            options,
        ),
        _ => spec_append_comment(indent + account, comment, options),
    }
}

/// Align a posting line so currency starts at `currency_column`.
pub fn align_posting(
    indent: &str,
    account: &str,
    number: Option<&str>,
    currency: Option<&str>,
    cost: Option<&str>,
    price: Option<&str>,
    comment: Option<&str>,
    options: &Options,
) -> (r: String)
    ensures
        r@ == spec_align_posting(
            indent@,
            account@,
            opt_view(number),
            opt_view(currency),
            opt_view(cost),
            opt_view(price),
            opt_view(comment),
            *options,
        ),
{
    let cjk = options.fixed_cjk_width;
    let mut result = String::new();
    push_str(&mut result, indent);
    push_str(&mut result, account);
    let (number, currency) = match (number, currency) {
        (Some(n), Some(c)) => (n, c),
        _ => {
            assert(result@ =~= indent@ + account@);
            return append_comment(result, comment, options);
        },
    };
    let wi = display_width(indent, cjk);
    let wa = display_width(account, cjk);
    let wn = display_width(number, cjk);
    let min_before = add_capped(add_capped(add_capped(wi, wa), wn), 1);
    proof {
        lemma_padding_capped(
            options.currency_column,
            spec_display_width(indent@, cjk) + spec_display_width(account@, cjk)
                + spec_display_width(number@, cjk) + 1,
            2,
        );
    }
    let padding = compute_padding(options.currency_column, min_before, 2);
    push_repeat(&mut result, ' ', padding);
    push_str(&mut result, number);
    push_char(&mut result, ' ');
    push_str(&mut result, currency);
    assert(result@ =~= posting_amount_part(indent@, account@, number@, currency@, *options));
    let ghost amount = result@;
    if let Some(cost) = cost {
        let current_width = display_width(result.as_str(), cjk);
        let content = add_capped(current_width, 1);
        proof {
            lemma_padding_capped(options.cost_column, spec_display_width(amount, cjk) + 1, 1);
        }
        let cost_padding = compute_padding(options.cost_column, content, 1);
        push_repeat(&mut result, ' ', cost_padding);
        push_char(&mut result, ' ');
        push_str(&mut result, cost);
    }
    assert(result@ =~= posting_cost_part(amount, opt_view(cost), *options));
    let ghost with_cost = result@;
    if let Some(price) = price {
        push_char(&mut result, ' ');
        push_str(&mut result, price);
    }
    assert(result@ =~= posting_price_part(with_cost, opt_view(price)));
    append_comment(result, comment, options)
}

pub open spec fn spec_align_number_line(
    prefix: Seq<char>,
    number: Seq<char>,
    currency: Seq<char>,
    options: Options,
) -> Seq<char> {
    let cjk = options.fixed_cjk_width;
    let min_before = spec_display_width(prefix, cjk) + spec_display_width(number, cjk) + 1;
    prefix + spaces(spec_padding(options.currency_column as int, min_before, 2)) + number + seq![' ']
        + currency
}

/// `prefix`, then `number` and `currency` placed so the currency starts at `currency_column`.
fn align_number_line(prefix: String, number: &str, currency: &str, options: &Options) -> (r: String)
    ensures
        r@ == spec_align_number_line(prefix@, number@, currency@, *options),
{
    let cjk = options.fixed_cjk_width;
    let wp = display_width(prefix.as_str(), cjk);
    let wn = display_width(number, cjk);
    let min_before = add_capped(add_capped(wp, wn), 1);
    proof {
        lemma_padding_capped(
            options.currency_column,
            spec_display_width(prefix@, cjk) + spec_display_width(number@, cjk) + 1,
            2,
        );
    }
    let padding = compute_padding(options.currency_column, min_before, 2);
    let mut result = prefix;
    push_repeat(&mut result, ' ', padding);
    push_str(&mut result, number);
    push_char(&mut result, ' ');
    push_str(&mut result, currency);
    assert(result@ =~= spec_align_number_line(prefix@, number@, currency@, *options));
    result
}

/// `date`, ` `, `keyword`, ` `, `name`.
pub open spec fn directive_prefix(date: Seq<char>, keyword: Seq<char>, name: Seq<char>) -> Seq<char> {
    date + seq![' '] + keyword + seq![' '] + name
}

fn build_prefix(date: &str, keyword: &str, name: &str) -> (r: String)
    ensures
        r@ == directive_prefix(date@, keyword@, name@),
{
    let mut r = String::new();
    push_str(&mut r, date);
    push_char(&mut r, ' ');
    push_str(&mut r, keyword);
    push_char(&mut r, ' ');
    push_str(&mut r, name);
    assert(r@ =~= directive_prefix(date@, keyword@, name@));
    r
}

pub open spec fn spec_align_balance(
    date: Seq<char>,
    account: Seq<char>,
    number: Seq<char>,
    currency: Seq<char>,
    options: Options,
) -> Seq<char> {
    spec_align_number_line(directive_prefix(date, "balance"@, account), number, currency, options)
}

/// Align a balance directive so currency starts at `currency_column`.
pub fn align_balance(
    date: &str,
    account: &str,
    number: &str,
    currency: &str,
    options: &Options,
) -> (r: String)
    ensures
        r@ == spec_align_balance(date@, account@, number@, currency@, *options),
{
    let prefix = build_prefix(date, "balance", account);
    align_number_line(prefix, number, currency, options)
}

pub open spec fn spec_align_open(
    date: Seq<char>,
    account: Seq<char>,
    currencies: Seq<char>,
    options: Options,
) -> Seq<char> {
    let prefix = directive_prefix(date, "open"@, account);
    if currencies.len() == 0 {
        prefix
    } else {
        prefix + spaces(
            spec_padding(
                options.currency_column as int,
                spec_display_width(prefix, options.fixed_cjk_width),
                2,
            ),
        ) + currencies
    }
}

/// Align an open directive so currencies start at `currency_column`.
pub fn align_open(date: &str, account: &str, currencies: &str, options: &Options) -> (r: String)
    ensures
        r@ == spec_align_open(date@, account@, currencies@, *options),
{
    let mut prefix = build_prefix(date, "open", account);
    if currencies.is_empty() {
        return prefix;
    }
    let wp = display_width(prefix.as_str(), options.fixed_cjk_width);
    let padding = compute_padding(options.currency_column, wp, 2);
    let ghost p = prefix@;
    push_repeat(&mut prefix, ' ', padding);
    push_str(&mut prefix, currencies);
    assert(prefix@ =~= spec_align_open(date@, account@, currencies@, *options));
    prefix
}

pub open spec fn spec_align_close(
    date: Seq<char>,
    account: Seq<char>,
    comment: Option<Seq<char>>,
    options: Options,
) -> Seq<char> {
    spec_append_comment(directive_prefix(date, "close"@, account), comment, options)
}

/// Assemble a close directive, aligning any inline comment.
pub fn align_close(date: &str, account: &str, comment: Option<&str>, options: &Options) -> (r: String)
    ensures
        r@ == spec_align_close(date@, account@, opt_view(comment), *options),
{
    append_comment(build_prefix(date, "close", account), comment, options)
}

pub open spec fn spec_align_price(
    date: Seq<char>,
    commodity: Seq<char>,
    number: Seq<char>,
    currency: Seq<char>,
    options: Options,
) -> Seq<char> {
    spec_align_number_line(directive_prefix(date, "price"@, commodity), number, currency, options)
}

/// Align a price directive so currency starts at `currency_column`.
pub fn align_price(
    date: &str,
    commodity: &str,
    number: &str,
    currency: &str,
    options: &Options,
) -> (r: String)
    ensures
        r@ == spec_align_price(date@, commodity@, number@, currency@, *options),
{
    let prefix = build_prefix(date, "price", commodity);
    align_number_line(prefix, number, currency, options)
}


/// The text that comes before the currency of an aligned amount line.
pub open spec fn text_before_currency(
    prefix: Seq<char>,
    number: Seq<char>,
    pad: int,
) -> Seq<char> {
    prefix + spaces(pad) + number + seq![' ']
}

/// Widths add up over the pieces of a line: always true when counting
/// characters, an assumption about the text when counting Unicode columns.
pub open spec fn widths_add_up(prefix: Seq<char>, number: Seq<char>, pad: int, cjk: bool) -> bool {
    spec_display_width(text_before_currency(prefix, number, pad), cjk) == spec_display_width(
        prefix,
        cjk,
    ) + pad + spec_display_width(number, cjk) + 1
}

proof fn lemma_char_count_adds_up(prefix: Seq<char>, number: Seq<char>, pad: int)
    requires
        pad >= 0,
    ensures
        widths_add_up(prefix, number, pad, false),
{
    assert(text_before_currency(prefix, number, pad).len() == prefix.len() + pad + number.len() + 1);
}

/// Currency alignment: when the prefix and the number leave room, the currency
/// of an aligned line (posting, `balance`, `price`) starts at `currency_column`;
/// otherwise exactly two spaces separate the prefix from the number. Counting
/// characters this always holds; counting Unicode columns it holds whenever the
/// widths of the pieces add up.
pub proof fn law_currency_starts_at_column(prefix: Seq<char>, number: Seq<char>, currency: Seq<char>, options: Options)
    requires
        options.currency_column >= 1,
        options.fixed_cjk_width ==> widths_add_up(
            prefix,
            number,
            spec_padding(
                options.currency_column as int,
                spec_display_width(prefix, true) + spec_display_width(number, true) + 1,
                2,
            ),
            true,
        ),
    ensures
        ({
            let cjk = options.fixed_cjk_width;
            let min_before = spec_display_width(prefix, cjk) + spec_display_width(number, cjk) + 1;
            let pad = spec_padding(options.currency_column as int, min_before, 2);
            &&& spec_align_number_line(prefix, number, currency, options) == text_before_currency(
                prefix,
                number,
                pad,
            ) + currency
            &&& options.currency_column > min_before + 2 ==> spec_display_width(
                text_before_currency(prefix, number, pad),
                cjk,
            ) == options.currency_column - 1
            &&& options.currency_column <= min_before + 2 ==> pad == 2
        }),
{
    let cjk = options.fixed_cjk_width;
    let min_before = spec_display_width(prefix, cjk) + spec_display_width(number, cjk) + 1;
    let pad = spec_padding(options.currency_column as int, min_before, 2);
    if !cjk {
        lemma_char_count_adds_up(prefix, number, pad);
    }
    assert(spec_align_number_line(prefix, number, currency, options) =~= text_before_currency(
        prefix,
        number,
        pad,
    ) + currency);
}

/// Comment alignment: with `inline_comment_column` set and room left, the `;`
/// of an appended comment starts at that column (counting characters, or
/// Unicode columns where the widths of content and padding add up).
pub proof fn law_comment_starts_at_column(result: Seq<char>, comment: Seq<char>, options: Options)
    requires
        options.inline_comment_column > spec_display_width(result, options.fixed_cjk_width) + 1,
        options.fixed_cjk_width ==> spec_display_width(
            result + spaces(
                options.inline_comment_column - 1 - spec_display_width(result, true),
            ),
            true,
        ) == options.inline_comment_column - 1,
    ensures
        ({
            let pad = options.inline_comment_column - 1 - spec_display_width(
                result,
                options.fixed_cjk_width,
            );
            &&& spec_append_comment(result, Some(comment), options) == result + spaces(pad)
                + comment
            &&& spec_display_width(result + spaces(pad), options.fixed_cjk_width)
                == options.inline_comment_column - 1
        }),
{
    let pad = options.inline_comment_column - 1 - spec_display_width(result, options.fixed_cjk_width);
    assert((result + spaces(pad)).len() == result.len() + pad);
}

/// Padding: a string narrower than the target is padded to exactly the target
/// width (counting characters, or Unicode columns where widths add up); a
/// string at least as wide gets one space.
pub proof fn law_pad_to_width(s: Seq<char>, target: int, cjk: bool)
    requires
        cjk ==> spec_display_width(s + spaces(target - spec_display_width(s, true)), true)
            == spec_display_width(s, true) + (target - spec_display_width(s, true)),
    ensures
        spec_display_width(s, cjk) < target ==> spec_display_width(spec_pad_to_width(s, target, cjk), cjk)
            == target,
        spec_display_width(s, cjk) >= target ==> spec_pad_to_width(s, target, cjk) == s.push(' '),
{
    if !cjk && s.len() < target {
        assert((s + spaces(target - s.len())).len() == target);
    }
}

} // verus!
