//! Formatting options and the names by which users spell them.
use vstd::prelude::*;
use std::str::FromStr;
use crate::text::push_str;

verus! {

/// ASCII lower-casing of one character (`to_ascii_lowercase`).
pub open spec fn ascii_lower(c: char) -> char {
    if 'A' <= c && c <= 'Z' {
        ((c as u32) + 32) as char
    } else {
        c
    }
}

pub open spec fn lower_seq(s: Seq<char>) -> Seq<char> {
    Seq::new(s.len(), |i: int| ascii_lower(s[i]))
}

pub fn ascii_lower_char(c: char) -> (r: char)
    ensures
        r == ascii_lower(c),
{
    if 'A' <= c && c <= 'Z' {
        let u = c as u32;
        assert(u == c as u32);
        let r = char_from_ascii_code((u + 32) as u8);
        r
    } else {
        c
    }
}

/// The character with the given ASCII code.
fn char_from_ascii_code(b: u8) -> (r: char)
    requires
        b < 128,
    ensures
        r as u32 == b as u32,
{
    b as char
}

/// The ASCII-lower-cased characters of `s`.
pub fn lower_chars(s: &str) -> (r: Vec<char>)
    ensures
        r@ == lower_seq(s@),
{
    let v = crate::text::chars_of(s);
    let mut r: Vec<char> = Vec::new();
    let mut k: usize = 0;
    while k < v.len()
        invariant
            k <= v@.len(),
            v@ == s@,
            r@ == Seq::new(k as nat, |i: int| ascii_lower(v@[i])),
        decreases v@.len() - k,
    {
        let c = ascii_lower_char(v[k]);
        r.push(c);
        k = k + 1;
        assert(r@ =~= Seq::new(k as nat, |i: int| ascii_lower(v@[i])));
    }
    assert(r@ =~= lower_seq(s@));
    r
}

/// Whether the characters `v` spell exactly the text `lit`.
pub fn chars_eq_str(v: &[char], lit: &str) -> (r: bool)
    ensures
        r == (v@ == lit@),
{
    let n = lit.unicode_len();
    if v.len() != n {
        return false;
    }
    let mut k: usize = 0;
    while k < n
        invariant
            k <= n,
            n == lit@.len(),
            n == v@.len(),
            forall|i: int| 0 <= i < k ==> v@[i] == lit@[i],
        decreases n - k,
    {
        if v[k] != lit.get_char(k) {
            return false;
        }
        k = k + 1;
    }
    assert(v@ =~= lit@);
    true
}

/// What `format!("{:?}", v)` writes for a string with the characters `v`
/// (quoted, with std's escapes).
pub uninterp spec fn debug_text(v: Seq<char>) -> Seq<char>;

/// The message of a rejected option value: `invalid <what>: <value:?>, expected <expected>`.
pub open spec fn invalid_value_text(what: Seq<char>, value: Seq<char>, expected: Seq<char>) -> Seq<
    char,
> {
    "invalid "@ + what + ": "@ + debug_text(value) + ", expected "@ + expected
}

/// Calls `format!("{:?}", ..)` on the string of the characters `value`: the
/// `Debug` form (quoting and escaping) is std's and is only named.
#[verifier::external_body]
fn debug_string(value: &[char]) -> (r: String)
    ensures
        r@ == debug_text(value@),
{
    let value: String = value.iter().collect();
    format!("{value:?}")
}

/// The message of a rejected option value.
pub(crate) fn invalid_value_message(what: &str, value: &[char], expected: &str) -> (r: String)
    ensures
        r@ == invalid_value_text(what@, value@, expected@),
{
    let mut r = String::new();
    push_str(&mut r, "invalid ");
    push_str(&mut r, what);
    push_str(&mut r, ": ");
    let d = debug_string(value);
    push_str(&mut r, d.as_str());
    push_str(&mut r, ", expected ");
    push_str(&mut r, expected);
    r
}

/// Directive types that can be excluded from sorting.
#[derive(Debug, Clone, Copy, PartialEq, Eq, Hash, Structural)]
pub enum SortableDirective {
    Transaction,
    Balance,
    Open,
    Close,
    Price,
    Pad,
    Note,
    Document,
    Event,
    Custom,
    Query,
    Commodity,
}

pub open spec fn sortable_from_name(s: Seq<char>) -> Option<SortableDirective> {
    let l = lower_seq(s);
    if l == "transaction"@ || l == "txn"@ {
        Some(SortableDirective::Transaction)
    } else if l == "balance"@ {
        Some(SortableDirective::Balance)
    } else if l == "open"@ {
        Some(SortableDirective::Open)
    } else if l == "close"@ {
        Some(SortableDirective::Close)
    } else if l == "price"@ {
        Some(SortableDirective::Price)
    } else if l == "pad"@ {
        Some(SortableDirective::Pad)
    } else if l == "note"@ {
        Some(SortableDirective::Note)
    } else if l == "document"@ {
        Some(SortableDirective::Document)
    } else if l == "event"@ {
        Some(SortableDirective::Event)
    } else if l == "custom"@ {
        Some(SortableDirective::Custom)
    } else if l == "query"@ {
        Some(SortableDirective::Query)
    } else if l == "commodity"@ {
        Some(SortableDirective::Commodity)
    } else {
        None
    }
}

impl SortableDirective {
    pub open spec fn spec_name(self) -> Seq<char> {
        match self {
            SortableDirective::Transaction => "transaction"@,
            SortableDirective::Balance => "balance"@,
            SortableDirective::Open => "open"@,
            SortableDirective::Close => "close"@,
            SortableDirective::Price => "price"@,
            SortableDirective::Pad => "pad"@,
            SortableDirective::Note => "note"@,
            SortableDirective::Document => "document"@,
            SortableDirective::Event => "event"@,
            SortableDirective::Custom => "custom"@,
            SortableDirective::Query => "query"@,
            SortableDirective::Commodity => "commodity"@,
        }
    }

    /// The lower-case name of the directive type.
    pub fn name(&self) -> (r: &'static str)
        ensures
            r@ == self.spec_name(),
    {
        match self {
            SortableDirective::Transaction => "transaction",
            SortableDirective::Balance => "balance",
            SortableDirective::Open => "open",
            SortableDirective::Close => "close",
            SortableDirective::Price => "price",
            SortableDirective::Pad => "pad",
            SortableDirective::Note => "note",
            SortableDirective::Document => "document",
            SortableDirective::Event => "event",
            SortableDirective::Custom => "custom",
            SortableDirective::Query => "query",
            SortableDirective::Commodity => "commodity",
        }
    }

    /// Parses a directive type name, ignoring ASCII case; `txn` means `transaction`.
    pub fn parse_name(s: &str) -> (r: Result<SortableDirective, String>)
        ensures
            match r {
                Ok(d) => sortable_from_name(s@) == Some(d),
                Err(e) => sortable_from_name(s@) is None && e@ == invalid_value_text(
                    "directive"@,
                    lower_seq(s@),
                    "one of: transaction, balance, open, close, price, pad, note, document, event, custom, query, commodity"@,
                ),
            },
    {
        let l = lower_chars(s);
        if chars_eq_str(&l, "transaction") || chars_eq_str(&l, "txn") {
            Ok(SortableDirective::Transaction)
        } else if chars_eq_str(&l, "balance") {
            Ok(SortableDirective::Balance)
        } else if chars_eq_str(&l, "open") {
            Ok(SortableDirective::Open)
        } else if chars_eq_str(&l, "close") {
            Ok(SortableDirective::Close)
        } else if chars_eq_str(&l, "price") {
            Ok(SortableDirective::Price)
        } else if chars_eq_str(&l, "pad") {
            Ok(SortableDirective::Pad)
        } else if chars_eq_str(&l, "note") {
            Ok(SortableDirective::Note)
        } else if chars_eq_str(&l, "document") {
            Ok(SortableDirective::Document)
        } else if chars_eq_str(&l, "event") {
            Ok(SortableDirective::Event)
        } else if chars_eq_str(&l, "custom") {
            Ok(SortableDirective::Custom)
        } else if chars_eq_str(&l, "query") {
            Ok(SortableDirective::Query)
        } else if chars_eq_str(&l, "commodity") {
            Ok(SortableDirective::Commodity)
        } else {
            Err(
                invalid_value_message(
                    "directive",
                    &l,
                    "one of: transaction, balance, open, close, price, pad, note, document, event, custom, query, commodity",
                ),
            )
        }
    }
}

impl FromStr for SortableDirective {
    type Err = String;

    fn from_str(s: &str) -> (r: Result<Self, Self::Err>)
        ensures
            match r {
                Ok(d) => sortable_from_name(s@) == Some(d),
                Err(e) => sortable_from_name(s@) is None && e@ == invalid_value_text(
                    "directive"@,
                    lower_seq(s@),
                    "one of: transaction, balance, open, close, price, pad, note, document, event, custom, query, commodity"@,
                ),
            },
    {
        SortableDirective::parse_name(s)
    }
}

/// How thousands separators in numbers are rewritten.
#[derive(Debug, Clone, Copy, PartialEq, Eq, Structural)]
pub enum ThousandsSeparator {
    Add,
    Remove,
    Keep,
}

pub open spec fn thousands_from_name(s: Seq<char>) -> Option<ThousandsSeparator> {
    let l = lower_seq(s);
    if l == "add"@ {
        Some(ThousandsSeparator::Add)
    } else if l == "remove"@ {
        Some(ThousandsSeparator::Remove)
    } else if l == "keep"@ {
        Some(ThousandsSeparator::Keep)
    } else {
        None
    }
}

impl ThousandsSeparator {
    /// Parses `add`, `remove` or `keep`, ignoring ASCII case.
    pub fn parse_name(s: &str) -> (r: Result<ThousandsSeparator, String>)
        ensures
            match r {
                Ok(t) => thousands_from_name(s@) == Some(t),
                Err(e) => thousands_from_name(s@) is None && e@ == invalid_value_text(
                    "thousands"@,
                    lower_seq(s@),
                    "\"add\", \"remove\", or \"keep\""@,
                ),
            },
    {
        let l = lower_chars(s);
        if chars_eq_str(&l, "add") {
            Ok(ThousandsSeparator::Add)
        } else if chars_eq_str(&l, "remove") {
            Ok(ThousandsSeparator::Remove)
        } else if chars_eq_str(&l, "keep") {
            Ok(ThousandsSeparator::Keep)
        } else {
            Err(invalid_value_message("thousands", &l, "\"add\", \"remove\", or \"keep\""))
        }
    }

    /// The lenient reading used for configuration files: anything that is
    /// not `add` or `remove` (ignoring ASCII case) means `keep`.
    pub fn from_config_name(s: &str) -> (r: ThousandsSeparator)
        ensures
            r == (if lower_seq(s@) == "add"@ {
                ThousandsSeparator::Add
            } else if lower_seq(s@) == "remove"@ {
                ThousandsSeparator::Remove
            } else {
                ThousandsSeparator::Keep
            }),
    {
        let l = lower_chars(s);
        if chars_eq_str(&l, "add") {
            ThousandsSeparator::Add
        } else if chars_eq_str(&l, "remove") {
            ThousandsSeparator::Remove
        } else {
            ThousandsSeparator::Keep
        }
    }

    pub open spec fn spec_name(self) -> Seq<char> {
        match self {
            ThousandsSeparator::Add => "add"@,
            ThousandsSeparator::Remove => "remove"@,
            ThousandsSeparator::Keep => "keep"@,
        }
    }

    pub fn name(&self) -> (r: &'static str)
        ensures
            r@ == self.spec_name(),
    {
        match self {
            ThousandsSeparator::Add => "add",
            ThousandsSeparator::Remove => "remove",
            ThousandsSeparator::Keep => "keep",
        }
    }
}

/// Whether and in which direction entries are sorted by date.
#[derive(Debug, Clone, Copy, PartialEq, Eq, Structural)]
pub enum SortOrder {
    Off,
    Asc,
    Desc,
}

pub open spec fn sort_order_from_name(s: Seq<char>) -> Option<SortOrder> {
    let l = lower_seq(s);
    if l == "asc"@ || l == "true"@ {
        Some(SortOrder::Asc)
    } else if l == "desc"@ {
        Some(SortOrder::Desc)
    } else if l == "off"@ || l == "false"@ {
        Some(SortOrder::Off)
    } else {
        None
    }
}

impl SortOrder {
    /// Parses `asc`/`true`, `desc`, `off`/`false`, ignoring ASCII case.
    pub fn parse_name(s: &str) -> (r: Result<SortOrder, String>)
        ensures
            match r {
                Ok(o) => sort_order_from_name(s@) == Some(o),
                Err(e) => sort_order_from_name(s@) is None && e@ == invalid_value_text(
                    "sort"@,
                    lower_seq(s@),
                    "\"asc\", \"desc\", or \"off\""@,
                ),
            },
    {
        let l = lower_chars(s);
        if chars_eq_str(&l, "asc") || chars_eq_str(&l, "true") {
            Ok(SortOrder::Asc)
        } else if chars_eq_str(&l, "desc") {
            Ok(SortOrder::Desc)
        } else if chars_eq_str(&l, "off") || chars_eq_str(&l, "false") {
            Ok(SortOrder::Off)
        } else {
            Err(invalid_value_message("sort", &l, "\"asc\", \"desc\", or \"off\""))
        }
    }

    /// The order a boolean switch stands for: `true` sorts ascending.
    pub fn from_bool(b: bool) -> (r: SortOrder)
        ensures
            r == (if b {
                SortOrder::Asc
            } else {
                SortOrder::Off
            }),
    {
        if b {
            SortOrder::Asc
        } else {
            SortOrder::Off
        }
    }

    pub open spec fn spec_name(self) -> Seq<char> {
        match self {
            SortOrder::Off => "off"@,
            SortOrder::Asc => "asc"@,
            SortOrder::Desc => "desc"@,
        }
    }

    pub fn name(&self) -> (r: &'static str)
        ensures
            r@ == self.spec_name(),
    {
        match self {
            SortOrder::Off => "off",
            SortOrder::Asc => "asc",
            SortOrder::Desc => "desc",
        }
    }
}

impl FromStr for SortOrder {
    type Err = String;

    fn from_str(s: &str) -> (r: Result<Self, Self::Err>)
        ensures
            match r {
                Ok(o) => sort_order_from_name(s@) == Some(o),
                Err(e) => sort_order_from_name(s@) is None && e@ == invalid_value_text(
                    "sort"@,
                    lower_seq(s@),
                    "\"asc\", \"desc\", or \"off\""@,
                ),
            },
    {
        SortOrder::parse_name(s)
    }
}

/// Where entries without a `time` go among the entries of their day.
#[derive(Debug, Clone, Copy, PartialEq, Eq, Structural)]
pub enum TimelessPosition {
    Begin,
    End,
    Keep,
}

pub open spec fn timeless_from_name(s: Seq<char>) -> Option<TimelessPosition> {
    let l = lower_seq(s);
    if l == "begin"@ {
        Some(TimelessPosition::Begin)
    } else if l == "end"@ {
        Some(TimelessPosition::End)
    } else if l == "keep"@ {
        Some(TimelessPosition::Keep)
    } else {
        None
    }
}

impl TimelessPosition {
    /// Parses `begin`, `end` or `keep`, ignoring ASCII case.
    pub fn parse_name(s: &str) -> (r: Result<TimelessPosition, String>)
        ensures
            match r {
                Ok(p) => timeless_from_name(s@) == Some(p),
                Err(e) => timeless_from_name(s@) is None && e@ == invalid_value_text(
                    "sort_timeless"@,
                    lower_seq(s@),
                    "\"begin\", \"end\", or \"keep\""@,
                ),
            },
    {
        let l = lower_chars(s);
        if chars_eq_str(&l, "begin") {
            Ok(TimelessPosition::Begin)
        } else if chars_eq_str(&l, "end") {
            Ok(TimelessPosition::End)
        } else if chars_eq_str(&l, "keep") {
            Ok(TimelessPosition::Keep)
        } else {
            Err(invalid_value_message("sort_timeless", &l, "\"begin\", \"end\", or \"keep\""))
        }
    }

    pub open spec fn spec_name(self) -> Seq<char> {
        match self {
            TimelessPosition::Begin => "begin"@,
            TimelessPosition::End => "end"@,
            TimelessPosition::Keep => "keep"@,
        }
    }

    pub fn name(&self) -> (r: &'static str)
        ensures
            r@ == self.spec_name(),
    {
        match self {
            TimelessPosition::Begin => "begin",
            TimelessPosition::End => "end",
            TimelessPosition::Keep => "keep",
        }
    }
}

impl FromStr for TimelessPosition {
    type Err = String;

    fn from_str(s: &str) -> (r: Result<Self, Self::Err>)
        ensures
            match r {
                Ok(p) => timeless_from_name(s@) == Some(p),
                Err(e) => timeless_from_name(s@) is None && e@ == invalid_value_text(
                    "sort_timeless"@,
                    lower_seq(s@),
                    "\"begin\", \"end\", or \"keep\""@,
                ),
            },
    {
        TimelessPosition::parse_name(s)
    }
}

/// How the fraction of a number is rewritten.
#[derive(Debug, Clone, Copy, PartialEq, Eq, Structural)]
pub enum DecimalMode {
    Keep,
    Minimal,
    Pad,
}

pub open spec fn decimal_mode_from_name(s: Seq<char>) -> Option<DecimalMode> {
    let l = lower_seq(s);
    if l == "keep"@ {
        Some(DecimalMode::Keep)
    } else if l == "minimal"@ {
        Some(DecimalMode::Minimal)
    } else if l == "pad"@ {
        Some(DecimalMode::Pad)
    } else {
        None
    }
}

impl DecimalMode {
    /// Parses `keep`, `minimal` or `pad`, ignoring ASCII case.
    pub fn parse_name(s: &str) -> (r: Result<DecimalMode, String>)
        ensures
            match r {
                Ok(m) => decimal_mode_from_name(s@) == Some(m),
                Err(e) => decimal_mode_from_name(s@) is None && e@ == invalid_value_text(
                    "decimal_mode"@,
                    lower_seq(s@),
                    "\"keep\", \"minimal\", or \"pad\""@,
                ),
            },
    {
        let l = lower_chars(s);
        if chars_eq_str(&l, "keep") {
            Ok(DecimalMode::Keep)
        } else if chars_eq_str(&l, "minimal") {
            Ok(DecimalMode::Minimal)
        } else if chars_eq_str(&l, "pad") {
            Ok(DecimalMode::Pad)
        } else {
            Err(invalid_value_message("decimal_mode", &l, "\"keep\", \"minimal\", or \"pad\""))
        }
    }

    pub open spec fn spec_name(self) -> Seq<char> {
        match self {
            DecimalMode::Keep => "keep"@,
            DecimalMode::Minimal => "minimal"@,
            DecimalMode::Pad => "pad"@,
        }
    }

    /// The name that `parse_name` reads back.
    pub fn name(&self) -> (r: &'static str)
        ensures
            r@ == self.spec_name(),
    {
        match self {
            DecimalMode::Keep => "keep",
            DecimalMode::Minimal => "minimal",
            DecimalMode::Pad => "pad",
        }
    }
}

impl FromStr for DecimalMode {
    type Err = String;

    fn from_str(s: &str) -> (r: Result<Self, Self::Err>)
        ensures
            match r {
                Ok(m) => decimal_mode_from_name(s@) == Some(m),
                Err(e) => decimal_mode_from_name(s@) is None && e@ == invalid_value_text(
                    "decimal_mode"@,
                    lower_seq(s@),
                    "\"keep\", \"minimal\", or \"pad\""@,
                ),
            },
    {
        DecimalMode::parse_name(s)
    }
}

/// Which numbers thousands-separator and decimal normalization reach: posting
/// and `balance` amounts plus costs, price annotations and `price` directives
/// (`All`), or posting and `balance` amounts only (`Amounts`).
#[derive(Debug, Clone, Copy, PartialEq, Eq, Structural)]
pub enum AmountScope {
    All,
    Amounts,
}

pub open spec fn amount_scope_from_name(s: Seq<char>) -> Option<AmountScope> {
    let l = lower_seq(s);
    if l == "all"@ {
        Some(AmountScope::All)
    } else if l == "amounts"@ {
        Some(AmountScope::Amounts)
    } else {
        None
    }
}

impl AmountScope {
    /// Parses `all` or `amounts`, ignoring ASCII case.
    pub fn parse_name(s: &str) -> (r: Result<AmountScope, String>)
        ensures
            match r {
                Ok(a) => amount_scope_from_name(s@) == Some(a),
                Err(e) => amount_scope_from_name(s@) is None && e@ == invalid_value_text(
                    "amount_scope"@,
                    lower_seq(s@),
                    "\"all\" or \"amounts\""@,
                ),
            },
    {
        let l = lower_chars(s);
        if chars_eq_str(&l, "all") {
            Ok(AmountScope::All)
        } else if chars_eq_str(&l, "amounts") {
            Ok(AmountScope::Amounts)
        } else {
            Err(invalid_value_message("amount_scope", &l, "\"all\" or \"amounts\""))
        }
    }

    pub open spec fn spec_name(self) -> Seq<char> {
        match self {
            AmountScope::All => "all"@,
            AmountScope::Amounts => "amounts"@,
        }
    }

    /// The name that `parse_name` reads back.
    pub fn name(&self) -> (r: &'static str)
        ensures
            r@ == self.spec_name(),
    {
        match self {
            AmountScope::All => "all",
            AmountScope::Amounts => "amounts",
        }
    }
}

impl FromStr for AmountScope {
    type Err = String;

    fn from_str(s: &str) -> (r: Result<Self, Self::Err>)
        ensures
            match r {
                Ok(a) => amount_scope_from_name(s@) == Some(a),
                Err(e) => amount_scope_from_name(s@) is None && e@ == invalid_value_text(
                    "amount_scope"@,
                    lower_seq(s@),
                    "\"all\" or \"amounts\""@,
                ),
            },
    {
        AmountScope::parse_name(s)
    }
}

/// Everything that steers the formatter.
#[derive(Debug, Clone, PartialEq, Eq)]
pub struct Options {
    pub indent: usize,
    pub currency_column: usize,
    pub cost_column: usize,
    /// Column to align inline comments (`;`) to. 0 disables alignment.
    /// Applies to postings, `balance`, `open`, `close`, and `price`. Transaction
    /// headers and date directives keep their comment inline (it lives in their
    /// free-form payload, which may contain a quoted `;`).
    pub inline_comment_column: usize,
    pub thousands_separator: ThousandsSeparator,
    pub decimal_mode: DecimalMode,
    /// Fraction width used by `DecimalMode::Pad`.
    pub decimal_places: usize,
    /// Which numbers thousands-separator and decimal normalization reach.
    pub amount_scope: AmountScope,
    pub spaces_in_braces: bool,
    pub fixed_cjk_width: bool,
    pub sort: SortOrder,
    pub sort_timeless: TimelessPosition,
    pub sort_exclude: Vec<SortableDirective>,
}

impl Options {
    /// `indent` spaces.
    pub fn indent_str(&self) -> (r: String)
        ensures
            r@ == Seq::new(self.indent as nat, |_i: int| ' '),
    {
        let mut r = String::new();
        crate::text::push_repeat(&mut r, ' ', self.indent);
        assert(r@ =~= Seq::new(self.indent as nat, |_i: int| ' '));
        r
    }

    pub open spec fn is_default(&self) -> bool {
        &&& self.indent == 2
        &&& self.currency_column == 70
        &&& self.cost_column == 75
        &&& self.inline_comment_column == 0
        &&& self.thousands_separator == ThousandsSeparator::Keep
        &&& self.decimal_mode == DecimalMode::Keep
        &&& self.decimal_places == 2
        &&& self.amount_scope == AmountScope::All
        &&& !self.spaces_in_braces
        &&& self.fixed_cjk_width
        &&& self.sort == SortOrder::Off
        &&& self.sort_timeless == TimelessPosition::Keep
        &&& self.sort_exclude@.len() == 0
    }

    /// Whether `d` is among the directive types excluded from sorting.
    pub fn excludes(&self, d: SortableDirective) -> (r: bool)
        ensures
            r == self.sort_exclude@.contains(d),
    {
        let mut k: usize = 0;
        while k < self.sort_exclude.len()
            invariant
                k <= self.sort_exclude@.len(),
                forall|i: int| 0 <= i < k ==> self.sort_exclude@[i] != d,
            decreases self.sort_exclude@.len() - k,
        {
            if self.sort_exclude[k] == d {
                return true;
            }
            k = k + 1;
        }
        false
    }
}

impl Default for Options {
    fn default() -> (r: Self)
        ensures
            r.is_default(),
    {
        Options {
            indent: 2,
            currency_column: 70,
            cost_column: 75,
            inline_comment_column: 0,
            thousands_separator: ThousandsSeparator::Keep,
            decimal_mode: DecimalMode::Keep,
            decimal_places: 2,
            amount_scope: AmountScope::All,
            spaces_in_braces: false,
            fixed_cjk_width: true,
            sort: SortOrder::Off,
            sort_timeless: TimelessPosition::Keep,
            sort_exclude: Vec::new(),
        }
    }
}

// ---------------------------------------------------------------------------
// Laws
// ---------------------------------------------------------------------------

proof fn lemma_lower_fixed(s: Seq<char>)
    requires
        forall|i: int| 0 <= i < s.len() ==> !('A' <= #[trigger] s[i] && s[i] <= 'Z'),
    ensures
        lower_seq(s) == s,
{
    assert(lower_seq(s) =~= s);
}

/// Every option value reads back from the name it is written under.
pub proof fn law_names_round_trip(
    d: SortableDirective,
    t: ThousandsSeparator,
    o: SortOrder,
    p: TimelessPosition,
    m: DecimalMode,
    a: AmountScope,
)
    ensures
        sortable_from_name(d.spec_name()) == Some(d),
        thousands_from_name(t.spec_name()) == Some(t),
        sort_order_from_name(o.spec_name()) == Some(o),
        timeless_from_name(p.spec_name()) == Some(p),
        decimal_mode_from_name(m.spec_name()) == Some(m),
        amount_scope_from_name(a.spec_name()) == Some(a),
{
    reveal_strlit("transaction");
    reveal_strlit("txn");
    reveal_strlit("balance");
    reveal_strlit("open");
    reveal_strlit("close");
    reveal_strlit("price");
    reveal_strlit("pad");
    reveal_strlit("note");
    reveal_strlit("document");
    reveal_strlit("event");
    reveal_strlit("custom");
    reveal_strlit("query");
    reveal_strlit("commodity");
    reveal_strlit("add");
    reveal_strlit("remove");
    reveal_strlit("keep");
    reveal_strlit("asc");
    reveal_strlit("true");
    reveal_strlit("desc");
    reveal_strlit("off");
    reveal_strlit("false");
    reveal_strlit("begin");
    reveal_strlit("end");
    reveal_strlit("minimal");
    reveal_strlit("all");
    reveal_strlit("amounts");
    assert("pad"@[0] != "txn"@[0]);
    assert("note"@[0] != "open"@[0]);
    assert("price"@[0] != "close"@[0]);
    assert("event"@[0] != "close"@[0] && "event"@[0] != "price"@[0]);
    assert("query"@[0] != "close"@[0] && "query"@[0] != "price"@[0] && "query"@[0] != "event"@[0]);
    assert("desc"@[0] != "true"@[0]);
    assert("off"@[0] != "asc"@[0]);
    lemma_lower_fixed(d.spec_name());
    lemma_lower_fixed(t.spec_name());
    lemma_lower_fixed(o.spec_name());
    lemma_lower_fixed(p.spec_name());
    lemma_lower_fixed(m.spec_name());
    lemma_lower_fixed(a.spec_name());
}


} // verus!
