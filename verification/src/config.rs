//! Layered configuration: built-in defaults, a global file, a project file and
//! the command line, each layer overriding the fields it sets.
use vstd::prelude::*;
use crate::options::{
    lower_seq, DecimalMode, Options, SortOrder, SortableDirective, ThousandsSeparator,
    TimelessPosition, AmountScope,
};

verus! {

/// The settings of one configuration layer; `None` leaves a field to the
/// layers below.
#[derive(Debug, Clone)]
pub struct FileConfig {
    pub indent: Option<usize>,
    pub currency_column: Option<usize>,
    pub cost_column: Option<usize>,
    pub thousands: Option<String>,
    pub spaces_in_braces: Option<bool>,
    pub fixed_cjk_width: Option<bool>,
    pub sort: Option<SortOrder>,
    pub sort_timeless: Option<TimelessPosition>,
    pub sort_exclude: Option<Vec<SortableDirective>>,
}

/// The settings of a layer as values.
pub struct ConfigModel {
    pub indent: Option<usize>,
    pub currency_column: Option<usize>,
    pub cost_column: Option<usize>,
    pub thousands: Option<Seq<char>>,
    pub spaces_in_braces: Option<bool>,
    pub fixed_cjk_width: Option<bool>,
    pub sort: Option<SortOrder>,
    pub sort_timeless: Option<TimelessPosition>,
    pub sort_exclude: Option<Seq<SortableDirective>>,
}

impl View for FileConfig {
    type V = ConfigModel;

    open spec fn view(&self) -> ConfigModel {
        ConfigModel {
            indent: self.indent,
            currency_column: self.currency_column,
            cost_column: self.cost_column,
            thousands: match self.thousands {
                Some(s) => Some(s@),
                None => None,
            },
            spaces_in_braces: self.spaces_in_braces,
            fixed_cjk_width: self.fixed_cjk_width,
            sort: self.sort,
            sort_timeless: self.sort_timeless,
            sort_exclude: match self.sort_exclude {
                Some(v) => Some(v@),
                None => None,
            },
        }
    }
}

/// `over` when set, else `under`.
pub open spec fn pick<T>(over: Option<T>, under: Option<T>) -> Option<T> {
    match over {
        Some(x) => Some(x),
        None => under,
    }
}

/// Layer `over` on top of `under`: each field of `over` that is set wins.
pub open spec fn spec_merge(under: ConfigModel, over: ConfigModel) -> ConfigModel {
    ConfigModel {
        indent: pick(over.indent, under.indent),
        currency_column: pick(over.currency_column, under.currency_column),
        cost_column: pick(over.cost_column, under.cost_column),
        thousands: pick(over.thousands, under.thousands),
        spaces_in_braces: pick(over.spaces_in_braces, under.spaces_in_braces),
        fixed_cjk_width: pick(over.fixed_cjk_width, under.fixed_cjk_width),
        sort: pick(over.sort, under.sort),
        sort_timeless: pick(over.sort_timeless, under.sort_timeless),
        sort_exclude: pick(over.sort_exclude, under.sort_exclude),
    }
}

/// A layer that sets nothing.
pub open spec fn empty_model() -> ConfigModel {
    ConfigModel {
        indent: None,
        currency_column: None,
        cost_column: None,
        thousands: None,
        spaces_in_braces: None,
        fixed_cjk_width: None,
        sort: None,
        sort_timeless: None,
        sort_exclude: None,
    }
}

/// `o`'s value, or `d` when unset.
pub open spec fn or_default<T>(o: Option<T>, d: T) -> T {
    match o {
        Some(x) => x,
        None => d,
    }
}

/// The thousands mode a configuration names: `add` or `remove` (ignoring ASCII
/// case), anything else `keep`.
pub open spec fn config_thousands(s: Seq<char>) -> ThousandsSeparator {
    if lower_seq(s) == "add"@ {
        ThousandsSeparator::Add
    } else if lower_seq(s) == "remove"@ {
        ThousandsSeparator::Remove
    } else {
        ThousandsSeparator::Keep
    }
}

/// The options a configuration gives: each field set, else its default.
pub open spec fn spec_into_options(c: ConfigModel, o: Options) -> bool {
    &&& o.indent == or_default(c.indent, 2)
    &&& o.currency_column == or_default(c.currency_column, 70)
    &&& o.cost_column == or_default(c.cost_column, 75)
    &&& o.inline_comment_column == 0
    &&& o.thousands_separator == match c.thousands {
        Some(s) => config_thousands(s),
        None => ThousandsSeparator::Keep,
    }
    &&& o.decimal_mode == DecimalMode::Keep
    &&& o.decimal_places == 2
    &&& o.amount_scope == AmountScope::All
    &&& o.spaces_in_braces == or_default(c.spaces_in_braces, false)
    &&& o.fixed_cjk_width == or_default(c.fixed_cjk_width, true)
    &&& o.sort == or_default(c.sort, SortOrder::Off)
    &&& o.sort_timeless == or_default(c.sort_timeless, TimelessPosition::Keep)
    &&& o.sort_exclude@ == or_default(c.sort_exclude, Seq::<SortableDirective>::empty())
}

impl Default for FileConfig {
    fn default() -> (r: FileConfig)
        ensures
            r@ == empty_model(),
    {
        FileConfig {
            indent: None,
            currency_column: None,
            cost_column: None,
            thousands: None,
            spaces_in_braces: None,
            fixed_cjk_width: None,
            sort: None,
            sort_timeless: None,
            sort_exclude: None,
        }
    }
}

fn pick_exec<T>(over: Option<T>, under: Option<T>) -> (r: Option<T>)
    ensures
        r == pick(over, under),
{
    match over {
        Some(x) => Some(x),
        None => under,
    }
}

fn pick_string(over: Option<String>, under: Option<String>) -> (r: Option<String>)
    ensures
        (match r {
            Some(s) => Some(s@),
            None => None,
        }) == pick(
            match over {
                Some(s) => Some(s@),
                None => None::<Seq<char>>,
            },
            match under {
                Some(s) => Some(s@),
                None => None::<Seq<char>>,
            },
        ),
{
    match over {
        Some(s) => Some(s),
        None => under,
    }
}

fn pick_list(over: Option<Vec<SortableDirective>>, under: Option<Vec<SortableDirective>>) -> (r:
    Option<Vec<SortableDirective>>)
    ensures
        (match r {
            Some(v) => Some(v@),
            None => None,
        }) == pick(
            match over {
                Some(v) => Some(v@),
                None => None::<Seq<SortableDirective>>,
            },
            match under {
                Some(v) => Some(v@),
                None => None::<Seq<SortableDirective>>,
            },
        ),
{
    match over {
        Some(v) => Some(v),
        None => under,
    }
}

impl FileConfig {
    /// Layer `other` on top of `self`: each field set in `other` wins.
    pub fn merge(self, other: FileConfig) -> (r: FileConfig)
        ensures
            r@ == spec_merge(self@, other@),
    {
        FileConfig {
            indent: pick_exec(other.indent, self.indent),
            currency_column: pick_exec(other.currency_column, self.currency_column),
            cost_column: pick_exec(other.cost_column, self.cost_column),
            thousands: pick_string(other.thousands, self.thousands),
            spaces_in_braces: pick_exec(other.spaces_in_braces, self.spaces_in_braces),
            fixed_cjk_width: pick_exec(other.fixed_cjk_width, self.fixed_cjk_width),
            sort: pick_exec(other.sort, self.sort),
            sort_timeless: pick_exec(other.sort_timeless, self.sort_timeless),
            sort_exclude: pick_list(other.sort_exclude, self.sort_exclude),
        }
    }

    /// The options this configuration gives, with the defaults for unset fields.
    pub fn into_options(self) -> (r: Options)
        ensures
            spec_into_options(self@, r),
    {
        let thousands_separator = match &self.thousands {
            Some(s) => ThousandsSeparator::from_config_name(s.as_str()),
            None => ThousandsSeparator::Keep,
        };
        let sort_exclude = match self.sort_exclude {
            Some(v) => v,
            None => Vec::new(),
        };
        Options {
            indent: self.indent.unwrap_or(2),
            currency_column: self.currency_column.unwrap_or(70),
            cost_column: self.cost_column.unwrap_or(75),
            inline_comment_column: 0,
            thousands_separator,
            decimal_mode: DecimalMode::Keep,
            decimal_places: 2,
            amount_scope: AmountScope::All,
            spaces_in_braces: self.spaces_in_braces.unwrap_or(false),
            fixed_cjk_width: self.fixed_cjk_width.unwrap_or(true),
            sort: self.sort.unwrap_or(SortOrder::Off),
            sort_timeless: self.sort_timeless.unwrap_or(TimelessPosition::Keep),
            sort_exclude,
        }
    }
}

/// Layering is associative: merging `b` then `c` onto `a` is merging onto `a`
/// the layer `c` put onto `b`.
pub proof fn law_merge_associative(a: ConfigModel, b: ConfigModel, c: ConfigModel)
    ensures
        spec_merge(spec_merge(a, b), c) == spec_merge(a, spec_merge(b, c)),
{
}

/// A layer that sets nothing changes nothing, above or below.
pub proof fn law_merge_empty(a: ConfigModel)
    ensures
        spec_merge(empty_model(), a) == a,
        spec_merge(a, empty_model()) == a,
{
}

/// The top layer wins: every field it sets is the merged value, and every
/// field it leaves unset comes from the layer below.
pub proof fn law_merge_top_wins(a: ConfigModel, b: ConfigModel)
    ensures
        b.indent is Some ==> spec_merge(a, b).indent == b.indent,
        b.thousands is Some ==> spec_merge(a, b).thousands == b.thousands,
        b.sort is Some ==> spec_merge(a, b).sort == b.sort,
        b.sort_exclude is Some ==> spec_merge(a, b).sort_exclude == b.sort_exclude,
        spec_merge(a, b).indent is None <==> a.indent is None && b.indent is None,
        spec_merge(a, b).indent == (if b.indent is Some { b.indent } else { a.indent }),
        spec_merge(a, b).currency_column == (if b.currency_column is Some {
            b.currency_column
        } else {
            a.currency_column
        }),
        spec_merge(a, b).cost_column == (if b.cost_column is Some {
            b.cost_column
        } else {
            a.cost_column
        }),
        spec_merge(a, b).thousands == (if b.thousands is Some { b.thousands } else { a.thousands }),
        spec_merge(a, b).spaces_in_braces == (if b.spaces_in_braces is Some {
            b.spaces_in_braces
        } else {
            a.spaces_in_braces
        }),
        spec_merge(a, b).fixed_cjk_width == (if b.fixed_cjk_width is Some {
            b.fixed_cjk_width
        } else {
            a.fixed_cjk_width
        }),
        spec_merge(a, b).sort == (if b.sort is Some { b.sort } else { a.sort }),
        spec_merge(a, b).sort_timeless == (if b.sort_timeless is Some {
            b.sort_timeless
        } else {
            a.sort_timeless
        }),
        spec_merge(a, b).sort_exclude == (if b.sort_exclude is Some {
            b.sort_exclude
        } else {
            a.sort_exclude
        }),
{
}

/// What a layer on top sets is what the options end up with: every field the
/// top layer sets wins over the layers below, once the merged configuration
/// becomes options.
pub proof fn law_top_layer_reaches_options(under: ConfigModel, over: ConfigModel, o: Options)
    requires
        spec_into_options(spec_merge(under, over), o),
    ensures
        over.indent matches Some(v) ==> o.indent == v,
        over.currency_column matches Some(v) ==> o.currency_column == v,
        over.cost_column matches Some(v) ==> o.cost_column == v,
        over.spaces_in_braces matches Some(v) ==> o.spaces_in_braces == v,
        over.fixed_cjk_width matches Some(v) ==> o.fixed_cjk_width == v,
        over.sort matches Some(v) ==> o.sort == v,
        over.sort_timeless matches Some(v) ==> o.sort_timeless == v,
        over.sort_exclude matches Some(v) ==> o.sort_exclude@ == v,
        over.thousands matches Some(t) ==> (lower_seq(t) == "add"@ ==> o.thousands_separator
            == ThousandsSeparator::Add),
        over.thousands matches Some(t) ==> (lower_seq(t) == "remove"@ ==> o.thousands_separator
            == ThousandsSeparator::Remove),
        over.indent is None ==> (under.indent matches Some(v) ==> o.indent == v),
        over.currency_column is None ==> (under.currency_column matches Some(v) ==> o.currency_column
            == v),
        over.cost_column is None ==> (under.cost_column matches Some(v) ==> o.cost_column == v),
{
    reveal_strlit("add");
    reveal_strlit("remove");
    assert("add"@.len() == 3 && "remove"@.len() == 6);
}


/// An empty configuration gives the default options.
pub proof fn law_empty_config_defaults(o: Options)
    requires
        spec_into_options(empty_model(), o),
    ensures
        o.is_default(),
{
}

// ---------------------------------------------------------------------------
// Finding the project configuration
// ---------------------------------------------------------------------------

/// What the search for a project configuration does at one directory.
#[derive(Debug, Clone, Copy, PartialEq, Eq, Structural)]
pub enum ConfigSearch {
    /// Load `.beanfmt.toml` of this directory.
    LoadDotfile,
    /// Load `beanfmt.toml` of this directory.
    LoadPlain,
    /// Go on with the parent directory.
    Parent,
    /// Stop: no project configuration, the defaults apply.
    NotFound,
}

/// One step of the upward search from a directory: `.beanfmt.toml` is
/// preferred to `beanfmt.toml`; without either the search goes to the parent,
/// and ends at the root.
pub fn project_config_step(dotfile_is_file: bool, plain_is_file: bool, has_parent: bool) -> (r:
    ConfigSearch)
    ensures
        r == (if dotfile_is_file {
            ConfigSearch::LoadDotfile
        } else if plain_is_file {
            ConfigSearch::LoadPlain
        } else if has_parent {
            ConfigSearch::Parent
        } else {
            ConfigSearch::NotFound
        }),
{
    if dotfile_is_file {
        ConfigSearch::LoadDotfile
    } else if plain_is_file {
        ConfigSearch::LoadPlain
    } else if has_parent {
        ConfigSearch::Parent
    } else {
        ConfigSearch::NotFound
    }
}

} // verus!
