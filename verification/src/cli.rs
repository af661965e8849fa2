//! The command-line flags and the configuration layer they make.
use vstd::prelude::*;
use crate::config::{ConfigModel, FileConfig};
use crate::options::{SortOrder, SortableDirective, TimelessPosition};

verus! {

/// The command line, as parsed.
#[derive(Debug)]
pub struct Cli {
    /// Input files; `-` is standard input.
    pub files: Vec<String>,
    pub indent: Option<usize>,
    pub currency_column: Option<usize>,
    pub cost_column: Option<usize>,
    pub thousands: Option<String>,
    pub spaces_in_braces: bool,
    pub no_spaces_in_braces: bool,
    pub fixed_cjk_width: bool,
    pub no_fixed_cjk_width: bool,
    pub sort: Option<SortOrder>,
    pub no_sort: bool,
    pub sort_timeless: Option<TimelessPosition>,
    pub sort_exclude: Option<Vec<SortableDirective>>,
    pub recursive: bool,
    pub write: bool,
    pub no_config: bool,
}

/// `Some(true)` for the flag, `Some(false)` for its negation, `None` for neither.
pub open spec fn switch(on: bool, off: bool) -> Option<bool> {
    if on {
        Some(true)
    } else if off {
        Some(false)
    } else {
        None
    }
}

/// The configuration layer of the command line.
pub open spec fn cli_layer(c: Cli) -> ConfigModel {
    ConfigModel {
        indent: c.indent,
        currency_column: c.currency_column,
        cost_column: c.cost_column,
        thousands: match c.thousands {
            Some(s) => Some(s@),
            None => None,
        },
        spaces_in_braces: switch(c.spaces_in_braces, c.no_spaces_in_braces),
        fixed_cjk_width: switch(c.fixed_cjk_width, c.no_fixed_cjk_width),
        sort: if c.no_sort {
            Some(SortOrder::Off)
        } else {
            c.sort
        },
        sort_timeless: c.sort_timeless,
        sort_exclude: match c.sort_exclude {
            Some(v) => Some(v@),
            None => None,
        },
    }
}

fn copy_directives(v: &Vec<SortableDirective>) -> (r: Vec<SortableDirective>)
    ensures
        r@ == v@,
{
    let mut r: Vec<SortableDirective> = Vec::new();
    let mut k: usize = 0;
    while k < v.len()
        invariant
            k <= v@.len(),
            r@ == v@.take(k as int),
        decreases v@.len() - k,
    {
        r.push(v[k]);
        k = k + 1;
        assert(r@ =~= v@.take(k as int));
    }
    assert(v@.take(v@.len() as int) =~= v@);
    r
}

impl Cli {
    /// The configuration layer the flags set: a flag and its `--no-` form give
    /// `true` and `false`, `--no-sort` means `off`, and whatever was not given
    /// stays unset.
    pub fn to_file_config(&self) -> (r: FileConfig)
        ensures
            r@ == cli_layer(*self),
    {
        let spaces_in_braces = if self.spaces_in_braces {
            Some(true)
        } else if self.no_spaces_in_braces {
            Some(false)
        } else {
            None
        };
        let fixed_cjk_width = if self.fixed_cjk_width {
            Some(true)
        } else if self.no_fixed_cjk_width {
            Some(false)
        } else {
            None
        };
        let sort = if self.no_sort {
            Some(SortOrder::Off)
        } else {
            self.sort
        };
        let thousands = match &self.thousands {
            Some(s) => Some(s.clone()),
            None => None,
        };
        let sort_exclude = match &self.sort_exclude {
            Some(v) => Some(copy_directives(v)),
            None => None,
        };
        FileConfig {
            indent: self.indent,
            currency_column: self.currency_column,
            cost_column: self.cost_column,
            thousands,
            spaces_in_braces,
            fixed_cjk_width,
            sort,
            sort_timeless: self.sort_timeless,
            sort_exclude,
        }
    }
}

} // verus!
