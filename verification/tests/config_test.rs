use beanfmt::cli::Cli;
use beanfmt::config::{project_config_step, ConfigSearch, FileConfig};
use beanfmt::options::{SortOrder, SortableDirective, ThousandsSeparator, TimelessPosition};

#[test]
fn merge_none_fields_preserved() {
    let base = FileConfig {
        indent: Some(2),
        currency_column: Some(60),
        ..FileConfig::default()
    };
    let overlay = FileConfig::default();
    let merged = base.merge(overlay);
    assert_eq!(merged.indent, Some(2));
    assert_eq!(merged.currency_column, Some(60));
}

#[test]
fn merge_some_overrides() {
    let base = FileConfig {
        indent: Some(2),
        currency_column: Some(60),
        ..FileConfig::default()
    };
    let overlay = FileConfig {
        indent: Some(8),
        ..FileConfig::default()
    };
    let merged = base.merge(overlay);
    assert_eq!(merged.indent, Some(8));
    assert_eq!(merged.currency_column, Some(60));
}

#[test]
fn into_options_fills_defaults() {
    let config = FileConfig {
        indent: Some(2),
        ..FileConfig::default()
    };
    let opts = config.into_options();
    assert_eq!(opts.indent, 2);
    assert_eq!(opts.currency_column, 70);
}

#[test]
fn full_merge_chain() {
    let global = FileConfig {
        indent: Some(2),
        ..FileConfig::default()
    };
    let project = FileConfig {
        currency_column: Some(80),
        ..FileConfig::default()
    };
    let cli = FileConfig {
        sort: Some(SortOrder::Asc),
        ..FileConfig::default()
    };
    let options = global.merge(project).merge(cli).into_options();
    assert_eq!(options.indent, 2);
    assert_eq!(options.currency_column, 80);
    assert_eq!(options.cost_column, 75);
    assert_eq!(options.sort, SortOrder::Asc);
}

#[test]
fn cli_overrides_project_overrides_global() {
    let global = FileConfig {
        indent: Some(2),
        ..FileConfig::default()
    };
    let project = FileConfig {
        indent: Some(4),
        ..FileConfig::default()
    };
    let cli = FileConfig {
        indent: Some(8),
        ..FileConfig::default()
    };
    let options = global.merge(project).merge(cli).into_options();
    assert_eq!(options.indent, 8);
}

#[test]
fn merge_is_associative_on_example() {
    let a = FileConfig {
        indent: Some(2),
        thousands: Some("add".to_string()),
        ..FileConfig::default()
    };
    let b = FileConfig {
        thousands: Some("remove".to_string()),
        sort: Some(SortOrder::Desc),
        ..FileConfig::default()
    };
    let c = FileConfig {
        sort_exclude: Some(vec![SortableDirective::Open]),
        ..FileConfig::default()
    };
    let a2 = FileConfig {
        indent: Some(2),
        thousands: Some("add".to_string()),
        ..FileConfig::default()
    };
    let b2 = FileConfig {
        thousands: Some("remove".to_string()),
        sort: Some(SortOrder::Desc),
        ..FileConfig::default()
    };
    let c2 = FileConfig {
        sort_exclude: Some(vec![SortableDirective::Open]),
        ..FileConfig::default()
    };
    let left = a.merge(b).merge(c);
    let right = a2.merge(b2.merge(c2));
    assert_eq!(left.indent, right.indent);
    assert_eq!(left.thousands, right.thousands);
    assert_eq!(left.sort, right.sort);
    assert_eq!(left.sort_exclude, right.sort_exclude);
    assert_eq!(left.thousands, Some("remove".to_string()));
}

#[test]
fn empty_config_gives_default_options() {
    let opts = FileConfig::default().into_options();
    assert_eq!(opts, beanfmt::options::Options::default());
}

#[test]
fn into_options_reads_thousands_leniently() {
    let add = FileConfig {
        thousands: Some("ADD".to_string()),
        ..FileConfig::default()
    }
    .into_options();
    assert_eq!(add.thousands_separator, ThousandsSeparator::Add);
    let other = FileConfig {
        thousands: Some("commas".to_string()),
        ..FileConfig::default()
    }
    .into_options();
    assert_eq!(other.thousands_separator, ThousandsSeparator::Keep);
}

#[test]
fn into_options_carries_sort_settings() {
    let opts = FileConfig {
        sort_timeless: Some(TimelessPosition::End),
        sort_exclude: Some(vec![SortableDirective::Price, SortableDirective::Open]),
        ..FileConfig::default()
    }
    .into_options();
    assert_eq!(opts.sort_timeless, TimelessPosition::End);
    assert_eq!(
        opts.sort_exclude,
        vec![SortableDirective::Price, SortableDirective::Open]
    );
}

fn bare_cli() -> Cli {
    Cli {
        files: vec!["-".to_string()],
        indent: None,
        currency_column: None,
        cost_column: None,
        thousands: None,
        spaces_in_braces: false,
        no_spaces_in_braces: false,
        fixed_cjk_width: false,
        no_fixed_cjk_width: false,
        sort: None,
        no_sort: false,
        sort_timeless: None,
        sort_exclude: None,
        recursive: false,
        write: false,
        no_config: false,
    }
}

#[test]
fn cli_without_flags_sets_nothing() {
    let config = bare_cli().to_file_config();
    assert_eq!(config.indent, None);
    assert_eq!(config.spaces_in_braces, None);
    assert_eq!(config.fixed_cjk_width, None);
    assert_eq!(config.sort, None);
}

#[test]
fn cli_switches_and_negations() {
    let mut cli = bare_cli();
    cli.spaces_in_braces = true;
    cli.no_fixed_cjk_width = true;
    cli.sort = Some(SortOrder::Desc);
    cli.no_sort = true;
    cli.thousands = Some("add".to_string());
    cli.indent = Some(4);
    let config = cli.to_file_config();
    assert_eq!(config.spaces_in_braces, Some(true));
    assert_eq!(config.fixed_cjk_width, Some(false));
    assert_eq!(config.sort, Some(SortOrder::Off));
    assert_eq!(config.thousands, Some("add".to_string()));
    assert_eq!(config.indent, Some(4));
}

#[test]
fn project_config_search_steps() {
    assert_eq!(project_config_step(true, true, true), ConfigSearch::LoadDotfile);
    assert_eq!(project_config_step(false, true, true), ConfigSearch::LoadPlain);
    assert_eq!(project_config_step(false, false, true), ConfigSearch::Parent);
    assert_eq!(project_config_step(false, false, false), ConfigSearch::NotFound);
}
