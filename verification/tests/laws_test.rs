use beanfmt::config::FileConfig;
use beanfmt::line::{parse_line, Line};
use beanfmt::text::is_word_char;
use beanfmt::normalize::{
    normalize_amount, normalize_braces, normalize_comment_aligned, normalize_decimals, normalize_indent,
    normalize_number, normalize_thousands,
};
use beanfmt::options::{
    AmountScope, DecimalMode, Options, SortOrder, SortableDirective, ThousandsSeparator,
    TimelessPosition,
};
use beanfmt::recursive::{include_paths, walk_found, walk_next, walk_start};
use beanfmt::sort::{parse_time, sort_input, sort_input_excluding};
use std::borrow::Cow;

fn sorted_lines(s: &str) -> Vec<String> {
    let mut v: Vec<String> = s
        .lines()
        .filter(|l| !l.is_empty())
        .map(|l| l.to_string())
        .collect();
    v.sort();
    v
}

// --- indentation ---

#[test]
fn law_indent_idempotent_example() {
    let once = normalize_indent("\t  Assets:Cash  10 USD", 4);
    assert_eq!(once, "        Assets:Cash  10 USD");
    assert_eq!(normalize_indent(&once, 4), once);
}

#[test]
fn indent_zero_width_strips_leading_whitespace() {
    assert_eq!(normalize_indent("   x", 0), "x");
}

#[test]
fn indent_depth_rounds_up() {
    // five columns over a base of two is three levels
    assert_eq!(normalize_indent("     x", 2), "      x");
}

// --- decimals ---

#[test]
fn law_decimals_minimal_idempotent_example() {
    let once = normalize_decimals("1 234.5600", DecimalMode::Minimal, 2);
    assert_eq!(once, "1234.56");
    assert_eq!(normalize_decimals(&once, DecimalMode::Minimal, 2), once);
}

#[test]
fn decimals_minimal_drops_bare_point() {
    assert_eq!(normalize_decimals("12.000", DecimalMode::Minimal, 2), "12");
}

#[test]
fn law_decimals_pad_idempotent_example() {
    let once = normalize_decimals("7", DecimalMode::Pad, 3);
    assert_eq!(once, "7.000");
    assert_eq!(normalize_decimals(&once, DecimalMode::Pad, 3), once);
    let frac = normalize_decimals("7.5", DecimalMode::Pad, 3);
    assert_eq!(frac, "7.500");
    assert_eq!(normalize_decimals(&frac, DecimalMode::Pad, 3), frac);
}

// --- thousands ---

#[test]
fn law_thousands_remove_after_add_example() {
    let added = normalize_thousands("-1234567.891", &ThousandsSeparator::Add);
    assert_eq!(added, "-1,234,567.891");
    assert_eq!(normalize_thousands(&added, &ThousandsSeparator::Add), added);
    assert_eq!(
        normalize_thousands(&added, &ThousandsSeparator::Remove),
        "-1234567.891"
    );
}

#[test]
fn law_number_idempotent_example() {
    let mut o = Options::default();
    o.thousands_separator = ThousandsSeparator::Add;
    o.decimal_mode = DecimalMode::Minimal;
    let once = normalize_number("-1234 567.500", &o);
    assert_eq!(once, "-1,234,567.5");
    assert_eq!(normalize_number(&once, &o), once);
    o.thousands_separator = ThousandsSeparator::Remove;
    o.decimal_mode = DecimalMode::Pad;
    o.decimal_places = 3;
    let padded = normalize_number("1,000", &o);
    assert_eq!(padded, "1000.000");
    assert_eq!(normalize_number(&padded, &o), padded);
}

// --- comments ---

#[test]
fn law_comment_idempotent_example() {
    let once = normalize_comment_aligned("  ;;   a note  ", 4);
    assert_eq!(normalize_comment_aligned(&once, 4), once);
}

// --- amounts ---

#[test]
fn amount_untouched_scope_borrows() {
    let mut o = Options::default();
    o.thousands_separator = ThousandsSeparator::Add;
    o.amount_scope = AmountScope::Amounts;
    let r = normalize_amount("{1000 USD}", &o);
    assert!(matches!(r, Cow::Borrowed(_)));
    assert_eq!(r, "{1000 USD}");
}

#[test]
fn amount_rewrites_cost_number() {
    let mut o = Options::default();
    o.thousands_separator = ThousandsSeparator::Add;
    let r = normalize_amount("{1000 USD}", &o);
    assert_eq!(r, "{1,000 USD}");
}

// --- option names ---

#[test]
fn law_names_round_trip_example() {
    let dirs = [
        SortableDirective::Transaction,
        SortableDirective::Balance,
        SortableDirective::Open,
        SortableDirective::Close,
        SortableDirective::Price,
        SortableDirective::Pad,
        SortableDirective::Note,
        SortableDirective::Document,
        SortableDirective::Event,
        SortableDirective::Custom,
        SortableDirective::Query,
        SortableDirective::Commodity,
    ];
    for d in dirs {
        assert_eq!(SortableDirective::parse_name(d.name()), Ok(d));
    }
    for o in [SortOrder::Off, SortOrder::Asc, SortOrder::Desc] {
        assert_eq!(SortOrder::parse_name(o.name()), Ok(o));
    }
    for p in [TimelessPosition::Begin, TimelessPosition::End, TimelessPosition::Keep] {
        assert_eq!(TimelessPosition::parse_name(p.name()), Ok(p));
    }
    for m in [DecimalMode::Keep, DecimalMode::Minimal, DecimalMode::Pad] {
        assert_eq!(DecimalMode::parse_name(m.name()), Ok(m));
    }
    for a in [AmountScope::All, AmountScope::Amounts] {
        assert_eq!(AmountScope::parse_name(a.name()), Ok(a));
    }
    for t in [
        ThousandsSeparator::Add,
        ThousandsSeparator::Remove,
        ThousandsSeparator::Keep,
    ] {
        assert_eq!(ThousandsSeparator::parse_name(t.name()), Ok(t.clone()));
    }
}

#[test]
fn names_ignore_ascii_case() {
    assert_eq!(SortableDirective::parse_name("TXN"), Ok(SortableDirective::Transaction));
    assert_eq!(SortOrder::parse_name("True"), Ok(SortOrder::Asc));
    assert_eq!(SortOrder::parse_name("FALSE"), Ok(SortOrder::Off));
}

#[test]
fn names_reject_unknown_values() {
    assert_eq!(
        SortOrder::parse_name("Up"),
        Err("invalid sort: \"up\", expected \"asc\", \"desc\", or \"off\"".to_string())
    );
    assert!(SortableDirective::parse_name("posting").is_err());
    assert!(DecimalMode::parse_name("round").is_err());
    assert!(AmountScope::parse_name("some").is_err());
    assert!(ThousandsSeparator::parse_name("dots").is_err());
}

#[test]
fn thousands_config_name_is_lenient() {
    assert_eq!(ThousandsSeparator::from_config_name("ADD"), ThousandsSeparator::Add);
    assert_eq!(ThousandsSeparator::from_config_name("Remove"), ThousandsSeparator::Remove);
    assert_eq!(ThousandsSeparator::from_config_name("whatever"), ThousandsSeparator::Keep);
}

// --- sorting ---

#[test]
fn law_sort_keeps_ordered_input() {
    let input = "2024-01-01 * \"A\"\n  Assets:Cash  1 USD\n\n2024-01-01 * \"B\"\n\n2024-02-03 * \"C\"\n  Assets:Cash  2 USD\n";
    assert_eq!(sort_input(input, false, TimelessPosition::Begin), input);
}

#[test]
fn law_sort_permutes_lines() {
    let input = "2024-03-01 * \"C\"\n  a:b  1 X\n2024-01-01 * \"A\"\n  a:b  2 X\n2024-02-01 * \"B\"\n";
    let out = sort_input(input, false, TimelessPosition::Begin);
    assert_eq!(sorted_lines(&out), sorted_lines(input));
    assert!(out.find("\"A\"").unwrap() < out.find("\"B\"").unwrap());
    assert!(out.find("\"B\"").unwrap() < out.find("\"C\"").unwrap());
}

#[test]
fn law_sort_twice_is_sorting_once() {
    let input = "2024-03-01 * \"C\"\n2024-01-01 * \"A\"\n2024-02-01 * \"B\"\n";
    let once = sort_input(input, true, TimelessPosition::End);
    assert_eq!(sort_input(&once, true, TimelessPosition::End), once);
}

#[test]
fn excluded_directive_is_a_barrier() {
    let input = "2024-02-01 * \"B\"\n2024-01-01 open Assets:Cash\n2024-01-05 * \"A\"\n";
    let out = sort_input_excluding(input, false, TimelessPosition::Begin, &vec![SortableDirective::Open]);
    assert_eq!(out, input);
    let moved = sort_input_excluding(input, false, TimelessPosition::Begin, &vec![]);
    assert!(moved.find("open").unwrap() < moved.find("\"B\"").unwrap());
}

// --- time values ---

#[test]
fn parse_time_forms() {
    assert_eq!(parse_time("\"09:30\""), Some("09:30:00".to_string()));
    assert_eq!(parse_time("  12:01:02 "), Some("12:01:02".to_string()));
    assert_eq!(parse_time("1700000000"), Some("22:13:20".to_string()));
    assert_eq!(parse_time("1700000000000"), Some("22:13:20".to_string()));
    assert_eq!(parse_time("1700000000000000"), Some("22:13:20".to_string()));
    assert_eq!(parse_time("noon"), None);
    assert_eq!(parse_time("123"), None);
}

#[test]
fn parse_time_canonical_reparses() {
    let t = parse_time("1700000000").unwrap();
    assert_eq!(parse_time(&t), Some(t.clone()));
}

// --- whole files ---

#[test]
fn law_format_empty_example() {
    assert_eq!(beanfmt::format("", &Options::default()), "");
}

#[test]
fn law_format_keeps_final_newline_example() {
    let out = beanfmt::format("2024-01-01 open Assets:Cash\n", &Options::default());
    assert!(out.ends_with('\n'));
    let out2 = beanfmt::format("2024-01-01 open Assets:Cash", &Options::default());
    assert!(!out2.ends_with('\n'));
}

#[test]
fn law_comment_block_same_width_example() {
    let input = "; a\n;;; b\n;; c\n";
    let out = beanfmt::format(input, &Options::default());
    let starts: Vec<usize> = out
        .lines()
        .map(|l| l.find(|c: char| c != ';' && c != ' ').unwrap())
        .collect();
    assert!(starts.iter().all(|&s| s == starts[0]));
}

#[test]
fn include_paths_in_order() {
    let content = "include \"a.beancount\"\n2024-01-01 open Assets:Cash\ninclude \"sub/*.beancount\"\n";
    assert_eq!(
        include_paths(content),
        vec!["a.beancount".to_string(), "sub/*.beancount".to_string()]
    );
    assert!(include_paths("; nothing\n").is_empty());
}

#[test]
fn file_config_default_merges_to_defaults() {
    let o = FileConfig::default().merge(FileConfig::default()).into_options();
    assert_eq!(o, Options::default());
}

// --- Unicode character classes ---

#[test]
fn word_chars_follow_unicode() {
    assert!(is_word_char('é'));
    assert!(is_word_char('汉'));
    assert!(is_word_char('_'));
    assert!(is_word_char('7'));
    assert!(is_word_char('\u{301}')); // a combining mark
    assert!(!is_word_char('²'));
    assert!(!is_word_char('-'));
    assert!(!is_word_char(' '));
}

#[test]
fn account_may_start_with_unicode_uppercase() {
    match parse_line("2024-01-01 open Ärzte:Café-Kasse") {
        Line::Open { account, .. } => assert_eq!(account, "Ärzte:Café-Kasse"),
        other => panic!("expected an open directive, got {:?}", other),
    }
    assert!(!matches!(parse_line("2024-01-01 open ärzte:Kasse"), Line::Open { .. }));
    // a Roman numeral has the Uppercase property but is no uppercase letter
    assert!(!matches!(parse_line("2024-01-01 open Ⅰ:Kasse"), Line::Open { .. }));
}

// --- the walk over included files ---

#[test]
fn include_walk_breadth_first_once() {
    let mut w = walk_start("/l/main.beancount".to_string());
    assert_eq!(walk_next(&mut w), Some("/l/main.beancount".to_string()));
    walk_found(
        &mut w,
        vec![
            "/l/a.beancount".to_string(),
            "/l/b.beancount".to_string(),
            "/l/a.beancount".to_string(),
            "/l/main.beancount".to_string(),
        ],
    );
    assert_eq!(
        w.queue.iter().cloned().collect::<Vec<String>>(),
        vec!["/l/a.beancount".to_string(), "/l/b.beancount".to_string()]
    );
    assert_eq!(walk_next(&mut w), Some("/l/a.beancount".to_string()));
    // a cycle back to the root and a repeat are not queued again
    walk_found(&mut w, vec!["/l/main.beancount".to_string(), "/l/c.beancount".to_string()]);
    assert_eq!(walk_next(&mut w), Some("/l/b.beancount".to_string()));
    walk_found(&mut w, vec!["/l/c.beancount".to_string()]);
    assert_eq!(walk_next(&mut w), Some("/l/c.beancount".to_string()));
    assert_eq!(walk_next(&mut w), None);
    assert_eq!(w.visited.len(), 4);
}

// --- thousands separators on non-ASCII text ---

#[test]
fn thousands_group_by_bytes() {
    // two three-byte characters: the cut falls between them
    assert_eq!(normalize_thousands("日日", &ThousandsSeparator::Add), "日,日");
    assert_eq!(normalize_thousands("1日", &ThousandsSeparator::Add), "1,日");
}

#[test]
fn law_thousands_add_after_remove_example() {
    let removed = normalize_thousands("12,34,567", &ThousandsSeparator::Remove);
    assert_eq!(removed, "1234567");
    assert_eq!(
        normalize_thousands(&removed, &ThousandsSeparator::Add),
        normalize_thousands("12,34,567", &ThousandsSeparator::Add)
    );
    for sep in [ThousandsSeparator::Add, ThousandsSeparator::Remove, ThousandsSeparator::Keep] {
        assert!(!normalize_thousands("- 1 234,5", &sep).contains(' '));
    }
}

#[test]
fn rejected_value_message_quotes_the_value() {
    assert_eq!(
        TimelessPosition::parse_name("Mid\"day"),
        Err("invalid sort_timeless: \"mid\\\"day\", expected \"begin\", \"end\", or \"keep\"".to_string())
    );
}

#[test]
fn law_braces_single_group_example() {
    assert_eq!(normalize_braces("{  100 USD\t}", true), "{ 100 USD }");
    assert_eq!(normalize_braces("{   }", true), "{}");
    assert_eq!(normalize_braces("{}", true), "{}");
}

#[test]
fn law_braces_double_group_example() {
    assert_eq!(normalize_braces("{{5 USD  }}", true), "{{ 5 USD }}");
    assert_eq!(normalize_braces("{{ }}", true), "{{}}");
}

#[test]
fn law_sort_stable_equal_dates() {
    let input = "2024-01-01 * \"B1\"\n\n2024-01-02 * \"C\"\n\n2024-01-02 * \"D\"\n\n2024-01-01 * \"B2\"\n";
    let expected = "2024-01-01 * \"B1\"\n\n2024-01-01 * \"B2\"\n\n2024-01-02 * \"C\"\n\n2024-01-02 * \"D\"\n";
    assert_eq!(sort_input(input, false, TimelessPosition::Begin), expected);
}

#[test]
fn law_format_idempotent_comments_example() {
    let o = Options::default();
    for input in [
        ";; A\n;;; B\n; C\n;;hello\n;four\n",
        "; a\n   \n;;b  \n;\n;;;   c",
        ";x",
        "option \"title\" \"X\"\n; a\n;;b\npushtag #trip\ninclude \"x.beancount\"\n",
    ] {
        let once = beanfmt::format(input, &o);
        assert_eq!(beanfmt::format(&once, &o), once);
    }
}

#[test]
fn display_width_of_printable_ascii_is_its_length() {
    assert_eq!(beanfmt::align::display_width("Assets:Bank 1,000.00 USD", true), 24);
}
