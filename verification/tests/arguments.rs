//! The values that commands accept, on a command line and alone.

use clap::{Arg, ArgAction, ArgMatches, Command};
use ochna::arguments::{
    check_explicit_files, parse_confidence, parse_diff_limit, parse_impact_depth,
    parse_impact_limit, parse_tests_for_limit, parse_unresolved_limit, select_diff, DiffSelection,
    SelectionError, DEFAULT_DIFF_LIMIT, DEFAULT_IMPACT_CONFIDENCE, DEFAULT_IMPACT_DEPTH,
    DEFAULT_IMPACT_DIRECTION, DEFAULT_IMPACT_LIMIT, DEFAULT_SEARCH_LIMIT, DEFAULT_TESTS_FOR_LIMIT,
    DEFAULT_UNRESOLVED_LIMIT,
};
use ochna::commands::impact::{direction_name, ImpactDirection};

fn option(name: &'static str) -> Arg {
    Arg::new(name).long(name)
}

fn direction(text: &str) -> Result<ImpactDirection, String> {
    [
        ImpactDirection::Callers,
        ImpactDirection::Callees,
        ImpactDirection::Both,
    ]
    .into_iter()
    .find(|direction| direction_name(*direction) == text)
    .ok_or_else(|| "unknown direction".to_string())
}

fn parse(arguments: &[&str]) -> Result<ArgMatches, clap::Error> {
    Command::new("ochna")
        .subcommand(
            Command::new("tests-for")
                .arg(Arg::new("symbol").required(true))
                .arg(option("in"))
                .arg(option("limit").value_parser(parse_tests_for_limit)),
        )
        .subcommand(
            Command::new("impact")
                .arg(Arg::new("symbol").required(true))
                .arg(option("depth").value_parser(parse_impact_depth))
                .arg(option("direction").value_parser(direction))
                .arg(option("min-confidence").value_parser(parse_confidence))
                .arg(option("limit").value_parser(parse_impact_limit)),
        )
        .subcommand(
            Command::new("diff")
                .arg(option("base"))
                .arg(option("head"))
                .arg(option("files").num_args(1..).action(ArgAction::Append))
                .arg(option("limit").value_parser(parse_diff_limit)),
        )
        .try_get_matches_from(arguments)
}

/// What a comparison on a command line is about.
fn selection(arguments: &[&str]) -> Result<DiffSelection, String> {
    let parsed = parse(arguments).map_err(|error| error.to_string())?;
    let diff = parsed.subcommand_matches("diff").unwrap();
    let text = |name: &str| diff.get_one::<String>(name).cloned();
    let files = diff
        .get_many::<String>("files")
        .map(|files| files.cloned().collect())
        .unwrap_or_default();
    select_diff(text("base"), text("head"), files).map_err(|error| error.message().to_string())
}

#[test]
fn tests_for_parses_scope_and_enforces_its_limit() {
    let parsed = parse(&[
        "ochna",
        "tests-for",
        "render",
        "--in",
        "src",
        "--limit",
        "100",
    ])
    .expect("valid tests-for arguments should parse");
    match parsed.subcommand() {
        Some(("tests-for", found)) => {
            assert_eq!(found.get_one::<String>("symbol").unwrap(), "render");
            assert_eq!(
                found.get_one::<String>("in").map(String::as_str),
                Some("src")
            );
            assert_eq!(found.get_one::<usize>("limit"), Some(&100));
        }
        _ => panic!("expected tests-for command"),
    }
    assert!(parse(&["ochna", "tests-for", "render", "--limit", "101"]).is_err());
}

#[test]
fn diff_requires_one_selector_and_enforces_its_limit() {
    assert!(selection(&["ochna", "diff", "--base", "HEAD", "--limit", "500"]).is_ok());
    assert!(selection(&["ochna", "diff", "--files", "src/lib.rs"]).is_ok());
    assert!(selection(&["ochna", "diff", "--base", "HEAD", "--files", "src/lib.rs"]).is_err());
    assert!(selection(&["ochna", "diff", "--base", "HEAD", "--limit", "501"]).is_err());
}

#[test]
fn impact_parses_contract_defaults_and_bounds() {
    let parsed = parse(&["ochna", "impact", "render"]).expect("impact defaults should parse");
    match parsed.subcommand() {
        Some(("impact", found)) => {
            let number = |name: &str, default: usize| {
                found.get_one::<usize>(name).copied().unwrap_or(default)
            };
            assert_eq!(number("depth", DEFAULT_IMPACT_DEPTH), 2);
            let direction = found
                .get_one::<ImpactDirection>("direction")
                .copied()
                .unwrap_or(DEFAULT_IMPACT_DIRECTION);
            assert!(matches!(direction, ImpactDirection::Both));
            assert_eq!(
                found
                    .get_one::<i64>("min-confidence")
                    .copied()
                    .unwrap_or(DEFAULT_IMPACT_CONFIDENCE),
                80
            );
            assert_eq!(number("limit", DEFAULT_IMPACT_LIMIT), 50);
        }
        _ => panic!("expected impact command"),
    }
    assert!(parse(&["ochna", "impact", "render", "--depth", "6"]).is_err());
    assert!(parse(&["ochna", "impact", "render", "--limit", "201"]).is_err());
    assert!(parse(&["ochna", "impact", "render", "--min-confidence", "101"]).is_err());
}

#[test]
fn limits_accept_the_numbers_within_their_bounds() {
    assert_eq!(parse_unresolved_limit("1"), Ok(1));
    assert_eq!(parse_unresolved_limit("200"), Ok(200));
    assert_eq!(parse_unresolved_limit("+7"), Ok(7));
    assert_eq!(
        parse_unresolved_limit("201"),
        Err("limit must be between 1 and 200".to_string())
    );
    assert_eq!(
        parse_unresolved_limit("0"),
        Err("limit must be between 1 and 200".to_string())
    );
    assert_eq!(
        parse_tests_for_limit("101"),
        Err("limit must be between 1 and 100".to_string())
    );
    assert_eq!(
        parse_diff_limit("501"),
        Err("limit must be between 1 and 500".to_string())
    );
    assert_eq!(parse_impact_limit("200"), Ok(200));
    assert_eq!(parse_impact_depth("5"), Ok(5));
    assert_eq!(
        parse_impact_depth("6"),
        Err("depth must be between 1 and 5".to_string())
    );
}

#[test]
fn limits_refuse_what_is_no_number() {
    for text in ["", "-1", "x", "1.5", " 1", "99999999999999999999999"] {
        assert_eq!(
            parse_unresolved_limit(text),
            Err("limit must be a positive integer".to_string())
        );
        assert_eq!(
            parse_impact_depth(text),
            Err("depth must be a positive integer".to_string())
        );
    }
}

#[test]
fn confidences_lie_between_nothing_and_certainty() {
    assert_eq!(parse_confidence("0"), Ok(0));
    assert_eq!(parse_confidence("100"), Ok(100));
    assert_eq!(
        parse_confidence("-1"),
        Err("min-confidence must be between 0 and 100".to_string())
    );
    assert_eq!(
        parse_confidence("high"),
        Err("min-confidence must be an integer".to_string())
    );
}

#[test]
fn walks_go_both_ways_unless_asked_otherwise() {
    assert_eq!(DEFAULT_IMPACT_DIRECTION, ImpactDirection::Both);
    assert_eq!(direction_name(DEFAULT_IMPACT_DIRECTION), "both");
    let parsed = parse(&["ochna", "impact", "render", "--direction", "callers"]).unwrap();
    let impact = parsed.subcommand_matches("impact").unwrap();
    assert_eq!(
        impact.get_one::<ImpactDirection>("direction"),
        Some(&ImpactDirection::Callers)
    );
    assert!(parse(&["ochna", "impact", "render", "--direction", "up"]).is_err());
}

#[test]
fn defaults_are_within_the_bounds() {
    assert_eq!(
        parse_unresolved_limit(&DEFAULT_UNRESOLVED_LIMIT.to_string()),
        Ok(50)
    );
    assert_eq!(
        parse_tests_for_limit(&DEFAULT_TESTS_FOR_LIMIT.to_string()),
        Ok(30)
    );
    assert_eq!(parse_diff_limit(&DEFAULT_DIFF_LIMIT.to_string()), Ok(100));
    assert_eq!(DEFAULT_SEARCH_LIMIT, 30);
}

#[test]
fn a_comparison_is_about_a_range_or_about_files() {
    let base = || Some("main".to_string());
    let head = || Some("topic".to_string());
    assert_eq!(
        select_diff(base(), head(), vec![]),
        Ok(DiffSelection::Range {
            base: "main".to_string(),
            head: head(),
        })
    );
    assert_eq!(
        select_diff(None, None, vec!["a.rs".to_string()]),
        Ok(DiffSelection::Files(vec!["a.rs".to_string()]))
    );
    assert_eq!(select_diff(None, None, vec![]), Err(SelectionError::Nothing));
    assert_eq!(
        select_diff(base(), None, vec!["a.rs".to_string()]),
        Err(SelectionError::BaseAndFiles)
    );
    assert_eq!(
        select_diff(None, head(), vec![]),
        Err(SelectionError::HeadWithoutBase)
    );
    assert_eq!(
        SelectionError::Nothing.message(),
        "diff requires exactly one selector: --base <revision> or --files <path>..."
    );
}

#[test]
fn named_files_stay_in_the_workspace() {
    let files = |paths: &[&str]| paths.iter().map(|path| path.to_string()).collect::<Vec<_>>();
    assert_eq!(check_explicit_files(&files(&["src/a.rs", "b.rs"])), None);
    assert_eq!(
        check_explicit_files(&files(&["src/a.rs", "/etc/hosts"])),
        Some("--files path must be workspace-relative: /etc/hosts".to_string())
    );
    assert_eq!(
        check_explicit_files(&files(&["src/../../a.rs"])),
        Some("--files path must be workspace-relative: src/../../a.rs".to_string())
    );
    let many: Vec<String> = (0..501).map(|number| format!("{number}.rs")).collect();
    assert_eq!(
        check_explicit_files(&many),
        Some("--files accepts at most 500 distinct workspace-relative paths".to_string())
    );
    let repeated: Vec<String> = (0..501).map(|number| format!("{}.rs", number % 3)).collect();
    assert_eq!(check_explicit_files(&repeated), None);
}
