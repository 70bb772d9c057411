//! What is shown of symbols, files and walks.

use ochna::commands::impact::{
    collect_impact, ImpactBounds, ImpactDirection, ImpactEdge, OpenReference,
};
use ochna::commands::listing::{
    external_nodes, group_by_file, impact_warnings, line_range, list_file_symbols, list_nodes,
    number_lines, show_explored, show_file, show_impact, show_symbol, CodeLine, ExploredFile,
    ExploredSymbol, SourceText,
};
use ochna::db::Node;

fn node(name: &str, path: &str, start_line: i64, end_line: i64) -> Node {
    Node {
        id: format!("{path}::{name}"),
        name: name.to_string(),
        kind: "function".to_string(),
        qualified_name: None,
        file_path: path.to_string(),
        start_line,
        end_line,
        start_column: 0,
        end_column: 0,
        signature: None,
        doc_comment: None,
        is_test: false,
        resolution_kind: None,
        confidence: None,
    }
}

fn lines(texts: &[&str]) -> Vec<String> {
    texts.iter().map(|text| text.to_string()).collect()
}

#[test]
fn symbols_are_listed_with_their_place() {
    let mut sum = node("sum", "src/a.rs", 3, 5);
    sum.qualified_name = Some("Point::sum".to_string());
    sum.resolution_kind = Some("exact".to_string());
    sum.confidence = Some(100);
    let nodes = vec![sum, node("run", "src/b.rs", 1, 1)];
    assert_eq!(
        list_nodes(&nodes, "nothing", true),
        vec![
            "- Point::sum (function) - src/a.rs:3 [resolution: exact, confidence: 100]",
            "- run (function) - src/b.rs:1",
        ]
    );
    assert_eq!(
        list_nodes(&nodes, "nothing", false)[0],
        "- Point::sum (function) - src/a.rs:3"
    );
    assert_eq!(list_nodes(&vec![], "nothing", false), vec!["nothing"]);
}

#[test]
fn symbols_of_a_file_are_listed_with_their_lines() {
    assert_eq!(
        list_file_symbols("src/a.rs", &vec![node("sum", "src/a.rs", 3, 5)]),
        vec!["Symbols in src/a.rs:", "- sum (function) - lines 3-5"]
    );
    assert_eq!(
        list_file_symbols("src/a.rs", &vec![]),
        vec!["No symbols found for file 'src/a.rs'."]
    );
}

#[test]
fn ranges_of_lines_stay_in_the_file() {
    assert_eq!(line_range(None, None, 10), (1, 10));
    assert_eq!(line_range(Some(3), Some(4), 10), (3, 6));
    assert_eq!(line_range(Some(3), Some(1), 10), (3, 3));
    assert_eq!(line_range(Some(9), Some(4), 10), (9, 10));
    assert_eq!(line_range(Some(-3), Some(20), 10), (1, 10));
    assert_eq!(line_range(Some(12), None, 10), (12, 10));
    let text = lines(&["a", "b", "c"]);
    assert_eq!(
        number_lines(&text, 2, 9),
        vec![
            CodeLine {
                line: 2,
                text: "b".to_string(),
            },
            CodeLine {
                line: 3,
                text: "c".to_string(),
            },
        ]
    );
    assert!(number_lines(&text, 4, 9).is_empty());
    assert_eq!(number_lines(&text, -1, 1).len(), 1);
}

#[test]
fn files_are_shown_with_their_dependents() {
    let code = number_lines(&lines(&["a", "b"]), 1, 2);
    assert_eq!(
        show_file("src/a.rs", 1, 2, &code, &vec![], false),
        vec![
            "File content of src/a.rs (lines 1 to 2):",
            "1\ta",
            "2\tb",
            "\nDependents:",
            "No external dependents.",
        ]
    );
    let dependents = external_nodes(
        vec![node("f", "src/b.rs", 1, 1), node("g", "src/a.rs", 1, 1)],
        "src/a.rs",
    );
    assert_eq!(
        show_file("src/a.rs", 1, 2, &code, &dependents, false)[4],
        "- f (function) - src/b.rs:1"
    );
}

#[test]
fn symbols_are_shown_with_all_that_is_known() {
    let mut sum = node("sum", "src/a.rs", 2, 3);
    sum.signature = Some("fn sum()".to_string());
    sum.doc_comment = Some("/// Adds.".to_string());
    let source = SourceText::Lines(lines(&["x", "fn sum() {", "}", "y"]));
    let callers = vec![node("main", "src/main.rs", 1, 1)];
    assert_eq!(
        show_symbol(&sum, &source, &callers, &vec![], false),
        "Symbol: sum (function)\nDefined in: src/a.rs (lines 2-3)\nSignature: fn sum()\nDocumentation:\n/// Adds.\n\nCode:\n2\tfn sum() {\n3\t}\n\nCallers:\n- main (function) - src/main.rs:1\n\nCallees:\nNone"
    );
    let plain = node("sum", "src/a.rs", 2, 3);
    assert_eq!(
        show_symbol(&plain, &SourceText::Unreadable, &vec![], &vec![], false),
        "Symbol: sum (function)\nDefined in: src/a.rs (lines 2-3)\n\nCode: [Could not read file 'src/a.rs']\n\nCallers:\nNone\n\nCallees:\nNone"
    );
    assert_eq!(
        show_symbol(&plain, &SourceText::Omitted, &vec![], &vec![], false),
        "Symbol: sum (function)\nDefined in: src/a.rs (lines 2-3)\n\nCallers:\nNone\n\nCallees:\nNone"
    );
}

#[test]
fn symbols_are_grouped_by_file() {
    let groups = group_by_file(&vec![
        node("a", "x.rs", 1, 1),
        node("b", "y.rs", 1, 1),
        node("c", "x.rs", 2, 2),
    ]);
    let found: Vec<(&str, Vec<&str>)> = groups
        .iter()
        .map(|group| {
            (
                group.file_path.as_str(),
                group.nodes.iter().map(|node| node.name.as_str()).collect(),
            )
        })
        .collect();
    assert_eq!(found, vec![("x.rs", vec!["a", "c"]), ("y.rs", vec!["b"])]);
}

#[test]
fn explored_files_are_shown_with_code_and_relations() {
    let files = vec![ExploredFile {
        file_path: "x.rs".to_string(),
        source: Some(lines(&["fn a() {}"])),
        symbols: vec![ExploredSymbol {
            node: node("a", "x.rs", 1, 1),
            callers: vec![],
            callees: vec![node("b", "y.rs", 4, 4)],
        }],
    }];
    assert_eq!(
        show_explored(&files, false),
        "File: x.rs\n  Symbol: a (function)\n  Lines: 1 to 1\n  Code:\n    1\tfn a() {}\n  Relationships:\n    Callers: None\n    Callees:\n      - b (function) - y.rs:4\n"
    );
}

#[test]
fn walks_are_shown_with_their_paths() {
    let root = node("root", "x.rs", 1, 1);
    let mut test = node("test", "t.rs", 1, 1);
    test.is_test = true;
    let edges = vec![ImpactEdge::new(
        "calls".to_string(),
        test.clone(),
        root.clone(),
        5,
    )];
    let references = vec![OpenReference {
        source_id: test.id.clone(),
        specifier: "topic".to_string(),
        kind: "publishes_event".to_string(),
        line: 1,
        column: 1,
        candidates: 0,
    }];
    let bounds = ImpactBounds {
        depth: 2,
        direction: ImpactDirection::Callers,
        min_confidence: 80,
        limit: 50,
        no_tests: false,
    };
    let result = collect_impact(&references, &edges, &root, bounds);
    assert_eq!(
        show_impact("root", &result),
        vec![
            "Impact for root:",
            "Nodes:",
            "- t.rs::test",
            "Paths:",
            "- root: ",
            "- p1: t.rs::test -> x.rs::root [100]",
            "Affected tests:",
            "- t.rs::test (p1)",
            "Unresolved boundaries:",
            "- t.rs::test -[publishes_event]-> null (topic, missing_target, p1)",
            "Edges:",
            "- t.rs::test -> x.rs::root [exact; 100]",
        ]
    );
    let warnings = impact_warnings(&result);
    assert_eq!(warnings.len(), 1);
    assert_eq!(warnings[0].code, "unresolved_framework_endpoint");

    let cut = collect_impact(&vec![], &edges, &root, ImpactBounds { limit: 0, ..bounds });
    assert!(cut.truncated);
    let warnings = impact_warnings(&cut);
    assert_eq!(warnings[0].code, "truncated");
    assert_eq!(
        warnings[0].message,
        "result budget reached; frontier not walked: x.rs::root -> t.rs::test (node limit)"
    );
    assert_eq!(
        show_impact("root", &cut).last().unwrap(),
        "Warnings:\n- result budget reached; frontier not walked: x.rs::root -> t.rs::test (node limit)"
    );
}
