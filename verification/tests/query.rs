//! Finding symbols, and what is around them.

use ochna::commands::impact::{
    collect_impact, direction_name, impact_edges_from, ImpactBounds, ImpactDirection, ImpactEdge,
    OpenReference, Walk,
};
use ochna::commands::select::{
    process_related_nodes, query_subjects, rank_of, rank_search_results, related_nodes,
    resolve_one_node, retain_non_tests,
};
use ochna::commands::tests_for::{collect_tests_for, limit_tests, show_test};
use ochna::db::{Edge, Node};

fn node(id: &str, is_test: bool) -> Node {
    Node {
        id: id.to_string(),
        name: id.to_string(),
        kind: "function".to_string(),
        qualified_name: Some(id.to_string()),
        file_path: "src/main.rs".to_string(),
        start_line: 1,
        end_line: 1,
        start_column: 0,
        end_column: 0,
        signature: None,
        doc_comment: None,
        is_test,
        resolution_kind: None,
        confidence: None,
    }
}

fn calls(source: &Node, target: &Node, resolution_kind: i64) -> ImpactEdge {
    ImpactEdge::new(
        "calls".to_string(),
        source.clone(),
        target.clone(),
        resolution_kind,
    )
}

#[test]
fn retain_non_tests_filters_only_when_requested() {
    let mut nodes = vec![node("prod", false), node("test", true)];
    retain_non_tests(&mut nodes, false);
    assert_eq!(nodes.len(), 2);

    retain_non_tests(&mut nodes, true);
    assert_eq!(nodes.len(), 1);
    assert_eq!(nodes[0].id, "prod");
}

#[test]
fn impact_uses_indexed_edge_metadata_and_direction_without_name_guessing() {
    let root = node("src/lib.rs::render", false);
    let caller = node("src/lib.rs::render_page", false);
    let test = node("tests/render_tests.rs::render_page_uses_render", true);
    let unrelated = node("src/other.rs::render", false);
    let edges = vec![calls(&caller, &root, 4), calls(&test, &caller, 5)];

    let incoming = impact_edges_from(&edges, &root.id, ImpactDirection::Callers);
    assert_eq!(incoming.len(), 1);
    assert_eq!(incoming[0].source.id, caller.id);
    assert_eq!(incoming[0].target.id, root.id);
    assert_eq!(incoming[0].relationship, "calls");
    assert_eq!(incoming[0].resolution_kind, "receiver_type");
    assert_eq!(incoming[0].confidence, 90);
    assert!(impact_edges_from(&edges, &root.id, ImpactDirection::Callees).is_empty());
    assert!(impact_edges_from(&edges, &unrelated.id, ImpactDirection::Both).is_empty());
}

#[test]
fn impact_preserves_converging_paths_terminates_cycles_and_reports_frontiers() {
    let root = node("root", false);
    let left = node("left", false);
    let right = node("right", false);
    let test = node("test", true);
    let cycle = node("cycle", false);
    let mut edges = Vec::new();
    for (source, target) in [
        (&left, &root),
        (&right, &root),
        (&test, &root),
        (&test, &left),
        (&test, &right),
        (&root, &cycle),
        (&cycle, &root),
    ] {
        edges.push(calls(source, target, 5));
    }
    let references = vec![OpenReference {
        source_id: left.id.clone(),
        specifier: "missing".to_string(),
        kind: "call".to_string(),
        line: 1,
        column: 1,
        candidates: 0,
    }];
    let bounds = ImpactBounds {
        depth: 5,
        direction: ImpactDirection::Both,
        min_confidence: 0,
        limit: 50,
        no_tests: false,
    };

    let first = collect_impact(&references, &edges, &root, bounds);
    let second = collect_impact(&references, &edges, &root, bounds);
    let test_paths = &first
        .affected_tests
        .iter()
        .find(|affected| affected.test.id == "test")
        .unwrap()
        .path_ids;
    assert_eq!(
        test_paths.len(),
        3,
        "direct and both converging paths reach the test"
    );
    let emitted_ids = first
        .paths
        .iter()
        .map(|path| path.id.as_str())
        .collect::<Vec<_>>();
    assert!(test_paths
        .iter()
        .all(|id| emitted_ids.contains(&id.as_str())));
    let test_path_lengths = first
        .paths
        .iter()
        .filter(|path| test_paths.contains(&path.id))
        .map(|path| path.edges.len())
        .collect::<Vec<_>>();
    assert!(
        test_path_lengths.contains(&1),
        "the direct path is retained"
    );
    assert_eq!(
        test_path_lengths.iter().filter(|&&len| len == 2).count(),
        2,
        "both converging paths are retained"
    );
    assert!(!first.boundaries.is_empty());
    assert!(first
        .boundaries
        .iter()
        .all(|boundary| emitted_ids.contains(&boundary.path_id.as_str())));
    for path in &first.paths {
        let mut current = root.id.clone();
        let mut visited = std::collections::BTreeSet::from([current.clone()]);
        for edge in &path.edges {
            current = if edge.source.id == current {
                edge.target.id.clone()
            } else if edge.target.id == current {
                edge.source.id.clone()
            } else {
                panic!("path {} contains a non-contiguous edge", path.id);
            };
            assert!(
                visited.insert(current.clone()),
                "path {} repeats node {current}",
                path.id
            );
        }
    }
    assert_eq!(
        first
            .paths
            .iter()
            .map(|path| {
                (
                    path.id.as_str(),
                    path.edges
                        .iter()
                        .map(|edge| {
                            (
                                edge.source.id.as_str(),
                                edge.target.id.as_str(),
                                edge.relationship.as_str(),
                            )
                        })
                        .collect::<Vec<_>>(),
                )
            })
            .collect::<Vec<_>>(),
        second
            .paths
            .iter()
            .map(|path| {
                (
                    path.id.as_str(),
                    path.edges
                        .iter()
                        .map(|edge| {
                            (
                                edge.source.id.as_str(),
                                edge.target.id.as_str(),
                                edge.relationship.as_str(),
                            )
                        })
                        .collect::<Vec<_>>(),
                )
            })
            .collect::<Vec<_>>(),
        "path IDs and ordered edge sequences are deterministic across identical runs"
    );

    let limited = collect_impact(
        &references,
        &edges,
        &root,
        ImpactBounds {
            depth: 2,
            direction: ImpactDirection::Callers,
            min_confidence: 0,
            limit: 1,
            no_tests: false,
        },
    );
    assert!(limited.truncated);
    assert!(limited
        .truncated_frontiers
        .iter()
        .any(|frontier| frontier.contains("node limit")));
}

#[test]
fn walks_stay_within_their_bounds() {
    let chain: Vec<Node> = ["a", "b", "c", "d"].map(|id| node(id, false)).into();
    let edges = vec![
        calls(&chain[0], &chain[1], 5),
        calls(&chain[1], &chain[2], 1),
        calls(&chain[2], &chain[3], 5),
    ];
    let walk = |depth: usize, min_confidence: i64| {
        let found = collect_impact(
            &vec![],
            &edges,
            &chain[0],
            ImpactBounds {
                depth,
                direction: ImpactDirection::Callees,
                min_confidence,
                limit: 50,
                no_tests: false,
            },
        );
        assert!(!found.truncated);
        found.nodes.iter().map(|node| node.id.clone()).collect::<Vec<_>>()
    };
    assert_eq!(walk(1, 0), vec!["b"]);
    assert_eq!(walk(2, 0), vec!["b", "c"]);
    assert_eq!(walk(5, 0), vec!["b", "c", "d"]);
    assert_eq!(walk(5, 80), vec!["b"]);
}

#[test]
fn walks_without_frontiers_find_every_path() {
    // Three ways lead from the first symbol to the last: a diamond and an edge across it.
    let nodes: Vec<Node> = ["a", "b", "c", "d"].map(|id| node(id, false)).into();
    let edges = vec![
        calls(&nodes[0], &nodes[1], 5),
        calls(&nodes[0], &nodes[2], 5),
        calls(&nodes[1], &nodes[2], 5),
        calls(&nodes[1], &nodes[3], 5),
        calls(&nodes[2], &nodes[3], 5),
        calls(&nodes[3], &nodes[0], 5),
    ];
    let found = collect_impact(
        &vec![],
        &edges,
        &nodes[0],
        ImpactBounds {
            depth: 5,
            direction: ImpactDirection::Callees,
            min_confidence: 0,
            limit: 50,
            no_tests: false,
        },
    );
    assert!(!found.truncated);
    let mut ways: Vec<String> = found
        .paths
        .iter()
        .map(|path| {
            let ends: String = path.edges.iter().map(|edge| edge.target.id.as_str()).collect();
            format!("a{ends}")
        })
        .collect();
    ways.sort();
    assert_eq!(ways, vec!["a", "ab", "abc", "abcd", "abd", "ac", "acd"]);
    let mut ids: Vec<&str> = found.paths.iter().map(|path| path.id.as_str()).collect();
    ids.sort();
    ids.dedup();
    assert_eq!(ids.len(), ways.len());
}

#[test]
fn walks_pass_over_tests_when_asked() {
    let root = node("root", false);
    let test = node("test", true);
    let found = collect_impact(
        &vec![],
        &vec![calls(&test, &root, 5)],
        &root,
        ImpactBounds {
            depth: 1,
            direction: ImpactDirection::Callers,
            min_confidence: 0,
            limit: 50,
            no_tests: true,
        },
    );
    assert!(found.nodes.is_empty());
    assert_eq!(found.paths.len(), 1);
    assert_eq!(found.paths[0].id, "root");
}

#[test]
fn a_walk_goes_on_symbol_by_symbol() {
    let root = node("root", false);
    let next = node("next", false);
    let last = node("last", false);
    let edges = vec![calls(&root, &next, 5), calls(&next, &last, 5)];
    let bounds = ImpactBounds {
        depth: 2,
        direction: ImpactDirection::Callees,
        min_confidence: 0,
        limit: 50,
        no_tests: false,
    };
    let mut walk = Walk::new(&root);
    let mut seen = Vec::new();
    while let Some(pending) = walk.pending() {
        let id = pending.id.clone();
        let around: Vec<ImpactEdge> = edges
            .iter()
            .filter(|edge| edge.source.id == id || edge.target.id == id)
            .cloned()
            .collect();
        seen.push(id);
        walk.step(&vec![], &around, bounds);
    }
    assert_eq!(seen, vec!["root", "next", "last"]);
    let stepped = walk.finish();
    let whole = collect_impact(&vec![], &edges, &root, bounds);
    assert_eq!(stepped.nodes, whole.nodes);
    assert_eq!(stepped.paths.len(), whole.paths.len());
    assert_eq!(stepped.paths[1].id, "p1");
}

#[test]
fn directions_have_names() {
    assert_eq!(direction_name(ImpactDirection::Callers), "callers");
    assert_eq!(direction_name(ImpactDirection::Callees), "callees");
    assert_eq!(direction_name(ImpactDirection::Both), "both");
}

#[test]
fn tests_for_labels_direct_and_candidate_evidence_without_coverage_claims() {
    let target = Node {
        id: "src/lib.rs::render".to_string(),
        name: "render".to_string(),
        kind: "function".to_string(),
        qualified_name: Some("render".to_string()),
        file_path: "src/lib.rs".to_string(),
        start_line: 1,
        end_line: 3,
        start_column: 0,
        end_column: 1,
        signature: None,
        doc_comment: None,
        is_test: false,
        resolution_kind: None,
        confidence: None,
    };
    let sibling = Node {
        id: "src/lib.rs::render_page".to_string(),
        name: "render_page".to_string(),
        qualified_name: Some("render_page".to_string()),
        ..target.clone()
    };
    let test = Node {
        id: "tests/render_tests.rs::render_page_uses_render".to_string(),
        name: "render_page_uses_render".to_string(),
        qualified_name: Some("render_page_uses_render".to_string()),
        file_path: "tests/render_tests.rs".to_string(),
        is_test: true,
        ..target.clone()
    };
    let module_candidate = Node {
        id: "tests/render_tests.rs::module_probe".to_string(),
        name: "module_probe".to_string(),
        qualified_name: Some("module_probe".to_string()),
        file_path: "tests/render_tests.rs".to_string(),
        is_test: true,
        ..target.clone()
    };
    let name_candidate = Node {
        id: "tests/render_tests.rs::render_name_probe".to_string(),
        name: "render_name_probe".to_string(),
        qualified_name: Some("render_name_probe".to_string()),
        file_path: "tests/render_tests.rs".to_string(),
        is_test: true,
        ..target.clone()
    };
    let nodes = vec![
        target.clone(),
        sibling.clone(),
        test.clone(),
        module_candidate.clone(),
        name_candidate.clone(),
    ];
    let edge = |source: &Node, target: &Node, kind: &str| Edge {
        source_id: source.id.clone(),
        target_id: target.id.clone(),
        kind: kind.to_string(),
        resolution_kind: 5,
    };
    // A relationship of another kind between a test and the target is no direct
    // call evidence.
    let edges = vec![
        edge(&test, &target, "calls"),
        edge(&test, &sibling, "calls"),
        edge(&module_candidate, &sibling, "calls"),
        edge(&name_candidate, &target, "tests"),
    ];

    let items = collect_tests_for(&nodes, &edges, &target, false);
    assert_eq!(
        items
            .iter()
            .map(|item| (item.test.id.as_str(), item.evidence))
            .collect::<Vec<_>>(),
        vec![
            (
                "tests/render_tests.rs::render_page_uses_render",
                "direct_call"
            ),
            (
                "tests/render_tests.rs::module_probe",
                "same_module_candidate"
            ),
            ("tests/render_tests.rs::render_name_probe", "name_heuristic"),
        ]
    );
    assert_eq!(items[0].confidence, 100);
    assert_eq!(items[1].confidence, 60);
    assert_eq!(items[2].confidence, 30);
    assert!(items[2].confidence <= 60);
    assert_eq!(items[1].path[0].relationship, "references");
    assert_eq!(items[1].path[0].resolution_kind, "same_module_candidate");
    assert_eq!(items[2].path[0].relationship, "tests");
    assert_eq!(items[2].evidence, "name_heuristic");

    assert!(collect_tests_for(&nodes, &edges, &target, true).is_empty());

    assert_eq!(
        show_test(&items[1]),
        "- tests/render_tests.rs::module_probe [same_module_candidate; confidence: 60]: tests/render_tests.rs::module_probe -> src/lib.rs::render"
    );
    let mut shown = items;
    assert!(!limit_tests(&mut shown, 3));
    assert!(limit_tests(&mut shown, 2));
    assert_eq!(shown.len(), 2);
}

#[test]
fn tests_for_requires_scope_for_ambiguous_simple_names() {
    let left = Node {
        id: "src/left.rs::run".to_string(),
        name: "run".to_string(),
        kind: "function".to_string(),
        qualified_name: Some("run".to_string()),
        file_path: "src/left.rs".to_string(),
        start_line: 1,
        end_line: 1,
        start_column: 0,
        end_column: 0,
        signature: None,
        doc_comment: None,
        is_test: false,
        resolution_kind: None,
        confidence: None,
    };
    let right = Node {
        id: "src/right.rs::run".to_string(),
        file_path: "src/right.rs".to_string(),
        ..left.clone()
    };
    let nodes = vec![left.clone(), right.clone()];

    let ambiguous = resolve_one_node(&nodes, "run", None);
    assert!(ambiguous.target.is_none());
    assert_eq!(ambiguous.warnings[0].code, "ambiguous_symbol");
    assert_eq!(
        ambiguous.warnings[0].message,
        "symbol 'run' matches 2 indexed definitions; use --in or an ID/qualified name"
    );

    let scoped = resolve_one_node(&nodes, "run", Some("src/right"));
    assert_eq!(scoped.target.unwrap().id, right.id);

    let exact = resolve_one_node(&nodes, &left.id, None);
    assert_eq!(exact.target.unwrap().id, left.id);

    let missing = resolve_one_node(&nodes, "walk", None);
    assert!(missing.target.is_none());
    assert!(missing.warnings.is_empty());
}

fn related(id: &str, confidence: Option<i64>) -> Node {
    Node {
        confidence,
        ..node(id, false)
    }
}

#[test]
fn related_symbols_are_listed_once_with_the_best_confidence_first() {
    let mut nodes = vec![
        related("b", Some(30)),
        related("a", Some(60)),
        related("b", Some(90)),
        related("c", None),
        node("t", true),
    ];
    process_related_nodes(&mut nodes, true);
    let found: Vec<(&str, Option<i64>)> = nodes
        .iter()
        .map(|node| (node.id.as_str(), node.confidence))
        .collect();
    assert_eq!(
        found,
        vec![("b", Some(90)), ("a", Some(60)), ("c", None)]
    );
}

#[test]
fn related_symbols_of_one_confidence_are_listed_by_id() {
    let listed = |no_tests: bool| {
        let mut nodes = vec![
            related("d", Some(60)),
            related("c", Some(90)),
            Node {
                is_test: true,
                ..related("b", Some(60))
            },
            related("d", Some(60)),
            related("a", Some(60)),
        ];
        process_related_nodes(&mut nodes, no_tests);
        nodes.into_iter().map(|node| node.id).collect::<Vec<_>>()
    };
    assert_eq!(listed(false), vec!["c", "a", "b", "d"]);
    assert_eq!(listed(true), vec!["c", "a", "d"]);
}

#[test]
fn weak_relations_are_dropped_when_asked() {
    let nodes = || vec![related("a", Some(60)), related("b", Some(80)), related("c", None)];
    let ids = |nodes: Vec<Node>| nodes.into_iter().map(|node| node.id).collect::<Vec<_>>();
    assert_eq!(ids(related_nodes(nodes(), Some(80), false)), vec!["b"]);
    assert_eq!(ids(related_nodes(nodes(), None, false)), vec!["b", "a", "c"]);
    assert_eq!(
        ids(related_nodes(nodes(), Some(0), false)),
        vec!["b", "a", "c"]
    );
}

#[test]
fn subjects_are_found_by_name_before_id() {
    let mut first = node("src/a.rs::run", false);
    first.name = "run".to_string();
    first.start_line = 3;
    first.end_line = 9;
    let mut second = node("run", true);
    second.name = "other".to_string();
    let nodes = vec![first.clone(), second.clone()];
    let ids = |nodes: Vec<Node>| nodes.into_iter().map(|node| node.id).collect::<Vec<_>>();
    assert_eq!(
        ids(query_subjects(&nodes, "run", None, false, None)),
        vec!["src/a.rs::run"]
    );
    assert_eq!(
        ids(query_subjects(&nodes, "src/a.rs::run", None, false, None)),
        vec!["src/a.rs::run"]
    );
    assert_eq!(
        ids(query_subjects(&nodes, "run", Some(9), false, None)),
        vec!["src/a.rs::run"]
    );
    assert!(query_subjects(&nodes, "run", Some(10), false, None).is_empty());
    assert!(query_subjects(&nodes, "run", None, false, Some("lib/")).is_empty());
    assert!(query_subjects(&nodes, "other", None, true, None).is_empty());
}

#[test]
fn search_results_are_ranked_by_their_names() {
    assert_eq!(rank_of("render", "render"), 0);
    assert_eq!(rank_of("renderpage", "render"), 1);
    assert_eq!(rank_of("prerender", "render"), 2);
    assert_eq!(rank_of("draw", "render"), 3);

    let nodes = ["draw", "prerender", "render_page", "render", "render_all"]
        .map(|id| node(id, false))
        .into();
    let (found, more) = rank_search_results(nodes, "render", false, 4);
    let ids: Vec<&str> = found.iter().map(|node| node.id.as_str()).collect();
    assert_eq!(ids, vec!["render", "render_all", "render_page", "prerender"]);
    assert_eq!(more, 1);
}

#[test]
fn search_results_are_ranked_in_any_case() {
    let nodes = ["Xray", "prElan", "\u{c9}LAN_vital", "\u{c9}lan"]
        .map(|id| node(id, false))
        .into();
    let (found, more) = rank_search_results(nodes, "\u{e9}LAN", false, 10);
    let ids: Vec<&str> = found.iter().map(|node| node.id.as_str()).collect();
    assert_eq!(
        ids,
        vec!["\u{c9}lan", "\u{c9}LAN_vital", "Xray", "prElan"]
    );
    assert_eq!(more, 0);
}
