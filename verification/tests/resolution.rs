//! How calls find their targets.

use ochna::commands::snapshot::graph_snapshot;
use ochna::db::{Edge, Node, RawCall};
use ochna::parser::edge_order::canonical_edges;
use ochna::parser::interner::{parent_namespace, StringInterner, SymbolIndex};
use ochna::parser::resolve::{
    call_namespace_and_simple_name, cand_qname_ends_with_ns_and_name, candidate_owner_matches,
    candidate_package_matches, matches_exact_qualified, matches_import_hint,
    records_relation, resolve_calls_global, resolve_calls_local,
};
use ochna::parser::syntax::{read_tree, Grammar};
use ochna::parser::{grammar_for, parse_code, ParseError};

fn node(path: &str, qualified: &str) -> Node {
    let name = qualified.rsplit("::").next().unwrap();
    Node {
        id: format!("{path}::{qualified}"),
        name: name.to_string(),
        kind: "function".to_string(),
        qualified_name: Some(qualified.to_string()),
        file_path: path.to_string(),
        start_line: 1,
        end_line: 1,
        start_column: 0,
        end_column: 0,
        signature: None,
        doc_comment: None,
        is_test: false,
        resolution_kind: None,
        confidence: None,
    }
}

fn call(caller: &str, callee: &str) -> RawCall {
    RawCall::new(caller.to_string(), callee.to_string(), 1, 1)
}

/// The targets of one call, with their tiers.
fn targets(nodes: &[Node], call: RawCall) -> Vec<(String, i64)> {
    let index = SymbolIndex::from_nodes(nodes);
    let (edges, unresolved) = resolve_calls_global(&[call], &index);
    assert_eq!(edges.is_empty(), !unresolved.is_empty());
    edges
        .into_iter()
        .map(|edge| (edge.target_id, edge.resolution_kind))
        .collect()
}

#[test]
fn imports_name_their_targets_exactly() {
    let nodes = [
        node("src/a.java", "app::T::run"),
        node("src/b.java", "lib::T::run"),
        node("src/c.java", "app::Main::main"),
    ];
    let mut made = call("src/c.java::app::Main::main", "run");
    made.import_hint = Some("lib.T".to_string());
    assert_eq!(
        targets(&nodes, made),
        vec![("src/b.java::lib::T::run".to_string(), 5)]
    );
}

#[test]
fn receivers_lead_to_their_types() {
    let nodes = [
        node("src/a.java", "app::Dog::run"),
        node("src/b.java", "app::Cat::run"),
        node("src/c.java", "app::Main::main"),
    ];
    let mut made = call("src/c.java::app::Main::main", "run");
    made.receiver_type = Some("Cat".to_string());
    assert_eq!(
        targets(&nodes, made.clone()),
        vec![("src/b.java::app::Cat::run".to_string(), 4)]
    );
    made.import_hint = Some("src.b".to_string());
    assert_eq!(
        targets(&nodes, made),
        vec![("src/b.java::app::Cat::run".to_string(), 5)]
    );
}

#[test]
fn packages_and_namespaces_narrow_the_candidates() {
    let nodes = [
        node("src/a.java", "one::run"),
        node("src/b.java", "two::run"),
        node("src/c.java", "three::main"),
    ];
    let mut made = call("src/c.java::three::main", "run");
    made.package_or_namespace = Some("two".to_string());
    assert_eq!(
        targets(&nodes, made),
        vec![("src/b.java::two::run".to_string(), 3)]
    );
    assert_eq!(
        targets(&nodes, call("src/c.java::three::main", "one::run")),
        vec![("src/a.java::one::run".to_string(), 3)]
    );
}

#[test]
fn callers_prefer_their_own_namespace_and_file() {
    let nodes = [
        node("src/a.rs", "T::run"),
        node("src/a.rs", "T::start"),
        node("src/b.rs", "run"),
        node("src/b.rs", "start"),
    ];
    assert_eq!(
        targets(&nodes, call("src/a.rs::T::start", "run")),
        vec![("src/a.rs::T::run".to_string(), 2)]
    );
    assert_eq!(
        targets(&nodes, call("src/b.rs::start", "run")),
        vec![("src/b.rs::run".to_string(), 1)]
    );
}

#[test]
fn a_name_alone_leads_to_the_only_bearer() {
    let one = [node("src/a.rs", "run"), node("src/b.rs", "main")];
    assert_eq!(
        targets(&one, call("src/b.rs::main", "run")),
        vec![("src/a.rs::run".to_string(), 0)]
    );
    let two = [
        node("src/a.rs", "run"),
        node("src/c.rs", "run"),
        node("src/b.rs", "main"),
    ];
    assert!(targets(&two, call("src/b.rs::main", "run")).is_empty());
    assert!(targets(&two, call("src/b.rs::main", "walk")).is_empty());
}

fn relation(caller: &str, callee: &str, kind: &str, tier: i64) -> RawCall {
    let mut made = call(caller, callee);
    made.relationship_kind = kind.to_string();
    made.resolution_hint = Some(tier);
    made
}

fn edge(source: &str, target: &str, kind: &str, resolution_kind: i64) -> Edge {
    Edge {
        source_id: source.to_string(),
        target_id: target.to_string(),
        kind: kind.to_string(),
        resolution_kind,
    }
}

#[test]
fn relations_lead_to_the_qualified_name_they_were_recorded_with() {
    let nodes = [
        node("src/a.java", "app::Client::find"),
        node("src/b.java", "grpc::Users::find"),
        node("src/c.java", "other::find"),
    ];
    let index = SymbolIndex::from_nodes(&nodes);
    let mut made = relation("src/a.java::app::Client::find", "find", "grpc_calls", 8);
    made.target_qualified_hint = Some("grpc::Users::find".to_string());
    // The receiver would lead a plain call to the client itself.
    made.receiver_type = Some("Client".to_string());
    assert!(records_relation(&made));
    let (edges, unresolved) = resolve_calls_global(&[made.clone()], &index);
    assert_eq!(
        edges,
        vec![edge(
            "src/a.java::app::Client::find",
            "src/b.java::grpc::Users::find",
            "grpc_calls",
            8
        )]
    );
    assert!(unresolved.is_empty());

    made.target_qualified_hint = Some("grpc::Orders::find".to_string());
    let (edges, unresolved) = resolve_calls_global(&[made], &index);
    assert!(edges.is_empty());
    assert_eq!(unresolved.len(), 1);
    assert_eq!(unresolved[0].kind, "grpc_calls");
    assert_eq!(unresolved[0].specifier, "grpc::Orders::find");
    assert_eq!(unresolved[0].source_id, "src/a.java::app::Client::find");
}

#[test]
fn reversed_relations_lead_from_their_target() {
    let nodes = [
        node("src/a.java", "app::Orders"),
        node("src/b.java", "app::Mailer"),
        node("src/c.java", "other::Mailer"),
        node("src/d.java", "other::Clock"),
    ];
    let index = SymbolIndex::from_nodes(&nodes);
    let mut mailer = relation("src/a.java::app::Orders", "Mailer", "injected_into", 7);
    mailer.reverse_edge = true;
    // The only bearer of the name stands in another package.
    let mut clock = relation("src/a.java::app::Orders", "Clock", "injected_into", 7);
    clock.reverse_edge = true;
    let mut gone = relation("src/a.java::app::Orders", "Gone", "injected_into", 7);
    gone.reverse_edge = true;
    let (edges, unresolved) = resolve_calls_global(&[mailer, clock, gone], &index);
    assert_eq!(
        edges,
        vec![
            edge(
                "src/b.java::app::Mailer",
                "src/a.java::app::Orders",
                "injected_into",
                7
            ),
            edge(
                "src/d.java::other::Clock",
                "src/a.java::app::Orders",
                "injected_into",
                7
            ),
        ]
    );
    assert_eq!(unresolved.len(), 1);
    assert_eq!(unresolved[0].kind, "injected_into");
    assert_eq!(unresolved[0].specifier, "Gone");
}

#[test]
fn relations_without_a_named_target_resolve_as_calls_do() {
    let nodes = [
        node("src/a.java", "app::Orders::place"),
        node("src/b.java", "app::Placed"),
        node("src/c.java", "app::Orders::Placed"),
        node("src/d.java", "one::Twice"),
        node("src/e.java", "two::Twice"),
    ];
    let caller = "src/a.java::app::Orders::place";
    for name in ["Placed", "Twice", "place"] {
        let related = targets(&nodes, relation(caller, name, "publishes_event", 7));
        let called = targets(&nodes, call(caller, name));
        assert_eq!(related.len(), called.len());
        for (found, plain) in related.iter().zip(&called) {
            assert_eq!(found, &(plain.0.clone(), 7));
        }
    }
    assert_eq!(
        targets(&nodes, relation(caller, "Placed", "publishes_event", 7)),
        vec![("src/c.java::app::Orders::Placed".to_string(), 7)]
    );
    assert!(targets(&nodes, relation(caller, "Twice", "publishes_event", 7)).is_empty());
    let mut unranked = relation(caller, "Placed", "publishes_event", 7);
    unranked.resolution_hint = None;
    assert_eq!(
        targets(&nodes, unranked),
        vec![("src/c.java::app::Orders::Placed".to_string(), 2)]
    );
}

#[test]
fn handlers_of_routes_are_resolved_as_calls() {
    let nodes = [node("src/a.java", "app::Owners::show")];
    let index = SymbolIndex::from_nodes(&nodes);
    let mut made = relation("route", "app::Owners::show", "route_handler", 6);
    made.target_qualified_hint = Some("app::Owners::show".to_string());
    assert!(!records_relation(&made));
    let (edges, _) = resolve_calls_global(&[made], &index);
    assert_eq!(edges.len(), 1);
    assert_eq!(edges[0].kind, "calls");
    assert_eq!(edges[0].resolution_kind, 3);
}

#[test]
fn local_resolution_stays_among_the_given_symbols() {
    let nodes = [node("src/a.rs", "a"), node("src/b.rs", "b")];
    let calls = [call("src/a.rs::a", "b"), call("src/a.rs::a", "c")];
    let local = resolve_calls_local(&nodes, &calls);
    assert_eq!(local, vec![edge("src/a.rs::a", "src/b.rs::b", "calls", 0)]);
    assert_eq!(
        local,
        resolve_calls_global(&calls, &SymbolIndex::from_nodes(&nodes)).0
    );
    assert!(resolve_calls_local(&[], &calls).is_empty());
}

#[test]
fn unresolved_calls_keep_their_place() {
    let nodes = [node("src/a.rs", "main")];
    let index = SymbolIndex::from_nodes(&nodes);
    let made = RawCall::new("src/a.rs::main".to_string(), "x::gone".to_string(), 7, 3);
    let (edges, unresolved) = resolve_calls_global(&[made], &index);
    assert!(edges.is_empty());
    assert_eq!(unresolved.len(), 1);
    assert_eq!(unresolved[0].specifier, "x::gone");
    assert_eq!(unresolved[0].kind, "calls");
    assert_eq!((unresolved[0].line, unresolved[0].column), (7, 3));
}

#[test]
fn rules_of_resolution_compare_names_part_by_part() {
    assert!(matches_exact_qualified("lib::T::run", "lib.T", "run"));
    assert!(!matches_exact_qualified("lib::T::run", "lib", "run"));
    assert!(!matches_exact_qualified("lib::T::rerun", "lib.T", "run"));
    assert!(candidate_owner_matches("app::Cat::run", "Cat"));
    assert!(!candidate_owner_matches("app::BobCat::run", "Cat"));
    assert!(!candidate_owner_matches("run", "Cat"));
    assert!(matches_import_hint("src/app/lib/T.java", "app.lib.T"));
    assert!(!matches_import_hint("src/app/lib/T.java", "app.other"));
    assert!(matches_import_hint("src/a.rs", ""));
    assert!(cand_qname_ends_with_ns_and_name("a::b::run", "b", "run"));
    assert!(!cand_qname_ends_with_ns_and_name("run", "b", "run"));
    assert!(candidate_package_matches("app::T::run", "app"));
    assert!(!candidate_package_matches("app::T::run", "ap"));
    assert_eq!(
        call_namespace_and_simple_name("a::b::c"),
        (Some("b".to_string()), "c".to_string())
    );
    assert_eq!(call_namespace_and_simple_name("c"), (None, "c".to_string()));
    assert_eq!(parent_namespace("a::b::c").as_deref(), Some("b"));
    assert_eq!(parent_namespace("c"), None);
}

#[test]
fn equal_texts_are_interned_once() {
    let mut interner = StringInterner::default();
    let first = interner.intern("a");
    let second = interner.intern("b");
    assert_eq!(interner.intern("a"), first);
    assert_ne!(first, second);
    assert_eq!(interner.resolve(second), "b");
    assert_eq!(interner.into_strings(), vec!["a", "b"]);
}

#[test]
fn edges_are_merged_into_the_strongest() {
    let edge = |source: &str, target: &str, resolution_kind: i64| Edge {
        source_id: source.to_string(),
        target_id: target.to_string(),
        kind: "calls".to_string(),
        resolution_kind,
    };
    let merged = canonical_edges(&vec![
        edge("b", "c", 1),
        edge("a", "c", 0),
        edge("b", "c", 4),
        edge("a", "b", 2),
    ]);
    assert_eq!(
        merged,
        vec![edge("a", "b", 2), edge("a", "c", 0), edge("b", "c", 4)]
    );
}

#[test]
fn snapshots_are_in_order() {
    let edge = |source: &str, target: &str, resolution_kind: i64| Edge {
        source_id: source.to_string(),
        target_id: target.to_string(),
        kind: "calls".to_string(),
        resolution_kind,
    };
    let graph = graph_snapshot(
        vec![node("b.rs", "b"), node("a.rs", "a")],
        &vec![edge("b.rs::b", "a.rs::a", 5), edge("a.rs::a", "b.rs::b", 1)],
        &vec![],
    );
    let ids: Vec<&str> = graph.nodes.iter().map(|node| node.id.as_str()).collect();
    assert_eq!(ids, vec!["a.rs::a", "b.rs::b"]);
    assert_eq!(graph.edges[0].resolution_kind, "same_file");
    assert_eq!(graph.edges[0].confidence, 60);
    assert_eq!(graph.edges[1].confidence, 100);
}

#[test]
fn languages_that_are_not_supported_are_refused() {
    let error = parse_code("a.py", "def a(): pass", "python").unwrap_err();
    assert_eq!(error, ParseError::UnsupportedLanguage("python".to_string()));
    assert_eq!(error.message(), "Unsupported language: python");
    assert!(grammar_for("python").is_none());
    assert!(grammar_for("zig").is_some());
    assert!(!ParseError::IncompatibleGrammar.message().is_empty());
    assert!(!ParseError::ParseFailed.message().is_empty());
}

#[test]
fn trees_hold_the_text_of_their_nodes() {
    let tree = read_tree(Grammar::Rust, "fn \u{e9}() { a(); }").unwrap();
    assert!(tree.is_kind(0, "source_file"));
    let function = tree.find_child_by_kind(0, "function_item").unwrap();
    let name = tree.child_by_field_name(function, "name").unwrap();
    assert_eq!(tree.text(name), "\u{e9}");
    assert_eq!(tree.parent(name), Some(function));
    assert_eq!(tree.text(function), "fn \u{e9}() { a(); }");
    let calls = tree.descendants_of_kind(0, "call_expression");
    assert_eq!(calls.len(), 1);
    assert_eq!(tree.text(calls[0]), "a()");
    assert_eq!(tree.node(calls[0]).start_row, 0);
}
