//! Indexing files, and indexing them again after a change.

use ochna::commands::index::runs::index_file;
use ochna::commands::index::{
    affected_sources, calls_to_replay, can_index, edge_owner, edges_to_drop, edges_to_store,
    files_to_prune, is_modified, language_for_path, parse_commit, should_skip_dir,
    worktree_status, ChangedSymbols,
};
use ochna::db::refs::get_unresolved_source_ids_by_specifier_simple;
use ochna::db::schema::{is_outdated, schema_matches, SCHEMA_VERSION};
use ochna::db::{Edge, FileMetadata, Node, RawCall, UnresolvedRef};
use ochna::parser::edge_order::canonical_edges;
use ochna::parser::interner::SymbolIndex;
use ochna::parser::resolve::resolve_calls_global;

type Files = Vec<(&'static str, &'static str)>;

struct Index {
    nodes: Vec<Node>,
    calls: Vec<RawCall>,
    edges: Vec<Edge>,
    unresolved: Vec<UnresolvedRef>,
}

fn parse(path: &str, content: &str) -> (Vec<Node>, Vec<RawCall>) {
    index_file(path, content).unwrap()
}

fn build(files: &Files) -> Index {
    let mut nodes = Vec::new();
    let mut calls = Vec::new();
    for (path, content) in files {
        let (found, made) = parse(path, content);
        nodes.extend(found);
        calls.extend(made);
    }
    let index = SymbolIndex::from_nodes(&nodes);
    let (edges, unresolved) = resolve_calls_global(&calls, &index);
    let edges = edges_to_store(&edges, &index);
    Index {
        nodes,
        calls,
        edges,
        unresolved,
    }
}

/// Bring an index up to date with changed files, resolving only what they affect.
fn sync(old: &Index, before: &Files, after: &Files) -> Index {
    let mut changed = ChangedSymbols::new();
    let is_same = |file: &(&str, &str), files: &Files| {
        files.iter().any(|other| other.0 == file.0 && other.1 == file.1)
    };
    for file in before.iter().filter(|file| !is_same(file, after)) {
        let (found, _) = parse(file.0, file.1);
        changed.note_all(&found);
    }
    let mut nodes = Vec::new();
    let mut calls = Vec::new();
    for file in after {
        let (found, made) = parse(file.0, file.1);
        if !is_same(file, before) {
            changed.note_all(&found);
        }
        nodes.extend(found);
        calls.extend(made);
    }
    let sources = affected_sources(&changed, &calls, &old.unresolved);
    let replayed = calls_to_replay(&calls, &sources);
    let index = SymbolIndex::from_nodes(&nodes);
    let (edges, unresolved) = resolve_calls_global(&replayed, &index);
    let mut edges = edges_to_store(&edges, &index);
    let dropped = edges_to_drop(&old.edges, &sources);
    edges.extend(
        old.edges
            .iter()
            .filter(|edge| !dropped.contains(edge))
            .cloned(),
    );
    let mut open = unresolved;
    open.extend(
        old.unresolved
            .iter()
            .filter(|reference| !sources.contains(&reference.source_id))
            .cloned(),
    );
    Index {
        nodes,
        calls,
        edges: canonical_edges(&edges),
        unresolved: open,
    }
}

/// What a later run stores is what a run over everything stores.
fn assert_runs_agree(before: &Files, after: &Files) {
    let synced = sync(&build(before), before, after);
    let full = build(after);
    assert_eq!(synced.edges, canonical_edges(&full.edges));
    let texts = |index: &Index| {
        let mut found: Vec<String> = index
            .unresolved
            .iter()
            .map(|reference| format!("{reference:?}"))
            .collect();
        found.sort();
        found
    };
    assert_eq!(texts(&synced), texts(&full));
    assert_eq!(synced.calls, full.calls);
}

fn has_edge(index: &Index, source: &str, target: &str) -> bool {
    index
        .edges
        .iter()
        .any(|edge| edge.source_id == source && edge.target_id == target)
}

fn open_references(index: &Index, specifier: &str) -> usize {
    index
        .unresolved
        .iter()
        .filter(|reference| reference.specifier == specifier)
        .count()
}

#[test]
fn test_cross_file_edges_and_unresolved() {
    // a.rs calls target() (defined in b.rs) and missing() (defined nowhere).
    let index = build(&vec![
        (
            "src/a.rs",
            "fn caller() {\n    target();\n    missing();\n}\n",
        ),
        ("src/b.rs", "fn target() {}\n"),
    ]);

    // A call edge must cross the file boundary: src/a.rs::caller -> src/b.rs::target.
    let file_of = |id: &String| {
        index
            .nodes
            .iter()
            .find(|node| &node.id == id)
            .unwrap()
            .file_path
            .clone()
    };
    let cross_file = index
        .edges
        .iter()
        .filter(|edge| file_of(&edge.source_id) != file_of(&edge.target_id))
        .count();
    assert_eq!(cross_file, 1, "expected one cross-file call edge");

    // The call to an unindexed symbol must be recorded as an unresolved reference.
    assert_eq!(
        open_references(&index, "missing"),
        1,
        "expected one unresolved reference"
    );
}

#[test]
fn test_incremental_sync_re_resolves_unmodified_incoming_callers() {
    let caller = "fn caller() {\n    target();\n    local_keep();\n}\nfn local_keep() {}\n";
    let before = vec![("src/a.rs", caller), ("src/b.rs", "fn target() {}\n")];
    let after = vec![
        ("src/a.rs", caller),
        ("src/b.rs", "fn other() {}\n"),
        ("src/c.rs", "fn target() {}\n"),
    ];
    let synced = sync(&build(&before), &before, &after);
    assert!(
        has_edge(&synced, "src/a.rs::caller", "src/c.rs::target"),
        "unmodified caller should point at new target"
    );
    assert!(
        !has_edge(&synced, "src/a.rs::caller", "src/b.rs::target"),
        "stale target edge should be removed"
    );
    assert!(
        has_edge(&synced, "src/a.rs::caller", "src/a.rs::local_keep"),
        "other edges from the source are reinserted"
    );
}

#[test]
fn test_incremental_sync_re_resolves_matching_unresolved_refs() {
    let before = vec![("src/a.rs", "fn caller() {\n    missing();\n}\n")];
    let index = build(&before);
    assert_eq!(open_references(&index, "missing"), 1);

    let after = vec![
        ("src/a.rs", "fn caller() {\n    missing();\n}\n"),
        ("src/b.rs", "fn missing() {}\n"),
    ];
    let synced = sync(&index, &before, &after);
    assert!(has_edge(&synced, "src/a.rs::caller", "src/b.rs::missing"));
    assert_eq!(open_references(&synced, "missing"), 0);
}

#[test]
fn selective_runs_find_what_full_runs_find() {
    let before = vec![
        ("src/a.rs", "fn a() { b(); c(); }\n"),
        ("src/b.rs", "fn b() { c(); gone(); }\n"),
        ("src/c.rs", "fn c() {}\nfn gone() {}\n"),
        ("src/d.rs", "fn d() { a(); }\n"),
    ];
    let after = vec![
        ("src/a.rs", "fn a() { b(); c(); }\n"),
        ("src/b.rs", "fn b() { c(); gone(); }\n"),
        ("src/c.rs", "fn c() { d(); }\n"),
        ("src/d.rs", "fn d() { a(); }\n"),
    ];
    assert_runs_agree(&before, &after);
}

#[test]
fn chained_calls_at_one_place_are_all_replayed() {
    // Both calls of `next` begin where `first` does, and only their receivers differ.
    let before = vec![
        (
            "src/A.java",
            "package app;\nclass A {\n  void m(First first) { first.next().next(); }\n}\n",
        ),
        (
            "src/First.java",
            "package app;\nclass First {\n  Second next() { return null; }\n}\n",
        ),
        (
            "src/Second.java",
            "package other;\nclass Second {\n  void next() {}\n}\n",
        ),
        ("src/B.java", "package b;\nclass B {\n  void other() {}\n}\n"),
    ];
    let mut after = before.clone();
    after[2].1 = "package other;\nclass Second {\n  void next() { gone(); }\n}\n";
    let full = build(&after);
    let chained: Vec<&RawCall> = full
        .calls
        .iter()
        .filter(|call| call.callee_name == "next")
        .collect();
    assert_eq!(chained.len(), 2);
    assert_eq!(
        (chained[0].line, chained[0].column),
        (chained[1].line, chained[1].column)
    );
    assert_ne!(chained[0].receiver_expr, chained[1].receiver_expr);
    assert!(has_edge(
        &full,
        "src/A.java::app::A::m",
        "src/First.java::app::First::next"
    ));
    assert_runs_agree(&before, &after);
}

#[test]
fn reversed_relations_survive_a_later_run() {
    // The change affects the injected class alone, not the one that it is injected into.
    let before = vec![
        (
            "src/Orders.java",
            "package app;\n@Service\nclass Orders {\n  @Autowired\n  private Mailer mailer;\n}\n",
        ),
        (
            "src/Mailer.java",
            "package app;\n@Service\nclass Mailer {\n  @Autowired\n  private Clock clock;\n  void send() {}\n}\n",
        ),
        ("src/Clock.java", "package app;\nclass Clock {\n  void tick() {}\n}\n"),
    ];
    let mut after = before.clone();
    after[2].1 = "package app;\nclass Clock {\n  void tick() {}\n  void tock() {}\n}\n";
    let full = build(&after);
    assert!(full.edges.contains(&Edge {
        source_id: "src/Mailer.java::app::Mailer".to_string(),
        target_id: "src/Orders.java::app::Orders".to_string(),
        kind: "injected_into".to_string(),
        resolution_kind: 6,
    }));
    assert!(full.edges.contains(&Edge {
        source_id: "src/Clock.java::app::Clock".to_string(),
        target_id: "src/Mailer.java::app::Mailer".to_string(),
        kind: "injected_into".to_string(),
        resolution_kind: 6,
    }));
    assert_runs_agree(&before, &after);
}

#[test]
fn edges_are_dropped_with_the_symbol_that_records_them() {
    let edge = |source: &str, target: &str, kind: &str| Edge {
        source_id: source.to_string(),
        target_id: target.to_string(),
        kind: kind.to_string(),
        resolution_kind: 0,
    };
    let edges = vec![
        edge("a", "b", "calls"),
        edge("b", "a", "calls"),
        edge("a", "b", "injected_into"),
        edge("b", "a", "injected_into"),
        edge("b", "a", "consumes_event"),
        edge("a", "c", "publishes_event"),
    ];
    assert_eq!(
        edges_to_drop(&edges, &vec!["a".to_string()]),
        vec![
            edge("a", "b", "calls"),
            edge("b", "a", "injected_into"),
            edge("b", "a", "consumes_event"),
            edge("a", "c", "publishes_event"),
        ]
    );
    assert_eq!(edge_owner(&edges[2]), "b");
    assert_eq!(edge_owner(&edges[0]), "a");
    assert!(edges_to_drop(&edges, &vec![]).is_empty());
}

#[test]
fn calls_are_replayed_as_they_stand() {
    let first = RawCall::new("a".to_string(), "f".to_string(), 1, 2);
    let mut second = first.clone();
    second.receiver_expr = Some("x".to_string());
    let other = RawCall::new("b".to_string(), "f".to_string(), 1, 2);
    let calls = vec![first.clone(), second.clone(), other, first.clone()];
    assert_eq!(
        calls_to_replay(&calls, &vec!["a".to_string()]),
        vec![first.clone(), second, first]
    );
    assert!(calls_to_replay(&calls, &vec![]).is_empty());
}

#[test]
fn sources_that_name_a_changed_symbol_are_affected() {
    let mut changed = ChangedSymbols::new();
    changed.note("new.rs::f", "f");
    let calls = vec![
        RawCall::new("caller".to_string(), "T::f".to_string(), 1, 1),
        RawCall::new("quiet".to_string(), "g".to_string(), 1, 1),
    ];
    let references = vec![UnresolvedRef {
        id: None,
        source_id: "open".to_string(),
        specifier: "m::f".to_string(),
        kind: "calls".to_string(),
        line: 1,
        column: 1,
    }];
    let mut sources = affected_sources(&changed, &calls, &references);
    sources.sort();
    assert_eq!(sources, vec!["caller", "new.rs::f", "open"]);
    assert_eq!(
        get_unresolved_source_ids_by_specifier_simple(&references, "f"),
        vec!["open"]
    );
    assert!(get_unresolved_source_ids_by_specifier_simple(&references, "m").is_empty());
}

#[test]
fn edges_are_stored_between_known_symbols_only() {
    let (nodes, _) = parse("a.rs", "fn a() {}\nfn b() {}\n");
    let index = SymbolIndex::from_nodes(&nodes);
    let edge = |source: &str, target: &str| Edge {
        source_id: source.to_string(),
        target_id: target.to_string(),
        kind: "calls".to_string(),
        resolution_kind: 5,
    };
    let edges = vec![
        edge("a.rs::a", "a.rs::b"),
        edge("a.rs::a", "a.rs::c"),
        edge("c", "a.rs::b"),
    ];
    assert_eq!(
        edges_to_store(&edges, &index),
        vec![edge("a.rs::a", "a.rs::b")]
    );
}

#[test]
fn library_directories_are_walked_on_request_only() {
    for name in ["target", "node_modules", "vendor", "build", "dist", ".venv"] {
        assert!(should_skip_dir(name, false), "{name}");
        assert!(!should_skip_dir(name, true), "{name}");
    }
    for name in [".git", ".ochna", "clones"] {
        assert!(should_skip_dir(name, true), "{name}");
    }
    assert!(!should_skip_dir("src", false));
}

#[test]
fn languages_follow_extensions() {
    for (path, language) in [
        ("src/main.rs", "rust"),
        ("main.go", "go"),
        ("App.java", "java"),
        ("main.c", "c"),
        ("main.h", "c"),
        ("main.CPP", "cpp"),
        ("main.hxx", "cpp"),
        ("main.zig", "zig"),
    ] {
        assert_eq!(language_for_path(path), Some(language));
    }
    assert_eq!(language_for_path("tool.py"), None);
    assert_eq!(language_for_path("rs"), None);
    assert_eq!(language_for_path(".rs"), None);
}

#[test]
fn only_readable_files_of_a_known_language_can_be_indexed() {
    assert!(can_index("a.rs", Some("fn a() {}")));
    assert!(!can_index("a.rs", None));
    assert!(!can_index("a.py", Some("def a(): pass")));
}

#[test]
fn files_are_modified_if_anything_stored_of_them_differs() {
    let stored = FileMetadata {
        file_path: "a.rs".to_string(),
        content_hash: "ab".to_string(),
        language: Some("rust".to_string()),
        size_bytes: Some(10),
        last_modified: Some(20),
    };
    assert!(!is_modified(Some(&stored), "ab", 10, 20));
    assert!(is_modified(Some(&stored), "ac", 10, 20));
    assert!(is_modified(Some(&stored), "ab", 11, 20));
    assert!(is_modified(Some(&stored), "ab", 10, 21));
    assert!(is_modified(None, "ab", 10, 20));
}

#[test]
fn files_that_are_gone_are_pruned() {
    let texts = |names: &[&str]| names.iter().map(|name| name.to_string()).collect::<Vec<_>>();
    assert_eq!(
        files_to_prune(&texts(&["a", "b", "c"]), &texts(&["b", "d"])),
        texts(&["a", "c"])
    );
}

#[test]
fn commits_are_read_by_their_fields() {
    let commit = parse_commit("abc|Fix it|2024-01-02");
    assert_eq!(commit.sha.as_deref(), Some("abc"));
    assert_eq!(commit.subject.as_deref(), Some("Fix it"));
    assert_eq!(commit.date.as_deref(), Some("2024-01-02"));
    let short = parse_commit("abc");
    assert_eq!(short.sha.as_deref(), Some("abc"));
    assert_eq!(short.subject, None);
    assert_eq!(worktree_status(" \n"), "clean");
    assert_eq!(worktree_status(" M src/a.rs\n"), "dirty");
}

#[test]
fn older_indexes_are_dropped() {
    assert!(schema_matches(Some(SCHEMA_VERSION)));
    assert!(!schema_matches(None));
    assert!(!schema_matches(Some(SCHEMA_VERSION + 1)));
    assert!(is_outdated(Some(SCHEMA_VERSION - 1)));
    assert!(!is_outdated(Some(SCHEMA_VERSION)));
    assert!(!is_outdated(None));
}

#[test]
fn files_are_stored_with_one_symbol_for_each_id() {
    let source = "struct A;\nimpl A {\n    fn f() { g(); }\n}\nfn g() {}\nfn g() { h(); }\n";
    let (nodes, calls) = index_file("src/a.rs", source).unwrap();
    let ids: Vec<&str> = nodes.iter().map(|node| node.id.as_str()).collect();
    assert_eq!(ids, vec!["src/a.rs::A", "src/a.rs::A::f", "src/a.rs::g"]);
    assert_eq!(nodes[2].start_line, 6);
    assert_eq!(calls.len(), 2);
    assert!(calls.iter().all(|call| ids.contains(&call.caller_id.as_str())));
    assert!(index_file("notes.txt", "fn a() {}").is_none());
}

#[test]
fn files_are_resolved_alike_in_any_order() {
    let files: Files = vec![
        ("src/a.rs", "fn a() { b(); c(); }\nfn c() {}\nmod m { fn c() {} }\n"),
        ("src/b.rs", "fn b() { c(); gone(); }\n"),
        ("src/d.rs", "struct D;\nimpl D { fn c() { Self::e(); } fn e() {} }\n"),
    ];
    let mut turned = files.clone();
    turned.reverse();
    let first = build(&files);
    let second = build(&turned);
    assert_eq!(first.edges, second.edges);
    let open = |index: &Index| {
        let mut found: Vec<String> = index
            .unresolved
            .iter()
            .map(|reference| format!("{reference:?}"))
            .collect();
        found.sort();
        found
    };
    assert_eq!(open(&first), open(&second));
    assert!(!first.edges.is_empty() && !first.unresolved.is_empty());
}

#[test]
fn added_and_deleted_files_leave_no_trace_of_the_old_index() {
    let before: Files = vec![
        ("src/a.rs", "fn a() { target(); }\n"),
        ("src/old.rs", "fn target() { helper(); }\n"),
        ("src/helper.rs", "fn helper() {}\n"),
    ];
    let after: Files = vec![
        ("src/new.rs", "fn target() { helper(); }\n"),
        ("src/helper.rs", "fn helper() {}\n"),
        ("src/a.rs", "fn a() { target(); }\n"),
    ];
    assert_runs_agree(&before, &after);
    let synced = sync(&build(&before), &before, &after);
    assert!(has_edge(&synced, "src/a.rs::a", "src/new.rs::target"));
    assert!(!has_edge(&synced, "src/a.rs::a", "src/old.rs::target"));
}
