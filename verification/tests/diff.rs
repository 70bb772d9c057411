//! What Git says of a change, and what it means for the graph.

use ochna::commands::changes::{
    cap_changed_files, changed_files_arguments, git_range, parse_changed_files, parse_hunks,
    patch_arguments, revision_arguments, workspace_relative, ChangedFile, Hunk, MAX_CHANGED_FILES,
};
use ochna::commands::diff::{compare, limit_report, nodes_for_path, Comparison, DiffReport};
use ochna::commands::snapshot::{graph_snapshot, GraphSnapshot, StoredReference};
use ochna::db::{Edge, Node};

#[test]
fn parses_new_ranges_and_preserves_deleted_file_paths() {
    let hunks = parse_hunks(
        "diff --git a/src/lib.rs b/src/lib.rs\n--- a/src/lib.rs\n+++ b/src/lib.rs\n@@ -1,7 +1,3 @@\n-pub fn legacy_render(input: &str) -> String {\n-    format!(\"legacy:{input}\")\n-}\n-\n pub fn render(input: &str) -> String {\n-    legacy_render(input)\n+    format!(\"rendered:{input}\")\n }\n",
    );
    assert_eq!(hunks.len(), 1);
    assert_eq!(hunks[0].path, "src/lib.rs");
    assert_eq!(hunks[0].new_start, 1);
    assert_eq!(hunks[0].new_count, 3);

    let deleted = parse_hunks("diff --git a/src/old.rs b/src/old.rs\n--- a/src/old.rs\n+++ /dev/null\n@@ -2,2 +0,0 @@\n-fn old() {}\n-\n");
    assert_eq!(deleted[0].path, "src/old.rs");
    assert_eq!(deleted[0].new_count, 0);
}

#[test]
fn caps_and_deduplicates_changed_files_in_path_order() {
    let mut files = (0..=MAX_CHANGED_FILES)
        .rev()
        .map(|number| ChangedFile {
            path: format!("src/{number:03}.rs"),
            status: "modified",
        })
        .collect::<Vec<_>>();
    files.push(ChangedFile {
        path: "src/000.rs".to_string(),
        status: "modified",
    });
    assert!(cap_changed_files(&mut files));
    assert_eq!(files.len(), MAX_CHANGED_FILES);
    assert_eq!(files.first().unwrap().path, "src/000.rs");
    assert_eq!(files.last().unwrap().path, "src/499.rs");
}

#[test]
fn few_changed_files_are_all_kept() {
    let mut files = vec![
        ChangedFile {
            path: "b.rs".to_string(),
            status: "added",
        },
        ChangedFile {
            path: "a.rs".to_string(),
            status: "deleted",
        },
    ];
    assert!(!cap_changed_files(&mut files));
    assert_eq!(files[0].path, "a.rs");
    assert_eq!(files[1].status, "added");
}

#[test]
fn git_is_asked_for_a_range() {
    assert_eq!(git_range("main", None), vec!["main"]);
    assert_eq!(git_range("main", Some("topic")), vec!["main", "topic"]);
    assert_eq!(
        changed_files_arguments("main", Some("topic")),
        vec!["diff", "--name-status", "-M", "--end-of-options", "main", "topic"]
    );
    assert_eq!(
        patch_arguments("main", None),
        vec!["diff", "--unified=0", "--no-ext-diff", "-M", "--end-of-options", "main"]
    );
    assert_eq!(
        revision_arguments("main"),
        vec!["rev-parse", "--verify", "--end-of-options", "main"]
    );
}

#[test]
fn changed_files_are_read_by_their_status() {
    let files = parse_changed_files("M\tsrc/b.rs\nR100\told.rs\tnew.rs\nA\tadded.rs\nD\tgone.rs\nT\tz.rs");
    let found: Vec<(&str, &str)> = files
        .iter()
        .map(|file| (file.path.as_str(), file.status))
        .collect();
    assert_eq!(
        found,
        vec![
            ("added.rs", "added"),
            ("gone.rs", "deleted"),
            ("new.rs", "renamed"),
            ("src/b.rs", "modified"),
            ("z.rs", "modified"),
        ]
    );
}

#[test]
fn hunks_without_a_count_cover_one_line() {
    let hunks = parse_hunks("--- /dev/null\n+++ b/a.rs\n@@ -0,0 +4 @@ fn a()\n+x\n@@ -1 +9,2 @@\n");
    assert_eq!(hunks.len(), 2);
    assert_eq!(
        (hunks[0].old_start, hunks[0].new_start, hunks[0].new_count),
        (0, 4, 1)
    );
    assert_eq!(
        (hunks[1].old_start, hunks[1].new_start, hunks[1].new_count),
        (1, 9, 2)
    );
    assert!(parse_hunks("@@ -1 +1 @@\n").is_empty());
}

#[test]
fn workspace_paths_do_not_leave_the_workspace() {
    assert!(workspace_relative("src/a.rs"));
    assert!(workspace_relative("src/..a.rs"));
    assert!(!workspace_relative("/src/a.rs"));
    assert!(!workspace_relative("../a.rs"));
    assert!(!workspace_relative("src/.."));
}

fn node(id: &str, path: &str, start_line: i64, end_line: i64) -> Node {
    Node {
        id: id.to_string(),
        name: id.to_string(),
        kind: "function".to_string(),
        qualified_name: Some(id.to_string()),
        file_path: path.to_string(),
        start_line,
        end_line,
        start_column: 0,
        end_column: 0,
        signature: None,
        doc_comment: None,
        is_test: false,
        resolution_kind: None,
        confidence: None,
    }
}

fn call(source: &str, target: &str, resolution_kind: i64) -> Edge {
    Edge {
        source_id: source.to_string(),
        target_id: target.to_string(),
        kind: "calls".to_string(),
        resolution_kind,
    }
}

fn reference(source: &str, path: &str, specifier: &str, line: i64) -> StoredReference {
    StoredReference {
        source: source.to_string(),
        path: path.to_string(),
        specifier: specifier.to_string(),
        kind: "calls".to_string(),
        line,
        candidates: 0,
    }
}

fn changed(path: &str, status: &'static str) -> ChangedFile {
    ChangedFile {
        path: path.to_string(),
        status,
    }
}

fn hunk(path: &str, old_start: i64, new_start: i64, new_count: i64) -> Hunk {
    Hunk {
        path: path.to_string(),
        old_start,
        new_start,
        new_count,
    }
}

fn earlier_graph() -> GraphSnapshot {
    graph_snapshot(
        vec![
            node("legacy", "src/lib.rs", 1, 3),
            node("render", "src/lib.rs", 5, 7),
        ],
        &vec![call("render", "legacy", 5)],
        &vec![],
    )
}

fn later_graph() -> GraphSnapshot {
    graph_snapshot(
        vec![
            node("render", "src/lib.rs", 1, 3),
            node("page", "src/lib.rs", 5, 7),
        ],
        &vec![call("page", "render", 5)],
        &vec![reference("render", "src/lib.rs", "format", 2)],
    )
}

fn changes(report: &DiffReport) -> Vec<(Option<String>, &'static str)> {
    report
        .symbols
        .iter()
        .map(|found| (found.symbol.as_ref().map(|node| node.id.clone()), found.change))
        .collect()
}

#[test]
fn differences_of_two_graphs_are_reported() {
    let earlier = earlier_graph();
    let later = later_graph();
    let report = compare(&Comparison {
        files: &vec![changed("src/lib.rs", "modified")],
        hunks: &vec![hunk("src/lib.rs", 1, 1, 3)],
        graph: &later,
        earlier: Some(&earlier),
        references: &vec![],
        named: false,
    });
    assert_eq!(
        changes(&report),
        vec![
            (Some("legacy".to_string()), "removed"),
            (Some("page".to_string()), "added"),
            (Some("render".to_string()), "modified"),
        ]
    );
    let edges: Vec<(String, String, &str)> = report
        .edges
        .iter()
        .map(|edge| {
            (
                edge.source.as_ref().unwrap().id.clone(),
                edge.target.as_ref().unwrap().id.clone(),
                edge.change,
            )
        })
        .collect();
    assert_eq!(
        edges,
        vec![
            ("page".to_string(), "render".to_string(), "added"),
            ("render".to_string(), "legacy".to_string(), "removed"),
        ]
    );
    assert_eq!(report.edges[0].confidence, 100);
    assert_eq!(report.unresolved.len(), 1);
    assert_eq!(report.unresolved[0].specifier, "format");
    assert_eq!(report.unresolved[0].reason, "missing_target");
    assert!(report.unmapped.is_empty());
    assert!(!report.needs_history);
}

#[test]
fn a_graph_shows_no_change_against_itself() {
    let graph = later_graph();
    let report = compare(&Comparison {
        files: &vec![],
        hunks: &vec![hunk("src/lib.rs", 1, 1, 3)],
        graph: &graph,
        earlier: Some(&graph),
        references: &vec![],
        named: false,
    });
    assert!(report.symbols.is_empty());
    assert!(report.edges.is_empty());
    assert!(report.unresolved.is_empty());
    assert!(report.unmapped.is_empty());
}

#[test]
fn hunks_touch_the_symbols_on_their_lines() {
    let graph = later_graph();
    let report = compare(&Comparison {
        files: &vec![changed("src/lib.rs", "modified")],
        hunks: &vec![
            hunk("src/lib.rs", 2, 2, 1),
            hunk("src/lib.rs", 4, 4, 1),
            hunk("src/lib.rs", 9, 8, 0),
            hunk("other.rs", 1, 1, 1),
        ],
        graph: &graph,
        earlier: None,
        references: &vec![
            reference("render", "src/lib.rs", "format", 2),
            reference("render", "src/lib.rs", "later", 3),
            reference("page", "src/lib.rs", "format", 2),
        ],
        named: false,
    });
    assert_eq!(
        changes(&report),
        vec![(None, "removed"), (Some("render".to_string()), "modified")]
    );
    assert_eq!(report.symbols[0].hunks, vec![9]);
    assert_eq!(report.symbols[1].hunks, vec![2]);
    assert_eq!(report.unmapped.len(), 1);
    assert_eq!(report.unmapped[0].line, 4);
    assert_eq!(report.unresolved.len(), 1);
    assert_eq!(report.unresolved[0].source, "render");
    assert_eq!(report.unresolved[0].specifier, "format");
    assert!(report.needs_history);
}

#[test]
fn named_files_report_all_their_symbols() {
    let graph = later_graph();
    let report = compare(&Comparison {
        files: &vec![changed("src/gone.rs", "deleted"), changed("src/lib.rs", "modified")],
        hunks: &vec![],
        graph: &graph,
        earlier: None,
        references: &vec![],
        named: true,
    });
    assert_eq!(
        changes(&report),
        vec![
            (None, "removed"),
            (Some("page".to_string()), "modified"),
            (Some("render".to_string()), "modified"),
        ]
    );
    assert_eq!(report.symbols[0].path, Some("src/gone.rs".to_string()));
    assert!(report.needs_history);
}

#[test]
fn renamed_files_keep_their_symbols_in_the_report() {
    let graph = later_graph();
    let report = compare(&Comparison {
        files: &vec![changed("src/lib.rs", "renamed")],
        hunks: &vec![],
        graph: &graph,
        earlier: None,
        references: &vec![],
        named: false,
    });
    assert_eq!(
        changes(&report),
        vec![
            (Some("page".to_string()), "modified"),
            (Some("render".to_string()), "modified"),
        ]
    );
    assert!(!report.needs_history);
}

#[test]
fn reports_are_cut_at_a_limit() {
    let earlier = earlier_graph();
    let later = later_graph();
    let input = Comparison {
        files: &vec![],
        hunks: &vec![],
        graph: &later,
        earlier: Some(&earlier),
        references: &vec![],
        named: false,
    };
    let mut report = compare(&input);
    assert!(!limit_report(&mut report, 3, false));
    assert!(limit_report(&mut report, 3, true));
    assert!(limit_report(&mut report, 1, false));
    assert_eq!(report.symbols.len(), 1);
    assert_eq!(report.edges.len(), 1);
}

#[test]
fn symbols_are_found_by_their_file() {
    let graph = graph_snapshot(
        vec![
            node("b", "src/b.rs", 1, 1),
            node("a", "src/a.rs", 1, 1),
            node("a2", "src/a.rs", 2, 2),
        ],
        &vec![],
        &vec![],
    );
    let found: Vec<String> = nodes_for_path(&graph, "src/a.rs")
        .into_iter()
        .map(|node| node.id)
        .collect();
    assert_eq!(found, vec!["a", "a2"]);
}

#[test]
fn hunks_of_patches_one_after_the_other_add_up() {
    let first = "--- a/one.rs\n+++ b/one.rs\n@@ -1,2 +1,3 @@\n a\n+b\n";
    let second = "diff --git a/two.rs b/two.rs\n--- /dev/null\n+++ b/two.rs\n@@ -0,0 +1 @@\n+x\n@@ -5 +6,2 @@\n";
    let shown = |hunks: Vec<Hunk>| format!("{hunks:?}");
    let mut apart = parse_hunks(first);
    apart.extend(parse_hunks(second));
    assert_eq!(apart.len(), 3);
    assert_eq!(shown(parse_hunks(&format!("{first}{second}"))), shown(apart));
    assert_eq!(parse_hunks(&format!("{second}{first}")).len(), 3);
}
