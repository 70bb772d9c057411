//! Whether an index can be trusted, and what speaks against it.

use ochna::commands::files::{files_heading, pad, show_file_row, FileRow};
use ochna::commands::quality::{
    collision_prone_names, low_quality_locations, resolution_tier, source_extension_counts, tally,
    CollisionName, LocationCounts, NameCount,
};
use ochna::commands::status::{
    calculate_content_hash, count_reason, diagnose, hex_text, index_readiness,
    indexed_sources_are_fresh, show_row, unresolved_rows, Diagnosis, DiscoveredFile, Freshness,
    IndexedFile, UnresolvedRow,
};
use ochna::commands::{next_action, Warning};
use ochna::db::refs::{candidate_key, reference_reason, unresolved_reason, CandidateKey};
use ochna::db::{confidence_for_kind, label_for_kind, split_callee_name};
use ochna::db::{Node, UnresolvedRef};
use ochna::parser::interner::SymbolIndex;
use ochna::parser::parse_code;
use ochna::parser::resolve::resolve_calls_global;
use ochna::paths::{extension_of, file_name, parent_location};
use std::collections::hash_map::DefaultHasher;
use std::hash::{Hash, Hasher};

fn indexed(path: &str, content: &str) -> IndexedFile {
    IndexedFile {
        path: path.to_string(),
        content_hash: calculate_content_hash(content),
    }
}

fn on_disk(path: &str, content: Option<&str>) -> DiscoveredFile {
    DiscoveredFile {
        path: path.to_string(),
        content: content.map(|text| text.to_string()),
    }
}

fn counts(entries: &[(&str, i64)]) -> Vec<NameCount> {
    entries
        .iter()
        .map(|(name, count)| NameCount {
            name: name.to_string(),
            count: *count,
        })
        .collect()
}

/// The rows of unresolved references of a graph.
fn rows_of(nodes: &Vec<Node>, unresolved: &[UnresolvedRef]) -> Vec<UnresolvedRow> {
    unresolved
        .iter()
        .map(|reference| {
            let source = nodes
                .iter()
                .find(|node| node.id == reference.source_id)
                .unwrap();
            let candidates = match candidate_key(&reference.specifier, &reference.kind) {
                CandidateKey::QualifiedName(name) => nodes
                    .iter()
                    .filter(|node| node.qualified_name.as_deref() == Some(name.as_str()))
                    .count(),
                CandidateKey::Name(name) => nodes.iter().filter(|node| node.name == name).count(),
            };
            UnresolvedRow::new(
                source.id.clone(),
                reference.specifier.clone(),
                reference.kind.clone(),
                source.file_path.clone(),
                reference.line,
                reference.column,
                candidates as i64,
            )
        })
        .collect()
}

#[test]
fn diagnostics_report_tiers_collisions_unresolved_and_unsupported_sources() {
    let lib = "fn shared() {}\nfn caller() { shared(); missing(); }\n";
    let other = "fn shared() {}\n";
    let (mut nodes, calls) = parse_code("src/lib.rs", lib, "rust").unwrap();
    nodes.extend(parse_code("src/other.rs", other, "rust").unwrap().0);
    let index = SymbolIndex::from_nodes(&nodes);
    let (edges, unresolved) = resolve_calls_global(&calls, &index);

    let rows = rows_of(&nodes, &unresolved);
    assert_eq!(count_reason(&rows, "missing_target"), 1);
    assert_eq!(rows.len(), 1);
    let shared = nodes.iter().filter(|node| node.name == "shared").count();
    let collisions = collision_prone_names(&counts(&[("shared", shared as i64)]), &vec![]);
    assert_eq!(collisions[0].name, "shared");
    assert_eq!(collisions[0].definitions, 2);
    let extensions = source_extension_counts(&vec![
        "src/lib.rs".to_string(),
        "src/other.rs".to_string(),
        "tool.py".to_string(),
    ]);
    assert_eq!(extensions[0].name, ".py");
    assert_eq!(extensions[0].count, 1);
    assert_eq!(edges.len(), 1);
    let tier = resolution_tier(edges[0].resolution_kind, 1);
    assert_eq!((tier.kind, tier.confidence), ("same_file", 60));

    let (found, more) = unresolved_rows(rows, Some("src"), 50);
    assert_eq!(found.len(), 1);
    assert!(!more);
    assert_eq!(found[0].specifier, "missing");
    assert_eq!(found[0].reason, "missing_target");

    let known = vec![indexed("src/lib.rs", lib), indexed("src/other.rs", other)];
    let disk = |extra: Vec<DiscoveredFile>| {
        let mut files = vec![
            on_disk("src/lib.rs", Some(lib)),
            on_disk("src/other.rs", Some(other)),
        ];
        files.extend(extra);
        files
    };
    assert!(indexed_sources_are_fresh(&known, &disk(vec![])));
    assert!(!indexed_sources_are_fresh(
        &known,
        &disk(vec![on_disk("src/new.rs", Some("fn added() {}\n"))])
    ));
    assert!(!indexed_sources_are_fresh(
        &known,
        &vec![
            on_disk("src/lib.rs", Some("fn changed() {}\n")),
            on_disk("src/other.rs", Some(other)),
        ]
    ));
}

#[test]
fn files_that_cannot_be_indexed_leave_an_index_fresh() {
    let known = vec![indexed("a.rs", "fn a() {}")];
    let disk = vec![
        on_disk("a.rs", Some("fn a() {}")),
        on_disk("README.md", Some("text")),
        on_disk("binary.rs", None),
    ];
    assert!(indexed_sources_are_fresh(&known, &disk));
}

#[test]
fn missing_or_unreadable_files_make_an_index_stale() {
    let known = vec![indexed("a.rs", "fn a() {}")];
    assert!(!indexed_sources_are_fresh(&known, &vec![]));
    assert!(!indexed_sources_are_fresh(&known, &vec![on_disk("a.rs", None)]));
    assert!(!indexed_sources_are_fresh(&vec![], &vec![]));
}

#[test]
fn content_hashes_are_hexadecimal_numbers() {
    assert_eq!(hex_text(0), "0");
    assert_eq!(hex_text(255), "ff");
    assert_eq!(hex_text(0xdead_beef), "deadbeef");
    assert_eq!(hex_text(u64::MAX), "ffffffffffffffff");
    for content in ["", "fn a() {}", "\u{e9}t\u{e9}"] {
        let mut hasher = DefaultHasher::new();
        content.hash(&mut hasher);
        assert_eq!(
            calculate_content_hash(content),
            format!("{:x}", hasher.finish())
        );
    }
}

#[test]
fn an_index_is_ready_if_nothing_is_to_be_done() {
    assert_eq!(index_readiness(true, 3, Freshness::Fresh), (true, "none"));
    assert_eq!(
        index_readiness(true, 3, Freshness::Stale),
        (false, "ochna sync")
    );
    assert_eq!(
        index_readiness(true, 0, Freshness::Fresh),
        (false, "ochna init")
    );
    assert_eq!(
        index_readiness(false, 3, Freshness::Fresh),
        (false, "ochna init")
    );
    assert_eq!(Freshness::Fresh.as_str(), "fresh");
    assert_eq!(Freshness::Stale.as_str(), "stale");
}

#[test]
fn graphs_are_judged() {
    assert_eq!(
        diagnose(true, Freshness::Fresh, false),
        Diagnosis {
            freshness: "fresh",
            verdict: "trusted",
            next_action: "none",
            error: None,
        }
    );
    assert_eq!(
        diagnose(true, Freshness::Stale, false),
        Diagnosis {
            freshness: "stale",
            verdict: "degraded",
            next_action: "ochna sync",
            error: Some("Graph trust is degraded. Run 'ochna sync'.".to_string()),
        }
    );
    assert_eq!(
        diagnose(true, Freshness::Fresh, true).error.unwrap(),
        "Graph quality is degraded; review low-quality locations and unsupported source extensions."
    );
    let other = diagnose(false, Freshness::Stale, false);
    assert_eq!(other.freshness, "incompatible");
    assert_eq!(other.verdict, "unusable");
    assert_eq!(other.next_action, "ochna init");
}

fn row(path: &str, line: i64, column: i64, specifier: &str) -> UnresolvedRow {
    UnresolvedRow::new(
        "source".to_string(),
        specifier.to_string(),
        "calls".to_string(),
        path.to_string(),
        line,
        column,
        0,
    )
}

#[test]
fn unresolved_references_are_listed_where_they_stand() {
    let rows = || {
        vec![
            row("src/b.rs", 1, 1, "x"),
            row("src/a.rs", 9, 1, "y"),
            row("src/a.rs", 2, 8, "z"),
            row("src/a.rs", 2, 8, "a"),
            row("lib/a.rs", 1, 1, "w"),
        ]
    };
    let (found, more) = unresolved_rows(rows(), Some("src/"), 3);
    let specifiers: Vec<&str> = found.iter().map(|row| row.specifier.as_str()).collect();
    assert_eq!(specifiers, vec!["a", "z", "y"]);
    assert!(more);
    let (all, more) = unresolved_rows(rows(), None, 5);
    assert_eq!(all.len(), 5);
    assert!(!more);
    assert_eq!(show_row(&all[0]), "lib/a.rs:1:1 w (missing_target)");
    assert!(unresolved_rows(rows(), Some("_rc"), 5).0.is_empty());
}

#[test]
fn reasons_follow_the_candidates() {
    assert_eq!(reference_reason("calls", 0), "missing_target");
    assert_eq!(reference_reason("calls", 2), "ambiguous_target");
    assert_eq!(reference_reason("macro_or_function", 2), "macro_or_function");
    assert_eq!(reference_reason("indirect_call", 0), "indirect_call");
    assert_eq!(
        candidate_key("a::b", "calls"),
        CandidateKey::Name("b".to_string())
    );
    assert_eq!(
        candidate_key("grpc::S::m", "calls_service"),
        CandidateKey::QualifiedName("grpc::S::m".to_string())
    );
    assert_eq!(
        candidate_key("topic", "consumes_event"),
        CandidateKey::Name("topic".to_string())
    );
}

#[test]
fn same_names_do_not_make_framework_targets_ambiguous() {
    let (nodes, _) = parse_code("a.rs", "fn send() {}\n", "rust").unwrap();
    assert_eq!(
        unresolved_reason(&nodes, "grpc::Mail::send", "calls_service"),
        "missing_target"
    );
    assert_eq!(
        unresolved_reason(&nodes, "Mail::send", "calls"),
        "ambiguous_target"
    );
    assert_eq!(
        unresolved_reason(&nodes, "receive", "calls"),
        "missing_target"
    );
}

#[test]
fn places_with_many_unresolved_calls_are_reported() {
    let mut rows = Vec::new();
    for line in 1..=2 {
        rows.push(row("src/bad.rs", line, 1, "x"));
    }
    rows.push(row("lib/good.rs", 1, 1, "y"));
    rows.push(row("lib/small.rs", 1, 1, "y"));
    let calls = counts(&[
        ("src/bad.rs", 10),
        ("lib/good.rs", 6),
        ("lib/small.rs", 4),
        ("lib/quiet.rs", 1),
    ]);
    let place = |path: &str, calls: i64, unresolved: i64| LocationCounts {
        path: path.to_string(),
        calls,
        unresolved,
    };
    assert_eq!(
        low_quality_locations(&rows, &calls),
        vec![place("src", 10, 2), place("src/bad.rs", 10, 2)]
    );
    assert_eq!(
        low_quality_locations(&rows, &counts(&[("src/bad.rs", 11)])),
        vec![]
    );
}

#[test]
fn tallies_count_calls_and_open_references() {
    let unresolved = vec!["a".to_string(), "b".to_string(), "a".to_string()];
    assert_eq!(
        tally(&unresolved, &counts(&[("c", 4), ("a", 3), ("c", 1)])),
        vec![
            LocationCounts {
                path: "a".to_string(),
                calls: 3,
                unresolved: 2,
            },
            LocationCounts {
                path: "b".to_string(),
                calls: 0,
                unresolved: 1,
            },
            LocationCounts {
                path: "c".to_string(),
                calls: 5,
                unresolved: 0,
            },
        ]
    );
}

#[test]
fn colliding_names_are_in_order() {
    assert_eq!(
        collision_prone_names(&counts(&[("run", 2)]), &counts(&[("walk", 3), ("add", 1)])),
        vec![
            CollisionName {
                name: "add".to_string(),
                definitions: 1,
                low_confidence_edges: 1,
            },
            CollisionName {
                name: "run".to_string(),
                definitions: 2,
                low_confidence_edges: 0,
            },
            CollisionName {
                name: "walk".to_string(),
                definitions: 1,
                low_confidence_edges: 3,
            },
        ]
    );
}

#[test]
fn unsupported_sources_are_counted_by_extension() {
    let paths = ["a.py", "b.TS", "c.rs", "d.py", "notes", "e.txt", ".py"]
        .map(|path| path.to_string())
        .into();
    assert_eq!(
        source_extension_counts(&paths),
        counts(&[(".py", 2), (".ts", 1)])
    );
}

#[test]
fn tiers_have_names_and_confidences() {
    let tiers: Vec<(&str, i64)> = (0..=9)
        .map(|kind| (label_for_kind(kind), confidence_for_kind(kind)))
        .collect();
    assert_eq!(
        tiers,
        vec![
            ("name_only", 30),
            ("same_file", 60),
            ("namespace", 80),
            ("package", 80),
            ("receiver_type", 90),
            ("exact", 100),
            ("framework_annotation", 85),
            ("framework_convention", 70),
            ("framework_declaration", 80),
            ("name_only", 30),
        ]
    );
    let tier = resolution_tier(5, 12);
    assert_eq!((tier.kind, tier.confidence, tier.edges), ("exact", 100, 12));
}

#[test]
fn callees_are_split_at_their_last_scope() {
    assert_eq!(
        split_callee_name("a::b::c"),
        (Some("a::b".to_string()), "c".to_string())
    );
    assert_eq!(split_callee_name("c"), (None, "c".to_string()));
}

#[test]
fn paths_are_read_part_by_part() {
    assert_eq!(file_name("src/main.rs").as_deref(), Some("main.rs"));
    assert_eq!(file_name("src/").as_deref(), Some("src"));
    assert_eq!(file_name("/"), None);
    assert_eq!(extension_of("a/b.tar.gz").as_deref(), Some("gz"));
    assert_eq!(extension_of("a.d/b"), None);
    assert_eq!(extension_of(".hidden"), None);
    assert_eq!(extension_of("a."), Some(String::new()));
    assert_eq!(parent_location("src/commands/a.rs"), "src/commands");
    assert_eq!(parent_location("a.rs"), ".");
    assert_eq!(parent_location("src//a.rs"), "src");
    assert_eq!(parent_location("src/./a.rs"), "src");
    assert_eq!(parent_location("/a.rs"), "/");
}

#[test]
fn paths_are_read_as_the_standard_library_reads_them() {
    for path in [
        "src/main.rs",
        "./a.rs",
        "a/./b.c",
        "a//b.c/",
        "/x",
        "/",
        "",
        ".",
        "a/.",
        "a/..",
        "..",
        "a/b/.c",
        "x.y/z.w.v",
    ] {
        let standard = std::path::Path::new(path);
        assert_eq!(
            extension_of(path),
            standard
                .extension()
                .map(|found| found.to_string_lossy().into_owned()),
            "extension of {path}"
        );
        let directory = standard
            .parent()
            .filter(|parent| !parent.as_os_str().is_empty())
            .map(|parent| parent.to_string_lossy().into_owned())
            .unwrap_or_else(|| ".".to_string());
        assert_eq!(parent_location(path), directory, "directory of {path}");
    }
}

#[test]
fn files_are_listed_in_columns() {
    assert_eq!(pad("ab", 4), "ab  ");
    assert_eq!(pad("abcd", 3), "abcd");
    assert_eq!(
        files_heading(),
        format!(
            "{:<40} {:<10} {:<10} {:<8} {:<12}",
            "File Path", "Language", "Size (B)", "Test", "Symbols"
        )
    );
    let row = FileRow {
        path: "src/\u{e9}.rs".to_string(),
        language: None,
        size_bytes: Some(120),
        is_test: false,
        symbol_count: 7,
    };
    assert_eq!(
        show_file_row(&row),
        format!(
            "{:<40} {:<10} {:<10} {:<8} {:<12}",
            "src/\u{e9}.rs", "unknown", "120", false, 7
        )
    );
    let bare = FileRow {
        language: Some("rust".to_string()),
        size_bytes: None,
        is_test: true,
        ..row
    };
    assert_eq!(
        show_file_row(&bare),
        format!(
            "{:<40} {:<10} {:<10} {:<8} {:<12}",
            "src/\u{e9}.rs", "rust", "-", true, 7
        )
    );
}

#[test]
fn cut_results_ask_for_a_narrower_query() {
    assert_eq!(next_action(true), "narrow the query");
    assert_eq!(next_action(false), "none");
    let warning = Warning {
        code: "a",
        message: "b".to_string(),
    };
    assert_eq!(warning.code, "a");
}
