//! From source text to symbols, call sites and edges.
//!
//! [`parse_code`](parser::parse_code) parses a source and reads its symbols and
//! call sites with the traversal of its language;
//! [`resolve_calls_global`](resolve::resolve_calls_global) then resolves the call
//! sites against the symbols of the whole project.

use vstd::prelude::*;
use crate::db::{Node, RawCall};
use crate::text::{chars_of, join2, lemma_views_push, opt_text, views};

pub mod c_like;
pub mod common;
pub mod declared;
pub mod edge_order;
pub mod go;
pub mod interner;
pub mod java;
pub mod java_framework;
pub mod java_syntax;
pub mod languages;
pub mod resolve;
pub mod rust;
pub mod syntax;
pub mod tables;
pub mod walks;
pub mod zig;

use c_like::{c_walk, traverse_c_like, CLikeContext, ScopeView};
use common::{nothing, Extraction, ExtractionView};
use go::{collect_go_imports, go_file, go_package_name, go_walk, traverse_go, GoContext};
use java::{java_walk, traverse_java, JavaContext, JavaFile, JavaPlace, JavaScope};
use java_framework::{extract_framework_relationships, framework_relationships};
use rust::{rust_walk, traverse_rust};
use syntax::{
    child_in_field, child_of_kind, children, end_of, lemma_roots_step, read_tree,
    roots, source_tree, trimmed_at, Grammar, SyntaxTree, TreeError, TreeView,
};
use zig::{traverse_zig, zig_walk};

verus! {

// ---------------------------------------------------------------------------
// Languages

/// A character's code, with ASCII capitals taken as small letters.
pub open spec fn folded(c: char) -> int {
    if 65 <= (c as int) <= 90 {
        c as int + 32
    } else {
        c as int
    }
}

/// Two texts differ at most in the case of ASCII letters.
pub open spec fn same_folded(left: Seq<char>, right: Seq<char>) -> bool {
    left.len() == right.len() && forall|i: int|
        0 <= i < left.len() ==> folded(#[trigger] left[i]) == folded(right[i])
}

/// The grammar of a language, by any of its names.
pub open spec fn grammar_named(language: Seq<char>) -> Option<Grammar> {
    if same_folded(language, "rust"@) || same_folded(language, "rs"@) {
        Some(Grammar::Rust)
    } else if same_folded(language, "go"@) {
        Some(Grammar::Go)
    } else if same_folded(language, "java"@) {
        Some(Grammar::Java)
    } else if same_folded(language, "c"@) {
        Some(Grammar::C)
    } else if same_folded(language, "cpp"@) || same_folded(language, "c++"@) || same_folded(
        language,
        "cc"@,
    ) || same_folded(language, "cxx"@) {
        Some(Grammar::Cpp)
    } else if same_folded(language, "zig"@) {
        Some(Grammar::Zig)
    } else {
        None
    }
}

fn fold(c: char) -> (code: u32)
    ensures
        code as int == folded(c),
{
    let code: u32 = c as u32;
    if 65 <= code && code <= 90 {
        code + 32
    } else {
        code
    }
}

fn alike(left: &str, right: &str) -> (equal: bool)
    ensures
        equal == same_folded(left@, right@),
{
    let first = chars_of(left);
    let second = chars_of(right);
    if first.len() != second.len() {
        return false;
    }
    let mut i: usize = 0;
    while i < first.len()
        invariant
            i <= first@.len(),
            first@ == left@,
            second@ == right@,
            first@.len() == second@.len(),
            forall|k: int| 0 <= k < i ==> folded(#[trigger] first@[k]) == folded(second@[k]),
        decreases first@.len() - i,
    {
        if fold(first[i]) != fold(second[i]) {
            assert(folded(left@[i as int]) != folded(right@[i as int]));
            return false;
        }
        i = i + 1;
    }
    true
}

/// The grammar of a language, by any of its names.
pub fn grammar_for(language: &str) -> (grammar: Option<Grammar>)
    ensures
        grammar == grammar_named(language@),
{
    if alike(language, "rust") || alike(language, "rs") {
        Some(Grammar::Rust)
    } else if alike(language, "go") {
        Some(Grammar::Go)
    } else if alike(language, "java") {
        Some(Grammar::Java)
    } else if alike(language, "c") {
        Some(Grammar::C)
    } else if alike(language, "cpp") || alike(language, "c++") || alike(language, "cc") || alike(
        language,
        "cxx",
    ) {
        Some(Grammar::Cpp)
    } else if alike(language, "zig") {
        Some(Grammar::Zig)
    } else {
        None
    }
}

// ---------------------------------------------------------------------------
// The package and the imports of a Java file

/// The package that a Java file declares.
pub open spec fn java_package(tree: TreeView) -> Option<Seq<char>> {
    match child_of_kind(tree, 0, "package_declaration"@) {
        Some(declaration) => {
            let name = match child_of_kind(tree, declaration, "scoped_identifier"@) {
                Some(name) => Some(name),
                None => child_of_kind(tree, declaration, "identifier"@),
            };
            match name {
                Some(name) => Some(trimmed_at(tree, name)),
                None => None,
            }
        },
        None => None,
    }
}

/// The name that an import declaration brings into scope.
pub open spec fn imported_name(tree: TreeView, at: int) -> Option<Seq<char>> {
    let name = match child_in_field(tree, at, "name"@) {
        Some(name) => Some(name),
        None => match child_of_kind(tree, at, "scoped_identifier"@) {
            Some(name) => Some(name),
            None => child_of_kind(tree, at, "identifier"@),
        },
    };
    match name {
        Some(name) => if tree.nodes[at].kind == "import_declaration"@ && trimmed_at(
            tree,
            name,
        ).len() > 0 {
            Some(trimmed_at(tree, name))
        } else {
            None
        },
        None => None,
    }
}

/// The names that the import declarations among `candidates` bring into scope.
pub open spec fn imported_names(tree: TreeView, candidates: Seq<int>) -> Seq<Seq<char>>
    decreases candidates.len(),
{
    if candidates.len() == 0 {
        seq![]
    } else {
        match imported_name(tree, candidates[0]) {
            Some(name) => seq![name] + imported_names(tree, candidates.skip(1)),
            None => imported_names(tree, candidates.skip(1)),
        }
    }
}

/// What holds in a whole Java file.
pub open spec fn java_file(tree: TreeView, file_path: Seq<char>) -> JavaFile {
    JavaFile {
        file_path,
        package: java_package(tree),
        imports: imported_names(tree, children(tree, 0)),
    }
}

/// The package that a Java file declares.
pub fn java_package_name(tree: &SyntaxTree) -> (package: Option<String>)
    requires
        tree.wf(),
        tree@.nodes.len() > 0,
    ensures
        opt_text(package) == java_package(tree@),
{
    match tree.find_child_by_kind(0, "package_declaration") {
        Some(declaration) => {
            let name = match tree.find_child_by_kind(declaration, "scoped_identifier") {
                Some(name) => Some(name),
                None => tree.find_child_by_kind(declaration, "identifier"),
            };
            match name {
                Some(name) => Some(tree.text_for_node(name)),
                None => None,
            }
        },
        None => None,
    }
}

fn import_name(tree: &SyntaxTree, at: usize) -> (name: Option<String>)
    requires
        tree.wf(),
        at < tree@.nodes.len(),
    ensures
        opt_text(name) == imported_name(tree@, at as int),
{
    let name = match tree.child_by_field_name(at, "name") {
        Some(name) => Some(name),
        None => match tree.find_child_by_kind(at, "scoped_identifier") {
            Some(name) => Some(name),
            None => tree.find_child_by_kind(at, "identifier"),
        },
    };
    match name {
        Some(name) => {
            let text = tree.text_for_node(name);
            if tree.is_kind(at, "import_declaration") && !text.as_str().is_empty() {
                Some(text)
            } else {
                None
            }
        },
        None => None,
    }
}

/// The names that the imports of a Java file bring into scope.
pub fn java_import_names(tree: &SyntaxTree) -> (names: Vec<String>)
    requires
        tree.wf(),
        tree@.nodes.len() > 0,
    ensures
        views(names@) == imported_names(tree@, children(tree@, 0)),
{
    let limit = tree.end(0);
    let mut next: usize = 1;
    let mut names: Vec<String> = Vec::new();
    let ghost all = imported_names(tree@, children(tree@, 0));
    assert(views(names@) + all =~= all);
    while next < limit
        invariant
            tree.wf(),
            1 <= next <= limit <= tree@.nodes.len(),
            limit == end_of(tree@, 0),
            all == views(names@) + imported_names(tree@, roots(tree@, next as int, limit as int)),
        decreases limit - next,
    {
        proof {
            lemma_roots_step(tree@, next as int, limit as int);
        }
        let ghost before = names@;
        let after = tree.subtree_end(next, limit);
        if let Some(name) = import_name(tree, next) {
            names.push(name);
            proof {
                let rest = imported_names(tree@, roots(tree@, after as int, limit as int));
                lemma_views_push(before, name);
                assert(views(before) + (seq![name@] + rest) =~= views(names@) + rest);
            }
        }
        next = after;
    }
    assert(views(names@) + Seq::<Seq<char>>::empty() =~= views(names@));
    names
}

// ---------------------------------------------------------------------------
// Parsing

/// The symbols and call sites of a source's tree.
pub open spec fn extraction(grammar: Grammar, tree: TreeView, file_path: Seq<char>) -> ExtractionView {
    let all = tree.nodes.len() as int;
    match grammar {
        Grammar::Rust => rust_walk(tree, 0, all, file_path, None, None, nothing()),
        Grammar::Go => go_walk(tree, 0, all, file_path, go_file(tree), None, nothing()),
        Grammar::Java => if all == 0 {
            nothing()
        } else {
            framework_relationships(
                tree,
                file_path,
                java_package(tree),
                java_walk(
                    tree,
                    0,
                    all,
                    java_file(tree, file_path),
                    JavaScope { parent: None, caller: None, prefixes: None, types: None },
                    nothing(),
                ),
            )
        },
        Grammar::C | Grammar::Cpp => c_walk(
            tree,
            0,
            all,
            file_path,
            ScopeView { parent: None, parent_is_type: false },
            None,
            nothing(),
        ),
        Grammar::Zig => zig_walk(tree, 0, all, file_path, None, None, nothing()),
    }
}

/// The symbols and call sites of a source's tree.
pub fn extract_code(grammar: Grammar, tree: &SyntaxTree, file_path: &str) -> (found: Extraction)
    requires
        tree.wf(),
    ensures
        found@ == extraction(grammar, tree@, file_path@),
{
    let mut found = Extraction::new();
    let all = tree.len();
    match grammar {
        Grammar::Rust => traverse_rust(tree, 0, all, file_path, None, None, &mut found),
        Grammar::Go => {
            if all > 0 {
                let package = go_package_name(tree);
                let imports = collect_go_imports(tree);
                let package_text: Option<&str> = match &package {
                    Some(text) => Some(text.as_str()),
                    None => None,
                };
                let file = GoContext { package: package_text, imports: imports.as_slice() };
                assert(file@ =~= go_file(tree@));
                traverse_go(tree, 0, all, file_path, &file, None, &mut found);
            }
        },
        Grammar::Java => {
            if all > 0 {
                let package = java_package_name(tree);
                let imports = java_import_names(tree);
                let package_text: Option<&str> = match &package {
                    Some(text) => Some(text.as_str()),
                    None => None,
                };
                let file = JavaContext {
                    file_path,
                    package: package_text,
                    imports: imports.as_slice(),
                };
                let place = JavaPlace { parent: None, caller: None, prefixes: None, types: None };
                assert(file@ =~= java_file(tree@, file_path@));
                assert(place@ =~= (JavaScope {
                    parent: None,
                    caller: None,
                    prefixes: None,
                    types: None,
                }));
                traverse_java(tree, 0, all, &file, place, &mut found);
                extract_framework_relationships(tree, file_path, package_text, &mut found);
            }
        },
        Grammar::C | Grammar::Cpp => {
            let context = CLikeContext { parent_qualified_name: None, parent_is_type: false };
            traverse_c_like(tree, 0, all, file_path, context, None, &mut found)
        },
        Grammar::Zig => traverse_zig(tree, 0, all, file_path, None, None, &mut found),
    }
    found
}

/// Why a source could not be read. With the grammars in use only the first reason comes.
#[derive(Debug, PartialEq)]
pub enum ParseError {
    /// No grammar goes by that name.
    UnsupportedLanguage(String),
    /// The parser cannot use the grammar.
    IncompatibleGrammar,
    /// The parser gave up on the source.
    ParseFailed,
}

impl ParseError {
    /// What the error says to a reader.
    pub open spec fn text(self) -> Seq<char> {
        match self {
            ParseError::UnsupportedLanguage(language) => "Unsupported language: "@ + language@,
            ParseError::IncompatibleGrammar => "Incompatible language version"@,
            ParseError::ParseFailed => "Failed to parse code content"@,
        }
    }

    /// What the error says to a reader.
    pub fn message(&self) -> (text: String)
        ensures
            text@ == self.text(),
    {
        match self {
            ParseError::UnsupportedLanguage(language) => join2(
                "Unsupported language: ",
                language.as_str(),
            ),
            ParseError::IncompatibleGrammar => "Incompatible language version".to_string(),
            ParseError::ParseFailed => "Failed to parse code content".to_string(),
        }
    }
}

/// Parses a source and extracts its symbols and its call sites. The call sites are left
/// unresolved, so that they can be resolved against the whole project.
pub fn parse_code(file_path: &str, content: &str, language: &str) -> (parsed: Result<
    (Vec<Node>, Vec<RawCall>),
    ParseError,
>)
    ensures
        parsed is Ok <==> grammar_named(language@) is Some,
        match parsed {
            Ok((nodes, calls)) => {
                &&& grammar_named(language@) matches Some(grammar)
                &&& (ExtractionView { nodes: views(nodes@), calls: views(calls@) }) == extraction(
                    grammar,
                    source_tree(grammar, content@),
                    file_path@,
                )
            },
            Err(ParseError::UnsupportedLanguage(name)) => name@ == language@,
            Err(_) => false,
        },
{
    let grammar = match grammar_for(language) {
        Some(grammar) => grammar,
        None => {
            return Err(ParseError::UnsupportedLanguage(language.to_string()));
        },
    };
    match read_tree(grammar, content) {
        Ok(tree) => {
            let found = extract_code(grammar, &tree, file_path);
            Ok((found.nodes, found.calls))
        },
        Err(TreeError::Grammar) => Err(ParseError::IncompatibleGrammar),
        Err(TreeError::Source) => Err(ParseError::ParseFailed),
    }
}

} // verus!
