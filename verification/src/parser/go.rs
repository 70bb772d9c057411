//! Go sources: struct and interface types, functions, methods by their receiver's
//! type, and calls with what they say of their target: the package they are made in,
//! the operand of their selector, and the import that it stands for.

use vstd::prelude::*;
use crate::db::{NodeView, RawCall, RawCallView};
use crate::parser::common::{
    call_at, declared_symbol, extended, final_part, get_signature, last_split, make_symbol,
    qualified_name, raw_call, scoped, signature, symbol_at, symbol_id, symbol_with, Extraction,
    ExtractionView,
};
use crate::parser::syntax::{
    child_in_field, child_named, child_of_kind, descendants, end_of, next_of_kind, places,
    subtree_end, text_at, trimmed_at, SyntaxTree, TreeView,
};
use crate::text::{
    after_last, join2, join3, last_part, lemma_views_push, opt_str, opt_text, same, trim_end_of,
    trim_start_of, trimmed_end_of, trimmed_start_of, views,
};

verus! {

/// The kind of the symbol that a type specification makes, by what it holds.
pub open spec fn go_type_kind(tree: TreeView, spec_at: int) -> Option<Seq<char>> {
    if child_of_kind(tree, spec_at, "struct_type"@) is Some {
        Some("struct"@)
    } else if child_of_kind(tree, spec_at, "interface_type"@) is Some {
        Some("interface"@)
    } else {
        None
    }
}

/// The symbol of a type declaration.
pub open spec fn go_type_symbol(tree: TreeView, at: int, file_path: Seq<char>) -> Option<NodeView> {
    match child_of_kind(tree, at, "type_spec"@) {
        Some(spec_at) => match (
            child_named(tree, spec_at, "name"@, "type_identifier"@),
            go_type_kind(tree, spec_at),
        ) {
            (Some(name), Some(kind)) => Some(
                symbol_with(
                    tree,
                    at,
                    file_path,
                    symbol_id(file_path, text_at(tree, name)),
                    text_at(tree, name),
                    kind,
                    text_at(tree, name),
                    "type "@ + signature(tree, spec_at),
                ),
            ),
            _ => None,
        },
        None => None,
    }
}

/// The type of a receiver: the first type name in its parameter list.
pub open spec fn go_receiver_type(tree: TreeView, at: int) -> Option<Seq<char>> {
    match next_of_kind(tree, at, end_of(tree, at), "type_identifier"@) {
        Some(found) => Some(text_at(tree, found)),
        None => None,
    }
}

/// The type that a method is declared for.
pub open spec fn go_method_owner(tree: TreeView, at: int) -> Option<Seq<char>> {
    match child_named(tree, at, "receiver"@, "parameter_list"@) {
        Some(receiver) => go_receiver_type(tree, receiver),
        None => None,
    }
}

/// The name and the qualified name of the function or method that a node declares.
pub open spec fn go_function(tree: TreeView, at: int) -> Option<(Seq<char>, Seq<char>, Seq<char>)> {
    let kind = tree.nodes[at].kind;
    if kind == "function_declaration"@ {
        match child_named(tree, at, "name"@, "identifier"@) {
            Some(name) => Some((text_at(tree, name), "function"@, text_at(tree, name))),
            None => None,
        }
    } else if kind == "method_declaration"@ {
        match child_named(tree, at, "name"@, "field_identifier"@) {
            Some(name) => Some(
                (
                    text_at(tree, name),
                    "method"@,
                    scoped(go_method_owner(tree, at), text_at(tree, name)),
                ),
            ),
            None => None,
        }
    } else {
        None
    }
}

/// The symbol that a node declares.
pub open spec fn go_symbol(tree: TreeView, at: int, file_path: Seq<char>) -> Option<NodeView> {
    if tree.nodes[at].kind == "type_declaration"@ {
        go_type_symbol(tree, at, file_path)
    } else {
        match go_function(tree, at) {
            Some((name, kind, qualified)) => Some(
                symbol_at(tree, at, file_path, name, kind, qualified),
            ),
            None => None,
        }
    }
}

/// The id of the function that calls below a node are made in.
pub open spec fn go_caller(
    tree: TreeView,
    at: int,
    file_path: Seq<char>,
    caller: Option<Seq<char>>,
) -> Option<Seq<char>> {
    if tree.nodes[at].kind == "type_declaration"@ {
        caller
    } else {
        match go_function(tree, at) {
            Some((_, _, qualified)) => Some(symbol_id(file_path, qualified)),
            None => caller,
        }
    }
}

/// The name that a call goes by.
pub open spec fn go_call_target(tree: TreeView, at: int) -> Seq<char> {
    if tree.nodes[at].kind == "selector_expression"@ {
        match child_in_field(tree, at, "field"@) {
            Some(field) => text_at(tree, field),
            None => final_part(text_at(tree, at), "."@),
        }
    } else {
        text_at(tree, at)
    }
}

/// What stands before the dot of the name that a call goes by.
pub open spec fn go_operand(tree: TreeView, at: int) -> Option<Seq<char>> {
    if tree.nodes[at].kind == "selector_expression"@ {
        match child_in_field(tree, at, "operand"@) {
            Some(operand) => Some(trimmed_at(tree, operand)),
            None => None,
        }
    } else {
        None
    }
}

/// What the calls of a file share: its package, and its imports by the names they go by.
#[verifier::ext_equal]
pub struct GoFile {
    pub package: Option<Seq<char>>,
    pub imports: Seq<(Seq<char>, Seq<char>)>,
}

/// The package that a file belongs to.
pub open spec fn go_package(tree: TreeView) -> Option<Seq<char>> {
    match child_of_kind(tree, 0, "package_clause"@) {
        Some(clause) => {
            let name = match child_of_kind(tree, clause, "package_identifier"@) {
                Some(name) => Some(name),
                None => child_of_kind(tree, clause, "identifier"@),
            };
            match name {
                Some(name) => Some(trimmed_at(tree, name)),
                None => None,
            }
        },
        None => None,
    }
}

/// The name that an import goes by, and its path: the name is the one that is given, or
/// the last part of the path.
pub open spec fn go_import(tree: TreeView, at: int) -> Option<(Seq<char>, Seq<char>)> {
    match child_in_field(tree, at, "path"@) {
        Some(path_at) => {
            let path = trim_end_of(trim_start_of(text_at(tree, path_at), '"'), '"');
            match child_in_field(tree, at, "name"@) {
                Some(name) => Some((trimmed_at(tree, name), path)),
                None => Some((after_last(path, "/"@), path)),
            }
        },
        None => None,
    }
}

/// The imports among some nodes.
pub open spec fn go_imports(tree: TreeView, found: Seq<int>) -> Seq<(Seq<char>, Seq<char>)>
    decreases found.len(),
{
    if found.len() == 0 {
        seq![]
    } else {
        let before = go_imports(tree, found.drop_last());
        match go_import(tree, found.last()) {
            Some(import) => before.push(import),
            None => before,
        }
    }
}

/// What the calls of a file share.
pub open spec fn go_file(tree: TreeView) -> GoFile {
    GoFile {
        package: go_package(tree),
        imports: go_imports(tree, descendants(tree, 0, "import_spec"@)),
    }
}

/// The path of the last import that goes by a name.
pub open spec fn go_import_path(imports: Seq<(Seq<char>, Seq<char>)>, name: Seq<char>) -> Option<
    Seq<char>,
>
    decreases imports.len(),
{
    if imports.len() == 0 {
        None
    } else if imports.last().0 == name {
        Some(imports.last().1)
    } else {
        go_import_path(imports.drop_last(), name)
    }
}

/// A call with what its file and the operand of its selector say of its target. Behind
/// an import stands a function; behind any other operand a method.
pub open spec fn with_operand(
    call: RawCallView,
    operand: Option<Seq<char>>,
    file: GoFile,
) -> RawCallView {
    let hint = match operand {
        Some(text) => go_import_path(file.imports, text),
        None => None,
    };
    RawCallView {
        call_kind: Some(
            if operand is Some && hint is None {
                "method"@
            } else {
                "function"@
            },
        ),
        receiver_expr: operand,
        package_or_namespace: file.package,
        import_hint: hint,
        ..call
    }
}

/// The call that a node makes within a function.
pub open spec fn go_call(
    tree: TreeView,
    at: int,
    file: GoFile,
    caller: Option<Seq<char>>,
) -> Option<RawCallView> {
    match caller {
        Some(caller) => if tree.nodes[at].kind == "call_expression"@ {
            match child_in_field(tree, at, "function"@) {
                Some(function) => Some(
                    with_operand(
                        call_at(tree, at, caller, go_call_target(tree, function)),
                        go_operand(tree, function),
                        file,
                    ),
                ),
                None => None,
            }
        } else {
            None
        },
        None => None,
    }
}

/// What the subtrees from `from` up to `limit` add to an extraction.
pub open spec fn go_walk(
    tree: TreeView,
    from: int,
    limit: int,
    file_path: Seq<char>,
    file: GoFile,
    caller: Option<Seq<char>>,
    out: ExtractionView,
) -> ExtractionView
    decreases limit - from,
{
    if from >= limit {
        out
    } else {
        let end = subtree_end(tree, from, limit);
        if end <= from || end > limit {
            out
        } else {
            let here = extended(
                out,
                go_symbol(tree, from, file_path),
                go_call(tree, from, file, caller),
            );
            let inside = go_walk(
                tree,
                from + 1,
                end,
                file_path,
                file,
                go_caller(tree, from, file_path, caller),
                here,
            );
            go_walk(tree, end, limit, file_path, file, caller, inside)
        }
    }
}

/// The type of the receiver at `at`.
pub fn get_go_receiver_type(tree: &SyntaxTree, at: usize) -> (name: Option<String>)
    requires
        tree.wf(),
        at < tree@.nodes.len(),
    ensures
        opt_text(name) == go_receiver_type(tree@, at as int),
{
    match tree.first_descendant_by_kind(at, "type_identifier") {
        Some(found) => Some(tree.text(found)),
        None => None,
    }
}

/// The name that the call at `at` goes by.
pub fn extract_go_call_target(tree: &SyntaxTree, at: usize) -> (name: String)
    requires
        tree.wf(),
        at < tree@.nodes.len(),
    ensures
        name@ == go_call_target(tree@, at as int),
{
    proof {
        reveal_strlit(".");
    }
    if tree.is_kind(at, "selector_expression") {
        match tree.child_by_field_name(at, "field") {
            Some(field) => tree.text(field),
            None => last_split(tree.text(at).as_str(), "."),
        }
    } else {
        tree.text(at)
    }
}

/// What stands before the dot of the name that the call at `at` goes by.
pub fn extract_go_operand(tree: &SyntaxTree, at: usize) -> (operand: Option<String>)
    requires
        tree.wf(),
        at < tree@.nodes.len(),
    ensures
        opt_text(operand) == go_operand(tree@, at as int),
{
    if tree.is_kind(at, "selector_expression") {
        match tree.child_by_field_name(at, "operand") {
            Some(operand) => Some(tree.text_for_node(operand)),
            None => None,
        }
    } else {
        None
    }
}

/// An import: the name that it goes by, and its path.
#[derive(Debug)]
pub struct GoImport {
    pub name: String,
    pub path: String,
}

impl View for GoImport {
    type V = (Seq<char>, Seq<char>);

    open spec fn view(&self) -> (Seq<char>, Seq<char>) {
        (self.name@, self.path@)
    }
}

/// The package that a file belongs to.
pub fn go_package_name(tree: &SyntaxTree) -> (package: Option<String>)
    requires
        tree.wf(),
        tree@.nodes.len() > 0,
    ensures
        opt_text(package) == go_package(tree@),
{
    match tree.find_child_by_kind(0, "package_clause") {
        Some(clause) => {
            let name = match tree.find_child_by_kind(clause, "package_identifier") {
                Some(name) => Some(name),
                None => tree.find_child_by_kind(clause, "identifier"),
            };
            match name {
                Some(name) => Some(tree.text_for_node(name)),
                None => None,
            }
        },
        None => None,
    }
}

fn import_at(tree: &SyntaxTree, at: usize) -> (import: Option<GoImport>)
    requires
        tree.wf(),
        at < tree@.nodes.len(),
    ensures
        match import {
            Some(import) => go_import(tree@, at as int) == Some(import@),
            None => go_import(tree@, at as int) is None,
        },
{
    match tree.child_by_field_name(at, "path") {
        Some(path_at) => {
            let text = tree.text(path_at);
            let path = trimmed_end_of(trimmed_start_of(text.as_str(), '"').as_str(), '"');
            let name = match tree.child_by_field_name(at, "name") {
                Some(name) => tree.text_for_node(name),
                None => last_part(path.as_str(), "/"),
            };
            Some(GoImport { name, path })
        },
        None => None,
    }
}

/// The imports of a file.
pub fn collect_go_imports(tree: &SyntaxTree) -> (imports: Vec<GoImport>)
    requires
        tree.wf(),
        tree@.nodes.len() > 0,
    ensures
        views(imports@) == go_imports(tree@, descendants(tree@, 0, "import_spec"@)),
{
    let found = tree.descendants_of_kind(0, "import_spec");
    let ghost all = descendants(tree@, 0, "import_spec"@);
    let mut imports: Vec<GoImport> = Vec::new();
    let mut i: usize = 0;
    proof {
        assert(all.take(0) =~= seq![]);
        assert(views(imports@) =~= seq![]);
    }
    while i < found.len()
        invariant
            tree.wf(),
            i <= found@.len(),
            all == places(found@),
            forall|k: int| 0 <= k < found@.len() ==> #[trigger] found@[k] < tree@.nodes.len(),
            views(imports@) == go_imports(tree@, all.take(i as int)),
        decreases found@.len() - i,
    {
        proof {
            assert(all.take(i + 1).drop_last() =~= all.take(i as int));
            assert(all.take(i + 1).last() == found@[i as int] as int);
        }
        if let Some(import) = import_at(tree, found[i]) {
            proof {
                lemma_views_push(imports@, import);
            }
            imports.push(import);
        }
        i = i + 1;
    }
    assert(all.take(i as int) =~= all);
    imports
}

fn import_path(imports: &[GoImport], name: &str) -> (path: Option<String>)
    ensures
        opt_text(path) == go_import_path(views(imports@), name@),
{
    let ghost all = views(imports@);
    let mut i: usize = imports.len();
    assert(all.take(i as int) =~= all);
    while i > 0
        invariant
            i <= imports@.len(),
            all == views(imports@),
            go_import_path(all, name@) == go_import_path(all.take(i as int), name@),
        decreases i,
    {
        proof {
            assert(all.take(i as int).drop_last() =~= all.take(i - 1));
            assert(all.take(i as int).last() == imports@[i - 1]@);
        }
        i = i - 1;
        if same(imports[i].name.as_str(), name) {
            return Some(imports[i].path.clone());
        }
    }
    None
}

/// What the calls of a file share.
pub struct GoContext<'a> {
    pub package: Option<&'a str>,
    pub imports: &'a [GoImport],
}

impl<'a> View for GoContext<'a> {
    type V = GoFile;

    open spec fn view(&self) -> GoFile {
        GoFile { package: opt_str(self.package), imports: views(self.imports@) }
    }
}

fn in_context(call: RawCall, operand: Option<String>, file: &GoContext) -> (hinted: RawCall)
    ensures
        hinted@ == with_operand(call@, opt_text(operand), file@),
{
    let hint = match &operand {
        Some(text) => import_path(file.imports, text.as_str()),
        None => None,
    };
    let mut hinted = call;
    hinted.call_kind = Some(
        if operand.is_some() && hint.is_none() {
            "method".to_string()
        } else {
            "function".to_string()
        },
    );
    hinted.receiver_expr = operand;
    hinted.package_or_namespace = match file.package {
        Some(package) => Some(package.to_string()),
        None => None,
    };
    hinted.import_hint = hint;
    hinted
}

fn declared_function(tree: &SyntaxTree, at: usize) -> (found: Option<(String, &'static str, String)>)
    requires
        tree.wf(),
        at < tree@.nodes.len(),
    ensures
        match found {
            Some((name, kind, qualified)) => go_function(tree@, at as int) == Some(
                (name@, kind@, qualified@),
            ),
            None => go_function(tree@, at as int) is None,
        },
{
    if tree.is_kind(at, "function_declaration") {
        match tree.child_named(at, "name", "identifier") {
            Some(name_at) => {
                let name = tree.text(name_at);
                let qualified = name.clone();
                Some((name, "function", qualified))
            },
            None => None,
        }
    } else if tree.is_kind(at, "method_declaration") {
        match tree.child_named(at, "name", "field_identifier") {
            Some(name_at) => {
                let name = tree.text(name_at);
                let owner: Option<String> = match tree.child_named(
                    at,
                    "receiver",
                    "parameter_list",
                ) {
                    Some(receiver) => get_go_receiver_type(tree, receiver),
                    None => None,
                };
                let qualified = match &owner {
                    Some(owner) => qualified_name(Some(owner.as_str()), name.as_str()),
                    None => qualified_name(None, name.as_str()),
                };
                Some((name, "method", qualified))
            },
            None => None,
        }
    } else {
        None
    }
}

fn declared_type(tree: &SyntaxTree, at: usize, file_path: &str, out: &mut Extraction)
    requires
        tree.wf(),
        at < tree@.nodes.len(),
    ensures
        final(out)@ == extended(
            old(out)@,
            go_type_symbol(tree@, at as int, file_path@),
            None,
        ),
{
    if let Some(spec_at) = tree.find_child_by_kind(at, "type_spec") {
        if let Some(name_at) = tree.child_named(spec_at, "name", "type_identifier") {
            let name = tree.text(name_at);
            let kind: Option<&str> = if tree.find_child_by_kind(
                spec_at,
                "struct_type",
            ).is_some() {
                Some("struct")
            } else if tree.find_child_by_kind(spec_at, "interface_type").is_some() {
                Some("interface")
            } else {
                None
            };
            if let Some(kind) = kind {
                let id = join3(file_path, "::", name.as_str());
                let text = join2("type ", get_signature(tree, spec_at).as_str());
                let qualified = name.clone();
                out.add_node(make_symbol(tree, at, file_path, id, name, kind, qualified, text));
            }
        }
    }
}

/// Adds what the subtrees from `from` up to `limit` hold: their symbols, and the calls
/// made within a function.
pub fn traverse_go(
    tree: &SyntaxTree,
    from: usize,
    limit: usize,
    file_path: &str,
    file: &GoContext,
    caller: Option<&str>,
    out: &mut Extraction,
)
    requires
        tree.wf(),
        from <= limit <= tree@.nodes.len(),
    ensures
        final(out)@ == go_walk(
            tree@,
            from as int,
            limit as int,
            file_path@,
            file@,
            opt_str(caller),
            old(out)@,
        ),
    decreases limit - from,
{
    let mut at: usize = from;
    let ghost start = out@;
    while at < limit
        invariant
            tree.wf(),
            from <= at <= limit <= tree@.nodes.len(),
            go_walk(tree@, from as int, limit as int, file_path@, file@, opt_str(caller), start)
                == go_walk(
                tree@,
                at as int,
                limit as int,
                file_path@,
                file@,
                opt_str(caller),
                out@,
            ),
        decreases limit - at,
    {
        let end = tree.subtree_end(at, limit);
        let mut inner_caller: Option<String> = None;
        let ghost before = out@;
        if tree.is_kind(at, "type_declaration") {
            declared_type(tree, at, file_path, out);
        } else if let Some((name, kind, qualified)) = declared_function(tree, at) {
            inner_caller = Some(join3(file_path, "::", qualified.as_str()));
            out.add_node(declared_symbol(tree, at, file_path, name, kind, qualified));
        }
        assert(out@ == extended(before, go_symbol(tree@, at as int, file_path@), None));
        if let Some(caller_id) = caller {
            if tree.is_kind(at, "call_expression") {
                if let Some(function) = tree.child_by_field_name(at, "function") {
                    let name = extract_go_call_target(tree, function);
                    let operand = extract_go_operand(tree, function);
                    out.add_call(in_context(raw_call(tree, at, caller_id, name), operand, file));
                }
            }
        }
        assert(out@ == extended(
            before,
            go_symbol(tree@, at as int, file_path@),
            go_call(tree@, at as int, file@, opt_str(caller)),
        ));
        let next_caller: Option<&str> = match &inner_caller {
            Some(text) => Some(text.as_str()),
            None => caller,
        };
        assert(opt_str(next_caller) == go_caller(tree@, at as int, file_path@, opt_str(caller)));
        traverse_go(tree, at + 1, end, file_path, file, next_caller, out);
        at = end;
    }
}

} // verus!
