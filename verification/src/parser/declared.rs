//! Which symbols and calls the sources of each language are seen to hold: for every node of
//! a tree, wherever it stands.

use vstd::prelude::*;
use crate::db::{callee_parts, NodeView, RawCallView};
use crate::ordered::lemma_push_members;
use crate::parser::c_like::{
    c_call, c_caller, c_scope, c_symbol, c_walk, declarator_name, is_macro_name, opened_scope,
    ScopeView,
};
use crate::parser::common::{doc_comment, extended, nothing, signature, ExtractionView};
use crate::parser::go::{
    go_call, go_caller, go_file, go_import, go_import_path, go_imports, go_symbol, go_walk, GoFile,
};
use crate::parser::java_framework::laws::descendants_stand_below;
use crate::parser::rust::{rust_call, rust_caller, rust_owner, rust_symbol, rust_walk};
use crate::parser::syntax::{
    child_in_field, child_named, child_of_kind, descendants, end_of, last_of_kinds,
    lemma_child_bounds, next_of_kind, subtree_end, text_at, trimmed_at, Grammar, TreeView,
};
use crate::parser::walks::{adds_just, holder, reached, some_reached, walk, walks_reach_every_node};
use crate::parser::zig::{
    container_kind, leads_with, without_layout, zig_call, zig_caller, zig_container, zig_function,
    zig_parent, zig_symbol, zig_walk,
};
use crate::parser::extraction;
use crate::paths::is_test_path;
use crate::text::{
    after_last, contains, is_alphanumeric, is_space, split, split_once, squeeze, starts_with,
    trim_end_of, trim_start, trim_start_of,
};

verus! {

/// A name in a scope, or by itself.
pub open spec fn within(scope: Option<Seq<char>>, name: Seq<char>) -> Seq<char> {
    match scope {
        Some(scope) => scope + "::"@ + name,
        None => name,
    }
}

/// The symbol is the one that the node at `at` declares, with the place, the head and the
/// comments of the node.
pub open spec fn is_symbol(
    node: NodeView,
    tree: TreeView,
    at: int,
    file_path: Seq<char>,
    name: Seq<char>,
    kind: Seq<char>,
    qualified: Seq<char>,
) -> bool {
    node == (NodeView {
        id: file_path + "::"@ + qualified,
        name,
        kind,
        qualified_name: Some(qualified),
        file_path,
        start_line: tree.nodes[at].start_row + 1,
        end_line: tree.nodes[at].end_row + 1,
        start_column: tree.nodes[at].start_column,
        end_column: tree.nodes[at].end_column,
        signature: Some(signature(tree, at)),
        doc_comment: doc_comment(tree, at),
        is_test: is_test_path(file_path),
        resolution_kind: None,
        confidence: None,
    })
}

/// The call that the node at `at` makes, with nothing known but the name.
pub open spec fn named_call(
    tree: TreeView,
    at: int,
    caller: Seq<char>,
    name: Seq<char>,
) -> RawCallView {
    RawCallView {
        caller_id: caller,
        callee_name: name,
        callee_simple: callee_parts(name).1,
        callee_scope: callee_parts(name).0,
        call_kind: None,
        receiver_expr: None,
        receiver_type: None,
        package_or_namespace: None,
        import_hint: None,
        line: tree.nodes[at].start_row + 1,
        column: tree.nodes[at].start_column,
        relationship_kind: "calls"@,
        reverse_edge: false,
        target_qualified_hint: None,
        resolution_hint: None,
    }
}

/// What a name is, after its last separator.
pub open spec fn last_of(text: Seq<char>, separator: Seq<char>) -> Seq<char> {
    split(text, separator).last()
}

pub proof fn lemma_extended(
    out: ExtractionView,
    added: Option<NodeView>,
    made: Option<RawCallView>,
    node: NodeView,
    call: RawCallView,
)
    ensures
        extended(out, added, made).nodes.contains(node) <==> out.nodes.contains(node) || added
            == Some(node),
        extended(out, added, made).calls.contains(call) <==> out.calls.contains(call) || made
            == Some(call),
{
    if let Some(one) = added {
        lemma_push_members(out.nodes, one, node);
    }
    if let Some(one) = made {
        lemma_push_members(out.calls, one, call);
    }
}

/// Some node of the tree meets a condition.
pub open spec fn some_node(tree: TreeView, meets: spec_fn(int) -> bool) -> bool {
    exists|at: int| 0 <= at < tree.nodes.len() && #[trigger] meets(at)
}

/// A walk finds what its nodes add, told for each node by what stands around it.
pub proof fn lemma_found<S>(
    tree: TreeView,
    first: S,
    below: spec_fn(int, S) -> S,
    adds: spec_fn(int, S, ExtractionView) -> ExtractionView,
    call: RawCallView,
    gives: spec_fn(int, S) -> bool,
    calls: spec_fn(int) -> bool,
    node: NodeView,
    makes: spec_fn(int, S) -> bool,
    declares: spec_fn(int) -> bool,
)
    requires
        adds_just(adds, call, gives, node, makes),
        forall|at: int|
            makes(at, #[trigger] reached(tree, at, first, below)) == declares(at) && gives(
                at,
                reached(tree, at, first, below),
            ) == calls(at),
    ensures
        ({
            let found = walk(
                tree,
                0,
                tree.nodes.len() as int,
                first,
                below,
                adds,
                nothing(),
            );
            &&& found.nodes.contains(node) <==> some_node(tree, declares)
            &&& found.calls.contains(call) <==> some_node(tree, calls)
        }),
{
    let all = tree.nodes.len() as int;
    walks_reach_every_node(tree, first, below, adds, nothing(), call, gives, node, makes);
    if some_reached(tree, 0, all, first, below, makes) {
        let at = choose|at: int|
            0 <= at < all && makes(at, #[trigger] reached(tree, at, first, below));
        assert(declares(at));
    }
    if some_node(tree, declares) {
        let at = choose|at: int| 0 <= at < all && #[trigger] declares(at);
        assert(makes(at, reached(tree, at, first, below)));
    }
    if some_reached(tree, 0, all, first, below, gives) {
        let at = choose|at: int|
            0 <= at < all && gives(at, #[trigger] reached(tree, at, first, below));
        assert(calls(at));
    }
    if some_node(tree, calls) {
        let at = choose|at: int| 0 <= at < all && #[trigger] calls(at);
        assert(gives(at, reached(tree, at, first, below)));
    }
}

// ---------------------------------------------------------------------------
// Rust

/// The type that the functions around a node are implemented for.
pub open spec fn rust_type_around(tree: TreeView, at: int) -> Option<Seq<char>>
    decreases at,
{
    match holder(tree, at) {
        Some(above) => if 0 <= above < at {
            match child_named(tree, above, "type"@, "type_identifier"@) {
                Some(name) => if tree.nodes[above].kind == "impl_item"@ {
                    Some(text_at(tree, name))
                } else {
                    rust_type_around(tree, above)
                },
                None => rust_type_around(tree, above),
            }
        } else {
            None
        },
        None => None,
    }
}

/// The id of the innermost function around a node.
pub open spec fn rust_function_around(tree: TreeView, at: int, file_path: Seq<char>) -> Option<
    Seq<char>,
>
    decreases at,
{
    match holder(tree, at) {
        Some(above) => if 0 <= above < at {
            match child_named(tree, above, "name"@, "identifier"@) {
                Some(name) => if tree.nodes[above].kind == "function_item"@ {
                    Some(
                        file_path + "::"@ + within(
                            rust_type_around(tree, above),
                            text_at(tree, name),
                        ),
                    )
                } else {
                    rust_function_around(tree, above, file_path)
                },
                None => rust_function_around(tree, above, file_path),
            }
        } else {
            None
        },
        None => None,
    }
}

/// The node declares a type, by the kind of the node, and the symbol is the type.
pub open spec fn rust_declares_type(
    tree: TreeView,
    at: int,
    file_path: Seq<char>,
    item: Seq<char>,
    kind: Seq<char>,
    node: NodeView,
) -> bool {
    tree.nodes[at].kind == item && match child_named(tree, at, "name"@, "type_identifier"@) {
        Some(name) => is_symbol(
            node,
            tree,
            at,
            file_path,
            text_at(tree, name),
            kind,
            text_at(tree, name),
        ),
        None => false,
    }
}

/// The node declares the symbol: a struct, an enum, a trait, a method of the type around
/// it, or a function.
pub open spec fn rust_declares(
    tree: TreeView,
    at: int,
    file_path: Seq<char>,
    node: NodeView,
) -> bool {
    ||| rust_declares_type(tree, at, file_path, "struct_item"@, "struct"@, node)
    ||| rust_declares_type(tree, at, file_path, "enum_item"@, "enum"@, node)
    ||| rust_declares_type(tree, at, file_path, "trait_item"@, "trait"@, node)
    ||| tree.nodes[at].kind == "function_item"@ && match child_named(
        tree,
        at,
        "name"@,
        "identifier"@,
    ) {
        Some(name) => match rust_type_around(tree, at) {
            Some(owner) => is_symbol(
                node,
                tree,
                at,
                file_path,
                text_at(tree, name),
                "method"@,
                owner + "::"@ + text_at(tree, name),
            ),
            None => is_symbol(
                node,
                tree,
                at,
                file_path,
                text_at(tree, name),
                "function"@,
                text_at(tree, name),
            ),
        },
        None => false,
    }
}

/// The name that is called: the last part of a path, the field of an access, or the text.
pub open spec fn rust_callee(tree: TreeView, function: int) -> Seq<char> {
    if tree.nodes[function].kind == "path_expression"@ {
        last_of(text_at(tree, function), "::"@)
    } else if tree.nodes[function].kind == "field_expression"@ {
        match child_in_field(tree, function, "field"@) {
            Some(field) => text_at(tree, field),
            None => last_of(text_at(tree, function), "."@),
        }
    } else {
        text_at(tree, function)
    }
}

/// The node makes the call, in the function around it.
pub open spec fn rust_calls(
    tree: TreeView,
    at: int,
    file_path: Seq<char>,
    call: RawCallView,
) -> bool {
    match rust_function_around(tree, at, file_path) {
        Some(caller) => {
            ||| tree.nodes[at].kind == "call_expression"@ && match child_in_field(
                tree,
                at,
                "function"@,
            ) {
                Some(function) => call == named_call(
                    tree,
                    at,
                    caller,
                    rust_callee(tree, function),
                ),
                None => false,
            }
            ||| tree.nodes[at].kind == "method_call_expression"@ && match child_in_field(
                tree,
                at,
                "name"@,
            ) {
                Some(name) => call == named_call(tree, at, caller, text_at(tree, name)),
                None => false,
            }
        },
        None => false,
    }
}

type Around = (Option<Seq<char>>, Option<Seq<char>>);

spec fn rust_below(tree: TreeView, file_path: Seq<char>) -> spec_fn(int, Around) -> Around {
    |at: int, state: Around|
        (
            rust_owner(tree, at, state.0),
            rust_caller(tree, at, file_path, state.0, state.1),
        )
}

spec fn rust_adds(tree: TreeView, file_path: Seq<char>) -> spec_fn(
    int,
    Around,
    ExtractionView,
) -> ExtractionView {
    |at: int, state: Around, out: ExtractionView|
        extended(
            out,
            rust_symbol(tree, at, file_path, state.0),
            rust_call(tree, at, state.1),
        )
}

proof fn lemma_rust_walk(
    tree: TreeView,
    from: int,
    limit: int,
    file_path: Seq<char>,
    state: Around,
    out: ExtractionView,
)
    ensures
        rust_walk(tree, from, limit, file_path, state.0, state.1, out) == walk(
            tree,
            from,
            limit,
            state,
            rust_below(tree, file_path),
            rust_adds(tree, file_path),
            out,
        ),
    decreases limit - from,
{
    if from < limit {
        let end = subtree_end(tree, from, limit);
        if end > from && end <= limit {
            let here = rust_adds(tree, file_path)(from, state, out);
            let inner = rust_below(tree, file_path)(from, state);
            lemma_rust_walk(tree, from + 1, end, file_path, inner, here);
            let inside = rust_walk(tree, from + 1, end, file_path, inner.0, inner.1, here);
            lemma_rust_walk(tree, end, limit, file_path, state, inside);
        }
    }
}

proof fn lemma_rust_kinds()
    ensures
        "struct_item"@ != "enum_item"@,
        "struct_item"@ != "trait_item"@,
        "struct_item"@ != "function_item"@,
        "enum_item"@ != "trait_item"@,
        "enum_item"@ != "function_item"@,
        "trait_item"@ != "function_item"@,
        "call_expression"@ != "method_call_expression"@,
        "path_expression"@ != "field_expression"@,
{
    reveal_strlit("struct_item");
    reveal_strlit("enum_item");
    reveal_strlit("trait_item");
    reveal_strlit("function_item");
    reveal_strlit("call_expression");
    reveal_strlit("method_call_expression");
    reveal_strlit("path_expression");
    reveal_strlit("field_expression");
    assert("struct_item"@.len() == 11 && "enum_item"@.len() == 9 && "trait_item"@.len() == 10);
    assert("function_item"@.len() == 13);
    assert("call_expression"@.len() == 15 && "method_call_expression"@.len() == 22);
    assert("path_expression"@.len() == 15 && "field_expression"@.len() == 16);
}

proof fn lemma_rust_reached(tree: TreeView, at: int, file_path: Seq<char>)
    ensures
        reached(tree, at, (None, None), rust_below(tree, file_path)) == (
            rust_type_around(tree, at),
            rust_function_around(tree, at, file_path),
        ),
    decreases at,
{
    lemma_rust_kinds();
    if let Some(above) = holder(tree, at) {
        if 0 <= above < at {
            lemma_rust_reached(tree, above, file_path);
        }
    }
}

/// A Rust source holds just the symbols that its nodes declare and the calls that they
/// make: structs, enums and traits under their own names, functions under the type that
/// they are implemented for, and calls under the function around them.
pub proof fn rust_sources_hold_what_they_declare(
    tree: TreeView,
    file_path: Seq<char>,
    node: NodeView,
    call: RawCallView,
)
    ensures
        ({
            let found = extraction(Grammar::Rust, tree, file_path);
            &&& found.nodes.contains(node) <==> some_node(
                tree,
                |at: int| rust_declares(tree, at, file_path, node),
            )
            &&& found.calls.contains(call) <==> some_node(
                tree,
                |at: int| rust_calls(tree, at, file_path, call),
            )
        }),
{
    let all = tree.nodes.len() as int;
    let first: Around = (None, None);
    let below = rust_below(tree, file_path);
    let adds = rust_adds(tree, file_path);
    let makes = |at: int, state: Around| rust_symbol(tree, at, file_path, state.0) == Some(node);
    let gives = |at: int, state: Around| rust_call(tree, at, state.1) == Some(call);
    assert(adds_just(adds, call, gives, node, makes)) by {
        assert forall|at: int, state: Around, out: ExtractionView|
            {
                let after = #[trigger] adds(at, state, out);
                &&& after.calls.contains(call) <==> out.calls.contains(call) || gives(at, state)
                &&& after.nodes.contains(node) <==> out.nodes.contains(node) || makes(at, state)
            } by {
            lemma_extended(
                out,
                rust_symbol(tree, at, file_path, state.0),
                rust_call(tree, at, state.1),
                node,
                call,
            );
        }
    }
    lemma_rust_walk(tree, 0, all, file_path, first, nothing());
    lemma_rust_kinds();
    let declares = |at: int| rust_declares(tree, at, file_path, node);
    let calls = |at: int| rust_calls(tree, at, file_path, call);
    assert forall|at: int| true implies makes(at, #[trigger] reached(tree, at, first, below))
        == declares(at) && gives(at, reached(tree, at, first, below)) == calls(at) by {
        lemma_rust_reached(tree, at, file_path);
    }
    lemma_found(tree, first, below, adds, call, gives, calls, node, makes, declares);
}

// ---------------------------------------------------------------------------
// Go

/// The type of the receiver of a method: the first type that its parameters name.
pub open spec fn go_receiver(tree: TreeView, at: int) -> Option<Seq<char>> {
    match child_named(tree, at, "receiver"@, "parameter_list"@) {
        Some(receiver) => match next_of_kind(
            tree,
            receiver,
            end_of(tree, receiver),
            "type_identifier"@,
        ) {
            Some(name) => Some(text_at(tree, name)),
            None => None,
        },
        None => None,
    }
}

/// The qualified name of the function or method that a node declares.
pub open spec fn go_qualified(tree: TreeView, at: int) -> Option<Seq<char>> {
    if tree.nodes[at].kind == "function_declaration"@ {
        match child_named(tree, at, "name"@, "identifier"@) {
            Some(name) => Some(text_at(tree, name)),
            None => None,
        }
    } else if tree.nodes[at].kind == "method_declaration"@ {
        match child_named(tree, at, "name"@, "field_identifier"@) {
            Some(name) => Some(within(go_receiver(tree, at), text_at(tree, name))),
            None => None,
        }
    } else {
        None
    }
}

/// The id of the innermost function around a node.
pub open spec fn go_function_around(tree: TreeView, at: int, file_path: Seq<char>) -> Option<
    Seq<char>,
>
    decreases at,
{
    match holder(tree, at) {
        Some(above) => if 0 <= above < at {
            match go_qualified(tree, above) {
                Some(qualified) => Some(file_path + "::"@ + qualified),
                None => go_function_around(tree, above, file_path),
            }
        } else {
            None
        },
        None => None,
    }
}

/// The node declares a type of the kind, and the symbol is the type.
pub open spec fn go_declares_type(
    tree: TreeView,
    at: int,
    file_path: Seq<char>,
    kind: Seq<char>,
    node: NodeView,
) -> bool {
    match child_of_kind(tree, at, "type_spec"@) {
        Some(inner) => match child_named(tree, inner, "name"@, "type_identifier"@) {
            Some(name) => {
                let text = text_at(tree, name);
                &&& node.signature == Some("type "@ + signature(tree, inner))
                &&& is_symbol(
                    NodeView { signature: Some(signature(tree, at)), ..node },
                    tree,
                    at,
                    file_path,
                    text,
                    kind,
                    text,
                )
            },
            None => false,
        },
        None => false,
    }
}

/// The node holds a type of the kind in its specification.
pub open spec fn go_holds(tree: TreeView, at: int, kind: Seq<char>) -> bool {
    match child_of_kind(tree, at, "type_spec"@) {
        Some(inner) => child_of_kind(tree, inner, kind) is Some,
        None => false,
    }
}

/// The node declares the symbol: a struct, an interface, a function, or a method of its
/// receiver's type.
pub open spec fn go_declares(
    tree: TreeView,
    at: int,
    file_path: Seq<char>,
    node: NodeView,
) -> bool {
    let kind = tree.nodes[at].kind;
    ||| kind == "type_declaration"@ && go_holds(tree, at, "struct_type"@) && go_declares_type(
        tree,
        at,
        file_path,
        "struct"@,
        node,
    )
    ||| kind == "type_declaration"@ && !go_holds(tree, at, "struct_type"@) && go_holds(
        tree,
        at,
        "interface_type"@,
    ) && go_declares_type(tree, at, file_path, "interface"@, node)
    ||| kind == "function_declaration"@ && match child_named(tree, at, "name"@, "identifier"@) {
        Some(name) => is_symbol(
            node,
            tree,
            at,
            file_path,
            text_at(tree, name),
            "function"@,
            text_at(tree, name),
        ),
        None => false,
    }
    ||| kind == "method_declaration"@ && match child_named(
        tree,
        at,
        "name"@,
        "field_identifier"@,
    ) {
        Some(name) => is_symbol(
            node,
            tree,
            at,
            file_path,
            text_at(tree, name),
            "method"@,
            within(go_receiver(tree, at), text_at(tree, name)),
        ),
        None => false,
    }
}

/// The node makes the call, in the function around it. What stands before the dot is the
/// receiver of a method, unless an import goes by its name.
pub open spec fn go_calls(
    tree: TreeView,
    at: int,
    file_path: Seq<char>,
    call: RawCallView,
) -> bool {
    match (go_function_around(tree, at, file_path), child_in_field(tree, at, "function"@)) {
        (Some(caller), Some(function)) => {
            let selects = tree.nodes[function].kind == "selector_expression"@;
            let name = match child_in_field(tree, function, "field"@) {
                Some(field) => if selects {
                    text_at(tree, field)
                } else {
                    text_at(tree, function)
                },
                None => if selects {
                    last_of(text_at(tree, function), "."@)
                } else {
                    text_at(tree, function)
                },
            };
            let plain = RawCallView {
                package_or_namespace: go_file(tree).package,
                ..named_call(tree, at, caller, name)
            };
            &&& tree.nodes[at].kind == "call_expression"@
            &&& match child_in_field(tree, function, "operand"@) {
                Some(operand) => if selects {
                    let before = trimmed_at(tree, operand);
                    match go_import_path(go_file(tree).imports, before) {
                        Some(path) => call == (RawCallView {
                            call_kind: Some("function"@),
                            receiver_expr: Some(before),
                            import_hint: Some(path),
                            ..plain
                        }),
                        None => call == (RawCallView {
                            call_kind: Some("method"@),
                            receiver_expr: Some(before),
                            ..plain
                        }),
                    }
                } else {
                    call == (RawCallView { call_kind: Some("function"@), ..plain })
                },
                None => call == (RawCallView { call_kind: Some("function"@), ..plain }),
            }
        },
        _ => false,
    }
}

spec fn go_below(tree: TreeView, file_path: Seq<char>) -> spec_fn(
    int,
    Option<Seq<char>>,
) -> Option<Seq<char>> {
    |at: int, state: Option<Seq<char>>| go_caller(tree, at, file_path, state)
}

spec fn go_adds(tree: TreeView, file_path: Seq<char>, file: GoFile) -> spec_fn(
    int,
    Option<Seq<char>>,
    ExtractionView,
) -> ExtractionView {
    |at: int, state: Option<Seq<char>>, out: ExtractionView|
        extended(out, go_symbol(tree, at, file_path), go_call(tree, at, file, state))
}

proof fn lemma_go_walk(
    tree: TreeView,
    from: int,
    limit: int,
    file_path: Seq<char>,
    file: GoFile,
    state: Option<Seq<char>>,
    out: ExtractionView,
)
    ensures
        go_walk(tree, from, limit, file_path, file, state, out) == walk(
            tree,
            from,
            limit,
            state,
            go_below(tree, file_path),
            go_adds(tree, file_path, file),
            out,
        ),
    decreases limit - from,
{
    if from < limit {
        let end = subtree_end(tree, from, limit);
        if end > from && end <= limit {
            let here = go_adds(tree, file_path, file)(from, state, out);
            let inner = go_below(tree, file_path)(from, state);
            lemma_go_walk(tree, from + 1, end, file_path, file, inner, here);
            let inside = go_walk(tree, from + 1, end, file_path, file, inner, here);
            lemma_go_walk(tree, end, limit, file_path, file, state, inside);
        }
    }
}

proof fn lemma_go_kinds()
    ensures
        "type_declaration"@ != "function_declaration"@,
        "type_declaration"@ != "method_declaration"@,
        "function_declaration"@ != "method_declaration"@,
{
    reveal_strlit("type_declaration");
    reveal_strlit("function_declaration");
    reveal_strlit("method_declaration");
    assert("type_declaration"@.len() == 16);
    assert("function_declaration"@.len() == 20);
    assert("method_declaration"@.len() == 18);
}

proof fn lemma_go_reached(tree: TreeView, at: int, file_path: Seq<char>)
    ensures
        reached(tree, at, None, go_below(tree, file_path)) == go_function_around(
            tree,
            at,
            file_path,
        ),
    decreases at,
{
    lemma_go_kinds();
    if let Some(above) = holder(tree, at) {
        if 0 <= above < at {
            lemma_go_reached(tree, above, file_path);
        }
    }
}

/// A Go source holds just the symbols that its nodes declare and the calls that they make.
pub proof fn go_sources_hold_what_they_declare(
    tree: TreeView,
    file_path: Seq<char>,
    node: NodeView,
    call: RawCallView,
)
    ensures
        ({
            let found = extraction(Grammar::Go, tree, file_path);
            &&& found.nodes.contains(node) <==> some_node(
                tree,
                |at: int| go_declares(tree, at, file_path, node),
            )
            &&& found.calls.contains(call) <==> some_node(
                tree,
                |at: int| go_calls(tree, at, file_path, call),
            )
        }),
{
    let all = tree.nodes.len() as int;
    let file = go_file(tree);
    let first: Option<Seq<char>> = None;
    let below = go_below(tree, file_path);
    let adds = go_adds(tree, file_path, file);
    let makes = |at: int, state: Option<Seq<char>>| go_symbol(tree, at, file_path) == Some(node);
    let gives = |at: int, state: Option<Seq<char>>| go_call(tree, at, file, state) == Some(call);
    assert(adds_just(adds, call, gives, node, makes)) by {
        assert forall|at: int, state: Option<Seq<char>>, out: ExtractionView|
            {
                let after = #[trigger] adds(at, state, out);
                &&& after.calls.contains(call) <==> out.calls.contains(call) || gives(at, state)
                &&& after.nodes.contains(node) <==> out.nodes.contains(node) || makes(at, state)
            } by {
            lemma_extended(
                out,
                go_symbol(tree, at, file_path),
                go_call(tree, at, file, state),
                node,
                call,
            );
        }
    }
    lemma_go_walk(tree, 0, all, file_path, file, first, nothing());
    lemma_go_kinds();
    let declares = |at: int| go_declares(tree, at, file_path, node);
    let calls = |at: int| go_calls(tree, at, file_path, call);
    assert forall|at: int| true implies makes(at, #[trigger] reached(tree, at, first, below))
        == declares(at) && gives(at, reached(tree, at, first, below)) == calls(at) by {
        lemma_go_reached(tree, at, file_path);
        lemma_go_symbol(tree, at, file_path, node);
    }
    lemma_found(tree, first, below, adds, call, gives, calls, node, makes, declares);
}

proof fn lemma_go_symbol(tree: TreeView, at: int, file_path: Seq<char>, node: NodeView)
    ensures
        (go_symbol(tree, at, file_path) == Some(node)) == go_declares(tree, at, file_path, node),
{
    lemma_go_kinds();
}

/// The import specification at `at` goes by the name, which is the one it is given or else
/// the last part of its path, and means the path.
pub open spec fn go_imports_as(tree: TreeView, at: int, name: Seq<char>, path: Seq<char>) -> bool {
    match child_in_field(tree, at, "path"@) {
        Some(path_at) => {
            &&& path == trim_end_of(trim_start_of(text_at(tree, path_at), '"'), '"')
            &&& match child_in_field(tree, at, "name"@) {
                Some(given) => name == trimmed_at(tree, given),
                None => name == after_last(path, "/"@),
            }
        },
        None => false,
    }
}

proof fn lemma_go_imports(tree: TreeView, found: Seq<int>, name: Seq<char>)
    ensures
        match go_import_path(go_imports(tree, found), name) {
            Some(path) => exists|i: int|
                0 <= i < found.len() && #[trigger] go_imports_as(tree, found[i], name, path),
            None => forall|i: int, path: Seq<char>|
                0 <= i < found.len() ==> !#[trigger] go_imports_as(tree, found[i], name, path),
        },
    decreases found.len(),
{
    if found.len() > 0 {
        let rest = found.drop_last();
        let last = found.last();
        lemma_go_imports(tree, rest, name);
        let imports = go_imports(tree, found);
        if let Some(one) = go_import(tree, last) {
            assert(imports.drop_last() =~= go_imports(tree, rest));
            if one.0 == name {
                assert(go_imports_as(tree, found[found.len() - 1], name, one.1));
            }
        }
        match go_import_path(imports, name) {
            Some(path) => {
                if go_import_path(go_imports(tree, rest), name) == Some(path) {
                    let i = choose|i: int|
                        0 <= i < rest.len() && #[trigger] go_imports_as(tree, rest[i], name, path);
                    assert(go_imports_as(tree, found[i], name, path));
                }
            },
            None => {
                assert forall|i: int, path: Seq<char>|
                    0 <= i < found.len() implies !#[trigger] go_imports_as(
                    tree,
                    found[i],
                    name,
                    path,
                ) by {
                    if i < rest.len() {
                        assert(!go_imports_as(tree, rest[i], name, path));
                    }
                }
            },
        }
    }
}

/// A name is that of an import exactly if some import specification of the file goes by
/// it, and the path that it means is the path of such a one.
pub proof fn go_imports_are_those_of_the_file(tree: TreeView, name: Seq<char>)
    ensures
        match go_import_path(go_file(tree).imports, name) {
            Some(path) => exists|at: int|
                0 < at < end_of(tree, 0) && tree.nodes[at].kind == "import_spec"@
                    && #[trigger] go_imports_as(tree, at, name, path),
            None => forall|at: int, path: Seq<char>|
                0 < at < end_of(tree, 0) && tree.nodes[at].kind == "import_spec"@
                    ==> !#[trigger] go_imports_as(tree, at, name, path),
        },
{
    let found = descendants(tree, 0, "import_spec"@);
    lemma_go_imports(tree, found, name);
    match go_import_path(go_file(tree).imports, name) {
        Some(path) => {
            let i = choose|i: int|
                0 <= i < found.len() && #[trigger] go_imports_as(tree, found[i], name, path);
            assert(found.contains(found[i]));
            descendants_stand_below(tree, 0, "import_spec"@, found[i]);
        },
        None => {
            assert forall|at: int, path: Seq<char>|
                0 < at < end_of(tree, 0) && tree.nodes[at].kind
                    == "import_spec"@ implies !#[trigger] go_imports_as(tree, at, name, path) by {
                descendants_stand_below(tree, 0, "import_spec"@, at);
                let i = choose|i: int| 0 <= i < found.len() && found[i] == at;
                assert(!go_imports_as(tree, found[i], name, path));
            }
        },
    }
}

// ---------------------------------------------------------------------------
// Zig

/// The kind of container that a variable is given: what follows its first `=`, past a
/// layout, begins with the keyword.
pub open spec fn zig_kind(tree: TreeView, at: int) -> Option<Seq<char>> {
    match split_once(trimmed_at(tree, at), "="@) {
        Some((_, value)) => container_kind(value),
        None => None,
    }
}

/// The node declares a container: a variable with a name and a kind.
pub open spec fn zig_opens(tree: TreeView, at: int) -> bool {
    tree.nodes[at].kind == "variable_declaration"@ && child_of_kind(tree, at, "identifier"@) is Some
        && zig_kind(tree, at) is Some
}

/// The name of the container that a node declares.
pub open spec fn zig_opened(tree: TreeView, at: int) -> Seq<char> {
    trimmed_at(tree, child_of_kind(tree, at, "identifier"@)->0)
}

/// The node declares a function with a name.
pub open spec fn zig_defines(tree: TreeView, at: int) -> bool {
    tree.nodes[at].kind == "function_declaration"@ && match child_in_field(tree, at, "name"@) {
        Some(name) => trimmed_at(tree, name).len() > 0,
        None => false,
    }
}

/// The name of the function that a node declares.
pub open spec fn zig_defined(tree: TreeView, at: int) -> Seq<char> {
    trimmed_at(tree, child_in_field(tree, at, "name"@)->0)
}

/// The qualified name of the innermost container around a node.
pub open spec fn zig_container_around(tree: TreeView, at: int) -> Option<Seq<char>>
    decreases at,
{
    match holder(tree, at) {
        Some(above) => if 0 <= above < at {
            let outer = zig_container_around(tree, above);
            if zig_opens(tree, above) {
                Some(within(outer, zig_opened(tree, above)))
            } else {
                outer
            }
        } else {
            None
        },
        None => None,
    }
}

/// The id of the innermost function around a node, within the innermost container.
pub open spec fn zig_function_around(tree: TreeView, at: int, file_path: Seq<char>) -> Option<
    Seq<char>,
>
    decreases at,
{
    match holder(tree, at) {
        Some(above) => if 0 <= above < at {
            if zig_opens(tree, above) {
                None
            } else if zig_defines(tree, above) {
                Some(
                    file_path + "::"@ + within(
                        zig_container_around(tree, above),
                        zig_defined(tree, above),
                    ),
                )
            } else {
                zig_function_around(tree, above, file_path)
            }
        } else {
            None
        },
        None => None,
    }
}

/// The node declares the symbol: a container, a method of the container around it, or a
/// function.
pub open spec fn zig_declares(
    tree: TreeView,
    at: int,
    file_path: Seq<char>,
    node: NodeView,
) -> bool {
    let around = zig_container_around(tree, at);
    ||| zig_opens(tree, at) && is_symbol(
        node,
        tree,
        at,
        file_path,
        zig_opened(tree, at),
        zig_kind(tree, at)->0,
        within(around, zig_opened(tree, at)),
    )
    ||| zig_defines(tree, at) && around is Some && is_symbol(
        node,
        tree,
        at,
        file_path,
        zig_defined(tree, at),
        "method"@,
        around->0 + "::"@ + zig_defined(tree, at),
    )
    ||| zig_defines(tree, at) && around is None && is_symbol(
        node,
        tree,
        at,
        file_path,
        zig_defined(tree, at),
        "function"@,
        zig_defined(tree, at),
    )
}

/// The name that is called: an identifier, the field of an access, or the last identifier
/// in what is called.
pub open spec fn zig_callee(tree: TreeView, function: int) -> Seq<char> {
    if tree.nodes[function].kind == "identifier"@ {
        trimmed_at(tree, function)
    } else if tree.nodes[function].kind == "field_expression"@ {
        match child_in_field(tree, function, "field"@) {
            Some(field) => trimmed_at(tree, field),
            None => last_of(trimmed_at(tree, function), "."@),
        }
    } else {
        match last_of_kinds(tree, function, end_of(tree, function), seq!["identifier"@]) {
            Some(name) => trimmed_at(tree, name),
            None => trimmed_at(tree, function),
        }
    }
}

/// The node makes the call, in the function around it.
pub open spec fn zig_calls(
    tree: TreeView,
    at: int,
    file_path: Seq<char>,
    call: RawCallView,
) -> bool {
    match (zig_function_around(tree, at, file_path), child_in_field(tree, at, "function"@)) {
        (Some(caller), Some(function)) => tree.nodes[at].kind == "call_expression"@ && call
            == named_call(tree, at, caller, zig_callee(tree, function)),
        _ => false,
    }
}

spec fn zig_below(tree: TreeView, file_path: Seq<char>) -> spec_fn(int, Around) -> Around {
    |at: int, state: Around|
        (zig_parent(tree, at, state.0), zig_caller(tree, at, file_path, state.0, state.1))
}

spec fn zig_adds(tree: TreeView, file_path: Seq<char>) -> spec_fn(
    int,
    Around,
    ExtractionView,
) -> ExtractionView {
    |at: int, state: Around, out: ExtractionView|
        extended(out, zig_symbol(tree, at, file_path, state.0), zig_call(tree, at, state.1))
}

proof fn lemma_zig_walk(
    tree: TreeView,
    from: int,
    limit: int,
    file_path: Seq<char>,
    state: Around,
    out: ExtractionView,
)
    ensures
        zig_walk(tree, from, limit, file_path, state.0, state.1, out) == walk(
            tree,
            from,
            limit,
            state,
            zig_below(tree, file_path),
            zig_adds(tree, file_path),
            out,
        ),
    decreases limit - from,
{
    if from < limit {
        let end = subtree_end(tree, from, limit);
        if end > from && end <= limit {
            let here = zig_adds(tree, file_path)(from, state, out);
            let inner = zig_below(tree, file_path)(from, state);
            lemma_zig_walk(tree, from + 1, end, file_path, inner, here);
            let inside = zig_walk(tree, from + 1, end, file_path, inner.0, inner.1, here);
            lemma_zig_walk(tree, end, limit, file_path, state, inside);
        }
    }
}

/// The empty text declares no container.
proof fn lemma_no_container()
    ensures
        container_kind(seq![]) is None,
{
    reveal_strlit("packed ");
    reveal_strlit("ex");
    reveal_strlit("tern ");
    reveal_strlit("struct");
    reveal_strlit("enum");
    reveal_strlit("union");
    let none: Seq<char> = seq![];
    assert(trim_start(none) == none);
    assert(without_layout(none) == none);
}

proof fn lemma_zig_node(tree: TreeView, at: int)
    ensures
        zig_container(tree, at) == if zig_opens(tree, at) {
            Some((zig_opened(tree, at), zig_kind(tree, at)->0))
        } else {
            None
        },
        !zig_opens(tree, at) ==> zig_function(tree, at) == if zig_defines(tree, at) {
            Some(zig_defined(tree, at))
        } else {
            None
        },
        zig_opens(tree, at) ==> !zig_defines(tree, at),
{
    lemma_no_container();
    reveal_strlit("variable_declaration");
    reveal_strlit("function_declaration");
    assert("variable_declaration"@[0] == 'v' && "function_declaration"@[0] == 'f');
}

proof fn lemma_zig_reached(tree: TreeView, at: int, file_path: Seq<char>)
    ensures
        reached(tree, at, (None, None), zig_below(tree, file_path)) == (
            zig_container_around(tree, at),
            zig_function_around(tree, at, file_path),
        ),
    decreases at,
{
    if let Some(above) = holder(tree, at) {
        if 0 <= above < at {
            lemma_zig_reached(tree, above, file_path);
            lemma_zig_node(tree, above);
        }
    }
}

/// A Zig source holds just the symbols that its nodes declare and the calls that they make.
pub proof fn zig_sources_hold_what_they_declare(
    tree: TreeView,
    file_path: Seq<char>,
    node: NodeView,
    call: RawCallView,
)
    ensures
        ({
            let found = extraction(Grammar::Zig, tree, file_path);
            &&& found.nodes.contains(node) <==> some_node(
                tree,
                |at: int| zig_declares(tree, at, file_path, node),
            )
            &&& found.calls.contains(call) <==> some_node(
                tree,
                |at: int| zig_calls(tree, at, file_path, call),
            )
        }),
{
    let all = tree.nodes.len() as int;
    let first: Around = (None, None);
    let below = zig_below(tree, file_path);
    let adds = zig_adds(tree, file_path);
    let makes = |at: int, state: Around| zig_symbol(tree, at, file_path, state.0) == Some(node);
    let gives = |at: int, state: Around| zig_call(tree, at, state.1) == Some(call);
    assert(adds_just(adds, call, gives, node, makes)) by {
        assert forall|at: int, state: Around, out: ExtractionView|
            {
                let after = #[trigger] adds(at, state, out);
                &&& after.calls.contains(call) <==> out.calls.contains(call) || gives(at, state)
                &&& after.nodes.contains(node) <==> out.nodes.contains(node) || makes(at, state)
            } by {
            lemma_extended(
                out,
                zig_symbol(tree, at, file_path, state.0),
                zig_call(tree, at, state.1),
                node,
                call,
            );
        }
    }
    lemma_zig_walk(tree, 0, all, file_path, first, nothing());
    let declares = |at: int| zig_declares(tree, at, file_path, node);
    let calls = |at: int| zig_calls(tree, at, file_path, call);
    assert forall|at: int| true implies makes(at, #[trigger] reached(tree, at, first, below))
        == declares(at) && gives(at, reached(tree, at, first, below)) == calls(at) by {
        lemma_zig_reached(tree, at, file_path);
        lemma_zig_node(tree, at);
    }
    lemma_found(tree, first, below, adds, call, gives, calls, node, makes, declares);
}

/// What begins with `struct`, `enum` or `union` as a word of its own is a container of that
/// kind, packed or not.
pub proof fn zig_containers_begin_with_their_keyword(rest: Seq<char>)
    requires
        rest.len() == 0 || (!is_alphanumeric(rest[0]) && rest[0] != '_'),
    ensures
        container_kind("struct"@ + rest) == Some("struct"@),
        container_kind("enum"@ + rest) == Some("enum"@),
        container_kind("union"@ + rest) == Some("union"@),
        container_kind("packed "@ + ("struct"@ + rest)) == Some("struct"@),
        container_kind("packed "@ + ("enum"@ + rest)) == Some("enum"@),
        container_kind("packed "@ + ("union"@ + rest)) == Some("union"@),
{
    reveal_strlit("packed ");
    reveal_strlit("ex");
    reveal_strlit("tern ");
    reveal_strlit("struct");
    reveal_strlit("enum");
    reveal_strlit("union");
    lemma_zig_keyword("struct"@, rest);
    lemma_zig_keyword("enum"@, rest);
    lemma_zig_keyword("union"@, rest);
    let names_struct = "struct"@ + rest;
    let names_enum = "enum"@ + rest;
    let names_union = "union"@ + rest;
    assert(names_struct[0] == 's' && names_enum[0] == 'e' && names_union[0] == 'u');
    assert(!leads_with(names_enum, "struct"@)) by {
        if starts_with(names_enum, "struct"@) {
            assert(names_enum.subrange(0, 6)[0] == 'e');
        }
    }
    assert(!leads_with(names_union, "struct"@)) by {
        if starts_with(names_union, "struct"@) {
            assert(names_union.subrange(0, 6)[0] == 'u');
        }
    }
    assert(!leads_with(names_union, "enum"@)) by {
        if starts_with(names_union, "enum"@) {
            assert(names_union.subrange(0, 4)[0] == 'u');
        }
    }
}

proof fn lemma_zig_keyword(keyword: Seq<char>, rest: Seq<char>)
    requires
        rest.len() == 0 || (!is_alphanumeric(rest[0]) && rest[0] != '_'),
        keyword == "struct"@ || keyword == "enum"@ || keyword == "union"@,
    ensures
        leads_with(keyword + rest, keyword),
        without_layout(keyword + rest) == keyword + rest,
        without_layout("packed "@ + (keyword + rest)) == keyword + rest,
{
    reveal_strlit("packed ");
    reveal_strlit("ex");
    reveal_strlit("tern ");
    reveal_strlit("struct");
    reveal_strlit("enum");
    reveal_strlit("union");
    let text = keyword + rest;
    assert(text[0] == keyword[0]);
    assert(text[1] == keyword[1]);
    assert(text.subrange(0, keyword.len() as int) =~= keyword);
    assert(text.skip(keyword.len() as int) =~= rest);
    assert(!is_space(text[0]));
    let layout = "ex"@ + "tern "@;
    assert(!starts_with(text, "packed "@)) by {
        if starts_with(text, "packed "@) {
            assert(text.subrange(0, 7)[0] == 'p');
        }
    }
    assert(!starts_with(text, layout)) by {
        if starts_with(text, layout) {
            assert(text.subrange(0, 7)[1] == layout[1]);
            assert(layout[1] == 'x');
        }
    }
    let packed = "packed "@ + text;
    assert(packed[0] == 'p');
    assert(packed.subrange(0, 7) =~= "packed "@);
    assert(packed.skip(7) =~= text);
}

// ---------------------------------------------------------------------------
// C and C++

/// The text of a node without any white space, where that leaves something.
pub open spec fn c_text(tree: TreeView, at: Option<int>) -> Option<Seq<char>> {
    match at {
        Some(at) => if squeeze(trimmed_at(tree, at)).len() > 0 {
            Some(squeeze(trimmed_at(tree, at)))
        } else {
            None
        },
        None => None,
    }
}

/// The name of the namespace that a node opens.
pub open spec fn c_namespace(tree: TreeView, at: int) -> Option<Seq<char>> {
    if tree.nodes[at].kind == "namespace_definition"@ {
        c_text(tree, child_in_field(tree, at, "name"@))
    } else {
        None
    }
}

/// The name of the type that a node of the kind declares: what fills its `name`, or else a
/// type's identifier, or else any identifier.
pub open spec fn c_type(tree: TreeView, at: int, kind: Seq<char>) -> Option<Seq<char>> {
    if tree.nodes[at].kind == kind {
        match child_in_field(tree, at, "name"@) {
            Some(name) => c_text(tree, Some(name)),
            None => match child_of_kind(tree, at, "type_identifier"@) {
                Some(name) => c_text(tree, Some(name)),
                None => c_text(tree, child_of_kind(tree, at, "identifier"@)),
            },
        }
    } else {
        None
    }
}

/// The name of the scope that a node opens, and whether it is a type.
pub open spec fn c_opens(tree: TreeView, at: int) -> Option<(Seq<char>, bool)> {
    match c_namespace(tree, at) {
        Some(name) => Some((name, false)),
        None => match c_type(tree, at, "class_specifier"@) {
            Some(name) => Some((name, true)),
            None => match c_type(tree, at, "struct_specifier"@) {
                Some(name) => Some((name, true)),
                None => None,
            },
        },
    }
}

/// The name that a function's declarator gives it.
pub open spec fn c_defines(tree: TreeView, at: int) -> Option<Seq<char>> {
    match child_in_field(tree, at, "declarator"@) {
        Some(declarator) => match declarator_name(tree, declarator) {
            Some(full) => if tree.nodes[at].kind == "function_definition"@ && full.len() > 0 {
                Some(full)
            } else {
                None
            },
            None => None,
        },
        None => None,
    }
}

/// The name of a function without its path and without the `~` of a destructor.
pub open spec fn c_simple(full: Seq<char>) -> Seq<char> {
    trim_start_of(after_last(full, "::"@), '~')
}

/// A function within a scope: one that is defined out of line keeps its path.
pub open spec fn c_qualified(scope: Option<Seq<char>>, full: Seq<char>) -> Seq<char> {
    if contains(full, "::"@) {
        within(scope, full)
    } else {
        within(scope, c_simple(full))
    }
}

/// The qualified name of the innermost scope around a node.
pub open spec fn c_scope_around(tree: TreeView, at: int) -> Option<Seq<char>>
    decreases at,
{
    match holder(tree, at) {
        Some(above) => if 0 <= above < at {
            match c_opens(tree, above) {
                Some((name, _)) => Some(within(c_scope_around(tree, above), name)),
                None => c_scope_around(tree, above),
            }
        } else {
            None
        },
        None => None,
    }
}

/// The innermost scope around a node is a type.
pub open spec fn c_is_in_type(tree: TreeView, at: int) -> bool
    decreases at,
{
    match holder(tree, at) {
        Some(above) => 0 <= above < at && match c_opens(tree, above) {
            Some((_, is_type)) => is_type,
            None => c_is_in_type(tree, above),
        },
        None => false,
    }
}

/// The id of the innermost function around a node, within the innermost scope.
pub open spec fn c_function_around(tree: TreeView, at: int, file_path: Seq<char>) -> Option<
    Seq<char>,
>
    decreases at,
{
    match holder(tree, at) {
        Some(above) => if 0 <= above < at {
            if c_opens(tree, above) is Some {
                None
            } else {
                match c_defines(tree, above) {
                    Some(full) => Some(
                        file_path + "::"@ + c_qualified(c_scope_around(tree, above), full),
                    ),
                    None => c_function_around(tree, above, file_path),
                }
            }
        } else {
            None
        },
        None => None,
    }
}

/// The node opens a scope of the name and kind, and the symbol is the scope.
pub open spec fn c_declares_scope(
    tree: TreeView,
    at: int,
    file_path: Seq<char>,
    name: Option<Seq<char>>,
    kind: Seq<char>,
    node: NodeView,
) -> bool {
    match name {
        Some(name) => is_symbol(
            node,
            tree,
            at,
            file_path,
            name,
            kind,
            within(c_scope_around(tree, at), name),
        ),
        None => false,
    }
}

/// The node declares the symbol: a namespace, a class, a struct, a method or a function.
pub open spec fn c_declares(
    tree: TreeView,
    at: int,
    file_path: Seq<char>,
    node: NodeView,
) -> bool {
    ||| c_declares_scope(tree, at, file_path, c_namespace(tree, at), "namespace"@, node)
    ||| c_declares_scope(
        tree,
        at,
        file_path,
        c_type(tree, at, "class_specifier"@),
        "class"@,
        node,
    )
    ||| c_declares_scope(
        tree,
        at,
        file_path,
        c_type(tree, at, "struct_specifier"@),
        "struct"@,
        node,
    )
    ||| match c_defines(tree, at) {
        Some(full) => is_symbol(
            node,
            tree,
            at,
            file_path,
            c_simple(full),
            if c_is_in_type(tree, at) || contains(full, "::"@) {
                "method"@
            } else {
                "function"@
            },
            c_qualified(c_scope_around(tree, at), full),
        ),
        None => false,
    }
}

/// The name that is called: a name itself, the field of an access, or what is called as a
/// declarator would be named.
pub open spec fn c_callee(tree: TreeView, function: int) -> Seq<char> {
    let kind = tree.nodes[function].kind;
    if kind == "identifier"@ || kind == "field_identifier"@ || kind == "type_identifier"@ || kind
        == "qualified_identifier"@ {
        squeeze(trimmed_at(tree, function))
    } else if kind == "field_expression"@ {
        match child_in_field(tree, function, "field"@) {
            Some(field) => trimmed_at(tree, field),
            None => last_of(trimmed_at(tree, function), "."@),
        }
    } else {
        match declarator_name(tree, function) {
            Some(name) => name,
            None => squeeze(trimmed_at(tree, function)),
        }
    }
}

/// What is called is a pointer or an item of a table.
pub open spec fn c_is_pointer(tree: TreeView, function: int) -> bool {
    let kind = tree.nodes[function].kind;
    ||| kind == "pointer_expression"@
    ||| kind == "subscript_expression"@
    ||| kind == "parenthesized_expression"@ && child_of_kind(
        tree,
        function,
        "pointer_expression"@,
    ) is Some
}

/// The text is made of capitals, digits and underscores, with a capital among them.
pub open spec fn is_capitals(text: Seq<char>) -> bool {
    &&& forall|i: int|
        0 <= i < text.len() ==> {
            ||| 'A' <= #[trigger] text[i] <= 'Z'
            ||| '0' <= text[i] <= '9'
            ||| text[i] == '_'
        }
    &&& exists|i: int| 0 <= i < text.len() && 'A' <= #[trigger] text[i] <= 'Z'
}

/// The node makes the call, in the function around it.
pub open spec fn c_calls(
    tree: TreeView,
    at: int,
    file_path: Seq<char>,
    call: RawCallView,
) -> bool {
    match (c_function_around(tree, at, file_path), child_in_field(tree, at, "function"@)) {
        (Some(caller), Some(function)) => {
            let plain = named_call(tree, at, caller, c_callee(tree, function));
            &&& tree.nodes[at].kind == "call_expression"@
            &&& if c_is_pointer(tree, function) {
                call == (RawCallView { call_kind: Some("indirect"@), ..plain })
            } else if tree.nodes[function].kind == "identifier"@ && is_capitals(
                trimmed_at(tree, function),
            ) {
                call == (RawCallView { call_kind: Some("macro_or_function"@), ..plain })
            } else {
                call == plain
            }
        },
        _ => false,
    }
}

/// A declarator around another declares what that one does. Otherwise a name declares
/// itself, and anything else the last name in it.
pub proof fn c_declarators_lead_to_names(tree: TreeView, at: int)
    requires
        0 <= at < tree.nodes.len(),
    ensures
        match child_in_field(tree, at, "declarator"@) {
            Some(inner) => declarator_name(tree, at) == declarator_name(tree, inner),
            None => if tree.nodes[at].kind == "identifier"@ || tree.nodes[at].kind
                == "field_identifier"@ || tree.nodes[at].kind == "type_identifier"@
                || tree.nodes[at].kind == "qualified_identifier"@ || tree.nodes[at].kind
                == "destructor_name"@ {
                declarator_name(tree, at) == Some(squeeze(trimmed_at(tree, at)))
            } else {
                declarator_name(tree, at) == match last_of_kinds(
                    tree,
                    at,
                    end_of(tree, at),
                    seq![
                        "qualified_identifier"@,
                        "field_identifier"@,
                        "type_identifier"@,
                        "identifier"@,
                        "destructor_name"@,
                    ],
                ) {
                    Some(name) => Some(squeeze(trimmed_at(tree, name))),
                    None => None,
                }
            },
        },
{
    lemma_child_bounds(tree, at, "declarator"@, "declarator"@);
}

type CAround = (ScopeView, Option<Seq<char>>);

spec fn c_below(tree: TreeView, file_path: Seq<char>) -> spec_fn(int, CAround) -> CAround {
    |at: int, state: CAround|
        (c_scope(tree, at, state.0), c_caller(tree, at, file_path, state.0, state.1))
}

spec fn c_adds(tree: TreeView, file_path: Seq<char>) -> spec_fn(
    int,
    CAround,
    ExtractionView,
) -> ExtractionView {
    |at: int, state: CAround, out: ExtractionView|
        extended(out, c_symbol(tree, at, file_path, state.0), c_call(tree, at, state.1))
}

proof fn lemma_c_walk(
    tree: TreeView,
    from: int,
    limit: int,
    file_path: Seq<char>,
    state: CAround,
    out: ExtractionView,
)
    ensures
        c_walk(tree, from, limit, file_path, state.0, state.1, out) == walk(
            tree,
            from,
            limit,
            state,
            c_below(tree, file_path),
            c_adds(tree, file_path),
            out,
        ),
    decreases limit - from,
{
    if from < limit {
        let end = subtree_end(tree, from, limit);
        if end > from && end <= limit {
            let here = c_adds(tree, file_path)(from, state, out);
            let inner = c_below(tree, file_path)(from, state);
            lemma_c_walk(tree, from + 1, end, file_path, inner, here);
            let inside = c_walk(tree, from + 1, end, file_path, inner.0, inner.1, here);
            lemma_c_walk(tree, end, limit, file_path, state, inside);
        }
    }
}

proof fn lemma_c_kinds()
    ensures
        "namespace_definition"@ != "class_specifier"@,
        "namespace_definition"@ != "struct_specifier"@,
        "namespace_definition"@ != "function_definition"@,
        "class_specifier"@ != "struct_specifier"@,
        "class_specifier"@ != "function_definition"@,
        "struct_specifier"@ != "function_definition"@,
{
    reveal_strlit("namespace_definition");
    reveal_strlit("class_specifier");
    reveal_strlit("struct_specifier");
    reveal_strlit("function_definition");
    assert("namespace_definition"@.len() == 20 && "class_specifier"@.len() == 15);
    assert("struct_specifier"@.len() == 16 && "function_definition"@.len() == 19);
}

proof fn lemma_c_node(tree: TreeView, at: int)
    ensures
        match c_opens(tree, at) {
            Some((name, is_type)) => opened_scope(tree, at) == Some(
                (
                    name,
                    if c_namespace(tree, at) is Some {
                        "namespace"@
                    } else if c_type(tree, at, "class_specifier"@) is Some {
                        "class"@
                    } else {
                        "struct"@
                    },
                    is_type,
                ),
            ),
            None => opened_scope(tree, at) is None,
        },
        c_opens(tree, at) is Some ==> c_defines(tree, at) is None,
        c_namespace(tree, at) is Some ==> c_type(tree, at, "class_specifier"@) is None && c_type(
            tree,
            at,
            "struct_specifier"@,
        ) is None,
        c_type(tree, at, "class_specifier"@) is Some ==> c_type(
            tree,
            at,
            "struct_specifier"@,
        ) is None,
{
    lemma_c_kinds();
}

proof fn lemma_c_reached(tree: TreeView, at: int, file_path: Seq<char>)
    ensures
        ({
            let first = (ScopeView { parent: None, parent_is_type: false }, None);
            let state = reached(tree, at, first, c_below(tree, file_path));
            &&& state.0.parent == c_scope_around(tree, at)
            &&& state.0.parent_is_type == c_is_in_type(tree, at)
            &&& state.1 == c_function_around(tree, at, file_path)
        }),
    decreases at,
{
    if let Some(above) = holder(tree, at) {
        if 0 <= above < at {
            lemma_c_reached(tree, above, file_path);
            lemma_c_node(tree, above);
        }
    }
}

proof fn lemma_c_here(
    tree: TreeView,
    at: int,
    file_path: Seq<char>,
    node: NodeView,
    call: RawCallView,
)
    ensures
        ({
            let first = (ScopeView { parent: None, parent_is_type: false }, None);
            let state = reached(tree, at, first, c_below(tree, file_path));
            &&& (c_symbol(tree, at, file_path, state.0) == Some(node)) == c_declares(
                tree,
                at,
                file_path,
                node,
            )
            &&& (c_call(tree, at, state.1) == Some(call)) == c_calls(tree, at, file_path, call)
        }),
{
    lemma_c_reached(tree, at, file_path);
    lemma_c_node(tree, at);
    if let Some(function) = child_in_field(tree, at, "function"@) {
        assert(is_capitals(trimmed_at(tree, function)) == is_macro_name(
            trimmed_at(tree, function),
        ));
    }
}

/// A C or C++ source holds just the symbols that its nodes declare and the calls that they
/// make.
pub proof fn c_sources_hold_what_they_declare(
    tree: TreeView,
    file_path: Seq<char>,
    node: NodeView,
    call: RawCallView,
)
    ensures
        ({
            let found = extraction(Grammar::C, tree, file_path);
            &&& found == extraction(Grammar::Cpp, tree, file_path)
            &&& found.nodes.contains(node) <==> some_node(
                tree,
                |at: int| c_declares(tree, at, file_path, node),
            )
            &&& found.calls.contains(call) <==> some_node(
                tree,
                |at: int| c_calls(tree, at, file_path, call),
            )
        }),
{
    let all = tree.nodes.len() as int;
    let first: CAround = (ScopeView { parent: None, parent_is_type: false }, None);
    let below = c_below(tree, file_path);
    let adds = c_adds(tree, file_path);
    let makes = |at: int, state: CAround| c_symbol(tree, at, file_path, state.0) == Some(node);
    let gives = |at: int, state: CAround| c_call(tree, at, state.1) == Some(call);
    assert(adds_just(adds, call, gives, node, makes)) by {
        assert forall|at: int, state: CAround, out: ExtractionView|
            {
                let after = #[trigger] adds(at, state, out);
                &&& after.calls.contains(call) <==> out.calls.contains(call) || gives(at, state)
                &&& after.nodes.contains(node) <==> out.nodes.contains(node) || makes(at, state)
            } by {
            lemma_extended(
                out,
                c_symbol(tree, at, file_path, state.0),
                c_call(tree, at, state.1),
                node,
                call,
            );
        }
    }
    lemma_c_walk(tree, 0, all, file_path, first, nothing());
    let declares = |at: int| c_declares(tree, at, file_path, node);
    let calls = |at: int| c_calls(tree, at, file_path, call);
    assert forall|at: int| true implies makes(at, #[trigger] reached(tree, at, first, below))
        == declares(at) && gives(at, reached(tree, at, first, below)) == calls(at) by {
        lemma_c_here(tree, at, file_path, node, call);
    }
    lemma_found(tree, first, below, adds, call, gives, calls, node, makes, declares);
}

} // verus!
