//! Rust sources: structs, enums, traits, methods, free functions and calls.

use vstd::prelude::*;
use crate::db::{NodeView, RawCallView};
use crate::parser::common::{
    call_at, declared_symbol, extended, final_part, last_split, qualified_name, raw_call, scoped,
    symbol_at, symbol_id, Extraction, ExtractionView,
};
use crate::parser::syntax::{
    child_in_field, child_named, subtree_end, text_at, SyntaxTree, TreeView,
};
use crate::text::{join3, opt_str};

verus! {

/// The kind of the symbol that a type declaration makes.
pub open spec fn rust_type_kind(kind: Seq<char>) -> Option<Seq<char>> {
    if kind == "struct_item"@ {
        Some("struct"@)
    } else if kind == "enum_item"@ {
        Some("enum"@)
    } else if kind == "trait_item"@ {
        Some("trait"@)
    } else {
        None
    }
}

/// The symbol that a node declares: a type by its name, a function within the type
/// that it is implemented for.
pub open spec fn rust_symbol(
    tree: TreeView,
    at: int,
    file_path: Seq<char>,
    owner: Option<Seq<char>>,
) -> Option<NodeView> {
    let kind = tree.nodes[at].kind;
    match rust_type_kind(kind) {
        Some(symbol_kind) => match child_named(tree, at, "name"@, "type_identifier"@) {
            Some(name) => Some(
                symbol_at(
                    tree,
                    at,
                    file_path,
                    text_at(tree, name),
                    symbol_kind,
                    text_at(tree, name),
                ),
            ),
            None => None,
        },
        None => if kind == "function_item"@ {
            match child_named(tree, at, "name"@, "identifier"@) {
                Some(name) => Some(
                    symbol_at(
                        tree,
                        at,
                        file_path,
                        text_at(tree, name),
                        if owner is Some {
                            "method"@
                        } else {
                            "function"@
                        },
                        scoped(owner, text_at(tree, name)),
                    ),
                ),
                None => None,
            }
        } else {
            None
        },
    }
}

/// The type that functions below a node are implemented for.
pub open spec fn rust_owner(tree: TreeView, at: int, owner: Option<Seq<char>>) -> Option<Seq<char>> {
    if tree.nodes[at].kind == "impl_item"@ {
        match child_named(tree, at, "type"@, "type_identifier"@) {
            Some(name) => Some(text_at(tree, name)),
            None => owner,
        }
    } else {
        owner
    }
}

/// The id of the function that calls below a node are made in.
pub open spec fn rust_caller(
    tree: TreeView,
    at: int,
    file_path: Seq<char>,
    owner: Option<Seq<char>>,
    caller: Option<Seq<char>>,
) -> Option<Seq<char>> {
    let kind = tree.nodes[at].kind;
    if rust_type_kind(kind) is None && kind == "function_item"@ {
        match child_named(tree, at, "name"@, "identifier"@) {
            Some(name) => Some(symbol_id(file_path, scoped(owner, text_at(tree, name)))),
            None => caller,
        }
    } else {
        caller
    }
}

/// The name that a call goes by.
pub open spec fn rust_call_target(tree: TreeView, at: int) -> Seq<char> {
    let kind = tree.nodes[at].kind;
    if kind == "path_expression"@ {
        final_part(text_at(tree, at), "::"@)
    } else if kind == "field_expression"@ {
        match child_in_field(tree, at, "field"@) {
            Some(field) => text_at(tree, field),
            None => final_part(text_at(tree, at), "."@),
        }
    } else {
        text_at(tree, at)
    }
}

/// The call that a node makes within a function.
pub open spec fn rust_call(tree: TreeView, at: int, caller: Option<Seq<char>>) -> Option<
    RawCallView,
> {
    let kind = tree.nodes[at].kind;
    match caller {
        Some(caller) => if kind == "call_expression"@ {
            match child_in_field(tree, at, "function"@) {
                Some(function) => Some(
                    call_at(tree, at, caller, rust_call_target(tree, function)),
                ),
                None => None,
            }
        } else if kind == "method_call_expression"@ {
            match child_in_field(tree, at, "name"@) {
                Some(name) => Some(call_at(tree, at, caller, text_at(tree, name))),
                None => None,
            }
        } else {
            None
        },
        None => None,
    }
}

/// What the subtrees from `from` up to `limit` add to an extraction.
pub open spec fn rust_walk(
    tree: TreeView,
    from: int,
    limit: int,
    file_path: Seq<char>,
    owner: Option<Seq<char>>,
    caller: Option<Seq<char>>,
    out: ExtractionView,
) -> ExtractionView
    decreases limit - from,
{
    if from >= limit {
        out
    } else {
        let end = subtree_end(tree, from, limit);
        if end <= from || end > limit {
            out
        } else {
            let here = extended(
                out,
                rust_symbol(tree, from, file_path, owner),
                rust_call(tree, from, caller),
            );
            let inside = rust_walk(
                tree,
                from + 1,
                end,
                file_path,
                rust_owner(tree, from, owner),
                rust_caller(tree, from, file_path, owner, caller),
                here,
            );
            rust_walk(tree, end, limit, file_path, owner, caller, inside)
        }
    }
}

/// The name that the call at `at` goes by.
pub fn extract_rust_call_target(tree: &SyntaxTree, at: usize) -> (name: String)
    requires
        tree.wf(),
        at < tree@.nodes.len(),
    ensures
        name@ == rust_call_target(tree@, at as int),
{
    proof {
        reveal_strlit("::");
        reveal_strlit(".");
    }
    if tree.is_kind(at, "path_expression") {
        last_split(tree.text(at).as_str(), "::")
    } else if tree.is_kind(at, "field_expression") {
        match tree.child_by_field_name(at, "field") {
            Some(field) => tree.text(field),
            None => last_split(tree.text(at).as_str(), "."),
        }
    } else {
        tree.text(at)
    }
}

fn type_kind(tree: &SyntaxTree, at: usize) -> (kind: Option<&'static str>)
    requires
        at < tree@.nodes.len(),
    ensures
        opt_str(kind) == rust_type_kind(tree@.nodes[at as int].kind),
{
    if tree.is_kind(at, "struct_item") {
        Some("struct")
    } else if tree.is_kind(at, "enum_item") {
        Some("enum")
    } else if tree.is_kind(at, "trait_item") {
        Some("trait")
    } else {
        None
    }
}

/// Adds what the subtrees from `from` up to `limit` hold: their symbols, and the calls
/// made within a function.
pub fn traverse_rust(
    tree: &SyntaxTree,
    from: usize,
    limit: usize,
    file_path: &str,
    owner: Option<&str>,
    caller: Option<&str>,
    out: &mut Extraction,
)
    requires
        tree.wf(),
        from <= limit <= tree@.nodes.len(),
    ensures
        final(out)@ == rust_walk(
            tree@,
            from as int,
            limit as int,
            file_path@,
            opt_str(owner),
            opt_str(caller),
            old(out)@,
        ),
    decreases limit - from,
{
    let mut at: usize = from;
    let ghost start = out@;
    while at < limit
        invariant
            tree.wf(),
            from <= at <= limit <= tree@.nodes.len(),
            rust_walk(
                tree@,
                from as int,
                limit as int,
                file_path@,
                opt_str(owner),
                opt_str(caller),
                start,
            ) == rust_walk(
                tree@,
                at as int,
                limit as int,
                file_path@,
                opt_str(owner),
                opt_str(caller),
                out@,
            ),
        decreases limit - at,
    {
        let end = tree.subtree_end(at, limit);
        let mut inner_owner: Option<String> = None;
        let mut inner_caller: Option<String> = None;
        let ghost before = out@;
        match type_kind(tree, at) {
            Some(kind) => {
                if let Some(name_at) = tree.child_named(at, "name", "type_identifier") {
                    let name = tree.text(name_at);
                    let qualified = name.clone();
                    out.add_node(declared_symbol(tree, at, file_path, name, kind, qualified));
                }
            },
            None => {
                if tree.is_kind(at, "function_item") {
                    if let Some(name_at) = tree.child_named(at, "name", "identifier") {
                        let name = tree.text(name_at);
                        let qualified = qualified_name(owner, name.as_str());
                        let kind = if owner.is_some() {
                            "method"
                        } else {
                            "function"
                        };
                        inner_caller = Some(join3(file_path, "::", qualified.as_str()));
                        out.add_node(declared_symbol(tree, at, file_path, name, kind, qualified));
                    }
                }
            },
        }
        assert(out@ == extended(
            before,
            rust_symbol(tree@, at as int, file_path@, opt_str(owner)),
            None,
        ));
        if tree.is_kind(at, "impl_item") {
            if let Some(name_at) = tree.child_named(at, "type", "type_identifier") {
                inner_owner = Some(tree.text(name_at));
            }
        }
        if let Some(caller_id) = caller {
            if tree.is_kind(at, "call_expression") {
                if let Some(function) = tree.child_by_field_name(at, "function") {
                    let name = extract_rust_call_target(tree, function);
                    out.add_call(raw_call(tree, at, caller_id, name));
                }
            } else if tree.is_kind(at, "method_call_expression") {
                if let Some(name_at) = tree.child_by_field_name(at, "name") {
                    let name = tree.text(name_at);
                    out.add_call(raw_call(tree, at, caller_id, name));
                }
            }
        }
        assert(out@ == extended(
            before,
            rust_symbol(tree@, at as int, file_path@, opt_str(owner)),
            rust_call(tree@, at as int, opt_str(caller)),
        ));
        let next_owner: Option<&str> = match &inner_owner {
            Some(text) => Some(text.as_str()),
            None => owner,
        };
        let next_caller: Option<&str> = match &inner_caller {
            Some(text) => Some(text.as_str()),
            None => caller,
        };
        assert(opt_str(next_owner) == rust_owner(tree@, at as int, opt_str(owner)));
        assert(opt_str(next_caller) == rust_caller(
            tree@,
            at as int,
            file_path@,
            opt_str(owner),
            opt_str(caller),
        ));
        traverse_rust(tree, at + 1, end, file_path, next_owner, next_caller, out);
        at = end;
    }
}

} // verus!
