//! Zig sources: constants that hold a container type, functions and methods, and
//! calls.

use vstd::prelude::*;
use crate::db::{NodeView, RawCallView};
use crate::parser::common::{
    call_at, extended, final_part, last_split, push_symbol, qualified_name, raw_call, scoped,
    symbol_at, symbol_id, Extraction, ExtractionView,
};
use crate::parser::syntax::{
    child_in_field, child_of_kind, end_of, kind_texts, last_of_kinds, subtree_end, trimmed_at,
    SyntaxTree, TreeView,
};
use crate::text::{
    alphanumeric, chars_of, cut_first, is_alphanumeric, join2, join3, opt_str, opt_text, split_once,
    strip_prefix, trim_start, trimmed_start, without_prefix,
};

verus! {

/// A keyword ends here: what follows is no further part of an identifier.
pub open spec fn keyword_ends(rest: Seq<char>) -> bool {
    rest.len() == 0 || (!is_alphanumeric(rest[0]) && rest[0] != '_')
}

/// `text` starts with `keyword` as a word of its own.
pub open spec fn leads_with(text: Seq<char>, keyword: Seq<char>) -> bool {
    match strip_prefix(text, keyword) {
        Some(rest) => keyword_ends(rest),
        None => false,
    }
}

/// An initializer without the layout qualifier it may start with.
pub open spec fn without_layout(init: Seq<char>) -> Seq<char> {
    let start = trim_start(init);
    trim_start(
        match strip_prefix(start, "packed "@) {
            Some(rest) => rest,
            None => match strip_prefix(start, "ex"@ + "tern "@) {
                Some(rest) => rest,
                None => start,
            },
        },
    )
}

/// The kind of container that an initializer declares, by the keyword that leads it.
pub open spec fn container_kind(init: Seq<char>) -> Option<Seq<char>> {
    let text = without_layout(init);
    if leads_with(text, "struct"@) {
        Some("struct"@)
    } else if leads_with(text, "enum"@) {
        Some("enum"@)
    } else if leads_with(text, "union"@) {
        Some("union"@)
    } else {
        None
    }
}

/// The kind of container that a variable holds: only what follows the first `=` counts.
pub open spec fn variable_kind(tree: TreeView, at: int) -> Option<Seq<char>> {
    match split_once(trimmed_at(tree, at), "="@) {
        Some((_, init)) => container_kind(init),
        None => container_kind(seq![]),
    }
}

/// The name and kind of the container that a node declares.
pub open spec fn zig_container(tree: TreeView, at: int) -> Option<(Seq<char>, Seq<char>)> {
    if tree.nodes[at].kind == "variable_declaration"@ {
        match (child_of_kind(tree, at, "identifier"@), variable_kind(tree, at)) {
            (Some(name), Some(kind)) => Some((trimmed_at(tree, name), kind)),
            _ => None,
        }
    } else {
        None
    }
}

/// The name of the function that a node declares.
pub open spec fn zig_function(tree: TreeView, at: int) -> Option<Seq<char>> {
    if tree.nodes[at].kind == "variable_declaration"@ {
        None
    } else if tree.nodes[at].kind == "function_declaration"@ {
        match child_in_field(tree, at, "name"@) {
            Some(name) => if trimmed_at(tree, name).len() > 0 {
                Some(trimmed_at(tree, name))
            } else {
                None
            },
            None => None,
        }
    } else {
        None
    }
}

/// The symbol that a node declares.
pub open spec fn zig_symbol(
    tree: TreeView,
    at: int,
    file_path: Seq<char>,
    parent: Option<Seq<char>>,
) -> Option<NodeView> {
    match zig_container(tree, at) {
        Some((name, kind)) => Some(
            symbol_at(tree, at, file_path, name, kind, scoped(parent, name)),
        ),
        None => match zig_function(tree, at) {
            Some(name) => Some(
                symbol_at(
                    tree,
                    at,
                    file_path,
                    name,
                    if parent is Some {
                        "method"@
                    } else {
                        "function"@
                    },
                    scoped(parent, name),
                ),
            ),
            None => None,
        },
    }
}

/// The container that declarations below a node stand in.
pub open spec fn zig_parent(tree: TreeView, at: int, parent: Option<Seq<char>>) -> Option<Seq<char>> {
    match zig_container(tree, at) {
        Some((name, _)) => Some(scoped(parent, name)),
        None => parent,
    }
}

/// The id of the function that calls below a node are made in.
pub open spec fn zig_caller(
    tree: TreeView,
    at: int,
    file_path: Seq<char>,
    parent: Option<Seq<char>>,
    caller: Option<Seq<char>>,
) -> Option<Seq<char>> {
    match zig_container(tree, at) {
        Some(_) => None,
        None => match zig_function(tree, at) {
            Some(name) => Some(symbol_id(file_path, scoped(parent, name))),
            None => caller,
        },
    }
}

/// The name that a call goes by.
pub open spec fn zig_call_target(tree: TreeView, at: int) -> Seq<char> {
    let kind = tree.nodes[at].kind;
    if kind == "identifier"@ {
        trimmed_at(tree, at)
    } else if kind == "field_expression"@ {
        match child_in_field(tree, at, "field"@) {
            Some(field) => trimmed_at(tree, field),
            None => final_part(trimmed_at(tree, at), "."@),
        }
    } else {
        match last_of_kinds(tree, at, end_of(tree, at), seq!["identifier"@]) {
            Some(name) => trimmed_at(tree, name),
            None => trimmed_at(tree, at),
        }
    }
}

/// The call that a node makes within a function.
pub open spec fn zig_call(tree: TreeView, at: int, caller: Option<Seq<char>>) -> Option<
    RawCallView,
> {
    match caller {
        Some(caller) => if tree.nodes[at].kind == "call_expression"@ {
            match child_in_field(tree, at, "function"@) {
                Some(function) => Some(call_at(tree, at, caller, zig_call_target(tree, function))),
                None => None,
            }
        } else {
            None
        },
        None => None,
    }
}

/// What the subtrees from `from` up to `limit` add to an extraction.
pub open spec fn zig_walk(
    tree: TreeView,
    from: int,
    limit: int,
    file_path: Seq<char>,
    parent: Option<Seq<char>>,
    caller: Option<Seq<char>>,
    out: ExtractionView,
) -> ExtractionView
    decreases limit - from,
{
    if from >= limit {
        out
    } else {
        let end = subtree_end(tree, from, limit);
        if end <= from || end > limit {
            out
        } else {
            let here = extended(
                out,
                zig_symbol(tree, from, file_path, parent),
                zig_call(tree, from, caller),
            );
            let inside = zig_walk(
                tree,
                from + 1,
                end,
                file_path,
                zig_parent(tree, from, parent),
                zig_caller(tree, from, file_path, parent, caller),
                here,
            );
            zig_walk(tree, end, limit, file_path, parent, caller, inside)
        }
    }
}

fn word_leads(text: &str, keyword: &str) -> (found: bool)
    ensures
        found == leads_with(text@, keyword@),
{
    match without_prefix(text, keyword) {
        Some(rest) => {
            let chars = chars_of(rest.as_str());
            chars.len() == 0 || (!alphanumeric(chars[0]) && chars[0] != '_')
        },
        None => false,
    }
}

/// The kind of container that an initializer declares.
pub fn zig_container_kind(init: &str) -> (kind: Option<&'static str>)
    ensures
        opt_str(kind) == container_kind(init@),
{
    let start = trimmed_start(init);
    let outside = join2("ex", "tern ");
    let rest = match without_prefix(start.as_str(), "packed ") {
        Some(rest) => rest,
        None => match without_prefix(start.as_str(), outside.as_str()) {
            Some(rest) => rest,
            None => start.clone(),
        },
    };
    let text = trimmed_start(rest.as_str());
    assert(text@ == without_layout(init@));
    if word_leads(text.as_str(), "struct") {
        Some("struct")
    } else if word_leads(text.as_str(), "enum") {
        Some("enum")
    } else if word_leads(text.as_str(), "union") {
        Some("union")
    } else {
        None
    }
}

/// The kind of container that the variable at `at` holds.
pub fn zig_variable_kind(tree: &SyntaxTree, at: usize) -> (kind: Option<&'static str>)
    requires
        tree.wf(),
        at < tree@.nodes.len(),
    ensures
        opt_str(kind) == variable_kind(tree@, at as int),
{
    let text = tree.text_for_node(at);
    match cut_first(text.as_str(), "=") {
        Some((_, init)) => zig_container_kind(init.as_str()),
        None => zig_container_kind(String::new().as_str()),
    }
}

fn declared_container(tree: &SyntaxTree, at: usize) -> (found: Option<(String, &'static str)>)
    requires
        tree.wf(),
        at < tree@.nodes.len(),
    ensures
        match found {
            Some((name, kind)) => zig_container(tree@, at as int) == Some((name@, kind@)),
            None => zig_container(tree@, at as int) is None,
        },
{
    if tree.is_kind(at, "variable_declaration") {
        match (tree.find_child_by_kind(at, "identifier"), zig_variable_kind(tree, at)) {
            (Some(name_at), Some(kind)) => Some((tree.text_for_node(name_at), kind)),
            _ => None,
        }
    } else {
        None
    }
}

fn declared_function(tree: &SyntaxTree, at: usize) -> (found: Option<String>)
    requires
        tree.wf(),
        at < tree@.nodes.len(),
    ensures
        opt_text(found) == zig_function(tree@, at as int),
{
    if tree.is_kind(at, "variable_declaration") {
        None
    } else if tree.is_kind(at, "function_declaration") {
        match tree.child_by_field_name(at, "name") {
            Some(name_at) => {
                let name = tree.text_for_node(name_at);
                if name.as_str().is_empty() {
                    None
                } else {
                    Some(name)
                }
            },
            None => None,
        }
    } else {
        None
    }
}

/// The name that the call at `at` goes by.
pub fn extract_zig_call_target(tree: &SyntaxTree, at: usize) -> (name: String)
    requires
        tree.wf(),
        at < tree@.nodes.len(),
    ensures
        name@ == zig_call_target(tree@, at as int),
{
    proof {
        reveal_strlit(".");
    }
    if tree.is_kind(at, "identifier") {
        tree.text_for_node(at)
    } else if tree.is_kind(at, "field_expression") {
        match tree.child_by_field_name(at, "field") {
            Some(field) => tree.text_for_node(field),
            None => last_split(tree.text_for_node(at).as_str(), "."),
        }
    } else {
        let kinds: [&str; 1] = ["identifier"];
        assert(kind_texts(kinds@) =~= seq!["identifier"@]);
        match tree.last_descendant_by_kind(at, &kinds) {
            Some(name_at) => tree.text_for_node(name_at),
            None => tree.text_for_node(at),
        }
    }
}

/// Adds what the subtrees from `from` up to `limit` hold: their symbols, and the calls
/// made within a function.
pub fn traverse_zig(
    tree: &SyntaxTree,
    from: usize,
    limit: usize,
    file_path: &str,
    parent: Option<&str>,
    caller: Option<&str>,
    out: &mut Extraction,
)
    requires
        tree.wf(),
        from <= limit <= tree@.nodes.len(),
    ensures
        final(out)@ == zig_walk(
            tree@,
            from as int,
            limit as int,
            file_path@,
            opt_str(parent),
            opt_str(caller),
            old(out)@,
        ),
    decreases limit - from,
{
    let mut at: usize = from;
    let ghost start = out@;
    while at < limit
        invariant
            tree.wf(),
            from <= at <= limit <= tree@.nodes.len(),
            zig_walk(
                tree@,
                from as int,
                limit as int,
                file_path@,
                opt_str(parent),
                opt_str(caller),
                start,
            ) == zig_walk(
                tree@,
                at as int,
                limit as int,
                file_path@,
                opt_str(parent),
                opt_str(caller),
                out@,
            ),
        decreases limit - at,
    {
        let end = tree.subtree_end(at, limit);
        let ghost before = out@;
        let container = declared_container(tree, at);
        let mut inner_parent: Option<String> = None;
        let mut inner_caller: Option<String> = None;
        let in_container = container.is_some();
        match container {
            Some((name, kind)) => {
                let qualified = qualified_name(parent, name.as_str());
                inner_parent = Some(qualified.clone());
                push_symbol(out, tree, at, file_path, name, kind, qualified);
            },
            None => {
                if let Some(name) = declared_function(tree, at) {
                    let qualified = qualified_name(parent, name.as_str());
                    let kind = if parent.is_some() {
                        "method"
                    } else {
                        "function"
                    };
                    inner_caller = Some(join3(file_path, "::", qualified.as_str()));
                    push_symbol(out, tree, at, file_path, name, kind, qualified);
                }
            },
        }
        assert(out@ == extended(
            before,
            zig_symbol(tree@, at as int, file_path@, opt_str(parent)),
            None,
        ));
        if let Some(caller_id) = caller {
            if tree.is_kind(at, "call_expression") {
                if let Some(function) = tree.child_by_field_name(at, "function") {
                    let name = extract_zig_call_target(tree, function);
                    out.add_call(raw_call(tree, at, caller_id, name));
                }
            }
        }
        assert(out@ == extended(
            before,
            zig_symbol(tree@, at as int, file_path@, opt_str(parent)),
            zig_call(tree@, at as int, opt_str(caller)),
        ));
        let next_parent: Option<&str> = match &inner_parent {
            Some(text) => Some(text.as_str()),
            None => parent,
        };
        let next_caller: Option<&str> = if in_container {
            None
        } else {
            match &inner_caller {
                Some(text) => Some(text.as_str()),
                None => caller,
            }
        };
        assert(opt_str(next_parent) == zig_parent(tree@, at as int, opt_str(parent)));
        assert(opt_str(next_caller) == zig_caller(
            tree@,
            at as int,
            file_path@,
            opt_str(parent),
            opt_str(caller),
        ));
        traverse_zig(tree, at + 1, end, file_path, next_parent, next_caller, out);
        at = end;
    }
}

} // verus!
