//! C and C++ sources: namespaces, classes and structs, functions and methods, also
//! those defined out of line, and calls, marked where they go through a pointer or by
//! a name that may be a macro's.

use vstd::prelude::*;
use crate::db::{NodeView, RawCallView};
use crate::parser::common::{
    call_at, extended, final_part, last_split, normalize_qualified_name, push_symbol,
    qualified_name, raw_call, scoped, symbol_at, symbol_id, Extraction, ExtractionView,
};
use crate::parser::syntax::{
    child_in_field, child_named, child_of_kind, end_of, kind_texts, last_of_kinds, subtree_end,
    trimmed_at, SyntaxTree, TreeView,
};
use crate::text::{
    after_last, chars_of, contains, has, join3, last_part, opt_str, opt_text, squeeze,
    trim_start_of, trimmed_start_of,
};

verus! {

/// The scope that declarations stand in.
#[derive(Clone, Copy)]
pub struct CLikeContext<'a> {
    pub parent_qualified_name: Option<&'a str>,
    pub parent_is_type: bool,
}

/// The content of a [`CLikeContext`].
#[verifier::ext_equal]
pub struct ScopeView {
    pub parent: Option<Seq<char>>,
    pub parent_is_type: bool,
}

impl<'a> View for CLikeContext<'a> {
    type V = ScopeView;

    open spec fn view(&self) -> ScopeView {
        ScopeView {
            parent: opt_str(self.parent_qualified_name),
            parent_is_type: self.parent_is_type,
        }
    }
}

/// The name of a node: its text without white space.
pub open spec fn name_at(tree: TreeView, at: int) -> Seq<char> {
    squeeze(trimmed_at(tree, at))
}

/// The name of a node, if it is not empty.
pub open spec fn some_name(tree: TreeView, at: Option<int>) -> Option<Seq<char>> {
    match at {
        Some(at) => if name_at(tree, at).len() > 0 {
            Some(name_at(tree, at))
        } else {
            None
        },
        None => None,
    }
}

/// The name and the kind of the scope that a node opens: a namespace, a class or a
/// struct.
pub open spec fn opened_scope(tree: TreeView, at: int) -> Option<(Seq<char>, Seq<char>, bool)> {
    let kind = tree.nodes[at].kind;
    if kind == "namespace_definition"@ {
        match some_name(tree, child_in_field(tree, at, "name"@)) {
            Some(name) => Some((name, "namespace"@, false)),
            None => None,
        }
    } else if kind == "class_specifier"@ || kind == "struct_specifier"@ {
        let found = match child_named(tree, at, "name"@, "type_identifier"@) {
            Some(name) => Some(name),
            None => child_of_kind(tree, at, "identifier"@),
        };
        match some_name(tree, found) {
            Some(name) => Some(
                (
                    name,
                    if kind == "class_specifier"@ {
                        "class"@
                    } else {
                        "struct"@
                    },
                    true,
                ),
            ),
            None => None,
        }
    } else {
        None
    }
}

/// The kinds of the nodes that name what a declarator declares.
pub open spec fn is_name(kind: Seq<char>) -> bool {
    ||| kind == "identifier"@
    ||| kind == "field_identifier"@
    ||| kind == "type_identifier"@
    ||| kind == "qualified_identifier"@
    ||| kind == "destructor_name"@
}

/// The kinds that a name is looked for among the nodes of a declarator.
pub open spec fn name_kinds() -> Seq<Seq<char>> {
    seq![
        "qualified_identifier"@,
        "field_identifier"@,
        "type_identifier"@,
        "identifier"@,
        "destructor_name"@,
    ]
}

/// The name that a declarator declares. Pointers, references and parameter lists are
/// declarators around another one.
pub open spec fn declarator_name(tree: TreeView, at: int) -> Option<Seq<char>>
    decreases tree.nodes.len() - at,
{
    match child_in_field(tree, at, "declarator"@) {
        Some(inner) => if at < inner < tree.nodes.len() {
            declarator_name(tree, inner)
        } else {
            None
        },
        None => if is_name(tree.nodes[at].kind) {
            Some(name_at(tree, at))
        } else {
            match last_of_kinds(tree, at, end_of(tree, at), name_kinds()) {
                Some(name) => Some(name_at(tree, name)),
                None => None,
            }
        },
    }
}

/// The simple name, the kind and the qualified name of the function that a node
/// defines. A definition out of line brings its own path into the enclosing scope.
pub open spec fn c_function(tree: TreeView, at: int, scope: ScopeView) -> Option<
    (Seq<char>, Seq<char>, Seq<char>),
> {
    if tree.nodes[at].kind == "function_definition"@ {
        match child_in_field(tree, at, "declarator"@) {
            Some(declarator) => match declarator_name(tree, declarator) {
                Some(full) => if full.len() == 0 {
                    None
                } else {
                    let simple = trim_start_of(after_last(full, "::"@), '~');
                    let out_of_line = contains(full, "::"@);
                    Some(
                        (
                            simple,
                            if scope.parent_is_type || out_of_line {
                                "method"@
                            } else {
                                "function"@
                            },
                            scoped(
                                scope.parent,
                                if out_of_line {
                                    full
                                } else {
                                    simple
                                },
                            ),
                        ),
                    )
                },
                None => None,
            },
            None => None,
        }
    } else {
        None
    }
}

/// The symbol that a node declares.
pub open spec fn c_symbol(
    tree: TreeView,
    at: int,
    file_path: Seq<char>,
    scope: ScopeView,
) -> Option<NodeView> {
    match opened_scope(tree, at) {
        Some((name, kind, _)) => Some(
            symbol_at(tree, at, file_path, name, kind, scoped(scope.parent, name)),
        ),
        None => match c_function(tree, at, scope) {
            Some((name, kind, qualified)) => Some(
                symbol_at(tree, at, file_path, name, kind, qualified),
            ),
            None => None,
        },
    }
}

/// The scope of the declarations below a node.
pub open spec fn c_scope(tree: TreeView, at: int, scope: ScopeView) -> ScopeView {
    match opened_scope(tree, at) {
        Some((name, _, is_type)) => ScopeView {
            parent: Some(scoped(scope.parent, name)),
            parent_is_type: is_type,
        },
        None => scope,
    }
}

/// The id of the function that calls below a node are made in.
pub open spec fn c_caller(
    tree: TreeView,
    at: int,
    file_path: Seq<char>,
    scope: ScopeView,
    caller: Option<Seq<char>>,
) -> Option<Seq<char>> {
    match opened_scope(tree, at) {
        Some(_) => None,
        None => match c_function(tree, at, scope) {
            Some((_, _, qualified)) => Some(symbol_id(file_path, qualified)),
            None => caller,
        },
    }
}

/// The kinds of the nodes that are a callee's name by themselves.
pub open spec fn is_callee_name(kind: Seq<char>) -> bool {
    ||| kind == "identifier"@
    ||| kind == "field_identifier"@
    ||| kind == "type_identifier"@
    ||| kind == "qualified_identifier"@
}

/// The name that a call goes by.
pub open spec fn c_call_target(tree: TreeView, at: int) -> Seq<char> {
    let kind = tree.nodes[at].kind;
    if is_callee_name(kind) {
        name_at(tree, at)
    } else if kind == "field_expression"@ {
        match child_in_field(tree, at, "field"@) {
            Some(field) => trimmed_at(tree, field),
            None => final_part(trimmed_at(tree, at), "."@),
        }
    } else {
        match declarator_name(tree, at) {
            Some(name) => name,
            None => name_at(tree, at),
        }
    }
}

/// A name in capitals, as macros go by.
pub open spec fn is_macro_name(name: Seq<char>) -> bool {
    &&& forall|i: int|
        0 <= i < name.len() ==> 'A' <= #[trigger] name[i] <= 'Z' || '0' <= name[i] <= '9'
            || name[i] == '_'
    &&& exists|i: int| 0 <= i < name.len() && 'A' <= #[trigger] name[i] <= 'Z'
}

/// What is called is a pointer or an item of a table, not a name.
pub open spec fn is_indirect_callee(tree: TreeView, at: int) -> bool {
    let kind = tree.nodes[at].kind;
    ||| kind == "pointer_expression"@
    ||| kind == "subscript_expression"@
    ||| kind == "parenthesized_expression"@ && child_of_kind(tree, at, "pointer_expression"@) is Some
}

/// How a function is called, where that shows: through a pointer, or by a name that may
/// be a macro's.
pub open spec fn c_call_kind(tree: TreeView, at: int) -> Option<Seq<char>> {
    if is_indirect_callee(tree, at) {
        Some("indirect"@)
    } else if tree.nodes[at].kind == "identifier"@ && is_macro_name(trimmed_at(tree, at)) {
        Some("macro_or_function"@)
    } else {
        None
    }
}

/// The call that a node makes within a function.
pub open spec fn c_call(tree: TreeView, at: int, caller: Option<Seq<char>>) -> Option<RawCallView> {
    match caller {
        Some(caller) => if tree.nodes[at].kind == "call_expression"@ {
            match child_in_field(tree, at, "function"@) {
                Some(function) => Some(
                    RawCallView {
                        call_kind: c_call_kind(tree, function),
                        ..call_at(tree, at, caller, c_call_target(tree, function))
                    },
                ),
                None => None,
            }
        } else {
            None
        },
        None => None,
    }
}

/// What the subtrees from `from` up to `limit` add to an extraction.
pub open spec fn c_walk(
    tree: TreeView,
    from: int,
    limit: int,
    file_path: Seq<char>,
    scope: ScopeView,
    caller: Option<Seq<char>>,
    out: ExtractionView,
) -> ExtractionView
    decreases limit - from,
{
    if from >= limit {
        out
    } else {
        let end = subtree_end(tree, from, limit);
        if end <= from || end > limit {
            out
        } else {
            let here = extended(
                out,
                c_symbol(tree, from, file_path, scope),
                c_call(tree, from, caller),
            );
            let inside = c_walk(
                tree,
                from + 1,
                end,
                file_path,
                c_scope(tree, from, scope),
                c_caller(tree, from, file_path, scope, caller),
                here,
            );
            c_walk(tree, end, limit, file_path, scope, caller, inside)
        }
    }
}

/// Whether a name is in capitals, as macros go by.
pub fn names_macro(name: &str) -> (found: bool)
    ensures
        found == is_macro_name(name@),
{
    let chars = chars_of(name);
    let mut capital = false;
    let mut i: usize = 0;
    while i < chars.len()
        invariant
            i <= chars@.len(),
            chars@ == name@,
            forall|k: int|
                0 <= k < i ==> 'A' <= #[trigger] name@[k] <= 'Z' || '0' <= name@[k] <= '9'
                    || name@[k] == '_',
            capital == exists|k: int| 0 <= k < i && 'A' <= #[trigger] name@[k] <= 'Z',
        decreases chars@.len() - i,
    {
        let c = chars[i];
        assert(c == name@[i as int]);
        if 'A' <= c && c <= 'Z' {
            capital = true;
        } else if !('0' <= c && c <= '9') && c != '_' {
            return false;
        }
        i = i + 1;
    }
    capital
}

fn call_kind_of(tree: &SyntaxTree, at: usize) -> (kind: Option<String>)
    requires
        tree.wf(),
        at < tree@.nodes.len(),
    ensures
        opt_text(kind) == c_call_kind(tree@, at as int),
{
    if tree.is_kind(at, "pointer_expression") || tree.is_kind(at, "subscript_expression") || (
    tree.is_kind(at, "parenthesized_expression") && tree.find_child_by_kind(
        at,
        "pointer_expression",
    ).is_some()) {
        Some("indirect".to_string())
    } else if tree.is_kind(at, "identifier") && names_macro(tree.text_for_node(at).as_str()) {
        Some("macro_or_function".to_string())
    } else {
        None
    }
}

fn node_name(tree: &SyntaxTree, at: usize) -> (name: String)
    requires
        tree.wf(),
        at < tree@.nodes.len(),
    ensures
        name@ == name_at(tree@, at as int),
{
    normalize_qualified_name(tree.text_for_node(at).as_str())
}

fn names_something(tree: &SyntaxTree, at: Option<usize>) -> (name: Option<String>)
    requires
        tree.wf(),
        at is Some ==> at->0 < tree@.nodes.len(),
    ensures
        opt_text(name) == some_name(tree@, crate::parser::syntax::place(at)),
{
    match at {
        Some(at) => {
            let name = node_name(tree, at);
            if name.as_str().is_empty() {
                None
            } else {
                Some(name)
            }
        },
        None => None,
    }
}

fn scope_opened(tree: &SyntaxTree, at: usize) -> (found: Option<(String, &'static str, bool)>)
    requires
        tree.wf(),
        at < tree@.nodes.len(),
    ensures
        match found {
            Some((name, kind, is_type)) => opened_scope(tree@, at as int) == Some(
                (name@, kind@, is_type),
            ),
            None => opened_scope(tree@, at as int) is None,
        },
{
    if tree.is_kind(at, "namespace_definition") {
        match names_something(tree, tree.child_by_field_name(at, "name")) {
            Some(name) => Some((name, "namespace", false)),
            None => None,
        }
    } else if tree.is_kind(at, "class_specifier") || tree.is_kind(at, "struct_specifier") {
        let found = match tree.child_named(at, "name", "type_identifier") {
            Some(name) => Some(name),
            None => tree.find_child_by_kind(at, "identifier"),
        };
        match names_something(tree, found) {
            Some(name) => {
                let kind = if tree.is_kind(at, "class_specifier") {
                    "class"
                } else {
                    "struct"
                };
                Some((name, kind, true))
            },
            None => None,
        }
    } else {
        None
    }
}

/// The name that the declarator at `at` declares.
pub fn extract_c_declarator_name(tree: &SyntaxTree, at: usize) -> (name: Option<String>)
    requires
        tree.wf(),
        at < tree@.nodes.len(),
    ensures
        opt_text(name) == declarator_name(tree@, at as int),
    decreases tree@.nodes.len() - at,
{
    if let Some(inner) = tree.child_by_field_name(at, "declarator") {
        return extract_c_declarator_name(tree, inner);
    }
    if tree.is_kind(at, "identifier") || tree.is_kind(at, "field_identifier") || tree.is_kind(
        at,
        "type_identifier",
    ) || tree.is_kind(at, "qualified_identifier") || tree.is_kind(at, "destructor_name") {
        Some(node_name(tree, at))
    } else {
        let kinds: [&str; 5] = [
            "qualified_identifier",
            "field_identifier",
            "type_identifier",
            "identifier",
            "destructor_name",
        ];
        assert(kind_texts(kinds@) =~= name_kinds());
        match tree.last_descendant_by_kind(at, &kinds) {
            Some(found) => Some(node_name(tree, found)),
            None => None,
        }
    }
}

fn function_defined(tree: &SyntaxTree, at: usize, scope: CLikeContext) -> (found: Option<
    (String, &'static str, String),
>)
    requires
        tree.wf(),
        at < tree@.nodes.len(),
    ensures
        match found {
            Some((name, kind, qualified)) => c_function(tree@, at as int, scope@) == Some(
                (name@, kind@, qualified@),
            ),
            None => c_function(tree@, at as int, scope@) is None,
        },
{
    if !tree.is_kind(at, "function_definition") {
        return None;
    }
    match tree.child_by_field_name(at, "declarator") {
        Some(declarator) => match extract_c_declarator_name(tree, declarator) {
            Some(full) => {
                if full.as_str().is_empty() {
                    None
                } else {
                    let simple = trimmed_start_of(last_part(full.as_str(), "::").as_str(), '~');
                    let out_of_line = has(full.as_str(), "::");
                    let kind = if scope.parent_is_type || out_of_line {
                        "method"
                    } else {
                        "function"
                    };
                    let qualified = if out_of_line {
                        qualified_name(scope.parent_qualified_name, full.as_str())
                    } else {
                        qualified_name(scope.parent_qualified_name, simple.as_str())
                    };
                    Some((simple, kind, qualified))
                }
            },
            None => None,
        },
        None => None,
    }
}

/// The name that the call at `at` goes by.
pub fn extract_c_call_target(tree: &SyntaxTree, at: usize) -> (name: String)
    requires
        tree.wf(),
        at < tree@.nodes.len(),
    ensures
        name@ == c_call_target(tree@, at as int),
{
    proof {
        reveal_strlit(".");
    }
    if tree.is_kind(at, "identifier") || tree.is_kind(at, "field_identifier") || tree.is_kind(
        at,
        "type_identifier",
    ) || tree.is_kind(at, "qualified_identifier") {
        node_name(tree, at)
    } else if tree.is_kind(at, "field_expression") {
        match tree.child_by_field_name(at, "field") {
            Some(field) => tree.text_for_node(field),
            None => last_split(tree.text_for_node(at).as_str(), "."),
        }
    } else {
        match extract_c_declarator_name(tree, at) {
            Some(name) => name,
            None => node_name(tree, at),
        }
    }
}

/// Adds what the subtrees from `from` up to `limit` hold: their symbols, and the calls
/// made within a function.
pub fn traverse_c_like(
    tree: &SyntaxTree,
    from: usize,
    limit: usize,
    file_path: &str,
    context: CLikeContext,
    caller: Option<&str>,
    out: &mut Extraction,
)
    requires
        tree.wf(),
        from <= limit <= tree@.nodes.len(),
    ensures
        final(out)@ == c_walk(
            tree@,
            from as int,
            limit as int,
            file_path@,
            context@,
            opt_str(caller),
            old(out)@,
        ),
    decreases limit - from,
{
    let mut at: usize = from;
    let ghost start = out@;
    while at < limit
        invariant
            tree.wf(),
            from <= at <= limit <= tree@.nodes.len(),
            c_walk(
                tree@,
                from as int,
                limit as int,
                file_path@,
                context@,
                opt_str(caller),
                start,
            ) == c_walk(
                tree@,
                at as int,
                limit as int,
                file_path@,
                context@,
                opt_str(caller),
                out@,
            ),
        decreases limit - at,
    {
        let end = tree.subtree_end(at, limit);
        let ghost before = out@;
        let mut inner_parent: Option<String> = None;
        let mut inner_is_type = false;
        let mut inner_caller: Option<String> = None;
        let opened = scope_opened(tree, at);
        let opens = opened.is_some();
        match opened {
            Some((name, kind, is_type)) => {
                let qualified = qualified_name(context.parent_qualified_name, name.as_str());
                inner_parent = Some(qualified.clone());
                inner_is_type = is_type;
                push_symbol(out, tree, at, file_path, name, kind, qualified);
            },
            None => {
                if let Some((name, kind, qualified)) = function_defined(tree, at, context) {
                    inner_caller = Some(join3(file_path, "::", qualified.as_str()));
                    push_symbol(out, tree, at, file_path, name, kind, qualified);
                }
            },
        }
        assert(out@ == extended(before, c_symbol(tree@, at as int, file_path@, context@), None));
        if let Some(caller_id) = caller {
            if tree.is_kind(at, "call_expression") {
                if let Some(function) = tree.child_by_field_name(at, "function") {
                    let name = extract_c_call_target(tree, function);
                    let mut call = raw_call(tree, at, caller_id, name);
                    call.call_kind = call_kind_of(tree, function);
                    out.add_call(call);
                }
            }
        }
        assert(out@ == extended(
            before,
            c_symbol(tree@, at as int, file_path@, context@),
            c_call(tree@, at as int, opt_str(caller)),
        ));
        let next_context = match &inner_parent {
            Some(text) => CLikeContext {
                parent_qualified_name: Some(text.as_str()),
                parent_is_type: inner_is_type,
            },
            None => context,
        };
        let next_caller: Option<&str> = if opens {
            None
        } else {
            match &inner_caller {
                Some(text) => Some(text.as_str()),
                None => caller,
            }
        };
        assert(next_context@ =~= c_scope(tree@, at as int, context@));
        assert(opt_str(next_caller) == c_caller(
            tree@,
            at as int,
            file_path@,
            context@,
            opt_str(caller),
        ));
        traverse_c_like(tree, at + 1, end, file_path, next_context, next_caller, out);
        at = end;
    }
}

} // verus!
