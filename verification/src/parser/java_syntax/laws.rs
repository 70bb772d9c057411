//! Which variables a Java declaration declares, and of what types.

use vstd::prelude::*;
use crate::parser::java_syntax::{
    identifier_text, java_types, literal_value, types_walk, with_declarators, with_parameter,
    with_variables,
};
use crate::parser::syntax::{
    child_in_field, child_named, children, end_of, subtree_end, trimmed_at, TreeView,
};
use crate::parser::walks::{holder, holders_hold, is_row, lemma_row};

verus! {

/// What a node declares stays its own: it is a type, or it declares variables itself.
pub open spec fn is_closed(tree: TreeView, at: int) -> bool {
    let kind = tree.nodes[at].kind;
    ||| kind == "class_declaration"@
    ||| kind == "interface_declaration"@
    ||| kind == "formal_parameter"@
    ||| kind == "local_variable_declaration"@
    ||| kind == "field_declaration"@
}

/// The node stands below the one at `at` with nothing closed in between.
pub open spec fn stands_open(tree: TreeView, at: int, below: int) -> bool
    decreases below,
{
    match holder(tree, below) {
        Some(above) => above == at || (0 <= at < above < below && !is_closed(tree, above)
            && stands_open(tree, at, above)),
        None => false,
    }
}

/// One of the children of a declaration declares the variable.
pub open spec fn some_declarator(tree: TreeView, at: int, name: Seq<char>) -> bool {
    exists|i: int|
        0 <= i < children(tree, at).len() && is_declarator(
            tree,
            #[trigger] children(tree, at)[i],
            name,
        )
}

/// The node is a declarator of the variable.
pub open spec fn is_declarator(tree: TreeView, at: int, name: Seq<char>) -> bool {
    tree.nodes[at].kind == "variable_declarator"@ && match child_named(
        tree,
        at,
        "name"@,
        "variable_declarator_id"@,
    ) {
        Some(own) => identifier_text(tree, own) == name,
        None => false,
    }
}

/// The node declares the variable, as a parameter, a local variable or a field, with the
/// type.
pub open spec fn declares_as(tree: TreeView, at: int, name: Seq<char>, own: Seq<char>) -> bool {
    let kind = tree.nodes[at].kind;
    match child_in_field(tree, at, "type"@) {
        Some(type_at) => name.len() > 0 && own.len() > 0 && trimmed_at(tree, type_at) == own && {
            ||| kind == "formal_parameter"@ && match child_named(
                tree,
                at,
                "name"@,
                "variable_declarator_id"@,
            ) {
                Some(name_at) => identifier_text(tree, name_at) == name,
                None => false,
            }
            ||| (kind == "local_variable_declaration"@ || kind == "field_declaration"@)
                && some_declarator(tree, at, name)
        },
        None => false,
    }
}

/// The node declares the variable, with some type.
pub open spec fn declares_name(tree: TreeView, at: int, name: Seq<char>) -> bool {
    match child_in_field(tree, at, "type"@) {
        Some(type_at) => declares_as(tree, at, name, trimmed_at(tree, type_at)),
        None => false,
    }
}

/// No open node from `from` up to `limit` declares the variable.
pub open spec fn none_declares(
    tree: TreeView,
    at: int,
    from: int,
    limit: int,
    name: Seq<char>,
) -> bool {
    forall|k: int|
        from <= k < limit && #[trigger] stands_open(tree, at, k) ==> !declares_name(tree, k, name)
}

proof fn lemma_closed(tree: TreeView, at: int, closed: int, below: int)
    requires
        0 <= at < closed < below < end_of(tree, closed),
        is_closed(tree, closed),
    ensures
        !stands_open(tree, at, below),
    decreases below,
{
    holders_hold(tree, below, below);
    if let Some(above) = holder(tree, below) {
        if above < closed {
            assert(end_of(tree, closed) <= below);
        }
        if above > closed {
            lemma_closed(tree, at, closed, above);
        }
    }
}

proof fn lemma_declarators(
    tree: TreeView,
    declarators: Seq<int>,
    own: Seq<char>,
    types: Map<Seq<char>, Seq<char>>,
    name: Seq<char>,
)
    requires
        name.len() > 0,
    ensures
        ({
            let after = with_declarators(tree, declarators, own, types);
            let some = exists|i: int|
                0 <= i < declarators.len() && is_declarator(tree, #[trigger] declarators[i], name);
            &&& some ==> after.dom().contains(name) && after[name] == own
            &&& !some ==> after.dom().contains(name) == types.dom().contains(name) && (
            types.dom().contains(name) ==> after[name] == types[name])
        }),
    decreases declarators.len(),
{
    if declarators.len() > 0 {
        let at = declarators[0];
        let rest = declarators.skip(1);
        let here = if tree.nodes[at].kind == "variable_declarator"@ {
            match child_named(tree, at, "name"@, "variable_declarator_id"@) {
                Some(name_at) => if identifier_text(tree, name_at).len() > 0 {
                    types.insert(identifier_text(tree, name_at), own)
                } else {
                    types
                },
                None => types,
            }
        } else {
            types
        };
        lemma_declarators(tree, rest, own, here, name);
        if exists|i: int| 0 <= i < rest.len() && is_declarator(tree, #[trigger] rest[i], name) {
            let i = choose|i: int|
                0 <= i < rest.len() && is_declarator(tree, #[trigger] rest[i], name);
            assert(is_declarator(tree, declarators[i + 1], name));
        }
        if exists|i: int|
            0 <= i < declarators.len() && is_declarator(tree, #[trigger] declarators[i], name) {
            let i = choose|i: int|
                0 <= i < declarators.len() && is_declarator(tree, #[trigger] declarators[i], name);
            if i > 0 {
                assert(is_declarator(tree, rest[i - 1], name));
            }
        }
        if is_declarator(tree, at, name) {
            assert(is_declarator(tree, declarators[0], name));
        }
    }
}

proof fn lemma_kinds()
    ensures
        "formal_parameter"@ != "local_variable_declaration"@,
        "formal_parameter"@ != "field_declaration"@,
        "formal_parameter"@ != "class_declaration"@,
        "formal_parameter"@ != "interface_declaration"@,
        "local_variable_declaration"@ != "class_declaration"@,
        "local_variable_declaration"@ != "interface_declaration"@,
        "field_declaration"@ != "class_declaration"@,
        "field_declaration"@ != "interface_declaration"@,
{
    reveal_strlit("formal_parameter");
    reveal_strlit("local_variable_declaration");
    reveal_strlit("field_declaration");
    reveal_strlit("class_declaration");
    reveal_strlit("interface_declaration");
    assert("formal_parameter"@.len() == 16 && "local_variable_declaration"@.len() == 26);
    assert("field_declaration"@.len() == 17 && "field_declaration"@[0] == 'f');
    assert("class_declaration"@.len() == 17 && "class_declaration"@[0] == 'c');
    assert("interface_declaration"@.len() == 21);
}

/// What a closed node by itself makes of the types.
spec fn types_here(
    tree: TreeView,
    at: int,
    types: Map<Seq<char>, Seq<char>>,
) -> Map<Seq<char>, Seq<char>> {
    if tree.nodes[at].kind == "formal_parameter"@ {
        with_parameter(tree, at, types)
    } else if tree.nodes[at].kind == "local_variable_declaration"@ || tree.nodes[at].kind
        == "field_declaration"@ {
        with_variables(tree, at, types)
    } else {
        types
    }
}

proof fn lemma_here(
    tree: TreeView,
    at: int,
    types: Map<Seq<char>, Seq<char>>,
    name: Seq<char>,
    own: Seq<char>,
)
    requires
        name.len() > 0,
        is_closed(tree, at),
    ensures
        ({
            let after = types_here(tree, at, types);
            &&& declares_as(tree, at, name, own) ==> after.dom().contains(name) && after[name]
                == own
            &&& !declares_name(tree, at, name) ==> after.dom().contains(name)
                == types.dom().contains(name) && (types.dom().contains(name) ==> after[name]
                == types[name])
        }),
{
    lemma_kinds();
    if let Some(type_at) = child_in_field(tree, at, "type"@) {
        lemma_declarators(tree, children(tree, at), trimmed_at(tree, type_at), types, name);
    }
}

proof fn lemma_types(
    tree: TreeView,
    at: int,
    from: int,
    limit: int,
    types: Map<Seq<char>, Seq<char>>,
    name: Seq<char>,
    own: Seq<char>,
    last: int,
)
    requires
        name.len() > 0,
        0 <= at < from,
        is_row(tree, from, limit),
        from < limit ==> stands_open(tree, at, from),
    ensures
        ({
            let after = types_walk(tree, from, limit, types);
            &&& none_declares(tree, at, from, limit, name) ==> after.dom().contains(name)
                == types.dom().contains(name) && (types.dom().contains(name) ==> after[name]
                == types[name])
            &&& from <= last < limit && stands_open(tree, at, last) && declares_as(
                tree,
                last,
                name,
                own,
            ) && none_declares(tree, at, last + 1, limit, name) ==> after.dom().contains(name)
                && after[name] == own
        }),
    decreases limit - from,
{
    if from < limit {
        lemma_kinds();
        lemma_row(tree, from, limit);
        holders_hold(tree, from, from);
        let end = subtree_end(tree, from, limit);
        let here = if is_closed(tree, from) {
            types_here(tree, from, types)
        } else {
            types_walk(tree, from + 1, end, types)
        };
        assert(types_walk(tree, from, limit, types) == types_walk(tree, end, limit, here));
        if end < limit {
            holders_hold(tree, end, end);
            assert(stands_open(tree, at, end));
        }
        if none_declares(tree, at, from, limit, name) {
            assert(!declares_name(tree, from, name));
            assert(none_declares(tree, at, from + 1, end, name));
            assert(none_declares(tree, at, end, limit, name));
        }
        if none_declares(tree, at, last + 1, limit, name) && last < end {
            assert(none_declares(tree, at, last + 1, end, name));
            assert(none_declares(tree, at, end, limit, name));
        }
        if is_closed(tree, from) {
            lemma_here(tree, from, types, name, own);
            if from < last < end {
                lemma_closed(tree, at, from, last);
            }
        } else {
            if from + 1 < end {
                assert(stands_open(tree, at, from + 1));
            }
            lemma_types(tree, at, from + 1, end, types, name, own, last);
        }
        if last == from && declares_as(tree, last, name, own) {
            assert(is_closed(tree, from));
        }
        lemma_types(tree, at, end, limit, here, name, own, last);
    }
}

/// A variable has the type of its last declaration that stands open in a declaration: as a
/// parameter, a local variable or a field. A name that none declares has no type.
pub proof fn variables_have_the_types_of_their_declarations(
    tree: TreeView,
    at: int,
    name: Seq<char>,
    own: Seq<char>,
    last: int,
)
    requires
        0 <= at < tree.nodes.len(),
        name.len() > 0,
    ensures
        none_declares(tree, at, at + 1, end_of(tree, at), name) ==> !java_types(
            tree,
            at,
        ).dom().contains(name),
        at < last < end_of(tree, at) && stands_open(tree, at, last) && declares_as(
            tree,
            last,
            name,
            own,
        ) && none_declares(tree, at, last + 1, end_of(tree, at), name) ==> java_types(
            tree,
            at,
        ).dom().contains(name) && java_types(tree, at)[name] == own,
{
    lemma_inner_row(tree, at);
    let end = end_of(tree, at);
    if at + 1 < end {
        holders_hold(tree, at + 1, at + 1);
        assert(stands_open(tree, at, at + 1));
    }
    lemma_types(tree, at, at + 1, end, Map::empty(), name, own, last);
}

proof fn lemma_inner_row(tree: TreeView, at: int)
    requires
        0 <= at < tree.nodes.len(),
    ensures
        is_row(tree, at + 1, end_of(tree, at)),
{
    let end = end_of(tree, at);
    let nodes = tree.nodes;
    crate::parser::syntax::laws::subtrees_are_runs_of_deeper_nodes(tree, at, end);
    assert forall|k: int| 0 <= k < at + 1 && #[trigger] end_of(tree, k) > at + 1 implies end_of(
        tree,
        k,
    ) >= end by {
        let own = end_of(tree, k);
        crate::parser::syntax::laws::subtrees_are_runs_of_deeper_nodes(tree, k, own);
        if k < at && own < end {
            assert(nodes[own].depth > nodes[at].depth);
            assert(nodes[at].depth > nodes[k].depth);
        }
    }
}

/// A string literal means what stands between its quotes, and a text without quotes means
/// itself.
pub proof fn quotes_are_left_out(text: Seq<char>)
    ensures
        literal_value(seq!['"'] + text + seq!['"']) == text,
        literal_value(seq!['\''] + text + seq!['\'']) == text,
        text.len() > 0 && text[0] != '"' && text[0] != '\'' ==> literal_value(text) == text,
{
    let quoted = seq!['"'] + text + seq!['"'];
    assert(quoted.subrange(1, quoted.len() - 1) =~= text);
    let marked = seq!['\''] + text + seq!['\''];
    assert(marked.subrange(1, marked.len() - 1) =~= text);
    assert(quoted.last() == '"' && marked.last() == '\'');
}

} // verus!
