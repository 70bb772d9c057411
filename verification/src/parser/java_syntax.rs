//! Reading Java declarations: the types of variables, annotations and their
//! arguments.

pub mod laws;

use vstd::prelude::*;
use crate::parser::syntax::{
    child_in_field, child_named, child_of_kind, children, end_of, lemma_roots_step, place, places,
    roots, subtree_end, text_at, trimmed_at, SyntaxTree, TreeView,
};
use crate::text::{
    chars_of, lemma_views_push, opt_text, same, string_of, views,
};

verus! {

// ---------------------------------------------------------------------------
// The types of variables

/// The types that variables are declared with, by the names of the variables.
pub struct TypeTable {
    entries: Vec<(String, String)>,
}

/// The types that a list of declarations gives to names: a later one counts.
pub open spec fn declared_types(entries: Seq<(String, String)>) -> Map<Seq<char>, Seq<char>>
    decreases entries.len(),
{
    if entries.len() == 0 {
        Map::empty()
    } else {
        declared_types(entries.drop_last()).insert(entries.last().0@, entries.last().1@)
    }
}

impl View for TypeTable {
    type V = Map<Seq<char>, Seq<char>>;

    closed spec fn view(&self) -> Map<Seq<char>, Seq<char>> {
        declared_types(self.entries@)
    }
}

/// The types of outer declarations, where inner ones do not hide them.
pub open spec fn hidden_by(
    outer: Map<Seq<char>, Seq<char>>,
    inner: Map<Seq<char>, Seq<char>>,
) -> Map<Seq<char>, Seq<char>> {
    outer.union_prefer_right(inner)
}

proof fn lemma_types_of_both(outer: Seq<(String, String)>, inner: Seq<(String, String)>)
    ensures
        declared_types(outer + inner) == hidden_by(declared_types(outer), declared_types(inner)),
    decreases inner.len(),
{
    if inner.len() == 0 {
        assert(outer + inner =~= outer);
        assert(hidden_by(declared_types(outer), declared_types(inner)) =~= declared_types(outer));
    } else {
        assert((outer + inner).drop_last() =~= outer + inner.drop_last());
        lemma_types_of_both(outer, inner.drop_last());
        assert(declared_types(outer + inner) =~= hidden_by(
            declared_types(outer),
            declared_types(inner),
        ));
    }
}

impl TypeTable {
    pub fn new() -> (table: Self)
        ensures
            table@ == Map::<Seq<char>, Seq<char>>::empty(),
    {
        TypeTable { entries: Vec::new() }
    }

    /// Declares a name with a type.
    pub fn insert(&mut self, name: String, type_text: String)
        ensures
            final(self)@ == old(self)@.insert(name@, type_text@),
    {
        let ghost before = self.entries@;
        self.entries.push((name, type_text));
        assert(self.entries@.drop_last() =~= before);
    }

    /// The type that a name is declared with.
    pub fn get(&self, name: &str) -> (type_text: Option<&String>)
        ensures
            match type_text {
                Some(found) => self@.dom().contains(name@) && self@[name@] == found@,
                None => !self@.dom().contains(name@),
            },
    {
        let mut i: usize = self.entries.len();
        assert(self.entries@.take(i as int) =~= self.entries@);
        while i > 0
            invariant
                i <= self.entries@.len(),
                self@.dom().contains(name@) == declared_types(
                    self.entries@.take(i as int),
                ).dom().contains(name@),
                self@.dom().contains(name@) ==> self@[name@] == declared_types(
                    self.entries@.take(i as int),
                )[name@],
            decreases i,
        {
            assert(self.entries@.take(i as int).drop_last() =~= self.entries@.take(i - 1));
            if same(self.entries[i - 1].0.as_str(), name) {
                return Some(&self.entries[i - 1].1);
            }
            i = i - 1;
        }
        None
    }

    /// The types of these declarations around those of `inner`.
    pub fn around(&self, inner: &TypeTable) -> (both: TypeTable)
        ensures
            both@ == hidden_by(self@, inner@),
    {
        let mut entries: Vec<(String, String)> = Vec::new();
        let mut i: usize = 0;
        while i < self.entries.len()
            invariant
                i <= self.entries@.len(),
                entries@ == self.entries@.take(i as int),
            decreases self.entries@.len() - i,
        {
            let entry = &self.entries[i];
            entries.push((entry.0.clone(), entry.1.clone()));
            i = i + 1;
            assert(entries@ =~= self.entries@.take(i as int));
        }
        assert(entries@ =~= self.entries@);
        let mut j: usize = 0;
        assert(self.entries@ + inner.entries@.take(0) =~= self.entries@);
        while j < inner.entries.len()
            invariant
                j <= inner.entries@.len(),
                entries@ == self.entries@ + inner.entries@.take(j as int),
            decreases inner.entries@.len() - j,
        {
            let entry = &inner.entries[j];
            entries.push((entry.0.clone(), entry.1.clone()));
            j = j + 1;
            assert(entries@ =~= self.entries@ + inner.entries@.take(j as int));
        }
        assert(inner.entries@.take(j as int) =~= inner.entries@);
        proof {
            lemma_types_of_both(self.entries@, inner.entries@);
        }
        TypeTable { entries }
    }
}

/// The identifier of a declarator: the node itself, one of its children, or the first
/// that is found below them.
pub open spec fn identifier_text(tree: TreeView, at: int) -> Seq<char>
    decreases tree.nodes.len() - at, 0int,
{
    if at < 0 || at >= tree.nodes.len() {
        seq![]
    } else if tree.nodes[at].kind == "identifier"@ {
        trimmed_at(tree, at)
    } else {
        match child_of_kind(tree, at, "identifier"@) {
            Some(child) => trimmed_at(tree, child),
            None => first_identifier(tree, at + 1, end_of(tree, at)),
        }
    }
}

/// The first identifier of the subtrees from `from` up to `limit`.
pub open spec fn first_identifier(tree: TreeView, from: int, limit: int) -> Seq<char>
    decreases tree.nodes.len() - from, 1int,
{
    if from < 0 || from >= limit || limit > tree.nodes.len() {
        seq![]
    } else {
        let here = identifier_text(tree, from);
        let next = subtree_end(tree, from, limit);
        if here.len() > 0 || next <= from || next > limit {
            here
        } else {
            first_identifier(tree, next, limit)
        }
    }
}

/// The identifier of the declarator at `at`.
pub fn get_identifier_text(tree: &SyntaxTree, at: usize) -> (text: String)
    requires
        tree.wf(),
        at < tree@.nodes.len(),
    ensures
        text@ == identifier_text(tree@, at as int),
    decreases tree@.nodes.len() - at,
{
    if tree.is_kind(at, "identifier") {
        return tree.text_for_node(at);
    }
    if let Some(child) = tree.find_child_by_kind(at, "identifier") {
        return tree.text_for_node(child);
    }
    let limit = tree.end(at);
    let mut next: usize = at + 1;
    while next < limit
        invariant
            tree.wf(),
            at < next <= limit <= tree@.nodes.len(),
            limit == end_of(tree@, at as int),
            identifier_text(tree@, at as int) == first_identifier(
                tree@,
                next as int,
                limit as int,
            ),
        decreases limit - next,
    {
        let here = get_identifier_text(tree, next);
        if !here.as_str().is_empty() {
            return here;
        }
        let after = tree.subtree_end(next, limit);
        assert(after == limit ==> first_identifier(tree@, limit as int, limit as int)
            =~= here@);
        next = after;
    }
    String::new()
}

/// The types after the declaration of a parameter.
pub open spec fn with_parameter(
    tree: TreeView,
    at: int,
    types: Map<Seq<char>, Seq<char>>,
) -> Map<Seq<char>, Seq<char>> {
    match (
        child_in_field(tree, at, "type"@),
        child_named(tree, at, "name"@, "variable_declarator_id"@),
    ) {
        (Some(type_at), Some(name_at)) => {
            let type_text = trimmed_at(tree, type_at);
            let name = identifier_text(tree, name_at);
            if name.len() > 0 && type_text.len() > 0 {
                types.insert(name, type_text)
            } else {
                types
            }
        },
        _ => types,
    }
}

/// The types after the variables among `declarators` are declared with a type.
pub open spec fn with_declarators(
    tree: TreeView,
    declarators: Seq<int>,
    type_text: Seq<char>,
    types: Map<Seq<char>, Seq<char>>,
) -> Map<Seq<char>, Seq<char>>
    decreases declarators.len(),
{
    if declarators.len() == 0 {
        types
    } else {
        let at = declarators[0];
        let here = if tree.nodes[at].kind == "variable_declarator"@ {
            match child_named(tree, at, "name"@, "variable_declarator_id"@) {
                Some(name_at) => if identifier_text(tree, name_at).len() > 0 {
                    types.insert(identifier_text(tree, name_at), type_text)
                } else {
                    types
                },
                None => types,
            }
        } else {
            types
        };
        with_declarators(tree, declarators.skip(1), type_text, here)
    }
}

/// The types after a declaration of variables or fields.
pub open spec fn with_variables(
    tree: TreeView,
    at: int,
    types: Map<Seq<char>, Seq<char>>,
) -> Map<Seq<char>, Seq<char>> {
    match child_in_field(tree, at, "type"@) {
        Some(type_at) => if trimmed_at(tree, type_at).len() > 0 {
            with_declarators(tree, children(tree, at), trimmed_at(tree, type_at), types)
        } else {
            types
        },
        None => types,
    }
}

/// The kinds of class and interface declarations.
pub open spec fn is_type_declaration(kind: Seq<char>) -> bool {
    kind == "class_declaration"@ || kind == "interface_declaration"@
}

/// The kinds of declarations of variables.
pub open spec fn is_variable_declaration(kind: Seq<char>) -> bool {
    kind == "local_variable_declaration"@ || kind == "field_declaration"@
}

/// The types after the declarations of the subtrees from `from` up to `limit`. Nested
/// classes and interfaces keep theirs to themselves.
pub open spec fn types_walk(
    tree: TreeView,
    from: int,
    limit: int,
    types: Map<Seq<char>, Seq<char>>,
) -> Map<Seq<char>, Seq<char>>
    decreases limit - from,
{
    if from >= limit {
        types
    } else {
        let kind = tree.nodes[from].kind;
        let end = subtree_end(tree, from, limit);
        if end <= from || end > limit {
            types
        } else {
            let here = if is_type_declaration(kind) {
                types
            } else if kind == "formal_parameter"@ {
                with_parameter(tree, from, types)
            } else if is_variable_declaration(kind) {
                with_variables(tree, from, types)
            } else {
                types_walk(tree, from + 1, end, types)
            };
            types_walk(tree, end, limit, here)
        }
    }
}

/// The types that are declared in the declaration at `at`.
pub open spec fn java_types(tree: TreeView, at: int) -> Map<Seq<char>, Seq<char>> {
    types_walk(tree, at + 1, end_of(tree, at), Map::empty())
}

fn declare_parameter(tree: &SyntaxTree, at: usize, types: &mut TypeTable)
    requires
        tree.wf(),
        at < tree@.nodes.len(),
    ensures
        final(types)@ == with_parameter(tree@, at as int, old(types)@),
{
    match (
        tree.child_by_field_name(at, "type"),
        tree.child_named(at, "name", "variable_declarator_id"),
    ) {
        (Some(type_at), Some(name_at)) => {
            let type_text = tree.text_for_node(type_at);
            let name = get_identifier_text(tree, name_at);
            if !name.as_str().is_empty() && !type_text.as_str().is_empty() {
                types.insert(name, type_text);
            }
        },
        _ => {},
    }
}

fn declare_variables(tree: &SyntaxTree, at: usize, types: &mut TypeTable)
    requires
        tree.wf(),
        at < tree@.nodes.len(),
    ensures
        final(types)@ == with_variables(tree@, at as int, old(types)@),
{
    if let Some(type_at) = tree.child_by_field_name(at, "type") {
        let type_text = tree.text_for_node(type_at);
        if !type_text.as_str().is_empty() {
            let limit = tree.end(at);
            let mut next: usize = at + 1;
            let ghost start = types@;
            while next < limit
                invariant
                    tree.wf(),
                    at < next <= limit <= tree@.nodes.len(),
                    limit == end_of(tree@, at as int),
                    with_declarators(tree@, children(tree@, at as int), type_text@, start)
                        == with_declarators(
                        tree@,
                        roots(tree@, next as int, limit as int),
                        type_text@,
                        types@,
                    ),
                decreases limit - next,
            {
                proof {
                    lemma_roots_step(tree@, next as int, limit as int);
                }
                if tree.is_kind(next, "variable_declarator") {
                    if let Some(name_at) = tree.child_named(
                        next,
                        "name",
                        "variable_declarator_id",
                    ) {
                        let name = get_identifier_text(tree, name_at);
                        if !name.as_str().is_empty() {
                            types.insert(name, type_text.clone());
                        }
                    }
                }
                next = tree.subtree_end(next, limit);
            }
        }
    }
}

fn walk_java_types(tree: &SyntaxTree, from: usize, limit: usize, types: &mut TypeTable)
    requires
        tree.wf(),
        from <= limit <= tree@.nodes.len(),
    ensures
        final(types)@ == types_walk(tree@, from as int, limit as int, old(types)@),
    decreases limit - from,
{
    let mut at: usize = from;
    let ghost start = types@;
    while at < limit
        invariant
            tree.wf(),
            from <= at <= limit <= tree@.nodes.len(),
            types_walk(tree@, from as int, limit as int, start) == types_walk(
                tree@,
                at as int,
                limit as int,
                types@,
            ),
        decreases limit - at,
    {
        let end = tree.subtree_end(at, limit);
        if tree.is_kind(at, "class_declaration") || tree.is_kind(at, "interface_declaration") {
        } else if tree.is_kind(at, "formal_parameter") {
            declare_parameter(tree, at, types);
        } else if tree.is_kind(at, "local_variable_declaration") || tree.is_kind(
            at,
            "field_declaration",
        ) {
            declare_variables(tree, at, types);
        } else {
            walk_java_types(tree, at + 1, end, types);
        }
        at = end;
    }
}

/// The types that are declared in the declaration at `at`.
pub fn collect_java_types(tree: &SyntaxTree, at: usize) -> (types: TypeTable)
    requires
        tree.wf(),
        at < tree@.nodes.len(),
    ensures
        types@ == java_types(tree@, at as int),
{
    let mut types = TypeTable::new();
    let end = tree.end(at);
    walk_java_types(tree, at + 1, end, &mut types);
    types
}

// ---------------------------------------------------------------------------
// Annotations

/// The kinds of annotations.
pub open spec fn is_annotation(kind: Seq<char>) -> bool {
    kind == "annotation"@ || kind == "marker_annotation"@
}

/// Those of `candidates` that are annotations.
pub open spec fn annotations_among(tree: TreeView, candidates: Seq<int>) -> Seq<int>
    decreases candidates.len(),
{
    if candidates.len() == 0 {
        seq![]
    } else if is_annotation(tree.nodes[candidates[0]].kind) {
        seq![candidates[0]] + annotations_among(tree, candidates.skip(1))
    } else {
        annotations_among(tree, candidates.skip(1))
    }
}

/// The annotations among `candidates` and in the modifiers among them.
pub open spec fn annotations_below(tree: TreeView, candidates: Seq<int>) -> Seq<int>
    decreases candidates.len(),
{
    if candidates.len() == 0 {
        seq![]
    } else {
        let at = candidates[0];
        let in_modifiers = if tree.nodes[at].kind == "modifiers"@ {
            annotations_among(tree, children(tree, at))
        } else {
            seq![]
        };
        let itself = if is_annotation(tree.nodes[at].kind) {
            seq![at]
        } else {
            seq![]
        };
        in_modifiers + itself + annotations_below(tree, candidates.skip(1))
    }
}

/// The annotations of the declaration at `at`, in the order of the source.
pub open spec fn annotations_of(tree: TreeView, at: int) -> Seq<int> {
    annotations_below(tree, children(tree, at))
}

fn annotates(tree: &SyntaxTree, at: usize) -> (found: bool)
    requires
        at < tree@.nodes.len(),
    ensures
        found == is_annotation(tree@.nodes[at as int].kind),
{
    tree.is_kind(at, "annotation") || tree.is_kind(at, "marker_annotation")
}

pub open spec fn within(found: Seq<usize>, count: int) -> bool {
    forall|i: int| 0 <= i < found.len() ==> (#[trigger] found[i]) < count
}

fn add_modifiers(tree: &SyntaxTree, at: usize, found: &mut Vec<usize>)
    requires
        at < tree@.nodes.len(),
        within(old(found)@, tree@.nodes.len() as int),
    ensures
        places(final(found)@) == places(old(found)@) + annotations_among(
            tree@,
            children(tree@, at as int),
        ),
        within(final(found)@, tree@.nodes.len() as int),
{
    let limit = tree.end(at);
    let mut next: usize = at + 1;
    let ghost start = found@;
    while next < limit
        invariant
            at < next <= limit <= tree@.nodes.len(),
            limit == end_of(tree@, at as int),
            within(found@, tree@.nodes.len() as int),
            places(start) + annotations_among(tree@, children(tree@, at as int)) == places(found@)
                + annotations_among(tree@, roots(tree@, next as int, limit as int)),
        decreases limit - next,
    {
        proof {
            lemma_roots_step(tree@, next as int, limit as int);
        }
        let ghost before = found@;
        let after = tree.subtree_end(next, limit);
        if annotates(tree, next) {
            found.push(next);
            proof {
                let rest = annotations_among(tree@, roots(tree@, after as int, limit as int));
                assert(places(found@) =~= places(before).push(next as int));
                assert(places(before) + (seq![next as int] + rest) =~= places(found@) + rest);
            }
        }
        next = after;
    }
    assert(places(found@) + Seq::<int>::empty() =~= places(found@));
}

/// The annotations of the declaration at `at`.
pub fn find_annotations(tree: &SyntaxTree, at: usize) -> (found: Vec<usize>)
    requires
        at < tree@.nodes.len(),
    ensures
        places(found@) == annotations_of(tree@, at as int),
        within(found@, tree@.nodes.len() as int),
{
    let limit = tree.end(at);
    let mut next: usize = at + 1;
    let mut found: Vec<usize> = Vec::new();
    assert(places(found@) + annotations_of(tree@, at as int) =~= annotations_of(
        tree@,
        at as int,
    ));
    while next < limit
        invariant
            at < next <= limit <= tree@.nodes.len(),
            limit == end_of(tree@, at as int),
            within(found@, tree@.nodes.len() as int),
            annotations_of(tree@, at as int) == places(found@) + annotations_below(
                tree@,
                roots(tree@, next as int, limit as int),
            ),
        decreases limit - next,
    {
        proof {
            lemma_roots_step(tree@, next as int, limit as int);
        }
        let ghost before = found@;
        let after = tree.subtree_end(next, limit);
        let ghost rest = annotations_below(tree@, roots(tree@, after as int, limit as int));
        let ghost in_modifiers = if tree@.nodes[next as int].kind == "modifiers"@ {
            annotations_among(tree@, children(tree@, next as int))
        } else {
            seq![]
        };
        if tree.is_kind(next, "modifiers") {
            add_modifiers(tree, next, &mut found);
        }
        assert(places(found@) =~= places(before) + in_modifiers);
        let ghost middle = found@;
        let ghost itself = if is_annotation(tree@.nodes[next as int].kind) {
            seq![next as int]
        } else {
            seq![]
        };
        if annotates(tree, next) {
            found.push(next);
        }
        assert(places(found@) =~= places(middle) + itself);
        assert(places(before) + (in_modifiers + itself + rest) =~= places(found@) + rest);
        next = after;
    }
    assert(places(found@) + Seq::<int>::empty() =~= places(found@));
    found
}

/// The text of the first identifier of a node, or nothing without one.
pub open spec fn own_identifier(tree: TreeView, at: int) -> Seq<char> {
    match child_of_kind(tree, at, "identifier"@) {
        Some(name) => text_at(tree, name),
        None => seq![],
    }
}

/// The text of the first identifier of the node at `at`.
pub fn identifier_of(tree: &SyntaxTree, at: usize) -> (name: String)
    requires
        tree.wf(),
        at < tree@.nodes.len(),
    ensures
        name@ == own_identifier(tree@, at as int),
{
    match tree.find_child_by_kind(at, "identifier") {
        Some(name) => tree.text(name),
        None => String::new(),
    }
}

/// A text that both starts and ends with the quote.
pub open spec fn quoted_by(text: Seq<char>, quote: char) -> bool {
    text.len() >= 2 && text[0] == quote && text.last() == quote
}

/// The value of a string literal: its text without the quotes.
pub open spec fn literal_value(text: Seq<char>) -> Seq<char> {
    if quoted_by(text, '"') || quoted_by(text, '\'') {
        text.subrange(1, text.len() - 1)
    } else {
        text
    }
}

/// The value of the string literal at `at`.
pub fn extract_string_literal_value(tree: &SyntaxTree, at: usize) -> (value: String)
    requires
        tree.wf(),
        at < tree@.nodes.len(),
    ensures
        value@ == literal_value(text_at(tree@, at as int)),
{
    let text = tree.text(at);
    let chars = chars_of(text.as_str());
    if chars.len() >= 2 && ((chars[0] == '"' && chars[chars.len() - 1] == '"') || (chars[0] == '\''
        && chars[chars.len() - 1] == '\'')) {
        string_of(&chars, 1, chars.len() - 1)
    } else {
        text
    }
}

/// The value in a pair of an annotation's arguments: what is neither its name nor `=`.
pub open spec fn pair_value(tree: TreeView, candidates: Seq<int>) -> Option<int>
    decreases candidates.len(),
{
    if candidates.len() == 0 {
        None
    } else if tree.nodes[candidates[0]].kind != "identifier"@ && tree.nodes[candidates[0]].kind
        != "="@ {
        Some(candidates[0])
    } else {
        pair_value(tree, candidates.skip(1))
    }
}

/// The value in the pair at `at`.
pub fn find_element_value_pair_value(tree: &SyntaxTree, at: usize) -> (value: Option<usize>)
    requires
        at < tree@.nodes.len(),
    ensures
        place(value) == pair_value(tree@, children(tree@, at as int)),
        value is Some ==> value->0 < tree@.nodes.len(),
{
    let limit = tree.end(at);
    let mut next: usize = at + 1;
    while next < limit
        invariant
            at < next <= limit <= tree@.nodes.len(),
            limit == end_of(tree@, at as int),
            pair_value(tree@, children(tree@, at as int)) == pair_value(
                tree@,
                roots(tree@, next as int, limit as int),
            ),
        decreases limit - next,
    {
        proof {
            lemma_roots_step(tree@, next as int, limit as int);
        }
        if !tree.is_kind(next, "identifier") && !tree.is_kind(next, "=") {
            return Some(next);
        }
        next = tree.subtree_end(next, limit);
    }
    None
}

/// The values of the string literals among `candidates`.
pub open spec fn literals_among(tree: TreeView, candidates: Seq<int>) -> Seq<Seq<char>>
    decreases candidates.len(),
{
    if candidates.len() == 0 {
        seq![]
    } else if tree.nodes[candidates[0]].kind == "string_literal"@ {
        seq![literal_value(text_at(tree, candidates[0]))] + literals_among(
            tree,
            candidates.skip(1),
        )
    } else {
        literals_among(tree, candidates.skip(1))
    }
}

/// The strings that a value holds: one, or those of an array.
pub open spec fn value_literals(tree: TreeView, at: int) -> Seq<Seq<char>> {
    let kind = tree.nodes[at].kind;
    if kind == "string_literal"@ {
        seq![literal_value(text_at(tree, at))]
    } else if kind == "element_value_array_initializer"@ {
        literals_among(tree, children(tree, at))
    } else {
        seq![]
    }
}

/// The paths that an argument of a mapping gives: a bare string, or the value of the
/// pair `value` or `path`.
pub open spec fn argument_paths(tree: TreeView, at: int) -> Seq<Seq<char>> {
    let kind = tree.nodes[at].kind;
    if kind == "string_literal"@ {
        seq![literal_value(text_at(tree, at))]
    } else if kind == "element_value_pair"@ {
        let key = own_identifier(tree, at);
        if key == "value"@ || key == "path"@ {
            match pair_value(tree, children(tree, at)) {
                Some(value) => value_literals(tree, value),
                None => seq![],
            }
        } else {
            seq![]
        }
    } else {
        seq![]
    }
}

/// The paths that the arguments give, one after the other.
pub open spec fn arguments_paths(tree: TreeView, arguments: Seq<int>) -> Seq<Seq<char>>
    decreases arguments.len(),
{
    if arguments.len() == 0 {
        seq![]
    } else {
        argument_paths(tree, arguments[0]) + arguments_paths(tree, arguments.skip(1))
    }
}

/// The paths of a mapping annotation.
pub open spec fn annotation_paths(tree: TreeView, annotation: int) -> Seq<Seq<char>> {
    match child_of_kind(tree, annotation, "annotation_argument_list"@) {
        Some(list) => arguments_paths(tree, children(tree, list)),
        None => seq![],
    }
}

fn add_literals(tree: &SyntaxTree, at: usize, found: &mut Vec<String>)
    requires
        tree.wf(),
        at < tree@.nodes.len(),
    ensures
        views(final(found)@) == views(old(found)@) + value_literals(tree@, at as int),
{
    let ghost start = found@;
    if tree.is_kind(at, "string_literal") {
        let value = extract_string_literal_value(tree, at);
        proof {
            lemma_views_push(found@, value);
        }
        found.push(value);
        assert(views(found@) =~= views(start) + seq![value@]);
    } else if tree.is_kind(at, "element_value_array_initializer") {
        let limit = tree.end(at);
        let mut next: usize = at + 1;
        while next < limit
            invariant
                tree.wf(),
                at < next <= limit <= tree@.nodes.len(),
                limit == end_of(tree@, at as int),
                views(start) + literals_among(tree@, children(tree@, at as int)) == views(found@)
                    + literals_among(tree@, roots(tree@, next as int, limit as int)),
            decreases limit - next,
        {
            proof {
                lemma_roots_step(tree@, next as int, limit as int);
            }
            let ghost before = found@;
            let after = tree.subtree_end(next, limit);
            if tree.is_kind(next, "string_literal") {
                let value = extract_string_literal_value(tree, next);
                found.push(value);
                proof {
                    let rest = literals_among(tree@, roots(tree@, after as int, limit as int));
                    lemma_views_push(before, value);
                    assert(views(before) + (seq![value@] + rest) =~= views(found@) + rest);
                }
            }
            next = after;
        }
        assert(views(found@) + Seq::<Seq<char>>::empty() =~= views(found@));
    } else {
        assert(views(found@) + Seq::<Seq<char>>::empty() =~= views(found@));
    }
}

fn add_argument_paths(tree: &SyntaxTree, at: usize, found: &mut Vec<String>)
    requires
        tree.wf(),
        at < tree@.nodes.len(),
    ensures
        views(final(found)@) == views(old(found)@) + argument_paths(tree@, at as int),
{
    let ghost start = found@;
    assert(views(start) + Seq::<Seq<char>>::empty() =~= views(start));
    if tree.is_kind(at, "string_literal") {
        let value = extract_string_literal_value(tree, at);
        proof {
            lemma_views_push(found@, value);
        }
        found.push(value);
        assert(views(found@) =~= views(start) + seq![value@]);
    } else if tree.is_kind(at, "element_value_pair") {
        let key = identifier_of(tree, at);
        if same(key.as_str(), "value") || same(key.as_str(), "path") {
            if let Some(value) = find_element_value_pair_value(tree, at) {
                add_literals(tree, value, found);
            }
        }
    }
}

/// The paths of the mapping annotation at `annotation`.
pub fn extract_annotation_paths(tree: &SyntaxTree, annotation: usize) -> (paths: Vec<String>)
    requires
        tree.wf(),
        annotation < tree@.nodes.len(),
    ensures
        views(paths@) == annotation_paths(tree@, annotation as int),
{
    let mut paths: Vec<String> = Vec::new();
    assert(views(paths@) =~= Seq::<Seq<char>>::empty());
    if let Some(list) = tree.find_child_by_kind(annotation, "annotation_argument_list") {
        let limit = tree.end(list);
        let mut next: usize = list + 1;
        assert(views(paths@) + annotation_paths(tree@, annotation as int) =~= annotation_paths(
            tree@,
            annotation as int,
        ));
        while next < limit
            invariant
                tree.wf(),
                list < next <= limit <= tree@.nodes.len(),
                limit == end_of(tree@, list as int),
                annotation_paths(tree@, annotation as int) == views(paths@) + arguments_paths(
                    tree@,
                    roots(tree@, next as int, limit as int),
                ),
            decreases limit - next,
        {
            proof {
                lemma_roots_step(tree@, next as int, limit as int);
            }
            let ghost before = paths@;
            let after = tree.subtree_end(next, limit);
            add_argument_paths(tree, next, &mut paths);
            proof {
                let rest = arguments_paths(tree@, roots(tree@, after as int, limit as int));
                assert(views(before) + (argument_paths(tree@, next as int) + rest) =~= views(
                    paths@,
                ) + rest);
            }
            next = after;
        }
        assert(views(paths@) + Seq::<Seq<char>>::empty() =~= views(paths@));
    }
    paths
}

// ---------------------------------------------------------------------------
// Request methods

/// The last identifier among `candidates`.
pub open spec fn last_identifier(tree: TreeView, candidates: Seq<int>) -> Option<int>
    decreases candidates.len(),
{
    if candidates.len() == 0 {
        None
    } else {
        match last_identifier(tree, candidates.skip(1)) {
            Some(found) => Some(found),
            None => if tree.nodes[candidates[0]].kind == "identifier"@ {
                Some(candidates[0])
            } else {
                None
            },
        }
    }
}

/// The name at the end of a field access, such as `GET` in `RequestMethod.GET`.
pub open spec fn accessed_name(tree: TreeView, at: int) -> Option<Seq<char>> {
    match last_identifier(tree, children(tree, at)) {
        Some(name) => Some(text_at(tree, name)),
        None => None,
    }
}

/// The name at the end of a field access, where the node is one.
pub open spec fn accessed_names(tree: TreeView, at: int) -> Seq<Seq<char>> {
    if tree.nodes[at].kind == "field_access"@ {
        match accessed_name(tree, at) {
            Some(name) => seq![name],
            None => seq![],
        }
    } else {
        seq![]
    }
}

/// The names at the ends of the field accesses among `candidates`.
pub open spec fn accesses_among(tree: TreeView, candidates: Seq<int>) -> Seq<Seq<char>>
    decreases candidates.len(),
{
    if candidates.len() == 0 {
        seq![]
    } else {
        accessed_names(tree, candidates[0]) + accesses_among(tree, candidates.skip(1))
    }
}

/// The methods that a value names: one, or those of an array.
pub open spec fn value_methods(tree: TreeView, at: int) -> Seq<Seq<char>> {
    let kind = tree.nodes[at].kind;
    if kind == "field_access"@ {
        accessed_names(tree, at)
    } else if kind == "element_value_array_initializer"@ {
        accesses_among(tree, children(tree, at))
    } else {
        seq![]
    }
}

/// The methods that an argument of a mapping names.
pub open spec fn argument_methods(tree: TreeView, at: int) -> Seq<Seq<char>> {
    if tree.nodes[at].kind == "element_value_pair"@ && own_identifier(tree, at) == "method"@ {
        match pair_value(tree, children(tree, at)) {
            Some(value) => value_methods(tree, value),
            None => seq![],
        }
    } else {
        seq![]
    }
}

/// The methods that the arguments name, one after the other.
pub open spec fn arguments_methods(tree: TreeView, arguments: Seq<int>) -> Seq<Seq<char>>
    decreases arguments.len(),
{
    if arguments.len() == 0 {
        seq![]
    } else {
        argument_methods(tree, arguments[0]) + arguments_methods(tree, arguments.skip(1))
    }
}

/// The methods that a general mapping names; any where it names none.
pub open spec fn mapped_methods(tree: TreeView, annotation: int) -> Seq<Seq<char>> {
    let named = match child_of_kind(tree, annotation, "annotation_argument_list"@) {
        Some(list) => arguments_methods(tree, children(tree, list)),
        None => seq![],
    };
    if named.len() == 0 {
        seq!["ANY"@]
    } else {
        named
    }
}

/// The request methods of a mapping annotation.
pub open spec fn request_methods(tree: TreeView, annotation: int) -> Seq<Seq<char>> {
    let name = own_identifier(tree, annotation);
    if name == "GetMapping"@ {
        seq!["GET"@]
    } else if name == "PostMapping"@ {
        seq!["POST"@]
    } else if name == "PutMapping"@ {
        seq!["PUT"@]
    } else if name == "DeleteMapping"@ {
        seq!["DELETE"@]
    } else if name == "PatchMapping"@ {
        seq!["PATCH"@]
    } else if name == "RequestMapping"@ {
        mapped_methods(tree, annotation)
    } else {
        seq![]
    }
}

/// The name at the end of the field access at `at`.
pub fn extract_method_from_field_access(tree: &SyntaxTree, at: usize) -> (name: Option<String>)
    requires
        tree.wf(),
        at < tree@.nodes.len(),
    ensures
        opt_text(name) == accessed_name(tree@, at as int),
{
    let limit = tree.end(at);
    let mut next: usize = at + 1;
    let mut last: Option<usize> = None;
    while next < limit
        invariant
            at < next <= limit <= tree@.nodes.len(),
            limit == end_of(tree@, at as int),
            last is Some ==> last->0 < tree@.nodes.len(),
            last_identifier(tree@, children(tree@, at as int)) == match last_identifier(
                tree@,
                roots(tree@, next as int, limit as int),
            ) {
                Some(found) => Some(found),
                None => place(last),
            },
        decreases limit - next,
    {
        proof {
            lemma_roots_step(tree@, next as int, limit as int);
        }
        if tree.is_kind(next, "identifier") {
            last = Some(next);
        }
        next = tree.subtree_end(next, limit);
    }
    match last {
        Some(name) => Some(tree.text(name)),
        None => None,
    }
}

fn add_access(tree: &SyntaxTree, at: usize, found: &mut Vec<String>)
    requires
        tree.wf(),
        at < tree@.nodes.len(),
    ensures
        views(final(found)@) == views(old(found)@) + accessed_names(tree@, at as int),
{
    let ghost start = found@;
    assert(views(start) + Seq::<Seq<char>>::empty() =~= views(start));
    if tree.is_kind(at, "field_access") {
        if let Some(name) = extract_method_from_field_access(tree, at) {
            proof {
                lemma_views_push(found@, name);
            }
            found.push(name);
            assert(views(found@) =~= views(start) + seq![name@]);
        }
    }
}

fn add_value_methods(tree: &SyntaxTree, at: usize, found: &mut Vec<String>)
    requires
        tree.wf(),
        at < tree@.nodes.len(),
    ensures
        views(final(found)@) == views(old(found)@) + value_methods(tree@, at as int),
{
    let ghost start = found@;
    assert(views(start) + Seq::<Seq<char>>::empty() =~= views(start));
    if tree.is_kind(at, "field_access") {
        add_access(tree, at, found);
    } else if tree.is_kind(at, "element_value_array_initializer") {
        let limit = tree.end(at);
        let mut next: usize = at + 1;
        while next < limit
            invariant
                tree.wf(),
                at < next <= limit <= tree@.nodes.len(),
                limit == end_of(tree@, at as int),
                views(start) + accesses_among(tree@, children(tree@, at as int)) == views(found@)
                    + accesses_among(tree@, roots(tree@, next as int, limit as int)),
            decreases limit - next,
        {
            proof {
                lemma_roots_step(tree@, next as int, limit as int);
            }
            let ghost before = found@;
            let after = tree.subtree_end(next, limit);
            add_access(tree, next, found);
            proof {
                let rest = accesses_among(tree@, roots(tree@, after as int, limit as int));
                assert(views(before) + (accessed_names(tree@, next as int) + rest) =~= views(
                    found@,
                ) + rest);
            }
            next = after;
        }
        assert(views(found@) + Seq::<Seq<char>>::empty() =~= views(found@));
    }
}

fn named_methods(tree: &SyntaxTree, list: usize) -> (found: Vec<String>)
    requires
        tree.wf(),
        list < tree@.nodes.len(),
    ensures
        views(found@) == arguments_methods(tree@, children(tree@, list as int)),
{
    let limit = tree.end(list);
    let mut next: usize = list + 1;
    let mut found: Vec<String> = Vec::new();
    let ghost all = arguments_methods(tree@, children(tree@, list as int));
    assert(views(found@) + all =~= all);
    while next < limit
        invariant
            tree.wf(),
            list < next <= limit <= tree@.nodes.len(),
            limit == end_of(tree@, list as int),
            all == views(found@) + arguments_methods(
                tree@,
                roots(tree@, next as int, limit as int),
            ),
        decreases limit - next,
    {
        proof {
            lemma_roots_step(tree@, next as int, limit as int);
        }
        let ghost before = found@;
        let after = tree.subtree_end(next, limit);
        assert(views(before) + Seq::<Seq<char>>::empty() =~= views(before));
        if tree.is_kind(next, "element_value_pair") && same(
            identifier_of(tree, next).as_str(),
            "method",
        ) {
            if let Some(value) = find_element_value_pair_value(tree, next) {
                add_value_methods(tree, value, &mut found);
            }
        }
        assert(views(found@) == views(before) + argument_methods(tree@, next as int));
        proof {
            let rest = arguments_methods(tree@, roots(tree@, after as int, limit as int));
            assert(views(before) + (argument_methods(tree@, next as int) + rest) =~= views(found@)
                + rest);
        }
        next = after;
    }
    assert(views(found@) + Seq::<Seq<char>>::empty() =~= views(found@));
    found
}

fn only(text: &str) -> (list: Vec<String>)
    ensures
        views(list@) == seq![text@],
{
    let mut list: Vec<String> = Vec::new();
    list.push(text.to_string());
    assert(views(list@) =~= seq![text@]);
    list
}

/// The request methods of the mapping annotation at `annotation`.
pub fn extract_request_methods(tree: &SyntaxTree, annotation: usize) -> (methods: Vec<String>)
    requires
        tree.wf(),
        annotation < tree@.nodes.len(),
    ensures
        views(methods@) == request_methods(tree@, annotation as int),
{
    let name = identifier_of(tree, annotation);
    if same(name.as_str(), "GetMapping") {
        only("GET")
    } else if same(name.as_str(), "PostMapping") {
        only("POST")
    } else if same(name.as_str(), "PutMapping") {
        only("PUT")
    } else if same(name.as_str(), "DeleteMapping") {
        only("DELETE")
    } else if same(name.as_str(), "PatchMapping") {
        only("PATCH")
    } else if same(name.as_str(), "RequestMapping") {
        let named: Vec<String> = match tree.find_child_by_kind(
            annotation,
            "annotation_argument_list",
        ) {
            Some(list) => named_methods(tree, list),
            None => Vec::new(),
        };
        assert(views(named@).len() == named@.len());
        if named.len() == 0 {
            only("ANY")
        } else {
            named
        }
    } else {
        let none: Vec<String> = Vec::new();
        assert(views(none@) =~= seq![]);
        none
    }
}

} // verus!
