//! Which symbols, routes and calls a Java source is seen to hold.

use vstd::prelude::*;
use crate::db::{NodeView, RawCallView};
use crate::parser::common::{extended, nothing, ExtractionView};
use crate::parser::declared::{
    is_symbol, lemma_extended, lemma_found, named_call, some_node, within,
};
use crate::parser::java::{
    annotation_routes, annotations_routes, class_paths, combined_path, controller_prefixes,
    import_of, is_mapping, java_call, java_here, java_scope, java_walk, marks_controller,
    method_routes, method_symbol, route_call, route_symbol, routes_of_path, routes_of_paths,
    routes_of_prefixes, type_symbol, with_routes, with_slash, without_last_slash, JavaFile,
    JavaScope, RouteView,
};
use crate::parser::java_framework::laws::{
    annotations_stand_in_front, framework_keeps_what_was_found, is_note_on,
};
use crate::parser::java_framework::has_id;
use crate::parser::java_syntax::{
    annotation_paths, annotations_of, argument_methods, argument_paths, arguments_methods,
    arguments_paths, java_types, literal_value, literals_among, mapped_methods, own_identifier,
    pair_value, request_methods, value_literals,
};
use crate::parser::syntax::{
    child_in_field, child_named, child_of_kind, children, subtree_end, text_at, trimmed_at, Grammar,
    TreeView,
};
use crate::parser::walks::{adds_just, holder, reached, walk};
use crate::parser::{extraction, java_file};
use crate::text::laws::{is_solid, trimming_takes_only_space_away};
use crate::text::{before_first, contains, ends_with, is_space, trim};

verus! {

// ---------------------------------------------------------------------------
// Paths of routes

/// A part of a path: something without white space that neither begins nor ends with a
/// slash.
pub open spec fn is_segment(text: Seq<char>) -> bool {
    text.len() > 0 && is_solid(text) && text[0] != '/' && text.last() != '/'
}

/// The path of a route has one slash before each of its two parts, however these are
/// written, and is a slash where both are empty.
pub proof fn route_paths_have_single_slashes(prefix: Seq<char>, suffix: Seq<char>)
    requires
        is_segment(prefix),
        is_segment(suffix),
    ensures
        combined_path(prefix, suffix) == "/"@ + prefix + "/"@ + suffix,
        combined_path("/"@ + prefix, suffix) == "/"@ + prefix + "/"@ + suffix,
        combined_path(prefix + "/"@, suffix) == "/"@ + prefix + "/"@ + suffix,
        combined_path(prefix, "/"@ + suffix) == "/"@ + prefix + "/"@ + suffix,
        combined_path("/"@ + prefix + "/"@, "/"@ + suffix) == "/"@ + prefix + "/"@ + suffix,
        combined_path(seq![], suffix) == "/"@ + suffix,
        combined_path(seq![], "/"@ + suffix) == "/"@ + suffix,
        combined_path(prefix, seq![]) == "/"@ + prefix,
        combined_path("/"@ + prefix, seq![]) == "/"@ + prefix,
        combined_path(seq![], seq![]) == "/"@,
{
    reveal_strlit("/");
    let none: Seq<char> = seq![];
    let rooted = "/"@ + prefix;
    let tail = "/"@ + suffix;
    lemma_written(seq![], prefix, seq![]);
    lemma_written("/"@, prefix, seq![]);
    lemma_written(seq![], prefix, "/"@);
    lemma_written("/"@, prefix, "/"@);
    lemma_written(seq![], suffix, seq![]);
    lemma_written("/"@, suffix, seq![]);
    trimming_takes_only_space_away(none);
    assert(none + prefix + none =~= prefix);
    assert("/"@ + prefix + none =~= rooted);
    assert(none + prefix + "/"@ =~= prefix + "/"@);
    assert(none + suffix + none =~= suffix);
    assert("/"@ + suffix + none =~= tail);
    assert(with_slash(trim(none)) == none);
    assert(without_last_slash(none) == none);
    assert(rooted + tail =~= "/"@ + prefix + "/"@ + suffix);
    assert(none + tail =~= tail);
    assert(rooted + none =~= rooted);
    assert((none + none).len() == 0);
}

proof fn lemma_solid(before: Seq<char>, part: Seq<char>, after: Seq<char>)
    requires
        is_solid(part),
        before == Seq::<char>::empty() || before == "/"@,
        after == Seq::<char>::empty() || after == "/"@,
    ensures
        trim(before + part + after) == before + part + after,
{
    reveal_strlit("/");
    assert(!is_space('/'));
    let text = before + part + after;
    assert forall|i: int| 0 <= i < text.len() implies !is_space(#[trigger] text[i]) by {
        if i < before.len() {
            assert(text[i] == before[i]);
        } else if i < before.len() + part.len() {
            assert(text[i] == part[i - before.len()]);
        } else {
            assert(text[i] == after[i - before.len() - part.len()]);
        }
    }
    assert(is_solid(text));
    trimming_takes_only_space_away(text);
}

proof fn lemma_written(before: Seq<char>, part: Seq<char>, after: Seq<char>)
    requires
        is_segment(part),
        before == Seq::<char>::empty() || before == "/"@,
        after == Seq::<char>::empty() || after == "/"@,
    ensures
        with_slash(trim(before + part + after)) == "/"@ + part + after,
        without_last_slash("/"@ + part + after) == "/"@ + part,
{
    reveal_strlit("/");
    let text = before + part + after;
    lemma_solid(before, part, after);
    let whole = "/"@ + part + after;
    if before.len() == 0 {
        assert(text[0] == part[0]);
        assert("/"@ + text =~= whole);
    } else {
        assert(text[0] == '/');
        assert(text =~= whole);
    }
    if after.len() == 0 {
        assert(whole =~= "/"@ + part);
        assert(whole.last() == part.last());
    } else {
        assert(whole.last() == '/');
        assert(whole.drop_last() =~= "/"@ + part);
    }
}

// ---------------------------------------------------------------------------
// Imports

/// An import brings a name into scope.
pub open spec fn brings(import: Seq<char>, name: Seq<char>) -> bool {
    import == name || ends_with(import, "."@ + name)
}

/// A name comes from the first import that is the name or ends with a dot and the name.
pub proof fn names_come_from_the_first_import(name: Seq<char>, imports: Seq<Seq<char>>, i: int)
    ensures
        0 <= i < imports.len() && brings(imports[i], name) && (forall|j: int|
            0 <= j < i ==> !brings(#[trigger] imports[j], name)) ==> import_of(name, imports)
            == Some(imports[i]),
        (forall|j: int| 0 <= j < imports.len() ==> !brings(#[trigger] imports[j], name))
            ==> import_of(name, imports) is None,
    decreases imports.len(),
{
    if imports.len() > 0 {
        let rest = imports.skip(1);
        names_come_from_the_first_import(name, rest, i - 1);
        if 0 < i < imports.len() && brings(imports[i], name) && (forall|j: int|
            0 <= j < i ==> !brings(#[trigger] imports[j], name)) {
            assert(!brings(imports[0], name));
            assert(rest[i - 1] == imports[i]);
            assert forall|j: int| 0 <= j < i - 1 implies !brings(#[trigger] rest[j], name) by {
                assert(rest[j] == imports[j + 1]);
            }
        }
        if forall|j: int| 0 <= j < imports.len() ==> !brings(#[trigger] imports[j], name) {
            assert(!brings(imports[0], name));
            assert forall|j: int| 0 <= j < rest.len() implies !brings(#[trigger] rest[j], name) by {
                assert(rest[j] == imports[j + 1]);
            }
        }
    }
}

// ---------------------------------------------------------------------------
// Mappings

/// The annotation goes by the name.
pub open spec fn is_called(tree: TreeView, note: int, name: Seq<char>) -> bool {
    match child_of_kind(tree, note, "identifier"@) {
        Some(own) => text_at(tree, own) == name,
        None => false,
    }
}

proof fn lemma_split_contains<T>(all: Seq<T>, one: T)
    requires
        all.len() > 0,
    ensures
        all.contains(one) <==> all[0] == one || all.skip(1).contains(one),
{
    if all.contains(one) {
        let i = choose|i: int| 0 <= i < all.len() && all[i] == one;
        if i > 0 {
            assert(all.skip(1)[i - 1] == one);
        }
    }
    if all.skip(1).contains(one) {
        let i = choose|i: int| 0 <= i < all.skip(1).len() && all.skip(1)[i] == one;
        assert(all[i + 1] == one);
    }
    if all[0] == one {
        assert(all.contains(one));
    }
}

proof fn lemma_sum_contains<T>(first: Seq<T>, second: Seq<T>, one: T)
    ensures
        (first + second).contains(one) <==> first.contains(one) || second.contains(one),
{
    let all = first + second;
    if all.contains(one) {
        let i = choose|i: int| 0 <= i < all.len() && all[i] == one;
        if i < first.len() {
            assert(first[i] == one);
        } else {
            assert(second[i - first.len()] == one);
        }
    }
    if first.contains(one) {
        let i = choose|i: int| 0 <= i < first.len() && first[i] == one;
        assert(all[i] == one);
    }
    if second.contains(one) {
        let i = choose|i: int| 0 <= i < second.len() && second[i] == one;
        assert(all[i + first.len()] == one);
    }
}

/// One of some meets a condition.
pub open spec fn some_of(all: Seq<int>, meets: spec_fn(int) -> bool) -> bool {
    exists|one: int| #[trigger] all.contains(one) && meets(one)
}

proof fn lemma_some_of(all: Seq<int>, meets: spec_fn(int) -> bool)
    requires
        all.len() > 0,
    ensures
        some_of(all, meets) <==> meets(all[0]) || some_of(all.skip(1), meets),
{
    if some_of(all, meets) {
        let one = choose|one: int| #[trigger] all.contains(one) && meets(one);
        lemma_split_contains(all, one);
    }
    if some_of(all.skip(1), meets) {
        let one = choose|one: int| #[trigger] all.skip(1).contains(one) && meets(one);
        lemma_split_contains(all, one);
        assert(all.contains(one));
    }
    assert(all.contains(all[0]));
}

/// The argument gives the path: it is the string, or the pair `value` or `path` with it.
pub open spec fn argument_gives(tree: TreeView, at: int, path: Seq<char>) -> bool {
    ||| tree.nodes[at].kind == "string_literal"@ && path == literal_value(text_at(tree, at))
    ||| tree.nodes[at].kind == "element_value_pair"@ && (is_called(tree, at, "value"@) || is_called(
        tree,
        at,
        "path"@,
    )) && match pair_value(tree, children(tree, at)) {
        Some(value) => value_literals(tree, value).contains(path),
        None => false,
    }
}

proof fn lemma_names_are_some()
    ensures
        "value"@.len() > 0,
        "path"@.len() > 0,
        "method"@.len() > 0,
        "string_literal"@ != "element_value_pair"@,
        "string_literal"@ != "element_value_array_initializer"@,
{
    reveal_strlit("value");
    reveal_strlit("path");
    reveal_strlit("method");
    reveal_strlit("string_literal");
    reveal_strlit("element_value_pair");
    reveal_strlit("element_value_array_initializer");
    assert("string_literal"@[0] == 's' && "element_value_pair"@[0] == 'e');
    assert("element_value_array_initializer"@[0] == 'e');
}

proof fn lemma_argument(tree: TreeView, at: int, path: Seq<char>)
    ensures
        argument_paths(tree, at).contains(path) <==> argument_gives(tree, at, path),
{
    lemma_names_are_some();
    let own = seq![literal_value(text_at(tree, at))];
    assert(own[0] == literal_value(text_at(tree, at)));
}

proof fn lemma_arguments(tree: TreeView, arguments: Seq<int>, path: Seq<char>)
    ensures
        arguments_paths(tree, arguments).contains(path) <==> some_of(
            arguments,
            |at: int| argument_gives(tree, at, path),
        ),
    decreases arguments.len(),
{
    if arguments.len() > 0 {
        lemma_arguments(tree, arguments.skip(1), path);
        lemma_argument(tree, arguments[0], path);
        lemma_some_of(arguments, |at: int| argument_gives(tree, at, path));
        lemma_sum_contains(
            argument_paths(tree, arguments[0]),
            arguments_paths(tree, arguments.skip(1)),
            path,
        );
    }
}

/// The annotation gives the path by one of its arguments.
pub open spec fn note_gives(tree: TreeView, note: int, path: Seq<char>) -> bool {
    match child_of_kind(tree, note, "annotation_argument_list"@) {
        Some(list) => some_of(children(tree, list), |at: int| argument_gives(tree, at, path)),
        None => false,
    }
}

/// The paths of a mapping are those that its arguments give.
pub proof fn mappings_give_their_arguments(tree: TreeView, note: int, path: Seq<char>)
    ensures
        annotation_paths(tree, note).contains(path) <==> note_gives(tree, note, path),
{
    if let Some(list) = child_of_kind(tree, note, "annotation_argument_list"@) {
        lemma_arguments(tree, children(tree, list), path);
    }
}

/// The strings of an array are all of its string literals.
pub proof fn arrays_give_all_their_strings(tree: TreeView, at: int, text: Seq<char>)
    ensures
        tree.nodes[at].kind == "element_value_array_initializer"@ ==> (value_literals(
            tree,
            at,
        ).contains(text) <==> some_of(
            children(tree, at),
            |one: int|
                tree.nodes[one].kind == "string_literal"@ && text == literal_value(
                    text_at(tree, one),
                ),
        )),
        tree.nodes[at].kind == "string_literal"@ ==> value_literals(tree, at) == seq![
            literal_value(text_at(tree, at)),
        ],
{
    lemma_names_are_some();
    lemma_literals(tree, children(tree, at), text);
}

proof fn lemma_literals(tree: TreeView, candidates: Seq<int>, text: Seq<char>)
    ensures
        literals_among(tree, candidates).contains(text) <==> some_of(
            candidates,
            |one: int|
                tree.nodes[one].kind == "string_literal"@ && text == literal_value(
                    text_at(tree, one),
                ),
        ),
    decreases candidates.len(),
{
    let meets = |one: int|
        tree.nodes[one].kind == "string_literal"@ && text == literal_value(text_at(tree, one));
    if candidates.len() > 0 {
        lemma_literals(tree, candidates.skip(1), text);
        lemma_some_of(candidates, meets);
        let own = seq![literal_value(text_at(tree, candidates[0]))];
        assert(own[0] == literal_value(text_at(tree, candidates[0])));
        lemma_sum_contains(own, literals_among(tree, candidates.skip(1)), text);
    }
}

/// The annotation maps requests of the method.
pub open spec fn note_maps(tree: TreeView, note: int, method: Seq<char>) -> bool {
    ||| is_called(tree, note, "GetMapping"@) && method == "GET"@
    ||| is_called(tree, note, "PostMapping"@) && method == "POST"@
    ||| is_called(tree, note, "PutMapping"@) && method == "PUT"@
    ||| is_called(tree, note, "DeleteMapping"@) && method == "DELETE"@
    ||| is_called(tree, note, "PatchMapping"@) && method == "PATCH"@
    ||| is_called(tree, note, "RequestMapping"@) && mapped_methods(tree, note).contains(method)
}

proof fn lemma_mapping_names()
    ensures
        "GetMapping"@.len() == 10,
        "PostMapping"@.len() == 11,
        "PutMapping"@.len() == 10,
        "DeleteMapping"@.len() == 13,
        "PatchMapping"@.len() == 12,
        "RequestMapping"@.len() == 14,
        "GetMapping"@[0] == 'G',
        "PutMapping"@[0] == 'P',
{
    reveal_strlit("GetMapping");
    reveal_strlit("PostMapping");
    reveal_strlit("PutMapping");
    reveal_strlit("DeleteMapping");
    reveal_strlit("PatchMapping");
    reveal_strlit("RequestMapping");
}

proof fn lemma_request_methods(tree: TreeView, note: int, method: Seq<char>)
    ensures
        is_mapping(own_identifier(tree, note)) && request_methods(tree, note).contains(method)
            <==> note_maps(tree, note, method),
{
    lemma_mapping_names();
    assert(seq!["GET"@][0] == "GET"@);
    assert(seq!["POST"@][0] == "POST"@);
    assert(seq!["PUT"@][0] == "PUT"@);
    assert(seq!["DELETE"@][0] == "DELETE"@);
    assert(seq!["PATCH"@][0] == "PATCH"@);
}

/// A general mapping is for the methods that its arguments name, and for any where they
/// name none.
pub proof fn general_mappings_name_their_methods(tree: TreeView, note: int)
    ensures
        match child_of_kind(tree, note, "annotation_argument_list"@) {
            Some(list) => if arguments_methods(tree, children(tree, list)).len() == 0 {
                mapped_methods(tree, note) == seq!["ANY"@]
            } else {
                mapped_methods(tree, note) == arguments_methods(tree, children(tree, list))
            },
            None => mapped_methods(tree, note) == seq!["ANY"@],
        },
        forall|at: int|
            tree.nodes[at].kind != "element_value_pair"@ || !is_called(tree, at, "method"@)
                ==> #[trigger] argument_methods(tree, at).len() == 0,
{
    lemma_names_are_some();
}

// ---------------------------------------------------------------------------
// Routes

/// The annotation gives the route under one of the prefixes.
pub open spec fn note_routes(
    tree: TreeView,
    note: int,
    prefix: Seq<char>,
    path: Seq<char>,
    route: RouteView,
) -> bool {
    &&& note_maps(tree, note, route.method)
    &&& route.path == combined_path(prefix, path)
    &&& if annotation_paths(tree, note).len() == 0 {
        path.len() == 0
    } else {
        note_gives(tree, note, path)
    }
}

/// The annotation gives the route under some prefix.
pub open spec fn note_routes_under(
    tree: TreeView,
    note: int,
    prefixes: Seq<Seq<char>>,
    route: RouteView,
) -> bool {
    exists|prefix: Seq<char>, path: Seq<char>|
        prefixes.contains(prefix) && #[trigger] note_routes(tree, note, prefix, path, route)
}

spec fn some_path(prefix: Seq<char>, paths: Seq<Seq<char>>, route: RouteView) -> bool {
    exists|path: Seq<char>| #[trigger]
        paths.contains(path) && route.path == combined_path(prefix, path)
}

spec fn some_prefix(
    prefixes: Seq<Seq<char>>,
    paths: Seq<Seq<char>>,
    route: RouteView,
) -> bool {
    exists|prefix: Seq<char>| #[trigger] prefixes.contains(prefix) && some_path(
        prefix,
        paths,
        route,
    )
}

proof fn lemma_routes_of_path(path: Seq<char>, methods: Seq<Seq<char>>, route: RouteView)
    ensures
        routes_of_path(path, methods).contains(route) <==> methods.contains(route.method)
            && route.path == path,
{
    let routes = routes_of_path(path, methods);
    if routes.contains(route) {
        let i = choose|i: int| 0 <= i < routes.len() && routes[i] == route;
        assert(methods[i] == route.method);
    }
    if methods.contains(route.method) && route.path == path {
        let i = choose|i: int| 0 <= i < methods.len() && methods[i] == route.method;
        assert(routes[i] =~= route);
    }
}

proof fn lemma_routes_of_paths(
    prefix: Seq<char>,
    paths: Seq<Seq<char>>,
    methods: Seq<Seq<char>>,
    route: RouteView,
)
    ensures
        routes_of_paths(prefix, paths, methods).contains(route) <==> methods.contains(route.method)
            && some_path(prefix, paths, route),
    decreases paths.len(),
{
    if paths.len() > 0 {
        let rest = paths.skip(1);
        lemma_routes_of_paths(prefix, rest, methods, route);
        lemma_routes_of_path(combined_path(prefix, paths[0]), methods, route);
        lemma_sum_contains(
            routes_of_path(combined_path(prefix, paths[0]), methods),
            routes_of_paths(prefix, rest, methods),
            route,
        );
        if some_path(prefix, paths, route) {
            let path = choose|path: Seq<char>| #[trigger]
                paths.contains(path) && route.path == combined_path(prefix, path);
            lemma_split_contains(paths, path);
        }
        if some_path(prefix, rest, route) {
            let path = choose|path: Seq<char>| #[trigger]
                rest.contains(path) && route.path == combined_path(prefix, path);
            lemma_split_contains(paths, path);
            assert(paths.contains(path));
        }
        assert(paths.contains(paths[0]));
    }
}

proof fn lemma_routes_of_prefixes(
    prefixes: Seq<Seq<char>>,
    paths: Seq<Seq<char>>,
    methods: Seq<Seq<char>>,
    route: RouteView,
)
    ensures
        routes_of_prefixes(prefixes, paths, methods).contains(route) <==> methods.contains(
            route.method,
        ) && some_prefix(prefixes, paths, route),
    decreases prefixes.len(),
{
    if prefixes.len() > 0 {
        let rest = prefixes.skip(1);
        lemma_routes_of_prefixes(rest, paths, methods, route);
        lemma_routes_of_paths(prefixes[0], paths, methods, route);
        lemma_sum_contains(
            routes_of_paths(prefixes[0], paths, methods),
            routes_of_prefixes(rest, paths, methods),
            route,
        );
        if some_prefix(prefixes, paths, route) {
            let prefix = choose|prefix: Seq<char>| #[trigger]
                prefixes.contains(prefix) && some_path(prefix, paths, route);
            lemma_split_contains(prefixes, prefix);
        }
        if some_prefix(rest, paths, route) {
            let prefix = choose|prefix: Seq<char>| #[trigger]
                rest.contains(prefix) && some_path(prefix, paths, route);
            lemma_split_contains(prefixes, prefix);
            assert(prefixes.contains(prefix));
        }
        assert(prefixes.contains(prefixes[0]));
    }
}

proof fn lemma_annotation_routes(
    tree: TreeView,
    note: int,
    prefixes: Seq<Seq<char>>,
    route: RouteView,
)
    ensures
        annotation_routes(tree, note, prefixes).contains(route) <==> note_routes_under(
            tree,
            note,
            prefixes,
            route,
        ),
{
    let given = annotation_paths(tree, note);
    let paths = if given.len() == 0 {
        seq![Seq::<char>::empty()]
    } else {
        given
    };
    let methods = request_methods(tree, note);
    lemma_request_methods(tree, note, route.method);
    lemma_routes_of_prefixes(prefixes, paths, methods, route);
    assert forall|path: Seq<char>| #[trigger] paths.contains(path) == if given.len() == 0 {
        path.len() == 0
    } else {
        note_gives(tree, note, path)
    } by {
        mappings_give_their_arguments(tree, note, path);
        if given.len() == 0 {
            assert(paths[0] == Seq::<char>::empty());
            if path.len() == 0 {
                assert(path =~= paths[0]);
            }
        }
    }
    if some_prefix(prefixes, paths, route) && note_maps(tree, note, route.method) {
        let prefix = choose|prefix: Seq<char>| #[trigger]
            prefixes.contains(prefix) && some_path(prefix, paths, route);
        let path = choose|path: Seq<char>| #[trigger]
            paths.contains(path) && route.path == combined_path(prefix, path);
        assert(note_routes(tree, note, prefix, path, route));
    }
    if note_routes_under(tree, note, prefixes, route) {
        let (prefix, path) = choose|prefix: Seq<char>, path: Seq<char>|
            prefixes.contains(prefix) && #[trigger] note_routes(tree, note, prefix, path, route);
        assert(paths.contains(path));
        assert(some_path(prefix, paths, route));
        assert(some_prefix(prefixes, paths, route));
    }
}

proof fn lemma_annotations_routes(
    tree: TreeView,
    notes: Seq<int>,
    prefixes: Seq<Seq<char>>,
    route: RouteView,
)
    ensures
        annotations_routes(tree, notes, prefixes).contains(route) <==> some_of(
            notes,
            |note: int| note_routes_under(tree, note, prefixes, route),
        ),
    decreases notes.len(),
{
    if notes.len() > 0 {
        lemma_annotations_routes(tree, notes.skip(1), prefixes, route);
        lemma_annotation_routes(tree, notes[0], prefixes, route);
        lemma_some_of(notes, |note: int| note_routes_under(tree, note, prefixes, route));
        lemma_sum_contains(
            annotation_routes(tree, notes[0], prefixes),
            annotations_routes(tree, notes.skip(1), prefixes),
            route,
        );
    }
}

/// An annotation of the declaration at `at` meets a condition.
pub open spec fn some_note(tree: TreeView, at: int, meets: spec_fn(int) -> bool) -> bool {
    exists|note: int| #[trigger] is_note_on(tree, at, note) && meets(note)
}

proof fn lemma_some_note(tree: TreeView, at: int, meets: spec_fn(int) -> bool)
    ensures
        some_of(annotations_of(tree, at), meets) <==> some_note(tree, at, meets),
{
    let all = annotations_of(tree, at);
    if some_of(all, meets) {
        let note = choose|note: int| #[trigger] all.contains(note) && meets(note);
        annotations_stand_in_front(tree, at, note);
        assert(is_note_on(tree, at, note));
    }
    if some_note(tree, at, meets) {
        let note = choose|note: int| #[trigger] is_note_on(tree, at, note) && meets(note);
        annotations_stand_in_front(tree, at, note);
        assert(all.contains(note));
    }
}

/// The class at `at` is a controller.
pub open spec fn is_controller(tree: TreeView, at: int) -> bool {
    tree.nodes[at].kind == "class_declaration"@ && some_note(
        tree,
        at,
        |note: int| is_called(tree, note, "RestController"@) || is_called(tree, note, "Controller"@),
    )
}

/// A mapping of the class at `at` gives the path.
pub open spec fn class_gives_path(tree: TreeView, at: int, path: Seq<char>) -> bool {
    some_note(
        tree,
        at,
        |note: int| is_called(tree, note, "RequestMapping"@) && note_gives(tree, note, path),
    )
}

/// The path is a prefix of the routes of the controller at `at`: one that a mapping of the
/// class gives, or the empty one where none gives any.
pub open spec fn is_prefix(tree: TreeView, at: int, path: Seq<char>) -> bool {
    ||| class_gives_path(tree, at, path)
    ||| path.len() == 0 && forall|other: Seq<char>| !#[trigger] class_gives_path(tree, at, other)
}

proof fn lemma_marks(tree: TreeView, notes: Seq<int>)
    ensures
        marks_controller(tree, notes) <==> some_of(
            notes,
            |note: int|
                is_called(tree, note, "RestController"@) || is_called(tree, note, "Controller"@),
        ),
    decreases notes.len(),
{
    reveal_strlit("RestController");
    reveal_strlit("Controller");
    assert("RestController"@.len() == 14 && "Controller"@.len() == 10);
    if notes.len() > 0 {
        lemma_marks(tree, notes.skip(1));
        lemma_some_of(
            notes,
            |note: int|
                is_called(tree, note, "RestController"@) || is_called(tree, note, "Controller"@),
        );
    }
}

proof fn lemma_class_paths(tree: TreeView, notes: Seq<int>, path: Seq<char>)
    ensures
        class_paths(tree, notes).contains(path) <==> some_of(
            notes,
            |note: int| is_called(tree, note, "RequestMapping"@) && note_gives(tree, note, path),
        ),
    decreases notes.len(),
{
    lemma_mapping_names();
    if notes.len() > 0 {
        let here = if own_identifier(tree, notes[0]) == "RequestMapping"@ {
            annotation_paths(tree, notes[0])
        } else {
            seq![]
        };
        lemma_class_paths(tree, notes.skip(1), path);
        mappings_give_their_arguments(tree, notes[0], path);
        lemma_some_of(
            notes,
            |note: int| is_called(tree, note, "RequestMapping"@) && note_gives(tree, note, path),
        );
        lemma_sum_contains(here, class_paths(tree, notes.skip(1)), path);
    }
}

proof fn lemma_controller(tree: TreeView, at: int)
    ensures
        controller_prefixes(tree, at) is Some <==> is_controller(tree, at),
        is_controller(tree, at) ==> forall|path: Seq<char>|
            controller_prefixes(tree, at)->0.contains(path) <==> #[trigger] is_prefix(
                tree,
                at,
                path,
            ),
{
    let notes = annotations_of(tree, at);
    let marks = |note: int|
        is_called(tree, note, "RestController"@) || is_called(tree, note, "Controller"@);
    lemma_marks(tree, notes);
    lemma_some_note(tree, at, marks);
    let paths = class_paths(tree, notes);
    assert forall|path: Seq<char>| paths.contains(path) <==> #[trigger] class_gives_path(
        tree,
        at,
        path,
    ) by {
        lemma_class_paths(tree, notes, path);
        lemma_some_note(
            tree,
            at,
            |note: int| is_called(tree, note, "RequestMapping"@) && note_gives(tree, note, path),
        );
    }
    if is_controller(tree, at) {
        let prefixes = controller_prefixes(tree, at)->0;
        assert forall|path: Seq<char>| prefixes.contains(path) <==> #[trigger] is_prefix(
            tree,
            at,
            path,
        ) by {
            if paths.len() == 0 {
                assert(prefixes[0] == Seq::<char>::empty());
                if path.len() == 0 {
                    assert(path =~= prefixes[0]);
                }
            } else {
                assert(paths.contains(paths[0]));
                assert(class_gives_path(tree, at, paths[0]));
            }
        }
    }
}

// ---------------------------------------------------------------------------
// What stands around a node

/// The name of the declaration at `at`.
pub open spec fn java_name(tree: TreeView, at: int) -> Option<Seq<char>> {
    match child_named(tree, at, "name"@, "identifier"@) {
        Some(name) => Some(text_at(tree, name)),
        None => None,
    }
}

/// The node declares a class or an interface.
pub open spec fn is_java_type(tree: TreeView, at: int) -> bool {
    tree.nodes[at].kind == "class_declaration"@ || tree.nodes[at].kind == "interface_declaration"@
}

/// The node declares a method or a constructor.
pub open spec fn is_java_method(tree: TreeView, at: int) -> bool {
    tree.nodes[at].kind == "method_declaration"@ || tree.nodes[at].kind
        == "constructor_declaration"@
}

/// The qualified name of the type that a node declares: within the type around it, or else
/// within the package.
pub open spec fn java_type_name(
    around: Option<Seq<char>>,
    package: Option<Seq<char>>,
    name: Seq<char>,
) -> Seq<char> {
    match around {
        Some(outer) => outer + "::"@ + name,
        None => match package {
            Some(package) => package + "::"@ + name,
            None => name,
        },
    }
}

/// The qualified name of the innermost type around a node.
pub open spec fn java_type_around(
    tree: TreeView,
    at: int,
    package: Option<Seq<char>>,
) -> Option<Seq<char>>
    decreases at,
{
    match holder(tree, at) {
        Some(above) => if 0 <= above < at {
            let outer = java_type_around(tree, above, package);
            match java_name(tree, above) {
                Some(name) => if is_java_type(tree, above) {
                    Some(java_type_name(outer, package, name))
                } else {
                    outer
                },
                None => outer,
            }
        } else {
            None
        },
        None => None,
    }
}

/// The id of the innermost method around a node, within the innermost type.
pub open spec fn java_method_around(tree: TreeView, at: int, file: JavaFile) -> Option<Seq<char>>
    decreases at,
{
    match holder(tree, at) {
        Some(above) => if 0 <= above < at {
            let outer = java_method_around(tree, above, file);
            match java_name(tree, above) {
                Some(name) => if is_java_type(tree, above) {
                    None
                } else if is_java_method(tree, above) {
                    Some(
                        file.file_path + "::"@ + within(
                            java_type_around(tree, above, file.package),
                            name,
                        ),
                    )
                } else {
                    outer
                },
                None => outer,
            }
        } else {
            None
        },
        None => None,
    }
}

/// The types of the variables that are in scope at a node: those of the innermost type,
/// hidden by those of the methods in it.
pub open spec fn java_types_around(tree: TreeView, at: int) -> Map<Seq<char>, Seq<char>>
    decreases at,
{
    match holder(tree, at) {
        Some(above) => if 0 <= above < at {
            if is_java_type(tree, above) {
                java_types(tree, above)
            } else if is_java_method(tree, above) {
                java_types_around(tree, above).union_prefer_right(java_types(tree, above))
            } else {
                java_types_around(tree, above)
            }
        } else {
            Map::empty()
        },
        None => Map::empty(),
    }
}

/// The path is a prefix of the routes at a node: one of the innermost controller around
/// it.
pub open spec fn is_prefix_around(tree: TreeView, at: int, path: Seq<char>) -> bool
    decreases at,
{
    match holder(tree, at) {
        Some(above) => 0 <= above < at && if is_java_type(tree, above) && java_name(
            tree,
            above,
        ) is Some && is_controller(tree, above) {
            is_prefix(tree, above, path)
        } else {
            is_prefix_around(tree, above, path)
        },
        None => false,
    }
}

spec fn java_first() -> JavaScope {
    JavaScope { parent: None, caller: None, prefixes: None, types: None }
}

spec fn java_below(tree: TreeView, file: JavaFile) -> spec_fn(int, JavaScope) -> JavaScope {
    |at: int, state: JavaScope| java_scope(tree, at, file, state)
}

spec fn java_adds(tree: TreeView, file: JavaFile) -> spec_fn(
    int,
    JavaScope,
    ExtractionView,
) -> ExtractionView {
    |at: int, state: JavaScope, out: ExtractionView| java_here(tree, at, file, state, out)
}

proof fn lemma_java_walk(
    tree: TreeView,
    from: int,
    limit: int,
    file: JavaFile,
    state: JavaScope,
    out: ExtractionView,
)
    ensures
        java_walk(tree, from, limit, file, state, out) == walk(
            tree,
            from,
            limit,
            state,
            java_below(tree, file),
            java_adds(tree, file),
            out,
        ),
    decreases limit - from,
{
    if from < limit {
        let end = subtree_end(tree, from, limit);
        if end > from && end <= limit {
            let here = java_adds(tree, file)(from, state, out);
            let inner = java_below(tree, file)(from, state);
            lemma_java_walk(tree, from + 1, end, file, inner, here);
            let inside = java_walk(tree, from + 1, end, file, inner, here);
            lemma_java_walk(tree, end, limit, file, state, inside);
        }
    }
}

proof fn lemma_java_kinds()
    ensures
        "class_declaration"@ != "interface_declaration"@,
        "class_declaration"@ != "method_declaration"@,
        "class_declaration"@ != "constructor_declaration"@,
        "interface_declaration"@ != "method_declaration"@,
        "interface_declaration"@ != "constructor_declaration"@,
        "method_declaration"@ != "constructor_declaration"@,
        "method_invocation"@ != "object_creation_expression"@,
        "method_invocation"@ != "class_declaration"@,
        "method_invocation"@ != "interface_declaration"@,
        "method_invocation"@ != "method_declaration"@,
        "method_invocation"@ != "constructor_declaration"@,
        "object_creation_expression"@ != "class_declaration"@,
        "object_creation_expression"@ != "interface_declaration"@,
        "object_creation_expression"@ != "method_declaration"@,
        "object_creation_expression"@ != "constructor_declaration"@,
{
    reveal_strlit("class_declaration");
    reveal_strlit("interface_declaration");
    reveal_strlit("method_declaration");
    reveal_strlit("constructor_declaration");
    reveal_strlit("method_invocation");
    reveal_strlit("object_creation_expression");
    assert("class_declaration"@.len() == 17 && "class_declaration"@[0] == 'c');
    assert("interface_declaration"@.len() == 21);
    assert("method_declaration"@.len() == 18);
    assert("constructor_declaration"@.len() == 23);
    assert("method_invocation"@.len() == 17 && "method_invocation"@[0] == 'm');
    assert("object_creation_expression"@.len() == 26);
}

proof fn lemma_java_reached(tree: TreeView, at: int, file: JavaFile)
    ensures
        ({
            let state = reached(tree, at, java_first(), java_below(tree, file));
            &&& state.parent == java_type_around(tree, at, file.package)
            &&& state.caller == java_method_around(tree, at, file)
            &&& match state.types {
                Some(types) => types == java_types_around(tree, at),
                None => java_types_around(tree, at) == Map::<Seq<char>, Seq<char>>::empty(),
            }
            &&& forall|path: Seq<char>| #[trigger]
                is_prefix_around(tree, at, path) <==> state.prefixes is Some
                    && state.prefixes->0.contains(path)
        }),
    decreases at,
{
    lemma_java_kinds();
    if let Some(above) = holder(tree, at) {
        if 0 <= above < at {
            lemma_java_reached(tree, above, file);
            lemma_controller(tree, above);
            let outer = reached(tree, above, java_first(), java_below(tree, file));
            let state = reached(tree, at, java_first(), java_below(tree, file));
            assert(state == java_scope(tree, above, file, outer));
            if is_java_method(tree, above) && outer.types is None {
                let own = java_types(tree, above);
                assert(Map::<Seq<char>, Seq<char>>::empty().union_prefer_right(own) =~= own);
            }
            assert forall|path: Seq<char>| #[trigger]
                is_prefix_around(tree, at, path) <==> state.prefixes is Some
                    && state.prefixes->0.contains(path) by {
                assert(is_prefix_around(tree, above, path) <==> outer.prefixes is Some
                    && outer.prefixes->0.contains(path));
                if is_controller(tree, above) {
                    assert(is_prefix(tree, above, path) <==> controller_prefixes(
                        tree,
                        above,
                    )->0.contains(path));
                }
            }
        }
    }
}

// ---------------------------------------------------------------------------
// What a node declares and calls

/// The annotation gives the route under a prefix of the controller around `at`.
pub open spec fn note_routes_around(
    tree: TreeView,
    at: int,
    note: int,
    route: RouteView,
) -> bool {
    exists|prefix: Seq<char>, path: Seq<char>|
        is_prefix_around(tree, at, prefix) && #[trigger] note_routes(
            tree,
            note,
            prefix,
            path,
            route,
        )
}

/// The method at `at` handles the route: one of its mappings gives it.
pub open spec fn handles(tree: TreeView, at: int, route: RouteView) -> bool {
    tree.nodes[at].kind == "method_declaration"@ && some_note(
        tree,
        at,
        |note: int| note_routes_around(tree, at, note, route),
    )
}

/// The symbol is the route of a method.
pub open spec fn is_route_symbol(
    tree: TreeView,
    at: int,
    file_path: Seq<char>,
    qualified: Seq<char>,
    route: RouteView,
    node: NodeView,
) -> bool {
    let text = route.method + " "@ + route.path;
    &&& node.id == file_path + "::"@ + qualified + "::route::"@ + text
    &&& is_symbol(
        NodeView { id: file_path + "::"@ + text, ..node },
        tree,
        at,
        file_path,
        text,
        "route"@,
        text,
    )
}

/// The call is the relation from a route to its method.
pub open spec fn is_route_call(
    tree: TreeView,
    at: int,
    file_path: Seq<char>,
    qualified: Seq<char>,
    route: RouteView,
    call: RawCallView,
) -> bool {
    let id = file_path + "::"@ + qualified + "::route::"@ + (route.method + " "@ + route.path);
    call == (RawCallView {
        relationship_kind: "route_handler"@,
        target_qualified_hint: Some(qualified),
        resolution_hint: Some(6),
        ..named_call(tree, at, id, qualified)
    })
}

/// The symbol is a route that the method of the name handles.
pub open spec fn declares_route(
    tree: TreeView,
    at: int,
    file: JavaFile,
    name: Seq<char>,
    node: NodeView,
) -> bool {
    exists|route: RouteView| #[trigger]
        handles(tree, at, route) && is_route_symbol(
            tree,
            at,
            file.file_path,
            within(java_type_around(tree, at, file.package), name),
            route,
            node,
        )
}

/// The call is the relation from a route to the method of the name that handles it.
pub open spec fn relates_route(
    tree: TreeView,
    at: int,
    file: JavaFile,
    name: Seq<char>,
    call: RawCallView,
) -> bool {
    exists|route: RouteView| #[trigger]
        handles(tree, at, route) && is_route_call(
            tree,
            at,
            file.file_path,
            within(java_type_around(tree, at, file.package), name),
            route,
            call,
        )
}

/// The node declares the symbol: a class, an interface, a method, a constructor, or a route
/// of a method.
pub open spec fn java_declares(tree: TreeView, at: int, file: JavaFile, node: NodeView) -> bool {
    let kind = tree.nodes[at].kind;
    let around = java_type_around(tree, at, file.package);
    match java_name(tree, at) {
        Some(name) => {
            ||| kind == "class_declaration"@ && is_symbol(
                node,
                tree,
                at,
                file.file_path,
                name,
                "class"@,
                java_type_name(around, file.package, name),
            )
            ||| kind == "interface_declaration"@ && is_symbol(
                node,
                tree,
                at,
                file.file_path,
                name,
                "interface"@,
                java_type_name(around, file.package, name),
            )
            ||| kind == "method_declaration"@ && is_symbol(
                node,
                tree,
                at,
                file.file_path,
                name,
                "method"@,
                within(around, name),
            )
            ||| kind == "constructor_declaration"@ && is_symbol(
                node,
                tree,
                at,
                file.file_path,
                name,
                "constructor"@,
                within(around, name),
            )
            ||| declares_route(tree, at, file, name, node)
        },
        None => false,
    }
}

/// The call of a method by its name, on what stands before it. The type of a variable that
/// is in scope tells the type of the receiver, which an import may name; a generated stub
/// is a client of its service.
pub open spec fn java_invokes(
    tree: TreeView,
    at: int,
    file: JavaFile,
    caller: Seq<char>,
    method: Seq<char>,
    call: RawCallView,
) -> bool {
    let plain = RawCallView {
        call_kind: Some("method"@),
        package_or_namespace: file.package,
        ..named_call(tree, at, caller, method)
    };
    let types = java_types_around(tree, at);
    match child_in_field(tree, at, "object"@) {
        Some(object) => {
            let receiver = trimmed_at(tree, object);
            if receiver.len() == 0 {
                call == plain
            } else if types.dom().contains(receiver) {
                let own = types[receiver];
                let typed = RawCallView {
                    receiver_expr: Some(receiver),
                    receiver_type: Some(own),
                    import_hint: match import_of(own, file.imports) {
                        Some(import) => Some(import),
                        None => import_of(receiver, file.imports),
                    },
                    ..plain
                };
                if contains(own, "Stub"@) {
                    call == (RawCallView {
                        relationship_kind: "grpc_calls"@,
                        target_qualified_hint: Some(
                            "grpc::"@ + before_first(own, "Grpc."@) + "::"@ + method,
                        ),
                        resolution_hint: Some(8),
                        ..typed
                    })
                } else {
                    call == typed
                }
            } else {
                call == (RawCallView {
                    receiver_expr: Some(receiver),
                    import_hint: import_of(receiver, file.imports),
                    ..plain
                })
            }
        },
        None => call == plain,
    }
}

/// The node makes the call: of a method or a constructor, in the method around it; or it is
/// a method that a route leads to.
pub open spec fn java_calls(tree: TreeView, at: int, file: JavaFile, call: RawCallView) -> bool {
    let kind = tree.nodes[at].kind;
    ||| match java_name(tree, at) {
        Some(name) => relates_route(tree, at, file, name, call),
        None => false,
    }
    ||| match java_method_around(tree, at, file) {
        Some(caller) => {
            ||| kind == "method_invocation"@ && match child_in_field(tree, at, "name"@) {
                Some(name) => java_invokes(tree, at, file, caller, text_at(tree, name), call),
                None => false,
            }
            ||| kind == "object_creation_expression"@ && match child_in_field(tree, at, "type"@) {
                Some(made) => call == (RawCallView {
                    call_kind: Some("constructor"@),
                    receiver_type: Some(text_at(tree, made)),
                    import_hint: import_of(text_at(tree, made), file.imports),
                    package_or_namespace: file.package,
                    ..named_call(tree, at, caller, text_at(tree, made))
                }),
                None => false,
            }
        },
        None => false,
    }
}

spec fn some_symbol_of(
    tree: TreeView,
    at: int,
    file_path: Seq<char>,
    qualified: Seq<char>,
    routes: Seq<RouteView>,
    node: NodeView,
) -> bool {
    exists|route: RouteView| #[trigger]
        routes.contains(route) && route_symbol(tree, at, file_path, qualified, route) == node
}

spec fn some_call_of(
    tree: TreeView,
    at: int,
    file_path: Seq<char>,
    qualified: Seq<char>,
    routes: Seq<RouteView>,
    call: RawCallView,
) -> bool {
    exists|route: RouteView| #[trigger]
        routes.contains(route) && route_call(tree, at, file_path, qualified, route) == call
}

proof fn lemma_with_routes(
    tree: TreeView,
    at: int,
    file_path: Seq<char>,
    qualified: Seq<char>,
    routes: Seq<RouteView>,
    out: ExtractionView,
    node: NodeView,
    call: RawCallView,
)
    ensures
        ({
            let after = with_routes(tree, at, file_path, qualified, routes, out);
            &&& after.nodes.contains(node) <==> out.nodes.contains(node) || some_symbol_of(
                tree,
                at,
                file_path,
                qualified,
                routes,
                node,
            )
            &&& after.calls.contains(call) <==> out.calls.contains(call) || some_call_of(
                tree,
                at,
                file_path,
                qualified,
                routes,
                call,
            )
        }),
    decreases routes.len(),
{
    if routes.len() > 0 {
        let rest = routes.skip(1);
        let symbol = route_symbol(tree, at, file_path, qualified, routes[0]);
        let relation = route_call(tree, at, file_path, qualified, routes[0]);
        let here = extended(out, Some(symbol), Some(relation));
        lemma_extended(out, Some(symbol), Some(relation), node, call);
        lemma_with_routes(tree, at, file_path, qualified, rest, here, node, call);
        if some_symbol_of(tree, at, file_path, qualified, routes, node) {
            let route = choose|route: RouteView| #[trigger]
                routes.contains(route) && route_symbol(tree, at, file_path, qualified, route)
                    == node;
            lemma_split_contains(routes, route);
        }
        if some_symbol_of(tree, at, file_path, qualified, rest, node) {
            let route = choose|route: RouteView| #[trigger]
                rest.contains(route) && route_symbol(tree, at, file_path, qualified, route) == node;
            lemma_split_contains(routes, route);
            assert(routes.contains(route));
        }
        if some_call_of(tree, at, file_path, qualified, routes, call) {
            let route = choose|route: RouteView| #[trigger]
                routes.contains(route) && route_call(tree, at, file_path, qualified, route)
                    == call;
            lemma_split_contains(routes, route);
        }
        if some_call_of(tree, at, file_path, qualified, rest, call) {
            let route = choose|route: RouteView| #[trigger]
                rest.contains(route) && route_call(tree, at, file_path, qualified, route) == call;
            lemma_split_contains(routes, route);
            assert(routes.contains(route));
        }
        assert(routes.contains(routes[0]));
    }
}

spec fn java_makes(
    tree: TreeView,
    at: int,
    file: JavaFile,
    state: JavaScope,
    node: NodeView,
) -> bool {
    if is_java_type(tree, at) {
        type_symbol(tree, at, file, state) == Some(node)
    } else if is_java_method(tree, at) {
        match java_name(tree, at) {
            Some(name) => method_symbol(tree, at, file, state) == Some(node) || some_symbol_of(
                tree,
                at,
                file.file_path,
                within(state.parent, name),
                method_routes(tree, at, state),
                node,
            ),
            None => false,
        }
    } else {
        false
    }
}

spec fn java_gives(
    tree: TreeView,
    at: int,
    file: JavaFile,
    state: JavaScope,
    call: RawCallView,
) -> bool {
    if is_java_type(tree, at) {
        false
    } else if is_java_method(tree, at) {
        match java_name(tree, at) {
            Some(name) => some_call_of(
                tree,
                at,
                file.file_path,
                within(state.parent, name),
                method_routes(tree, at, state),
                call,
            ),
            None => false,
        }
    } else {
        java_call(tree, at, file, state) == Some(call)
    }
}

proof fn lemma_java_here(
    tree: TreeView,
    at: int,
    file: JavaFile,
    state: JavaScope,
    out: ExtractionView,
    node: NodeView,
    call: RawCallView,
)
    ensures
        ({
            let after = java_here(tree, at, file, state, out);
            &&& after.calls.contains(call) <==> out.calls.contains(call) || java_gives(
                tree,
                at,
                file,
                state,
                call,
            )
            &&& after.nodes.contains(node) <==> out.nodes.contains(node) || java_makes(
                tree,
                at,
                file,
                state,
                node,
            )
        }),
{
    if is_java_type(tree, at) {
        lemma_extended(out, type_symbol(tree, at, file, state), None, node, call);
    } else if is_java_method(tree, at) {
        if let Some(name) = java_name(tree, at) {
            let symbol = method_symbol(tree, at, file, state);
            lemma_extended(out, symbol, None, node, call);
            lemma_with_routes(
                tree,
                at,
                file.file_path,
                within(state.parent, name),
                method_routes(tree, at, state),
                extended(out, symbol, None),
                node,
                call,
            );
        }
    } else {
        lemma_extended(out, None, java_call(tree, at, file, state), node, call);
    }
}

proof fn lemma_method_routes(tree: TreeView, at: int, file: JavaFile, route: RouteView)
    ensures
        method_routes(
            tree,
            at,
            reached(tree, at, java_first(), java_below(tree, file)),
        ).contains(route) <==> handles(tree, at, route),
{
    let state = reached(tree, at, java_first(), java_below(tree, file));
    lemma_java_reached(tree, at, file);
    let around = |note: int| note_routes_around(tree, at, note, route);
    match state.prefixes {
        Some(prefixes) => {
            let under = |note: int| note_routes_under(tree, note, prefixes, route);
            lemma_annotations_routes(tree, annotations_of(tree, at), prefixes, route);
            assert forall|note: int| under(note) == #[trigger] around(note) by {
                if under(note) {
                    let (prefix, path) = choose|prefix: Seq<char>, path: Seq<char>|
                        prefixes.contains(prefix) && #[trigger] note_routes(
                            tree,
                            note,
                            prefix,
                            path,
                            route,
                        );
                    assert(is_prefix_around(tree, at, prefix));
                    assert(note_routes(tree, note, prefix, path, route));
                }
                if around(note) {
                    let (prefix, path) = choose|prefix: Seq<char>, path: Seq<char>|
                        is_prefix_around(tree, at, prefix) && #[trigger] note_routes(
                            tree,
                            note,
                            prefix,
                            path,
                            route,
                        );
                    assert(prefixes.contains(prefix));
                    assert(note_routes(tree, note, prefix, path, route));
                }
            }
            assert(under =~= around);
            lemma_some_note(tree, at, around);
        },
        None => {
            assert(!handles(tree, at, route)) by {
                if handles(tree, at, route) {
                    let note = choose|note: int| #[trigger]
                        is_note_on(tree, at, note) && around(note);
                    let (prefix, path) = choose|prefix: Seq<char>, path: Seq<char>|
                        is_prefix_around(tree, at, prefix) && #[trigger] note_routes(
                            tree,
                            note,
                            prefix,
                            path,
                            route,
                        );
                    assert(is_prefix_around(tree, at, prefix));
                }
            }
        },
    }
}

proof fn lemma_java_routes(
    tree: TreeView,
    at: int,
    file: JavaFile,
    name: Seq<char>,
    node: NodeView,
    call: RawCallView,
)
    ensures
        ({
            let state = reached(tree, at, java_first(), java_below(tree, file));
            let routes = method_routes(tree, at, state);
            let qualified = within(state.parent, name);
            &&& some_symbol_of(tree, at, file.file_path, qualified, routes, node)
                <==> declares_route(tree, at, file, name, node)
            &&& some_call_of(tree, at, file.file_path, qualified, routes, call) <==> relates_route(
                tree,
                at,
                file,
                name,
                call,
            )
        }),
{
    let state = reached(tree, at, java_first(), java_below(tree, file));
    let routes = method_routes(tree, at, state);
    let path = file.file_path;
    let qualified = within(state.parent, name);
    lemma_java_reached(tree, at, file);
    assert forall|route: RouteView| true implies #[trigger] routes.contains(route) == handles(
        tree,
        at,
        route,
    ) by {
        lemma_method_routes(tree, at, file, route);
    }
    if some_symbol_of(tree, at, path, qualified, routes, node) {
        let route = choose|route: RouteView| #[trigger]
            routes.contains(route) && route_symbol(tree, at, path, qualified, route) == node;
        assert(handles(tree, at, route));
        assert(is_route_symbol(tree, at, path, qualified, route, node));
    }
    if declares_route(tree, at, file, name, node) {
        let route = choose|route: RouteView| #[trigger]
            handles(tree, at, route) && is_route_symbol(tree, at, path, qualified, route, node);
        assert(routes.contains(route));
        assert(route_symbol(tree, at, path, qualified, route) =~= node);
    }
    if some_call_of(tree, at, path, qualified, routes, call) {
        let route = choose|route: RouteView| #[trigger]
            routes.contains(route) && route_call(tree, at, path, qualified, route) == call;
        assert(handles(tree, at, route));
        assert(is_route_call(tree, at, path, qualified, route, call));
    }
    if relates_route(tree, at, file, name, call) {
        let route = choose|route: RouteView| #[trigger]
            handles(tree, at, route) && is_route_call(tree, at, path, qualified, route, call);
        assert(routes.contains(route));
    }
}

proof fn lemma_no_routes(
    tree: TreeView,
    at: int,
    file: JavaFile,
    name: Seq<char>,
    node: NodeView,
    call: RawCallView,
)
    requires
        tree.nodes[at].kind != "method_declaration"@,
    ensures
        !declares_route(tree, at, file, name, node),
        !relates_route(tree, at, file, name, call),
{
}

proof fn lemma_java_node(
    tree: TreeView,
    at: int,
    file: JavaFile,
    node: NodeView,
    call: RawCallView,
)
    ensures
        ({
            let state = reached(tree, at, java_first(), java_below(tree, file));
            &&& java_makes(tree, at, file, state, node) == java_declares(tree, at, file, node)
            &&& java_gives(tree, at, file, state, call) == java_calls(tree, at, file, call)
        }),
{
    let state = reached(tree, at, java_first(), java_below(tree, file));
    lemma_java_kinds();
    lemma_java_reached(tree, at, file);
    if let Some(name) = java_name(tree, at) {
        lemma_java_routes(tree, at, file, name, node, call);
        if tree.nodes[at].kind != "method_declaration"@ {
            lemma_no_routes(tree, at, file, name, node, call);
        }
    }
}

/// A Java source holds just the symbols that its nodes declare and the calls that they
/// make, before what its frameworks add.
pub proof fn java_sources_hold_what_they_declare(
    tree: TreeView,
    file: JavaFile,
    node: NodeView,
    call: RawCallView,
)
    ensures
        ({
            let scope = JavaScope { parent: None, caller: None, prefixes: None, types: None };
            let found = java_walk(tree, 0, tree.nodes.len() as int, file, scope, nothing());
            &&& found.nodes.contains(node) <==> some_node(
                tree,
                |at: int| java_declares(tree, at, file, node),
            )
            &&& found.calls.contains(call) <==> some_node(
                tree,
                |at: int| java_calls(tree, at, file, call),
            )
        }),
{
    let first = java_first();
    let below = java_below(tree, file);
    let adds = java_adds(tree, file);
    let makes = |at: int, state: JavaScope| java_makes(tree, at, file, state, node);
    let gives = |at: int, state: JavaScope| java_gives(tree, at, file, state, call);
    assert(adds_just(adds, call, gives, node, makes)) by {
        assert forall|at: int, state: JavaScope, out: ExtractionView|
            {
                let after = #[trigger] adds(at, state, out);
                &&& after.calls.contains(call) <==> out.calls.contains(call) || gives(at, state)
                &&& after.nodes.contains(node) <==> out.nodes.contains(node) || makes(at, state)
            } by {
            lemma_java_here(tree, at, file, state, out, node, call);
        }
    }
    lemma_java_walk(tree, 0, tree.nodes.len() as int, file, first, nothing());
    let declares = |at: int| java_declares(tree, at, file, node);
    let calls = |at: int| java_calls(tree, at, file, call);
    assert forall|at: int| true implies makes(at, #[trigger] reached(tree, at, first, below))
        == declares(at) && gives(at, reached(tree, at, first, below)) == calls(at) by {
        lemma_java_node(tree, at, file, node, call);
    }
    lemma_found(tree, first, below, adds, call, gives, calls, node, makes, declares);
}

/// The calls that the nodes of a Java source make are found in the file, and so are the ids
/// of the symbols that they declare.
pub proof fn java_files_hold_what_they_declare(
    tree: TreeView,
    file_path: Seq<char>,
    at: int,
    node: NodeView,
    call: RawCallView,
)
    requires
        0 <= at < tree.nodes.len(),
    ensures
        ({
            let file = java_file(tree, file_path);
            let found = extraction(Grammar::Java, tree, file_path);
            &&& java_declares(tree, at, file, node) ==> has_id(found.nodes, node.id)
            &&& java_calls(tree, at, file, call) ==> found.calls.contains(call)
        }),
{
    let file = java_file(tree, file_path);
    let scope = JavaScope { parent: None, caller: None, prefixes: None, types: None };
    let walked = java_walk(tree, 0, tree.nodes.len() as int, file, scope, nothing());
    java_sources_hold_what_they_declare(tree, file, node, call);
    framework_keeps_what_was_found(tree, file_path, file.package, walked, call, node.id);
    let declares = |at: int| java_declares(tree, at, file, node);
    let calls = |at: int| java_calls(tree, at, file, call);
    if java_declares(tree, at, file, node) {
        assert(declares(at));
        assert(walked.nodes.contains(node));
        let i = choose|i: int| 0 <= i < walked.nodes.len() && walked.nodes[i] == node;
        assert(walked.nodes[i].id == node.id);
    }
    if java_calls(tree, at, file, call) {
        assert(calls(at));
    }
}

} // verus!
