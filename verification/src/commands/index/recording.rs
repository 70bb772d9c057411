//! What the parser records is recorded well, in every language.

use vstd::prelude::*;
use crate::commands::index::is_reversed_kind;
use crate::commands::index::laws::well_recorded;
use crate::db::NodeView;
use crate::parser::c_like::{c_call, c_caller, c_scope, c_symbol, c_walk, ScopeView};
use crate::parser::common::{
    extended, nothing, scoped, symbol_id, with_call, ExtractionView,
};
use crate::parser::extraction;
use crate::parser::go::{go_call, go_caller, go_file, go_symbol, go_walk, GoFile};
use crate::parser::java::{
    declared_name, is_method, java_here, java_scope, java_walk, method_routes, method_symbol,
    route_call, route_id, route_symbol, with_routes, JavaFile, JavaScope, RouteView,
};
use crate::parser::java_framework::{
    framework_class, framework_walk, injection, members, publication, relation, services_of,
    type_of, with_class, with_constructor, with_constructors, with_feign, with_field, with_fields,
    with_grpc, with_listener, with_method, with_methods, with_parameters, with_properties,
    with_publications, FrameworkClass, Services,
};
use crate::parser::java_syntax::{is_type_declaration, java_types};
use crate::parser::rust::{rust_call, rust_caller, rust_owner, rust_symbol, rust_walk};
use crate::parser::syntax::{
    child_in_field, descendants, end_of, subtree_end, trimmed_at, Grammar, TreeView,
};
use crate::parser::zig::{zig_call, zig_caller, zig_parent, zig_symbol, zig_walk};
use crate::parser::{java_file, java_package};
use crate::text::starts_with;

verus! {

/// A symbol belongs to a file: its id begins with the path.
pub open spec fn is_of_file(node: NodeView, file_path: Seq<char>) -> bool {
    node.file_path == file_path && starts_with(node.id, file_path + "::"@)
}

/// All calls of an extraction are recorded well, and its symbols belong to the file.
pub open spec fn all_recorded(out: ExtractionView, file_path: Seq<char>) -> bool {
    &&& forall|k: int| 0 <= k < out.calls.len() ==> well_recorded(#[trigger] out.calls[k])
    &&& forall|k: int| 0 <= k < out.nodes.len() ==> is_of_file(#[trigger] out.nodes[k], file_path)
}

proof fn lemma_ids_named(file_path: Seq<char>)
    ensures
        forall|qualified: Seq<char>|
            starts_with(#[trigger] symbol_id(file_path, qualified), file_path + "::"@),
        forall|qualified: Seq<char>, route: RouteView|
            starts_with(#[trigger] route_id(file_path, qualified, route), file_path + "::"@),
{
    let start = file_path + "::"@;
    assert forall|qualified: Seq<char>| starts_with(
        #[trigger] symbol_id(file_path, qualified),
        start,
    ) by {
        let id = symbol_id(file_path, qualified);
        assert(id.subrange(0, start.len() as int) =~= start);
    }
    assert forall|qualified: Seq<char>, route: RouteView| starts_with(
        #[trigger] route_id(file_path, qualified, route),
        start,
    ) by {
        let id = route_id(file_path, qualified, route);
        assert(id.subrange(0, start.len() as int) =~= start);
    }
}

proof fn lemma_reversed_kinds()
    ensures
        !is_reversed_kind("configuration_binds"@),
        !is_reversed_kind("publishes_event"@),
        !is_reversed_kind("feign_calls"@),
        !is_reversed_kind("grpc_calls"@),
        is_reversed_kind("injected_into"@),
        is_reversed_kind("consumes_event"@),
{
    reveal_strlit("configuration_binds");
    reveal_strlit("publishes_event");
    reveal_strlit("feign_calls");
    reveal_strlit("grpc_calls");
    reveal_strlit("injected_into");
    reveal_strlit("consumes_event");
    assert("configuration_binds"@.len() == 19);
    assert("publishes_event"@.len() == 15);
    assert("feign_calls"@.len() == 11);
    assert("grpc_calls"@.len() == 10);
    assert("injected_into"@.len() == 13);
    assert("consumes_event"@.len() == 14);
}

proof fn lemma_rust_recorded(
    tree: TreeView,
    from: int,
    limit: int,
    file_path: Seq<char>,
    owner: Option<Seq<char>>,
    caller: Option<Seq<char>>,
    out: ExtractionView,
)
    requires
        all_recorded(out, file_path),
    ensures
        all_recorded(rust_walk(tree, from, limit, file_path, owner, caller, out), file_path),
    decreases limit - from,
{
    lemma_ids_named(file_path);
    if from < limit {
        let end = subtree_end(tree, from, limit);
        if end > from && end <= limit {
            let here = extended(
                out,
                rust_symbol(tree, from, file_path, owner),
                rust_call(tree, from, caller),
            );
            lemma_rust_recorded(
                tree,
                from + 1,
                end,
                file_path,
                rust_owner(tree, from, owner),
                rust_caller(tree, from, file_path, owner, caller),
                here,
            );
            let inside = rust_walk(
                tree,
                from + 1,
                end,
                file_path,
                rust_owner(tree, from, owner),
                rust_caller(tree, from, file_path, owner, caller),
                here,
            );
            lemma_rust_recorded(tree, end, limit, file_path, owner, caller, inside);
        }
    }
}

proof fn lemma_go_recorded(
    tree: TreeView,
    from: int,
    limit: int,
    file_path: Seq<char>,
    file: GoFile,
    caller: Option<Seq<char>>,
    out: ExtractionView,
)
    requires
        all_recorded(out, file_path),
    ensures
        all_recorded(go_walk(tree, from, limit, file_path, file, caller, out), file_path),
    decreases limit - from,
{
    lemma_ids_named(file_path);
    if from < limit {
        let end = subtree_end(tree, from, limit);
        if end > from && end <= limit {
            let here = extended(
                out,
                go_symbol(tree, from, file_path),
                go_call(tree, from, file, caller),
            );
            lemma_go_recorded(
                tree,
                from + 1,
                end,
                file_path,
                file,
                go_caller(tree, from, file_path, caller),
                here,
            );
            let inside = go_walk(
                tree,
                from + 1,
                end,
                file_path,
                file,
                go_caller(tree, from, file_path, caller),
                here,
            );
            lemma_go_recorded(tree, end, limit, file_path, file, caller, inside);
        }
    }
}

proof fn lemma_c_recorded(
    tree: TreeView,
    from: int,
    limit: int,
    file_path: Seq<char>,
    scope: ScopeView,
    caller: Option<Seq<char>>,
    out: ExtractionView,
)
    requires
        all_recorded(out, file_path),
    ensures
        all_recorded(c_walk(tree, from, limit, file_path, scope, caller, out), file_path),
    decreases limit - from,
{
    lemma_ids_named(file_path);
    if from < limit {
        let end = subtree_end(tree, from, limit);
        if end > from && end <= limit {
            let here = extended(
                out,
                c_symbol(tree, from, file_path, scope),
                c_call(tree, from, caller),
            );
            lemma_c_recorded(
                tree,
                from + 1,
                end,
                file_path,
                c_scope(tree, from, scope),
                c_caller(tree, from, file_path, scope, caller),
                here,
            );
            let inside = c_walk(
                tree,
                from + 1,
                end,
                file_path,
                c_scope(tree, from, scope),
                c_caller(tree, from, file_path, scope, caller),
                here,
            );
            lemma_c_recorded(tree, end, limit, file_path, scope, caller, inside);
        }
    }
}

proof fn lemma_zig_recorded(
    tree: TreeView,
    from: int,
    limit: int,
    file_path: Seq<char>,
    parent: Option<Seq<char>>,
    caller: Option<Seq<char>>,
    out: ExtractionView,
)
    requires
        all_recorded(out, file_path),
    ensures
        all_recorded(zig_walk(tree, from, limit, file_path, parent, caller, out), file_path),
    decreases limit - from,
{
    lemma_ids_named(file_path);
    if from < limit {
        let end = subtree_end(tree, from, limit);
        if end > from && end <= limit {
            let here = extended(
                out,
                zig_symbol(tree, from, file_path, parent),
                zig_call(tree, from, caller),
            );
            lemma_zig_recorded(
                tree,
                from + 1,
                end,
                file_path,
                zig_parent(tree, from, parent),
                zig_caller(tree, from, file_path, parent, caller),
                here,
            );
            let inside = zig_walk(
                tree,
                from + 1,
                end,
                file_path,
                zig_parent(tree, from, parent),
                zig_caller(tree, from, file_path, parent, caller),
                here,
            );
            lemma_zig_recorded(tree, end, limit, file_path, parent, caller, inside);
        }
    }
}

proof fn lemma_routes_recorded(
    tree: TreeView,
    at: int,
    file_path: Seq<char>,
    qualified: Seq<char>,
    routes: Seq<RouteView>,
    out: ExtractionView,
)
    requires
        all_recorded(out, file_path),
    ensures
        all_recorded(with_routes(tree, at, file_path, qualified, routes, out), file_path),
    decreases routes.len(),
{
    lemma_ids_named(file_path);
    if routes.len() > 0 {
        let here = extended(
            out,
            Some(route_symbol(tree, at, file_path, qualified, routes[0])),
            Some(route_call(tree, at, file_path, qualified, routes[0])),
        );
        lemma_routes_recorded(tree, at, file_path, qualified, routes.skip(1), here);
    }
}

proof fn lemma_java_here_recorded(
    tree: TreeView,
    at: int,
    file: JavaFile,
    scope: JavaScope,
    out: ExtractionView,
)
    requires
        all_recorded(out, file.file_path),
    ensures
        all_recorded(java_here(tree, at, file, scope, out), file.file_path),
{
    lemma_ids_named(file.file_path);
    lemma_reversed_kinds();
    if is_method(tree.nodes[at].kind) {
        if let Some(name) = declared_name(tree, at) {
            lemma_routes_recorded(
                tree,
                at,
                file.file_path,
                scoped(scope.parent, name),
                method_routes(tree, at, scope),
                extended(out, method_symbol(tree, at, file, scope), None),
            );
        }
    }
}

proof fn lemma_java_recorded(
    tree: TreeView,
    from: int,
    limit: int,
    file: JavaFile,
    scope: JavaScope,
    out: ExtractionView,
)
    requires
        all_recorded(out, file.file_path),
    ensures
        all_recorded(java_walk(tree, from, limit, file, scope, out), file.file_path),
    decreases limit - from,
{
    lemma_ids_named(file.file_path);
    if from < limit {
        let end = subtree_end(tree, from, limit);
        if end > from && end <= limit {
            let here = java_here(tree, from, file, scope, out);
            lemma_java_here_recorded(tree, from, file, scope, out);
            lemma_java_recorded(
                tree,
                from + 1,
                end,
                file,
                java_scope(tree, from, file, scope),
                here,
            );
            let inside = java_walk(
                tree,
                from + 1,
                end,
                file,
                java_scope(tree, from, file, scope),
                here,
            );
            lemma_java_recorded(tree, end, limit, file, scope, inside);
        }
    }
}

proof fn lemma_fields_recorded(
    tree: TreeView,
    fields: Seq<int>,
    class: FrameworkClass,
    out: ExtractionView,
)
    requires
        all_recorded(out, class.file_path),
    ensures
        all_recorded(with_fields(tree, fields, class, out), class.file_path),
    decreases fields.len(),
{
    lemma_ids_named(class.file_path);
    if fields.len() > 0 {
        lemma_reversed_kinds();
        let here = with_field(tree, fields[0], class, out);
        assert(all_recorded(here, class.file_path));
        lemma_fields_recorded(tree, fields.skip(1), class, here);
    }
}

proof fn lemma_parameters_recorded(
    tree: TreeView,
    parameters: Seq<int>,
    class: FrameworkClass,
    tier: int,
    out: ExtractionView,
)
    requires
        all_recorded(out, class.file_path),
    ensures
        all_recorded(with_parameters(tree, parameters, class, tier, out), class.file_path),
    decreases parameters.len(),
{
    lemma_ids_named(class.file_path);
    if parameters.len() > 0 {
        lemma_reversed_kinds();
        let here = match type_of(tree, parameters[0]) {
            Some(text) => with_call(out, injection(tree, parameters[0], class, text, tier)),
            None => out,
        };
        assert(all_recorded(here, class.file_path));
        lemma_parameters_recorded(tree, parameters.skip(1), class, tier, here);
    }
}

proof fn lemma_constructors_recorded(
    tree: TreeView,
    constructors: Seq<int>,
    only_one: bool,
    class: FrameworkClass,
    out: ExtractionView,
)
    requires
        all_recorded(out, class.file_path),
    ensures
        all_recorded(with_constructors(tree, constructors, only_one, class, out), class.file_path),
    decreases constructors.len(),
{
    lemma_ids_named(class.file_path);
    if constructors.len() > 0 {
        let here = with_constructor(tree, constructors[0], only_one, class, out);
        let parameters = descendants(tree, constructors[0], "formal_parameter"@);
        lemma_parameters_recorded(tree, parameters, class, 6, out);
        lemma_parameters_recorded(tree, parameters, class, 7, out);
        lemma_constructors_recorded(tree, constructors.skip(1), only_one, class, here);
    }
}

proof fn lemma_publications_recorded(
    tree: TreeView,
    invocations: Seq<int>,
    method_id: Seq<char>,
    types: Map<Seq<char>, Seq<char>>,
    out: ExtractionView,
    file_path: Seq<char>,
)
    requires
        all_recorded(out, file_path),
    ensures
        all_recorded(with_publications(tree, invocations, method_id, types, out), file_path),
    decreases invocations.len(),
{
    lemma_ids_named(file_path);
    if invocations.len() > 0 {
        lemma_reversed_kinds();
        let here = match publication(tree, invocations[0], types) {
            Some((event, anchor)) => with_call(
                out,
                relation(tree, anchor, method_id, event, "publishes_event"@, false, None, 7),
            ),
            None => out,
        };
        assert(all_recorded(here, file_path));
        lemma_publications_recorded(tree, invocations.skip(1), method_id, types, here, file_path);
    }
}

proof fn lemma_methods_recorded(
    tree: TreeView,
    methods: Seq<int>,
    services: Services,
    class: FrameworkClass,
    out: ExtractionView,
)
    requires
        all_recorded(out, class.file_path),
    ensures
        all_recorded(with_methods(tree, methods, services, class, out), class.file_path),
    decreases methods.len(),
{
    lemma_ids_named(class.file_path);
    if methods.len() > 0 {
        lemma_reversed_kinds();
        let at = methods[0];
        let here = with_method(tree, at, services, class, out);
        if let Some(name_at) = child_in_field(tree, at, "name"@) {
            let name = trimmed_at(tree, name_at);
            let method_id = symbol_id(class.file_path, class.qualified + "::"@ + name);
            let called = with_feign(tree, at, name, services.feign, class, out);
            let served = with_grpc(tree, at, name, services.grpc, class, called);
            let consumed = with_listener(tree, at, method_id, served);
            assert(all_recorded(called, class.file_path));
            assert(all_recorded(served, class.file_path));
            assert(all_recorded(consumed, class.file_path));
            lemma_publications_recorded(
                tree,
                descendants(tree, at, "method_invocation"@),
                method_id,
                java_types(tree, at),
                consumed,
                class.file_path,
            );
        }
        lemma_methods_recorded(tree, methods.skip(1), services, class, here);
    }
}

proof fn lemma_class_recorded(tree: TreeView, class: FrameworkClass, out: ExtractionView)
    requires
        all_recorded(out, class.file_path),
    ensures
        all_recorded(with_class(tree, class, out), class.file_path),
{
    lemma_ids_named(class.file_path);
    lemma_reversed_kinds();
    let constructors = members(tree, class.at, "constructor_declaration"@);
    let field_places = members(tree, class.at, "field_declaration"@);
    let bound = with_properties(tree, class, out);
    assert(all_recorded(bound, class.file_path));
    let fields = with_fields(tree, field_places, class, bound);
    lemma_fields_recorded(tree, field_places, class, bound);
    let only_one = constructors.len() == 1;
    let constructed = with_constructors(tree, constructors, only_one, class, fields);
    lemma_constructors_recorded(tree, constructors, only_one, class, fields);
    lemma_methods_recorded(
        tree,
        members(tree, class.at, "method_declaration"@),
        services_of(tree, class.at),
        class,
        constructed,
    );
}

proof fn lemma_framework_recorded(
    tree: TreeView,
    from: int,
    limit: int,
    file_path: Seq<char>,
    package: Option<Seq<char>>,
    parent: Option<Seq<char>>,
    types_only: bool,
    out: ExtractionView,
)
    requires
        all_recorded(out, file_path),
    ensures
        all_recorded(
            framework_walk(tree, from, limit, file_path, package, parent, types_only, out),
            file_path,
        ),
    decreases limit - from,
{
    lemma_ids_named(file_path);
    if from < limit {
        let end = subtree_end(tree, from, limit);
        if end > from && end <= limit {
            if is_type_declaration(tree.nodes[from].kind) {
                match child_in_field(tree, from, "name"@) {
                    Some(name_at) => {
                        let class = framework_class(
                            tree,
                            from,
                            name_at,
                            file_path,
                            package,
                            parent,
                        );
                        let inner = with_class(tree, class, out);
                        let parents = Some(class.qualified);
                        lemma_class_recorded(tree, class, out);
                        lemma_framework_recorded(
                            tree,
                            from + 1,
                            end,
                            file_path,
                            package,
                            parents,
                            true,
                            inner,
                        );
                        let here = framework_walk(
                            tree,
                            from + 1,
                            end,
                            file_path,
                            package,
                            parents,
                            true,
                            inner,
                        );
                        lemma_framework_recorded(
                            tree,
                            end,
                            limit,
                            file_path,
                            package,
                            parent,
                            types_only,
                            here,
                        );
                    },
                    None => {
                        lemma_framework_recorded(
                            tree,
                            end,
                            limit,
                            file_path,
                            package,
                            parent,
                            types_only,
                            out,
                        );
                    },
                }
            } else {
                let here = if types_only {
                    out
                } else {
                    framework_walk(tree, from + 1, end, file_path, package, parent, false, out)
                };
                if !types_only {
                    lemma_framework_recorded(
                        tree,
                        from + 1,
                        end,
                        file_path,
                        package,
                        parent,
                        false,
                        out,
                    );
                }
                lemma_framework_recorded(
                    tree,
                    end,
                    limit,
                    file_path,
                    package,
                    parent,
                    types_only,
                    here,
                );
            }
        }
    }
}

/// Whatever the source, the parser records every call with the simple name of its
/// callee, and reverses a relation just where its kind is reversed; the symbols that it
/// finds belong to the file.
pub proof fn parsed_files_are_well_recorded(
    grammar: Grammar,
    tree: TreeView,
    file_path: Seq<char>,
)
    ensures
        forall|k: int|
            0 <= k < extraction(grammar, tree, file_path).calls.len() ==> well_recorded(
                #[trigger] extraction(grammar, tree, file_path).calls[k],
            ),
        forall|k: int|
            0 <= k < extraction(grammar, tree, file_path).nodes.len() ==> is_of_file(
                #[trigger] extraction(grammar, tree, file_path).nodes[k],
                file_path,
            ),
{
    let all = tree.nodes.len() as int;
    assert(all_recorded(nothing(), file_path));
    match grammar {
        Grammar::Rust => {
            lemma_rust_recorded(tree, 0, all, file_path, None, None, nothing());
        },
        Grammar::Go => {
            lemma_go_recorded(tree, 0, all, file_path, go_file(tree), None, nothing());
        },
        Grammar::Java => {
            if all > 0 {
                let scope = JavaScope { parent: None, caller: None, prefixes: None, types: None };
                let file = java_file(tree, file_path);
                let found = java_walk(tree, 0, all, file, scope, nothing());
                let package = java_package(tree);
                lemma_java_recorded(tree, 0, all, file, scope, nothing());
                lemma_framework_recorded(
                    tree,
                    1,
                    end_of(tree, 0),
                    file_path,
                    package,
                    None,
                    false,
                    found,
                );
            }
        },
        Grammar::C | Grammar::Cpp => {
            let scope = ScopeView { parent: None, parent_is_type: false };
            lemma_c_recorded(tree, 0, all, file_path, scope, None, nothing());
        },
        Grammar::Zig => {
            lemma_zig_recorded(tree, 0, all, file_path, None, None, nothing());
        },
    }
    assert(all_recorded(extraction(grammar, tree, file_path), file_path));
}

} // verus!
