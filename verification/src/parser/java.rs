//! Java sources: classes and interfaces, methods and constructors, the routes that
//! controllers map, and calls.

pub mod laws;

use vstd::prelude::*;
use crate::db::{NodeView, RawCall, RawCallView};
use crate::parser::common::{
    call_at, declared_symbol, extended, get_signature, make_symbol, owned, qualified_name, raw_call,
    scoped, signature, symbol_at, symbol_id, symbol_with, Extraction, ExtractionView,
};
use crate::parser::java_syntax::{
    annotation_paths, annotations_of, collect_java_types, extract_annotation_paths,
    extract_request_methods, find_annotations, hidden_by, identifier_of, is_type_declaration,
    java_types, own_identifier, request_methods, within, TypeTable,
};
use crate::parser::syntax::{
    child_in_field, child_named, places, subtree_end, text_at, trimmed_at, SyntaxTree, TreeView,
};
use crate::text::{
    before_first, chars_of, contains, ends, ends_with, first_part, has, join2, join3,
    lemma_views_push, opt_str, opt_text, same, string_of, trim, trimmed, views,
};

verus! {

// ---------------------------------------------------------------------------
// Names and paths

/// A path segment with a slash before it, unless it is empty.
pub open spec fn with_slash(path: Seq<char>) -> Seq<char> {
    if path.len() > 0 && path[0] != '/' {
        "/"@ + path
    } else {
        path
    }
}

/// A path without the slash it ends with.
pub open spec fn without_last_slash(path: Seq<char>) -> Seq<char> {
    if path.len() > 0 && path.last() == '/' {
        path.drop_last()
    } else {
        path
    }
}

/// The path of a route: the controller's prefix and the method's path, each with one
/// slash before it.
pub open spec fn combined_path(prefix: Seq<char>, suffix: Seq<char>) -> Seq<char> {
    let path = without_last_slash(with_slash(trim(prefix))) + with_slash(trim(suffix));
    if path.len() == 0 {
        "/"@
    } else {
        path
    }
}

fn slash_before(path: &str) -> (text: String)
    ensures
        text@ == with_slash(path@),
{
    let chars = chars_of(path);
    if chars.len() > 0 && chars[0] != '/' {
        join2("/", path)
    } else {
        path.to_string()
    }
}

fn no_slash_after(path: &str) -> (text: String)
    ensures
        text@ == without_last_slash(path@),
{
    let chars = chars_of(path);
    if chars.len() > 0 && chars[chars.len() - 1] == '/' {
        let text = string_of(&chars, 0, chars.len() - 1);
        assert(text@ =~= path@.drop_last());
        text
    } else {
        path.to_string()
    }
}

/// The path of a route.
pub fn combine_paths(prefix: &str, suffix: &str) -> (path: String)
    ensures
        path@ == combined_path(prefix@, suffix@),
{
    let first = no_slash_after(slash_before(trimmed(prefix).as_str()).as_str());
    let second = slash_before(trimmed(suffix).as_str());
    let path = join2(first.as_str(), second.as_str());
    if path.as_str().is_empty() {
        "/".to_string()
    } else {
        path
    }
}

/// An import brings a name into scope: it is the name, or ends with it.
pub open spec fn imports_name(import: Seq<char>, name: Seq<char>) -> bool {
    import == name || ends_with(import, "."@ + name)
}

/// The first import that brings a name into scope.
pub open spec fn import_of(name: Seq<char>, imports: Seq<Seq<char>>) -> Option<Seq<char>>
    decreases imports.len(),
{
    if imports.len() == 0 {
        None
    } else if imports_name(imports[0], name) {
        Some(imports[0])
    } else {
        import_of(name, imports.skip(1))
    }
}

/// The first import that brings a name into scope.
pub fn find_import_hint(name: &str, imports: &[String]) -> (hint: Option<String>)
    ensures
        opt_text(hint) == import_of(name@, views(imports@)),
{
    let suffix = join2(".", name);
    let mut i: usize = 0;
    assert(views(imports@).skip(0) =~= views(imports@));
    while i < imports.len()
        invariant
            i <= imports@.len(),
            suffix@ == "."@ + name@,
            import_of(name@, views(imports@)) == import_of(name@, views(imports@).skip(i as int)),
        decreases imports@.len() - i,
    {
        assert(views(imports@).skip(i as int)[0] == imports@[i as int]@);
        if same(imports[i].as_str(), name) || ends(imports[i].as_str(), suffix.as_str()) {
            return Some(imports[i].clone());
        }
        assert(views(imports@).skip(i as int).skip(1) =~= views(imports@).skip(i + 1));
        i = i + 1;
    }
    None
}

/// The service that a generated client stub belongs to.
pub open spec fn client_service(receiver_type: Seq<char>) -> Option<Seq<char>> {
    if contains(receiver_type, "Stub"@) {
        Some(before_first(receiver_type, "Grpc."@))
    } else {
        None
    }
}

/// The service that a generated client stub belongs to.
pub fn grpc_client_service(receiver_type: &str) -> (service: Option<String>)
    ensures
        opt_text(service) == client_service(receiver_type@),
{
    if has(receiver_type, "Stub") {
        Some(first_part(receiver_type, "Grpc."))
    } else {
        None
    }
}

// ---------------------------------------------------------------------------
// Declarations

/// What holds where a node stands: the enclosing type, the method that calls are made
/// in, the prefixes of the enclosing controller and the types of variables.
#[verifier::ext_equal]
pub struct JavaScope {
    pub parent: Option<Seq<char>>,
    pub caller: Option<Seq<char>>,
    pub prefixes: Option<Seq<Seq<char>>>,
    pub types: Option<Map<Seq<char>, Seq<char>>>,
}

/// What holds in the whole file: its path, its package and its imports.
#[verifier::ext_equal]
pub struct JavaFile {
    pub file_path: Seq<char>,
    pub package: Option<Seq<char>>,
    pub imports: Seq<Seq<char>>,
}

/// The name of the declaration at `at`.
pub open spec fn declared_name(tree: TreeView, at: int) -> Option<Seq<char>> {
    match child_named(tree, at, "name"@, "identifier"@) {
        Some(name) => Some(text_at(tree, name)),
        None => None,
    }
}

/// The qualified name of a type: within its enclosing type, or else within the package.
pub open spec fn type_qualified(
    parent: Option<Seq<char>>,
    package: Option<Seq<char>>,
    name: Seq<char>,
) -> Seq<char> {
    match parent {
        Some(parent) => parent + "::"@ + name,
        None => scoped(package, name),
    }
}

/// Whether annotations of these names mark a controller.
pub open spec fn marks_controller(tree: TreeView, annotations: Seq<int>) -> bool
    decreases annotations.len(),
{
    annotations.len() > 0 && ({
        let name = own_identifier(tree, annotations[0]);
        name == "RestController"@ || name == "Controller"@
    } || marks_controller(tree, annotations.skip(1)))
}

/// The paths that the mappings among the annotations of a class give.
pub open spec fn class_paths(tree: TreeView, annotations: Seq<int>) -> Seq<Seq<char>>
    decreases annotations.len(),
{
    if annotations.len() == 0 {
        seq![]
    } else {
        let here = if own_identifier(tree, annotations[0]) == "RequestMapping"@ {
            annotation_paths(tree, annotations[0])
        } else {
            seq![]
        };
        here + class_paths(tree, annotations.skip(1))
    }
}

/// The prefixes of the routes of a controller class; none for another type.
pub open spec fn controller_prefixes(tree: TreeView, at: int) -> Option<Seq<Seq<char>>> {
    let annotations = annotations_of(tree, at);
    if tree.nodes[at].kind == "class_declaration"@ && marks_controller(tree, annotations) {
        let paths = class_paths(tree, annotations);
        if paths.len() == 0 {
            Some(seq![Seq::<char>::empty()])
        } else {
            Some(paths)
        }
    } else {
        None
    }
}

/// The symbol of the class or interface at `at`.
pub open spec fn type_symbol(tree: TreeView, at: int, file: JavaFile, scope: JavaScope) -> Option<
    NodeView,
> {
    match declared_name(tree, at) {
        Some(name) => Some(
            symbol_at(
                tree,
                at,
                file.file_path,
                name,
                if tree.nodes[at].kind == "class_declaration"@ {
                    "class"@
                } else {
                    "interface"@
                },
                type_qualified(scope.parent, file.package, name),
            ),
        ),
        None => None,
    }
}

/// What holds inside the class or interface at `at`.
pub open spec fn type_scope(tree: TreeView, at: int, file: JavaFile, scope: JavaScope) -> JavaScope {
    let types = Some(java_types(tree, at));
    match declared_name(tree, at) {
        Some(name) => JavaScope {
            parent: Some(type_qualified(scope.parent, file.package, name)),
            caller: None,
            prefixes: match controller_prefixes(tree, at) {
                Some(prefixes) => Some(prefixes),
                None => scope.prefixes,
            },
            types,
        },
        None => JavaScope { types, ..scope },
    }
}

/// The kinds of methods and constructors.
pub open spec fn is_method(kind: Seq<char>) -> bool {
    kind == "method_declaration"@ || kind == "constructor_declaration"@
}

/// The symbol of the method or constructor at `at`.
pub open spec fn method_symbol(tree: TreeView, at: int, file: JavaFile, scope: JavaScope) -> Option<
    NodeView,
> {
    match declared_name(tree, at) {
        Some(name) => Some(
            symbol_at(
                tree,
                at,
                file.file_path,
                name,
                if tree.nodes[at].kind == "method_declaration"@ {
                    "method"@
                } else {
                    "constructor"@
                },
                scoped(scope.parent, name),
            ),
        ),
        None => None,
    }
}

/// What holds inside the method or constructor at `at`: its own variables hide those
/// around it.
pub open spec fn method_scope(tree: TreeView, at: int, file: JavaFile, scope: JavaScope) -> JavaScope {
    let own = java_types(tree, at);
    let types = match scope.types {
        Some(outer) => Some(hidden_by(outer, own)),
        None => Some(own),
    };
    match declared_name(tree, at) {
        Some(name) => JavaScope {
            caller: Some(symbol_id(file.file_path, scoped(scope.parent, name))),
            types,
            ..scope
        },
        None => JavaScope { types, ..scope },
    }
}

// ---------------------------------------------------------------------------
// Routes

/// The names of the mapping annotations.
pub open spec fn is_mapping(name: Seq<char>) -> bool {
    ||| name == "RequestMapping"@
    ||| name == "GetMapping"@
    ||| name == "PostMapping"@
    ||| name == "PutMapping"@
    ||| name == "DeleteMapping"@
    ||| name == "PatchMapping"@
}

/// A route: a request method and a path.
#[verifier::ext_equal]
pub struct RouteView {
    pub method: Seq<char>,
    pub path: Seq<char>,
}

/// The routes of one path, one for each method.
pub open spec fn routes_of_path(path: Seq<char>, methods: Seq<Seq<char>>) -> Seq<RouteView> {
    methods.map_values(|method: Seq<char>| RouteView { method, path })
}

/// The routes of each of the paths under one prefix.
pub open spec fn routes_of_paths(
    prefix: Seq<char>,
    paths: Seq<Seq<char>>,
    methods: Seq<Seq<char>>,
) -> Seq<RouteView>
    decreases paths.len(),
{
    if paths.len() == 0 {
        seq![]
    } else {
        routes_of_path(combined_path(prefix, paths[0]), methods) + routes_of_paths(
            prefix,
            paths.skip(1),
            methods,
        )
    }
}

/// The routes of each of the paths under each of the prefixes.
pub open spec fn routes_of_prefixes(
    prefixes: Seq<Seq<char>>,
    paths: Seq<Seq<char>>,
    methods: Seq<Seq<char>>,
) -> Seq<RouteView>
    decreases prefixes.len(),
{
    if prefixes.len() == 0 {
        seq![]
    } else {
        routes_of_paths(prefixes[0], paths, methods) + routes_of_prefixes(
            prefixes.skip(1),
            paths,
            methods,
        )
    }
}

/// The routes that an annotation maps; the bare prefix where it gives no path.
pub open spec fn annotation_routes(
    tree: TreeView,
    annotation: int,
    prefixes: Seq<Seq<char>>,
) -> Seq<RouteView> {
    if is_mapping(own_identifier(tree, annotation)) {
        let given = annotation_paths(tree, annotation);
        let paths = if given.len() == 0 {
            seq![Seq::<char>::empty()]
        } else {
            given
        };
        routes_of_prefixes(prefixes, paths, request_methods(tree, annotation))
    } else {
        seq![]
    }
}

/// The routes that annotations map, one after the other.
pub open spec fn annotations_routes(
    tree: TreeView,
    annotations: Seq<int>,
    prefixes: Seq<Seq<char>>,
) -> Seq<RouteView>
    decreases annotations.len(),
{
    if annotations.len() == 0 {
        seq![]
    } else {
        annotation_routes(tree, annotations[0], prefixes) + annotations_routes(
            tree,
            annotations.skip(1),
            prefixes,
        )
    }
}

/// The routes of the method at `at`: only a method of a controller has any.
pub open spec fn method_routes(tree: TreeView, at: int, scope: JavaScope) -> Seq<RouteView> {
    match scope.prefixes {
        Some(prefixes) => if tree.nodes[at].kind == "method_declaration"@ {
            annotations_routes(tree, annotations_of(tree, at), prefixes)
        } else {
            seq![]
        },
        None => seq![],
    }
}

/// What a route goes by: its method and its path.
pub open spec fn route_name(route: RouteView) -> Seq<char> {
    route.method + " "@ + route.path
}

/// The id of a route of the method with the given qualified name.
pub open spec fn route_id(file_path: Seq<char>, qualified: Seq<char>, route: RouteView) -> Seq<char> {
    file_path + "::"@ + qualified + "::route::"@ + route_name(route)
}

/// The symbol of a route of the method at `at`.
pub open spec fn route_symbol(
    tree: TreeView,
    at: int,
    file_path: Seq<char>,
    qualified: Seq<char>,
    route: RouteView,
) -> NodeView {
    symbol_with(
        tree,
        at,
        file_path,
        route_id(file_path, qualified, route),
        route_name(route),
        "route"@,
        route_name(route),
        signature(tree, at),
    )
}

/// The relation from a route to the method that handles it.
pub open spec fn route_call(
    tree: TreeView,
    at: int,
    file_path: Seq<char>,
    qualified: Seq<char>,
    route: RouteView,
) -> RawCallView {
    RawCallView {
        relationship_kind: "route_handler"@,
        target_qualified_hint: Some(qualified),
        resolution_hint: Some(6),
        ..call_at(tree, at, route_id(file_path, qualified, route), qualified)
    }
}

/// An extraction with the symbols and relations of routes.
pub open spec fn with_routes(
    tree: TreeView,
    at: int,
    file_path: Seq<char>,
    qualified: Seq<char>,
    routes: Seq<RouteView>,
    out: ExtractionView,
) -> ExtractionView
    decreases routes.len(),
{
    if routes.len() == 0 {
        out
    } else {
        with_routes(
            tree,
            at,
            file_path,
            qualified,
            routes.skip(1),
            extended(
                out,
                Some(route_symbol(tree, at, file_path, qualified, routes[0])),
                Some(route_call(tree, at, file_path, qualified, routes[0])),
            ),
        )
    }
}

// ---------------------------------------------------------------------------
// Calls

/// The type of a receiver, where its variable is declared.
pub open spec fn receiver_type_of(scope: JavaScope, receiver: Seq<char>) -> Option<Seq<char>> {
    match scope.types {
        Some(types) => if types.dom().contains(receiver) {
            Some(types[receiver])
        } else {
            None
        },
        None => None,
    }
}

/// A call with what its receiver tells of it.
pub open spec fn with_receiver(
    call: RawCallView,
    method: Seq<char>,
    receiver: Seq<char>,
    file: JavaFile,
    scope: JavaScope,
) -> RawCallView {
    let typed = match receiver_type_of(scope, receiver) {
        Some(receiver_type) => {
            let hinted = RawCallView {
                receiver_expr: Some(receiver),
                receiver_type: Some(receiver_type),
                import_hint: import_of(receiver_type, file.imports),
                ..call
            };
            match client_service(receiver_type) {
                Some(service) => RawCallView {
                    relationship_kind: "grpc_calls"@,
                    target_qualified_hint: Some("grpc::"@ + service + "::"@ + method),
                    resolution_hint: Some(8),
                    ..hinted
                },
                None => hinted,
            }
        },
        None => RawCallView { receiver_expr: Some(receiver), ..call },
    };
    if typed.import_hint is None {
        RawCallView { import_hint: import_of(receiver, file.imports), ..typed }
    } else {
        typed
    }
}

/// The call of a method that a node makes.
pub open spec fn invocation(
    tree: TreeView,
    at: int,
    caller: Seq<char>,
    file: JavaFile,
    scope: JavaScope,
) -> Option<RawCallView> {
    match child_in_field(tree, at, "name"@) {
        Some(name) => {
            let method = text_at(tree, name);
            let call = RawCallView {
                call_kind: Some("method"@),
                package_or_namespace: file.package,
                ..call_at(tree, at, caller, method)
            };
            Some(
                match child_in_field(tree, at, "object"@) {
                    Some(object) => if trimmed_at(tree, object).len() > 0 {
                        with_receiver(call, method, trimmed_at(tree, object), file, scope)
                    } else {
                        call
                    },
                    None => call,
                },
            )
        },
        None => None,
    }
}

/// The call of a constructor that a node makes.
pub open spec fn creation(tree: TreeView, at: int, caller: Seq<char>, file: JavaFile) -> Option<
    RawCallView,
> {
    match child_in_field(tree, at, "type"@) {
        Some(type_at) => {
            let created = text_at(tree, type_at);
            Some(
                RawCallView {
                    call_kind: Some("constructor"@),
                    receiver_type: Some(created),
                    import_hint: import_of(created, file.imports),
                    package_or_namespace: file.package,
                    ..call_at(tree, at, caller, created)
                },
            )
        },
        None => None,
    }
}

/// The call that a node makes within a method.
pub open spec fn java_call(tree: TreeView, at: int, file: JavaFile, scope: JavaScope) -> Option<
    RawCallView,
> {
    match scope.caller {
        Some(caller) => if tree.nodes[at].kind == "method_invocation"@ {
            invocation(tree, at, caller, file, scope)
        } else if tree.nodes[at].kind == "object_creation_expression"@ {
            creation(tree, at, caller, file)
        } else {
            None
        },
        None => None,
    }
}

// ---------------------------------------------------------------------------
// The walk

/// What a node by itself adds to an extraction.
pub open spec fn java_here(
    tree: TreeView,
    at: int,
    file: JavaFile,
    scope: JavaScope,
    out: ExtractionView,
) -> ExtractionView {
    let kind = tree.nodes[at].kind;
    if is_type_declaration(kind) {
        extended(out, type_symbol(tree, at, file, scope), None)
    } else if is_method(kind) {
        match declared_name(tree, at) {
            Some(name) => with_routes(
                tree,
                at,
                file.file_path,
                scoped(scope.parent, name),
                method_routes(tree, at, scope),
                extended(out, method_symbol(tree, at, file, scope), None),
            ),
            None => out,
        }
    } else {
        extended(out, None, java_call(tree, at, file, scope))
    }
}

/// What holds below a node.
pub open spec fn java_scope(tree: TreeView, at: int, file: JavaFile, scope: JavaScope) -> JavaScope {
    let kind = tree.nodes[at].kind;
    if is_type_declaration(kind) {
        type_scope(tree, at, file, scope)
    } else if is_method(kind) {
        method_scope(tree, at, file, scope)
    } else {
        scope
    }
}

/// What the subtrees from `from` up to `limit` add to an extraction.
pub open spec fn java_walk(
    tree: TreeView,
    from: int,
    limit: int,
    file: JavaFile,
    scope: JavaScope,
    out: ExtractionView,
) -> ExtractionView
    decreases limit - from,
{
    if from >= limit {
        out
    } else {
        let end = subtree_end(tree, from, limit);
        if end <= from || end > limit {
            out
        } else {
            let here = java_here(tree, from, file, scope, out);
            let inside = java_walk(
                tree,
                from + 1,
                end,
                file,
                java_scope(tree, from, file, scope),
                here,
            );
            java_walk(tree, end, limit, file, scope, inside)
        }
    }
}

/// What holds in a whole Java file.
pub struct JavaContext<'a> {
    pub file_path: &'a str,
    pub package: Option<&'a str>,
    pub imports: &'a [String],
}

impl<'a> View for JavaContext<'a> {
    type V = JavaFile;

    open spec fn view(&self) -> JavaFile {
        JavaFile {
            file_path: self.file_path@,
            package: opt_str(self.package),
            imports: views(self.imports@),
        }
    }
}

/// What holds where a node stands.
#[derive(Clone, Copy)]
pub struct JavaPlace<'a> {
    pub parent: Option<&'a str>,
    pub caller: Option<&'a str>,
    pub prefixes: Option<&'a Vec<String>>,
    pub types: Option<&'a TypeTable>,
}

impl<'a> View for JavaPlace<'a> {
    type V = JavaScope;

    open spec fn view(&self) -> JavaScope {
        JavaScope {
            parent: opt_str(self.parent),
            caller: opt_str(self.caller),
            prefixes: match self.prefixes {
                Some(prefixes) => Some(views(prefixes@)),
                None => None,
            },
            types: match self.types {
                Some(types) => Some(types@),
                None => None,
            },
        }
    }
}

fn name_of_declaration(tree: &SyntaxTree, at: usize) -> (name: Option<String>)
    requires
        tree.wf(),
        at < tree@.nodes.len(),
    ensures
        opt_text(name) == declared_name(tree@, at as int),
{
    match tree.child_named(at, "name", "identifier") {
        Some(name) => Some(tree.text(name)),
        None => None,
    }
}

fn append(found: &mut Vec<String>, more: &Vec<String>)
    ensures
        views(final(found)@) == views(old(found)@) + views(more@),
{
    let ghost start = found@;
    let mut i: usize = 0;
    assert(views(start) + views(more@).take(0) =~= views(start));
    while i < more.len()
        invariant
            i <= more@.len(),
            views(found@) == views(start) + views(more@).take(i as int),
        decreases more@.len() - i,
    {
        let item = more[i].clone();
        let ghost before = found@;
        found.push(item);
        proof {
            lemma_views_push(before, item);
            assert(views(start) + views(more@).take(i + 1) =~= (views(start) + views(more@).take(
                i as int,
            )).push(item@));
        }
        i = i + 1;
    }
    assert(views(more@).take(i as int) =~= views(more@));
}

fn prefixes_of(tree: &SyntaxTree, at: usize) -> (prefixes: Option<Vec<String>>)
    requires
        tree.wf(),
        at < tree@.nodes.len(),
    ensures
        match prefixes {
            Some(prefixes) => controller_prefixes(tree@, at as int) == Some(views(prefixes@)),
            None => controller_prefixes(tree@, at as int) is None,
        },
{
    if !tree.is_kind(at, "class_declaration") {
        return None;
    }
    let annotations = find_annotations(tree, at);
    let ghost all = annotations_of(tree@, at as int);
    let mut is_controller = false;
    let mut prefixes: Vec<String> = Vec::new();
    let mut i: usize = 0;
    assert(all.skip(0) =~= all);
    assert(views(prefixes@) + class_paths(tree@, all) =~= class_paths(tree@, all));
    while i < annotations.len()
        invariant
            tree.wf(),
            i <= annotations@.len(),
            all == places(annotations@),
            within(annotations@, tree@.nodes.len() as int),
            marks_controller(tree@, all) == (is_controller || marks_controller(
                tree@,
                all.skip(i as int),
            )),
            class_paths(tree@, all) == views(prefixes@) + class_paths(tree@, all.skip(i as int)),
        decreases annotations@.len() - i,
    {
        let annotation = annotations[i];
        let ghost before = prefixes@;
        assert(all.skip(i as int)[0] == annotation as int);
        assert(all.skip(i as int).skip(1) =~= all.skip(i + 1));
        let name = identifier_of(tree, annotation);
        if same(name.as_str(), "RestController") || same(name.as_str(), "Controller") {
            is_controller = true;
        }
        if same(name.as_str(), "RequestMapping") {
            let paths = extract_annotation_paths(tree, annotation);
            append(&mut prefixes, &paths);
            assert(views(before) + (views(paths@) + class_paths(tree@, all.skip(i + 1))) =~= views(
                prefixes@,
            ) + class_paths(tree@, all.skip(i + 1)));
        } else {
            assert(Seq::<Seq<char>>::empty() + class_paths(tree@, all.skip(i + 1))
                =~= class_paths(tree@, all.skip(i + 1)));
        }
        i = i + 1;
    }
    assert(views(prefixes@) + Seq::<Seq<char>>::empty() =~= views(prefixes@));
    assert(views(prefixes@).len() == prefixes@.len());
    if !is_controller {
        return None;
    }
    if prefixes.len() == 0 {
        prefixes.push(String::new());
        assert(views(prefixes@) =~= seq![Seq::<char>::empty()]);
    }
    Some(prefixes)
}

struct Route {
    method: String,
    path: String,
}

impl View for Route {
    type V = RouteView;

    closed spec fn view(&self) -> RouteView {
        RouteView { method: self.method@, path: self.path@ }
    }
}

fn add_path_routes(routes: &mut Vec<Route>, path: &str, methods: &Vec<String>)
    ensures
        views(final(routes)@) == views(old(routes)@) + routes_of_path(path@, views(methods@)),
{
    let ghost start = routes@;
    let ghost all = routes_of_path(path@, views(methods@));
    let mut i: usize = 0;
    assert(views(start) + all.take(0) =~= views(start));
    while i < methods.len()
        invariant
            i <= methods@.len(),
            all == routes_of_path(path@, views(methods@)),
            views(routes@) == views(start) + all.take(i as int),
        decreases methods@.len() - i,
    {
        let route = Route { method: methods[i].clone(), path: path.to_string() };
        let ghost before = routes@;
        routes.push(route);
        proof {
            lemma_views_push(before, route);
            assert(all[i as int] =~= route@);
            assert(views(start) + all.take(i + 1) =~= (views(start) + all.take(i as int)).push(
                route@,
            ));
        }
        i = i + 1;
    }
    assert(all.take(i as int) =~= all);
}

fn add_prefix_routes(
    routes: &mut Vec<Route>,
    prefix: &str,
    paths: &Vec<String>,
    methods: &Vec<String>,
)
    ensures
        views(final(routes)@) == views(old(routes)@) + routes_of_paths(
            prefix@,
            views(paths@),
            views(methods@),
        ),
{
    let ghost start = routes@;
    let ghost all = views(paths@);
    let mut i: usize = 0;
    assert(all.skip(0) =~= all);
    while i < paths.len()
        invariant
            i <= paths@.len(),
            all == views(paths@),
            views(start) + routes_of_paths(prefix@, all, views(methods@)) == views(routes@)
                + routes_of_paths(prefix@, all.skip(i as int), views(methods@)),
        decreases paths@.len() - i,
    {
        let ghost before = routes@;
        assert(all.skip(i as int)[0] == paths@[i as int]@);
        assert(all.skip(i as int).skip(1) =~= all.skip(i + 1));
        let path = combine_paths(prefix, paths[i].as_str());
        add_path_routes(routes, path.as_str(), methods);
        proof {
            let rest = routes_of_paths(prefix@, all.skip(i + 1), views(methods@));
            assert(views(before) + (routes_of_path(path@, views(methods@)) + rest) =~= views(
                routes@,
            ) + rest);
        }
        i = i + 1;
    }
    assert(views(routes@) + Seq::<RouteView>::empty() =~= views(routes@));
}

fn add_annotation_routes(
    tree: &SyntaxTree,
    annotation: usize,
    prefixes: &Vec<String>,
    routes: &mut Vec<Route>,
)
    requires
        tree.wf(),
        annotation < tree@.nodes.len(),
    ensures
        views(final(routes)@) == views(old(routes)@) + annotation_routes(
            tree@,
            annotation as int,
            views(prefixes@),
        ),
{
    let ghost start = routes@;
    assert(views(start) + Seq::<RouteView>::empty() =~= views(start));
    let name = identifier_of(tree, annotation);
    if same(name.as_str(), "RequestMapping") || same(name.as_str(), "GetMapping") || same(
        name.as_str(),
        "PostMapping",
    ) || same(name.as_str(), "PutMapping") || same(name.as_str(), "DeleteMapping") || same(
        name.as_str(),
        "PatchMapping",
    ) {
        let mut paths = extract_annotation_paths(tree, annotation);
        let methods = extract_request_methods(tree, annotation);
        assert(views(paths@).len() == paths@.len());
        if paths.len() == 0 {
            paths.push(String::new());
            assert(views(paths@) =~= seq![Seq::<char>::empty()]);
        }
        let ghost all = views(prefixes@);
        let mut i: usize = 0;
        assert(all.skip(0) =~= all);
        while i < prefixes.len()
            invariant
                i <= prefixes@.len(),
                all == views(prefixes@),
                views(start) + routes_of_prefixes(all, views(paths@), views(methods@)) == views(
                    routes@,
                ) + routes_of_prefixes(all.skip(i as int), views(paths@), views(methods@)),
            decreases prefixes@.len() - i,
        {
            let ghost before = routes@;
            assert(all.skip(i as int)[0] == prefixes@[i as int]@);
            assert(all.skip(i as int).skip(1) =~= all.skip(i + 1));
            add_prefix_routes(routes, prefixes[i].as_str(), &paths, &methods);
            proof {
                let rest = routes_of_prefixes(all.skip(i + 1), views(paths@), views(methods@));
                assert(views(before) + (routes_of_paths(
                    prefixes@[i as int]@,
                    views(paths@),
                    views(methods@),
                ) + rest) =~= views(routes@) + rest);
            }
            i = i + 1;
        }
        assert(views(routes@) + Seq::<RouteView>::empty() =~= views(routes@));
    }
}

fn routes_of_method(tree: &SyntaxTree, at: usize, prefixes: &Vec<String>) -> (routes: Vec<Route>)
    requires
        tree.wf(),
        at < tree@.nodes.len(),
    ensures
        views(routes@) == annotations_routes(
            tree@,
            annotations_of(tree@, at as int),
            views(prefixes@),
        ),
{
    let annotations = find_annotations(tree, at);
    let ghost all = annotations_of(tree@, at as int);
    let mut routes: Vec<Route> = Vec::new();
    let mut i: usize = 0;
    assert(all.skip(0) =~= all);
    assert(views(routes@) + annotations_routes(tree@, all, views(prefixes@))
        =~= annotations_routes(tree@, all, views(prefixes@)));
    while i < annotations.len()
        invariant
            tree.wf(),
            i <= annotations@.len(),
            all == places(annotations@),
            within(annotations@, tree@.nodes.len() as int),
            annotations_routes(tree@, all, views(prefixes@)) == views(routes@)
                + annotations_routes(tree@, all.skip(i as int), views(prefixes@)),
        decreases annotations@.len() - i,
    {
        let ghost before = routes@;
        assert(all.skip(i as int)[0] == annotations@[i as int] as int);
        assert(all.skip(i as int).skip(1) =~= all.skip(i + 1));
        add_annotation_routes(tree, annotations[i], prefixes, &mut routes);
        proof {
            let rest = annotations_routes(tree@, all.skip(i + 1), views(prefixes@));
            assert(views(before) + (annotation_routes(
                tree@,
                annotations@[i as int] as int,
                views(prefixes@),
            ) + rest) =~= views(routes@) + rest);
        }
        i = i + 1;
    }
    assert(views(routes@) + Seq::<RouteView>::empty() =~= views(routes@));
    routes
}

fn add_routes(
    tree: &SyntaxTree,
    at: usize,
    file_path: &str,
    qualified: &str,
    routes: &Vec<Route>,
    out: &mut Extraction,
)
    requires
        tree.wf(),
        at < tree@.nodes.len(),
    ensures
        final(out)@ == with_routes(
            tree@,
            at as int,
            file_path@,
            qualified@,
            views(routes@),
            old(out)@,
        ),
{
    let ghost start = out@;
    let ghost all = views(routes@);
    let mut i: usize = 0;
    assert(all.skip(0) =~= all);
    while i < routes.len()
        invariant
            tree.wf(),
            at < tree@.nodes.len(),
            i <= routes@.len(),
            all == views(routes@),
            with_routes(tree@, at as int, file_path@, qualified@, all, start) == with_routes(
                tree@,
                at as int,
                file_path@,
                qualified@,
                all.skip(i as int),
                out@,
            ),
        decreases routes@.len() - i,
    {
        assert(all.skip(i as int)[0] == routes@[i as int]@);
        assert(all.skip(i as int).skip(1) =~= all.skip(i + 1));
        let name = join3(routes[i].method.as_str(), " ", routes[i].path.as_str());
        let mut id = join3(file_path, "::", qualified);
        id.append("::route::");
        id.append(name.as_str());
        let text = get_signature(tree, at);
        let node = make_symbol(
            tree,
            at,
            file_path,
            id.clone(),
            name.clone(),
            "route",
            name.clone(),
            text,
        );
        let mut call = raw_call(tree, at, id.as_str(), qualified.to_string());
        call.relationship_kind = "route_handler".to_string();
        call.target_qualified_hint = Some(qualified.to_string());
        call.resolution_hint = Some(6);
        assert(node@ == route_symbol(
            tree@,
            at as int,
            file_path@,
            qualified@,
            all.skip(i as int)[0],
        ));
        assert(call@ =~= route_call(
            tree@,
            at as int,
            file_path@,
            qualified@,
            all.skip(i as int)[0],
        ));
        out.add_node(node);
        out.add_call(call);
        i = i + 1;
    }
}

fn add_receiver(
    call: RawCall,
    method: &str,
    receiver: &str,
    file: &JavaContext,
    place: JavaPlace,
) -> (typed: RawCall)
    requires
        call.import_hint is None,
    ensures
        typed@ == with_receiver(call@, method@, receiver@, file@, place@),
{
    let mut typed = call;
    typed.receiver_expr = Some(receiver.to_string());
    if let Some(types) = place.types {
        if let Some(receiver_type) = types.get(receiver) {
            typed.receiver_type = Some(receiver_type.clone());
            typed.import_hint = find_import_hint(receiver_type.as_str(), file.imports);
            if let Some(service) = grpc_client_service(receiver_type.as_str()) {
                let mut target = join3("grpc::", service.as_str(), "::");
                target.append(method);
                typed.relationship_kind = "grpc_calls".to_string();
                typed.target_qualified_hint = Some(target);
                typed.resolution_hint = Some(8);
            }
        }
    }
    if typed.import_hint.is_none() {
        typed.import_hint = find_import_hint(receiver, file.imports);
    }
    assert(typed@ =~= with_receiver(call@, method@, receiver@, file@, place@));
    typed
}

fn call_of(tree: &SyntaxTree, at: usize, file: &JavaContext, place: JavaPlace) -> (call: Option<
    RawCall,
>)
    requires
        tree.wf(),
        at < tree@.nodes.len(),
    ensures
        match call {
            Some(call) => java_call(tree@, at as int, file@, place@) == Some(call@),
            None => java_call(tree@, at as int, file@, place@) is None,
        },
{
    let caller = match place.caller {
        Some(caller) => caller,
        None => {
            return None;
        },
    };
    if tree.is_kind(at, "method_invocation") {
        match tree.child_by_field_name(at, "name") {
            Some(name) => {
                let method = tree.text(name);
                let mut call = raw_call(tree, at, caller, method.clone());
                call.call_kind = Some("method".to_string());
                call.package_or_namespace = owned(file.package);
                let ghost plain = call@;
                assert(plain =~= (RawCallView {
                    call_kind: Some("method"@),
                    package_or_namespace: file@.package,
                    ..call_at(tree@, at as int, caller@, method@)
                }));
                if let Some(object) = tree.child_by_field_name(at, "object") {
                    let receiver = tree.text_for_node(object);
                    if !receiver.as_str().is_empty() {
                        call = add_receiver(call, method.as_str(), receiver.as_str(), file, place);
                    }
                }
                Some(call)
            },
            None => None,
        }
    } else if tree.is_kind(at, "object_creation_expression") {
        match tree.child_by_field_name(at, "type") {
            Some(type_at) => {
                let created = tree.text(type_at);
                let mut call = raw_call(tree, at, caller, created.clone());
                call.call_kind = Some("constructor".to_string());
                call.import_hint = find_import_hint(created.as_str(), file.imports);
                call.package_or_namespace = owned(file.package);
                call.receiver_type = Some(created);
                assert(Some(call@) =~= creation(tree@, at as int, caller@, file@));
                Some(call)
            },
            None => None,
        }
    } else {
        None
    }
}

fn visit_type(
    tree: &SyntaxTree,
    at: usize,
    end: usize,
    file: &JavaContext,
    place: JavaPlace,
    out: &mut Extraction,
)
    requires
        tree.wf(),
        at < end <= tree@.nodes.len(),
        is_type_declaration(tree@.nodes[at as int].kind),
    ensures
        final(out)@ == java_walk(
            tree@,
            at + 1,
            end as int,
            file@,
            java_scope(tree@, at as int, file@, place@),
            java_here(tree@, at as int, file@, place@, old(out)@),
        ),
    decreases end - at, 0int,
{
    let types = collect_java_types(tree, at);
    match name_of_declaration(tree, at) {
        Some(name) => {
            let qualified = match place.parent {
                Some(parent) => join3(parent, "::", name.as_str()),
                None => qualified_name(file.package, name.as_str()),
            };
            let kind = if tree.is_kind(at, "class_declaration") {
                "class"
            } else {
                "interface"
            };
            let node = declared_symbol(
                tree,
                at,
                file.file_path,
                name,
                kind,
                qualified.clone(),
            );
            out.add_node(node);
            let own = prefixes_of(tree, at);
            let prefixes: Option<&Vec<String>> = match &own {
                Some(own) => Some(own),
                None => place.prefixes,
            };
            let inner = JavaPlace {
                parent: Some(qualified.as_str()),
                caller: None,
                prefixes,
                types: Some(&types),
            };
            assert(inner@ =~= type_scope(tree@, at as int, file@, place@));
            traverse_java(tree, at + 1, end, file, inner, out);
        },
        None => {
            let inner = JavaPlace {
                parent: place.parent,
                caller: place.caller,
                prefixes: place.prefixes,
                types: Some(&types),
            };
            assert(inner@ =~= type_scope(tree@, at as int, file@, place@));
            traverse_java(tree, at + 1, end, file, inner, out);
        },
    }
}

fn visit_method(
    tree: &SyntaxTree,
    at: usize,
    end: usize,
    file: &JavaContext,
    place: JavaPlace,
    out: &mut Extraction,
)
    requires
        tree.wf(),
        at < end <= tree@.nodes.len(),
        !is_type_declaration(tree@.nodes[at as int].kind),
        is_method(tree@.nodes[at as int].kind),
    ensures
        final(out)@ == java_walk(
            tree@,
            at + 1,
            end as int,
            file@,
            java_scope(tree@, at as int, file@, place@),
            java_here(tree@, at as int, file@, place@, old(out)@),
        ),
    decreases end - at, 0int,
{
    let own = collect_java_types(tree, at);
    let types = match place.types {
        Some(outer) => outer.around(&own),
        None => own,
    };
    match name_of_declaration(tree, at) {
        Some(name) => {
            let qualified = qualified_name(place.parent, name.as_str());
            let is_method_declaration = tree.is_kind(at, "method_declaration");
            let kind = if is_method_declaration {
                "method"
            } else {
                "constructor"
            };
            let id = join3(file.file_path, "::", qualified.as_str());
            let node = declared_symbol(
                tree,
                at,
                file.file_path,
                name,
                kind,
                qualified.clone(),
            );
            out.add_node(node);
            if is_method_declaration {
                if let Some(prefixes) = place.prefixes {
                    let routes = routes_of_method(tree, at, prefixes);
                    add_routes(tree, at, file.file_path, qualified.as_str(), &routes, out);
                }
            }
            assert(out@ == java_here(tree@, at as int, file@, place@, old(out)@));
            let inner = JavaPlace {
                parent: place.parent,
                caller: Some(id.as_str()),
                prefixes: place.prefixes,
                types: Some(&types),
            };
            assert(inner@ =~= method_scope(tree@, at as int, file@, place@));
            traverse_java(tree, at + 1, end, file, inner, out);
        },
        None => {
            let inner = JavaPlace {
                parent: place.parent,
                caller: place.caller,
                prefixes: place.prefixes,
                types: Some(&types),
            };
            assert(inner@ =~= method_scope(tree@, at as int, file@, place@));
            traverse_java(tree, at + 1, end, file, inner, out);
        },
    }
}

/// Adds what the subtrees from `from` up to `limit` hold: their symbols, the routes of
/// controllers, and the calls made within a method.
pub fn traverse_java(
    tree: &SyntaxTree,
    from: usize,
    limit: usize,
    file: &JavaContext,
    place: JavaPlace,
    out: &mut Extraction,
)
    requires
        tree.wf(),
        from <= limit <= tree@.nodes.len(),
    ensures
        final(out)@ == java_walk(
            tree@,
            from as int,
            limit as int,
            file@,
            place@,
            old(out)@,
        ),
    decreases limit - from, 1int,
{
    let mut at: usize = from;
    let ghost start = out@;
    while at < limit
        invariant
            tree.wf(),
            from <= at <= limit <= tree@.nodes.len(),
            java_walk(tree@, from as int, limit as int, file@, place@, start) == java_walk(
                tree@,
                at as int,
                limit as int,
                file@,
                place@,
                out@,
            ),
        decreases limit - at,
    {
        let end = tree.subtree_end(at, limit);
        if tree.is_kind(at, "class_declaration") || tree.is_kind(at, "interface_declaration") {
            visit_type(tree, at, end, file, place, out);
        } else if tree.is_kind(at, "method_declaration") || tree.is_kind(
            at,
            "constructor_declaration",
        ) {
            visit_method(tree, at, end, file, place, out);
        } else {
            if let Some(call) = call_of(tree, at, file, place) {
                out.add_call(call);
            }
            traverse_java(tree, at + 1, end, file, place, out);
        }
        at = end;
    }
}

} // verus!
