//! The relations that Java frameworks make between symbols: injection, bound
//! configuration, events, and the endpoints of remote services. Each relation
//! carries the tier of its evidence; none counts as an exact match.

pub mod laws;

use vstd::prelude::*;
use crate::db::{NodeView, RawCallView};
use crate::parser::common::{
    call_at, get_signature, make_symbol, raw_call, signature, symbol_id, symbol_with, with_call,
    with_node, Extraction, ExtractionView,
};
use crate::parser::java::{is_mapping, type_qualified};
use crate::parser::java_syntax::{
    annotations_of, collect_java_types, extract_string_literal_value, find_annotations,
    is_type_declaration, java_types, literal_value, within, TypeTable,
};
use crate::parser::syntax::{
    child_in_field, child_of_kind, children, descendants, end_of, lemma_roots_step, places, roots,
    subtree_end, text_at, trimmed_at, SyntaxTree, TreeView,
};
use crate::text::{
    after_last, before_first, first_part, first_word, join3, last_part, leading_word, opt_str,
    opt_text, parts_of, same, split, strip_prefix, strip_suffix, trim, trimmed, views,
    without_prefix, without_suffix,
};

verus! {

// ---------------------------------------------------------------------------
// Annotations

/// The name of an annotation.
pub open spec fn annotation_name(tree: TreeView, annotation: int) -> Option<Seq<char>> {
    match child_of_kind(tree, annotation, "identifier"@) {
        Some(name) => Some(trimmed_at(tree, name)),
        None => None,
    }
}

/// One of the annotations has one of the names.
pub open spec fn any_named(
    tree: TreeView,
    annotations: Seq<int>,
    names: spec_fn(Seq<char>) -> bool,
) -> bool {
    exists|i: int|
        0 <= i < annotations.len() && annotation_name(tree, #[trigger] annotations[i]) is Some
            && names(annotation_name(tree, annotations[i])->0)
}

/// The names of the annotations that make a class a component of the framework.
pub open spec fn is_component(name: Seq<char>) -> bool {
    ||| name == "Component"@
    ||| name == "Service"@
    ||| name == "Repository"@
    ||| name == "Controller"@
    ||| name == "RestController"@
    ||| name == "Configuration"@
}

/// The names of the annotations that ask for an injection.
pub open spec fn is_injection(name: Seq<char>) -> bool {
    name == "Autowired"@ || name == "Inject"@ || name == "Resource"@
}

/// The declaration at `at` has an annotation with one of the names.
pub open spec fn annotated(tree: TreeView, at: int, names: spec_fn(Seq<char>) -> bool) -> bool {
    any_named(tree, annotations_of(tree, at), names)
}

/// The first string in the arguments of the first annotation of the name that has one.
pub open spec fn literal_among(tree: TreeView, annotations: Seq<int>, name: Seq<char>) -> Option<
    Seq<char>,
>
    decreases annotations.len(),
{
    if annotations.len() == 0 {
        None
    } else {
        let literals = descendants(tree, annotations[0], "string_literal"@);
        if annotation_name(tree, annotations[0]) == Some(name) && literals.len() > 0 {
            Some(literal_value(text_at(tree, literals[0])))
        } else {
            literal_among(tree, annotations.skip(1), name)
        }
    }
}

/// The first string that an annotation of the declaration at `at` is given.
pub open spec fn annotation_literal(tree: TreeView, at: int, name: Seq<char>) -> Option<Seq<char>> {
    literal_among(tree, annotations_of(tree, at), name)
}

/// The key of a placeholder `${key}`.
pub open spec fn placeholder_key(value: Seq<char>) -> Option<Seq<char>> {
    match strip_prefix(value, "${"@) {
        Some(rest) => strip_suffix(rest, "}"@),
        None => None,
    }
}

/// The key of the placeholder that an annotation of the declaration at `at` is given.
pub open spec fn annotation_placeholder(tree: TreeView, at: int, name: Seq<char>) -> Option<
    Seq<char>,
> {
    match annotation_literal(tree, at, name) {
        Some(value) => placeholder_key(value),
        None => None,
    }
}

/// The class that a listener's annotation names in its arguments.
pub open spec fn listened_class(text: Seq<char>) -> Option<Seq<char>> {
    let parts = split(text, "("@);
    if parts.len() > 1 && trim(before_first(parts[1], ".class"@)).len() > 0 {
        Some(trim(before_first(parts[1], ".class"@)))
    } else {
        None
    }
}

/// The class that the first listener's annotation with one names.
pub open spec fn listened_among(tree: TreeView, annotations: Seq<int>) -> Option<Seq<char>>
    decreases annotations.len(),
{
    if annotations.len() == 0 {
        None
    } else if annotation_name(tree, annotations[0]) == Some("EventListener"@) && listened_class(
        trimmed_at(tree, annotations[0]),
    ) is Some {
        listened_class(trimmed_at(tree, annotations[0]))
    } else {
        listened_among(tree, annotations.skip(1))
    }
}

/// The type of the first parameter of a method.
pub open spec fn first_parameter(tree: TreeView, at: int) -> Option<Seq<char>> {
    let parameters = descendants(tree, at, "formal_parameter"@);
    if parameters.len() > 0 {
        type_of(tree, parameters[0])
    } else {
        None
    }
}

/// The text of the type of a declaration.
pub open spec fn type_of(tree: TreeView, at: int) -> Option<Seq<char>> {
    match child_in_field(tree, at, "type"@) {
        Some(type_at) => Some(trimmed_at(tree, type_at)),
        None => None,
    }
}

/// The event that a listener at `at` consumes: the class its annotation names, or else
/// the type of its parameter.
pub open spec fn consumed_event(tree: TreeView, at: int) -> Option<Seq<char>> {
    match listened_among(tree, annotations_of(tree, at)) {
        Some(event) => Some(event),
        None => first_parameter(tree, at),
    }
}

/// The service that a generated base class belongs to, by the signature of the class
/// that extends it.
pub open spec fn extended_service(text: Seq<char>) -> Option<Seq<char>> {
    let parts = split(text, "extends "@);
    if parts.len() > 1 {
        match first_word(parts[1]) {
            Some(word) => Some(before_first(word, "Grpc."@)),
            None => None,
        }
    } else {
        None
    }
}

fn name_of_annotation(tree: &SyntaxTree, annotation: usize) -> (name: Option<String>)
    requires
        tree.wf(),
        annotation < tree@.nodes.len(),
    ensures
        opt_text(name) == annotation_name(tree@, annotation as int),
{
    match tree.find_child_by_kind(annotation, "identifier") {
        Some(name) => Some(tree.text_for_node(name)),
        None => None,
    }
}

/// The groups of annotation names that declarations are asked for.
#[derive(Clone, Copy, PartialEq, Eq)]
enum NameGroup {
    Component,
    Injection,
    Mapping,
    GrpcService,
    EventListener,
}

spec fn group_names(group: NameGroup) -> spec_fn(Seq<char>) -> bool {
    match group {
        NameGroup::Component => |name: Seq<char>| is_component(name),
        NameGroup::Injection => |name: Seq<char>| is_injection(name),
        NameGroup::Mapping => |name: Seq<char>| is_mapping(name),
        NameGroup::GrpcService => |name: Seq<char>| name == "GrpcService"@,
        NameGroup::EventListener => |name: Seq<char>| name == "EventListener"@,
    }
}

fn in_group(name: &str, group: NameGroup) -> (found: bool)
    ensures
        found == group_names(group)(name@),
{
    match group {
        NameGroup::Component => same(name, "Component") || same(name, "Service") || same(
            name,
            "Repository",
        ) || same(name, "Controller") || same(name, "RestController") || same(
            name,
            "Configuration",
        ),
        NameGroup::Injection => same(name, "Autowired") || same(name, "Inject") || same(
            name,
            "Resource",
        ),
        NameGroup::Mapping => same(name, "RequestMapping") || same(name, "GetMapping") || same(
            name,
            "PostMapping",
        ) || same(name, "PutMapping") || same(name, "DeleteMapping") || same(name, "PatchMapping"),
        NameGroup::GrpcService => same(name, "GrpcService"),
        NameGroup::EventListener => same(name, "EventListener"),
    }
}

fn has_annotation(tree: &SyntaxTree, at: usize, group: NameGroup) -> (found: bool)
    requires
        tree.wf(),
        at < tree@.nodes.len(),
    ensures
        found == annotated(tree@, at as int, group_names(group)),
{
    let annotations = find_annotations(tree, at);
    let ghost all = annotations_of(tree@, at as int);
    let mut i: usize = 0;
    while i < annotations.len()
        invariant
            tree.wf(),
            i <= annotations@.len(),
            all == annotations_of(tree@, at as int),
            all == places(annotations@),
            within(annotations@, tree@.nodes.len() as int),
            forall|k: int|
                0 <= k < i ==> !(annotation_name(tree@, #[trigger] all[k]) is Some && group_names(
                    group,
                )(annotation_name(tree@, all[k])->0)),
        decreases annotations@.len() - i,
    {
        assert(all[i as int] == annotations@[i as int] as int);
        if let Some(name) = name_of_annotation(tree, annotations[i]) {
            if in_group(name.as_str(), group) {
                return true;
            }
        }
        i = i + 1;
    }
    false
}

fn literal_of(tree: &SyntaxTree, at: usize, name: &str) -> (value: Option<String>)
    requires
        tree.wf(),
        at < tree@.nodes.len(),
    ensures
        opt_text(value) == annotation_literal(tree@, at as int, name@),
{
    let annotations = find_annotations(tree, at);
    let ghost all = annotations_of(tree@, at as int);
    let mut i: usize = 0;
    assert(all.skip(0) =~= all);
    while i < annotations.len()
        invariant
            tree.wf(),
            i <= annotations@.len(),
            all == annotations_of(tree@, at as int),
            all == places(annotations@),
            within(annotations@, tree@.nodes.len() as int),
            literal_among(tree@, all, name@) == literal_among(tree@, all.skip(i as int), name@),
        decreases annotations@.len() - i,
    {
        let annotation = annotations[i];
        assert(all.skip(i as int)[0] == annotation as int);
        assert(all.skip(i as int).skip(1) =~= all.skip(i + 1));
        let named = match name_of_annotation(tree, annotation) {
            Some(own) => same(own.as_str(), name),
            None => false,
        };
        let literals = tree.descendants_of_kind(annotation, "string_literal");
        assert(places(literals@).len() == literals@.len());
        if named && literals.len() > 0 {
            assert(places(literals@)[0] == literals@[0] as int);
            return Some(extract_string_literal_value(tree, literals[0]));
        }
        i = i + 1;
    }
    None
}

fn placeholder_of(tree: &SyntaxTree, at: usize, name: &str) -> (key: Option<String>)
    requires
        tree.wf(),
        at < tree@.nodes.len(),
    ensures
        opt_text(key) == annotation_placeholder(tree@, at as int, name@),
{
    match literal_of(tree, at, name) {
        Some(value) => match without_prefix(value.as_str(), "${") {
            Some(rest) => without_suffix(rest.as_str(), "}"),
            None => None,
        },
        None => None,
    }
}

fn class_listened_to(text: &str) -> (class: Option<String>)
    ensures
        opt_text(class) == listened_class(text@),
{
    proof {
        reveal_strlit("(");
    }
    let parts = parts_of(text, "(");
    assert(views(parts@).len() == parts@.len());
    if parts.len() > 1 {
        assert(views(parts@)[1] == parts@[1]@);
        let class = trimmed(first_part(parts[1].as_str(), ".class").as_str());
        if class.as_str().is_empty() {
            None
        } else {
            Some(class)
        }
    } else {
        None
    }
}

fn event_listener_type(tree: &SyntaxTree, at: usize) -> (event: Option<String>)
    requires
        tree.wf(),
        at < tree@.nodes.len(),
    ensures
        opt_text(event) == listened_among(tree@, annotations_of(tree@, at as int)),
{
    let annotations = find_annotations(tree, at);
    let ghost all = annotations_of(tree@, at as int);
    let mut i: usize = 0;
    assert(all.skip(0) =~= all);
    while i < annotations.len()
        invariant
            tree.wf(),
            i <= annotations@.len(),
            all == annotations_of(tree@, at as int),
            all == places(annotations@),
            within(annotations@, tree@.nodes.len() as int),
            listened_among(tree@, all) == listened_among(tree@, all.skip(i as int)),
        decreases annotations@.len() - i,
    {
        let annotation = annotations[i];
        assert(all.skip(i as int)[0] == annotation as int);
        assert(all.skip(i as int).skip(1) =~= all.skip(i + 1));
        let named = match name_of_annotation(tree, annotation) {
            Some(own) => same(own.as_str(), "EventListener"),
            None => false,
        };
        if named {
            if let Some(class) = class_listened_to(tree.text_for_node(annotation).as_str()) {
                return Some(class);
            }
        }
        i = i + 1;
    }
    None
}

fn declared_type_of(tree: &SyntaxTree, at: usize) -> (text: Option<String>)
    requires
        tree.wf(),
        at < tree@.nodes.len(),
    ensures
        opt_text(text) == type_of(tree@, at as int),
{
    match tree.child_by_field_name(at, "type") {
        Some(type_at) => Some(tree.text_for_node(type_at)),
        None => None,
    }
}

fn first_parameter_type(tree: &SyntaxTree, at: usize) -> (text: Option<String>)
    requires
        tree.wf(),
        at < tree@.nodes.len(),
    ensures
        opt_text(text) == first_parameter(tree@, at as int),
{
    let parameters = tree.descendants_of_kind(at, "formal_parameter");
    assert(places(parameters@).len() == parameters@.len());
    if parameters.len() > 0 {
        assert(places(parameters@)[0] == parameters@[0] as int);
        declared_type_of(tree, parameters[0])
    } else {
        None
    }
}

/// The service of the class at `at`, by what it extends.
pub fn grpc_service_name(tree: &SyntaxTree, at: usize) -> (service: Option<String>)
    requires
        tree.wf(),
        at < tree@.nodes.len(),
    ensures
        opt_text(service) == extended_service(signature(tree@, at as int)),
{
    proof {
        reveal_strlit("extends ");
    }
    let text = get_signature(tree, at);
    let parts = parts_of(text.as_str(), "extends ");
    assert(views(parts@).len() == parts@.len());
    if parts.len() > 1 {
        assert(views(parts@)[1] == parts@[1]@);
        match leading_word(parts[1].as_str()) {
            Some(word) => Some(first_part(word.as_str(), "Grpc.")),
            None => None,
        }
    } else {
        None
    }
}

// ---------------------------------------------------------------------------
// Symbols and relations

/// Some symbol of the extraction has the id.
pub open spec fn has_id(nodes: Seq<NodeView>, id: Seq<char>) -> bool {
    exists|i: int| 0 <= i < nodes.len() && (#[trigger] nodes[i]).id == id
}

/// An extraction with the symbol of a framework's endpoint or key, unless one with its
/// id is there.
pub open spec fn with_framework_node(
    tree: TreeView,
    anchor: int,
    file_path: Seq<char>,
    qualified: Seq<char>,
    kind: Seq<char>,
    out: ExtractionView,
) -> ExtractionView {
    if has_id(out.nodes, symbol_id(file_path, qualified)) {
        out
    } else {
        with_node(
            out,
            symbol_with(
                tree,
                anchor,
                file_path,
                symbol_id(file_path, qualified),
                after_last(qualified, "::"@),
                kind,
                qualified,
                signature(tree, anchor),
            ),
        )
    }
}

/// A relation of a framework, anchored at a node.
pub open spec fn relation(
    tree: TreeView,
    at: int,
    source_id: Seq<char>,
    target: Seq<char>,
    kind: Seq<char>,
    reverse: bool,
    target_hint: Option<Seq<char>>,
    tier: int,
) -> RawCallView {
    RawCallView {
        relationship_kind: kind,
        reverse_edge: reverse,
        target_qualified_hint: target_hint,
        resolution_hint: Some(tier),
        ..call_at(tree, at, source_id, target)
    }
}

fn push_framework_node(
    out: &mut Extraction,
    tree: &SyntaxTree,
    anchor: usize,
    file_path: &str,
    qualified: &str,
    kind: &str,
)
    requires
        tree.wf(),
        anchor < tree@.nodes.len(),
    ensures
        final(out)@ == with_framework_node(
            tree@,
            anchor as int,
            file_path@,
            qualified@,
            kind@,
            old(out)@,
        ),
{
    let id = join3(file_path, "::", qualified);
    let mut i: usize = 0;
    while i < out.nodes.len()
        invariant
            i <= out.nodes@.len(),
            *out == *old(out),
            id@ == symbol_id(file_path@, qualified@),
            forall|k: int| 0 <= k < i ==> (#[trigger] out@.nodes[k]).id != id@,
        decreases out.nodes@.len() - i,
    {
        assert(out@.nodes[i as int] == out.nodes@[i as int]@);
        if same(out.nodes[i].id.as_str(), id.as_str()) {
            assert(has_id(out@.nodes, id@));
            return;
        }
        i = i + 1;
    }
    assert(!has_id(out@.nodes, id@));
    let name = last_part(qualified, "::");
    let text = get_signature(tree, anchor);
    let node = make_symbol(
        tree,
        anchor,
        file_path,
        id,
        name,
        kind,
        qualified.to_string(),
        text,
    );
    out.add_node(node);
}

fn push_framework_relation(
    out: &mut Extraction,
    tree: &SyntaxTree,
    at: usize,
    source_id: &str,
    target: String,
    kind: &str,
    reverse: bool,
    target_hint: Option<String>,
    tier: i64,
)
    requires
        at < tree@.nodes.len(),
    ensures
        final(out)@ == with_call(
            old(out)@,
            relation(
                tree@,
                at as int,
                source_id@,
                target@,
                kind@,
                reverse,
                opt_text(target_hint),
                tier as int,
            ),
        ),
{
    let mut call = raw_call(tree, at, source_id, target);
    call.relationship_kind = kind.to_string();
    call.reverse_edge = reverse;
    call.target_qualified_hint = target_hint;
    call.resolution_hint = Some(tier);
    out.add_call(call);
}

// ---------------------------------------------------------------------------
// Classes

/// A class that relations are read from.
#[verifier::ext_equal]
pub struct FrameworkClass {
    pub at: int,
    pub file_path: Seq<char>,
    pub name: Seq<char>,
    pub qualified: Seq<char>,
    pub component: bool,
}

/// The id of a class.
pub open spec fn class_id(class: FrameworkClass) -> Seq<char> {
    symbol_id(class.file_path, class.qualified)
}

/// Those of `candidates` of the kind.
pub open spec fn among_of_kind(tree: TreeView, candidates: Seq<int>, kind: Seq<char>) -> Seq<int>
    decreases candidates.len(),
{
    if candidates.len() == 0 {
        seq![]
    } else if tree.nodes[candidates[0]].kind == kind {
        seq![candidates[0]] + among_of_kind(tree, candidates.skip(1), kind)
    } else {
        among_of_kind(tree, candidates.skip(1), kind)
    }
}

/// The members of the kind in the body of a class or interface.
pub open spec fn members(tree: TreeView, at: int, kind: Seq<char>) -> Seq<int> {
    match child_of_kind(tree, at, "class_body"@) {
        Some(body) => among_of_kind(tree, children(tree, body), kind),
        None => match child_of_kind(tree, at, "interface_body"@) {
            Some(body) => among_of_kind(tree, children(tree, body), kind),
            None => seq![],
        },
    }
}

/// An extraction with a configuration key that binds to a class.
pub open spec fn with_bound_key(
    tree: TreeView,
    anchor: int,
    key: Seq<char>,
    class: FrameworkClass,
    out: ExtractionView,
) -> ExtractionView {
    let qualified = "config::"@ + key + "::"@ + class.qualified;
    with_call(
        with_framework_node(tree, anchor, class.file_path, qualified, "config_key"@, out),
        relation(
            tree,
            anchor,
            symbol_id(class.file_path, qualified),
            class.name,
            "configuration_binds"@,
            false,
            Some(class.qualified),
            6,
        ),
    )
}

/// An extraction with what the configuration properties of a class bind.
pub open spec fn with_properties(tree: TreeView, class: FrameworkClass, out: ExtractionView) -> ExtractionView {
    match annotation_literal(tree, class.at, "ConfigurationProperties"@) {
        Some(prefix) => with_bound_key(tree, class.at, prefix, class, out),
        None => out,
    }
}

/// The relation of a type that is injected into a class.
pub open spec fn injection(
    tree: TreeView,
    at: int,
    class: FrameworkClass,
    injected: Seq<char>,
    tier: int,
) -> RawCallView {
    relation(tree, at, class_id(class), injected, "injected_into"@, true, None, tier)
}

/// An extraction with what a field of a component asks for.
pub open spec fn with_field(
    tree: TreeView,
    field: int,
    class: FrameworkClass,
    out: ExtractionView,
) -> ExtractionView {
    let injected = if class.component && annotated(
        tree,
        field,
        |name: Seq<char>| is_injection(name),
    ) {
        match type_of(tree, field) {
            Some(text) => with_call(out, injection(tree, field, class, text, 6)),
            None => out,
        }
    } else {
        out
    };
    if class.component {
        match annotation_placeholder(tree, field, "Value"@) {
            Some(key) => with_bound_key(tree, field, key, class, injected),
            None => injected,
        }
    } else {
        injected
    }
}

/// An extraction with what the fields of a class ask for.
pub open spec fn with_fields(
    tree: TreeView,
    fields: Seq<int>,
    class: FrameworkClass,
    out: ExtractionView,
) -> ExtractionView
    decreases fields.len(),
{
    if fields.len() == 0 {
        out
    } else {
        with_fields(tree, fields.skip(1), class, with_field(tree, fields[0], class, out))
    }
}

/// An extraction with the injections that parameters ask for.
pub open spec fn with_parameters(
    tree: TreeView,
    parameters: Seq<int>,
    class: FrameworkClass,
    tier: int,
    out: ExtractionView,
) -> ExtractionView
    decreases parameters.len(),
{
    if parameters.len() == 0 {
        out
    } else {
        let here = match type_of(tree, parameters[0]) {
            Some(text) => with_call(out, injection(tree, parameters[0], class, text, tier)),
            None => out,
        };
        with_parameters(tree, parameters.skip(1), class, tier, here)
    }
}

/// An extraction with what a constructor asks for: one that is annotated, or the only
/// one of a component.
pub open spec fn with_constructor(
    tree: TreeView,
    constructor: int,
    only_one: bool,
    class: FrameworkClass,
    out: ExtractionView,
) -> ExtractionView {
    let explicit = annotated(tree, constructor, |name: Seq<char>| is_injection(name));
    if class.component && (explicit || only_one) {
        with_parameters(
            tree,
            descendants(tree, constructor, "formal_parameter"@),
            class,
            if explicit {
                6
            } else {
                7
            },
            out,
        )
    } else {
        out
    }
}

/// An extraction with what the constructors of a class ask for.
pub open spec fn with_constructors(
    tree: TreeView,
    constructors: Seq<int>,
    only_one: bool,
    class: FrameworkClass,
    out: ExtractionView,
) -> ExtractionView
    decreases constructors.len(),
{
    if constructors.len() == 0 {
        out
    } else {
        with_constructors(
            tree,
            constructors.skip(1),
            only_one,
            class,
            with_constructor(tree, constructors[0], only_one, class, out),
        )
    }
}

/// The event that an argument of a publication names, with the argument: an object that
/// is created, or a variable whose type is declared.
pub open spec fn published_event(
    tree: TreeView,
    arguments: Seq<int>,
    types: Map<Seq<char>, Seq<char>>,
) -> Option<(Seq<char>, int)>
    decreases arguments.len(),
{
    if arguments.len() == 0 {
        None
    } else {
        let at = arguments[0];
        if tree.nodes[at].kind == "object_creation_expression"@ {
            match type_of(tree, at) {
                Some(text) => Some((text, at)),
                None => None,
            }
        } else if tree.nodes[at].kind == "identifier"@ && types.dom().contains(
            trimmed_at(tree, at),
        ) {
            Some((types[trimmed_at(tree, at)], at))
        } else {
            published_event(tree, arguments.skip(1), types)
        }
    }
}

/// The event that an invocation publishes, with the argument that names it.
pub open spec fn publication(
    tree: TreeView,
    at: int,
    types: Map<Seq<char>, Seq<char>>,
) -> Option<(Seq<char>, int)> {
    match child_in_field(tree, at, "name"@) {
        Some(name) => if trimmed_at(tree, name) == "publishEvent"@ {
            match child_of_kind(tree, at, "argument_list"@) {
                Some(list) => published_event(tree, children(tree, list), types),
                None => None,
            }
        } else {
            None
        },
        None => None,
    }
}

/// An extraction with the events that invocations publish.
pub open spec fn with_publications(
    tree: TreeView,
    invocations: Seq<int>,
    method_id: Seq<char>,
    types: Map<Seq<char>, Seq<char>>,
    out: ExtractionView,
) -> ExtractionView
    decreases invocations.len(),
{
    if invocations.len() == 0 {
        out
    } else {
        let here = match publication(tree, invocations[0], types) {
            Some((event, anchor)) => with_call(
                out,
                relation(tree, anchor, method_id, event, "publishes_event"@, false, None, 7),
            ),
            None => out,
        };
        with_publications(tree, invocations.skip(1), method_id, types, here)
    }
}

/// The remote services of a class: the one its client calls, and the one it serves.
#[verifier::ext_equal]
pub struct Services {
    pub feign: Option<Seq<char>>,
    pub grpc: Option<Seq<char>>,
}

/// The remote services of the class at `at`.
pub open spec fn services_of(tree: TreeView, at: int) -> Services {
    Services {
        feign: annotation_literal(tree, at, "FeignClient"@),
        grpc: if annotated(tree, at, |name: Seq<char>| name == "GrpcService"@) {
            extended_service(signature(tree, at))
        } else {
            None
        },
    }
}

/// An extraction with the endpoint that a method of a client calls.
pub open spec fn with_feign(
    tree: TreeView,
    at: int,
    name: Seq<char>,
    service: Option<Seq<char>>,
    class: FrameworkClass,
    out: ExtractionView,
) -> ExtractionView {
    let qualified = class.qualified + "::"@ + name;
    match service {
        Some(service) => if annotated(tree, at, |name: Seq<char>| is_mapping(name)) {
            let endpoint = "feign::"@ + service + "::"@ + qualified;
            with_call(
                with_framework_node(tree, at, class.file_path, endpoint, "feign_endpoint"@, out),
                relation(
                    tree,
                    at,
                    symbol_id(class.file_path, qualified),
                    name,
                    "feign_calls"@,
                    false,
                    Some(endpoint),
                    6,
                ),
            )
        } else {
            out
        },
        None => out,
    }
}

/// An extraction with the endpoint that a method serves.
pub open spec fn with_grpc(
    tree: TreeView,
    at: int,
    name: Seq<char>,
    service: Option<Seq<char>>,
    class: FrameworkClass,
    out: ExtractionView,
) -> ExtractionView {
    match service {
        Some(service) => with_framework_node(
            tree,
            at,
            class.file_path,
            "grpc::"@ + service + "::"@ + name,
            "grpc_endpoint"@,
            out,
        ),
        None => out,
    }
}

/// An extraction with the event that a method consumes.
pub open spec fn with_listener(
    tree: TreeView,
    at: int,
    method_id: Seq<char>,
    out: ExtractionView,
) -> ExtractionView {
    if annotated(tree, at, |name: Seq<char>| name == "EventListener"@) {
        match consumed_event(tree, at) {
            Some(event) => with_call(
                out,
                relation(tree, at, method_id, event, "consumes_event"@, true, None, 6),
            ),
            None => out,
        }
    } else {
        out
    }
}

/// An extraction with the relations of one method.
pub open spec fn with_method(
    tree: TreeView,
    at: int,
    services: Services,
    class: FrameworkClass,
    out: ExtractionView,
) -> ExtractionView {
    match child_in_field(tree, at, "name"@) {
        Some(name_at) => {
            let name = trimmed_at(tree, name_at);
            let method_id = symbol_id(class.file_path, class.qualified + "::"@ + name);
            let called = with_feign(tree, at, name, services.feign, class, out);
            let served = with_grpc(tree, at, name, services.grpc, class, called);
            let consumed = with_listener(tree, at, method_id, served);
            with_publications(
                tree,
                descendants(tree, at, "method_invocation"@),
                method_id,
                java_types(tree, at),
                consumed,
            )
        },
        None => out,
    }
}

/// An extraction with the relations of methods.
pub open spec fn with_methods(
    tree: TreeView,
    methods: Seq<int>,
    services: Services,
    class: FrameworkClass,
    out: ExtractionView,
) -> ExtractionView
    decreases methods.len(),
{
    if methods.len() == 0 {
        out
    } else {
        with_methods(
            tree,
            methods.skip(1),
            services,
            class,
            with_method(tree, methods[0], services, class, out),
        )
    }
}

/// An extraction with all relations of a class.
pub open spec fn with_class(tree: TreeView, class: FrameworkClass, out: ExtractionView) -> ExtractionView {
    let constructors = members(tree, class.at, "constructor_declaration"@);
    let bound = with_properties(tree, class, out);
    let fields = with_fields(tree, members(tree, class.at, "field_declaration"@), class, bound);
    let constructed = with_constructors(
        tree,
        constructors,
        constructors.len() == 1,
        class,
        fields,
    );
    with_methods(
        tree,
        members(tree, class.at, "method_declaration"@),
        services_of(tree, class.at),
        class,
        constructed,
    )
}

/// The class or interface at `at`, within a parent or a package.
pub open spec fn framework_class(
    tree: TreeView,
    at: int,
    name_at: int,
    file_path: Seq<char>,
    package: Option<Seq<char>>,
    parent: Option<Seq<char>>,
) -> FrameworkClass {
    FrameworkClass {
        at,
        file_path,
        name: trimmed_at(tree, name_at),
        qualified: type_qualified(parent, package, trimmed_at(tree, name_at)),
        component: annotated(tree, at, |name: Seq<char>| is_component(name)),
    }
}

/// What the subtrees from `from` up to `limit` add to an extraction. Inside a class only
/// its own nested declarations are looked at.
pub open spec fn framework_walk(
    tree: TreeView,
    from: int,
    limit: int,
    file_path: Seq<char>,
    package: Option<Seq<char>>,
    parent: Option<Seq<char>>,
    types_only: bool,
    out: ExtractionView,
) -> ExtractionView
    decreases limit - from,
{
    if from >= limit {
        out
    } else {
        let end = subtree_end(tree, from, limit);
        if end <= from || end > limit {
            out
        } else {
            let here = if is_type_declaration(tree.nodes[from].kind) {
                match child_in_field(tree, from, "name"@) {
                    Some(name_at) => {
                        let class = framework_class(
                            tree,
                            from,
                            name_at,
                            file_path,
                            package,
                            parent,
                        );
                        framework_walk(
                            tree,
                            from + 1,
                            end,
                            file_path,
                            package,
                            Some(class.qualified),
                            true,
                            with_class(tree, class, out),
                        )
                    },
                    None => out,
                }
            } else if types_only {
                out
            } else {
                framework_walk(tree, from + 1, end, file_path, package, parent, false, out)
            };
            framework_walk(tree, end, limit, file_path, package, parent, types_only, here)
        }
    }
}

/// The relations that the classes of a file add to an extraction.
pub open spec fn framework_relationships(
    tree: TreeView,
    file_path: Seq<char>,
    package: Option<Seq<char>>,
    out: ExtractionView,
) -> ExtractionView {
    if tree.nodes.len() == 0 {
        out
    } else {
        framework_walk(tree, 1, end_of(tree, 0), file_path, package, None, false, out)
    }
}

struct ClassContext<'a> {
    at: usize,
    file_path: &'a str,
    name: &'a str,
    qualified: &'a str,
    component: bool,
}

impl<'a> View for ClassContext<'a> {
    type V = FrameworkClass;

    closed spec fn view(&self) -> FrameworkClass {
        FrameworkClass {
            at: self.at as int,
            file_path: self.file_path@,
            name: self.name@,
            qualified: self.qualified@,
            component: self.component,
        }
    }
}

fn of_kind(tree: &SyntaxTree, at: usize, kind: &str) -> (found: Vec<usize>)
    requires
        at < tree@.nodes.len(),
    ensures
        places(found@) == among_of_kind(tree@, children(tree@, at as int), kind@),
        within(found@, tree@.nodes.len() as int),
{
    let limit = tree.end(at);
    let mut next: usize = at + 1;
    let mut found: Vec<usize> = Vec::new();
    let ghost all = among_of_kind(tree@, children(tree@, at as int), kind@);
    assert(places(found@) + all =~= all);
    while next < limit
        invariant
            at < next <= limit <= tree@.nodes.len(),
            limit == end_of(tree@, at as int),
            within(found@, tree@.nodes.len() as int),
            all == places(found@) + among_of_kind(
                tree@,
                roots(tree@, next as int, limit as int),
                kind@,
            ),
        decreases limit - next,
    {
        proof {
            lemma_roots_step(tree@, next as int, limit as int);
        }
        let ghost before = found@;
        let after = tree.subtree_end(next, limit);
        if tree.is_kind(next, kind) {
            found.push(next);
            proof {
                let rest = among_of_kind(tree@, roots(tree@, after as int, limit as int), kind@);
                assert(places(found@) =~= places(before).push(next as int));
                assert(places(before) + (seq![next as int] + rest) =~= places(found@) + rest);
            }
        }
        next = after;
    }
    assert(places(found@) + Seq::<int>::empty() =~= places(found@));
    found
}

fn direct_children_of_kind(tree: &SyntaxTree, at: usize, kind: &str) -> (found: Vec<usize>)
    requires
        at < tree@.nodes.len(),
    ensures
        places(found@) == members(tree@, at as int, kind@),
        within(found@, tree@.nodes.len() as int),
{
    let body = match tree.find_child_by_kind(at, "class_body") {
        Some(body) => Some(body),
        None => tree.find_child_by_kind(at, "interface_body"),
    };
    match body {
        Some(body) => of_kind(tree, body, kind),
        None => {
            let none: Vec<usize> = Vec::new();
            assert(places(none@) =~= seq![]);
            none
        },
    }
}

fn bind_key(tree: &SyntaxTree, anchor: usize, key: &str, class: &ClassContext, out: &mut Extraction)
    requires
        tree.wf(),
        anchor < tree@.nodes.len(),
    ensures
        final(out)@ == with_bound_key(tree@, anchor as int, key@, class@, old(out)@),
{
    let mut qualified = join3("config::", key, "::");
    qualified.append(class.qualified);
    push_framework_node(out, tree, anchor, class.file_path, qualified.as_str(), "config_key");
    let id = join3(class.file_path, "::", qualified.as_str());
    push_framework_relation(
        out,
        tree,
        anchor,
        id.as_str(),
        class.name.to_string(),
        "configuration_binds",
        false,
        Some(class.qualified.to_string()),
        6,
    );
}

fn inject(
    tree: &SyntaxTree,
    at: usize,
    class: &ClassContext,
    injected: String,
    tier: i64,
    out: &mut Extraction,
)
    requires
        at < tree@.nodes.len(),
    ensures
        final(out)@ == with_call(
            old(out)@,
            injection(tree@, at as int, class@, injected@, tier as int),
        ),
{
    let id = join3(class.file_path, "::", class.qualified);
    push_framework_relation(
        out,
        tree,
        at,
        id.as_str(),
        injected,
        "injected_into",
        true,
        None,
        tier,
    );
}

fn add_field(tree: &SyntaxTree, field: usize, class: &ClassContext, out: &mut Extraction)
    requires
        tree.wf(),
        field < tree@.nodes.len(),
    ensures
        final(out)@ == with_field(tree@, field as int, class@, old(out)@),
{
    if class.component && has_annotation(tree, field, NameGroup::Injection) {
        if let Some(text) = declared_type_of(tree, field) {
            inject(tree, field, class, text, 6, out);
        }
    }
    if class.component {
        if let Some(key) = placeholder_of(tree, field, "Value") {
            bind_key(tree, field, key.as_str(), class, out);
        }
    }
}

fn add_constructor(
    tree: &SyntaxTree,
    constructor: usize,
    only_one: bool,
    class: &ClassContext,
    out: &mut Extraction,
)
    requires
        tree.wf(),
        constructor < tree@.nodes.len(),
    ensures
        final(out)@ == with_constructor(
            tree@,
            constructor as int,
            only_one,
            class@,
            old(out)@,
        ),
{
    let explicit = has_annotation(tree, constructor, NameGroup::Injection);
    if class.component && (explicit || only_one) {
        let tier: i64 = if explicit {
            6
        } else {
            7
        };
        let parameters = tree.descendants_of_kind(constructor, "formal_parameter");
        let ghost all = places(parameters@);
        let ghost start = out@;
        let mut i: usize = 0;
        assert(all.skip(0) =~= all);
        while i < parameters.len()
            invariant
                tree.wf(),
                i <= parameters@.len(),
                all == places(parameters@),
                within(parameters@, tree@.nodes.len() as int),
                with_parameters(tree@, all, class@, tier as int, start) == with_parameters(
                    tree@,
                    all.skip(i as int),
                    class@,
                    tier as int,
                    out@,
                ),
            decreases parameters@.len() - i,
        {
            assert(all.skip(i as int)[0] == parameters@[i as int] as int);
            assert(all.skip(i as int).skip(1) =~= all.skip(i + 1));
            if let Some(text) = declared_type_of(tree, parameters[i]) {
                inject(tree, parameters[i], class, text, tier, out);
            }
            i = i + 1;
        }
    }
}

fn event_of_argument(tree: &SyntaxTree, list: usize, types: &TypeTable) -> (event: Option<
    (String, usize),
>)
    requires
        tree.wf(),
        list < tree@.nodes.len(),
    ensures
        match event {
            Some((text, anchor)) => published_event(tree@, children(tree@, list as int), types@)
                == Some((text@, anchor as int)) && anchor < tree@.nodes.len(),
            None => published_event(tree@, children(tree@, list as int), types@) is None,
        },
{
    let limit = tree.end(list);
    let mut next: usize = list + 1;
    while next < limit
        invariant
            tree.wf(),
            list < next <= limit <= tree@.nodes.len(),
            limit == end_of(tree@, list as int),
            published_event(tree@, children(tree@, list as int), types@) == published_event(
                tree@,
                roots(tree@, next as int, limit as int),
                types@,
            ),
        decreases limit - next,
    {
        proof {
            lemma_roots_step(tree@, next as int, limit as int);
        }
        if tree.is_kind(next, "object_creation_expression") {
            return match declared_type_of(tree, next) {
                Some(text) => Some((text, next)),
                None => None,
            };
        }
        if tree.is_kind(next, "identifier") {
            if let Some(text) = types.get(tree.text_for_node(next).as_str()) {
                return Some((text.clone(), next));
            }
        }
        next = tree.subtree_end(next, limit);
    }
    None
}

fn event_published(tree: &SyntaxTree, at: usize, types: &TypeTable) -> (event: Option<
    (String, usize),
>)
    requires
        tree.wf(),
        at < tree@.nodes.len(),
    ensures
        match event {
            Some((text, anchor)) => publication(tree@, at as int, types@) == Some(
                (text@, anchor as int),
            ) && anchor < tree@.nodes.len(),
            None => publication(tree@, at as int, types@) is None,
        },
{
    match tree.child_by_field_name(at, "name") {
        Some(name) => {
            if same(tree.text_for_node(name).as_str(), "publishEvent") {
                match tree.find_child_by_kind(at, "argument_list") {
                    Some(list) => event_of_argument(tree, list, types),
                    None => None,
                }
            } else {
                None
            }
        },
        None => None,
    }
}

fn add_publications(tree: &SyntaxTree, at: usize, method_id: &str, out: &mut Extraction)
    requires
        tree.wf(),
        at < tree@.nodes.len(),
    ensures
        final(out)@ == with_publications(
            tree@,
            descendants(tree@, at as int, "method_invocation"@),
            method_id@,
            java_types(tree@, at as int),
            old(out)@,
        ),
{
    let types = collect_java_types(tree, at);
    let invocations = tree.descendants_of_kind(at, "method_invocation");
    let ghost all = places(invocations@);
    let ghost start = out@;
    let mut i: usize = 0;
    assert(all.skip(0) =~= all);
    while i < invocations.len()
        invariant
            tree.wf(),
            i <= invocations@.len(),
            all == places(invocations@),
            within(invocations@, tree@.nodes.len() as int),
            with_publications(tree@, all, method_id@, types@, start) == with_publications(
                tree@,
                all.skip(i as int),
                method_id@,
                types@,
                out@,
            ),
        decreases invocations@.len() - i,
    {
        assert(all.skip(i as int)[0] == invocations@[i as int] as int);
        assert(all.skip(i as int).skip(1) =~= all.skip(i + 1));
        if let Some((event, anchor)) = event_published(tree, invocations[i], &types) {
            push_framework_relation(
                out,
                tree,
                anchor,
                method_id,
                event,
                "publishes_event",
                false,
                None,
                7,
            );
        }
        i = i + 1;
    }
}

fn add_method(
    tree: &SyntaxTree,
    at: usize,
    feign: Option<&str>,
    grpc: Option<&str>,
    class: &ClassContext,
    out: &mut Extraction,
)
    requires
        tree.wf(),
        at < tree@.nodes.len(),
    ensures
        final(out)@ == with_method(
            tree@,
            at as int,
            (Services { feign: opt_str(feign), grpc: opt_str(grpc) }),
            class@,
            old(out)@,
        ),
{
    let name = match tree.child_by_field_name(at, "name") {
        Some(name) => tree.text_for_node(name),
        None => {
            return;
        },
    };
    let qualified = join3(class.qualified, "::", name.as_str());
    let method_id = join3(class.file_path, "::", qualified.as_str());
    if let Some(service) = feign {
        if has_annotation(tree, at, NameGroup::Mapping) {
            let mut endpoint = join3("feign::", service, "::");
            endpoint.append(qualified.as_str());
            push_framework_node(
                out,
                tree,
                at,
                class.file_path,
                endpoint.as_str(),
                "feign_endpoint",
            );
            push_framework_relation(
                out,
                tree,
                at,
                method_id.as_str(),
                name.clone(),
                "feign_calls",
                false,
                Some(endpoint),
                6,
            );
        }
    }
    if let Some(service) = grpc {
        let mut endpoint = join3("grpc::", service, "::");
        endpoint.append(name.as_str());
        push_framework_node(out, tree, at, class.file_path, endpoint.as_str(), "grpc_endpoint");
    }
    if has_annotation(tree, at, NameGroup::EventListener) {
        let event = match event_listener_type(tree, at) {
            Some(event) => Some(event),
            None => first_parameter_type(tree, at),
        };
        if let Some(event) = event {
            push_framework_relation(
                out,
                tree,
                at,
                method_id.as_str(),
                event,
                "consumes_event",
                true,
                None,
                6,
            );
        }
    }
    add_publications(tree, at, method_id.as_str(), out);
}

fn add_class(tree: &SyntaxTree, class: &ClassContext, out: &mut Extraction)
    requires
        tree.wf(),
        class.at < tree@.nodes.len(),
    ensures
        final(out)@ == with_class(tree@, class@, old(out)@),
{
    if let Some(prefix) = literal_of(tree, class.at, "ConfigurationProperties") {
        bind_key(tree, class.at, prefix.as_str(), class, out);
    }
    let ghost bound = out@;
    let fields = direct_children_of_kind(tree, class.at, "field_declaration");
    let ghost all_fields = places(fields@);
    let mut f: usize = 0;
    assert(all_fields.skip(0) =~= all_fields);
    while f < fields.len()
        invariant
            tree.wf(),
            f <= fields@.len(),
            all_fields == places(fields@),
            within(fields@, tree@.nodes.len() as int),
            with_fields(tree@, all_fields, class@, bound) == with_fields(
                tree@,
                all_fields.skip(f as int),
                class@,
                out@,
            ),
        decreases fields@.len() - f,
    {
        assert(all_fields.skip(f as int)[0] == fields@[f as int] as int);
        assert(all_fields.skip(f as int).skip(1) =~= all_fields.skip(f + 1));
        add_field(tree, fields[f], class, out);
        f = f + 1;
    }
    let ghost fielded = out@;
    let constructors = direct_children_of_kind(tree, class.at, "constructor_declaration");
    let ghost all_constructors = places(constructors@);
    let only_one = constructors.len() == 1;
    let mut c: usize = 0;
    assert(all_constructors.skip(0) =~= all_constructors);
    while c < constructors.len()
        invariant
            tree.wf(),
            c <= constructors@.len(),
            all_constructors == places(constructors@),
            within(constructors@, tree@.nodes.len() as int),
            with_constructors(tree@, all_constructors, only_one, class@, fielded)
                == with_constructors(
                tree@,
                all_constructors.skip(c as int),
                only_one,
                class@,
                out@,
            ),
        decreases constructors@.len() - c,
    {
        assert(all_constructors.skip(c as int)[0] == constructors@[c as int] as int);
        assert(all_constructors.skip(c as int).skip(1) =~= all_constructors.skip(c + 1));
        add_constructor(tree, constructors[c], only_one, class, out);
        c = c + 1;
    }
    let ghost constructed = out@;
    let feign_service = literal_of(tree, class.at, "FeignClient");
    let grpc_service = if has_annotation(tree, class.at, NameGroup::GrpcService) {
        grpc_service_name(tree, class.at)
    } else {
        None
    };
    let feign: Option<&str> = match &feign_service {
        Some(text) => Some(text.as_str()),
        None => None,
    };
    let grpc: Option<&str> = match &grpc_service {
        Some(text) => Some(text.as_str()),
        None => None,
    };
    let ghost services = Services { feign: opt_str(feign), grpc: opt_str(grpc) };
    assert(services =~= services_of(tree@, class@.at));
    let methods = direct_children_of_kind(tree, class.at, "method_declaration");
    let ghost all_methods = places(methods@);
    let mut m: usize = 0;
    assert(all_methods.skip(0) =~= all_methods);
    while m < methods.len()
        invariant
            tree.wf(),
            m <= methods@.len(),
            all_methods == places(methods@),
            within(methods@, tree@.nodes.len() as int),
            services == (Services { feign: opt_str(feign), grpc: opt_str(grpc) }),
            with_methods(tree@, all_methods, services, class@, constructed) == with_methods(
                tree@,
                all_methods.skip(m as int),
                services,
                class@,
                out@,
            ),
        decreases methods@.len() - m,
    {
        assert(all_methods.skip(m as int)[0] == methods@[m as int] as int);
        assert(all_methods.skip(m as int).skip(1) =~= all_methods.skip(m + 1));
        add_method(tree, methods[m], feign, grpc, class, out);
        m = m + 1;
    }
}

fn extract_class_framework_relationships(
    tree: &SyntaxTree,
    from: usize,
    limit: usize,
    file_path: &str,
    package: Option<&str>,
    parent: Option<&str>,
    types_only: bool,
    out: &mut Extraction,
)
    requires
        tree.wf(),
        from <= limit <= tree@.nodes.len(),
    ensures
        final(out)@ == framework_walk(
            tree@,
            from as int,
            limit as int,
            file_path@,
            opt_str(package),
            opt_str(parent),
            types_only,
            old(out)@,
        ),
    decreases limit - from,
{
    let mut at: usize = from;
    let ghost start = out@;
    while at < limit
        invariant
            tree.wf(),
            from <= at <= limit <= tree@.nodes.len(),
            framework_walk(
                tree@,
                from as int,
                limit as int,
                file_path@,
                opt_str(package),
                opt_str(parent),
                types_only,
                start,
            ) == framework_walk(
                tree@,
                at as int,
                limit as int,
                file_path@,
                opt_str(package),
                opt_str(parent),
                types_only,
                out@,
            ),
        decreases limit - at,
    {
        let end = tree.subtree_end(at, limit);
        if tree.is_kind(at, "class_declaration") || tree.is_kind(at, "interface_declaration") {
            if let Some(name_at) = tree.child_by_field_name(at, "name") {
                let name = tree.text_for_node(name_at);
                let qualified = match parent {
                    Some(parent) => join3(parent, "::", name.as_str()),
                    None => match package {
                        Some(package) => join3(package, "::", name.as_str()),
                        None => name.clone(),
                    },
                };
                let class = ClassContext {
                    at,
                    file_path,
                    name: name.as_str(),
                    qualified: qualified.as_str(),
                    component: has_annotation(tree, at, NameGroup::Component),
                };
                assert(class@ =~= framework_class(
                    tree@,
                    at as int,
                    name_at as int,
                    file_path@,
                    opt_str(package),
                    opt_str(parent),
                ));
                add_class(tree, &class, out);
                extract_class_framework_relationships(
                    tree,
                    at + 1,
                    end,
                    file_path,
                    package,
                    Some(qualified.as_str()),
                    true,
                    out,
                );
            }
        } else if !types_only {
            extract_class_framework_relationships(
                tree,
                at + 1,
                end,
                file_path,
                package,
                parent,
                false,
                out,
            );
        }
        at = end;
    }
}

/// Adds the relations that frameworks make of the classes of a file.
pub fn extract_framework_relationships(
    tree: &SyntaxTree,
    file_path: &str,
    package: Option<&str>,
    out: &mut Extraction,
)
    requires
        tree.wf(),
    ensures
        final(out)@ == framework_relationships(
            tree@,
            file_path@,
            opt_str(package),
            old(out)@,
        ),
{
    if tree.len() > 0 {
        let end = tree.end(0);
        extract_class_framework_relationships(
            tree,
            1,
            end,
            file_path,
            package,
            None,
            false,
            out,
        );
    }
}

} // verus!
