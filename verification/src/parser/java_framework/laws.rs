//! What the classes of a file are seen to be wired to, told by their annotations.

use vstd::prelude::*;
use crate::db::RawCallView;
use crate::parser::common::{call_at, nothing, signature, with_call, ExtractionView};
use crate::parser::java::{is_mapping, java_walk, JavaScope};
use crate::parser::java_framework::{
    among_of_kind, annotated, annotation_literal, annotation_name, annotation_placeholder,
    any_named, consumed_event, extended_service, first_parameter, framework_class,
    framework_relationships, framework_walk, has_id, injection, is_component, is_injection,
    listened_among, listened_class, literal_among, members, publication, published_event, relation,
    services_of, with_bound_key, with_class, with_constructor, with_constructors, with_feign,
    with_field, with_fields, with_framework_node, with_grpc, with_listener, with_method,
    with_methods, with_parameters, with_properties, with_publications, FrameworkClass,
};
use crate::parser::java_syntax::{
    annotations_among, annotations_below, annotations_of, is_type_declaration, java_types,
    literal_value,
};
use crate::parser::syntax::{
    child_in_field, child_of_kind, children, descendants, end_from, end_of, lemma_end_from,
    lemma_roots_bounds, lemma_roots_step, of_kind_between, roots, subtree_end, text_at, trimmed_at,
    Grammar, SyntaxNodeView, TreeView,
};
use crate::parser::{extraction, java_file, java_package};
use crate::text::laws::{
    is_made_of, is_solid, none_before, splitting_goes_on_after_the_first, the_first_separator_cuts,
};
use crate::text::{contains, is_space, split, trim, trim_start, word_prefix};

verus! {

// ---------------------------------------------------------------------------
// Annotations and members

/// The node is written as an annotation.
pub open spec fn is_note(tree: TreeView, note: int) -> bool {
    tree.nodes[note].kind == "annotation"@ || tree.nodes[note].kind == "marker_annotation"@
}

/// The node stands in modifiers that are a child of the node at `at`.
pub open spec fn in_modifiers(tree: TreeView, at: int, note: int) -> bool {
    exists|modifiers: int| #[trigger]
        children(tree, at).contains(modifiers) && tree.nodes[modifiers].kind == "modifiers"@
            && children(tree, modifiers).contains(note)
}

/// The node is an annotation of the declaration at `at`.
pub open spec fn is_note_on(tree: TreeView, at: int, note: int) -> bool {
    is_note(tree, note) && (in_modifiers(tree, at, note) || children(tree, at).contains(note))
}

/// The name in front of the arguments of the annotation.
pub open spec fn is_named(tree: TreeView, note: int, name: Seq<char>) -> bool {
    match child_of_kind(tree, note, "identifier"@) {
        Some(own) => trimmed_at(tree, own) == name,
        None => false,
    }
}

/// The declaration at `at` has an annotation of the name.
pub open spec fn bears(tree: TreeView, at: int, name: Seq<char>) -> bool {
    exists|note: int| #[trigger] is_note_on(tree, at, note) && is_named(tree, note, name)
}

/// The class at `at` is one that the framework makes.
pub open spec fn is_made(tree: TreeView, at: int) -> bool {
    ||| bears(tree, at, "Component"@)
    ||| bears(tree, at, "Service"@)
    ||| bears(tree, at, "Repository"@)
    ||| bears(tree, at, "Controller"@)
    ||| bears(tree, at, "RestController"@)
    ||| bears(tree, at, "Configuration"@)
}

/// The declaration at `at` asks the framework for what it needs.
pub open spec fn asks(tree: TreeView, at: int) -> bool {
    ||| bears(tree, at, "Autowired"@)
    ||| bears(tree, at, "Inject"@)
    ||| bears(tree, at, "Resource"@)
}

/// The method at `at` is mapped to a request.
pub open spec fn is_mapped(tree: TreeView, at: int) -> bool {
    ||| bears(tree, at, "RequestMapping"@)
    ||| bears(tree, at, "GetMapping"@)
    ||| bears(tree, at, "PostMapping"@)
    ||| bears(tree, at, "PutMapping"@)
    ||| bears(tree, at, "DeleteMapping"@)
    ||| bears(tree, at, "PatchMapping"@)
}

/// The node is a member of the kind in the body of the declaration at `at`.
pub open spec fn is_member(tree: TreeView, at: int, kind: Seq<char>, member: int) -> bool {
    &&& tree.nodes[member].kind == kind
    &&& match child_of_kind(tree, at, "class_body"@) {
        Some(body) => children(tree, body).contains(member),
        None => match child_of_kind(tree, at, "interface_body"@) {
            Some(body) => children(tree, body).contains(member),
            None => false,
        },
    }
}

/// The node is of the kind and stands below the node at `at`.
pub open spec fn is_below(tree: TreeView, at: int, kind: Seq<char>, below: int) -> bool {
    at < below < end_of(tree, at) && tree.nodes[below].kind == kind
}

proof fn lemma_skip_contains<T>(all: Seq<T>, one: T)
    requires
        all.len() > 0,
    ensures
        all.contains(one) <==> all[0] == one || all.skip(1).contains(one),
{
    if all.contains(one) {
        let i = choose|i: int| 0 <= i < all.len() && all[i] == one;
        if i > 0 {
            assert(all.skip(1)[i - 1] == one);
        }
    }
    if all.skip(1).contains(one) {
        let i = choose|i: int| 0 <= i < all.skip(1).len() && all.skip(1)[i] == one;
        assert(all[i + 1] == one);
    }
    if all[0] == one {
        assert(all.contains(one));
    }
}

proof fn lemma_joined_contains<T>(first: Seq<T>, second: Seq<T>, one: T)
    ensures
        (first + second).contains(one) <==> first.contains(one) || second.contains(one),
{
    let all = first + second;
    if all.contains(one) {
        let i = choose|i: int| 0 <= i < all.len() && all[i] == one;
        if i < first.len() {
            assert(first[i] == one);
        } else {
            assert(second[i - first.len()] == one);
        }
    }
    if first.contains(one) {
        let i = choose|i: int| 0 <= i < first.len() && first[i] == one;
        assert(all[i] == one);
    }
    if second.contains(one) {
        let i = choose|i: int| 0 <= i < second.len() && second[i] == one;
        assert(all[i + first.len()] == one);
    }
}

proof fn lemma_pushed_contains<T>(all: Seq<T>, last: T, one: T)
    ensures
        all.push(last).contains(one) <==> all.contains(one) || last == one,
{
    assert(all.push(last) =~= all + seq![last]);
    lemma_joined_contains(all, seq![last], one);
    assert(seq![last][0] == last);
}

proof fn lemma_annotations_among(tree: TreeView, candidates: Seq<int>, note: int)
    ensures
        annotations_among(tree, candidates).contains(note) <==> is_note(tree, note)
            && candidates.contains(note),
    decreases candidates.len(),
{
    if candidates.len() > 0 {
        lemma_annotations_among(tree, candidates.skip(1), note);
        lemma_skip_contains(candidates, note);
        lemma_joined_contains(
            seq![candidates[0]],
            annotations_among(tree, candidates.skip(1)),
            note,
        );
        assert(seq![candidates[0]][0] == candidates[0]);
    }
}

spec fn in_modifiers_among(tree: TreeView, candidates: Seq<int>, note: int) -> bool {
    exists|modifiers: int| #[trigger]
        candidates.contains(modifiers) && tree.nodes[modifiers].kind == "modifiers"@ && children(
            tree,
            modifiers,
        ).contains(note)
}

proof fn lemma_annotations_below(tree: TreeView, candidates: Seq<int>, note: int)
    ensures
        annotations_below(tree, candidates).contains(note) <==> is_note(tree, note) && (
        in_modifiers_among(tree, candidates, note) || candidates.contains(note)),
    decreases candidates.len(),
{
    if candidates.len() > 0 {
        let rest = candidates.skip(1);
        let at = candidates[0];
        lemma_annotations_below(tree, rest, note);
        lemma_annotations_among(tree, children(tree, at), note);
        lemma_skip_contains(candidates, note);
        let within = if tree.nodes[at].kind == "modifiers"@ {
            annotations_among(tree, children(tree, at))
        } else {
            seq![]
        };
        let itself = if is_note(tree, at) {
            seq![at]
        } else {
            seq![]
        };
        lemma_joined_contains(within, itself, note);
        lemma_joined_contains(within + itself, annotations_below(tree, rest), note);
        if is_note(tree, at) {
            assert(itself[0] == at);
        }
        if in_modifiers_among(tree, candidates, note) {
            let modifiers = choose|modifiers: int| #[trigger]
                candidates.contains(modifiers) && tree.nodes[modifiers].kind == "modifiers"@
                    && children(tree, modifiers).contains(note);
            lemma_skip_contains(candidates, modifiers);
            if modifiers != at {
                assert(rest.contains(modifiers));
            }
        }
        if in_modifiers_among(tree, rest, note) {
            let modifiers = choose|modifiers: int| #[trigger]
                rest.contains(modifiers) && tree.nodes[modifiers].kind == "modifiers"@ && children(
                    tree,
                    modifiers,
                ).contains(note);
            lemma_skip_contains(candidates, modifiers);
            assert(candidates.contains(modifiers));
        }
        if tree.nodes[at].kind == "modifiers"@ && children(tree, at).contains(note) {
            lemma_skip_contains(candidates, at);
            assert(candidates.contains(at));
        }
    }
}

/// The annotations of a declaration are those among its children and those in its
/// modifiers.
pub proof fn annotations_stand_in_front(tree: TreeView, at: int, note: int)
    ensures
        annotations_of(tree, at).contains(note) <==> is_note_on(tree, at, note),
{
    lemma_annotations_below(tree, children(tree, at), note);
}

proof fn lemma_annotated(tree: TreeView, at: int, names: spec_fn(Seq<char>) -> bool)
    ensures
        annotated(tree, at, names) <==> exists|name: Seq<char>| #[trigger]
            names(name) && bears(tree, at, name),
{
    let all = annotations_of(tree, at);
    if annotated(tree, at, names) {
        assert(any_named(tree, all, names));
        let i = choose|i: int|
            0 <= i < all.len() && annotation_name(
                tree,
                #[trigger] all[i],
            ) is Some && names(
                annotation_name(tree, all[i])->0,
            );
        let name = annotation_name(tree, all[i])->0;
        annotations_stand_in_front(tree, at, all[i]);
        assert(is_note_on(tree, at, all[i]) && is_named(tree, all[i], name));
        assert(names(name) && bears(tree, at, name));
    }
    if exists|name: Seq<char>| #[trigger] names(name) && bears(tree, at, name) {
        let name = choose|name: Seq<char>| #[trigger] names(name) && bears(tree, at, name);
        let note = choose|note: int| #[trigger]
            is_note_on(tree, at, note) && is_named(tree, note, name);
        annotations_stand_in_front(tree, at, note);
        let i = choose|i: int| 0 <= i < all.len() && all[i] == note;
        assert(annotation_name(tree, all[i]) == Some(name));
        assert(any_named(tree, all, names));
    }
}

proof fn lemma_among_of_kind(tree: TreeView, candidates: Seq<int>, kind: Seq<char>, one: int)
    ensures
        among_of_kind(tree, candidates, kind).contains(one) <==> tree.nodes[one].kind == kind
            && candidates.contains(one),
    decreases candidates.len(),
{
    if candidates.len() > 0 {
        lemma_among_of_kind(tree, candidates.skip(1), kind, one);
        lemma_skip_contains(candidates, one);
        lemma_joined_contains(
            seq![candidates[0]],
            among_of_kind(tree, candidates.skip(1), kind),
            one,
        );
        assert(seq![candidates[0]][0] == candidates[0]);
    }
}

/// The members of a class are what stands in its body, each by its kind.
pub proof fn members_stand_in_the_body(tree: TreeView, at: int, kind: Seq<char>, member: int)
    ensures
        members(tree, at, kind).contains(member) <==> is_member(tree, at, kind, member),
{
    if let Some(body) = child_of_kind(tree, at, "class_body"@) {
        lemma_among_of_kind(tree, children(tree, body), kind, member);
    } else if let Some(body) = child_of_kind(tree, at, "interface_body"@) {
        lemma_among_of_kind(tree, children(tree, body), kind, member);
    }
}

proof fn lemma_of_kind_between(tree: TreeView, from: int, to: int, kind: Seq<char>, one: int)
    ensures
        of_kind_between(tree, from, to, kind).contains(one) <==> from <= one < to
            && tree.nodes[one].kind == kind,
    decreases to - from,
{
    if from < to {
        lemma_of_kind_between(tree, from, to - 1, kind, one);
        lemma_pushed_contains(of_kind_between(tree, from, to - 1, kind), to - 1, one);
    }
}

/// What is found below a node is all that stands there of its kind.
pub proof fn descendants_stand_below(tree: TreeView, at: int, kind: Seq<char>, below: int)
    ensures
        descendants(tree, at, kind).contains(below) <==> is_below(tree, at, kind, below),
{
    lemma_of_kind_between(tree, at + 1, end_of(tree, at), kind, below);
}

// ---------------------------------------------------------------------------
// Relations

/// The call records a relation between the two, made at a node, with the certainty of
/// the tier.
pub open spec fn relates(
    call: RawCallView,
    tree: TreeView,
    at: int,
    from: Seq<char>,
    to: Seq<char>,
    kind: Seq<char>,
    reverse: bool,
    target: Option<Seq<char>>,
    tier: int,
) -> bool {
    call == (RawCallView {
        caller_id: from,
        callee_name: to,
        line: tree.nodes[at].start_row + 1,
        column: tree.nodes[at].start_column,
        relationship_kind: kind,
        reverse_edge: reverse,
        target_qualified_hint: target,
        resolution_hint: Some(tier),
        ..call_at(tree, at, from, to)
    })
}

/// The type of the declaration at `at` is injected into the class of the id.
pub open spec fn injects(
    tree: TreeView,
    at: int,
    id: Seq<char>,
    tier: int,
    call: RawCallView,
) -> bool {
    match child_in_field(tree, at, "type"@) {
        Some(type_at) => relates(
            call,
            tree,
            at,
            id,
            trimmed_at(tree, type_at),
            "injected_into"@,
            true,
            None,
            tier,
        ),
        None => false,
    }
}

/// The qualified name of a configuration key that binds to the class.
pub open spec fn key_name(key: Seq<char>, class: FrameworkClass) -> Seq<char> {
    "config::"@ + key + "::"@ + class.qualified
}

/// The key binds to the class.
pub open spec fn binds(
    tree: TreeView,
    at: int,
    key: Seq<char>,
    class: FrameworkClass,
    call: RawCallView,
) -> bool {
    relates(
        call,
        tree,
        at,
        class.file_path + "::"@ + key_name(key, class),
        class.name,
        "configuration_binds"@,
        false,
        Some(class.qualified),
        6,
    )
}

/// The field gives the relation: an injection it asks for, or the value that is bound to
/// it.
pub open spec fn field_gives(
    tree: TreeView,
    field: int,
    class: FrameworkClass,
    call: RawCallView,
) -> bool {
    is_made(tree, class.at) && {
        ||| asks(tree, field) && injects(
            tree,
            field,
            class.file_path + "::"@ + class.qualified,
            6,
            call,
        )
        ||| match annotation_placeholder(tree, field, "Value"@) {
            Some(key) => binds(tree, field, key, class, call),
            None => false,
        }
    }
}

/// One of the parameters is injected into the class.
pub open spec fn some_parameter_gives(
    tree: TreeView,
    parameters: Seq<int>,
    class: FrameworkClass,
    tier: int,
    call: RawCallView,
) -> bool {
    exists|parameter: int| #[trigger]
        parameters.contains(parameter) && injects(
            tree,
            parameter,
            class.file_path + "::"@ + class.qualified,
            tier,
            call,
        )
}

/// The constructor gives the relation: it asks for its parameters, or it is the only one.
pub open spec fn constructor_gives(
    tree: TreeView,
    constructor: int,
    only_one: bool,
    class: FrameworkClass,
    call: RawCallView,
) -> bool {
    let parameters = descendants(tree, constructor, "formal_parameter"@);
    is_made(tree, class.at) && {
        ||| asks(tree, constructor) && some_parameter_gives(tree, parameters, class, 6, call)
        ||| only_one && !asks(tree, constructor) && some_parameter_gives(
            tree,
            parameters,
            class,
            7,
            call,
        )
    }
}

/// The invocation publishes an event.
pub open spec fn publishes(
    tree: TreeView,
    at: int,
    method_id: Seq<char>,
    types: Map<Seq<char>, Seq<char>>,
    call: RawCallView,
) -> bool {
    match publication(tree, at, types) {
        Some((event, anchor)) => relates(
            call,
            tree,
            anchor,
            method_id,
            event,
            "publishes_event"@,
            false,
            None,
            7,
        ),
        None => false,
    }
}

/// One of the invocations publishes an event.
pub open spec fn some_publishes(
    tree: TreeView,
    invocations: Seq<int>,
    method_id: Seq<char>,
    types: Map<Seq<char>, Seq<char>>,
    call: RawCallView,
) -> bool {
    exists|at: int| #[trigger]
        invocations.contains(at) && publishes(tree, at, method_id, types, call)
}

/// The qualified name of the endpoint that a method of a client calls.
pub open spec fn client_endpoint(
    service: Seq<char>,
    class: FrameworkClass,
    name: Seq<char>,
) -> Seq<char> {
    "feign::"@ + service + "::"@ + (class.qualified + "::"@ + name)
}

/// The method gives the relation: the endpoint that it calls, the event that it listens
/// to, or an event that it publishes.
pub open spec fn method_gives(
    tree: TreeView,
    at: int,
    class: FrameworkClass,
    call: RawCallView,
) -> bool {
    match child_in_field(tree, at, "name"@) {
        Some(name_at) => {
            let name = trimmed_at(tree, name_at);
            let id = class.file_path + "::"@ + (class.qualified + "::"@ + name);
            ||| is_mapped(tree, at) && match annotation_literal(tree, class.at, "FeignClient"@) {
                Some(service) => relates(
                    call,
                    tree,
                    at,
                    id,
                    name,
                    "feign_calls"@,
                    false,
                    Some(client_endpoint(service, class, name)),
                    6,
                ),
                None => false,
            }
            ||| bears(tree, at, "EventListener"@) && match consumed_event(tree, at) {
                Some(event) => relates(
                    call,
                    tree,
                    at,
                    id,
                    event,
                    "consumes_event"@,
                    true,
                    None,
                    6,
                ),
                None => false,
            }
            ||| some_publishes(
                tree,
                descendants(tree, at, "method_invocation"@),
                id,
                java_types(tree, at),
                call,
            )
        },
        None => false,
    }
}

/// The method makes a symbol of the id: the endpoint that it calls or the one that it
/// serves.
pub open spec fn method_makes(
    tree: TreeView,
    at: int,
    class: FrameworkClass,
    id: Seq<char>,
) -> bool {
    match child_in_field(tree, at, "name"@) {
        Some(name_at) => {
            let name = trimmed_at(tree, name_at);
            ||| is_mapped(tree, at) && match annotation_literal(tree, class.at, "FeignClient"@) {
                Some(service) => id == class.file_path + "::"@ + client_endpoint(
                    service,
                    class,
                    name,
                ),
                None => false,
            }
            ||| bears(tree, class.at, "GrpcService"@) && match extended_service(
                signature(tree, class.at),
            ) {
                Some(service) => id == class.file_path + "::"@ + ("grpc::"@ + service + "::"@
                    + name),
                None => false,
            }
        },
        None => false,
    }
}

/// The field makes a symbol of the id: the key of the value that is bound to it.
pub open spec fn field_makes(
    tree: TreeView,
    field: int,
    class: FrameworkClass,
    id: Seq<char>,
) -> bool {
    is_made(tree, class.at) && match annotation_placeholder(tree, field, "Value"@) {
        Some(key) => id == class.file_path + "::"@ + key_name(key, class),
        None => false,
    }
}

/// The constructor is the only one of the class.
pub open spec fn is_only_constructor(tree: TreeView, at: int, constructor: int) -> bool {
    forall|other: int| #[trigger]
        is_member(tree, at, "constructor_declaration"@, other) ==> other == constructor
}

/// A field of the class gives the relation.
pub open spec fn some_field_gives(tree: TreeView, class: FrameworkClass, call: RawCallView) -> bool {
    exists|field: int| #[trigger]
        is_member(tree, class.at, "field_declaration"@, field) && field_gives(
            tree,
            field,
            class,
            call,
        )
}

/// A constructor of the class gives the relation.
pub open spec fn some_constructor_gives(
    tree: TreeView,
    class: FrameworkClass,
    call: RawCallView,
) -> bool {
    exists|constructor: int| #[trigger]
        is_member(tree, class.at, "constructor_declaration"@, constructor) && constructor_gives(
            tree,
            constructor,
            is_only_constructor(tree, class.at, constructor),
            class,
            call,
        )
}

/// A method of the class gives the relation.
pub open spec fn some_method_gives(tree: TreeView, class: FrameworkClass, call: RawCallView) -> bool {
    exists|method: int| #[trigger]
        is_member(tree, class.at, "method_declaration"@, method) && method_gives(
            tree,
            method,
            class,
            call,
        )
}

/// The class gives the relation, itself or by one of its members.
pub open spec fn class_gives(tree: TreeView, class: FrameworkClass, call: RawCallView) -> bool {
    ||| match annotation_literal(tree, class.at, "ConfigurationProperties"@) {
        Some(prefix) => binds(tree, class.at, prefix, class, call),
        None => false,
    }
    ||| some_field_gives(tree, class, call)
    ||| some_constructor_gives(tree, class, call)
    ||| some_method_gives(tree, class, call)
}

/// A field of the class makes a symbol of the id.
pub open spec fn some_field_makes(tree: TreeView, class: FrameworkClass, id: Seq<char>) -> bool {
    exists|field: int| #[trigger]
        is_member(tree, class.at, "field_declaration"@, field) && field_makes(
            tree,
            field,
            class,
            id,
        )
}

/// A method of the class makes a symbol of the id.
pub open spec fn some_method_makes(tree: TreeView, class: FrameworkClass, id: Seq<char>) -> bool {
    exists|method: int| #[trigger]
        is_member(tree, class.at, "method_declaration"@, method) && method_makes(
            tree,
            method,
            class,
            id,
        )
}

/// The class makes a symbol of the id, itself or by one of its members.
pub open spec fn class_makes(tree: TreeView, class: FrameworkClass, id: Seq<char>) -> bool {
    ||| match annotation_literal(tree, class.at, "ConfigurationProperties"@) {
        Some(prefix) => id == class.file_path + "::"@ + key_name(prefix, class),
        None => false,
    }
    ||| some_field_makes(tree, class, id)
    ||| some_method_makes(tree, class, id)
}

/// Of the call and the symbols of the id, `after` holds what `before` held and what is
/// given and made.
pub open spec fn gains(
    before: ExtractionView,
    after: ExtractionView,
    call: RawCallView,
    given: bool,
    id: Seq<char>,
    made: bool,
) -> bool {
    &&& after.calls.contains(call) <==> before.calls.contains(call) || given
    &&& has_id(after.nodes, id) <==> has_id(before.nodes, id) || made
}

proof fn lemma_call(before: ExtractionView, one: RawCallView, call: RawCallView, id: Seq<char>)
    ensures
        gains(before, with_call(before, one), call, one == call, id, false),
{
    lemma_pushed_contains(before.calls, one, call);
}

proof fn lemma_framework_node(
    tree: TreeView,
    anchor: int,
    file_path: Seq<char>,
    qualified: Seq<char>,
    kind: Seq<char>,
    out: ExtractionView,
    call: RawCallView,
    id: Seq<char>,
)
    ensures
        gains(
            out,
            with_framework_node(tree, anchor, file_path, qualified, kind, out),
            call,
            false,
            id,
            id == file_path + "::"@ + qualified,
        ),
{
    let after = with_framework_node(tree, anchor, file_path, qualified, kind, out);
    if after != out {
        if has_id(out.nodes, id) {
            let i = choose|i: int| 0 <= i < out.nodes.len() && (#[trigger] out.nodes[i]).id == id;
            assert(after.nodes[i].id == id);
        }
        assert(after.nodes[out.nodes.len() as int].id == file_path + "::"@ + qualified);
        if has_id(after.nodes, id) {
            let i = choose|i: int|
                0 <= i < after.nodes.len() && (#[trigger] after.nodes[i]).id == id;
            if i < out.nodes.len() {
                assert(out.nodes[i].id == id);
            }
        }
    }
}

proof fn lemma_bound_key(
    tree: TreeView,
    anchor: int,
    key: Seq<char>,
    class: FrameworkClass,
    out: ExtractionView,
    call: RawCallView,
    id: Seq<char>,
)
    ensures
        gains(
            out,
            with_bound_key(tree, anchor, key, class, out),
            call,
            binds(tree, anchor, key, class, call),
            id,
            id == class.file_path + "::"@ + key_name(key, class),
        ),
{
    let qualified = "config::"@ + key + "::"@ + class.qualified;
    lemma_framework_node(
        tree,
        anchor,
        class.file_path,
        qualified,
        "config_key"@,
        out,
        call,
        id,
    );
    let named = with_framework_node(
        tree,
        anchor,
        class.file_path,
        qualified,
        "config_key"@,
        out,
    );
    let one = with_bound_key(tree, anchor, key, class, out).calls.last();
    lemma_call(named, one, call, id);
}

proof fn lemma_groups(tree: TreeView, at: int)
    ensures
        annotated(tree, at, |name: Seq<char>| is_component(name)) == is_made(tree, at),
        annotated(tree, at, |name: Seq<char>| is_injection(name)) == asks(tree, at),
        annotated(tree, at, |name: Seq<char>| is_mapping(name)) == is_mapped(tree, at),
        annotated(tree, at, |name: Seq<char>| name == "GrpcService"@) == bears(
            tree,
            at,
            "GrpcService"@,
        ),
        annotated(tree, at, |name: Seq<char>| name == "EventListener"@) == bears(
            tree,
            at,
            "EventListener"@,
        ),
{
    let component = |name: Seq<char>| is_component(name);
    let injection = |name: Seq<char>| is_injection(name);
    let mapping = |name: Seq<char>| is_mapping(name);
    let serving = |name: Seq<char>| name == "GrpcService"@;
    let listening = |name: Seq<char>| name == "EventListener"@;
    lemma_annotated(tree, at, component);
    lemma_annotated(tree, at, injection);
    lemma_annotated(tree, at, mapping);
    lemma_annotated(tree, at, serving);
    lemma_annotated(tree, at, listening);
    assert(component("Component"@) && component("Service"@) && component("Repository"@));
    assert(component("Controller"@) && component("RestController"@) && component("Configuration"@));
    assert(injection("Autowired"@) && injection("Inject"@) && injection("Resource"@));
    assert(mapping("RequestMapping"@) && mapping("GetMapping"@) && mapping("PostMapping"@));
    assert(mapping("PutMapping"@) && mapping("DeleteMapping"@) && mapping("PatchMapping"@));
    assert(serving("GrpcService"@) && listening("EventListener"@));
}

proof fn lemma_field(
    tree: TreeView,
    field: int,
    class: FrameworkClass,
    out: ExtractionView,
    call: RawCallView,
    id: Seq<char>,
)
    requires
        class.component == is_made(tree, class.at),
    ensures
        gains(
            out,
            with_field(tree, field, class, out),
            call,
            field_gives(tree, field, class, call),
            id,
            field_makes(tree, field, class, id),
        ),
{
    lemma_groups(tree, field);
    let asked = class.component && asks(tree, field);
    let injected = match child_in_field(tree, field, "type"@) {
        Some(type_at) => if asked {
            with_call(
                out,
                injection(
                    tree,
                    field,
                    class,
                    trimmed_at(tree, type_at),
                    6,
                ),
            )
        } else {
            out
        },
        None => out,
    };
    if asked {
        if let Some(type_at) = child_in_field(tree, field, "type"@) {
            let one = injected.calls.last();
            lemma_call(out, one, call, id);
        }
    }
    if let Some(key) = annotation_placeholder(tree, field, "Value"@) {
        lemma_bound_key(tree, field, key, class, injected, call, id);
    }
}

spec fn some_among_gives(
    tree: TreeView,
    fields: Seq<int>,
    class: FrameworkClass,
    call: RawCallView,
) -> bool {
    exists|field: int| #[trigger]
        fields.contains(field) && field_gives(tree, field, class, call)
}

spec fn some_among_makes(
    tree: TreeView,
    fields: Seq<int>,
    class: FrameworkClass,
    id: Seq<char>,
) -> bool {
    exists|field: int| #[trigger] fields.contains(field) && field_makes(tree, field, class, id)
}

/// Whether one of some meets a condition is asked of the first and of the rest.
proof fn lemma_some(all: Seq<int>, meets: spec_fn(int) -> bool)
    requires
        all.len() > 0,
    ensures
        (exists|one: int| #[trigger] all.contains(one) && meets(one)) <==> meets(all[0]) || (
        exists|one: int| #[trigger] all.skip(1).contains(one) && meets(one)),
{
    if exists|one: int| #[trigger] all.contains(one) && meets(one) {
        let one = choose|one: int| #[trigger] all.contains(one) && meets(one);
        lemma_skip_contains(all, one);
    }
    if exists|one: int| #[trigger] all.skip(1).contains(one) && meets(one) {
        let one = choose|one: int| #[trigger] all.skip(1).contains(one) && meets(one);
        lemma_skip_contains(all, one);
        assert(all.contains(one));
    }
    assert(all.contains(all[0]));
}

proof fn lemma_fields(
    tree: TreeView,
    fields: Seq<int>,
    class: FrameworkClass,
    out: ExtractionView,
    call: RawCallView,
    id: Seq<char>,
)
    requires
        class.component == is_made(tree, class.at),
    ensures
        gains(
            out,
            with_fields(tree, fields, class, out),
            call,
            some_among_gives(tree, fields, class, call),
            id,
            some_among_makes(tree, fields, class, id),
        ),
    decreases fields.len(),
{
    if fields.len() > 0 {
        lemma_field(tree, fields[0], class, out, call, id);
        let here = with_field(tree, fields[0], class, out);
        lemma_fields(tree, fields.skip(1), class, here, call, id);
        let gives = |field: int| field_gives(tree, field, class, call);
        let makes = |field: int| field_makes(tree, field, class, id);
        lemma_some(fields, gives);
        lemma_some(fields, makes);
        assert(some_among_gives(tree, fields, class, call) == exists|one: int| #[trigger]
            fields.contains(one) && gives(one));
        assert(some_among_makes(tree, fields, class, id) == exists|one: int| #[trigger]
            fields.contains(one) && makes(one));
        assert(some_among_gives(tree, fields.skip(1), class, call) == exists|one: int| #[trigger]
            fields.skip(1).contains(one) && gives(one));
        assert(some_among_makes(tree, fields.skip(1), class, id) == exists|one: int| #[trigger]
            fields.skip(1).contains(one) && makes(one));
    }
}

proof fn lemma_parameters(
    tree: TreeView,
    parameters: Seq<int>,
    class: FrameworkClass,
    tier: int,
    out: ExtractionView,
    call: RawCallView,
    id: Seq<char>,
)
    ensures
        gains(
            out,
            with_parameters(tree, parameters, class, tier, out),
            call,
            some_parameter_gives(tree, parameters, class, tier, call),
            id,
            false,
        ),
    decreases parameters.len(),
{
    if parameters.len() > 0 {
        let class_id = class.file_path + "::"@ + class.qualified;
        let here = match child_in_field(tree, parameters[0], "type"@) {
            Some(type_at) => with_call(
                out,
                injection(tree, parameters[0], class, trimmed_at(tree, type_at), tier),
            ),
            None => out,
        };
        if child_in_field(tree, parameters[0], "type"@) is Some {
            lemma_call(out, here.calls.last(), call, id);
        }
        lemma_parameters(tree, parameters.skip(1), class, tier, here, call, id);
        let gives = |parameter: int| injects(tree, parameter, class_id, tier, call);
        lemma_some(parameters, gives);
        assert(some_parameter_gives(tree, parameters, class, tier, call) == exists|one: int| #[trigger]
            parameters.contains(one) && gives(one));
        assert(some_parameter_gives(tree, parameters.skip(1), class, tier, call) == exists|
            one: int,
        | #[trigger]
            parameters.skip(1).contains(one) && gives(one));
    }
}

proof fn lemma_constructor(
    tree: TreeView,
    constructor: int,
    only_one: bool,
    class: FrameworkClass,
    out: ExtractionView,
    call: RawCallView,
    id: Seq<char>,
)
    requires
        class.component == is_made(tree, class.at),
    ensures
        gains(
            out,
            with_constructor(tree, constructor, only_one, class, out),
            call,
            constructor_gives(tree, constructor, only_one, class, call),
            id,
            false,
        ),
{
    lemma_groups(tree, constructor);
    let parameters = descendants(tree, constructor, "formal_parameter"@);
    lemma_parameters(tree, parameters, class, 6, out, call, id);
    lemma_parameters(tree, parameters, class, 7, out, call, id);
}

spec fn some_constructor_among(
    tree: TreeView,
    constructors: Seq<int>,
    only_one: bool,
    class: FrameworkClass,
    call: RawCallView,
) -> bool {
    exists|one: int| #[trigger]
        constructors.contains(one) && constructor_gives(tree, one, only_one, class, call)
}

proof fn lemma_constructors(
    tree: TreeView,
    constructors: Seq<int>,
    only_one: bool,
    class: FrameworkClass,
    out: ExtractionView,
    call: RawCallView,
    id: Seq<char>,
)
    requires
        class.component == is_made(tree, class.at),
    ensures
        gains(
            out,
            with_constructors(tree, constructors, only_one, class, out),
            call,
            some_constructor_among(tree, constructors, only_one, class, call),
            id,
            false,
        ),
    decreases constructors.len(),
{
    if constructors.len() > 0 {
        lemma_constructor(tree, constructors[0], only_one, class, out, call, id);
        let here = with_constructor(tree, constructors[0], only_one, class, out);
        let rest = constructors.skip(1);
        lemma_constructors(tree, rest, only_one, class, here, call, id);
        let gives = |one: int| constructor_gives(tree, one, only_one, class, call);
        lemma_some(constructors, gives);
        assert(some_constructor_among(tree, constructors, only_one, class, call) == exists|
            one: int,
        | #[trigger]
            constructors.contains(one) && gives(one));
        assert(some_constructor_among(tree, rest, only_one, class, call) == exists|
            one: int,
        | #[trigger]
            rest.contains(one) && gives(one));
    }
}

proof fn lemma_publications(
    tree: TreeView,
    invocations: Seq<int>,
    method_id: Seq<char>,
    types: Map<Seq<char>, Seq<char>>,
    out: ExtractionView,
    call: RawCallView,
    id: Seq<char>,
)
    ensures
        gains(
            out,
            with_publications(tree, invocations, method_id, types, out),
            call,
            some_publishes(tree, invocations, method_id, types, call),
            id,
            false,
        ),
    decreases invocations.len(),
{
    if invocations.len() > 0 {
        let here = match publication(tree, invocations[0], types) {
            Some((event, anchor)) => with_call(
                out,
                relation(tree, anchor, method_id, event, "publishes_event"@, false, None, 7),
            ),
            None => out,
        };
        if publication(tree, invocations[0], types) is Some {
            lemma_call(out, here.calls.last(), call, id);
        }
        lemma_publications(tree, invocations.skip(1), method_id, types, here, call, id);
        let gives = |one: int| publishes(tree, one, method_id, types, call);
        lemma_some(invocations, gives);
        assert(some_publishes(tree, invocations, method_id, types, call) == exists|one: int| #[trigger]
            invocations.contains(one) && gives(one));
        assert(some_publishes(tree, invocations.skip(1), method_id, types, call) == exists|
            one: int,
        | #[trigger]
            invocations.skip(1).contains(one) && gives(one));
    }
}

proof fn lemma_method(
    tree: TreeView,
    at: int,
    class: FrameworkClass,
    out: ExtractionView,
    call: RawCallView,
    id: Seq<char>,
)
    ensures
        gains(
            out,
            with_method(tree, at, services_of(tree, class.at), class, out),
            call,
            method_gives(tree, at, class, call),
            id,
            method_makes(tree, at, class, id),
        ),
{
    lemma_groups(tree, at);
    lemma_groups(tree, class.at);
    if let Some(name_at) = child_in_field(tree, at, "name"@) {
        let services = services_of(tree, class.at);
        let name = trimmed_at(tree, name_at);
        let qualified = class.qualified + "::"@ + name;
        let method_id = class.file_path + "::"@ + qualified;
        let called = with_feign(tree, at, name, services.feign, class, out);
        if let Some(service) = services.feign {
            if is_mapped(tree, at) {
                let endpoint = client_endpoint(service, class, name);
                let known = with_framework_node(
                    tree,
                    at,
                    class.file_path,
                    endpoint,
                    "feign_endpoint"@,
                    out,
                );
                lemma_framework_node(
                    tree,
                    at,
                    class.file_path,
                    endpoint,
                    "feign_endpoint"@,
                    out,
                    call,
                    id,
                );
                lemma_call(known, called.calls.last(), call, id);
            }
        }
        let served = with_grpc(tree, at, name, services.grpc, class, called);
        if let Some(service) = services.grpc {
            lemma_framework_node(
                tree,
                at,
                class.file_path,
                "grpc::"@ + service + "::"@ + name,
                "grpc_endpoint"@,
                called,
                call,
                id,
            );
        }
        let consumed = with_listener(tree, at, method_id, served);
        if bears(tree, at, "EventListener"@) && consumed_event(tree, at) is Some {
            lemma_call(served, consumed.calls.last(), call, id);
        }
        lemma_publications(
            tree,
            descendants(tree, at, "method_invocation"@),
            method_id,
            java_types(tree, at),
            consumed,
            call,
            id,
        );
    }
}

spec fn some_method_among_gives(
    tree: TreeView,
    methods: Seq<int>,
    class: FrameworkClass,
    call: RawCallView,
) -> bool {
    exists|one: int| #[trigger] methods.contains(one) && method_gives(tree, one, class, call)
}

spec fn some_method_among_makes(
    tree: TreeView,
    methods: Seq<int>,
    class: FrameworkClass,
    id: Seq<char>,
) -> bool {
    exists|one: int| #[trigger] methods.contains(one) && method_makes(tree, one, class, id)
}

proof fn lemma_methods(
    tree: TreeView,
    methods: Seq<int>,
    class: FrameworkClass,
    out: ExtractionView,
    call: RawCallView,
    id: Seq<char>,
)
    ensures
        gains(
            out,
            with_methods(tree, methods, services_of(tree, class.at), class, out),
            call,
            some_method_among_gives(tree, methods, class, call),
            id,
            some_method_among_makes(tree, methods, class, id),
        ),
    decreases methods.len(),
{
    if methods.len() > 0 {
        lemma_method(tree, methods[0], class, out, call, id);
        let here = with_method(tree, methods[0], services_of(tree, class.at), class, out);
        let rest = methods.skip(1);
        lemma_methods(tree, rest, class, here, call, id);
        let gives = |one: int| method_gives(tree, one, class, call);
        let makes = |one: int| method_makes(tree, one, class, id);
        lemma_some(methods, gives);
        lemma_some(methods, makes);
        assert(some_method_among_gives(tree, methods, class, call) == exists|one: int| #[trigger]
            methods.contains(one) && gives(one));
        assert(some_method_among_makes(tree, methods, class, id) == exists|one: int| #[trigger]
            methods.contains(one) && makes(one));
        assert(some_method_among_gives(tree, rest, class, call) == exists|one: int| #[trigger]
            rest.contains(one) && gives(one));
        assert(some_method_among_makes(tree, rest, class, id) == exists|one: int| #[trigger]
            rest.contains(one) && makes(one));
    }
}

spec fn increases(all: Seq<int>) -> bool {
    forall|i: int, j: int| 0 <= i < j < all.len() ==> #[trigger] all[i] < #[trigger] all[j]
}

proof fn lemma_roots_increase(tree: TreeView, from: int, limit: int)
    ensures
        increases(roots(tree, from, limit)),
    decreases limit - from,
{
    if from < limit {
        lemma_roots_step(tree, from, limit);
        let next = subtree_end(tree, from, limit);
        lemma_roots_increase(tree, next, limit);
        lemma_roots_bounds(tree, next, limit);
        let rest = roots(tree, next, limit);
        let all = roots(tree, from, limit);
        assert forall|i: int, j: int| 0 <= i < j < all.len() implies #[trigger] all[i]
            < #[trigger] all[j] by {
            assert(all[j] == rest[j - 1]);
            if i > 0 {
                assert(all[i] == rest[i - 1]);
            }
        }
    }
}

proof fn lemma_among_increase(tree: TreeView, candidates: Seq<int>, kind: Seq<char>)
    requires
        increases(candidates),
    ensures
        increases(among_of_kind(tree, candidates, kind)),
    decreases candidates.len(),
{
    if candidates.len() > 0 {
        let rest = candidates.skip(1);
        assert(increases(rest)) by {
            assert forall|i: int, j: int| 0 <= i < j < rest.len() implies #[trigger] rest[i]
                < #[trigger] rest[j] by {
                assert(rest[i] == candidates[i + 1] && rest[j] == candidates[j + 1]);
            }
        }
        lemma_among_increase(tree, rest, kind);
        let found = among_of_kind(tree, rest, kind);
        let all = among_of_kind(tree, candidates, kind);
        assert forall|i: int, j: int| 0 <= i < j < all.len() implies #[trigger] all[i]
            < #[trigger] all[j] by {
            if tree.nodes[candidates[0]].kind == kind {
                assert(all[j] == found[j - 1]);
                if i > 0 {
                    assert(all[i] == found[i - 1]);
                } else {
                    lemma_among_of_kind(tree, rest, kind, all[j]);
                    assert(found.contains(all[j]));
                    let k = choose|k: int| 0 <= k < rest.len() && rest[k] == all[j];
                    assert(candidates[k + 1] == all[j]);
                    assert(candidates[0] < candidates[k + 1]);
                }
            } else {
                assert(all == found);
            }
        }
    }
}

proof fn lemma_only_constructor(tree: TreeView, at: int, constructor: int)
    requires
        is_member(tree, at, "constructor_declaration"@, constructor),
    ensures
        (members(tree, at, "constructor_declaration"@).len() == 1) == is_only_constructor(
            tree,
            at,
            constructor,
        ),
{
    let kind = "constructor_declaration"@;
    let all = members(tree, at, kind);
    members_stand_in_the_body(tree, at, kind, constructor);
    if all.len() == 1 {
        assert forall|other: int| #[trigger] is_member(tree, at, kind, other) implies other
            == constructor by {
            members_stand_in_the_body(tree, at, kind, other);
        }
    } else {
        let body = match child_of_kind(tree, at, "class_body"@) {
            Some(body) => body,
            None => child_of_kind(tree, at, "interface_body"@)->0,
        };
        lemma_roots_increase(tree, body + 1, end_of(tree, body));
        lemma_among_increase(tree, children(tree, body), kind);
        assert(all == among_of_kind(tree, children(tree, body), kind));
        assert(all[0] < all[1]);
        assert(all.contains(all[0]) && all.contains(all[1]));
        members_stand_in_the_body(tree, at, kind, all[0]);
        members_stand_in_the_body(tree, at, kind, all[1]);
        assert(!is_only_constructor(tree, at, constructor)) by {
            if is_only_constructor(tree, at, constructor) {
                assert(all[0] == constructor && all[1] == constructor);
            }
        }
    }
}

proof fn lemma_class(
    tree: TreeView,
    class: FrameworkClass,
    out: ExtractionView,
    call: RawCallView,
    id: Seq<char>,
)
    requires
        class.component == is_made(tree, class.at),
    ensures
        gains(
            out,
            with_class(tree, class, out),
            call,
            class_gives(tree, class, call),
            id,
            class_makes(tree, class, id),
        ),
{
    let at = class.at;
    let constructors = members(tree, at, "constructor_declaration"@);
    let fields = members(tree, at, "field_declaration"@);
    let methods = members(tree, at, "method_declaration"@);
    let only_one = constructors.len() == 1;
    let bound = with_properties(tree, class, out);
    if let Some(prefix) = annotation_literal(tree, at, "ConfigurationProperties"@) {
        lemma_bound_key(tree, at, prefix, class, out, call, id);
    }
    lemma_fields(tree, fields, class, bound, call, id);
    let held = with_fields(tree, fields, class, bound);
    lemma_constructors(tree, constructors, only_one, class, held, call, id);
    let constructed = with_constructors(tree, constructors, only_one, class, held);
    lemma_methods(tree, methods, class, constructed, call, id);
    assert forall|one: int| true implies #[trigger] fields.contains(one) == is_member(
        tree,
        at,
        "field_declaration"@,
        one,
    ) by {
        members_stand_in_the_body(tree, at, "field_declaration"@, one);
    }
    assert forall|one: int| true implies #[trigger] methods.contains(one) == is_member(
        tree,
        at,
        "method_declaration"@,
        one,
    ) by {
        members_stand_in_the_body(tree, at, "method_declaration"@, one);
    }
    assert(some_among_gives(tree, fields, class, call) == some_field_gives(tree, class, call)) by {
        if some_field_gives(tree, class, call) {
            let one = choose|one: int| #[trigger]
                is_member(tree, at, "field_declaration"@, one) && field_gives(
                    tree,
                    one,
                    class,
                    call,
                );
            assert(fields.contains(one));
        }
    }
    assert(some_among_makes(tree, fields, class, id) == some_field_makes(tree, class, id)) by {
        if some_field_makes(tree, class, id) {
            let one = choose|one: int| #[trigger]
                is_member(tree, at, "field_declaration"@, one) && field_makes(tree, one, class, id);
            assert(fields.contains(one));
        }
    }
    assert(some_method_among_gives(tree, methods, class, call) == some_method_gives(
        tree,
        class,
        call,
    )) by {
        if some_method_gives(tree, class, call) {
            let one = choose|one: int| #[trigger]
                is_member(tree, at, "method_declaration"@, one) && method_gives(
                    tree,
                    one,
                    class,
                    call,
                );
            assert(methods.contains(one));
        }
    }
    assert(some_method_among_makes(tree, methods, class, id) == some_method_makes(
        tree,
        class,
        id,
    )) by {
        if some_method_makes(tree, class, id) {
            let one = choose|one: int| #[trigger]
                is_member(tree, at, "method_declaration"@, one) && method_makes(
                    tree,
                    one,
                    class,
                    id,
                );
            assert(methods.contains(one));
        }
    }
    assert(some_constructor_among(tree, constructors, only_one, class, call)
        == some_constructor_gives(tree, class, call)) by {
        if some_constructor_gives(tree, class, call) {
            let one = choose|one: int| #[trigger]
                is_member(tree, at, "constructor_declaration"@, one) && constructor_gives(
                    tree,
                    one,
                    is_only_constructor(tree, at, one),
                    class,
                    call,
                );
            members_stand_in_the_body(tree, at, "constructor_declaration"@, one);
            lemma_only_constructor(tree, at, one);
            assert(constructors.contains(one));
        }
        if some_constructor_among(tree, constructors, only_one, class, call) {
            let one = choose|one: int| #[trigger]
                constructors.contains(one) && constructor_gives(tree, one, only_one, class, call);
            members_stand_in_the_body(tree, at, "constructor_declaration"@, one);
            lemma_only_constructor(tree, at, one);
            assert(is_member(tree, at, "constructor_declaration"@, one));
        }
    }
}

// ---------------------------------------------------------------------------
// Files

/// The node declares a class or an interface.
pub open spec fn declares_type(tree: TreeView, at: int) -> bool {
    tree.nodes[at].kind == "class_declaration"@ || tree.nodes[at].kind == "interface_declaration"@
}

/// The node declares a class or an interface that stands in no other.
pub open spec fn is_outermost(tree: TreeView, at: int) -> bool {
    &&& 0 < at < end_of(tree, 0)
    &&& declares_type(tree, at)
    &&& forall|other: int|
        0 < other < at && #[trigger] declares_type(tree, other) ==> end_of(tree, other) <= at
}

/// The class or interface of the name at `name_at`, in a package.
pub open spec fn class_in(
    tree: TreeView,
    at: int,
    name_at: int,
    file_path: Seq<char>,
    package: Option<Seq<char>>,
) -> FrameworkClass {
    FrameworkClass {
        at,
        file_path,
        name: trimmed_at(tree, name_at),
        qualified: match package {
            Some(package) => package + "::"@ + trimmed_at(tree, name_at),
            None => trimmed_at(tree, name_at),
        },
        component: is_made(tree, at),
    }
}

/// The class is one that the file declares.
pub open spec fn is_class_of(tree: TreeView, file_path: Seq<char>, class: FrameworkClass) -> bool {
    &&& declares_type(tree, class.at)
    &&& class.file_path == file_path
    &&& class.component == is_made(tree, class.at)
    &&& match child_in_field(tree, class.at, "name"@) {
        Some(name_at) => class.name == trimmed_at(tree, name_at),
        None => false,
    }
}

/// Some class of the file gives the relation.
pub open spec fn some_class_gives(
    tree: TreeView,
    file_path: Seq<char>,
    call: RawCallView,
) -> bool {
    exists|class: FrameworkClass| #[trigger]
        is_class_of(tree, file_path, class) && class_gives(tree, class, call)
}

proof fn lemma_framework_class(
    tree: TreeView,
    at: int,
    name_at: int,
    file_path: Seq<char>,
    package: Option<Seq<char>>,
    parent: Option<Seq<char>>,
)
    requires
        declares_type(tree, at),
        child_in_field(tree, at, "name"@) == Some(name_at),
    ensures
        is_class_of(
            tree,
            file_path,
            framework_class(tree, at, name_at, file_path, package, parent),
        ),
        parent is None ==> framework_class(tree, at, name_at, file_path, package, parent)
            == class_in(tree, at, name_at, file_path, package),
{
    lemma_groups(tree, at);
}

proof fn lemma_walk_sound(
    tree: TreeView,
    from: int,
    limit: int,
    file_path: Seq<char>,
    package: Option<Seq<char>>,
    parent: Option<Seq<char>>,
    types_only: bool,
    out: ExtractionView,
    call: RawCallView,
    id: Seq<char>,
)
    ensures
        ({
            let after = framework_walk(
                tree,
                from,
                limit,
                file_path,
                package,
                parent,
                types_only,
                out,
            );
            &&& out.calls.contains(call) ==> after.calls.contains(call)
            &&& has_id(out.nodes, id) ==> has_id(after.nodes, id)
            &&& after.calls.contains(call) ==> out.calls.contains(call) || some_class_gives(
                tree,
                file_path,
                call,
            )
        }),
    decreases limit - from,
{
    if from < limit {
        let end = subtree_end(tree, from, limit);
        if end > from && end <= limit {
            if is_type_declaration(tree.nodes[from].kind) {
                if let Some(name_at) = child_in_field(tree, from, "name"@) {
                    let class = framework_class(tree, from, name_at, file_path, package, parent);
                    lemma_framework_class(tree, from, name_at, file_path, package, parent);
                    lemma_class(tree, class, out, call, id);
                    if class_gives(tree, class, call) {
                        assert(is_class_of(tree, file_path, class));
                        assert(some_class_gives(tree, file_path, call));
                    }
                    let seen = with_class(tree, class, out);
                    let inner = Some(class.qualified);
                    lemma_walk_sound(
                        tree,
                        from + 1,
                        end,
                        file_path,
                        package,
                        inner,
                        true,
                        seen,
                        call,
                        id,
                    );
                    let here = framework_walk(
                        tree,
                        from + 1,
                        end,
                        file_path,
                        package,
                        inner,
                        true,
                        seen,
                    );
                    lemma_walk_sound(
                        tree,
                        end,
                        limit,
                        file_path,
                        package,
                        parent,
                        types_only,
                        here,
                        call,
                        id,
                    );
                } else {
                    lemma_walk_sound(
                        tree,
                        end,
                        limit,
                        file_path,
                        package,
                        parent,
                        types_only,
                        out,
                        call,
                        id,
                    );
                }
            } else if types_only {
                lemma_walk_sound(
                    tree,
                    end,
                    limit,
                    file_path,
                    package,
                    parent,
                    types_only,
                    out,
                    call,
                    id,
                );
            } else {
                lemma_walk_sound(
                    tree,
                    from + 1,
                    end,
                    file_path,
                    package,
                    parent,
                    false,
                    out,
                    call,
                    id,
                );
                let here = framework_walk(
                    tree,
                    from + 1,
                    end,
                    file_path,
                    package,
                    parent,
                    false,
                    out,
                );
                lemma_walk_sound(
                    tree,
                    end,
                    limit,
                    file_path,
                    package,
                    parent,
                    types_only,
                    here,
                    call,
                    id,
                );
            }
        }
    }
}

proof fn lemma_end_within(
    nodes: Seq<SyntaxNodeView>,
    depth: int,
    from: int,
    limit: int,
    beyond: int,
)
    requires
        from <= limit <= beyond,
    ensures
        end_from(nodes, depth, from, limit) <= end_from(nodes, depth, from, beyond),
    decreases limit - from,
{
    if from < limit {
        if nodes[from].depth > depth {
            lemma_end_within(nodes, depth, from + 1, limit, beyond);
        }
    } else {
        lemma_end_from(nodes, depth, from, beyond);
    }
}

proof fn lemma_walk_finds(
    tree: TreeView,
    from: int,
    limit: int,
    file_path: Seq<char>,
    package: Option<Seq<char>>,
    out: ExtractionView,
    at: int,
    name_at: int,
    call: RawCallView,
    id: Seq<char>,
)
    requires
        0 < from <= at < limit <= tree.nodes.len(),
        is_outermost(tree, at),
        child_in_field(tree, at, "name"@) == Some(name_at),
    ensures
        ({
            let after = framework_walk(tree, from, limit, file_path, package, None, false, out);
            let class = class_in(tree, at, name_at, file_path, package);
            &&& class_gives(tree, class, call) ==> after.calls.contains(call)
            &&& class_makes(tree, class, id) ==> has_id(after.nodes, id)
        }),
    decreases limit - from,
{
    let end = subtree_end(tree, from, limit);
    lemma_end_from(tree.nodes, tree.nodes[from].depth, from + 1, limit);
    lemma_end_within(
        tree.nodes,
        tree.nodes[from].depth,
        from + 1,
        limit,
        tree.nodes.len() as int,
    );
    let here = if is_type_declaration(tree.nodes[from].kind) {
        match child_in_field(tree, from, "name"@) {
            Some(own) => {
                let class = framework_class(tree, from, own, file_path, package, None);
                framework_walk(
                    tree,
                    from + 1,
                    end,
                    file_path,
                    package,
                    Some(class.qualified),
                    true,
                    with_class(tree, class, out),
                )
            },
            None => out,
        }
    } else {
        framework_walk(tree, from + 1, end, file_path, package, None, false, out)
    };
    if from == at {
        let class = framework_class(tree, at, name_at, file_path, package, None);
        lemma_framework_class(tree, at, name_at, file_path, package, None);
        lemma_class(tree, class, out, call, id);
        lemma_walk_sound(
            tree,
            from + 1,
            end,
            file_path,
            package,
            Some(class.qualified),
            true,
            with_class(tree, class, out),
            call,
            id,
        );
        lemma_walk_sound(tree, end, limit, file_path, package, None, false, here, call, id);
    } else if at < end {
        assert(end_of(tree, from) > at);
        assert(!declares_type(tree, from));
        lemma_walk_finds(
            tree,
            from + 1,
            end,
            file_path,
            package,
            out,
            at,
            name_at,
            call,
            id,
        );
        lemma_walk_sound(tree, end, limit, file_path, package, None, false, here, call, id);
    } else {
        lemma_walk_finds(tree, end, limit, file_path, package, here, at, name_at, call, id);
    }
}

/// All that an outermost class gives and makes is found in its file.
pub proof fn classes_are_wired_as_they_say(
    tree: TreeView,
    file_path: Seq<char>,
    at: int,
    name_at: int,
    call: RawCallView,
    id: Seq<char>,
)
    requires
        is_outermost(tree, at),
        child_in_field(tree, at, "name"@) == Some(name_at),
    ensures
        ({
            let class = class_in(tree, at, name_at, file_path, java_package(tree));
            let found = extraction(Grammar::Java, tree, file_path);
            &&& class_gives(tree, class, call) ==> found.calls.contains(call)
            &&& class_makes(tree, class, id) ==> has_id(found.nodes, id)
        }),
{
    if tree.nodes.len() > 0 {
        lemma_end_from(tree.nodes, tree.nodes[0].depth, 1, tree.nodes.len() as int);
        let walked = java_walk(
            tree,
            0,
            tree.nodes.len() as int,
            java_file(tree, file_path),
            JavaScope { parent: None, caller: None, prefixes: None, types: None },
            nothing(),
        );
        lemma_walk_finds(
            tree,
            1,
            end_of(tree, 0),
            file_path,
            java_package(tree),
            walked,
            at,
            name_at,
            call,
            id,
        );
    } else {
        assert(end_of(tree, 0) <= 1);
    }
}

/// The framework adds to a file only what one of its classes gives, and takes nothing
/// away.
pub proof fn nothing_else_is_wired(
    tree: TreeView,
    file_path: Seq<char>,
    package: Option<Seq<char>>,
    out: ExtractionView,
    call: RawCallView,
)
    ensures
        ({
            let after = framework_relationships(tree, file_path, package, out);
            &&& out.calls.contains(call) ==> after.calls.contains(call)
            &&& after.calls.contains(call) ==> out.calls.contains(call) || some_class_gives(
                tree,
                file_path,
                call,
            )
        }),
{
    if tree.nodes.len() > 0 {
        lemma_walk_sound(
            tree,
            1,
            end_of(tree, 0),
            file_path,
            package,
            None,
            false,
            out,
            call,
            file_path,
        );
    }
}

/// What was found of a file before stays found, every call and every id.
pub proof fn framework_keeps_what_was_found(
    tree: TreeView,
    file_path: Seq<char>,
    package: Option<Seq<char>>,
    out: ExtractionView,
    call: RawCallView,
    id: Seq<char>,
)
    ensures
        out.calls.contains(call) ==> framework_relationships(
            tree,
            file_path,
            package,
            out,
        ).calls.contains(call),
        has_id(out.nodes, id) ==> has_id(
            framework_relationships(tree, file_path, package, out).nodes,
            id,
        ),
{
    if tree.nodes.len() > 0 {
        lemma_walk_sound(
            tree,
            1,
            end_of(tree, 0),
            file_path,
            package,
            None,
            false,
            out,
            call,
            id,
        );
    }
}

/// A field that asks for its value, in a class that the framework makes, is given an
/// object of the field's type: whichever of the six annotations marks the class and
/// whichever of the three marks the field.
pub proof fn fields_are_injected(
    tree: TreeView,
    file_path: Seq<char>,
    at: int,
    name_at: int,
    field: int,
    type_at: int,
)
    requires
        is_outermost(tree, at),
        child_in_field(tree, at, "name"@) == Some(name_at),
        bears(tree, at, "Component"@) || bears(tree, at, "Service"@) || bears(
            tree,
            at,
            "Repository"@,
        ) || bears(tree, at, "Controller"@) || bears(tree, at, "RestController"@) || bears(
            tree,
            at,
            "Configuration"@,
        ),
        is_member(tree, at, "field_declaration"@, field),
        bears(tree, field, "Autowired"@) || bears(tree, field, "Inject"@) || bears(
            tree,
            field,
            "Resource"@,
        ),
        child_in_field(tree, field, "type"@) == Some(type_at),
    ensures
        exists|call: RawCallView| #[trigger]
            extraction(Grammar::Java, tree, file_path).calls.contains(call)
                && call.relationship_kind == "injected_into"@ && call.reverse_edge
                && call.callee_name == trimmed_at(tree, type_at) && call.caller_id == file_path
                + "::"@ + class_in(tree, at, name_at, file_path, java_package(tree)).qualified
                && call.target_qualified_hint is None && call.resolution_hint == Some(6int)
                && call.line == tree.nodes[field].start_row + 1 && call.column
                == tree.nodes[field].start_column,
{
    let class = class_in(tree, at, name_at, file_path, java_package(tree));
    let call = injection(tree, field, class, trimmed_at(tree, type_at), 6);
    assert(injects(tree, field, file_path + "::"@ + class.qualified, 6, call));
    assert(field_gives(tree, field, class, call));
    assert(some_field_gives(tree, class, call));
    classes_are_wired_as_they_say(tree, file_path, at, name_at, call, file_path);
    assert(extraction(Grammar::Java, tree, file_path).calls.contains(call));
}

/// The parameters of a constructor are given to a class that the framework makes: with
/// certainty where the constructor asks for them, and by convention where it does not
/// but is the only one.
pub proof fn constructors_are_injected(
    tree: TreeView,
    file_path: Seq<char>,
    at: int,
    name_at: int,
    constructor: int,
    parameter: int,
    type_at: int,
)
    requires
        is_outermost(tree, at),
        child_in_field(tree, at, "name"@) == Some(name_at),
        bears(tree, at, "Component"@) || bears(tree, at, "Service"@) || bears(
            tree,
            at,
            "Repository"@,
        ) || bears(tree, at, "Controller"@) || bears(tree, at, "RestController"@) || bears(
            tree,
            at,
            "Configuration"@,
        ),
        is_member(tree, at, "constructor_declaration"@, constructor),
        constructor < parameter < end_of(tree, constructor),
        tree.nodes[parameter].kind == "formal_parameter"@,
        child_in_field(tree, parameter, "type"@) == Some(type_at),
        asks(tree, constructor) || is_only_constructor(tree, at, constructor),
    ensures
        exists|call: RawCallView| #[trigger]
            extraction(Grammar::Java, tree, file_path).calls.contains(call)
                && call.relationship_kind == "injected_into"@ && call.reverse_edge
                && call.callee_name == trimmed_at(tree, type_at) && call.caller_id == file_path
                + "::"@ + class_in(tree, at, name_at, file_path, java_package(tree)).qualified
                && call.target_qualified_hint is None && call.resolution_hint == Some(
                if asks(tree, constructor) {
                    6int
                } else {
                    7int
                },
            ) && call.line == tree.nodes[parameter].start_row + 1,
{
    let class = class_in(tree, at, name_at, file_path, java_package(tree));
    let tier: int = if asks(tree, constructor) {
        6
    } else {
        7
    };
    let call = injection(tree, parameter, class, trimmed_at(tree, type_at), tier);
    let parameters = descendants(tree, constructor, "formal_parameter"@);
    descendants_stand_below(tree, constructor, "formal_parameter"@, parameter);
    assert(injects(tree, parameter, file_path + "::"@ + class.qualified, tier, call));
    assert(parameters.contains(parameter));
    assert(some_parameter_gives(tree, parameters, class, tier, call));
    assert(constructor_gives(
        tree,
        constructor,
        is_only_constructor(tree, at, constructor),
        class,
        call,
    ));
    assert(class.at == at);
    assert(some_constructor_gives(tree, class, call));
    classes_are_wired_as_they_say(tree, file_path, at, name_at, call, file_path);
    assert(extraction(Grammar::Java, tree, file_path).calls.contains(call));
}

/// What is injected by the framework is injected into a class that it makes.
pub proof fn only_made_classes_are_injected(
    tree: TreeView,
    file_path: Seq<char>,
    package: Option<Seq<char>>,
    out: ExtractionView,
    call: RawCallView,
)
    requires
        framework_relationships(tree, file_path, package, out).calls.contains(call),
        !out.calls.contains(call),
        call.relationship_kind == "injected_into"@,
    ensures
        exists|class: FrameworkClass| #[trigger]
            is_class_of(tree, file_path, class) && is_made(tree, class.at) && call.caller_id
                == file_path + "::"@ + class.qualified,
{
    nothing_else_is_wired(tree, file_path, package, out, call);
    let class = choose|class: FrameworkClass| #[trigger]
        is_class_of(tree, file_path, class) && class_gives(tree, class, call);
    reveal_strlit("injected_into");
    reveal_strlit("configuration_binds");
    reveal_strlit("feign_calls");
    reveal_strlit("consumes_event");
    reveal_strlit("publishes_event");
    assert("injected_into"@.len() == 13);
    assert("configuration_binds"@.len() == 19);
    assert("feign_calls"@.len() == 11);
    assert("consumes_event"@.len() == 14);
    assert("publishes_event"@.len() == 15);
    assert(!some_method_gives(tree, class, call));
    assert(is_class_of(tree, file_path, class) && is_made(tree, class.at));
}

/// A method that listens to events consumes the one it names, or else the one that it is
/// handed.
pub proof fn listeners_consume_their_events(
    tree: TreeView,
    file_path: Seq<char>,
    at: int,
    name_at: int,
    method: int,
    method_name: int,
    event: Seq<char>,
)
    requires
        is_outermost(tree, at),
        child_in_field(tree, at, "name"@) == Some(name_at),
        is_member(tree, at, "method_declaration"@, method),
        child_in_field(tree, method, "name"@) == Some(method_name),
        bears(tree, method, "EventListener"@),
        match listened_among(tree, annotations_of(tree, method)) {
            Some(named) => event == named,
            None => first_parameter(tree, method) == Some(event),
        },
    ensures
        exists|call: RawCallView| #[trigger]
            extraction(Grammar::Java, tree, file_path).calls.contains(call)
                && call.relationship_kind == "consumes_event"@ && call.reverse_edge
                && call.callee_name == event && call.caller_id == file_path + "::"@ + (class_in(
                tree,
                at,
                name_at,
                file_path,
                java_package(tree),
            ).qualified + "::"@ + trimmed_at(tree, method_name)) && call.resolution_hint == Some(
                6int,
            ),
{
    let class = class_in(tree, at, name_at, file_path, java_package(tree));
    let id = file_path + "::"@ + (class.qualified + "::"@ + trimmed_at(tree, method_name));
    let call = relation(tree, method, id, event, "consumes_event"@, true, None, 6);
    assert(consumed_event(tree, method) == Some(event));
    assert(method_gives(tree, method, class, call));
    assert(some_method_gives(tree, class, call));
    classes_are_wired_as_they_say(tree, file_path, at, name_at, call, file_path);
    assert(extraction(Grammar::Java, tree, file_path).calls.contains(call));
}

/// A mapped method of a client calls the endpoint of its name at the client's service,
/// and the endpoint is a symbol of the file.
pub proof fn clients_call_their_endpoints(
    tree: TreeView,
    file_path: Seq<char>,
    at: int,
    name_at: int,
    method: int,
    method_name: int,
    service: Seq<char>,
)
    requires
        is_outermost(tree, at),
        child_in_field(tree, at, "name"@) == Some(name_at),
        annotation_literal(tree, at, "FeignClient"@) == Some(service),
        is_member(tree, at, "method_declaration"@, method),
        child_in_field(tree, method, "name"@) == Some(method_name),
        bears(tree, method, "RequestMapping"@) || bears(tree, method, "GetMapping"@) || bears(
            tree,
            method,
            "PostMapping"@,
        ) || bears(tree, method, "PutMapping"@) || bears(tree, method, "DeleteMapping"@) || bears(
            tree,
            method,
            "PatchMapping"@,
        ),
    ensures
        ({
            let qualified = class_in(tree, at, name_at, file_path, java_package(tree)).qualified
                + "::"@ + trimmed_at(tree, method_name);
            let endpoint = "feign::"@ + service + "::"@ + qualified;
            let found = extraction(Grammar::Java, tree, file_path);
            &&& has_id(found.nodes, file_path + "::"@ + endpoint)
            &&& exists|call: RawCallView| #[trigger]
                found.calls.contains(call) && call.relationship_kind == "feign_calls"@
                    && !call.reverse_edge && call.caller_id == file_path + "::"@ + qualified
                    && call.target_qualified_hint == Some(endpoint) && call.resolution_hint
                    == Some(6int)
        }),
{
    let class = class_in(tree, at, name_at, file_path, java_package(tree));
    let name = trimmed_at(tree, method_name);
    let endpoint = client_endpoint(service, class, name);
    let call = relation(
        tree,
        method,
        file_path + "::"@ + (class.qualified + "::"@ + name),
        name,
        "feign_calls"@,
        false,
        Some(endpoint),
        6,
    );
    assert(method_gives(tree, method, class, call));
    assert(some_method_gives(tree, class, call));
    assert(method_makes(tree, method, class, file_path + "::"@ + endpoint));
    assert(some_method_makes(tree, class, file_path + "::"@ + endpoint));
    classes_are_wired_as_they_say(
        tree,
        file_path,
        at,
        name_at,
        call,
        file_path + "::"@ + endpoint,
    );
    assert(extraction(Grammar::Java, tree, file_path).calls.contains(call));
}

/// A configuration key binds to the class that reads it: by its properties, or by the
/// value of one of its fields where the framework makes the class.
pub proof fn configuration_binds_to_its_readers(
    tree: TreeView,
    file_path: Seq<char>,
    at: int,
    name_at: int,
    reader: int,
    key: Seq<char>,
)
    requires
        is_outermost(tree, at),
        child_in_field(tree, at, "name"@) == Some(name_at),
        (reader == at && annotation_literal(tree, at, "ConfigurationProperties"@) == Some(key)) || (
        is_member(tree, at, "field_declaration"@, reader) && is_made(tree, at)
            && annotation_literal(tree, reader, "Value"@) == Some("${"@ + key + "}"@)),
    ensures
        ({
            let class = class_in(tree, at, name_at, file_path, java_package(tree));
            let qualified = "config::"@ + key + "::"@ + class.qualified;
            let found = extraction(Grammar::Java, tree, file_path);
            &&& has_id(found.nodes, file_path + "::"@ + qualified)
            &&& exists|call: RawCallView| #[trigger]
                found.calls.contains(call) && call.relationship_kind == "configuration_binds"@
                    && !call.reverse_edge && call.caller_id == file_path + "::"@ + qualified
                    && call.callee_name == class.name && call.target_qualified_hint == Some(
                    class.qualified,
                ) && call.resolution_hint == Some(6int)
        }),
{
    let class = class_in(tree, at, name_at, file_path, java_package(tree));
    let qualified = key_name(key, class);
    let id = file_path + "::"@ + qualified;
    let call = relation(
        tree,
        reader,
        id,
        class.name,
        "configuration_binds"@,
        false,
        Some(class.qualified),
        6,
    );
    assert(binds(tree, reader, key, class, call));
    if !(reader == at && annotation_literal(tree, at, "ConfigurationProperties"@) == Some(key)) {
        let value = "${"@ + key + "}"@;
        reveal_strlit("${");
        reveal_strlit("}");
        assert(value.subrange(0, 2) =~= "${"@);
        let rest = value.subrange(2, value.len() as int);
        assert(rest =~= key + "}"@);
        assert(rest.subrange(rest.len() - 1, rest.len() as int) =~= "}"@);
        assert(rest.subrange(0, rest.len() - 1) =~= key);
        assert(annotation_placeholder(tree, reader, "Value"@) == Some(key));
        assert(field_gives(tree, reader, class, call));
        assert(field_makes(tree, reader, class, id));
        assert(some_field_gives(tree, class, call));
        assert(some_field_makes(tree, class, id));
    }
    classes_are_wired_as_they_say(tree, file_path, at, name_at, call, id);
    assert(extraction(Grammar::Java, tree, file_path).calls.contains(call));
}

/// A method that hands a new object to `publishEvent` publishes an event of the object's
/// type.
pub proof fn publishers_publish_what_they_make(
    tree: TreeView,
    file_path: Seq<char>,
    at: int,
    name_at: int,
    method: int,
    method_name: int,
    invocation: int,
    invoked: int,
    list: int,
    made: int,
    type_at: int,
)
    requires
        is_outermost(tree, at),
        child_in_field(tree, at, "name"@) == Some(name_at),
        is_member(tree, at, "method_declaration"@, method),
        child_in_field(tree, method, "name"@) == Some(method_name),
        method < invocation < end_of(tree, method),
        tree.nodes[invocation].kind == "method_invocation"@,
        child_in_field(tree, invocation, "name"@) == Some(invoked),
        trimmed_at(tree, invoked) == "publishEvent"@,
        child_of_kind(tree, invocation, "argument_list"@) == Some(list),
        children(tree, list).len() > 0,
        children(tree, list)[0] == made || (children(tree, list).len() > 1
            && tree.nodes[children(tree, list)[0]].kind == "("@ && children(tree, list)[1] == made),
        tree.nodes[made].kind == "object_creation_expression"@,
        child_in_field(tree, made, "type"@) == Some(type_at),
    ensures
        exists|call: RawCallView| #[trigger]
            extraction(Grammar::Java, tree, file_path).calls.contains(call)
                && call.relationship_kind == "publishes_event"@ && !call.reverse_edge
                && call.callee_name == trimmed_at(tree, type_at) && call.caller_id == file_path
                + "::"@ + (class_in(
                tree,
                at,
                name_at,
                file_path,
                java_package(tree),
            ).qualified + "::"@ + trimmed_at(tree, method_name)) && call.resolution_hint == Some(
                7int,
            ),
{
    let class = class_in(tree, at, name_at, file_path, java_package(tree));
    let id = file_path + "::"@ + (class.qualified + "::"@ + trimmed_at(tree, method_name));
    let event = trimmed_at(tree, type_at);
    let call = relation(tree, made, id, event, "publishes_event"@, false, None, 7);
    let types = java_types(tree, method);
    let arguments = children(tree, list);
    let invocations = descendants(tree, method, "method_invocation"@);
    reveal_strlit("(");
    reveal_strlit("identifier");
    reveal_strlit("object_creation_expression");
    assert("("@.len() == 1 && "identifier"@.len() == 10);
    assert("object_creation_expression"@.len() == 26);
    if arguments[0] != made {
        assert(arguments.skip(1)[0] == made);
        assert(published_event(tree, arguments.skip(1), types) == Some((event, made)));
    }
    assert(published_event(tree, arguments, types) == Some((event, made)));
    assert(publication(tree, invocation, types) == Some((event, made)));
    assert(publishes(tree, invocation, id, types, call));
    descendants_stand_below(tree, method, "method_invocation"@, invocation);
    assert(invocations.contains(invocation));
    assert(some_publishes(tree, invocations, id, types, call));
    assert(method_gives(tree, method, class, call));
    assert(some_method_gives(tree, class, call));
    classes_are_wired_as_they_say(tree, file_path, at, name_at, call, file_path);
    assert(extraction(Grammar::Java, tree, file_path).calls.contains(call));
}

// ---------------------------------------------------------------------------
// What annotations and heads say

/// The annotation is of the name and holds a string.
pub open spec fn tells_string(tree: TreeView, note: int, name: Seq<char>) -> bool {
    is_named(tree, note, name) && descendants(tree, note, "string_literal"@).len() > 0
}

proof fn lemma_literal_among(tree: TreeView, notes: Seq<int>, name: Seq<char>, i: int)
    ensures
        0 <= i < notes.len() && tells_string(tree, notes[i], name) && (forall|j: int|
            0 <= j < i ==> !tells_string(tree, #[trigger] notes[j], name)) ==> literal_among(
            tree,
            notes,
            name,
        ) == Some(
            literal_value(text_at(tree, descendants(tree, notes[i], "string_literal"@)[0])),
        ),
        (forall|j: int| 0 <= j < notes.len() ==> !tells_string(tree, #[trigger] notes[j], name))
            ==> literal_among(tree, notes, name) is None,
    decreases notes.len(),
{
    if notes.len() > 0 {
        let rest = notes.skip(1);
        lemma_literal_among(tree, rest, name, i - 1);
        if 0 < i < notes.len() && tells_string(tree, notes[i], name) && (forall|j: int|
            0 <= j < i ==> !tells_string(tree, #[trigger] notes[j], name)) {
            assert(!tells_string(tree, notes[0], name));
            assert(rest[i - 1] == notes[i]);
            assert forall|j: int| 0 <= j < i - 1 implies !tells_string(
                tree,
                #[trigger] rest[j],
                name,
            ) by {
                assert(rest[j] == notes[j + 1]);
            }
        }
        if forall|j: int| 0 <= j < notes.len() ==> !tells_string(tree, #[trigger] notes[j], name) {
            assert(!tells_string(tree, notes[0], name));
            assert forall|j: int| 0 <= j < rest.len() implies !tells_string(
                tree,
                #[trigger] rest[j],
                name,
            ) by {
                assert(rest[j] == notes[j + 1]);
            }
        }
    }
}

/// What an annotation of a name is given is the first string of the first such annotation
/// that holds one, and nothing where none does.
pub proof fn annotations_are_given_their_first_string(
    tree: TreeView,
    at: int,
    name: Seq<char>,
    i: int,
)
    ensures
        ({
            let notes = annotations_of(tree, at);
            &&& 0 <= i < notes.len() && tells_string(tree, notes[i], name) && (forall|j: int|
                0 <= j < i ==> !tells_string(tree, #[trigger] notes[j], name))
                ==> annotation_literal(tree, at, name) == Some(
                literal_value(text_at(tree, descendants(tree, notes[i], "string_literal"@)[0])),
            )
            &&& (forall|j: int|
                0 <= j < notes.len() ==> !tells_string(tree, #[trigger] notes[j], name))
                ==> annotation_literal(tree, at, name) is None
        }),
{
    lemma_literal_among(tree, annotations_of(tree, at), name, i);
}

/// A listener's annotation names the class that stands behind its parenthesis and before
/// `.class`.
pub proof fn listeners_name_their_class(head: Seq<char>, class: Seq<char>, rest: Seq<char>)
    requires
        none_before(
            head + "("@ + (class + ".class"@ + rest),
            "("@,
            head.len() as int,
        ),
        !contains(class + ".class"@ + rest, "("@),
        none_before(class + ".class"@ + rest, ".class"@, class.len() as int),
        trim(class).len() > 0,
    ensures
        listened_class(head + "("@ + (class + ".class"@ + rest)) == Some(trim(class)),
{
    reveal_strlit("(");
    let inner = class + ".class"@ + rest;
    splitting_goes_on_after_the_first(head, "("@, inner);
    the_first_separator_cuts(inner, "("@, inner, inner);
    assert(split(inner, "("@) == seq![inner]);
    let parts = seq![head] + seq![inner];
    assert(parts[1] == inner);
    the_first_separator_cuts(inner, ".class"@, class, rest);
    assert(is_made_of(inner, class, ".class"@, rest));
}

/// A class serves the service before `Grpc.` in the name that it extends.
pub proof fn servers_extend_their_service(
    head: Seq<char>,
    service: Seq<char>,
    base: Seq<char>,
    rest: Seq<char>,
)
    requires
        none_before(
            head + "extends "@ + (service + "Grpc."@ + base + seq![' '] + rest),
            "extends "@,
            head.len() as int,
        ),
        !contains(service + "Grpc."@ + base + seq![' '] + rest, "extends "@),
        is_solid(service + "Grpc."@ + base),
        none_before(service + "Grpc."@ + base, "Grpc."@, service.len() as int),
    ensures
        extended_service(head + "extends "@ + (service + "Grpc."@ + base + seq![' '] + rest))
            == Some(service),
{
    reveal_strlit("extends ");
    reveal_strlit("Grpc.");
    let word = service + "Grpc."@ + base;
    let inner = word + seq![' '] + rest;
    splitting_goes_on_after_the_first(head, "extends "@, inner);
    the_first_separator_cuts(inner, "extends "@, inner, inner);
    assert(split(inner, "extends "@) == seq![inner]);
    let parts = seq![head] + seq![inner];
    assert(parts[1] == inner);
    assert(inner[0] == word[0]);
    assert(!is_space(word[0]));
    assert(trim_start(inner) == inner);
    lemma_word(word, rest);
    the_first_separator_cuts(word, "Grpc."@, service, base);
    assert(is_made_of(word, service, "Grpc."@, base));
}

proof fn lemma_word(word: Seq<char>, rest: Seq<char>)
    requires
        is_solid(word),
    ensures
        word_prefix(word + seq![' '] + rest) == word,
    decreases word.len(),
{
    let text = word + seq![' '] + rest;
    if word.len() == 0 {
        assert(text[0] == ' ');
        assert(word_prefix(text) =~= word);
    } else {
        assert(text[0] == word[0]);
        assert(!is_space(word[0]));
        let shorter = word.skip(1);
        assert forall|i: int| 0 <= i < shorter.len() implies !is_space(#[trigger] shorter[i]) by {
            assert(shorter[i] == word[i + 1]);
        }
        lemma_word(shorter, rest);
        assert(text.skip(1) =~= shorter + seq![' '] + rest);
        assert(word_prefix(text) =~= seq![word[0]] + shorter);
        assert(seq![word[0]] + shorter =~= word);
    }
}

/// A method that hands a variable to `publishEvent` publishes an event of the variable's
/// type.
pub proof fn variables_are_published_by_type(
    tree: TreeView,
    invocation: int,
    invoked: int,
    list: int,
    types: Map<Seq<char>, Seq<char>>,
    variable: int,
)
    requires
        child_in_field(tree, invocation, "name"@) == Some(invoked),
        child_of_kind(tree, invocation, "argument_list"@) == Some(list),
        children(tree, list).len() > 0,
        children(tree, list)[0] == variable || (children(tree, list).len() > 1
            && tree.nodes[children(tree, list)[0]].kind == "("@ && children(tree, list)[1]
            == variable),
        tree.nodes[variable].kind == "identifier"@,
        types.dom().contains(trimmed_at(tree, variable)),
    ensures
        trimmed_at(tree, invoked) == "publishEvent"@ ==> publication(tree, invocation, types)
            == Some((types[trimmed_at(tree, variable)], variable)),
        trimmed_at(tree, invoked) != "publishEvent"@ ==> publication(
            tree,
            invocation,
            types,
        ) is None,
{
    reveal_strlit("(");
    reveal_strlit("identifier");
    reveal_strlit("object_creation_expression");
    assert("("@.len() == 1 && "identifier"@.len() == 10);
    assert("object_creation_expression"@.len() == 26);
    let arguments = children(tree, list);
    if arguments[0] != variable {
        assert(arguments.skip(1)[0] == variable);
        assert(published_event(tree, arguments.skip(1), types) == Some(
            (types[trimmed_at(tree, variable)], variable),
        ));
    }
}

/// A method of a server is an endpoint of its service.
pub proof fn servers_make_their_endpoints(
    tree: TreeView,
    file_path: Seq<char>,
    at: int,
    name_at: int,
    method: int,
    method_name: int,
    service: Seq<char>,
)
    requires
        is_outermost(tree, at),
        child_in_field(tree, at, "name"@) == Some(name_at),
        bears(tree, at, "GrpcService"@),
        extended_service(signature(tree, at)) == Some(service),
        is_member(tree, at, "method_declaration"@, method),
        child_in_field(tree, method, "name"@) == Some(method_name),
    ensures
        has_id(
            extraction(Grammar::Java, tree, file_path).nodes,
            file_path + "::"@ + ("grpc::"@ + service + "::"@ + trimmed_at(tree, method_name)),
        ),
{
    let class = class_in(tree, at, name_at, file_path, java_package(tree));
    let id = file_path + "::"@ + ("grpc::"@ + service + "::"@ + trimmed_at(tree, method_name));
    assert(method_makes(tree, method, class, id));
    assert(some_method_makes(tree, class, id));
    let call = call_at(tree, at, file_path, file_path);
    classes_are_wired_as_they_say(tree, file_path, at, name_at, call, id);
}

} // verus!
