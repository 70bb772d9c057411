//! What resolving a call is for, told of the symbols of a project and the words of the
//! call: which symbols it may mean, in which order the ways to tell them apart are tried,
//! and how certain each of them is.

use vstd::prelude::*;
use crate::commands::index::laws::{bearing, entries_at, entry_of, lemma_caller, lemma_entries};
use crate::commands::index::order::{lemma_best_of_members, lemma_meeting, meeting};
use crate::commands::snapshot::node_with_id;
use crate::db::{EdgeView, NodeView, RawCallView, UnresolvedRefView};
use crate::ordered::chosen;
use crate::parser::edge_order::{best_kinds, is_canonical, key_of, lemma_ascending_kinds};
use crate::parser::interner::index_of_nodes;
use crate::parser::resolve::{
    call_edges, called_name, caller_symbol, candidates_of, edges_of_calls, file_criterion,
    import_at, import_char_matches, import_criterion, imported_receiver_criterion, matching_some,
    meets, namespace_criterion, package_criterion, path_criterion, receiver_criterion, resolution,
    scope_criterion, unresolved_of_calls, CriterionView,
};
use crate::parser::tables::SymbolIx;
use crate::text::{before_first, rsplit_once, split, text_lt};

verus! {

// ---------------------------------------------------------------------------
// How a symbol can be told apart

/// The name of a symbol with its scopes.
pub open spec fn full_name(node: NodeView) -> Seq<char> {
    match node.qualified_name {
        Some(name) => name,
        None => node.name,
    }
}

/// The innermost scope of a name: the last part of what stands before its last `::`.
pub open spec fn inner_scope(name: Seq<char>) -> Option<Seq<char>> {
    match rsplit_once(name, "::"@) {
        Some((scopes, _)) => Some(
            match rsplit_once(scopes, "::"@) {
                Some((_, last)) => last,
                None => scopes,
            },
        ),
        None => None,
    }
}

/// The name is `owner`, `::` and the simple name, where the parts of `owner` are those of
/// the import between its dots.
pub open spec fn is_imported(node: NodeView, hint: Seq<char>, simple: Seq<char>) -> bool {
    exists|owner: Seq<char>|
        #![trigger split(owner, "::"@)]
        full_name(node) == owner + "::"@ + simple && split(owner, "::"@) == split(hint, "."@)
}

/// What stands before the last `::` of the name is the type, or ends with `::` and the
/// type.
pub open spec fn is_of_type(node: NodeView, receiver_type: Seq<char>) -> bool {
    match rsplit_once(full_name(node), "::"@) {
        Some((owner, _)) => owner == receiver_type || exists|outer: Seq<char>|
            owner == #[trigger] (outer + ("::"@ + receiver_type)),
        None => false,
    }
}

/// Somewhere in the path of its file stands the import, a dot in it for any separator and
/// a slash for either slash.
pub open spec fn is_in_path(node: NodeView, hint: Seq<char>) -> bool {
    exists|at: int| #[trigger]
        node.file_path.subrange(at, at + hint.len()).len() == hint.len() && 0 <= at && at
            + hint.len() <= node.file_path.len() && forall|j: int|
            #![trigger hint[j]]
            0 <= j < hint.len() ==> {
                let own = node.file_path[at + j];
                ||| own == hint[j] && hint[j] != '/' && hint[j] != '\\'
                ||| (own == '/' || own == '\\') && (hint[j] == '.' || hint[j] == '/' || hint[j]
                    == '\\')
            }
}

/// The name ends with the scope, `::` and the simple name.
pub open spec fn is_in_scope(node: NodeView, scope: Seq<char>, simple: Seq<char>) -> bool {
    exists|outer: Seq<char>| full_name(node) == #[trigger] (outer + (scope + "::"@ + simple))
}

/// The symbols with a name of which something holds.
pub open spec fn those(
    nodes: Seq<NodeView>,
    name: Seq<char>,
    holds: spec_fn(NodeView) -> bool,
) -> Seq<NodeView> {
    chosen(nodes, |node: NodeView| node.name == name && holds(node))
}

/// The simple name of what is called: what follows the last `::`.
pub open spec fn simple_name(call: RawCallView) -> Seq<char> {
    match rsplit_once(call.callee_name, "::"@) {
        Some((_, simple)) => simple,
        None => call.callee_name,
    }
}

/// The symbols that a call may mean and that the import names in full.
pub open spec fn imported(nodes: Seq<NodeView>, call: RawCallView) -> Seq<NodeView> {
    those(
        nodes,
        simple_name(call),
        |node: NodeView|
            call.import_hint matches Some(hint) && is_imported(node, hint, simple_name(call)),
    )
}

/// The symbols that a call may mean in the receiver's type and in an imported file.
pub open spec fn of_imported_type(nodes: Seq<NodeView>, call: RawCallView) -> Seq<NodeView> {
    those(
        nodes,
        simple_name(call),
        |node: NodeView|
            call.import_hint matches Some(hint) && call.receiver_type matches Some(receiver)
                && is_of_type(node, receiver) && is_in_path(node, hint),
    )
}

/// The symbols that a call may mean in the receiver's type.
pub open spec fn of_type(nodes: Seq<NodeView>, call: RawCallView) -> Seq<NodeView> {
    those(
        nodes,
        simple_name(call),
        |node: NodeView|
            call.receiver_type matches Some(receiver) && is_of_type(node, receiver),
    )
}

/// The symbols that a call may mean in an imported file.
pub open spec fn in_imported_path(nodes: Seq<NodeView>, call: RawCallView) -> Seq<NodeView> {
    those(
        nodes,
        simple_name(call),
        |node: NodeView| call.import_hint matches Some(hint) && is_in_path(node, hint),
    )
}

/// The symbols that a call may mean in the caller's package.
pub open spec fn in_package(nodes: Seq<NodeView>, call: RawCallView) -> Seq<NodeView> {
    those(
        nodes,
        simple_name(call),
        |node: NodeView|
            call.package_or_namespace matches Some(package) && before_first(
                full_name(node),
                "::"@,
            ) == package,
    )
}

/// The symbols that a call may mean in the scope that it names.
pub open spec fn in_named_scope(nodes: Seq<NodeView>, call: RawCallView) -> Seq<NodeView> {
    those(
        nodes,
        simple_name(call),
        |node: NodeView|
            inner_scope(call.callee_name) matches Some(scope) && is_in_scope(
                node,
                scope,
                simple_name(call),
            ),
    )
}

/// The symbols that a call may mean in the caller's own scope.
pub open spec fn in_own_scope(nodes: Seq<NodeView>, call: RawCallView) -> Seq<NodeView> {
    those(
        nodes,
        simple_name(call),
        |node: NodeView|
            node_with_id(nodes, call.caller_id) matches Some(caller)
                && caller.qualified_name matches Some(own) && node.qualified_name matches Some(name)
                && inner_scope(own) is Some && inner_scope(name) == inner_scope(own),
    )
}

/// The symbols that a call may mean in the caller's own file.
pub open spec fn in_own_file(nodes: Seq<NodeView>, call: RawCallView) -> Seq<NodeView> {
    those(
        nodes,
        simple_name(call),
        |node: NodeView|
            node_with_id(nodes, call.caller_id) matches Some(caller) && node.file_path
                == caller.file_path,
    )
}

/// The symbols that a call may mean.
pub open spec fn all_meant(nodes: Seq<NodeView>, call: RawCallView) -> Seq<NodeView> {
    those(nodes, simple_name(call), |node: NodeView| true)
}

/// A call is an ordinary one, not through a pointer: a framework's relation it is only
/// where a route leads to its handler.
pub open spec fn is_ordinary(call: RawCallView) -> bool {
    &&& call.relationship_kind == "calls"@ || call.relationship_kind == "route_handler"@
    &&& call.call_kind != Some("indirect"@)
}

/// The edges by which a symbol calls others at a resolution kind.
pub open spec fn calls_to(caller_id: Seq<char>, targets: Seq<NodeView>, kind: int) -> Seq<
    EdgeView,
> {
    targets.map_values(
        |target: NodeView|
            EdgeView {
                source_id: caller_id,
                target_id: target.id,
                kind: "calls"@,
                resolution_kind: kind,
            },
    )
}

// ---------------------------------------------------------------------------
// The criteria say that

proof fn lemma_imported(node: NodeView, hint: Seq<char>, simple: Seq<char>)
    ensures
        is_imported(node, hint, simple) == meets(
            entry_of(node),
            CriterionView::Import { hint, simple_name: simple },
        ),
{
    let name = full_name(node);
    let tail = "::"@ + simple;
    if is_imported(node, hint, simple) {
        let owner = choose|owner: Seq<char>|
            #![trigger split(owner, "::"@)]
            name == owner + "::"@ + simple && split(owner, "::"@) == split(hint, "."@);
        assert(name.take(name.len() - tail.len()) =~= owner);
        assert(name.subrange(name.len() - tail.len(), name.len() as int) =~= tail);
    }
    if meets(entry_of(node), CriterionView::Import { hint, simple_name: simple }) {
        let owner = name.take(name.len() - tail.len());
        assert(name =~= owner + "::"@ + simple) by {
            assert(name =~= owner + name.subrange(
                name.len() - tail.len(),
                name.len() as int,
            ));
        }
        assert(split(owner, "::"@) == split(hint, "."@));
    }
}

proof fn lemma_ends(text: Seq<char>, suffix: Seq<char>)
    ensures
        crate::text::ends_with(text, suffix) <==> exists|outer: Seq<char>|
            text == #[trigger] (outer + suffix),
{
    if crate::text::ends_with(text, suffix) {
        let outer = text.take(text.len() - suffix.len());
        assert(text =~= outer + suffix) by {
            assert(text =~= outer + text.subrange(
                text.len() - suffix.len(),
                text.len() as int,
            ));
        }
    }
    if exists|outer: Seq<char>| text == #[trigger] (outer + suffix) {
        let outer = choose|outer: Seq<char>| text == #[trigger] (outer + suffix);
        assert(text.subrange(text.len() - suffix.len(), text.len() as int) =~= suffix);
    }
}

proof fn lemma_of_type(node: NodeView, receiver_type: Seq<char>)
    ensures
        is_of_type(node, receiver_type) == meets(
            entry_of(node),
            CriterionView::Receiver { receiver_type },
        ),
{
    if let Some((owner, _)) = rsplit_once(full_name(node), "::"@) {
        lemma_ends(owner, "::"@ + receiver_type);
    }
}

proof fn lemma_in_path(node: NodeView, hint: Seq<char>)
    ensures
        is_in_path(node, hint) == meets(entry_of(node), CriterionView::Path { hint }),
{
    let path = node.file_path;
    if is_in_path(node, hint) {
        let at = choose|at: int| #[trigger]
            path.subrange(at, at + hint.len()).len() == hint.len() && 0 <= at && at + hint.len()
                <= path.len() && forall|j: int|
                #![trigger hint[j]]
                0 <= j < hint.len() ==> {
                    let own = path[at + j];
                    ||| own == hint[j] && hint[j] != '/' && hint[j] != '\\'
                    ||| (own == '/' || own == '\\') && (hint[j] == '.' || hint[j] == '/'
                        || hint[j] == '\\')
                };
        assert(import_at(path, hint, at));
    }
    if meets(entry_of(node), CriterionView::Path { hint }) {
        let at = choose|at: int| import_at(path, hint, at);
        assert(path.subrange(at, at + hint.len()).len() == hint.len());
        assert forall|j: int|
            #![trigger hint[j]]
            0 <= j < hint.len() implies {
            let own = path[at + j];
            ||| own == hint[j] && hint[j] != '/' && hint[j] != '\\'
            ||| (own == '/' || own == '\\') && (hint[j] == '.' || hint[j] == '/' || hint[j]
                == '\\')
        } by {
            assert(import_char_matches(path[at + j], hint[j]));
        }
    }
}

proof fn lemma_in_scope(node: NodeView, scope: Seq<char>, simple: Seq<char>)
    ensures
        is_in_scope(node, scope, simple) == meets(
            entry_of(node),
            CriterionView::Scope { namespace: scope, simple_name: simple },
        ),
{
    lemma_ends(full_name(node), scope + "::"@ + simple);
}

proof fn lemma_chosen_by_both(
    nodes: Seq<NodeView>,
    name: Seq<char>,
    holds: spec_fn(NodeView) -> bool,
    other: spec_fn(NodeView) -> bool,
)
    requires
        forall|node: NodeView| #[trigger] other(node) == holds(node),
    ensures
        chosen(bearing(nodes, name), other) == those(nodes, name, holds),
    decreases nodes.len(),
{
    if nodes.len() > 0 {
        let front = nodes.drop_last();
        let last = nodes.last();
        lemma_chosen_by_both(front, name, holds, other);
        assert(other(last) == holds(last));
        if last.name == name {
            assert(bearing(nodes, name).drop_last() =~= bearing(front, name));
        }
    }
}

proof fn lemma_those(
    nodes: Seq<NodeView>,
    call: RawCallView,
    criterion: Option<CriterionView>,
    holds: spec_fn(NodeView) -> bool,
)
    requires
        nodes.len() <= 0x1_0000_0000,
        criterion is None ==> forall|node: NodeView| !#[trigger] holds(node),
        criterion matches Some(asked) ==> forall|node: NodeView| #[trigger]
            holds(node) == meets(entry_of(node), asked),
    ensures
        ({
            let index = index_of_nodes(nodes);
            let found = matching_some(index.symbols, candidates_of(index, call), criterion);
            let meant = those(nodes, simple_name(call), holds);
            &&& entries_at(index.symbols, found) == meant.map_values(
                |node: NodeView| entry_of(node),
            )
            &&& found.len() == meant.len()
        }),
{
    let index = index_of_nodes(nodes);
    let name = simple_name(call);
    let found = matching_some(index.symbols, candidates_of(index, call), criterion);
    let meant = those(nodes, name, holds);
    lemma_entries(nodes, name);
    match criterion {
        Some(asked) => {
            let other = |node: NodeView| meets(entry_of(node), asked);
            assert forall|node: NodeView| #[trigger] other(node) == holds(node) by {}
            lemma_meeting(
                index.symbols,
                candidates_of(index, call),
                bearing(nodes, name),
                asked,
            );
            lemma_chosen_by_both(nodes, name, holds, other);
            assert(meeting(bearing(nodes, name), asked) == meant);
        },
        None => {
            crate::ordered::nothing_is_chosen(
                nodes,
                |node: NodeView| node.name == name && holds(node),
            );
            assert(entries_at(index.symbols, found) =~= meant.map_values(
                |node: NodeView| entry_of(node),
            ));
        },
    }
    assert(entries_at(index.symbols, found).len() == found.len());
    assert(meant.map_values(|node: NodeView| entry_of(node)).len() == meant.len());
}

proof fn lemma_calls_to(
    nodes: Seq<NodeView>,
    call: RawCallView,
    targets: Seq<SymbolIx>,
    kind: int,
    meant: Seq<NodeView>,
)
    requires
        is_ordinary(call),
        resolution(index_of_nodes(nodes), call) == (targets, kind),
        entries_at(index_of_nodes(nodes).symbols, targets) == meant.map_values(
            |node: NodeView| entry_of(node),
        ),
    ensures
        call_edges(index_of_nodes(nodes), call) == calls_to(call.caller_id, meant, kind),
{
    let index = index_of_nodes(nodes);
    let entries = entries_at(index.symbols, targets);
    assert(entries.len() == targets.len());
    assert(meant.map_values(|node: NodeView| entry_of(node)).len() == meant.len());
    let edges = call_edges(index, call);
    let wanted = calls_to(call.caller_id, meant, kind);
    assert forall|i: int| 0 <= i < targets.len() implies edges[i] == wanted[i] by {
        assert(entries[i] == index.symbols[targets[i] as int]);
        assert(meant.map_values(|node: NodeView| entry_of(node))[i] == entry_of(meant[i]));
    }
    assert(edges =~= wanted);
}

/// The ways to tell the symbols of a name apart are tried one after the other, from the
/// most certain to the least. An ordinary call leads to the one symbol that the import
/// names in full, or else to the one of the receiver's type in an imported file, both at
/// kind 5; or else to the one of the receiver's type, where none of that type is in an
/// imported file, at kind 4; or else to the one in an imported file, in the caller's
/// package, or in the scope that the call names, at kind 3; or else to the one in the
/// caller's own scope at kind 2, whatever else the caller's file holds; or else to all in
/// the caller's own file at kind 1; or else to the only one there is at kind 0; and else
/// nowhere.
pub proof fn ways_to_resolve_are_tried_in_turn(nodes: Seq<NodeView>, call: RawCallView)
    requires
        nodes.len() <= 0x1_0000_0000,
        is_ordinary(call),
    ensures
        ({
            let edges = call_edges(index_of_nodes(nodes), call);
            let to = |targets: Seq<NodeView>, kind: int| calls_to(call.caller_id, targets, kind);
            let by_import = imported(nodes, call).len() == 1;
            let by_imported_type = of_imported_type(nodes, call).len() == 1;
            let by_type = of_imported_type(nodes, call).len() == 0 && of_type(
                nodes,
                call,
            ).len() == 1;
            let strong = by_import || by_imported_type || by_type;
            let by_path = in_imported_path(nodes, call).len() == 1;
            let by_package = in_package(nodes, call).len() == 1;
            let by_scope = in_named_scope(nodes, call).len() == 1;
            let placed = strong || by_path || by_package || by_scope;
            let by_own_scope = in_own_scope(nodes, call).len() == 1;
            let by_own_file = in_own_file(nodes, call).len() > 0;
            &&& by_import ==> edges == to(imported(nodes, call), 5)
            &&& !by_import && by_imported_type ==> edges == to(of_imported_type(nodes, call), 5)
            &&& !by_import && !by_imported_type && by_type ==> edges == to(
                of_type(nodes, call),
                4,
            )
            &&& !strong && by_path ==> edges == to(in_imported_path(nodes, call), 3)
            &&& !strong && !by_path && by_package ==> edges == to(in_package(nodes, call), 3)
            &&& !strong && !by_path && !by_package && by_scope ==> edges == to(
                in_named_scope(nodes, call),
                3,
            )
            &&& !placed && by_own_scope ==> edges == to(in_own_scope(nodes, call), 2)
            &&& !placed && !by_own_scope && by_own_file ==> edges == to(
                in_own_file(nodes, call),
                1,
            )
            &&& !placed && !by_own_scope && !by_own_file && all_meant(nodes, call).len() == 1
                ==> edges == to(all_meant(nodes, call), 0)
            &&& !placed && !by_own_scope && !by_own_file && all_meant(nodes, call).len() != 1
                ==> edges.len() == 0
        }),
{
    let index = index_of_nodes(nodes);
    let caller = caller_symbol(index, call.caller_id);
    let candidates = candidates_of(index, call);
    let simple = simple_name(call);
    let (targets, kind) = resolution(index, call);
    lemma_caller(nodes, call.caller_id);
    assert(called_name(call.callee_name).1 == simple);
    assert(called_name(call.callee_name).0 == inner_scope(call.callee_name));

    let p1 = |node: NodeView|
        call.import_hint matches Some(hint) && is_imported(node, hint, simple);
    if let Some(hint) = call.import_hint {
        assert forall|node: NodeView| #[trigger] p1(node) == meets(
            entry_of(node),
            import_criterion(call)->0,
        ) by {
            lemma_imported(node, hint, simple);
        }
    }
    lemma_those(nodes, call, import_criterion(call), p1);
    assert(those(nodes, simple, p1) == imported(nodes, call));

    let p2 = |node: NodeView|
        call.import_hint matches Some(hint) && call.receiver_type matches Some(receiver)
            && is_of_type(node, receiver) && is_in_path(node, hint);
    if call.import_hint is Some && call.receiver_type is Some {
        assert forall|node: NodeView| #[trigger] p2(node) == meets(
            entry_of(node),
            imported_receiver_criterion(call)->0,
        ) by {
            lemma_of_type(node, call.receiver_type->0);
            lemma_in_path(node, call.import_hint->0);
        }
    }
    lemma_those(nodes, call, imported_receiver_criterion(call), p2);
    assert(those(nodes, simple, p2) == of_imported_type(nodes, call));

    let p3 = |node: NodeView|
        call.receiver_type matches Some(receiver) && is_of_type(node, receiver);
    if call.receiver_type is Some {
        assert forall|node: NodeView| #[trigger] p3(node) == meets(
            entry_of(node),
            receiver_criterion(call)->0,
        ) by {
            lemma_of_type(node, call.receiver_type->0);
        }
    }
    lemma_those(nodes, call, receiver_criterion(call), p3);
    assert(those(nodes, simple, p3) == of_type(nodes, call));

    let p4 = |node: NodeView| call.import_hint matches Some(hint) && is_in_path(node, hint);
    if call.import_hint is Some {
        assert forall|node: NodeView| #[trigger] p4(node) == meets(
            entry_of(node),
            path_criterion(call)->0,
        ) by {
            lemma_in_path(node, call.import_hint->0);
        }
    }
    lemma_those(nodes, call, path_criterion(call), p4);
    assert(those(nodes, simple, p4) == in_imported_path(nodes, call));

    let p5 = |node: NodeView|
        call.package_or_namespace matches Some(package) && before_first(full_name(node), "::"@)
            == package;
    lemma_those(nodes, call, package_criterion(call), p5);
    assert(those(nodes, simple, p5) == in_package(nodes, call));

    let p6 = |node: NodeView|
        inner_scope(call.callee_name) matches Some(scope) && is_in_scope(node, scope, simple);
    if let Some(scope) = inner_scope(call.callee_name) {
        assert forall|node: NodeView| #[trigger] p6(node) == meets(
            entry_of(node),
            scope_criterion(call)->0,
        ) by {
            lemma_in_scope(node, scope, simple);
        }
    }
    lemma_those(nodes, call, scope_criterion(call), p6);
    assert(those(nodes, simple, p6) == in_named_scope(nodes, call));

    let p7 = |node: NodeView|
        node_with_id(nodes, call.caller_id) matches Some(caller)
            && caller.qualified_name matches Some(own) && node.qualified_name matches Some(name)
            && inner_scope(own) is Some && inner_scope(name) == inner_scope(own);
    lemma_those(nodes, call, namespace_criterion(caller), p7);
    assert(those(nodes, simple, p7) == in_own_scope(nodes, call));

    let p8 = |node: NodeView|
        node_with_id(nodes, call.caller_id) matches Some(caller) && node.file_path
            == caller.file_path;
    lemma_those(nodes, call, file_criterion(caller), p8);
    assert(those(nodes, simple, p8) == in_own_file(nodes, call));

    lemma_entries(nodes, simple);
    let p9 = |node: NodeView| true;
    lemma_bearers(nodes, simple);
    assert(those(nodes, simple, p9) == all_meant(nodes, call));
    assert(entries_at(index.symbols, candidates).len() == candidates.len());
    assert(all_meant(nodes, call).map_values(|node: NodeView| entry_of(node)).len() == all_meant(
        nodes,
        call,
    ).len());
    lemma_meant_by(nodes, call, imported(nodes, call), 5);
    lemma_meant_by(nodes, call, of_imported_type(nodes, call), 5);
    lemma_meant_by(nodes, call, of_type(nodes, call), 4);
    lemma_meant_by(nodes, call, in_imported_path(nodes, call), 3);
    lemma_meant_by(nodes, call, in_package(nodes, call), 3);
    lemma_meant_by(nodes, call, in_named_scope(nodes, call), 3);
    lemma_meant_by(nodes, call, in_own_scope(nodes, call), 2);
    lemma_meant_by(nodes, call, in_own_file(nodes, call), 1);
    lemma_meant_by(nodes, call, all_meant(nodes, call), 0);
}

proof fn lemma_bearers(nodes: Seq<NodeView>, name: Seq<char>)
    ensures
        bearing(nodes, name) == those(nodes, name, |node: NodeView| true),
    decreases nodes.len(),
{
    if nodes.len() > 0 {
        lemma_bearers(nodes.drop_last(), name);
    }
}

proof fn lemma_meant_by(
    nodes: Seq<NodeView>,
    call: RawCallView,
    meant: Seq<NodeView>,
    kind: int,
)
    requires
        is_ordinary(call),
    ensures
        resolution(index_of_nodes(nodes), call).1 == kind && entries_at(
            index_of_nodes(nodes).symbols,
            resolution(index_of_nodes(nodes), call).0,
        ) == meant.map_values(|node: NodeView| entry_of(node)) ==> call_edges(
            index_of_nodes(nodes),
            call,
        ) == calls_to(call.caller_id, meant, kind),
{
    let index = index_of_nodes(nodes);
    let (targets, found) = resolution(index, call);
    if found == kind && entries_at(index.symbols, targets) == meant.map_values(
        |node: NodeView| entry_of(node),
    ) {
        lemma_calls_to(nodes, call, targets, kind, meant);
    }
}

// ---------------------------------------------------------------------------
// Relations, and calls that lead nowhere

/// The edge of a relation: from the symbol that records it to its target, or from the
/// target where the relation is reversed, with the relation's own kind.
pub open spec fn related_by(call: RawCallView, target_id: Seq<char>, kind: int) -> EdgeView {
    EdgeView {
        source_id: if call.reverse_edge {
            target_id
        } else {
            call.caller_id
        },
        target_id: if call.reverse_edge {
            call.caller_id
        } else {
            target_id
        },
        kind: call.relationship_kind,
        resolution_kind: kind,
    }
}

/// A framework's relation that names its target in full has an edge just where exactly one
/// symbol of that name is there, at the kind that was recorded.
pub proof fn named_relations_lead_to_the_named(nodes: Seq<NodeView>, call: RawCallView)
    requires
        nodes.len() <= 0x1_0000_0000,
        call.relationship_kind != "calls"@,
        call.relationship_kind != "route_handler"@,
        call.target_qualified_hint is Some,
        call.resolution_hint is Some,
    ensures
        ({
            let name = call.target_qualified_hint->0;
            let named = those(
                nodes,
                simple_name(call),
                |node: NodeView| full_name(node) == name,
            );
            let edges = call_edges(index_of_nodes(nodes), call);
            &&& named.len() == 1 ==> edges == seq![
                related_by(call, named[0].id, call.resolution_hint->0),
            ]
            &&& named.len() != 1 ==> edges.len() == 0
        }),
{
    let index = index_of_nodes(nodes);
    let name = call.target_qualified_hint->0;
    let holds = |node: NodeView| full_name(node) == name;
    let named = those(nodes, simple_name(call), holds);
    lemma_those(nodes, call, Some(CriterionView::Qualified { name }), holds);
    let (targets, kind) = resolution(index, call);
    if named.len() == 1 {
        assert(entries_at(index.symbols, targets)[0] == index.symbols[targets[0] as int]);
        assert(named.map_values(|node: NodeView| entry_of(node))[0] == entry_of(named[0]));
        assert(call_edges(index, call) =~= seq![
            related_by(call, named[0].id, call.resolution_hint->0),
        ]);
    }
}

/// Any other relation leads to the symbols that an ordinary call with the same words
/// would, at the kind that was recorded.
pub proof fn other_relations_lead_where_calls_would(
    nodes: Seq<NodeView>,
    call: RawCallView,
    ordinary: RawCallView,
)
    requires
        call.relationship_kind != "calls"@,
        call.relationship_kind != "route_handler"@,
        call.target_qualified_hint is None,
        call.resolution_hint is Some,
        ordinary == (RawCallView { relationship_kind: "calls"@, call_kind: None, ..call }),
    ensures
        ({
            let index = index_of_nodes(nodes);
            let edges = call_edges(index, call);
            let plain = call_edges(index, ordinary);
            &&& edges.len() == plain.len()
            &&& forall|i: int|
                0 <= i < edges.len() ==> #[trigger] edges[i] == related_by(
                    call,
                    plain[i].target_id,
                    call.resolution_hint->0,
                )
        }),
{
    let index = index_of_nodes(nodes);
    let caller = caller_symbol(index, call.caller_id);
    assert(import_criterion(call) == import_criterion(ordinary));
    assert(imported_receiver_criterion(call) == imported_receiver_criterion(ordinary));
    assert(receiver_criterion(call) == receiver_criterion(ordinary));
    assert(path_criterion(call) == path_criterion(ordinary));
    assert(package_criterion(call) == package_criterion(ordinary));
    assert(scope_criterion(call) == scope_criterion(ordinary));
    assert(candidates_of(index, call) == candidates_of(index, ordinary));
    assert(resolution(index, call).0 == resolution(index, ordinary).0);
    let edges = call_edges(index, call);
    let plain = call_edges(index, ordinary);
    assert forall|i: int| 0 <= i < edges.len() implies #[trigger] edges[i] == related_by(
        call,
        plain[i].target_id,
        call.resolution_hint->0,
    ) by {
        assert(plain[i].source_id == ordinary.caller_id);
    }
}

/// A call through a pointer leads nowhere, whatever symbols bear the name.
pub proof fn calls_through_pointers_are_not_guessed(nodes: Seq<NodeView>, call: RawCallView)
    requires
        call.relationship_kind == "calls"@,
        call.call_kind == Some("indirect"@),
    ensures
        call_edges(index_of_nodes(nodes), call).len() == 0,
{
}

/// A call has edges or leaves a reference, and not both. The reference stands where the
/// call does and says what was called; its kind tells of a pointer, of what may be a macro,
/// of the relation, or of a call.
pub proof fn calls_without_edges_leave_references(nodes: Seq<NodeView>, call: RawCallView)
    ensures
        ({
            let index = index_of_nodes(nodes);
            let relates = call.relationship_kind != "calls"@ && call.relationship_kind
                != "route_handler"@;
            let open = unresolved_of_calls(index, seq![call]);
            &&& edges_of_calls(index, seq![call]) == call_edges(index, call)
            &&& call_edges(index, call).len() > 0 ==> open.len() == 0
            &&& call_edges(index, call).len() == 0 ==> open == seq![
                UnresolvedRefView {
                    id: None,
                    source_id: call.caller_id,
                    specifier: if relates && call.target_qualified_hint is Some {
                        call.target_qualified_hint->0
                    } else {
                        call.callee_name
                    },
                    kind: if relates {
                        call.relationship_kind
                    } else if call.call_kind == Some("indirect"@) {
                        "indirect_call"@
                    } else if call.call_kind == Some("macro_or_function"@) {
                        "macro_or_function"@
                    } else {
                        "calls"@
                    },
                    line: call.line,
                    column: call.column,
                },
            ]
        }),
{
    let index = index_of_nodes(nodes);
    let one = seq![call];
    assert(one.drop_last() =~= seq![]);
    assert(edges_of_calls(index, one.drop_last()) =~= seq![]);
    assert(edges_of_calls(index, one) =~= call_edges(index, call));
    assert(unresolved_of_calls(index, one.drop_last()) =~= seq![]);
}

/// Calls are resolved one by one: what some calls have is what the first of them have, and
/// then what the rest have.
pub proof fn calls_are_resolved_one_by_one(
    nodes: Seq<NodeView>,
    calls: Seq<RawCallView>,
    more: Seq<RawCallView>,
)
    ensures
        ({
            let index = index_of_nodes(nodes);
            &&& edges_of_calls(index, calls + more) == edges_of_calls(index, calls)
                + edges_of_calls(index, more)
            &&& unresolved_of_calls(index, calls + more) == unresolved_of_calls(index, calls)
                + unresolved_of_calls(index, more)
        }),
    decreases more.len(),
{
    let index = index_of_nodes(nodes);
    if more.len() == 0 {
        assert(calls + more =~= calls);
        assert(edges_of_calls(index, calls) + edges_of_calls(index, more) =~= edges_of_calls(
            index,
            calls,
        ));
        assert(unresolved_of_calls(index, calls) + unresolved_of_calls(index, more)
            =~= unresolved_of_calls(index, calls));
    } else {
        let front = more.drop_last();
        assert((calls + more).drop_last() =~= calls + front);
        assert((calls + more).last() == more.last());
        calls_are_resolved_one_by_one(nodes, calls, front);
        assert(edges_of_calls(index, calls + more) =~= edges_of_calls(index, calls)
            + edges_of_calls(index, more));
        assert(unresolved_of_calls(index, calls + more) =~= unresolved_of_calls(index, calls)
            + unresolved_of_calls(index, more));
    }
}

/// The edges that come out ascend by source, then target, then kind, so that none comes
/// twice; each of them is one that the calls have, and each that the calls have is there at
/// the highest kind that it has.
pub proof fn edges_come_out_once_at_their_best(
    merged: Seq<EdgeView>,
    edges: Seq<EdgeView>,
)
    requires
        is_canonical(merged, edges),
    ensures
        forall|i: int, j: int|
            #![trigger merged[i], merged[j]]
            0 <= i < j < merged.len() ==> {
                ||| text_lt(merged[i].source_id, merged[j].source_id)
                ||| merged[i].source_id == merged[j].source_id && text_lt(
                    merged[i].target_id,
                    merged[j].target_id,
                )
                ||| merged[i].source_id == merged[j].source_id && merged[i].target_id
                    == merged[j].target_id && text_lt(merged[i].kind, merged[j].kind)
            },
        forall|i: int| 0 <= i < merged.len() ==> edges.contains(#[trigger] merged[i]),
        forall|k: int|
            0 <= k < edges.len() ==> exists|i: int|
                0 <= i < merged.len() && (#[trigger] merged[i]).source_id == (
                #[trigger] edges[k]).source_id && merged[i].target_id == edges[k].target_id
                    && merged[i].kind == edges[k].kind && merged[i].resolution_kind
                    >= edges[k].resolution_kind,
{
    lemma_ascending_kinds(merged);
    lemma_best_of_members(edges);
    assert forall|i: int| 0 <= i < merged.len() implies edges.contains(#[trigger] merged[i]) by {
        let key = key_of(merged[i]);
        assert(best_kinds(merged).dom().contains(key));
        assert(best_kinds(edges).dom().contains(key));
        assert(merged[i] =~= (EdgeView {
            source_id: key.source_id,
            target_id: key.target_id,
            kind: key.kind,
            resolution_kind: best_kinds(edges)[key],
        }));
    }
    assert forall|k: int| 0 <= k < edges.len() implies exists|i: int|
        0 <= i < merged.len() && (#[trigger] merged[i]).source_id == (
        #[trigger] edges[k]).source_id && merged[i].target_id == edges[k].target_id
            && merged[i].kind == edges[k].kind && merged[i].resolution_kind
            >= edges[k].resolution_kind by {
        let key = key_of(edges[k]);
        assert(edges.contains(edges[k]));
        assert(best_kinds(merged).dom().contains(key));
        let i = choose|i: int| 0 <= i < merged.len() && key_of(#[trigger] merged[i]) == key;
        assert(best_kinds(merged)[key_of(merged[i])] == merged[i].resolution_kind);
        assert(merged[i].source_id == edges[k].source_id);
    }
}

} // verus!
