//! Why references have no target, case by case.

use vstd::prelude::*;
use crate::db::refs::{candidate_count, is_candidate, reason_of};
use crate::db::{callee_parts, NodeView};
use crate::text::contains;

verus! {

/// Some symbol has what a predicate asks for.
pub open spec fn some_symbol(nodes: Seq<NodeView>, meets: spec_fn(NodeView) -> bool) -> bool {
    exists|i: int| 0 <= i < nodes.len() && meets(#[trigger] nodes[i])
}

/// A call that may be of a macro and a call through a pointer give their own reasons. Any
/// other reference is ambiguous where some symbol could be meant, and otherwise its target
/// is missing.
pub proof fn references_have_their_reasons(kind: Seq<char>, candidates: int)
    requires
        candidates >= 0,
    ensures
        kind == "macro_or_function"@ ==> reason_of(kind, candidates) == "macro_or_function"@,
        kind == "indirect_call"@ ==> reason_of(kind, candidates) == "indirect_call"@,
        kind != "macro_or_function"@ && kind != "indirect_call"@ && candidates >= 1 ==> reason_of(
            kind,
            candidates,
        ) == "ambiguous_target"@,
        kind != "macro_or_function"@ && kind != "indirect_call"@ && candidates == 0 ==> reason_of(
            kind,
            candidates,
        ) == "missing_target"@,
{
}

proof fn lemma_some_candidate(nodes: Seq<NodeView>, specifier: Seq<char>, kind: Seq<char>)
    ensures
        candidate_count(nodes, specifier, kind) > 0 <==> some_symbol(
            nodes,
            |node: NodeView| is_candidate(node, specifier, kind),
        ),
    decreases nodes.len(),
{
    let meets = |node: NodeView| is_candidate(node, specifier, kind);
    if nodes.len() > 0 {
        let rest = nodes.drop_last();
        lemma_some_candidate(rest, specifier, kind);
        if some_symbol(rest, meets) {
            let i = choose|i: int| 0 <= i < rest.len() && meets(#[trigger] rest[i]);
            assert(meets(nodes[i]));
        }
        if some_symbol(nodes, meets) {
            let i = choose|i: int| 0 <= i < nodes.len() && meets(#[trigger] nodes[i]);
            if i < rest.len() {
                assert(meets(rest[i]));
            }
        }
        if meets(nodes.last()) {
            assert(meets(nodes[nodes.len() - 1]));
        }
    }
}

/// A call is ambiguous where some symbol bears the last part of its name, and only there.
pub proof fn calls_are_ambiguous_by_name(nodes: Seq<NodeView>, specifier: Seq<char>)
    ensures
        candidate_count(nodes, specifier, "calls"@) > 0 <==> some_symbol(
            nodes,
            |node: NodeView| node.name == callee_parts(specifier).1,
        ),
{
    lemma_some_candidate(nodes, specifier, "calls"@);
    let one = |node: NodeView| is_candidate(node, specifier, "calls"@);
    let other = |node: NodeView| node.name == callee_parts(specifier).1;
    assert(one =~= other);
}

/// A relation that names its target in full is ambiguous where some symbol bears the full
/// name; one that does not, where some symbol bears the last part.
pub proof fn relations_are_ambiguous_by_full_name(
    nodes: Seq<NodeView>,
    specifier: Seq<char>,
    kind: Seq<char>,
)
    requires
        kind != "calls"@,
    ensures
        contains(specifier, "::"@) ==> (candidate_count(nodes, specifier, kind) > 0 <==> some_symbol(
            nodes,
            |node: NodeView| node.qualified_name == Some(specifier),
        )),
        !contains(specifier, "::"@) ==> (candidate_count(nodes, specifier, kind) > 0
            <==> some_symbol(nodes, |node: NodeView| node.name == callee_parts(specifier).1)),
{
    lemma_some_candidate(nodes, specifier, kind);
    let one = |node: NodeView| is_candidate(node, specifier, kind);
    if contains(specifier, "::"@) {
        let other = |node: NodeView| node.qualified_name == Some(specifier);
        assert(one =~= other);
    } else {
        let other = |node: NodeView| node.name == callee_parts(specifier).1;
        assert(one =~= other);
    }
}

} // verus!
