//! References without a target: why they have none, and who makes them.

pub mod laws;

use vstd::prelude::*;
use crate::db::{callee_parts, split_callee_name, Node, NodeView, UnresolvedRef, UnresolvedRefView};
use crate::ordered::{dedup_by, distinct_texts, distinct_texts_ascend, sort_by, ByText};
use crate::text::{contains, has, lemma_views_push, same, views};

verus! {

/// The kinds of references that say by themselves why they have no target.
pub open spec fn tells_reason(kind: Seq<char>) -> bool {
    kind == "macro_or_function"@ || kind == "indirect_call"@
}

/// Why a reference has no target: what its kind says, or else whether symbols of its
/// name are known.
pub open spec fn reason_of(kind: Seq<char>, candidates: int) -> Seq<char> {
    if tells_reason(kind) {
        kind
    } else if candidates > 0 {
        "ambiguous_target"@
    } else {
        "missing_target"@
    }
}

/// Why a reference of this kind has no target, where so many symbols bear its name.
pub fn reference_reason(kind: &str, candidates: i64) -> (reason: String)
    ensures
        reason@ == reason_of(kind@, candidates as int),
{
    if same(kind, "macro_or_function") || same(kind, "indirect_call") {
        kind.to_string()
    } else if candidates > 0 {
        "ambiguous_target".to_string()
    } else {
        "missing_target".to_string()
    }
}

// ---------------------------------------------------------------------------
// Candidates

/// A reference to a declaration of a framework by its full name.
pub open spec fn framework_qualified(specifier: Seq<char>, kind: Seq<char>) -> bool {
    kind != "calls"@ && contains(specifier, "::"@)
}

/// A symbol may be what a reference means: its full name is the one of a framework
/// declaration, and otherwise its name is the last part of the specifier.
pub open spec fn is_candidate(node: NodeView, specifier: Seq<char>, kind: Seq<char>) -> bool {
    if framework_qualified(specifier, kind) {
        node.qualified_name == Some(specifier)
    } else {
        node.name == callee_parts(specifier).1
    }
}

/// The number of symbols that a reference may mean.
pub open spec fn candidate_count(nodes: Seq<NodeView>, specifier: Seq<char>, kind: Seq<char>) -> nat
    decreases nodes.len(),
{
    if nodes.len() == 0 {
        0
    } else if is_candidate(nodes.last(), specifier, kind) {
        candidate_count(nodes.drop_last(), specifier, kind) + 1
    } else {
        candidate_count(nodes.drop_last(), specifier, kind)
    }
}

/// What the candidates of a reference are found by.
#[derive(Debug, PartialEq)]
pub enum CandidateKey {
    QualifiedName(String),
    Name(String),
}

/// A symbol is found by this.
pub open spec fn found_by(node: NodeView, key: CandidateKey) -> bool {
    match key {
        CandidateKey::QualifiedName(text) => node.qualified_name == Some(text@),
        CandidateKey::Name(text) => node.name == text@,
    }
}

/// What the candidates of a reference are found by.
pub fn candidate_key(specifier: &str, kind: &str) -> (key: CandidateKey)
    ensures
        forall|node: NodeView| #[trigger]
            found_by(node, key) == is_candidate(node, specifier@, kind@),
        key is QualifiedName == framework_qualified(specifier@, kind@),
{
    if !same(kind, "calls") && has(specifier, "::") {
        CandidateKey::QualifiedName(specifier.to_string())
    } else {
        let (_, simple) = split_callee_name(specifier);
        CandidateKey::Name(simple)
    }
}

fn matches_key(node: &Node, key: &CandidateKey) -> (found: bool)
    ensures
        found == found_by(node@, *key),
{
    match key {
        CandidateKey::QualifiedName(text) => match &node.qualified_name {
            Some(own) => same(own.as_str(), text.as_str()),
            None => false,
        },
        CandidateKey::Name(text) => same(node.name.as_str(), text.as_str()),
    }
}

/// Why a reference has no target among the given symbols.
pub fn unresolved_reason(nodes: &Vec<Node>, specifier: &str, kind: &str) -> (reason: String)
    ensures
        reason@ == reason_of(
            kind@,
            candidate_count(views(nodes@), specifier@, kind@) as int,
        ),
{
    let key = candidate_key(specifier, kind);
    let ghost all = views(nodes@);
    let mut i: usize = 0;
    assert(all.take(0) =~= seq![]);
    let mut found: i64 = 0;
    while i < nodes.len()
        invariant
            i <= nodes@.len(),
            all == views(nodes@),
            forall|node: NodeView| #[trigger]
                found_by(node, key) == is_candidate(node, specifier@, kind@),
            0 <= found <= 1,
            (found > 0) == (candidate_count(all.take(i as int), specifier@, kind@) > 0),
        decreases nodes@.len() - i,
    {
        proof {
            assert(all.take(i + 1).drop_last() =~= all.take(i as int));
            assert(all.take(i + 1).last() == nodes@[i as int]@);
            assert(found_by(nodes@[i as int]@, key) == is_candidate(
                nodes@[i as int]@,
                specifier@,
                kind@,
            ));
        }
        if matches_key(&nodes[i], &key) {
            found = 1;
        }
        i = i + 1;
    }
    assert(all.take(i as int) =~= all);
    reference_reason(kind, found)
}

/// A framework declaration that is not indexed stays missing, whatever symbols share its
/// last name.
pub proof fn same_names_leave_framework_targets_missing(
    nodes: Seq<NodeView>,
    specifier: Seq<char>,
    kind: Seq<char>,
)
    requires
        framework_qualified(specifier, kind),
        !tells_reason(kind),
        forall|i: int|
            0 <= i < nodes.len() ==> (#[trigger] nodes[i]).qualified_name != Some(specifier),
    ensures
        reason_of(kind, candidate_count(nodes, specifier, kind) as int) == "missing_target"@,
    decreases nodes.len(),
{
    if nodes.len() > 0 {
        let front = nodes.drop_last();
        assert(nodes[nodes.len() - 1].qualified_name != Some(specifier));
        assert forall|i: int| 0 <= i < front.len() implies (#[trigger] front[i]).qualified_name
            != Some(specifier) by {
            assert(front[i] == nodes[i]);
        }
        same_names_leave_framework_targets_missing(front, specifier, kind);
        lemma_reason_missing(kind, candidate_count(front, specifier, kind) as int);
    }
}

proof fn lemma_reason_missing(kind: Seq<char>, candidates: int)
    requires
        !tells_reason(kind),
        reason_of(kind, candidates) == "missing_target"@,
    ensures
        candidates <= 0,
{
    reveal_strlit("missing_target");
    reveal_strlit("ambiguous_target");
    if candidates > 0 {
        assert("ambiguous_target"@.len() == 16);
        assert("missing_target"@.len() == 14);
    }
}

// ---------------------------------------------------------------------------
// Who makes them

/// The sources of the references whose specifier has this last part.
pub open spec fn sources_of(references: Seq<UnresolvedRefView>, simple: Seq<char>) -> Seq<Seq<char>>
    decreases references.len(),
{
    if references.len() == 0 {
        seq![]
    } else if callee_parts(references.last().specifier).1 == simple {
        sources_of(references.drop_last(), simple).push(references.last().source_id)
    } else {
        sources_of(references.drop_last(), simple)
    }
}

/// The sources of the references whose specifier has this last part, in order and each
/// once.
pub fn get_unresolved_source_ids_by_specifier_simple(
    references: &Vec<UnresolvedRef>,
    specifier_simple: &str,
) -> (source_ids: Vec<String>)
    ensures
        views(source_ids@) == distinct_texts(sources_of(views(references@), specifier_simple@)),
{
    let ghost all = views(references@);
    let mut source_ids: Vec<String> = Vec::new();
    let mut i: usize = 0;
    assert(all.take(0) =~= seq![]);
    assert(views(source_ids@) =~= seq![]);
    while i < references.len()
        invariant
            i <= references@.len(),
            all == views(references@),
            views(source_ids@) == sources_of(all.take(i as int), specifier_simple@),
        decreases references@.len() - i,
    {
        proof {
            assert(all.take(i + 1).drop_last() =~= all.take(i as int));
            assert(all.take(i + 1).last() == references@[i as int]@);
        }
        let (_, simple) = split_callee_name(references[i].specifier.as_str());
        if same(simple.as_str(), specifier_simple) {
            let id = references[i].source_id.clone();
            proof {
                lemma_views_push(source_ids@, id);
            }
            source_ids.push(id);
        }
        i = i + 1;
    }
    assert(all.take(i as int) =~= all);
    dedup_by(sort_by(source_ids, &ByText), &ByText)
}

/// A reference makes its source one of those found by the last part of its specifier.
pub proof fn sources_are_found(references: Seq<UnresolvedRefView>, k: int)
    requires
        0 <= k < references.len(),
    ensures
        distinct_texts(
            sources_of(references, callee_parts(references[k].specifier).1),
        ).contains(references[k].source_id),
{
    let simple = callee_parts(references[k].specifier).1;
    lemma_source_listed(references, simple, k);
    distinct_texts_ascend(sources_of(references, simple));
}

proof fn lemma_source_listed(references: Seq<UnresolvedRefView>, simple: Seq<char>, k: int)
    requires
        0 <= k < references.len(),
        callee_parts(references[k].specifier).1 == simple,
    ensures
        sources_of(references, simple).contains(references[k].source_id),
    decreases references.len(),
{
    let all = sources_of(references, simple);
    let front = references.drop_last();
    let inner = sources_of(front, simple);
    if k == references.len() - 1 {
        assert(all[inner.len() as int] == references[k].source_id);
    } else {
        assert(front[k] == references[k]);
        lemma_source_listed(front, simple, k);
        let i = choose|i: int| 0 <= i < inner.len() && inner[i] == references[k].source_id;
        assert(all[i] == references[k].source_id);
    }
}

} // verus!
