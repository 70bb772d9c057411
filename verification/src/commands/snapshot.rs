//! A graph as a whole, in the order of its keys, for comparing two of them.

pub mod laws;

use vstd::prelude::*;
use crate::db::{
    confidence_for_kind, label_for_kind, tier_confidence, tier_label, Edge, EdgeView, Node,
    NodeView,
};
use crate::db::refs::{reason_of, reference_reason};
use crate::ordered::{
    dedup_by, distinct_items_ascend, is_weak_order, relation_of, relations_are_orders, reversed,
    sameness_of, sort_by, sorted_by, sorting_orders_and_keeps, tells_apart, text_first_order,
    text_keys_order, without_repeats, Order, Sameness,
};
use crate::parser::edge_order::{
    key_lt, lemma_key_lt_irreflexive, lemma_key_lt_total, lemma_key_lt_transitive, EdgeKey,
};
use crate::text::{
    lemma_text_lt_irreflexive, lemma_text_lt_total, lemma_text_lt_transitive, lemma_views_push,
    less, same, text_lt, views,
};

verus! {

// ---------------------------------------------------------------------------
// Nodes

/// The order of symbols by their ids.
pub struct ById;

impl Order<Node> for ById {
    open spec fn precedes(&self, left: NodeView, right: NodeView) -> bool {
        text_lt(left.id, right.id)
    }

    fn before(&self, left: &Node, right: &Node) -> (found: bool) {
        less(left.id.as_str(), right.id.as_str())
    }

    proof fn is_order(&self) {
        text_keys_order(
            |left: NodeView, right: NodeView| self.precedes(left, right),
            |item: NodeView| item.id,
        );
    }
}

impl Sameness<Node> for ById {
    open spec fn alike(&self, left: NodeView, right: NodeView) -> bool {
        left.id == right.id
    }

    fn equal(&self, left: &Node, right: &Node) -> (found: bool) {
        same(left.id.as_str(), right.id.as_str())
    }
}

/// Symbols in the order of their ids.
pub open spec fn nodes_by_id(nodes: Seq<NodeView>) -> Seq<NodeView> {
    sorted_by(nodes, relation_of::<Node, ById>(ById))
}

/// Symbols in the order of their ids, the latest one for each id.
pub open spec fn latest_nodes(nodes: Seq<NodeView>) -> Seq<NodeView> {
    without_repeats(nodes_by_id(nodes.reverse()), sameness_of::<Node, ById>(ById))
}

/// The ids ascend strictly.
pub open spec fn ids_ascend(nodes: Seq<NodeView>) -> bool {
    forall|i: int, j: int|
        #![trigger nodes[i], nodes[j]]
        0 <= i < j < nodes.len() ==> text_lt(nodes[i].id, nodes[j].id)
}

proof fn lemma_id_order()
    ensures
        is_weak_order(relation_of::<Node, ById>(ById)),
        tells_apart(relation_of::<Node, ById>(ById), sameness_of::<Node, ById>(ById)),
{
    let precedes = relation_of::<Node, ById>(ById);
    let alike = sameness_of::<Node, ById>(ById);
    relations_are_orders::<Node, ById>(ById);
    reveal(tells_apart);
    assert forall|a: NodeView, b: NodeView| #[trigger] alike(a, b) == (!precedes(a, b)
        && !precedes(b, a)) by {
        lemma_text_lt_total(a.id, b.id);
        lemma_text_lt_irreflexive(a.id);
    }
}

proof fn lemma_latest_nodes_ascend(nodes: Seq<NodeView>)
    ensures
        ids_ascend(latest_nodes(nodes)),
{
    let precedes = relation_of::<Node, ById>(ById);
    let alike = sameness_of::<Node, ById>(ById);
    lemma_id_order();
    sorting_orders_and_keeps(nodes.reverse(), precedes);
    distinct_items_ascend(nodes_by_id(nodes.reverse()), precedes, alike);
    let kept = latest_nodes(nodes);
    assert forall|i: int, j: int| 0 <= i < j < kept.len() implies text_lt(
        (#[trigger] kept[i]).id,
        (#[trigger] kept[j]).id,
    ) by {
        assert(precedes(kept[i], kept[j]));
    }
}

/// The symbol with an id: the last one that has it.
pub open spec fn node_with_id(nodes: Seq<NodeView>, id: Seq<char>) -> Option<NodeView>
    decreases nodes.len(),
{
    if nodes.len() == 0 {
        None
    } else if nodes.last().id == id {
        Some(nodes.last())
    } else {
        node_with_id(nodes.drop_last(), id)
    }
}

proof fn lemma_node_found(nodes: Seq<NodeView>, id: Seq<char>, at: int)
    requires
        ids_ascend(nodes),
        0 <= at < nodes.len(),
        nodes[at].id == id,
    ensures
        node_with_id(nodes, id) == Some(nodes[at]),
    decreases nodes.len(),
{
    if at < nodes.len() - 1 {
        assert(text_lt(nodes[at].id, nodes[nodes.len() - 1].id));
        lemma_text_lt_irreflexive(id);
        let front = nodes.drop_last();
        assert forall|i: int, j: int| 0 <= i < j < front.len() implies text_lt(
            (#[trigger] front[i]).id,
            (#[trigger] front[j]).id,
        ) by {
            assert(front[i] == nodes[i] && front[j] == nodes[j]);
        }
        lemma_node_found(front, id, at);
    }
}

proof fn lemma_node_missing(nodes: Seq<NodeView>, id: Seq<char>)
    requires
        forall|i: int| 0 <= i < nodes.len() ==> (#[trigger] nodes[i]).id != id,
    ensures
        node_with_id(nodes, id) is None,
    decreases nodes.len(),
{
    if nodes.len() > 0 {
        assert(nodes[nodes.len() - 1].id != id);
        let front = nodes.drop_last();
        assert forall|i: int| 0 <= i < front.len() implies (#[trigger] front[i]).id != id by {
            assert(front[i] == nodes[i]);
        }
        lemma_node_missing(front, id);
    }
}

/// The position of the symbol with an id among symbols whose ids ascend.
pub fn find_node(nodes: &Vec<Node>, id: &str) -> (at: Option<usize>)
    requires
        ids_ascend(views(nodes@)),
    ensures
        match at {
            Some(at) => at < nodes@.len() && nodes@[at as int].id@ == id@ && node_with_id(
                views(nodes@),
                id@,
            ) == Some(nodes@[at as int]@),
            None => node_with_id(views(nodes@), id@) is None,
        },
{
    let ghost all = views(nodes@);
    let mut low: usize = 0;
    let mut high: usize = nodes.len();
    while low < high
        invariant
            all == views(nodes@),
            ids_ascend(all),
            low <= high <= nodes@.len(),
            forall|i: int| 0 <= i < low ==> (#[trigger] all[i]).id != id@,
            forall|i: int| high <= i < all.len() ==> (#[trigger] all[i]).id != id@,
        decreases high - low,
    {
        let middle: usize = low + (high - low) / 2;
        assert(all[middle as int] == nodes@[middle as int]@);
        if same(nodes[middle].id.as_str(), id) {
            proof {
                lemma_node_found(all, id@, middle as int);
            }
            return Some(middle);
        }
        if less(nodes[middle].id.as_str(), id) {
            assert forall|i: int| 0 <= i < middle + 1 implies (#[trigger] all[i]).id != id@ by {
                if i < middle && all[i].id == id@ {
                    assert(text_lt(all[i].id, all[middle as int].id));
                    lemma_text_lt_transitive(id@, all[middle as int].id, id@);
                    lemma_text_lt_irreflexive(id@);
                }
            }
            low = middle + 1;
        } else {
            proof {
                lemma_text_lt_total(all[middle as int].id, id@);
            }
            assert forall|i: int| middle <= i < all.len() implies (#[trigger] all[i]).id != id@ by {
                if i > middle && all[i].id == id@ {
                    assert(text_lt(all[middle as int].id, all[i].id));
                }
            }
            high = middle;
        }
    }
    proof {
        lemma_node_missing(all, id@);
    }
    None
}

fn same_option(left: &Option<String>, right: &Option<String>) -> (equal: bool)
    ensures
        equal == (crate::text::opt_text(*left) == crate::text::opt_text(*right)),
{
    match (left, right) {
        (Some(first), Some(second)) => same(first.as_str(), second.as_str()),
        (None, None) => true,
        _ => false,
    }
}

fn same_number(left: Option<i64>, right: Option<i64>) -> (equal: bool)
    ensures
        equal == (crate::db::opt_int(left) == crate::db::opt_int(right)),
{
    match (left, right) {
        (Some(first), Some(second)) => first == second,
        (None, None) => true,
        _ => false,
    }
}

/// Whether two symbols agree in everything.
pub fn same_node(left: &Node, right: &Node) -> (equal: bool)
    ensures
        equal == (left@ == right@),
{
    let equal = same(left.id.as_str(), right.id.as_str()) && same(
        left.name.as_str(),
        right.name.as_str(),
    ) && same(left.kind.as_str(), right.kind.as_str()) && same_option(
        &left.qualified_name,
        &right.qualified_name,
    ) && same(left.file_path.as_str(), right.file_path.as_str()) && left.start_line
        == right.start_line && left.end_line == right.end_line && left.start_column
        == right.start_column && left.end_column == right.end_column && same_option(
        &left.signature,
        &right.signature,
    ) && same_option(&left.doc_comment, &right.doc_comment) && left.is_test == right.is_test
        && same_option(&left.resolution_kind, &right.resolution_kind) && same_number(
        left.confidence,
        right.confidence,
    );
    assert(equal ==> left@ =~= right@);
    equal
}

// ---------------------------------------------------------------------------
// Edges

/// An edge with the name and the confidence of its tier.
#[derive(Debug, PartialEq)]
pub struct EdgeSnapshot {
    pub source_id: String,
    pub target_id: String,
    pub relationship: String,
    pub resolution_kind: String,
    pub confidence: i64,
}

/// The content of an [`EdgeSnapshot`].
#[verifier::ext_equal]
pub struct EdgeSnapshotView {
    pub key: EdgeKey,
    pub resolution_kind: Seq<char>,
    pub confidence: int,
}

impl View for EdgeSnapshot {
    type V = EdgeSnapshotView;

    open spec fn view(&self) -> EdgeSnapshotView {
        EdgeSnapshotView {
            key: EdgeKey {
                source_id: self.source_id@,
                target_id: self.target_id@,
                kind: self.relationship@,
            },
            resolution_kind: self.resolution_kind@,
            confidence: self.confidence as int,
        }
    }
}

/// The order of edges by their keys.
pub struct ByKey;

fn key_before(left: &EdgeSnapshot, right: &EdgeSnapshot) -> (found: bool)
    ensures
        found == key_lt(left@.key, right@.key),
{
    if !same(left.source_id.as_str(), right.source_id.as_str()) {
        less(left.source_id.as_str(), right.source_id.as_str())
    } else if !same(left.target_id.as_str(), right.target_id.as_str()) {
        less(left.target_id.as_str(), right.target_id.as_str())
    } else {
        less(left.relationship.as_str(), right.relationship.as_str())
    }
}

fn same_key(left: &EdgeSnapshot, right: &EdgeSnapshot) -> (equal: bool)
    ensures
        equal == (left@.key == right@.key),
{
    same(left.source_id.as_str(), right.source_id.as_str()) && same(
        left.target_id.as_str(),
        right.target_id.as_str(),
    ) && same(left.relationship.as_str(), right.relationship.as_str())
}

impl Order<EdgeSnapshot> for ByKey {
    open spec fn precedes(&self, left: EdgeSnapshotView, right: EdgeSnapshotView) -> bool {
        key_lt(left.key, right.key)
    }

    fn before(&self, left: &EdgeSnapshot, right: &EdgeSnapshot) -> (found: bool) {
        key_before(left, right)
    }

    proof fn is_order(&self) {
        let rest2 = |l: EdgeSnapshotView, r: EdgeSnapshotView| text_lt(l.key.kind, r.key.kind);
        text_keys_order(rest2, |item: EdgeSnapshotView| item.key.kind);
        let rest1 = |l: EdgeSnapshotView, r: EdgeSnapshotView| if l.key.target_id != r.key.target_id {
            text_lt(l.key.target_id, r.key.target_id)
        } else {
            text_lt(l.key.kind, r.key.kind)
        };
        text_first_order(rest1, |item: EdgeSnapshotView| item.key.target_id, rest2);
        let whole = |left: EdgeSnapshotView, right: EdgeSnapshotView| self.precedes(left, right);
        text_first_order(whole, |item: EdgeSnapshotView| item.key.source_id, rest1);
    }
}

impl Sameness<EdgeSnapshot> for ByKey {
    open spec fn alike(&self, left: EdgeSnapshotView, right: EdgeSnapshotView) -> bool {
        left.key == right.key
    }

    fn equal(&self, left: &EdgeSnapshot, right: &EdgeSnapshot) -> (found: bool) {
        same_key(left, right)
    }
}

/// Edges in the order of their keys, the latest one for each key.
pub open spec fn latest_edges(edges: Seq<EdgeSnapshotView>) -> Seq<EdgeSnapshotView> {
    without_repeats(
        sorted_by(edges.reverse(), relation_of::<EdgeSnapshot, ByKey>(ByKey)),
        sameness_of::<EdgeSnapshot, ByKey>(ByKey),
    )
}

/// The keys ascend strictly.
pub open spec fn keys_ascend(edges: Seq<EdgeSnapshotView>) -> bool {
    forall|i: int, j: int|
        #![trigger edges[i], edges[j]]
        0 <= i < j < edges.len() ==> key_lt(edges[i].key, edges[j].key)
}

proof fn lemma_latest_edges_ascend(edges: Seq<EdgeSnapshotView>)
    ensures
        keys_ascend(latest_edges(edges)),
{
    let precedes = relation_of::<EdgeSnapshot, ByKey>(ByKey);
    let alike = sameness_of::<EdgeSnapshot, ByKey>(ByKey);
    relations_are_orders::<EdgeSnapshot, ByKey>(ByKey);
    assert(tells_apart(precedes, alike)) by {
        reveal(tells_apart);
        assert forall|a: EdgeSnapshotView, b: EdgeSnapshotView| #[trigger] alike(a, b) == (
        !precedes(a, b) && !precedes(b, a)) by {
            lemma_key_lt_total(a.key, b.key);
            lemma_key_lt_irreflexive(a.key);
        }
    }
    sorting_orders_and_keeps(edges.reverse(), precedes);
    distinct_items_ascend(sorted_by(edges.reverse(), precedes), precedes, alike);
    let kept = latest_edges(edges);
    assert forall|i: int, j: int| 0 <= i < j < kept.len() implies key_lt(
        (#[trigger] kept[i]).key,
        (#[trigger] kept[j]).key,
    ) by {
        assert(precedes(kept[i], kept[j]));
    }
}

/// The edge with a key: the last one that has it.
pub open spec fn edge_with_key(edges: Seq<EdgeSnapshotView>, key: EdgeKey) -> Option<
    EdgeSnapshotView,
>
    decreases edges.len(),
{
    if edges.len() == 0 {
        None
    } else if edges.last().key == key {
        Some(edges.last())
    } else {
        edge_with_key(edges.drop_last(), key)
    }
}

proof fn lemma_edge_found(edges: Seq<EdgeSnapshotView>, key: EdgeKey, at: int)
    requires
        keys_ascend(edges),
        0 <= at < edges.len(),
        edges[at].key == key,
    ensures
        edge_with_key(edges, key) == Some(edges[at]),
    decreases edges.len(),
{
    if at < edges.len() - 1 {
        assert(key_lt(edges[at].key, edges[edges.len() - 1].key));
        lemma_key_lt_irreflexive(key);
        let front = edges.drop_last();
        assert forall|i: int, j: int| 0 <= i < j < front.len() implies key_lt(
            (#[trigger] front[i]).key,
            (#[trigger] front[j]).key,
        ) by {
            assert(front[i] == edges[i] && front[j] == edges[j]);
        }
        lemma_edge_found(front, key, at);
    }
}

proof fn lemma_edge_missing(edges: Seq<EdgeSnapshotView>, key: EdgeKey)
    requires
        forall|i: int| 0 <= i < edges.len() ==> (#[trigger] edges[i]).key != key,
    ensures
        edge_with_key(edges, key) is None,
    decreases edges.len(),
{
    if edges.len() > 0 {
        assert(edges[edges.len() - 1].key != key);
        let front = edges.drop_last();
        assert forall|i: int| 0 <= i < front.len() implies (#[trigger] front[i]).key != key by {
            assert(front[i] == edges[i]);
        }
        lemma_edge_missing(front, key);
    }
}

/// The position, among edges whose keys ascend, of the one with the key of `edge`.
pub fn find_edge(edges: &Vec<EdgeSnapshot>, edge: &EdgeSnapshot) -> (at: Option<usize>)
    requires
        keys_ascend(views(edges@)),
    ensures
        match at {
            Some(at) => at < edges@.len() && edge_with_key(views(edges@), edge@.key) == Some(
                edges@[at as int]@,
            ),
            None => edge_with_key(views(edges@), edge@.key) is None,
        },
{
    let ghost all = views(edges@);
    let ghost key = edge@.key;
    let mut low: usize = 0;
    let mut high: usize = edges.len();
    while low < high
        invariant
            all == views(edges@),
            key == edge@.key,
            keys_ascend(all),
            low <= high <= edges@.len(),
            forall|i: int| 0 <= i < low ==> (#[trigger] all[i]).key != key,
            forall|i: int| high <= i < all.len() ==> (#[trigger] all[i]).key != key,
        decreases high - low,
    {
        let middle: usize = low + (high - low) / 2;
        assert(all[middle as int] == edges@[middle as int]@);
        if same_key(&edges[middle], edge) {
            proof {
                lemma_edge_found(all, key, middle as int);
            }
            return Some(middle);
        }
        if key_before(&edges[middle], edge) {
            assert forall|i: int| 0 <= i < middle + 1 implies (#[trigger] all[i]).key != key by {
                if i < middle && all[i].key == key {
                    assert(key_lt(all[i].key, all[middle as int].key));
                    lemma_key_lt_transitive(key, all[middle as int].key, key);
                    lemma_key_lt_irreflexive(key);
                }
            }
            low = middle + 1;
        } else {
            proof {
                lemma_key_lt_total(all[middle as int].key, key);
            }
            assert forall|i: int| middle <= i < all.len() implies (#[trigger] all[i]).key
                != key by {
                if i > middle && all[i].key == key {
                    assert(key_lt(all[middle as int].key, all[i].key));
                }
            }
            high = middle;
        }
    }
    proof {
        lemma_edge_missing(all, key);
    }
    None
}

/// Whether two edges agree in everything.
pub fn same_edge(left: &EdgeSnapshot, right: &EdgeSnapshot) -> (equal: bool)
    ensures
        equal == (left@ == right@),
{
    let equal = same_key(left, right) && same(
        left.resolution_kind.as_str(),
        right.resolution_kind.as_str(),
    ) && left.confidence == right.confidence;
    assert(equal ==> left@ =~= right@);
    equal
}

/// The snapshot of an edge: its tier by name and by confidence.
pub open spec fn edge_snapshot(edge: EdgeView) -> EdgeSnapshotView {
    EdgeSnapshotView {
        key: EdgeKey { source_id: edge.source_id, target_id: edge.target_id, kind: edge.kind },
        resolution_kind: tier_label(edge.resolution_kind),
        confidence: tier_confidence(edge.resolution_kind),
    }
}

fn snapshot_of_edge(edge: &Edge) -> (snapshot: EdgeSnapshot)
    ensures
        snapshot@ == edge_snapshot(edge@),
{
    EdgeSnapshot {
        source_id: edge.source_id.clone(),
        target_id: edge.target_id.clone(),
        relationship: edge.kind.clone(),
        resolution_kind: label_for_kind(edge.resolution_kind).to_string(),
        confidence: confidence_for_kind(edge.resolution_kind),
    }
}

// ---------------------------------------------------------------------------
// Unresolved references

/// A call without a target, and why it has none.
#[derive(Debug, PartialEq)]
pub struct UnresolvedCaller {
    pub source: String,
    pub specifier: String,
    pub reason: String,
}

/// The content of an [`UnresolvedCaller`].
#[verifier::ext_equal]
pub struct UnresolvedCallerView {
    pub source: Seq<char>,
    pub specifier: Seq<char>,
    pub reason: Seq<char>,
}

impl View for UnresolvedCaller {
    type V = UnresolvedCallerView;

    open spec fn view(&self) -> UnresolvedCallerView {
        UnresolvedCallerView {
            source: self.source@,
            specifier: self.specifier@,
            reason: self.reason@,
        }
    }
}

impl Clone for UnresolvedCaller {
    fn clone(&self) -> (copy: Self)
        ensures
            copy == *self,
    {
        UnresolvedCaller {
            source: self.source.clone(),
            specifier: self.specifier.clone(),
            reason: self.reason.clone(),
        }
    }
}

/// A reference without a target as it is stored, with the number of symbols that bear
/// its simple name.
#[derive(Debug)]
pub struct StoredReference {
    pub source: String,
    pub path: String,
    pub specifier: String,
    pub kind: String,
    pub line: i64,
    pub candidates: i64,
}

/// The content of a [`StoredReference`].
#[verifier::ext_equal]
pub struct StoredReferenceView {
    pub source: Seq<char>,
    pub path: Seq<char>,
    pub specifier: Seq<char>,
    pub kind: Seq<char>,
    pub line: int,
    pub candidates: int,
}

impl View for StoredReference {
    type V = StoredReferenceView;

    open spec fn view(&self) -> StoredReferenceView {
        StoredReferenceView {
            source: self.source@,
            path: self.path@,
            specifier: self.specifier@,
            kind: self.kind@,
            line: self.line as int,
            candidates: self.candidates as int,
        }
    }
}

/// What is reported of a stored reference.
pub open spec fn reported(reference: StoredReferenceView) -> UnresolvedCallerView {
    UnresolvedCallerView {
        source: reference.source,
        specifier: reference.specifier,
        reason: reason_of(reference.kind, reference.candidates),
    }
}

/// What is reported of a stored reference.
pub fn report_reference(reference: &StoredReference) -> (caller: UnresolvedCaller)
    ensures
        caller@ == reported(reference@),
{
    UnresolvedCaller {
        source: reference.source.clone(),
        specifier: reference.specifier.clone(),
        reason: reference_reason(reference.kind.as_str(), reference.candidates),
    }
}

/// The order of unresolved calls: by source, then specifier, then reason.
pub struct ByReference;

/// One unresolved call comes before another.
pub open spec fn caller_lt(left: UnresolvedCallerView, right: UnresolvedCallerView) -> bool {
    key_lt(
        EdgeKey { source_id: left.source, target_id: left.specifier, kind: left.reason },
        EdgeKey { source_id: right.source, target_id: right.specifier, kind: right.reason },
    )
}

impl Order<UnresolvedCaller> for ByReference {
    open spec fn precedes(&self, left: UnresolvedCallerView, right: UnresolvedCallerView) -> bool {
        caller_lt(left, right)
    }

    fn before(&self, left: &UnresolvedCaller, right: &UnresolvedCaller) -> (found: bool) {
        if !same(left.source.as_str(), right.source.as_str()) {
            less(left.source.as_str(), right.source.as_str())
        } else if !same(left.specifier.as_str(), right.specifier.as_str()) {
            less(left.specifier.as_str(), right.specifier.as_str())
        } else {
            less(left.reason.as_str(), right.reason.as_str())
        }
    }

    proof fn is_order(&self) {
        let rest2 = |l: UnresolvedCallerView, r: UnresolvedCallerView| text_lt(l.reason, r.reason);
        text_keys_order(rest2, |item: UnresolvedCallerView| item.reason);
        let rest1 = |l: UnresolvedCallerView, r: UnresolvedCallerView| if l.specifier != r.specifier {
            text_lt(l.specifier, r.specifier)
        } else {
            text_lt(l.reason, r.reason)
        };
        text_first_order(rest1, |item: UnresolvedCallerView| item.specifier, rest2);
        let whole = |left: UnresolvedCallerView, right: UnresolvedCallerView| self.precedes(left, right);
        text_first_order(whole, |item: UnresolvedCallerView| item.source, rest1);
    }
}

/// Whether two unresolved calls agree in everything.
pub fn same_caller(left: &UnresolvedCaller, right: &UnresolvedCaller) -> (equal: bool)
    ensures
        equal == (left@ == right@),
{
    let equal = same(left.source.as_str(), right.source.as_str()) && same(
        left.specifier.as_str(),
        right.specifier.as_str(),
    ) && same(left.reason.as_str(), right.reason.as_str());
    assert(equal ==> left@ =~= right@);
    equal
}

impl Sameness<UnresolvedCaller> for ByReference {
    open spec fn alike(&self, left: UnresolvedCallerView, right: UnresolvedCallerView) -> bool {
        left == right
    }

    fn equal(&self, left: &UnresolvedCaller, right: &UnresolvedCaller) -> (found: bool) {
        same_caller(left, right)
    }
}

/// The reports of stored references, in order and each once.
pub open spec fn distinct_callers(references: Seq<StoredReferenceView>) -> Seq<
    UnresolvedCallerView,
> {
    without_repeats(
        sorted_by(
            references.map_values(|reference: StoredReferenceView| reported(reference)),
            relation_of::<UnresolvedCaller, ByReference>(ByReference),
        ),
        sameness_of::<UnresolvedCaller, ByReference>(ByReference),
    )
}

// ---------------------------------------------------------------------------
// Graphs

/// The symbols, edges and unresolved calls of a graph, each in the order of its key.
pub struct GraphSnapshot {
    pub nodes: Vec<Node>,
    pub edges: Vec<EdgeSnapshot>,
    pub unresolved: Vec<UnresolvedCaller>,
}

/// The content of a [`GraphSnapshot`].
#[verifier::ext_equal]
pub struct GraphView {
    pub nodes: Seq<NodeView>,
    pub edges: Seq<EdgeSnapshotView>,
    pub unresolved: Seq<UnresolvedCallerView>,
}

impl View for GraphSnapshot {
    type V = GraphView;

    open spec fn view(&self) -> GraphView {
        GraphView {
            nodes: views(self.nodes@),
            edges: views(self.edges@),
            unresolved: views(self.unresolved@),
        }
    }
}

/// Symbols and edges are in the order of their keys.
pub open spec fn graph_in_order(graph: GraphView) -> bool {
    ids_ascend(graph.nodes) && keys_ascend(graph.edges)
}

/// The snapshot of stored symbols, edges and references.
pub open spec fn snapshot_of(
    nodes: Seq<NodeView>,
    edges: Seq<EdgeView>,
    references: Seq<StoredReferenceView>,
) -> GraphView {
    GraphView {
        nodes: latest_nodes(nodes),
        edges: latest_edges(edges.map_values(|edge: EdgeView| edge_snapshot(edge))),
        unresolved: distinct_callers(references),
    }
}

/// The snapshot of stored symbols, edges and references.
pub fn graph_snapshot(
    nodes: Vec<Node>,
    edges: &Vec<Edge>,
    references: &Vec<StoredReference>,
) -> (graph: GraphSnapshot)
    ensures
        graph@ == snapshot_of(views(nodes@), views(edges@), views(references@)),
        graph_in_order(graph@),
{
    let ghost edge_list = views(edges@).map_values(|edge: EdgeView| edge_snapshot(edge));
    let ghost caller_list = views(references@).map_values(
        |reference: StoredReferenceView| reported(reference),
    );
    let mut snapshots: Vec<EdgeSnapshot> = Vec::new();
    let mut i: usize = 0;
    assert(views(snapshots@) =~= edge_list.take(0));
    while i < edges.len()
        invariant
            i <= edges@.len(),
            edge_list == views(edges@).map_values(|edge: EdgeView| edge_snapshot(edge)),
            views(snapshots@) == edge_list.take(i as int),
        decreases edges@.len() - i,
    {
        let snapshot = snapshot_of_edge(&edges[i]);
        let ghost before = snapshots@;
        snapshots.push(snapshot);
        proof {
            lemma_views_push(before, snapshot);
            assert(edge_list.take(i + 1) =~= edge_list.take(i as int).push(snapshot@));
        }
        i = i + 1;
    }
    assert(edge_list.take(i as int) =~= edge_list);
    let mut callers: Vec<UnresolvedCaller> = Vec::new();
    let mut j: usize = 0;
    assert(views(callers@) =~= caller_list.take(0));
    while j < references.len()
        invariant
            j <= references@.len(),
            caller_list == views(references@).map_values(
                |reference: StoredReferenceView| reported(reference),
            ),
            views(callers@) == caller_list.take(j as int),
        decreases references@.len() - j,
    {
        let caller = report_reference(&references[j]);
        let ghost before = callers@;
        callers.push(caller);
        proof {
            lemma_views_push(before, caller);
            assert(caller_list.take(j + 1) =~= caller_list.take(j as int).push(caller@));
        }
        j = j + 1;
    }
    assert(caller_list.take(j as int) =~= caller_list);
    let turned_nodes = reversed(nodes);
    let turned_edges = reversed(snapshots);
    proof {
        lemma_latest_nodes_ascend(views(nodes@));
        lemma_latest_edges_ascend(edge_list);
        assert(views(turned_nodes@) =~= views(nodes@).reverse());
        assert(views(turned_edges@) =~= edge_list.reverse());
    }
    GraphSnapshot {
        nodes: dedup_by(sort_by(turned_nodes, &ById), &ById),
        edges: dedup_by(sort_by(turned_edges, &ByKey), &ByKey),
        unresolved: dedup_by(sort_by(callers, &ByReference), &ByReference),
    }
}

} // verus!
