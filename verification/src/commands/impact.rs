//! What a change of a symbol may reach: a bounded walk over the edges around it.

pub mod laws;
pub mod limits;
pub mod ways;

use vstd::prelude::*;
use crate::commands::snapshot::ById;
use crate::db::refs::{reason_of, reference_reason};
use crate::db::{
    confidence_for_kind, label_for_kind, tier_confidence, tier_label, Node, NodeView,
};
use crate::ordered::{
    dedup_by, insert_in_order, inserted, number_first_order, relation_of, sameness_of, sort_by,
    sorted_by, text_first_order, text_keys_order, without_repeats, Order, Sameness,
};
use crate::text::{
    copy_texts, count, decimal, join2, join3, lemma_views_push, less, same, text_lt, views,
};

verus! {

/// The number of edges, paths and open ends that a walk keeps.
pub const IMPACT_EDGE_LIMIT: usize = 400;

/// Which way a walk follows the edges.
#[derive(Clone, Copy, Debug, PartialEq, Eq, Structural)]
pub enum ImpactDirection {
    Callers,
    Callees,
    Both,
}

/// The name of a direction.
pub open spec fn direction_label(direction: ImpactDirection) -> Seq<char> {
    match direction {
        ImpactDirection::Callers => "callers"@,
        ImpactDirection::Callees => "callees"@,
        ImpactDirection::Both => "both"@,
    }
}

/// The name of a direction.
pub fn direction_name(direction: ImpactDirection) -> (name: &'static str)
    ensures
        name@ == direction_label(direction),
{
    match direction {
        ImpactDirection::Callers => "callers",
        ImpactDirection::Callees => "callees",
        ImpactDirection::Both => "both",
    }
}

// ---------------------------------------------------------------------------
// Edges

/// An edge between two symbols, with what it is worth.
#[derive(Debug)]
pub struct ImpactEdge {
    pub relationship: String,
    pub source: Node,
    pub target: Node,
    pub resolution_kind: String,
    pub confidence: i64,
}

/// The content of an [`ImpactEdge`].
#[verifier::ext_equal]
pub struct ImpactEdgeView {
    pub relationship: Seq<char>,
    pub source: NodeView,
    pub target: NodeView,
    pub resolution_kind: Seq<char>,
    pub confidence: int,
}

impl View for ImpactEdge {
    type V = ImpactEdgeView;

    open spec fn view(&self) -> ImpactEdgeView {
        ImpactEdgeView {
            relationship: self.relationship@,
            source: self.source@,
            target: self.target@,
            resolution_kind: self.resolution_kind@,
            confidence: self.confidence as int,
        }
    }
}

impl Clone for ImpactEdge {
    fn clone(&self) -> (copy: Self)
        ensures
            copy@ == self@,
    {
        ImpactEdge {
            relationship: self.relationship.clone(),
            source: self.source.clone(),
            target: self.target.clone(),
            resolution_kind: self.resolution_kind.clone(),
            confidence: self.confidence,
        }
    }
}

/// An edge as it is stored, with the label and the confidence of its tier.
pub open spec fn labelled_edge(
    relationship: Seq<char>,
    source: NodeView,
    target: NodeView,
    resolution_kind: int,
) -> ImpactEdgeView {
    ImpactEdgeView {
        relationship,
        source,
        target,
        resolution_kind: tier_label(resolution_kind),
        confidence: tier_confidence(resolution_kind),
    }
}

impl ImpactEdge {
    /// An edge as it is stored, with the label and the confidence of its tier.
    pub fn new(relationship: String, source: Node, target: Node, resolution_kind: i64) -> (edge:
        Self)
        ensures
            edge@ == labelled_edge(
                relationship@,
                source@,
                target@,
                resolution_kind as int,
            ),
    {
        ImpactEdge {
            relationship,
            source,
            target,
            resolution_kind: label_for_kind(resolution_kind).to_string(),
            confidence: confidence_for_kind(resolution_kind),
        }
    }
}

/// The order of edges by the ids of their ends, their relation and their label.
pub struct ByEnds;

impl Order<ImpactEdge> for ByEnds {
    open spec fn precedes(&self, left: ImpactEdgeView, right: ImpactEdgeView) -> bool {
        if left.source.id != right.source.id {
            text_lt(left.source.id, right.source.id)
        } else if left.target.id != right.target.id {
            text_lt(left.target.id, right.target.id)
        } else if left.relationship != right.relationship {
            text_lt(left.relationship, right.relationship)
        } else {
            text_lt(left.resolution_kind, right.resolution_kind)
        }
    }

    fn before(&self, left: &ImpactEdge, right: &ImpactEdge) -> (found: bool) {
        if !same(left.source.id.as_str(), right.source.id.as_str()) {
            less(left.source.id.as_str(), right.source.id.as_str())
        } else if !same(left.target.id.as_str(), right.target.id.as_str()) {
            less(left.target.id.as_str(), right.target.id.as_str())
        } else if !same(left.relationship.as_str(), right.relationship.as_str()) {
            less(left.relationship.as_str(), right.relationship.as_str())
        } else {
            less(left.resolution_kind.as_str(), right.resolution_kind.as_str())
        }
    }

    proof fn is_order(&self) {
        let rest3 = |l: ImpactEdgeView, r: ImpactEdgeView| text_lt(l.resolution_kind, r.resolution_kind);
        text_keys_order(rest3, |item: ImpactEdgeView| item.resolution_kind);
        let rest2 = |l: ImpactEdgeView, r: ImpactEdgeView| if l.relationship != r.relationship {
            text_lt(l.relationship, r.relationship)
        } else {
            text_lt(l.resolution_kind, r.resolution_kind)
        };
        text_first_order(rest2, |item: ImpactEdgeView| item.relationship, rest3);
        let rest1 = |l: ImpactEdgeView, r: ImpactEdgeView| if l.target.id != r.target.id {
            text_lt(l.target.id, r.target.id)
        } else {
            if l.relationship != r.relationship {
                text_lt(l.relationship, r.relationship)
            } else {
                text_lt(l.resolution_kind, r.resolution_kind)
            }
        };
        text_first_order(rest1, |item: ImpactEdgeView| item.target.id, rest2);
        let whole = |left: ImpactEdgeView, right: ImpactEdgeView| self.precedes(left, right);
        text_first_order(whole, |item: ImpactEdgeView| item.source.id, rest1);
    }
}

impl Sameness<ImpactEdge> for ByEnds {
    open spec fn alike(&self, left: ImpactEdgeView, right: ImpactEdgeView) -> bool {
        left.source.id == right.source.id && left.target.id == right.target.id
            && left.relationship == right.relationship
    }

    fn equal(&self, left: &ImpactEdge, right: &ImpactEdge) -> (found: bool) {
        same(left.source.id.as_str(), right.source.id.as_str()) && same(
            left.target.id.as_str(),
            right.target.id.as_str(),
        ) && same(left.relationship.as_str(), right.relationship.as_str())
    }
}

/// The edges that leave a symbol.
pub open spec fn outgoing(edges: Seq<ImpactEdgeView>, id: Seq<char>) -> Seq<ImpactEdgeView>
    decreases edges.len(),
{
    if edges.len() == 0 {
        seq![]
    } else if edges.last().source.id == id {
        outgoing(edges.drop_last(), id).push(edges.last())
    } else {
        outgoing(edges.drop_last(), id)
    }
}

/// The edges that enter a symbol.
pub open spec fn incoming(edges: Seq<ImpactEdgeView>, id: Seq<char>) -> Seq<ImpactEdgeView>
    decreases edges.len(),
{
    if edges.len() == 0 {
        seq![]
    } else if edges.last().target.id == id {
        incoming(edges.drop_last(), id).push(edges.last())
    } else {
        incoming(edges.drop_last(), id)
    }
}

/// The edges around a symbol in one direction or both.
pub open spec fn edges_around(
    edges: Seq<ImpactEdgeView>,
    id: Seq<char>,
    direction: ImpactDirection,
) -> Seq<ImpactEdgeView> {
    match direction {
        ImpactDirection::Callees => outgoing(edges, id),
        ImpactDirection::Callers => incoming(edges, id),
        ImpactDirection::Both => outgoing(edges, id) + incoming(edges, id),
    }
}

/// The edges around a symbol, in order, one for each pair of ends and relation.
pub open spec fn ordered_edges(
    edges: Seq<ImpactEdgeView>,
    id: Seq<char>,
    direction: ImpactDirection,
) -> Seq<ImpactEdgeView> {
    without_repeats(
        sorted_by(
            edges_around(edges, id, direction),
            relation_of::<ImpactEdge, ByEnds>(ByEnds),
        ),
        sameness_of::<ImpactEdge, ByEnds>(ByEnds),
    )
}

fn add_outgoing(found: &mut Vec<ImpactEdge>, edges: &Vec<ImpactEdge>, id: &str)
    ensures
        views(final(found)@) == views(old(found)@) + outgoing(views(edges@), id@),
{
    let ghost start = views(found@);
    let ghost all = views(edges@);
    let mut i: usize = 0;
    assert(all.take(0) =~= seq![]);
    assert(start + outgoing(all.take(0), id@) =~= start);
    while i < edges.len()
        invariant
            i <= edges@.len(),
            all == views(edges@),
            views(found@) == start + outgoing(all.take(i as int), id@),
        decreases edges@.len() - i,
    {
        proof {
            assert(all.take(i + 1).drop_last() =~= all.take(i as int));
            assert(all.take(i + 1).last() == edges@[i as int]@);
        }
        if same(edges[i].source.id.as_str(), id) {
            let edge = edges[i].clone();
            let ghost before = found@;
            found.push(edge);
            proof {
                lemma_views_push(before, edge);
                assert(views(found@) =~= start + outgoing(all.take(i + 1), id@));
            }
        }
        i = i + 1;
    }
    assert(all.take(i as int) =~= all);
}

fn add_incoming(found: &mut Vec<ImpactEdge>, edges: &Vec<ImpactEdge>, id: &str)
    ensures
        views(final(found)@) == views(old(found)@) + incoming(views(edges@), id@),
{
    let ghost start = views(found@);
    let ghost all = views(edges@);
    let mut i: usize = 0;
    assert(all.take(0) =~= seq![]);
    assert(start + incoming(all.take(0), id@) =~= start);
    while i < edges.len()
        invariant
            i <= edges@.len(),
            all == views(edges@),
            views(found@) == start + incoming(all.take(i as int), id@),
        decreases edges@.len() - i,
    {
        proof {
            assert(all.take(i + 1).drop_last() =~= all.take(i as int));
            assert(all.take(i + 1).last() == edges@[i as int]@);
        }
        if same(edges[i].target.id.as_str(), id) {
            let edge = edges[i].clone();
            let ghost before = found@;
            found.push(edge);
            proof {
                lemma_views_push(before, edge);
                assert(views(found@) =~= start + incoming(all.take(i + 1), id@));
            }
        }
        i = i + 1;
    }
    assert(all.take(i as int) =~= all);
}

/// The edges around a symbol, in order, one for each pair of ends and relation.
pub fn impact_edges_from(edges: &Vec<ImpactEdge>, node_id: &str, direction: ImpactDirection) -> (found:
    Vec<ImpactEdge>)
    ensures
        views(found@) == ordered_edges(views(edges@), node_id@, direction),
{
    let mut found: Vec<ImpactEdge> = Vec::new();
    assert(views(found@) =~= seq![]);
    match direction {
        ImpactDirection::Callees => add_outgoing(&mut found, edges, node_id),
        ImpactDirection::Callers => add_incoming(&mut found, edges, node_id),
        ImpactDirection::Both => {
            add_outgoing(&mut found, edges, node_id);
            add_incoming(&mut found, edges, node_id);
        },
    }
    assert(views(found@) =~= edges_around(views(edges@), node_id@, direction));
    dedup_by(sort_by(found, &ByEnds), &ByEnds)
}

/// What tells edges apart.
pub open spec fn edge_key(edge: ImpactEdgeView) -> Seq<char> {
    edge.source.id + "\u{1f}"@ + edge.target.id + "\u{1f}"@ + edge.relationship
}

/// What tells edges apart.
pub fn impact_edge_key(edge: &ImpactEdge) -> (key: String)
    ensures
        key@ == edge_key(edge@),
{
    let ends = join3(edge.source.id.as_str(), "\u{1f}", edge.target.id.as_str());
    join3(ends.as_str(), "\u{1f}", edge.relationship.as_str())
}

// ---------------------------------------------------------------------------
// References without a target

/// A reference without a target, with the number of symbols that it may mean.
#[derive(Debug)]
pub struct OpenReference {
    pub source_id: String,
    pub specifier: String,
    pub kind: String,
    pub line: i64,
    pub column: i64,
    pub candidates: i64,
}

/// The content of an [`OpenReference`].
#[verifier::ext_equal]
pub struct OpenReferenceView {
    pub source_id: Seq<char>,
    pub specifier: Seq<char>,
    pub kind: Seq<char>,
    pub line: int,
    pub column: int,
    pub candidates: int,
}

impl View for OpenReference {
    type V = OpenReferenceView;

    open spec fn view(&self) -> OpenReferenceView {
        OpenReferenceView {
            source_id: self.source_id@,
            specifier: self.specifier@,
            kind: self.kind@,
            line: self.line as int,
            column: self.column as int,
            candidates: self.candidates as int,
        }
    }
}

impl Clone for OpenReference {
    fn clone(&self) -> (copy: Self)
        ensures
            copy@ == self@,
    {
        OpenReference {
            source_id: self.source_id.clone(),
            specifier: self.specifier.clone(),
            kind: self.kind.clone(),
            line: self.line,
            column: self.column,
            candidates: self.candidates,
        }
    }
}

/// The order of references by where they stand.
pub struct ByPosition;

impl Order<OpenReference> for ByPosition {
    open spec fn precedes(&self, left: OpenReferenceView, right: OpenReferenceView) -> bool {
        if left.line != right.line {
            left.line < right.line
        } else if left.column != right.column {
            left.column < right.column
        } else {
            text_lt(left.specifier, right.specifier)
        }
    }

    fn before(&self, left: &OpenReference, right: &OpenReference) -> (found: bool) {
        if left.line != right.line {
            left.line < right.line
        } else if left.column != right.column {
            left.column < right.column
        } else {
            less(left.specifier.as_str(), right.specifier.as_str())
        }
    }

    proof fn is_order(&self) {
        let rest2 = |l: OpenReferenceView, r: OpenReferenceView| text_lt(l.specifier, r.specifier);
        text_keys_order(rest2, |item: OpenReferenceView| item.specifier);
        let rest1 = |l: OpenReferenceView, r: OpenReferenceView| if l.column != r.column {
            l.column < r.column
        } else {
            text_lt(l.specifier, r.specifier)
        };
        number_first_order(rest1, |item: OpenReferenceView| item.column, rest2);
        let whole = |left: OpenReferenceView, right: OpenReferenceView| self.precedes(left, right);
        number_first_order(whole, |item: OpenReferenceView| item.line, rest1);
    }
}

/// The references that a symbol makes.
pub open spec fn references_of(references: Seq<OpenReferenceView>, id: Seq<char>) -> Seq<
    OpenReferenceView,
>
    decreases references.len(),
{
    if references.len() == 0 {
        seq![]
    } else if references.last().source_id == id {
        references_of(references.drop_last(), id).push(references.last())
    } else {
        references_of(references.drop_last(), id)
    }
}

/// A reference at which a walk ends, on the path that led there.
#[derive(Debug)]
pub struct UnresolvedBoundary {
    pub source: Node,
    pub relationship: String,
    pub specifier: String,
    pub reason: String,
    pub path_id: String,
}

/// The content of an [`UnresolvedBoundary`].
#[verifier::ext_equal]
pub struct BoundaryView {
    pub source: NodeView,
    pub relationship: Seq<char>,
    pub specifier: Seq<char>,
    pub reason: Seq<char>,
    pub path_id: Seq<char>,
}

impl View for UnresolvedBoundary {
    type V = BoundaryView;

    open spec fn view(&self) -> BoundaryView {
        BoundaryView {
            source: self.source@,
            relationship: self.relationship@,
            specifier: self.specifier@,
            reason: self.reason@,
            path_id: self.path_id@,
        }
    }
}

/// A reference as the end of a path.
pub open spec fn boundary(reference: OpenReferenceView, source: NodeView, path_id: Seq<char>) -> BoundaryView {
    BoundaryView {
        source,
        relationship: reference.kind,
        specifier: reference.specifier,
        reason: reason_of(reference.kind, reference.candidates),
        path_id,
    }
}

/// References as the ends of a path.
pub open spec fn boundaries(
    references: Seq<OpenReferenceView>,
    source: NodeView,
    path_id: Seq<char>,
) -> Seq<BoundaryView> {
    references.map_values(|reference: OpenReferenceView| boundary(reference, source, path_id))
}

/// The references of a symbol at which a path to it ends, in the order in which they
/// stand.
pub open spec fn boundaries_of(
    references: Seq<OpenReferenceView>,
    source: NodeView,
    path_id: Seq<char>,
) -> Seq<BoundaryView> {
    boundaries(
        sorted_by(
            references_of(references, source.id),
            relation_of::<OpenReference, ByPosition>(ByPosition),
        ),
        source,
        path_id,
    )
}

/// The references of a symbol at which a path to it ends, in the order in which they
/// stand.
pub fn impact_unresolved_for(references: &Vec<OpenReference>, source: &Node, path_id: &str) -> (found:
    Vec<UnresolvedBoundary>)
    ensures
        views(found@) == boundaries_of(views(references@), source@, path_id@),
{
    let ghost all = views(references@);
    let mut own: Vec<OpenReference> = Vec::new();
    let mut i: usize = 0;
    assert(all.take(0) =~= seq![]);
    assert(views(own@) =~= seq![]);
    while i < references.len()
        invariant
            i <= references@.len(),
            all == views(references@),
            views(own@) == references_of(all.take(i as int), source@.id),
        decreases references@.len() - i,
    {
        proof {
            assert(all.take(i + 1).drop_last() =~= all.take(i as int));
            assert(all.take(i + 1).last() == references@[i as int]@);
        }
        if same(references[i].source_id.as_str(), source.id.as_str()) {
            let reference = references[i].clone();
            proof {
                lemma_views_push(own@, reference);
            }
            own.push(reference);
        }
        i = i + 1;
    }
    assert(all.take(i as int) =~= all);
    let own = sort_by(own, &ByPosition);
    let ghost wanted = boundaries(views(own@), source@, path_id@);
    let mut found: Vec<UnresolvedBoundary> = Vec::new();
    let mut j: usize = 0;
    assert(views(found@) =~= wanted.take(0));
    while j < own.len()
        invariant
            j <= own@.len(),
            wanted == boundaries(views(own@), source@, path_id@),
            views(found@) == wanted.take(j as int),
        decreases own@.len() - j,
    {
        let reference = &own[j];
        let item = UnresolvedBoundary {
            source: source.clone(),
            relationship: reference.kind.clone(),
            specifier: reference.specifier.clone(),
            reason: reference_reason(reference.kind.as_str(), reference.candidates),
            path_id: path_id.to_string(),
        };
        proof {
            lemma_views_push(found@, item);
            assert(wanted[j as int] == boundary(own@[j as int]@, source@, path_id@));
            assert(wanted.take(j + 1) =~= wanted.take(j as int).push(wanted[j as int]));
        }
        found.push(item);
        j = j + 1;
    }
    assert(wanted.take(j as int) =~= wanted);
    found
}

// ---------------------------------------------------------------------------
// The walk

/// A path from the root: where it ends, what it visits and which edges it takes.
#[derive(Debug)]
pub struct Trail {
    pub id: String,
    pub node: Node,
    pub node_ids: Vec<String>,
    pub edges: Vec<ImpactEdge>,
}

/// The content of a [`Trail`].
#[verifier::ext_equal]
pub struct TrailView {
    pub id: Seq<char>,
    pub node: NodeView,
    pub node_ids: Seq<Seq<char>>,
    pub edges: Seq<ImpactEdgeView>,
}

impl View for Trail {
    type V = TrailView;

    open spec fn view(&self) -> TrailView {
        TrailView {
            id: self.id@,
            node: self.node@,
            node_ids: views(self.node_ids@),
            edges: views(self.edges@),
        }
    }
}

/// A test that a walk reaches, and the paths on which it does.
#[derive(Debug)]
pub struct AffectedTest {
    pub test: Node,
    pub path_ids: Vec<String>,
}

/// The content of an [`AffectedTest`].
#[verifier::ext_equal]
pub struct AffectedTestView {
    pub test: NodeView,
    pub path_ids: Seq<Seq<char>>,
}

impl View for AffectedTest {
    type V = AffectedTestView;

    open spec fn view(&self) -> AffectedTestView {
        AffectedTestView { test: self.test@, path_ids: views(self.path_ids@) }
    }
}

/// The order of tests by their ids.
pub struct ByTest;

impl Order<AffectedTest> for ByTest {
    open spec fn precedes(&self, left: AffectedTestView, right: AffectedTestView) -> bool {
        text_lt(left.test.id, right.test.id)
    }

    fn before(&self, left: &AffectedTest, right: &AffectedTest) -> (found: bool) {
        less(left.test.id.as_str(), right.test.id.as_str())
    }

    proof fn is_order(&self) {
        text_keys_order(
            |left: AffectedTestView, right: AffectedTestView| self.precedes(left, right),
            |item: AffectedTestView| item.test.id,
        );
    }
}

/// The order of edges by what tells them apart.
pub struct ByEdgeKey;

impl Order<ImpactEdge> for ByEdgeKey {
    open spec fn precedes(&self, left: ImpactEdgeView, right: ImpactEdgeView) -> bool {
        text_lt(edge_key(left), edge_key(right))
    }

    fn before(&self, left: &ImpactEdge, right: &ImpactEdge) -> (found: bool) {
        let first = impact_edge_key(left);
        let second = impact_edge_key(right);
        less(first.as_str(), second.as_str())
    }

    proof fn is_order(&self) {
        text_keys_order(
            |left: ImpactEdgeView, right: ImpactEdgeView| self.precedes(left, right),
            |item: ImpactEdgeView| edge_key(item),
        );
    }
}

/// How far a walk goes.
#[derive(Clone, Copy, Debug)]
pub struct ImpactBounds {
    pub depth: usize,
    pub direction: ImpactDirection,
    pub min_confidence: i64,
    pub limit: usize,
    pub no_tests: bool,
}

/// A walk on its way: the paths found so far, of which the first `walked` have been
/// followed, and what they reach.
#[verifier::ext_equal]
pub struct WalkView {
    pub trails: Seq<TrailView>,
    pub walked: int,
    pub nodes: Seq<NodeView>,
    pub edges: Seq<ImpactEdgeView>,
    pub tests: Seq<AffectedTestView>,
    pub boundaries: Seq<BoundaryView>,
    pub frontiers: Seq<Seq<char>>,
}

/// One of the symbols has this id.
pub open spec fn has_id(nodes: Seq<NodeView>, id: Seq<char>) -> bool {
    exists|i: int| 0 <= i < nodes.len() && (#[trigger] nodes[i]).id == id
}

/// One of the edges has this key.
pub open spec fn has_key(edges: Seq<ImpactEdgeView>, key: Seq<char>) -> bool {
    exists|i: int| 0 <= i < edges.len() && edge_key(#[trigger] edges[i]) == key
}

/// The position of the test with an id.
pub open spec fn test_position(tests: Seq<AffectedTestView>, id: Seq<char>) -> Option<int>
    decreases tests.len(),
{
    if tests.len() == 0 {
        None
    } else if tests.last().test.id == id {
        Some(tests.len() - 1)
    } else {
        test_position(tests.drop_last(), id)
    }
}

/// The tests after a path reaches one.
pub open spec fn with_test(
    tests: Seq<AffectedTestView>,
    test: NodeView,
    path_id: Seq<char>,
) -> Seq<AffectedTestView> {
    match test_position(tests, test.id) {
        Some(at) => tests.update(
            at,
            AffectedTestView { path_ids: tests[at].path_ids.push(path_id), ..tests[at] },
        ),
        None => inserted(
            tests,
            AffectedTestView { test, path_ids: seq![path_id] },
            relation_of::<AffectedTest, ByTest>(ByTest),
        ),
    }
}

/// The end of an edge that is not the symbol with this id.
pub open spec fn other_end(edge: ImpactEdgeView, id: Seq<char>) -> NodeView {
    if edge.source.id == id {
        edge.target
    } else {
        edge.source
    }
}

/// An edge is worth following.
pub open spec fn admitted(edge: ImpactEdgeView, bounds: ImpactBounds) -> bool {
    edge.confidence >= bounds.min_confidence && !(bounds.no_tests && (edge.source.is_test
        || edge.target.is_test))
}

/// The id of the next path.
pub open spec fn next_id(walk: WalkView) -> Seq<char> {
    "p"@ + decimal(walk.trails.len() as int)
}

/// A walk that leaves an edge, and says so.
pub open spec fn left_out(
    walk: WalkView,
    from: Seq<char>,
    to: Seq<char>,
    why: Seq<char>,
) -> WalkView {
    WalkView { frontiers: walk.frontiers.push(from + " -> "@ + to + why), ..walk }
}

/// A walk with one more path: `trail` and the edge.
pub open spec fn extended(walk: WalkView, trail: TrailView, edge: ImpactEdgeView) -> WalkView {
    let next = other_end(edge, trail.node.id);
    WalkView {
        trails: walk.trails.push(
            TrailView {
                id: next_id(walk),
                node: next,
                node_ids: trail.node_ids.push(next.id),
                edges: trail.edges.push(edge),
            },
        ),
        nodes: if has_id(walk.nodes, next.id) {
            walk.nodes
        } else {
            inserted(walk.nodes, next, relation_of::<Node, ById>(ById))
        },
        edges: if has_key(walk.edges, edge_key(edge)) {
            walk.edges
        } else {
            inserted(walk.edges, edge, relation_of::<ImpactEdge, ByEdgeKey>(ByEdgeKey))
        },
        tests: if next.is_test {
            with_test(walk.tests, next, next_id(walk))
        } else {
            walk.tests
        },
        ..walk
    }
}

/// A walk after it has looked at an edge at the end of a path.
pub open spec fn followed(
    walk: WalkView,
    trail: TrailView,
    edge: ImpactEdgeView,
    bounds: ImpactBounds,
) -> WalkView {
    let next = other_end(edge, trail.node.id);
    if !admitted(edge, bounds) || trail.node_ids.contains(next.id) {
        walk
    } else if !has_key(walk.edges, edge_key(edge)) && walk.edges.len() == IMPACT_EDGE_LIMIT {
        left_out(walk, trail.node.id, next.id, " (edge limit)"@)
    } else if !has_id(walk.nodes, next.id) && walk.nodes.len() == bounds.limit {
        left_out(walk, trail.node.id, next.id, " (node limit)"@)
    } else if walk.trails.len() == IMPACT_EDGE_LIMIT {
        left_out(walk, trail.node.id, next.id, " (path limit)"@)
    } else {
        extended(walk, trail, edge)
    }
}

/// A walk after it has looked at several edges at the end of a path.
pub open spec fn followed_all(
    walk: WalkView,
    trail: TrailView,
    edges: Seq<ImpactEdgeView>,
    bounds: ImpactBounds,
) -> WalkView
    decreases edges.len(),
{
    if edges.len() == 0 {
        walk
    } else {
        followed(followed_all(walk, trail, edges.drop_last(), bounds), trail, edges.last(), bounds)
    }
}

/// A walk that has taken note of where a path ends.
pub open spec fn noted(walk: WalkView, trail: TrailView, found: Seq<BoundaryView>) -> WalkView {
    if walk.boundaries.len() + found.len() > IMPACT_EDGE_LIMIT {
        WalkView {
            frontiers: walk.frontiers.push(trail.node.id + " (unresolved references)"@),
            ..walk
        }
    } else {
        WalkView { boundaries: walk.boundaries + found, ..walk }
    }
}

/// A walk after its next path has been followed.
pub open spec fn stepped(
    walk: WalkView,
    references: Seq<OpenReferenceView>,
    edges: Seq<ImpactEdgeView>,
    bounds: ImpactBounds,
) -> WalkView {
    let trail = walk.trails[walk.walked];
    let noticed = noted(
        WalkView { walked: walk.walked + 1, ..walk },
        trail,
        boundaries_of(references, trail.node, trail.id),
    );
    if trail.edges.len() >= bounds.depth {
        noticed
    } else {
        followed_all(
            noticed,
            trail,
            ordered_edges(edges, trail.node.id, bounds.direction),
            bounds,
        )
    }
}

/// A walk after at most so many further paths have been followed.
pub open spec fn continued(
    walk: WalkView,
    references: Seq<OpenReferenceView>,
    edges: Seq<ImpactEdgeView>,
    bounds: ImpactBounds,
    steps: nat,
) -> WalkView
    decreases steps,
{
    if steps == 0 || walk.walked >= walk.trails.len() {
        walk
    } else {
        continued(
            stepped(walk, references, edges, bounds),
            references,
            edges,
            bounds,
            (steps - 1) as nat,
        )
    }
}

/// A walk that has not left its root.
pub open spec fn at_root(root: NodeView) -> WalkView {
    WalkView {
        trails: seq![
            TrailView { id: "root"@, node: root, node_ids: seq![root.id], edges: seq![] },
        ],
        walked: 0,
        nodes: seq![],
        edges: seq![],
        tests: seq![],
        boundaries: seq![],
        frontiers: seq![],
    }
}

/// All that a walk from a symbol finds. There are never more paths than the limit, so
/// that many steps follow all of them.
pub open spec fn impact_of(
    references: Seq<OpenReferenceView>,
    edges: Seq<ImpactEdgeView>,
    root: NodeView,
    bounds: ImpactBounds,
) -> WalkView {
    continued(at_root(root), references, edges, bounds, IMPACT_EDGE_LIMIT as nat)
}

/// A walk on its way.
#[derive(Debug)]
pub struct Walk {
    pub trails: Vec<Trail>,
    pub walked: usize,
    pub nodes: Vec<Node>,
    pub edges: Vec<ImpactEdge>,
    pub tests: Vec<AffectedTest>,
    pub boundaries: Vec<UnresolvedBoundary>,
    pub frontiers: Vec<String>,
}

impl View for Walk {
    type V = WalkView;

    open spec fn view(&self) -> WalkView {
        WalkView {
            trails: views(self.trails@),
            walked: self.walked as int,
            nodes: views(self.nodes@),
            edges: views(self.edges@),
            tests: views(self.tests@),
            boundaries: views(self.boundaries@),
            frontiers: views(self.frontiers@),
        }
    }
}

fn knows_id(nodes: &Vec<Node>, id: &str) -> (found: bool)
    ensures
        found == has_id(views(nodes@), id@),
{
    let ghost all = views(nodes@);
    let mut i: usize = 0;
    while i < nodes.len()
        invariant
            i <= nodes@.len(),
            all == views(nodes@),
            forall|k: int| 0 <= k < i ==> (#[trigger] all[k]).id != id@,
        decreases nodes@.len() - i,
    {
        assert(all[i as int] == nodes@[i as int]@);
        if same(nodes[i].id.as_str(), id) {
            return true;
        }
        i = i + 1;
    }
    false
}

fn knows_edge(edges: &Vec<ImpactEdge>, key: &str) -> (found: bool)
    ensures
        found == has_key(views(edges@), key@),
{
    let ghost all = views(edges@);
    let mut i: usize = 0;
    while i < edges.len()
        invariant
            i <= edges@.len(),
            all == views(edges@),
            forall|k: int| 0 <= k < i ==> edge_key(#[trigger] all[k]) != key@,
        decreases edges@.len() - i,
    {
        assert(all[i as int] == edges@[i as int]@);
        let own = impact_edge_key(&edges[i]);
        if same(own.as_str(), key) {
            return true;
        }
        i = i + 1;
    }
    false
}

fn visited(ids: &Vec<String>, id: &str) -> (found: bool)
    ensures
        found == views(ids@).contains(id@),
{
    let ghost all = views(ids@);
    let mut i: usize = 0;
    while i < ids.len()
        invariant
            i <= ids@.len(),
            all == views(ids@),
            forall|k: int| 0 <= k < i ==> #[trigger] all[k] != id@,
        decreases ids@.len() - i,
    {
        assert(all[i as int] == ids@[i as int]@);
        if same(ids[i].as_str(), id) {
            return true;
        }
        i = i + 1;
    }
    false
}

fn find_test(tests: &Vec<AffectedTest>, id: &str) -> (at: Option<usize>)
    ensures
        match at {
            Some(at) => at < tests@.len() && test_position(views(tests@), id@) == Some(at as int),
            None => test_position(views(tests@), id@) is None,
        },
{
    let ghost all = views(tests@);
    let mut i: usize = tests.len();
    assert(all.take(i as int) =~= all);
    while i > 0
        invariant
            i <= tests@.len(),
            all == views(tests@),
            test_position(all, id@) == test_position(all.take(i as int), id@),
        decreases i,
    {
        proof {
            assert(all.take(i as int).drop_last() =~= all.take(i - 1));
            assert(all.take(i as int).last() == tests@[i - 1]@);
        }
        if same(tests[i - 1].test.id.as_str(), id) {
            return Some(i - 1);
        }
        i = i - 1;
    }
    None
}

fn copy_edges(edges: &Vec<ImpactEdge>) -> (copies: Vec<ImpactEdge>)
    ensures
        views(copies@) == views(edges@),
{
    let ghost wanted = views(edges@);
    let mut copies: Vec<ImpactEdge> = Vec::new();
    let mut i: usize = 0;
    assert(views(copies@) =~= wanted.take(0));
    while i < edges.len()
        invariant
            i <= edges@.len(),
            wanted == views(edges@),
            views(copies@) == wanted.take(i as int),
        decreases edges@.len() - i,
    {
        let edge = edges[i].clone();
        proof {
            lemma_views_push(copies@, edge);
            assert(wanted.take(i + 1) =~= wanted.take(i as int).push(edge@));
        }
        copies.push(edge);
        i = i + 1;
    }
    assert(wanted.take(i as int) =~= wanted);
    copies
}

fn add_test(tests: &mut Vec<AffectedTest>, test: &Node, path_id: &str)
    ensures
        views(final(tests)@) == with_test(views(old(tests)@), test@, path_id@),
{
    let ghost start = tests@;
    match find_test(tests, test.id.as_str()) {
        Some(at) => {
            let mut path_ids = copy_texts(&tests[at].path_ids);
            let own = tests[at].test.clone();
            let id = path_id.to_string();
            proof {
                lemma_views_push(path_ids@, id);
            }
            path_ids.push(id);
            let updated = AffectedTest { test: own, path_ids };
            assert(updated@ =~= (AffectedTestView {
                path_ids: start[at as int]@.path_ids.push(path_id@),
                ..start[at as int]@
            }));
            tests.set(at, updated);
            assert(views(tests@) =~= views(start).update(at as int, updated@));
        },
        None => {
            let mut path_ids: Vec<String> = Vec::new();
            path_ids.push(path_id.to_string());
            assert(views(path_ids@) =~= seq![path_id@]);
            let added = AffectedTest { test: test.clone(), path_ids };
            insert_in_order(tests, added, &ByTest);
        },
    }
}

impl Walk {
    /// A walk that has not left its root.
    pub fn new(root: &Node) -> (walk: Self)
        ensures
            walk@ == at_root(root@),
    {
        let mut node_ids: Vec<String> = Vec::new();
        node_ids.push(root.id.clone());
        let mut trails: Vec<Trail> = Vec::new();
        let trail = Trail {
            id: "root".to_string(),
            node: root.clone(),
            node_ids,
            edges: Vec::new(),
        };
        assert(trail@ =~= (TrailView {
            id: "root"@,
            node: root@,
            node_ids: seq![root@.id],
            edges: seq![],
        }));
        trails.push(trail);
        assert(views(trails@) =~= seq![trail@]);
        let walk = Walk {
            trails,
            walked: 0,
            nodes: Vec::new(),
            edges: Vec::new(),
            tests: Vec::new(),
            boundaries: Vec::new(),
            frontiers: Vec::new(),
        };
        assert(walk@ =~= at_root(root@));
        walk
    }

    /// The symbol whose edges and references the next step needs, unless all paths have
    /// been followed.
    pub fn pending(&self) -> (node: Option<&Node>)
        ensures
            match node {
                Some(node) => 0 <= self@.walked < self@.trails.len() && node@
                    == self@.trails[self@.walked].node,
                None => self@.walked >= self@.trails.len(),
            },
    {
        if self.walked < self.trails.len() {
            Some(&self.trails[self.walked].node)
        } else {
            None
        }
    }

    fn leave(&mut self, from: &str, to: &str, why: &str)
        ensures
            final(self)@ == left_out(old(self)@, from@, to@, why@),
    {
        let ghost start = self@;
        let ends = join3(from, " -> ", to);
        let text = join2(ends.as_str(), why);
        proof {
            lemma_views_push(self.frontiers@, text);
        }
        self.frontiers.push(text);
        assert(self@ =~= left_out(start, from@, to@, why@));
    }

    fn extend(&mut self, at: usize, edge: &ImpactEdge)
        requires
            at < old(self)@.trails.len(),
        ensures
            final(self)@ == extended(old(self)@, old(self)@.trails[at as int], edge@),
    {
        let ghost start = self@;
        let ghost trail = start.trails[at as int];
        let next = if same(edge.source.id.as_str(), self.trails[at].node.id.as_str()) {
            edge.target.clone()
        } else {
            edge.source.clone()
        };
        assert(next@ == other_end(edge@, trail.node.id));
        let path_number = count(self.trails.len());
        let path_id = join2("p", path_number.as_str());
        assert(path_id@ =~= next_id(start));
        let key = impact_edge_key(edge);
        if !knows_edge(&self.edges, key.as_str()) {
            insert_in_order(&mut self.edges, edge.clone(), &ByEdgeKey);
        }
        if !knows_id(&self.nodes, next.id.as_str()) {
            insert_in_order(&mut self.nodes, next.clone(), &ById);
        }
        if next.is_test {
            add_test(&mut self.tests, &next, path_id.as_str());
        }
        let mut node_ids = copy_texts(&self.trails[at].node_ids);
        let id = next.id.clone();
        proof {
            lemma_views_push(node_ids@, id);
        }
        node_ids.push(id);
        let mut edges = copy_edges(&self.trails[at].edges);
        let own = edge.clone();
        proof {
            lemma_views_push(edges@, own);
        }
        edges.push(own);
        let longer = Trail { id: path_id, node: next, node_ids, edges };
        proof {
            lemma_views_push(self.trails@, longer);
        }
        self.trails.push(longer);
        assert(self@ =~= extended(start, trail, edge@));
    }

    fn follow(&mut self, at: usize, edge: &ImpactEdge, bounds: ImpactBounds)
        requires
            at < old(self)@.trails.len(),
        ensures
            final(self)@ == followed(old(self)@, old(self)@.trails[at as int], edge@, bounds),
    {
        let ghost trail = self@.trails[at as int];
        assert(views(self.trails[at as int].node_ids@) == trail.node_ids);
        assert(self@.edges.len() == self.edges@.len());
        assert(self@.nodes.len() == self.nodes@.len());
        assert(self@.trails.len() == self.trails@.len());
        if edge.confidence < bounds.min_confidence || (bounds.no_tests && (edge.source.is_test
            || edge.target.is_test)) {
            return;
        }
        let from = self.trails[at].node.id.clone();
        let to = if same(edge.source.id.as_str(), from.as_str()) {
            edge.target.id.clone()
        } else {
            edge.source.id.clone()
        };
        assert(to@ == other_end(edge@, trail.node.id).id);
        if visited(&self.trails[at].node_ids, to.as_str()) {
            return;
        }
        let key = impact_edge_key(edge);
        let edge_known = knows_edge(&self.edges, key.as_str());
        let node_known = knows_id(&self.nodes, to.as_str());
        if !edge_known && self.edges.len() == IMPACT_EDGE_LIMIT {
            self.leave(from.as_str(), to.as_str(), " (edge limit)");
        } else if !node_known && self.nodes.len() == bounds.limit {
            self.leave(from.as_str(), to.as_str(), " (node limit)");
        } else if self.trails.len() == IMPACT_EDGE_LIMIT {
            self.leave(from.as_str(), to.as_str(), " (path limit)");
        } else {
            self.extend(at, edge);
        }
    }

    fn note(&mut self, at: usize, found: Vec<UnresolvedBoundary>)
        requires
            at < old(self)@.trails.len(),
        ensures
            final(self)@ == noted(old(self)@, old(self)@.trails[at as int], views(found@)),
    {
        let ghost start = self@;
        let ghost trail = start.trails[at as int];
        let ghost all = views(found@);
        assert(start.boundaries.len() == self.boundaries@.len());
        assert(all.len() == found@.len());
        if found.len() > IMPACT_EDGE_LIMIT || self.boundaries.len() > IMPACT_EDGE_LIMIT
            - found.len() {
            let text = join2(self.trails[at].node.id.as_str(), " (unresolved references)");
            proof {
                lemma_views_push(self.frontiers@, text);
            }
            self.frontiers.push(text);
            assert(self@ =~= noted(start, trail, all));
        } else {
            let mut found = found;
            let ghost before = self.boundaries@;
            let ghost more = found@;
            self.boundaries.append(&mut found);
            assert(views(self.boundaries@) =~= views(before) + views(more));
            assert(self@ =~= noted(start, trail, all));
        }
    }

    /// Follows the next path, with the references and edges around the symbol where it
    /// ends.
    pub fn step(
        &mut self,
        references: &Vec<OpenReference>,
        edges: &Vec<ImpactEdge>,
        bounds: ImpactBounds,
    )
        requires
            0 <= old(self)@.walked < old(self)@.trails.len(),
        ensures
            final(self)@ == stepped(old(self)@, views(references@), views(edges@), bounds),
    {
        let ghost start = self@;
        let at = self.walked;
        let ghost trail = start.trails[at as int];
        assert(self.trails@[at as int]@ == trail);
        assert(trail.edges.len() == self.trails@[at as int].edges@.len());
        assert(at < self.trails.len());
        self.walked = at + 1;
        assert(self@ =~= (WalkView { walked: start.walked + 1, ..start }));
        let found = impact_unresolved_for(
            references,
            &self.trails[at].node,
            self.trails[at].id.as_str(),
        );
        self.note(at, found);
        let ghost noticed = self@;
        assert(noticed.trails == start.trails);
        if self.trails[at].edges.len() >= bounds.depth {
            return;
        }
        let around = impact_edges_from(edges, self.trails[at].node.id.as_str(), bounds.direction);
        let ghost all = views(around@);
        let mut i: usize = 0;
        assert(all.take(0) =~= seq![]);
        while i < around.len()
            invariant
                i <= around@.len(),
                all == views(around@),
                at < start.trails.len(),
                trail == start.trails[at as int],
                self@.trails.len() >= start.trails.len(),
                self@.trails[at as int] == trail,
                self@ == followed_all(noticed, trail, all.take(i as int), bounds),
            decreases around@.len() - i,
        {
            proof {
                assert(all.take(i + 1).drop_last() =~= all.take(i as int));
                assert(all.take(i + 1).last() == around@[i as int]@);
            }
            self.follow(at, &around[i], bounds);
            i = i + 1;
        }
        assert(all.take(i as int) =~= all);
    }
}

// ---------------------------------------------------------------------------
// The result

/// A path of a finished walk.
#[derive(Debug)]
pub struct ImpactPath {
    pub id: String,
    pub edges: Vec<ImpactEdge>,
}

/// The content of an [`ImpactPath`].
#[verifier::ext_equal]
pub struct ImpactPathView {
    pub id: Seq<char>,
    pub edges: Seq<ImpactEdgeView>,
}

impl View for ImpactPath {
    type V = ImpactPathView;

    open spec fn view(&self) -> ImpactPathView {
        ImpactPathView { id: self.id@, edges: views(self.edges@) }
    }
}

/// What a finished walk has found.
#[derive(Debug)]
pub struct ImpactResult {
    pub nodes: Vec<Node>,
    pub edges: Vec<ImpactEdge>,
    pub paths: Vec<ImpactPath>,
    pub affected_tests: Vec<AffectedTest>,
    pub boundaries: Vec<UnresolvedBoundary>,
    pub truncated: bool,
    pub truncated_frontiers: Vec<String>,
}

/// The content of an [`ImpactResult`].
#[verifier::ext_equal]
pub struct ImpactResultView {
    pub nodes: Seq<NodeView>,
    pub edges: Seq<ImpactEdgeView>,
    pub paths: Seq<ImpactPathView>,
    pub affected_tests: Seq<AffectedTestView>,
    pub boundaries: Seq<BoundaryView>,
    pub truncated: bool,
    pub truncated_frontiers: Seq<Seq<char>>,
}

impl View for ImpactResult {
    type V = ImpactResultView;

    open spec fn view(&self) -> ImpactResultView {
        ImpactResultView {
            nodes: views(self.nodes@),
            edges: views(self.edges@),
            paths: views(self.paths@),
            affected_tests: views(self.affected_tests@),
            boundaries: views(self.boundaries@),
            truncated: self.truncated,
            truncated_frontiers: views(self.truncated_frontiers@),
        }
    }
}

/// A path without what only the walk needs.
pub open spec fn path_of(trail: TrailView) -> ImpactPathView {
    ImpactPathView { id: trail.id, edges: trail.edges }
}

/// What a walk has found.
pub open spec fn result_of(walk: WalkView) -> ImpactResultView {
    ImpactResultView {
        nodes: walk.nodes,
        edges: walk.edges,
        paths: walk.trails.map_values(|trail: TrailView| path_of(trail)),
        affected_tests: walk.tests,
        boundaries: walk.boundaries,
        truncated: walk.frontiers.len() > 0,
        truncated_frontiers: walk.frontiers,
    }
}

impl Walk {
    /// What the walk has found.
    pub fn finish(self) -> (result: ImpactResult)
        ensures
            result@ == result_of(self@),
    {
        let ghost wanted = self@.trails.map_values(|trail: TrailView| path_of(trail));
        let mut paths: Vec<ImpactPath> = Vec::new();
        let mut i: usize = 0;
        assert(views(paths@) =~= wanted.take(0));
        while i < self.trails.len()
            invariant
                i <= self.trails@.len(),
                wanted == views(self.trails@).map_values(|trail: TrailView| path_of(trail)),
                views(paths@) == wanted.take(i as int),
            decreases self.trails@.len() - i,
        {
            let path = ImpactPath {
                id: self.trails[i].id.clone(),
                edges: copy_edges(&self.trails[i].edges),
            };
            proof {
                lemma_views_push(paths@, path);
                assert(wanted[i as int] == path_of(self.trails@[i as int]@));
                assert(path@ =~= wanted[i as int]);
                assert(wanted.take(i + 1) =~= wanted.take(i as int).push(wanted[i as int]));
            }
            paths.push(path);
            i = i + 1;
        }
        assert(wanted.take(i as int) =~= wanted);
        assert(self@.frontiers.len() == self.frontiers@.len());
        let truncated = self.frontiers.len() > 0;
        let result = ImpactResult {
            nodes: self.nodes,
            edges: self.edges,
            paths,
            affected_tests: self.tests,
            boundaries: self.boundaries,
            truncated,
            truncated_frontiers: self.frontiers,
        };
        assert(result@ =~= result_of(self@));
        result
    }
}

// ---------------------------------------------------------------------------
// Walking to the end

/// Paths that are there stay as they are, and their number stays within the limit.
pub open spec fn grows(before: WalkView, after: WalkView) -> bool {
    &&& after.walked == before.walked
    &&& before.trails.len() <= after.trails.len() <= IMPACT_EDGE_LIMIT
    &&& forall|i: int|
        0 <= i < before.trails.len() ==> #[trigger] after.trails[i] == before.trails[i]
}

proof fn lemma_followed_grows(
    walk: WalkView,
    trail: TrailView,
    edges: Seq<ImpactEdgeView>,
    bounds: ImpactBounds,
)
    requires
        walk.trails.len() <= IMPACT_EDGE_LIMIT,
    ensures
        grows(walk, followed_all(walk, trail, edges, bounds)),
    decreases edges.len(),
{
    if edges.len() > 0 {
        lemma_followed_grows(walk, trail, edges.drop_last(), bounds);
    }
}

pub proof fn lemma_step_grows(
    walk: WalkView,
    references: Seq<OpenReferenceView>,
    edges: Seq<ImpactEdgeView>,
    bounds: ImpactBounds,
)
    requires
        0 <= walk.walked < walk.trails.len() <= IMPACT_EDGE_LIMIT,
    ensures
        grows(
            (WalkView { walked: walk.walked + 1, ..walk }),
            stepped(walk, references, edges, bounds),
        ),
{
    let trail = walk.trails[walk.walked];
    let noticed = noted(
        WalkView { walked: walk.walked + 1, ..walk },
        trail,
        boundaries_of(references, trail.node, trail.id),
    );
    lemma_followed_grows(
        noticed,
        trail,
        ordered_edges(edges, trail.node.id, bounds.direction),
        bounds,
    );
}

/// All that a walk from a symbol finds.
pub fn collect_impact(
    references: &Vec<OpenReference>,
    edges: &Vec<ImpactEdge>,
    root: &Node,
    bounds: ImpactBounds,
) -> (result: ImpactResult)
    ensures
        result@ == result_of(impact_of(views(references@), views(edges@), root@, bounds)),
{
    let ghost wanted = impact_of(views(references@), views(edges@), root@, bounds);
    let mut walk = Walk::new(root);
    let ghost mut left: nat = IMPACT_EDGE_LIMIT as nat;
    while walk.pending().is_some()
        invariant
            0 <= walk@.walked <= walk@.trails.len() <= IMPACT_EDGE_LIMIT,
            left == IMPACT_EDGE_LIMIT - walk@.walked,
            wanted == continued(walk@, views(references@), views(edges@), bounds, left),
        decreases left,
    {
        proof {
            lemma_step_grows(walk@, views(references@), views(edges@), bounds);
            left = (left - 1) as nat;
        }
        walk.step(references, edges, bounds);
    }
    walk.finish()
}

} // verus!
