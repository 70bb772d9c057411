//! Attributing the changes between two revisions to symbols and edges.

pub mod deltas;
pub mod laws;

use vstd::prelude::*;
use crate::commands::changes::{
    ChangedFile, ChangedFileView, Hunk, HunkView, MAX_CHANGED_FILES,
};
use crate::commands::snapshot::{
    edge_with_key, find_edge, find_node, graph_in_order, ids_ascend, node_with_id, report_reference,
    reported, same_caller, same_edge, same_node, EdgeSnapshot, EdgeSnapshotView, GraphSnapshot,
    GraphView, StoredReference, StoredReferenceView, UnresolvedCaller, UnresolvedCallerView,
};
use crate::db::{Node, NodeView};
use crate::ordered::{
    dedup_by, inserted, number_keys_order, relation_of, sameness_of, sort_by, sorted_by,
    text_first_order, text_keys_order, without_repeats, Order, Sameness,
};
use crate::parser::edge_order::{key_lt, EdgeKey};
use crate::text::{lemma_views_push, less, opt_text, same, text_lt, views};

verus! {

// ---------------------------------------------------------------------------
// What is reported

/// A symbol that changed, with the lines at which hunks touch it. Where the earlier
/// symbol is not known, only the lines or the path tell of it.
#[derive(Debug)]
pub struct ChangedSymbol {
    pub symbol: Option<Node>,
    pub change: &'static str,
    pub hunks: Vec<i64>,
    pub path: Option<String>,
}

/// The content of a [`ChangedSymbol`].
#[verifier::ext_equal]
pub struct ChangedSymbolView {
    pub symbol: Option<NodeView>,
    pub change: Seq<char>,
    pub hunks: Seq<int>,
    pub path: Option<Seq<char>>,
}

/// The content of an optional symbol.
pub open spec fn opt_node(node: Option<Node>) -> Option<NodeView> {
    match node {
        Some(node) => Some(node@),
        None => None,
    }
}

/// Machine integers as mathematical ones.
pub open spec fn ints(numbers: Seq<i64>) -> Seq<int> {
    numbers.map_values(|n: i64| n as int)
}

impl View for ChangedSymbol {
    type V = ChangedSymbolView;

    open spec fn view(&self) -> ChangedSymbolView {
        ChangedSymbolView {
            symbol: opt_node(self.symbol),
            change: self.change@,
            hunks: ints(self.hunks@),
            path: opt_text(self.path),
        }
    }
}

/// An edge that changed, with its ends where they are known.
#[derive(Debug)]
pub struct ChangedEdge {
    pub source: Option<Node>,
    pub target: Option<Node>,
    pub relationship: String,
    pub resolution_kind: String,
    pub confidence: i64,
    pub change: &'static str,
}

/// The content of a [`ChangedEdge`].
#[verifier::ext_equal]
pub struct ChangedEdgeView {
    pub source: Option<NodeView>,
    pub target: Option<NodeView>,
    pub relationship: Seq<char>,
    pub resolution_kind: Seq<char>,
    pub confidence: int,
    pub change: Seq<char>,
}

impl View for ChangedEdge {
    type V = ChangedEdgeView;

    open spec fn view(&self) -> ChangedEdgeView {
        ChangedEdgeView {
            source: opt_node(self.source),
            target: opt_node(self.target),
            relationship: self.relationship@,
            resolution_kind: self.resolution_kind@,
            confidence: self.confidence as int,
            change: self.change@,
        }
    }
}

/// A hunk that touches no symbol.
#[derive(Debug, PartialEq)]
pub struct UnmappedHunk {
    pub path: String,
    pub line: i64,
}

/// The content of an [`UnmappedHunk`].
#[verifier::ext_equal]
pub struct UnmappedHunkView {
    pub path: Seq<char>,
    pub line: int,
}

impl View for UnmappedHunk {
    type V = UnmappedHunkView;

    open spec fn view(&self) -> UnmappedHunkView {
        UnmappedHunkView { path: self.path@, line: self.line as int }
    }
}

/// The order of hunks by path and line.
pub struct ByPlace;

impl Order<UnmappedHunk> for ByPlace {
    open spec fn precedes(&self, left: UnmappedHunkView, right: UnmappedHunkView) -> bool {
        if left.path != right.path {
            text_lt(left.path, right.path)
        } else {
            left.line < right.line
        }
    }

    fn before(&self, left: &UnmappedHunk, right: &UnmappedHunk) -> (found: bool) {
        if !same(left.path.as_str(), right.path.as_str()) {
            less(left.path.as_str(), right.path.as_str())
        } else {
            left.line < right.line
        }
    }

    proof fn is_order(&self) {
        let rest1 = |l: UnmappedHunkView, r: UnmappedHunkView| l.line < r.line;
        number_keys_order(rest1, |item: UnmappedHunkView| item.line);
        let whole = |left: UnmappedHunkView, right: UnmappedHunkView| self.precedes(left, right);
        text_first_order(whole, |item: UnmappedHunkView| item.path, rest1);
    }
}

impl Sameness<UnmappedHunk> for ByPlace {
    open spec fn alike(&self, left: UnmappedHunkView, right: UnmappedHunkView) -> bool {
        left == right
    }

    fn equal(&self, left: &UnmappedHunk, right: &UnmappedHunk) -> (found: bool) {
        let equal = same(left.path.as_str(), right.path.as_str()) && left.line == right.line;
        assert(equal ==> left@ =~= right@);
        equal
    }
}

/// The id that a changed symbol is ordered by: none where it is not known.
pub open spec fn symbol_key(symbol: ChangedSymbolView) -> Seq<char> {
    match symbol.symbol {
        Some(node) => node.id,
        None => seq![],
    }
}

/// The order of changed symbols by id.
pub struct BySymbol;

impl Order<ChangedSymbol> for BySymbol {
    open spec fn precedes(&self, left: ChangedSymbolView, right: ChangedSymbolView) -> bool {
        text_lt(symbol_key(left), symbol_key(right))
    }

    fn before(&self, left: &ChangedSymbol, right: &ChangedSymbol) -> (found: bool) {
        let none = String::new();
        let first = match &left.symbol {
            Some(node) => node.id.as_str(),
            None => none.as_str(),
        };
        let second = match &right.symbol {
            Some(node) => node.id.as_str(),
            None => none.as_str(),
        };
        less(first, second)
    }

    proof fn is_order(&self) {
        text_keys_order(
            |left: ChangedSymbolView, right: ChangedSymbolView| self.precedes(left, right),
            |item: ChangedSymbolView| symbol_key(item),
        );
    }
}

/// The id of an end of an edge: none where it is not known.
pub open spec fn end_key(node: Option<NodeView>) -> Seq<char> {
    match node {
        Some(node) => node.id,
        None => seq![],
    }
}

/// What a changed edge is ordered by.
pub open spec fn changed_edge_key(edge: ChangedEdgeView) -> EdgeKey {
    EdgeKey {
        source_id: end_key(edge.source),
        target_id: end_key(edge.target),
        kind: edge.relationship,
    }
}

/// The order of changed edges by the ids of their ends and their relation.
pub struct ByEnds;

impl Order<ChangedEdge> for ByEnds {
    open spec fn precedes(&self, left: ChangedEdgeView, right: ChangedEdgeView) -> bool {
        key_lt(changed_edge_key(left), changed_edge_key(right))
    }

    fn before(&self, left: &ChangedEdge, right: &ChangedEdge) -> (found: bool) {
        let none = String::new();
        let left_source = match &left.source {
            Some(node) => node.id.as_str(),
            None => none.as_str(),
        };
        let right_source = match &right.source {
            Some(node) => node.id.as_str(),
            None => none.as_str(),
        };
        let left_target = match &left.target {
            Some(node) => node.id.as_str(),
            None => none.as_str(),
        };
        let right_target = match &right.target {
            Some(node) => node.id.as_str(),
            None => none.as_str(),
        };
        if !same(left_source, right_source) {
            less(left_source, right_source)
        } else if !same(left_target, right_target) {
            less(left_target, right_target)
        } else {
            less(left.relationship.as_str(), right.relationship.as_str())
        }
    }

    proof fn is_order(&self) {
        let rest2 = |l: ChangedEdgeView, r: ChangedEdgeView| text_lt(l.relationship, r.relationship);
        text_keys_order(rest2, |item: ChangedEdgeView| item.relationship);
        let rest1 = |l: ChangedEdgeView, r: ChangedEdgeView| if end_key(l.target) != end_key(r.target) {
            text_lt(end_key(l.target), end_key(r.target))
        } else {
            text_lt(l.relationship, r.relationship)
        };
        text_first_order(rest1, |item: ChangedEdgeView| end_key(item.target), rest2);
        let whole = |left: ChangedEdgeView, right: ChangedEdgeView| self.precedes(left, right);
        text_first_order(whole, |item: ChangedEdgeView| end_key(item.source), rest1);
    }
}

// ---------------------------------------------------------------------------
// Symbols that hunks and files touch

/// The symbols of a file, in the order of the graph.
pub open spec fn nodes_in(nodes: Seq<NodeView>, path: Seq<char>) -> Seq<NodeView>
    decreases nodes.len(),
{
    if nodes.len() == 0 {
        seq![]
    } else if nodes.last().file_path == path {
        nodes_in(nodes.drop_last(), path).push(nodes.last())
    } else {
        nodes_in(nodes.drop_last(), path)
    }
}

/// The symbols of a file, in the order of the graph.
pub fn nodes_for_path(graph: &GraphSnapshot, path: &str) -> (found: Vec<Node>)
    ensures
        views(found@) == nodes_in(graph@.nodes, path@),
{
    let ghost all = graph@.nodes;
    let mut found: Vec<Node> = Vec::new();
    let mut i: usize = 0;
    assert(all.take(0) =~= seq![]);
    assert(views(found@) =~= seq![]);
    while i < graph.nodes.len()
        invariant
            all == views(graph.nodes@),
            i <= graph.nodes@.len(),
            views(found@) == nodes_in(all.take(i as int), path@),
        decreases graph.nodes@.len() - i,
    {
        proof {
            assert(all.take(i + 1).drop_last() =~= all.take(i as int));
            assert(all.take(i + 1).last() == graph.nodes@[i as int]@);
        }
        if same(graph.nodes[i].file_path.as_str(), path) {
            let node = graph.nodes[i].clone();
            let ghost before = found@;
            found.push(node);
            proof {
                lemma_views_push(before, node);
            }
        }
        i = i + 1;
    }
    assert(all.take(i as int) =~= all);
    found
}

/// The position of the change of the symbol with an id.
pub open spec fn position_of(changes: Seq<ChangedSymbolView>, id: Seq<char>) -> Option<int>
    decreases changes.len(),
{
    if changes.len() == 0 {
        None
    } else {
        match position_of(changes.drop_last(), id) {
            Some(at) => Some(at),
            None => if changes.last().symbol is Some && changes.last().symbol->0.id == id {
                Some(changes.len() - 1)
            } else {
                None
            },
        }
    }
}

pub proof fn lemma_position_within(changes: Seq<ChangedSymbolView>, id: Seq<char>)
    ensures
        match position_of(changes, id) {
            Some(at) => 0 <= at < changes.len() && changes[at].symbol is Some
                && changes[at].symbol->0.id == id,
            None => true,
        },
    decreases changes.len(),
{
    if changes.len() > 0 {
        lemma_position_within(changes.drop_last(), id);
    }
}

/// Lines in ascending order with one more, each once.
pub open spec fn with_line(lines: Seq<int>, line: int) -> Seq<int> {
    if lines.contains(line) {
        lines
    } else {
        inserted(lines, line, |left: int, right: int| left < right)
    }
}

/// The changes after a hunk or a file touches a symbol: the first change of a symbol
/// stands, and the line joins its hunks.
pub open spec fn touched(
    changes: Seq<ChangedSymbolView>,
    node: NodeView,
    change: Seq<char>,
    line: Option<int>,
) -> Seq<ChangedSymbolView> {
    match position_of(changes, node.id) {
        Some(at) => match line {
            Some(line) => changes.update(
                at,
                ChangedSymbolView { hunks: with_line(changes[at].hunks, line), ..changes[at] },
            ),
            None => changes,
        },
        None => changes.push(
            ChangedSymbolView {
                symbol: Some(node),
                change,
                hunks: match line {
                    Some(line) => seq![line],
                    None => seq![],
                },
                path: None,
            },
        ),
    }
}

/// The changes after a comparison tells what became of a symbol.
pub open spec fn settled(
    changes: Seq<ChangedSymbolView>,
    node: NodeView,
    change: Seq<char>,
) -> Seq<ChangedSymbolView> {
    let settled_change = ChangedSymbolView { symbol: Some(node), change, hunks: seq![], path: None };
    match position_of(changes, node.id) {
        Some(at) => changes.update(at, settled_change),
        None => changes.push(settled_change),
    }
}

/// The last line of a hunk.
pub open spec fn hunk_end(hunk: HunkView) -> int {
    hunk.new_start + hunk.new_count - 1
}

/// A symbol stands on one of the lines of a hunk.
pub open spec fn overlaps(node: NodeView, hunk: HunkView) -> bool {
    node.start_line <= hunk_end(hunk) && hunk.new_start <= node.end_line
}

/// The changes after a hunk touches those of the symbols that it overlaps.
pub open spec fn touched_by_hunk(
    changes: Seq<ChangedSymbolView>,
    nodes: Seq<NodeView>,
    hunk: HunkView,
    change: Seq<char>,
) -> Seq<ChangedSymbolView>
    decreases nodes.len(),
{
    if nodes.len() == 0 {
        changes
    } else {
        let before = touched_by_hunk(changes, nodes.drop_last(), hunk, change);
        if overlaps(nodes.last(), hunk) {
            touched(before, nodes.last(), change, Some(hunk.new_start))
        } else {
            before
        }
    }
}

/// One of the symbols stands on a line of the hunk.
pub open spec fn any_overlaps(nodes: Seq<NodeView>, hunk: HunkView) -> bool {
    exists|i: int| 0 <= i < nodes.len() && overlaps(#[trigger] nodes[i], hunk)
}

/// The status of a file among the changed ones.
pub open spec fn status_of(files: Seq<ChangedFileView>, path: Seq<char>) -> Option<Seq<char>>
    decreases files.len(),
{
    if files.len() == 0 {
        None
    } else if files.last().path == path {
        Some(files.last().status)
    } else {
        status_of(files.drop_last(), path)
    }
}

/// What a hunk in a file of this status does to its symbols.
pub open spec fn change_in(status: Option<Seq<char>>) -> Seq<char> {
    if status == Some("added"@) {
        "added"@
    } else {
        "modified"@
    }
}

/// The changes after the hunks with new lines touch the symbols of their files.
pub open spec fn touched_by_hunks(
    hunks: Seq<HunkView>,
    files: Seq<ChangedFileView>,
    nodes: Seq<NodeView>,
) -> Seq<ChangedSymbolView>
    decreases hunks.len(),
{
    if hunks.len() == 0 {
        seq![]
    } else {
        let before = touched_by_hunks(hunks.drop_last(), files, nodes);
        let hunk = hunks.last();
        if hunk.new_count > 0 {
            touched_by_hunk(
                before,
                nodes_in(nodes, hunk.path),
                hunk,
                change_in(status_of(files, hunk.path)),
            )
        } else {
            before
        }
    }
}

/// The hunks with new lines that touch no symbol.
pub open spec fn untouching(hunks: Seq<HunkView>, nodes: Seq<NodeView>) -> Seq<UnmappedHunkView>
    decreases hunks.len(),
{
    if hunks.len() == 0 {
        seq![]
    } else {
        let before = untouching(hunks.drop_last(), nodes);
        let hunk = hunks.last();
        if hunk.new_count > 0 && !any_overlaps(nodes_in(nodes, hunk.path), hunk) {
            before.push(UnmappedHunkView { path: hunk.path, line: hunk.new_start })
        } else {
            before
        }
    }
}

/// The changes after the symbols of a file are touched as a whole.
pub open spec fn touched_by_file(
    changes: Seq<ChangedSymbolView>,
    nodes: Seq<NodeView>,
    change: Seq<char>,
) -> Seq<ChangedSymbolView>
    decreases nodes.len(),
{
    if nodes.len() == 0 {
        changes
    } else {
        touched(touched_by_file(changes, nodes.drop_last(), change), nodes.last(), change, None)
    }
}

/// The changes after files are touched as a whole: all of them where they were named
/// one by one, and otherwise those that were only renamed.
pub open spec fn touched_by_files(
    changes: Seq<ChangedSymbolView>,
    files: Seq<ChangedFileView>,
    nodes: Seq<NodeView>,
    named: bool,
) -> Seq<ChangedSymbolView>
    decreases files.len(),
{
    if files.len() == 0 {
        changes
    } else {
        let before = touched_by_files(changes, files.drop_last(), nodes, named);
        let file = files.last();
        if named {
            touched_by_file(before, nodes_in(nodes, file.path), change_in(Some(file.status)))
        } else if file.status == "renamed"@ {
            touched_by_file(before, nodes_in(nodes, file.path), "modified"@)
        } else {
            before
        }
    }
}

/// The changes after each symbol is compared with the earlier one of its id.
pub open spec fn compared(
    changes: Seq<ChangedSymbolView>,
    nodes: Seq<NodeView>,
    earlier: Seq<NodeView>,
) -> Seq<ChangedSymbolView>
    decreases nodes.len(),
{
    if nodes.len() == 0 {
        changes
    } else {
        let before = compared(changes, nodes.drop_last(), earlier);
        let node = nodes.last();
        match node_with_id(earlier, node.id) {
            None => settled(before, node, "added"@),
            Some(old_node) => if old_node != node {
                settled(before, node, "modified"@)
            } else {
                before
            },
        }
    }
}

/// The removals of the earlier symbols whose id is gone.
pub open spec fn removals(earlier: Seq<NodeView>, nodes: Seq<NodeView>) -> Seq<ChangedSymbolView>
    decreases earlier.len(),
{
    if earlier.len() == 0 {
        seq![]
    } else {
        let before = removals(earlier.drop_last(), nodes);
        if node_with_id(nodes, earlier.last().id) is None {
            before.push(
                ChangedSymbolView {
                    symbol: Some(earlier.last()),
                    change: "removed"@,
                    hunks: seq![],
                    path: None,
                },
            )
        } else {
            before
        }
    }
}

/// The removals of which only the hunk is known.
pub open spec fn removed_hunks(hunks: Seq<HunkView>) -> Seq<ChangedSymbolView>
    decreases hunks.len(),
{
    if hunks.len() == 0 {
        seq![]
    } else {
        let before = removed_hunks(hunks.drop_last());
        if hunks.last().new_count == 0 {
            before.push(
                ChangedSymbolView {
                    symbol: None,
                    change: "removed"@,
                    hunks: seq![hunks.last().old_start],
                    path: None,
                },
            )
        } else {
            before
        }
    }
}

/// The removals of which only the file is known.
pub open spec fn removed_files(files: Seq<ChangedFileView>) -> Seq<ChangedSymbolView>
    decreases files.len(),
{
    if files.len() == 0 {
        seq![]
    } else {
        let before = removed_files(files.drop_last());
        if files.last().status == "deleted"@ {
            before.push(
                ChangedSymbolView {
                    symbol: None,
                    change: "removed"@,
                    hunks: seq![],
                    path: Some(files.last().path),
                },
            )
        } else {
            before
        }
    }
}

// ---------------------------------------------------------------------------
// Edges

/// A change of an edge, with its ends among the given symbols.
pub open spec fn changed_edge(
    edge: EdgeSnapshotView,
    nodes: Seq<NodeView>,
    change: Seq<char>,
) -> ChangedEdgeView {
    ChangedEdgeView {
        source: node_with_id(nodes, edge.key.source_id),
        target: node_with_id(nodes, edge.key.target_id),
        relationship: edge.key.kind,
        resolution_kind: edge.resolution_kind,
        confidence: edge.confidence,
        change,
    }
}

/// The edges that are new, or not what they were.
pub open spec fn new_edges(
    edges: Seq<EdgeSnapshotView>,
    earlier: Seq<EdgeSnapshotView>,
    nodes: Seq<NodeView>,
) -> Seq<ChangedEdgeView>
    decreases edges.len(),
{
    if edges.len() == 0 {
        seq![]
    } else {
        let before = new_edges(edges.drop_last(), earlier, nodes);
        match edge_with_key(earlier, edges.last().key) {
            None => before.push(changed_edge(edges.last(), nodes, "added"@)),
            Some(old_edge) => if old_edge != edges.last() {
                before.push(changed_edge(edges.last(), nodes, "modified"@))
            } else {
                before
            },
        }
    }
}

/// The edges that are gone.
pub open spec fn old_edges(
    earlier: Seq<EdgeSnapshotView>,
    edges: Seq<EdgeSnapshotView>,
    nodes: Seq<NodeView>,
) -> Seq<ChangedEdgeView>
    decreases earlier.len(),
{
    if earlier.len() == 0 {
        seq![]
    } else {
        let before = old_edges(earlier.drop_last(), edges, nodes);
        if edge_with_key(edges, earlier.last().key) is None {
            before.push(changed_edge(earlier.last(), nodes, "removed"@))
        } else {
            before
        }
    }
}

// ---------------------------------------------------------------------------
// Unresolved calls

/// The unresolved calls that were not there before.
pub open spec fn new_callers(
    callers: Seq<UnresolvedCallerView>,
    earlier: Seq<UnresolvedCallerView>,
) -> Seq<UnresolvedCallerView>
    decreases callers.len(),
{
    if callers.len() == 0 {
        seq![]
    } else if earlier.contains(callers.last()) {
        new_callers(callers.drop_last(), earlier)
    } else {
        new_callers(callers.drop_last(), earlier).push(callers.last())
    }
}

/// A line of a file is among the new lines of a hunk.
pub open spec fn on_new_line(hunks: Seq<HunkView>, path: Seq<char>, line: int) -> bool {
    exists|i: int|
        0 <= i < hunks.len() && (#[trigger] hunks[i]).path == path && hunks[i].new_start <= line
            <= hunk_end(hunks[i])
}

/// The unresolved calls that changed symbols make on new lines.
pub open spec fn callers_on_new_lines(
    references: Seq<StoredReferenceView>,
    changes: Seq<ChangedSymbolView>,
    hunks: Seq<HunkView>,
) -> Seq<UnresolvedCallerView>
    decreases references.len(),
{
    if references.len() == 0 {
        seq![]
    } else {
        let before = callers_on_new_lines(references.drop_last(), changes, hunks);
        let reference = references.last();
        if position_of(changes, reference.source) is Some && on_new_line(
            hunks,
            reference.path,
            reference.line,
        ) {
            before.push(reported(reference))
        } else {
            before
        }
    }
}

// ---------------------------------------------------------------------------
// The report

/// What a comparison is made of.
#[verifier::ext_equal]
pub struct ComparisonView {
    pub files: Seq<ChangedFileView>,
    pub hunks: Seq<HunkView>,
    pub graph: GraphView,
    pub earlier: Option<GraphView>,
    pub references: Seq<StoredReferenceView>,
    /// The files were named one by one, without a base revision.
    pub named: bool,
}

/// What a comparison finds.
#[verifier::ext_equal]
pub struct ReportView {
    pub symbols: Seq<ChangedSymbolView>,
    pub edges: Seq<ChangedEdgeView>,
    pub unresolved: Seq<UnresolvedCallerView>,
    pub unmapped: Seq<UnmappedHunkView>,
    pub needs_history: bool,
}

/// Some file is one of the changed ones.
pub open spec fn names_path(files: Seq<ChangedFileView>, path: Seq<char>) -> bool {
    exists|i: int| 0 <= i < files.len() && (#[trigger] files[i]).path == path
}

/// The hunks of the changed files.
pub open spec fn retained(hunks: Seq<HunkView>, files: Seq<ChangedFileView>) -> Seq<HunkView>
    decreases hunks.len(),
{
    if hunks.len() == 0 {
        seq![]
    } else if names_path(files, hunks.last().path) {
        retained(hunks.drop_last(), files).push(hunks.last())
    } else {
        retained(hunks.drop_last(), files)
    }
}

/// Some hunk removes lines only.
pub open spec fn removes_lines(hunks: Seq<HunkView>) -> bool {
    exists|i: int| 0 <= i < hunks.len() && (#[trigger] hunks[i]).new_count == 0
}

/// Some file is gone.
pub open spec fn deletes_file(files: Seq<ChangedFileView>) -> bool {
    exists|i: int| 0 <= i < files.len() && (#[trigger] files[i]).status == "deleted"@
}

/// Removals cannot be told by their symbols: there is no earlier graph, but lines or
/// files are gone.
pub open spec fn needs_history(input: ComparisonView) -> bool {
    input.earlier is None && (removes_lines(retained(input.hunks, input.files)) || (input.named
        && deletes_file(input.files)))
}

/// The symbols that hunks and files touch.
pub open spec fn touched_symbols(input: ComparisonView) -> Seq<ChangedSymbolView> {
    touched_by_files(
        touched_by_hunks(
            retained(input.hunks, input.files),
            input.files,
            input.graph.nodes,
        ),
        input.files,
        input.graph.nodes,
        input.named,
    )
}

/// All changes of symbols, in the order in which they are found.
pub open spec fn found_symbols(input: ComparisonView) -> Seq<ChangedSymbolView> {
    match input.earlier {
        Some(earlier) => compared(touched_symbols(input), input.graph.nodes, earlier.nodes)
            + removals(earlier.nodes, input.graph.nodes),
        None => if needs_history(input) {
            touched_symbols(input) + removed_hunks(retained(input.hunks, input.files)) + if input.named {
                removed_files(input.files)
            } else {
                seq![]
            }
        } else {
            touched_symbols(input)
        },
    }
}

/// What a comparison finds.
pub open spec fn report_of(input: ComparisonView) -> ReportView {
    let hunks = retained(input.hunks, input.files);
    ReportView {
        symbols: sorted_by(
            found_symbols(input),
            relation_of::<ChangedSymbol, BySymbol>(BySymbol),
        ),
        edges: match input.earlier {
            Some(earlier) => sorted_by(
                new_edges(input.graph.edges, earlier.edges, input.graph.nodes) + old_edges(
                    earlier.edges,
                    input.graph.edges,
                    earlier.nodes,
                ),
                relation_of::<ChangedEdge, ByEnds>(ByEnds),
            ),
            None => seq![],
        },
        unresolved: match input.earlier {
            Some(earlier) => new_callers(input.graph.unresolved, earlier.unresolved),
            None => callers_on_new_lines(input.references, touched_symbols(input), hunks),
        },
        unmapped: without_repeats(
            sorted_by(
                untouching(hunks, input.graph.nodes),
                relation_of::<UnmappedHunk, ByPlace>(ByPlace),
            ),
            sameness_of::<UnmappedHunk, ByPlace>(ByPlace),
        ),
        needs_history: needs_history(input),
    }
}

// ---------------------------------------------------------------------------
// Finding it

fn ints_contain(lines: &Vec<i64>, line: i64) -> (found: bool)
    ensures
        found == ints(lines@).contains(line as int),
{
    let mut i: usize = 0;
    while i < lines.len()
        invariant
            i <= lines@.len(),
            forall|k: int| 0 <= k < i ==> ints(lines@)[k] != line as int,
        decreases lines@.len() - i,
    {
        if lines[i] == line {
            assert(ints(lines@)[i as int] == line as int);
            return true;
        }
        i = i + 1;
    }
    assert(!ints(lines@).contains(line as int)) by {
        if ints(lines@).contains(line as int) {
            let k = choose|k: int| 0 <= k < ints(lines@).len() && ints(lines@)[k] == line as int;
            assert(ints(lines@)[k] != line as int);
        }
    }
    false
}

fn add_line(lines: &mut Vec<i64>, line: i64)
    ensures
        ints(final(lines)@) == with_line(ints(old(lines)@), line as int),
{
    if ints_contain(lines, line) {
        return;
    }
    let ghost start = lines@;
    let ghost precedes = |left: int, right: int| left < right;
    let mut at: usize = lines.len();
    assert(ints(start).take(at as int) =~= ints(start));
    assert(inserted(ints(start), line as int, precedes) + ints(start).skip(at as int)
        =~= inserted(ints(start), line as int, precedes));
    while at > 0 && line < lines[at - 1]
        invariant
            lines@ == start,
            at <= start.len(),
            precedes == (|left: int, right: int| left < right),
            inserted(ints(start), line as int, precedes) == inserted(
                ints(start).take(at as int),
                line as int,
                precedes,
            ) + ints(start).skip(at as int),
        decreases at,
    {
        proof {
            let front = ints(start).take(at as int);
            assert(front.drop_last() =~= ints(start).take(at - 1));
            assert(front.last() == start[at - 1] as int);
            assert(inserted(front.drop_last(), line as int, precedes).push(front.last()) + ints(
                start,
            ).skip(at as int) =~= inserted(front.drop_last(), line as int, precedes) + ints(
                start,
            ).skip(at - 1));
        }
        at = at - 1;
    }
    lines.insert(at, line);
    proof {
        let front = ints(start).take(at as int);
        assert(inserted(front, line as int, precedes) == front.push(line as int)) by {
            if at > 0 {
                assert(front.last() == start[at - 1] as int);
            }
        }
        assert(ints(lines@) =~= front.push(line as int) + ints(start).skip(at as int));
    }
}

fn find_change(changes: &Vec<ChangedSymbol>, id: &str) -> (at: Option<usize>)
    ensures
        match at {
            Some(at) => position_of(views(changes@), id@) == Some(at as int) && at < changes@.len(),
            None => position_of(views(changes@), id@) is None,
        },
{
    let ghost all = views(changes@);
    let mut i: usize = 0;
    assert(all.take(0) =~= seq![]);
    while i < changes.len()
        invariant
            i <= changes@.len(),
            all == views(changes@),
            position_of(all.take(i as int), id@) is None,
        decreases changes@.len() - i,
    {
        proof {
            assert(all.take(i + 1).drop_last() =~= all.take(i as int));
            assert(all.take(i + 1).last() == changes@[i as int]@);
        }
        let found = match &changes[i].symbol {
            Some(node) => same(node.id.as_str(), id),
            None => false,
        };
        if found {
            proof {
                assert(position_of(all.take(i + 1), id@) == Some(i as int));
                lemma_position_kept(all, id@, i + 1);
            }
            return Some(i);
        }
        i = i + 1;
    }
    assert(all.take(i as int) =~= all);
    None
}

proof fn lemma_position_kept(changes: Seq<ChangedSymbolView>, id: Seq<char>, count: int)
    requires
        0 <= count <= changes.len(),
        position_of(changes.take(count), id) is Some,
    ensures
        position_of(changes, id) == position_of(changes.take(count), id),
    decreases changes.len() - count,
{
    if count == changes.len() {
        assert(changes.take(count) =~= changes);
    } else {
        assert(changes.take(count + 1).drop_last() =~= changes.take(count));
        lemma_position_kept(changes, id, count + 1);
    }
}

fn touch(changes: &mut Vec<ChangedSymbol>, node: &Node, change: &'static str, line: Option<i64>)
    ensures
        views(final(changes)@) == touched(
            views(old(changes)@),
            node@,
            change@,
            crate::db::opt_int(line),
        ),
{
    let ghost start = changes@;
    match find_change(changes, node.id.as_str()) {
        Some(at) => {
            if let Some(line) = line {
                let symbol = match &changes[at].symbol {
                    Some(own) => Some(own.clone()),
                    None => None,
                };
                let mut hunks = changes[at].hunks.clone();
                let path = changes[at].path.clone();
                let own_change = changes[at].change;
                assert(ints(hunks@) =~= start[at as int]@.hunks);
                add_line(&mut hunks, line);
                let updated = ChangedSymbol { symbol, change: own_change, hunks, path };
                assert(updated@ =~= (ChangedSymbolView {
                    hunks: with_line(start[at as int]@.hunks, line as int),
                    ..start[at as int]@
                }));
                changes.set(at, updated);
                assert(views(changes@) =~= views(start).update(at as int, updated@));
            }
        },
        None => {
            let mut hunks: Vec<i64> = Vec::new();
            if let Some(line) = line {
                hunks.push(line);
            }
            assert(ints(hunks@) =~= match line {
                Some(line) => seq![line as int],
                None => seq![],
            });
            let added = ChangedSymbol {
                symbol: Some(node.clone()),
                change,
                hunks,
                path: None,
            };
            proof {
                lemma_views_push(changes@, added);
            }
            changes.push(added);
        },
    }
}

fn settle(changes: &mut Vec<ChangedSymbol>, node: &Node, change: &'static str)
    ensures
        views(final(changes)@) == settled(views(old(changes)@), node@, change@),
{
    let ghost start = changes@;
    let hunks: Vec<i64> = Vec::new();
    assert(ints(hunks@) =~= seq![]);
    let settled_change = ChangedSymbol { symbol: Some(node.clone()), change, hunks, path: None };
    match find_change(changes, node.id.as_str()) {
        Some(at) => {
            changes.set(at, settled_change);
            assert(views(changes@) =~= views(start).update(at as int, settled_change@));
        },
        None => {
            proof {
                lemma_views_push(changes@, settled_change);
            }
            changes.push(settled_change);
        },
    }
}

/// The last line of the hunk can be counted.
pub open spec fn hunk_fits(hunk: HunkView) -> bool {
    i64::MIN <= hunk.new_start + hunk.new_count && hunk.new_start + hunk.new_count <= i64::MAX
}

fn overlap(node: &Node, hunk: &Hunk) -> (found: bool)
    requires
        hunk_fits(hunk@),
        hunk.new_count > 0,
    ensures
        found == overlaps(node@, hunk@),
{
    let end: i64 = hunk.new_start + hunk.new_count - 1;
    node.start_line <= end && hunk.new_start <= node.end_line
}

fn touch_by_hunk(
    changes: &mut Vec<ChangedSymbol>,
    nodes: &Vec<Node>,
    hunk: &Hunk,
    change: &'static str,
) -> (any: bool)
    requires
        hunk_fits(hunk@),
        hunk.new_count > 0,
    ensures
        views(final(changes)@) == touched_by_hunk(
            views(old(changes)@),
            views(nodes@),
            hunk@,
            change@,
        ),
        any == any_overlaps(views(nodes@), hunk@),
{
    let ghost start = views(changes@);
    let ghost all = views(nodes@);
    let mut any = false;
    let mut i: usize = 0;
    assert(all.take(0) =~= seq![]);
    while i < nodes.len()
        invariant
            i <= nodes@.len(),
            all == views(nodes@),
            hunk_fits(hunk@),
            hunk.new_count > 0,
            views(changes@) == touched_by_hunk(start, all.take(i as int), hunk@, change@),
            any == exists|k: int| 0 <= k < i && overlaps(#[trigger] all[k], hunk@),
        decreases nodes@.len() - i,
    {
        proof {
            assert(all.take(i + 1).drop_last() =~= all.take(i as int));
            assert(all.take(i + 1).last() == nodes@[i as int]@);
            assert(all[i as int] == nodes@[i as int]@);
        }
        if overlap(&nodes[i], hunk) {
            any = true;
            touch(changes, &nodes[i], change, Some(hunk.new_start));
        }
        i = i + 1;
    }
    assert(all.take(i as int) =~= all);
    any
}

fn find_status(files: &Vec<ChangedFile>, path: &str) -> (status: Option<&'static str>)
    ensures
        crate::text::opt_str(status) == status_of(views(files@), path@),
{
    let ghost all = views(files@);
    let mut i: usize = files.len();
    assert(all.take(i as int) =~= all);
    while i > 0
        invariant
            i <= files@.len(),
            all == views(files@),
            status_of(all, path@) == status_of(all.take(i as int), path@),
        decreases i,
    {
        proof {
            assert(all.take(i as int).drop_last() =~= all.take(i - 1));
            assert(all.take(i as int).last() == files@[i - 1]@);
        }
        if same(files[i - 1].path.as_str(), path) {
            return Some(files[i - 1].status);
        }
        i = i - 1;
    }
    None
}

fn change_for(status: Option<&'static str>) -> (change: &'static str)
    ensures
        change@ == change_in(crate::text::opt_str(status)),
{
    match status {
        Some(status) => {
            if same(status, "added") {
                "added"
            } else {
                "modified"
            }
        },
        None => "modified",
    }
}

fn touch_by_hunks(
    hunks: &Vec<Hunk>,
    files: &Vec<ChangedFile>,
    graph: &GraphSnapshot,
) -> (found: (Vec<ChangedSymbol>, Vec<UnmappedHunk>))
    requires
        forall|i: int| 0 <= i < hunks@.len() ==> hunk_fits((#[trigger] hunks@[i])@),
    ensures
        views(found.0@) == touched_by_hunks(views(hunks@), views(files@), graph@.nodes),
        views(found.1@) == untouching(views(hunks@), graph@.nodes),
{
    let ghost all = views(hunks@);
    let mut changes: Vec<ChangedSymbol> = Vec::new();
    let mut unmapped: Vec<UnmappedHunk> = Vec::new();
    let mut i: usize = 0;
    assert(all.take(0) =~= seq![]);
    assert(views(changes@) =~= seq![]);
    assert(views(unmapped@) =~= seq![]);
    while i < hunks.len()
        invariant
            i <= hunks@.len(),
            all == views(hunks@),
            forall|k: int| 0 <= k < hunks@.len() ==> hunk_fits((#[trigger] hunks@[k])@),
            views(changes@) == touched_by_hunks(all.take(i as int), views(files@), graph@.nodes),
            views(unmapped@) == untouching(all.take(i as int), graph@.nodes),
        decreases hunks@.len() - i,
    {
        let hunk = &hunks[i];
        proof {
            assert(all.take(i + 1).drop_last() =~= all.take(i as int));
            assert(all.take(i + 1).last() == hunk@);
        }
        if hunk.new_count > 0 {
            let nodes = nodes_for_path(graph, hunk.path.as_str());
            let change = change_for(find_status(files, hunk.path.as_str()));
            let any = touch_by_hunk(&mut changes, &nodes, hunk, change);
            if !any {
                let place = UnmappedHunk { path: hunk.path.clone(), line: hunk.new_start };
                proof {
                    lemma_views_push(unmapped@, place);
                }
                unmapped.push(place);
            }
        }
        i = i + 1;
    }
    assert(all.take(i as int) =~= all);
    (changes, unmapped)
}

fn touch_by_file(changes: &mut Vec<ChangedSymbol>, nodes: &Vec<Node>, change: &'static str)
    ensures
        views(final(changes)@) == touched_by_file(views(old(changes)@), views(nodes@), change@),
{
    let ghost start = views(changes@);
    let ghost all = views(nodes@);
    let mut i: usize = 0;
    assert(all.take(0) =~= seq![]);
    while i < nodes.len()
        invariant
            i <= nodes@.len(),
            all == views(nodes@),
            views(changes@) == touched_by_file(start, all.take(i as int), change@),
        decreases nodes@.len() - i,
    {
        proof {
            assert(all.take(i + 1).drop_last() =~= all.take(i as int));
            assert(all.take(i + 1).last() == nodes@[i as int]@);
        }
        touch(changes, &nodes[i], change, None);
        i = i + 1;
    }
    assert(all.take(i as int) =~= all);
}

fn touch_by_files(
    changes: &mut Vec<ChangedSymbol>,
    files: &Vec<ChangedFile>,
    graph: &GraphSnapshot,
    named: bool,
)
    ensures
        views(final(changes)@) == touched_by_files(
            views(old(changes)@),
            views(files@),
            graph@.nodes,
            named,
        ),
{
    let ghost start = views(changes@);
    let ghost all = views(files@);
    let mut i: usize = 0;
    assert(all.take(0) =~= seq![]);
    while i < files.len()
        invariant
            i <= files@.len(),
            all == views(files@),
            views(changes@) == touched_by_files(
                start,
                all.take(i as int),
                graph@.nodes,
                named,
            ),
        decreases files@.len() - i,
    {
        let file = &files[i];
        proof {
            assert(all.take(i + 1).drop_last() =~= all.take(i as int));
            assert(all.take(i + 1).last() == file@);
        }
        if named {
            let nodes = nodes_for_path(graph, file.path.as_str());
            let change = change_for(Some(file.status));
            touch_by_file(changes, &nodes, change);
        } else if same(file.status, "renamed") {
            let nodes = nodes_for_path(graph, file.path.as_str());
            touch_by_file(changes, &nodes, "modified");
        }
        i = i + 1;
    }
    assert(all.take(i as int) =~= all);
}

fn compare_symbols(changes: &mut Vec<ChangedSymbol>, nodes: &Vec<Node>, earlier: &Vec<Node>)
    requires
        ids_ascend(views(earlier@)),
    ensures
        views(final(changes)@) == compared(
            views(old(changes)@),
            views(nodes@),
            views(earlier@),
        ),
{
    let ghost start = views(changes@);
    let ghost all = views(nodes@);
    let mut i: usize = 0;
    assert(all.take(0) =~= seq![]);
    while i < nodes.len()
        invariant
            i <= nodes@.len(),
            all == views(nodes@),
            ids_ascend(views(earlier@)),
            views(changes@) == compared(start, all.take(i as int), views(earlier@)),
        decreases nodes@.len() - i,
    {
        proof {
            assert(all.take(i + 1).drop_last() =~= all.take(i as int));
            assert(all.take(i + 1).last() == nodes@[i as int]@);
        }
        match find_node(earlier, nodes[i].id.as_str()) {
            None => settle(changes, &nodes[i], "added"),
            Some(at) => {
                if !same_node(&earlier[at], &nodes[i]) {
                    settle(changes, &nodes[i], "modified");
                }
            },
        }
        i = i + 1;
    }
    assert(all.take(i as int) =~= all);
}

fn add_removals(changes: &mut Vec<ChangedSymbol>, earlier: &Vec<Node>, nodes: &Vec<Node>)
    requires
        ids_ascend(views(nodes@)),
    ensures
        views(final(changes)@) == views(old(changes)@) + removals(
            views(earlier@),
            views(nodes@),
        ),
{
    let ghost start = views(changes@);
    let ghost all = views(earlier@);
    let mut i: usize = 0;
    assert(all.take(0) =~= seq![]);
    assert(start + removals(all.take(0), views(nodes@)) =~= start);
    while i < earlier.len()
        invariant
            i <= earlier@.len(),
            all == views(earlier@),
            ids_ascend(views(nodes@)),
            views(changes@) == start + removals(all.take(i as int), views(nodes@)),
        decreases earlier@.len() - i,
    {
        proof {
            assert(all.take(i + 1).drop_last() =~= all.take(i as int));
            assert(all.take(i + 1).last() == earlier@[i as int]@);
        }
        if find_node(nodes, earlier[i].id.as_str()).is_none() {
            let hunks: Vec<i64> = Vec::new();
            assert(ints(hunks@) =~= seq![]);
            let removed = ChangedSymbol {
                symbol: Some(earlier[i].clone()),
                change: "removed",
                hunks,
                path: None,
            };
            let ghost before = changes@;
            changes.push(removed);
            proof {
                lemma_views_push(before, removed);
                assert(views(changes@) =~= start + removals(all.take(i + 1), views(nodes@)));
            }
        }
        i = i + 1;
    }
    assert(all.take(i as int) =~= all);
}

fn add_removed_hunks(changes: &mut Vec<ChangedSymbol>, hunks: &Vec<Hunk>)
    ensures
        views(final(changes)@) == views(old(changes)@) + removed_hunks(views(hunks@)),
{
    let ghost start = views(changes@);
    let ghost all = views(hunks@);
    let mut i: usize = 0;
    assert(all.take(0) =~= seq![]);
    assert(start + removed_hunks(all.take(0)) =~= start);
    while i < hunks.len()
        invariant
            i <= hunks@.len(),
            all == views(hunks@),
            views(changes@) == start + removed_hunks(all.take(i as int)),
        decreases hunks@.len() - i,
    {
        proof {
            assert(all.take(i + 1).drop_last() =~= all.take(i as int));
            assert(all.take(i + 1).last() == hunks@[i as int]@);
        }
        if hunks[i].new_count == 0 {
            let mut lines: Vec<i64> = Vec::new();
            lines.push(hunks[i].old_start);
            assert(ints(lines@) =~= seq![hunks@[i as int].old_start as int]);
            let removed = ChangedSymbol {
                symbol: None,
                change: "removed",
                hunks: lines,
                path: None,
            };
            let ghost before = changes@;
            changes.push(removed);
            proof {
                lemma_views_push(before, removed);
                assert(views(changes@) =~= start + removed_hunks(all.take(i + 1)));
            }
        }
        i = i + 1;
    }
    assert(all.take(i as int) =~= all);
}

fn add_removed_files(changes: &mut Vec<ChangedSymbol>, files: &Vec<ChangedFile>)
    ensures
        views(final(changes)@) == views(old(changes)@) + removed_files(views(files@)),
{
    let ghost start = views(changes@);
    let ghost all = views(files@);
    let mut i: usize = 0;
    assert(all.take(0) =~= seq![]);
    assert(start + removed_files(all.take(0)) =~= start);
    while i < files.len()
        invariant
            i <= files@.len(),
            all == views(files@),
            views(changes@) == start + removed_files(all.take(i as int)),
        decreases files@.len() - i,
    {
        proof {
            assert(all.take(i + 1).drop_last() =~= all.take(i as int));
            assert(all.take(i + 1).last() == files@[i as int]@);
        }
        if same(files[i].status, "deleted") {
            let hunks: Vec<i64> = Vec::new();
            assert(ints(hunks@) =~= seq![]);
            let removed = ChangedSymbol {
                symbol: None,
                change: "removed",
                hunks,
                path: Some(files[i].path.clone()),
            };
            let ghost before = changes@;
            changes.push(removed);
            proof {
                lemma_views_push(before, removed);
                assert(views(changes@) =~= start + removed_files(all.take(i + 1)));
            }
        }
        i = i + 1;
    }
    assert(all.take(i as int) =~= all);
}

fn known_node(nodes: &Vec<Node>, id: &str) -> (node: Option<Node>)
    requires
        ids_ascend(views(nodes@)),
    ensures
        opt_node(node) == node_with_id(views(nodes@), id@),
{
    match find_node(nodes, id) {
        Some(at) => Some(nodes[at].clone()),
        None => None,
    }
}

fn change_of_edge(edge: &EdgeSnapshot, nodes: &Vec<Node>, change: &'static str) -> (changed:
    ChangedEdge)
    requires
        ids_ascend(views(nodes@)),
    ensures
        changed@ == changed_edge(edge@, views(nodes@), change@),
{
    ChangedEdge {
        source: known_node(nodes, edge.source_id.as_str()),
        target: known_node(nodes, edge.target_id.as_str()),
        relationship: edge.relationship.clone(),
        resolution_kind: edge.resolution_kind.clone(),
        confidence: edge.confidence,
        change,
    }
}

fn compare_edges(graph: &GraphSnapshot, earlier: &GraphSnapshot) -> (changed: Vec<ChangedEdge>)
    requires
        graph_in_order(graph@),
        graph_in_order(earlier@),
    ensures
        views(changed@) == new_edges(graph@.edges, earlier@.edges, graph@.nodes) + old_edges(
            earlier@.edges,
            graph@.edges,
            earlier@.nodes,
        ),
{
    let mut changed: Vec<ChangedEdge> = Vec::new();
    let ghost all = graph@.edges;
    let mut i: usize = 0;
    assert(all.take(0) =~= seq![]);
    assert(views(changed@) =~= seq![]);
    while i < graph.edges.len()
        invariant
            i <= graph.edges@.len(),
            all == views(graph.edges@),
            graph_in_order(graph@),
            graph_in_order(earlier@),
            views(changed@) == new_edges(all.take(i as int), earlier@.edges, graph@.nodes),
        decreases graph.edges@.len() - i,
    {
        proof {
            assert(all.take(i + 1).drop_last() =~= all.take(i as int));
            assert(all.take(i + 1).last() == graph.edges@[i as int]@);
        }
        let edge = &graph.edges[i];
        let change: Option<&'static str> = match find_edge(&earlier.edges, edge) {
            None => Some("added"),
            Some(at) => {
                if same_edge(&earlier.edges[at], edge) {
                    None
                } else {
                    Some("modified")
                }
            },
        };
        if let Some(change) = change {
            let item = change_of_edge(edge, &graph.nodes, change);
            proof {
                lemma_views_push(changed@, item);
            }
            changed.push(item);
        }
        i = i + 1;
    }
    assert(all.take(i as int) =~= all);
    let ghost first = views(changed@);
    let ghost gone = earlier@.edges;
    let mut j: usize = 0;
    assert(gone.take(0) =~= seq![]);
    assert(first + old_edges(gone.take(0), graph@.edges, earlier@.nodes) =~= first);
    while j < earlier.edges.len()
        invariant
            j <= earlier.edges@.len(),
            gone == views(earlier.edges@),
            graph_in_order(graph@),
            graph_in_order(earlier@),
            views(changed@) == first + old_edges(
                gone.take(j as int),
                graph@.edges,
                earlier@.nodes,
            ),
        decreases earlier.edges@.len() - j,
    {
        proof {
            assert(gone.take(j + 1).drop_last() =~= gone.take(j as int));
            assert(gone.take(j + 1).last() == earlier.edges@[j as int]@);
        }
        let edge = &earlier.edges[j];
        if find_edge(&graph.edges, edge).is_none() {
            let item = change_of_edge(edge, &earlier.nodes, "removed");
            let ghost before = changed@;
            changed.push(item);
            proof {
                lemma_views_push(before, item);
                assert(views(changed@) =~= first + old_edges(
                    gone.take(j + 1),
                    graph@.edges,
                    earlier@.nodes,
                ));
            }
        }
        j = j + 1;
    }
    assert(gone.take(j as int) =~= gone);
    changed
}

fn has_caller(callers: &Vec<UnresolvedCaller>, caller: &UnresolvedCaller) -> (found: bool)
    ensures
        found == views(callers@).contains(caller@),
{
    let mut i: usize = 0;
    while i < callers.len()
        invariant
            i <= callers@.len(),
            forall|k: int| 0 <= k < i ==> views(callers@)[k] != caller@,
        decreases callers@.len() - i,
    {
        if same_caller(&callers[i], caller) {
            assert(views(callers@)[i as int] == caller@);
            return true;
        }
        i = i + 1;
    }
    assert(!views(callers@).contains(caller@)) by {
        if views(callers@).contains(caller@) {
            let k = choose|k: int| 0 <= k < views(callers@).len() && views(callers@)[k] == caller@;
            assert(views(callers@)[k] != caller@);
        }
    }
    false
}

fn compare_callers(callers: &Vec<UnresolvedCaller>, earlier: &Vec<UnresolvedCaller>) -> (found: Vec<
    UnresolvedCaller,
>)
    ensures
        views(found@) == new_callers(views(callers@), views(earlier@)),
{
    let ghost all = views(callers@);
    let mut found: Vec<UnresolvedCaller> = Vec::new();
    let mut i: usize = 0;
    assert(all.take(0) =~= seq![]);
    assert(views(found@) =~= seq![]);
    while i < callers.len()
        invariant
            i <= callers@.len(),
            all == views(callers@),
            views(found@) == new_callers(all.take(i as int), views(earlier@)),
        decreases callers@.len() - i,
    {
        proof {
            assert(all.take(i + 1).drop_last() =~= all.take(i as int));
            assert(all.take(i + 1).last() == callers@[i as int]@);
        }
        if !has_caller(earlier, &callers[i]) {
            let caller = callers[i].clone();
            proof {
                lemma_views_push(found@, caller);
            }
            found.push(caller);
        }
        i = i + 1;
    }
    assert(all.take(i as int) =~= all);
    found
}

fn line_is_new(hunks: &Vec<Hunk>, path: &str, line: i64) -> (found: bool)
    requires
        forall|i: int| 0 <= i < hunks@.len() ==> hunk_fits((#[trigger] hunks@[i])@),
    ensures
        found == on_new_line(views(hunks@), path@, line as int),
{
    let ghost all = views(hunks@);
    let mut i: usize = 0;
    while i < hunks.len()
        invariant
            i <= hunks@.len(),
            all == views(hunks@),
            forall|k: int| 0 <= k < hunks@.len() ==> hunk_fits((#[trigger] hunks@[k])@),
            forall|k: int|
                0 <= k < i ==> !((#[trigger] all[k]).path == path@ && all[k].new_start <= line
                    <= hunk_end(all[k])),
        decreases hunks@.len() - i,
    {
        let hunk = &hunks[i];
        assert(all[i as int] == hunk@);
        if same(hunk.path.as_str(), path) && hunk.new_start <= line && line < hunk.new_start
            + hunk.new_count {
            return true;
        }
        i = i + 1;
    }
    false
}

fn callers_on_lines(
    references: &Vec<StoredReference>,
    changes: &Vec<ChangedSymbol>,
    hunks: &Vec<Hunk>,
) -> (found: Vec<UnresolvedCaller>)
    requires
        forall|i: int| 0 <= i < hunks@.len() ==> hunk_fits((#[trigger] hunks@[i])@),
    ensures
        views(found@) == callers_on_new_lines(
            views(references@),
            views(changes@),
            views(hunks@),
        ),
{
    let ghost all = views(references@);
    let mut found: Vec<UnresolvedCaller> = Vec::new();
    let mut i: usize = 0;
    assert(all.take(0) =~= seq![]);
    assert(views(found@) =~= seq![]);
    while i < references.len()
        invariant
            i <= references@.len(),
            all == views(references@),
            forall|k: int| 0 <= k < hunks@.len() ==> hunk_fits((#[trigger] hunks@[k])@),
            views(found@) == callers_on_new_lines(
                all.take(i as int),
                views(changes@),
                views(hunks@),
            ),
        decreases references@.len() - i,
    {
        let reference = &references[i];
        proof {
            assert(all.take(i + 1).drop_last() =~= all.take(i as int));
            assert(all.take(i + 1).last() == reference@);
        }
        if find_change(changes, reference.source.as_str()).is_some() && line_is_new(
            hunks,
            reference.path.as_str(),
            reference.line,
        ) {
            let caller = report_reference(reference);
            proof {
                lemma_views_push(found@, caller);
            }
            found.push(caller);
        }
        i = i + 1;
    }
    assert(all.take(i as int) =~= all);
    found
}

fn path_is_named(files: &Vec<ChangedFile>, path: &str) -> (found: bool)
    ensures
        found == names_path(views(files@), path@),
{
    let ghost all = views(files@);
    let mut i: usize = 0;
    while i < files.len()
        invariant
            i <= files@.len(),
            all == views(files@),
            forall|k: int| 0 <= k < i ==> (#[trigger] all[k]).path != path@,
        decreases files@.len() - i,
    {
        assert(all[i as int] == files@[i as int]@);
        if same(files[i].path.as_str(), path) {
            return true;
        }
        i = i + 1;
    }
    false
}

fn retain_hunks(hunks: &Vec<Hunk>, files: &Vec<ChangedFile>) -> (kept: Vec<Hunk>)
    requires
        forall|i: int| 0 <= i < hunks@.len() ==> hunk_fits((#[trigger] hunks@[i])@),
    ensures
        views(kept@) == retained(views(hunks@), views(files@)),
        forall|i: int| 0 <= i < kept@.len() ==> hunk_fits((#[trigger] kept@[i])@),
{
    let ghost all = views(hunks@);
    let mut kept: Vec<Hunk> = Vec::new();
    let mut i: usize = 0;
    assert(all.take(0) =~= seq![]);
    assert(views(kept@) =~= seq![]);
    while i < hunks.len()
        invariant
            i <= hunks@.len(),
            all == views(hunks@),
            forall|k: int| 0 <= k < hunks@.len() ==> hunk_fits((#[trigger] hunks@[k])@),
            forall|k: int| 0 <= k < kept@.len() ==> hunk_fits((#[trigger] kept@[k])@),
            views(kept@) == retained(all.take(i as int), views(files@)),
        decreases hunks@.len() - i,
    {
        let hunk = &hunks[i];
        proof {
            assert(all.take(i + 1).drop_last() =~= all.take(i as int));
            assert(all.take(i + 1).last() == hunk@);
        }
        if path_is_named(files, hunk.path.as_str()) {
            let copy = Hunk {
                path: hunk.path.clone(),
                old_start: hunk.old_start,
                new_start: hunk.new_start,
                new_count: hunk.new_count,
            };
            assert(copy@ =~= hunk@);
            proof {
                lemma_views_push(kept@, copy);
            }
            kept.push(copy);
        }
        i = i + 1;
    }
    assert(all.take(i as int) =~= all);
    kept
}

fn any_removal(hunks: &Vec<Hunk>) -> (found: bool)
    ensures
        found == removes_lines(views(hunks@)),
{
    let ghost all = views(hunks@);
    let mut i: usize = 0;
    while i < hunks.len()
        invariant
            i <= hunks@.len(),
            all == views(hunks@),
            forall|k: int| 0 <= k < i ==> (#[trigger] all[k]).new_count != 0,
        decreases hunks@.len() - i,
    {
        assert(all[i as int] == hunks@[i as int]@);
        if hunks[i].new_count == 0 {
            return true;
        }
        i = i + 1;
    }
    false
}

fn any_deletion(files: &Vec<ChangedFile>) -> (found: bool)
    ensures
        found == deletes_file(views(files@)),
{
    let ghost all = views(files@);
    let mut i: usize = 0;
    while i < files.len()
        invariant
            i <= files@.len(),
            all == views(files@),
            forall|k: int| 0 <= k < i ==> (#[trigger] all[k]).status != "deleted"@,
        decreases files@.len() - i,
    {
        assert(all[i as int] == files@[i as int]@);
        if same(files[i].status, "deleted") {
            return true;
        }
        i = i + 1;
    }
    false
}

/// What a comparison is made of: the changed files and their hunks, the graph as it is
/// and, where there is one, as it was, and the references without a target.
pub struct Comparison<'a> {
    pub files: &'a Vec<ChangedFile>,
    pub hunks: &'a Vec<Hunk>,
    pub graph: &'a GraphSnapshot,
    pub earlier: Option<&'a GraphSnapshot>,
    pub references: &'a Vec<StoredReference>,
    pub named: bool,
}

impl<'a> View for Comparison<'a> {
    type V = ComparisonView;

    open spec fn view(&self) -> ComparisonView {
        ComparisonView {
            files: views(self.files@),
            hunks: views(self.hunks@),
            graph: self.graph@,
            earlier: match self.earlier {
                Some(graph) => Some(graph@),
                None => None,
            },
            references: views(self.references@),
            named: self.named,
        }
    }
}

/// What a comparison finds.
pub struct DiffReport {
    pub symbols: Vec<ChangedSymbol>,
    pub edges: Vec<ChangedEdge>,
    pub unresolved: Vec<UnresolvedCaller>,
    pub unmapped: Vec<UnmappedHunk>,
    pub needs_history: bool,
}

impl View for DiffReport {
    type V = ReportView;

    open spec fn view(&self) -> ReportView {
        ReportView {
            symbols: views(self.symbols@),
            edges: views(self.edges@),
            unresolved: views(self.unresolved@),
            unmapped: views(self.unmapped@),
            needs_history: self.needs_history,
        }
    }
}

/// Finds what changed: the symbols that hunks and files touch, the symbols, edges and
/// unresolved calls that differ from the earlier graph, and the hunks that touch no
/// symbol.
pub fn compare(input: &Comparison) -> (report: DiffReport)
    requires
        forall|i: int| 0 <= i < input.hunks@.len() ==> hunk_fits((#[trigger] input.hunks@[i])@),
        graph_in_order(input.graph@),
        input.earlier is Some ==> graph_in_order(input.earlier->0@),
    ensures
        report@ == report_of(input@),
{
    let hunks = retain_hunks(input.hunks, input.files);
    let (mut symbols, unmapped) = touch_by_hunks(&hunks, input.files, input.graph);
    touch_by_files(&mut symbols, input.files, input.graph, input.named);
    assert(views(symbols@) == touched_symbols(input@));
    let mut edges: Vec<ChangedEdge> = Vec::new();
    let mut lacks_history = false;
    let unresolved: Vec<UnresolvedCaller>;
    match input.earlier {
        Some(earlier) => {
            compare_symbols(&mut symbols, &input.graph.nodes, &earlier.nodes);
            add_removals(&mut symbols, &earlier.nodes, &input.graph.nodes);
            edges = sort_by(compare_edges(input.graph, earlier), &ByEnds);
            unresolved = compare_callers(&input.graph.unresolved, &earlier.unresolved);
        },
        None => {
            unresolved = callers_on_lines(input.references, &symbols, &hunks);
            if any_removal(&hunks) || (input.named && any_deletion(input.files)) {
                lacks_history = true;
                add_removed_hunks(&mut symbols, &hunks);
                let ghost with_hunks = views(symbols@);
                if input.named {
                    add_removed_files(&mut symbols, input.files);
                } else {
                    assert(with_hunks + Seq::<ChangedSymbolView>::empty() =~= with_hunks);
                }
            }
            assert(views(edges@) =~= seq![]);
        },
    }
    assert(views(symbols@) == found_symbols(input@));
    DiffReport {
        symbols: sort_by(symbols, &BySymbol),
        edges,
        unresolved,
        unmapped: dedup_by(sort_by(unmapped, &ByPlace), &ByPlace),
        needs_history: lacks_history,
    }
}

/// A report with at most `limit` symbols and edges.
pub open spec fn limited(report: ReportView, limit: int) -> ReportView {
    ReportView {
        symbols: if report.symbols.len() > limit {
            report.symbols.take(limit)
        } else {
            report.symbols
        },
        edges: if report.edges.len() > limit {
            report.edges.take(limit)
        } else {
            report.edges
        },
        unmapped: if report.unmapped.len() > MAX_CHANGED_FILES {
            report.unmapped.take(MAX_CHANGED_FILES as int)
        } else {
            report.unmapped
        },
        ..report
    }
}

/// Keeps at most `limit` symbols and edges, and says whether anything was left out.
pub fn limit_report(report: &mut DiffReport, limit: usize, files_truncated: bool) -> (truncated: bool)
    ensures
        final(report)@ == limited(old(report)@, limit as int),
        truncated == (files_truncated || old(report)@.symbols.len() > limit
            || old(report)@.edges.len() > limit || old(report)@.unmapped.len()
            > MAX_CHANGED_FILES),
{
    let ghost start = *report;
    assert(start@.symbols.len() == start.symbols@.len());
    assert(start@.edges.len() == start.edges@.len());
    assert(start@.unmapped.len() == start.unmapped@.len());
    let truncated = files_truncated || report.symbols.len() > limit || report.edges.len() > limit
        || report.unmapped.len() > MAX_CHANGED_FILES;
    if report.symbols.len() > limit {
        report.symbols.truncate(limit);
        assert(views(report.symbols@) =~= start@.symbols.take(limit as int));
    }
    if report.edges.len() > limit {
        report.edges.truncate(limit);
        assert(views(report.edges@) =~= start@.edges.take(limit as int));
    }
    if report.unmapped.len() > MAX_CHANGED_FILES {
        report.unmapped.truncate(MAX_CHANGED_FILES);
        assert(views(report.unmapped@) =~= start@.unmapped.take(MAX_CHANGED_FILES as int));
    }
    assert(report@ =~= limited(start@, limit as int));
    truncated
}

} // verus!
