//! Syntax trees as plain values.
//!
//! The parsers' trees are read once into a list of nodes in the order in which a
//! depth-first walk meets them. A node's depth tells where its subtree ends, so
//! that children, siblings and parents are found by position alone.

pub mod laws;

use vstd::prelude::*;
use crate::text::{
    chars_of, lemma_views_push, one_of, opt_text, same, string_of, trim, trimmed, views,
};

verus! {

// ---------------------------------------------------------------------------
// Nodes

/// A node of a syntax tree.
#[derive(Debug, PartialEq)]
pub struct SyntaxNode {
    pub kind: String,
    /// The field of the parent that the node fills, if it has a name.
    pub field: Option<String>,
    pub depth: u32,
    pub start_byte: u32,
    pub end_byte: u32,
    pub start_row: u32,
    pub start_column: u32,
    pub end_row: u32,
    pub end_column: u32,
}

/// The content of a [`SyntaxNode`].
#[verifier::ext_equal]
pub struct SyntaxNodeView {
    pub kind: Seq<char>,
    pub field: Option<Seq<char>>,
    pub depth: int,
    pub start_byte: int,
    pub end_byte: int,
    pub start_row: int,
    pub start_column: int,
    pub end_row: int,
    pub end_column: int,
}

impl View for SyntaxNode {
    type V = SyntaxNodeView;

    open spec fn view(&self) -> SyntaxNodeView {
        SyntaxNodeView {
            kind: self.kind@,
            field: opt_text(self.field),
            depth: self.depth as int,
            start_byte: self.start_byte as int,
            end_byte: self.end_byte as int,
            start_row: self.start_row as int,
            start_column: self.start_column as int,
            end_row: self.end_row as int,
            end_column: self.end_column as int,
        }
    }
}

// ---------------------------------------------------------------------------
// Positions

/// The number of bytes that a character takes in UTF-8.
pub open spec fn utf8_len(c: char) -> nat {
    if (c as int) < 0x80 {
        1
    } else if (c as int) < 0x800 {
        2
    } else if (c as int) < 0x1_0000 {
        3
    } else {
        4
    }
}

/// The number of bytes of the first `count` characters.
pub open spec fn byte_offset(text: Seq<char>, count: int) -> nat
    decreases count,
{
    if count <= 0 {
        0
    } else {
        byte_offset(text, count - 1) + utf8_len(text[count - 1])
    }
}

/// Among the first `count` characters, the number of those that start before `byte`.
pub open spec fn chars_before(text: Seq<char>, count: int, byte: int) -> nat
    decreases count,
{
    if count <= 0 {
        0
    } else {
        chars_before(text, count - 1, byte) + if byte_offset(text, count - 1) < byte {
            1nat
        } else {
            0nat
        }
    }
}

/// The position, in characters, of a byte offset.
pub open spec fn char_position(text: Seq<char>, byte: int) -> nat {
    chars_before(text, text.len() as int, byte)
}

fn utf8_width(c: char) -> (width: usize)
    ensures
        width == utf8_len(c),
{
    let code: u32 = c as u32;
    if code < 0x80 {
        1
    } else if code < 0x800 {
        2
    } else if code < 0x1_0000 {
        3
    } else {
        4
    }
}

proof fn lemma_offsets_increase(text: Seq<char>, i: int, j: int)
    requires
        0 <= i <= j,
    ensures
        byte_offset(text, i) + (j - i) <= byte_offset(text, j),
    decreases j,
{
    if i < j {
        lemma_offsets_increase(text, i, j - 1);
    }
}

/// A byte within the character at `at` or right after it has `at + 1` characters
/// starting before it.
proof fn lemma_position_within(text: Seq<char>, count: int, at: int, byte: int)
    requires
        0 <= at,
        0 <= count,
        byte_offset(text, at) < byte <= byte_offset(text, at + 1),
    ensures
        chars_before(text, count, byte) == if count <= at {
            count
        } else {
            at + 1
        },
    decreases count,
{
    if count > 0 {
        lemma_position_within(text, count - 1, at, byte);
        if count - 1 <= at {
            lemma_offsets_increase(text, count - 1, at);
        } else {
            lemma_offsets_increase(text, at + 1, count - 1);
        }
    }
}

proof fn lemma_position_at_start(text: Seq<char>, count: int)
    ensures
        chars_before(text, count, 0) == 0,
    decreases count,
{
    if count > 0 {
        lemma_position_at_start(text, count - 1);
    }
}

proof fn lemma_position_beyond(text: Seq<char>, count: int, byte: int)
    requires
        0 <= count <= text.len(),
        byte > byte_offset(text, text.len() as int),
    ensures
        chars_before(text, count, byte) == count,
    decreases count,
{
    if count > 0 {
        lemma_position_beyond(text, count - 1, byte);
        lemma_offsets_increase(text, count - 1, text.len() as int);
    }
}

proof fn lemma_position_bounds(text: Seq<char>, count: int, low: int, high: int)
    requires
        low <= high,
        0 <= count,
    ensures
        chars_before(text, count, low) <= chars_before(text, count, high) <= count,
    decreases count,
{
    if count > 0 {
        lemma_position_bounds(text, count - 1, low, high);
    }
}

// ---------------------------------------------------------------------------
// Trees

/// The content of a [`SyntaxTree`].
#[verifier::ext_equal]
pub struct TreeView {
    pub nodes: Seq<SyntaxNodeView>,
    pub source: Seq<char>,
}

/// A syntax tree with the source that it was parsed from.
pub struct SyntaxTree {
    nodes: Vec<SyntaxNode>,
    source: Vec<char>,
    positions: Vec<usize>,
}

impl View for SyntaxTree {
    type V = TreeView;

    closed spec fn view(&self) -> TreeView {
        TreeView { nodes: views(self.nodes@), source: self.source@ }
    }
}

/// Where the subtree at depth `depth` ends: at the first node from `from` on that is
/// no deeper.
pub open spec fn end_from(nodes: Seq<SyntaxNodeView>, depth: int, from: int, limit: int) -> int
    decreases limit - from,
{
    if from >= limit {
        limit
    } else if nodes[from].depth <= depth {
        from
    } else {
        end_from(nodes, depth, from + 1, limit)
    }
}

/// The end of the subtree of the node at `at`, within `limit`.
pub open spec fn subtree_end(tree: TreeView, at: int, limit: int) -> int {
    end_from(tree.nodes, tree.nodes[at].depth, at + 1, limit)
}

/// The end of the subtree of the node at `at`.
pub open spec fn end_of(tree: TreeView, at: int) -> int {
    subtree_end(tree, at, tree.nodes.len() as int)
}

/// The roots of the subtrees that stand next to one another from `from` up to `limit`.
pub open spec fn roots(tree: TreeView, from: int, limit: int) -> Seq<int>
    decreases limit - from,
{
    if from >= limit {
        seq![]
    } else {
        let next = subtree_end(tree, from, limit);
        if next <= from || next > limit {
            seq![from]
        } else {
            seq![from] + roots(tree, next, limit)
        }
    }
}

/// The children of the node at `at`.
pub open spec fn children(tree: TreeView, at: int) -> Seq<int> {
    roots(tree, at + 1, end_of(tree, at))
}

/// The first of `candidates` whose node is of the given kind.
pub open spec fn first_of_kind(tree: TreeView, candidates: Seq<int>, kind: Seq<char>) -> Option<int>
    decreases candidates.len(),
{
    if candidates.len() == 0 {
        None
    } else if tree.nodes[candidates[0]].kind == kind {
        Some(candidates[0])
    } else {
        first_of_kind(tree, candidates.skip(1), kind)
    }
}

/// The first of `candidates` whose node fills the given field.
pub open spec fn first_in_field(tree: TreeView, candidates: Seq<int>, field: Seq<char>) -> Option<int>
    decreases candidates.len(),
{
    if candidates.len() == 0 {
        None
    } else if tree.nodes[candidates[0]].field == Some(field) {
        Some(candidates[0])
    } else {
        first_in_field(tree, candidates.skip(1), field)
    }
}

/// The first child of the given kind.
pub open spec fn child_of_kind(tree: TreeView, at: int, kind: Seq<char>) -> Option<int> {
    first_of_kind(tree, children(tree, at), kind)
}

/// The first child that fills the given field.
pub open spec fn child_in_field(tree: TreeView, at: int, field: Seq<char>) -> Option<int> {
    first_in_field(tree, children(tree, at), field)
}

/// The child that fills the field, or else the first child of the kind.
pub open spec fn child_named(tree: TreeView, at: int, field: Seq<char>, kind: Seq<char>) -> Option<
    int,
> {
    match child_in_field(tree, at, field) {
        Some(child) => Some(child),
        None => child_of_kind(tree, at, kind),
    }
}

/// The last node before `before` that is no deeper than `depth`.
pub open spec fn last_not_deeper(nodes: Seq<SyntaxNodeView>, depth: int, before: int) -> Option<int>
    decreases before,
{
    if before <= 0 {
        None
    } else if nodes[before - 1].depth <= depth {
        Some(before - 1)
    } else {
        last_not_deeper(nodes, depth, before - 1)
    }
}

/// The sibling right before the node at `at`.
pub open spec fn previous_sibling(tree: TreeView, at: int) -> Option<int> {
    match last_not_deeper(tree.nodes, tree.nodes[at].depth, at) {
        Some(found) => if tree.nodes[found].depth == tree.nodes[at].depth {
            Some(found)
        } else {
            None
        },
        None => None,
    }
}

/// The parent of the node at `at`.
pub open spec fn parent_of(tree: TreeView, at: int) -> Option<int> {
    last_not_deeper(tree.nodes, tree.nodes[at].depth - 1, at)
}

/// The source between two byte offsets.
pub open spec fn source_between(source: Seq<char>, start_byte: int, end_byte: int) -> Seq<char> {
    let start = char_position(source, start_byte);
    let end = char_position(source, end_byte);
    if start <= end {
        source.subrange(start as int, end as int)
    } else {
        seq![]
    }
}

/// The text of the node at `at`.
pub open spec fn text_at(tree: TreeView, at: int) -> Seq<char> {
    source_between(tree.source, tree.nodes[at].start_byte, tree.nodes[at].end_byte)
}

/// The text of the node at `at` without the white space around it.
pub open spec fn trimmed_at(tree: TreeView, at: int) -> Seq<char> {
    trim(text_at(tree, at))
}

/// The positions from `from` up to `to` of nodes of the given kind.
pub open spec fn of_kind_between(tree: TreeView, from: int, to: int, kind: Seq<char>) -> Seq<int>
    decreases to - from,
{
    if from >= to {
        seq![]
    } else if tree.nodes[to - 1].kind == kind {
        of_kind_between(tree, from, to - 1, kind).push(to - 1)
    } else {
        of_kind_between(tree, from, to - 1, kind)
    }
}

/// The nodes of the given kind below the node at `at`, in the order of the walk.
pub open spec fn descendants(tree: TreeView, at: int, kind: Seq<char>) -> Seq<int> {
    of_kind_between(tree, at + 1, end_of(tree, at), kind)
}

/// The last node of one of the kinds from `from` up to `to`.
pub open spec fn last_of_kinds(tree: TreeView, from: int, to: int, kinds: Seq<Seq<char>>) -> Option<
    int,
>
    decreases to - from,
{
    if from >= to {
        None
    } else if kinds.contains(tree.nodes[to - 1].kind) {
        Some(to - 1)
    } else {
        last_of_kinds(tree, from, to - 1, kinds)
    }
}

/// The first node of the kind from `from` up to `to`.
pub open spec fn next_of_kind(tree: TreeView, from: int, to: int, kind: Seq<char>) -> Option<int>
    decreases to - from,
{
    if from >= to {
        None
    } else if tree.nodes[from].kind == kind {
        Some(from)
    } else {
        next_of_kind(tree, from + 1, to, kind)
    }
}

pub proof fn lemma_end_from(nodes: Seq<SyntaxNodeView>, depth: int, from: int, limit: int)
    requires
        from <= limit,
    ensures
        from <= end_from(nodes, depth, from, limit) <= limit,
    decreases limit - from,
{
    if from < limit && nodes[from].depth > depth {
        lemma_end_from(nodes, depth, from + 1, limit);
    }
}

/// Subtrees that stand next to one another start with the first and go on at its end.
pub proof fn lemma_roots_step(tree: TreeView, from: int, limit: int)
    requires
        from < limit,
    ensures
        from < subtree_end(tree, from, limit) <= limit,
        roots(tree, from, limit) == seq![from] + roots(
            tree,
            subtree_end(tree, from, limit),
            limit,
        ),
        roots(tree, from, limit)[0] == from,
        roots(tree, from, limit).skip(1) == roots(tree, subtree_end(tree, from, limit), limit),
{
    lemma_end_from(tree.nodes, tree.nodes[from].depth, from + 1, limit);
    assert(roots(tree, from, limit).skip(1) =~= roots(
        tree,
        subtree_end(tree, from, limit),
        limit,
    ));
}

pub proof fn lemma_roots_bounds(tree: TreeView, from: int, limit: int)
    ensures
        forall|i: int|
            0 <= i < roots(tree, from, limit).len() ==> from <= #[trigger] roots(
                tree,
                from,
                limit,
            )[i] < limit,
    decreases limit - from,
{
    if from < limit {
        lemma_roots_step(tree, from, limit);
        lemma_roots_bounds(tree, subtree_end(tree, from, limit), limit);
        let all = roots(tree, from, limit);
        let rest = roots(tree, subtree_end(tree, from, limit), limit);
        assert forall|i: int| 0 <= i < all.len() implies from <= #[trigger] all[i] < limit by {
            if i > 0 {
                assert(all[i] == rest[i - 1]);
            }
        }
    }
}

/// A child found by its kind is below the node.
pub proof fn lemma_first_of_kind(tree: TreeView, candidates: Seq<int>, kind: Seq<char>)
    ensures
        match first_of_kind(tree, candidates, kind) {
            Some(found) => candidates.contains(found) && tree.nodes[found].kind == kind,
            None => true,
        },
    decreases candidates.len(),
{
    if candidates.len() > 0 && tree.nodes[candidates[0]].kind != kind {
        lemma_first_of_kind(tree, candidates.skip(1), kind);
        if let Some(found) = first_of_kind(tree, candidates.skip(1), kind) {
            let i = choose|i: int|
                0 <= i < candidates.skip(1).len() && candidates.skip(1)[i] == found;
            assert(candidates[i + 1] == found);
        }
    } else if candidates.len() > 0 {
        assert(candidates.contains(candidates[0]));
    }
}

/// A child found by its field is below the node.
pub proof fn lemma_first_in_field(tree: TreeView, candidates: Seq<int>, field: Seq<char>)
    ensures
        match first_in_field(tree, candidates, field) {
            Some(found) => candidates.contains(found),
            None => true,
        },
    decreases candidates.len(),
{
    if candidates.len() > 0 && tree.nodes[candidates[0]].field != Some(field) {
        lemma_first_in_field(tree, candidates.skip(1), field);
        if let Some(found) = first_in_field(tree, candidates.skip(1), field) {
            let i = choose|i: int|
                0 <= i < candidates.skip(1).len() && candidates.skip(1)[i] == found;
            assert(candidates[i + 1] == found);
        }
    } else if candidates.len() > 0 {
        assert(candidates.contains(candidates[0]));
    }
}

/// A child stands after its parent and within the tree.
pub proof fn lemma_child_bounds(tree: TreeView, at: int, field: Seq<char>, kind: Seq<char>)
    requires
        0 <= at < tree.nodes.len(),
    ensures
        match child_of_kind(tree, at, kind) {
            Some(child) => at < child < end_of(tree, at) && tree.nodes[child].kind == kind,
            None => true,
        },
        match child_in_field(tree, at, field) {
            Some(child) => at < child < end_of(tree, at),
            None => true,
        },
        at < end_of(tree, at) <= tree.nodes.len(),
{
    lemma_end_from(tree.nodes, tree.nodes[at].depth, at + 1, tree.nodes.len() as int);
    lemma_first_of_kind(tree, children(tree, at), kind);
    lemma_first_in_field(tree, children(tree, at), field);
    lemma_roots_bounds(tree, at + 1, end_of(tree, at));
}

/// The positions of `at` as mathematical integers.
pub open spec fn places(at: Seq<usize>) -> Seq<int> {
    at.map_values(|place: usize| place as int)
}

/// An optional position as a mathematical integer.
pub open spec fn place(at: Option<usize>) -> Option<int> {
    match at {
        Some(at) => Some(at as int),
        None => None,
    }
}

impl SyntaxTree {
    /// The table of positions matches the source.
    pub closed spec fn wf(self) -> bool {
        &&& forall|byte: int|
            0 <= byte < self.positions@.len() ==> #[trigger] self.positions@[byte]
                == char_position(self.source@, byte)
        &&& self.positions@.len() == byte_offset(self.source@, self.source@.len() as int) + 1
    }

    /// The tree of the given nodes over the given source.
    pub fn new(nodes: Vec<SyntaxNode>, content: &str) -> (tree: Self)
        ensures
            tree.wf(),
            tree@ == (TreeView { nodes: views(nodes@), source: content@ }),
    {
        let source = chars_of(content);
        let mut positions: Vec<usize> = Vec::new();
        positions.push(0);
        proof {
            lemma_position_at_start(source@, source@.len() as int);
        }
        let mut i: usize = 0;
        while i < source.len()
            invariant
                i <= source@.len(),
                positions@.len() == byte_offset(source@, i as int) + 1,
                forall|byte: int|
                    0 <= byte < positions@.len() ==> #[trigger] positions@[byte] == char_position(
                        source@,
                        byte,
                    ),
            decreases source@.len() - i,
        {
            let width = utf8_width(source[i]);
            let mut k: usize = 0;
            while k < width
                invariant
                    i < source.len(),
                    k <= width,
                    width == utf8_len(source@[i as int]),
                    positions@.len() == byte_offset(source@, i as int) + 1 + k,
                    forall|byte: int|
                        0 <= byte < positions@.len() ==> #[trigger] positions@[byte]
                            == char_position(source@, byte),
                decreases width - k,
            {
                proof {
                    lemma_position_within(
                        source@,
                        source@.len() as int,
                        i as int,
                        positions@.len() as int,
                    );
                }
                positions.push(i + 1);
                k = k + 1;
            }
            i = i + 1;
        }
        SyntaxTree { nodes, source, positions }
    }

    /// The number of nodes.
    pub fn len(&self) -> (count: usize)
        ensures
            count == self@.nodes.len(),
    {
        self.nodes.len()
    }

    /// The node at `at`.
    pub fn node(&self, at: usize) -> (node: &SyntaxNode)
        requires
            at < self@.nodes.len(),
        ensures
            node@ == self@.nodes[at as int],
    {
        &self.nodes[at]
    }

    /// Whether the node at `at` is of the given kind.
    pub fn is_kind(&self, at: usize, kind: &str) -> (found: bool)
        requires
            at < self@.nodes.len(),
        ensures
            found == (self@.nodes[at as int].kind == kind@),
    {
        same(self.nodes[at].kind.as_str(), kind)
    }

    fn position(&self, byte: u32) -> (at: usize)
        requires
            self.wf(),
        ensures
            at == char_position(self@.source, byte as int),
            at <= self@.source.len(),
    {
        proof {
            lemma_position_bounds(
                self.source@,
                self.source@.len() as int,
                byte as int,
                byte as int,
            );
        }
        if (byte as usize) < self.positions.len() {
            self.positions[byte as usize]
        } else {
            proof {
                lemma_position_beyond(self.source@, self.source@.len() as int, byte as int);
            }
            self.source.len()
        }
    }

    /// The source between two byte offsets.
    pub fn between(&self, start_byte: u32, end_byte: u32) -> (text: String)
        requires
            self.wf(),
        ensures
            text@ == source_between(self@.source, start_byte as int, end_byte as int),
    {
        let start = self.position(start_byte);
        let end = self.position(end_byte);
        if start <= end {
            string_of(&self.source, start, end)
        } else {
            String::new()
        }
    }

    /// The text of the node at `at`.
    pub fn text(&self, at: usize) -> (text: String)
        requires
            self.wf(),
            at < self@.nodes.len(),
        ensures
            text@ == text_at(self@, at as int),
    {
        self.between(self.nodes[at].start_byte, self.nodes[at].end_byte)
    }

    /// The text of the node at `at` without the white space around it.
    pub fn text_for_node(&self, at: usize) -> (text: String)
        requires
            self.wf(),
            at < self@.nodes.len(),
        ensures
            text@ == trimmed_at(self@, at as int),
    {
        trimmed(self.text(at).as_str())
    }

    /// The end of the subtree of the node at `at`, within `limit`.
    pub fn subtree_end(&self, at: usize, limit: usize) -> (end: usize)
        requires
            at < limit <= self@.nodes.len(),
        ensures
            end == subtree_end(self@, at as int, limit as int),
            at < end <= limit,
    {
        let depth = self.nodes[at].depth;
        let mut end: usize = at + 1;
        while end < limit && self.nodes[end].depth > depth
            invariant
                at < end <= limit <= self@.nodes.len(),
                self@.nodes == views(self.nodes@),
                depth == self@.nodes[at as int].depth,
                subtree_end(self@, at as int, limit as int) == end_from(
                    self@.nodes,
                    depth as int,
                    end as int,
                    limit as int,
                ),
            decreases limit - end,
        {
            end = end + 1;
        }
        end
    }

    /// The end of the subtree of the node at `at`.
    pub fn end(&self, at: usize) -> (end: usize)
        requires
            at < self@.nodes.len(),
        ensures
            end == end_of(self@, at as int),
            at < end <= self@.nodes.len(),
    {
        self.subtree_end(at, self.nodes.len())
    }

    /// The children of the node at `at`.
    pub fn children(&self, at: usize) -> (found: Vec<usize>)
        requires
            at < self@.nodes.len(),
        ensures
            places(found@) == children(self@, at as int),
            forall|i: int|
                0 <= i < found@.len() ==> at < #[trigger] found@[i] < end_of(self@, at as int),
            end_of(self@, at as int) <= self@.nodes.len(),
    {
        let limit = self.end(at);
        let mut found: Vec<usize> = Vec::new();
        let mut next: usize = at + 1;
        assert(places(found@) + roots(self@, at + 1, limit as int) =~= roots(
            self@,
            at + 1,
            limit as int,
        ));
        while next < limit
            invariant
                at < next <= limit <= self@.nodes.len(),
                limit == end_of(self@, at as int),
                children(self@, at as int) == places(found@) + roots(
                    self@,
                    next as int,
                    limit as int,
                ),
                forall|i: int| 0 <= i < found@.len() ==> at < #[trigger] found@[i] < limit,
            decreases limit - next,
        {
            proof {
                lemma_roots_step(self@, next as int, limit as int);
            }
            let ghost before = found@;
            let after = self.subtree_end(next, limit);
            found.push(next);
            proof {
                assert(places(found@) =~= places(before).push(next as int));
                assert(places(before) + (seq![next as int] + roots(
                    self@,
                    after as int,
                    limit as int,
                )) =~= places(found@) + roots(self@, after as int, limit as int));
            }
            next = after;
        }
        assert(places(found@) + roots(self@, next as int, limit as int) =~= places(found@));
        found
    }

    /// The first child of the given kind.
    pub fn find_child_by_kind(&self, at: usize, kind: &str) -> (child: Option<usize>)
        requires
            at < self@.nodes.len(),
        ensures
            place(child) == child_of_kind(self@, at as int, kind@),
            child is Some ==> at < child->0 < end_of(self@, at as int),
            at < end_of(self@, at as int) <= self@.nodes.len(),
    {
        proof {
            lemma_child_bounds(self@, at as int, kind@, kind@);
        }
        let limit = self.end(at);
        let mut next: usize = at + 1;
        while next < limit
            invariant
                at < next <= limit <= self@.nodes.len(),
                limit == end_of(self@, at as int),
                child_of_kind(self@, at as int, kind@) == first_of_kind(
                    self@,
                    roots(self@, next as int, limit as int),
                    kind@,
                ),
            decreases limit - next,
        {
            proof {
                lemma_roots_step(self@, next as int, limit as int);
            }
            if self.is_kind(next, kind) {
                return Some(next);
            }
            next = self.subtree_end(next, limit);
        }
        None
    }

    /// The first child that fills the given field.
    pub fn child_by_field_name(&self, at: usize, field: &str) -> (child: Option<usize>)
        requires
            at < self@.nodes.len(),
        ensures
            place(child) == child_in_field(self@, at as int, field@),
            child is Some ==> at < child->0 < end_of(self@, at as int),
            at < end_of(self@, at as int) <= self@.nodes.len(),
    {
        proof {
            lemma_child_bounds(self@, at as int, field@, field@);
        }
        let limit = self.end(at);
        let mut next: usize = at + 1;
        while next < limit
            invariant
                at < next <= limit <= self@.nodes.len(),
                self@.nodes == views(self.nodes@),
                limit == end_of(self@, at as int),
                child_in_field(self@, at as int, field@) == first_in_field(
                    self@,
                    roots(self@, next as int, limit as int),
                    field@,
                ),
            decreases limit - next,
        {
            proof {
                lemma_roots_step(self@, next as int, limit as int);
            }
            let fills = match &self.nodes[next].field {
                Some(own) => same(own.as_str(), field),
                None => false,
            };
            if fills {
                return Some(next);
            }
            next = self.subtree_end(next, limit);
        }
        None
    }

    /// The child that fills the field, or else the first child of the kind.
    pub fn child_named(&self, at: usize, field: &str, kind: &str) -> (child: Option<usize>)
        requires
            at < self@.nodes.len(),
        ensures
            place(child) == child_named(self@, at as int, field@, kind@),
            child is Some ==> at < child->0 < end_of(self@, at as int),
            at < end_of(self@, at as int) <= self@.nodes.len(),
    {
        match self.child_by_field_name(at, field) {
            Some(child) => Some(child),
            None => self.find_child_by_kind(at, kind),
        }
    }

    fn not_deeper(&self, depth: u32, before: usize) -> (found: Option<usize>)
        requires
            before <= self@.nodes.len(),
        ensures
            place(found) == last_not_deeper(self@.nodes, depth as int, before as int),
            found is Some ==> found->0 < before,
    {
        let mut next: usize = before;
        while next > 0
            invariant
                next <= before <= self@.nodes.len(),
                self@.nodes == views(self.nodes@),
                last_not_deeper(self@.nodes, depth as int, before as int) == last_not_deeper(
                    self@.nodes,
                    depth as int,
                    next as int,
                ),
            decreases next,
        {
            if self.nodes[next - 1].depth <= depth {
                return Some(next - 1);
            }
            next = next - 1;
        }
        None
    }

    /// The sibling right before the node at `at`.
    pub fn prev_sibling(&self, at: usize) -> (found: Option<usize>)
        requires
            at < self@.nodes.len(),
        ensures
            place(found) == previous_sibling(self@, at as int),
            found is Some ==> found->0 < at,
    {
        match self.not_deeper(self.nodes[at].depth, at) {
            Some(found) => {
                if self.nodes[found].depth == self.nodes[at].depth {
                    Some(found)
                } else {
                    None
                }
            },
            None => None,
        }
    }

    /// The parent of the node at `at`.
    pub fn parent(&self, at: usize) -> (found: Option<usize>)
        requires
            at < self@.nodes.len(),
        ensures
            place(found) == parent_of(self@, at as int),
            found is Some ==> found->0 < at,
    {
        let depth = self.nodes[at].depth;
        if depth == 0 {
            proof {
                lemma_none_negative(self.nodes@, at as int);
            }
            None
        } else {
            self.not_deeper(depth - 1, at)
        }
    }

    /// The nodes of the given kind below the node at `at`.
    pub fn descendants_of_kind(&self, at: usize, kind: &str) -> (found: Vec<usize>)
        requires
            at < self@.nodes.len(),
        ensures
            places(found@) == descendants(self@, at as int, kind@),
            forall|i: int|
                0 <= i < found@.len() ==> at < #[trigger] found@[i] < end_of(self@, at as int),
            end_of(self@, at as int) <= self@.nodes.len(),
    {
        let limit = self.end(at);
        let mut found: Vec<usize> = Vec::new();
        let mut next: usize = at + 1;
        assert(places(found@) =~= of_kind_between(self@, at + 1, next as int, kind@));
        while next < limit
            invariant
                at < next <= limit <= self@.nodes.len(),
                limit == end_of(self@, at as int),
                places(found@) == of_kind_between(self@, at + 1, next as int, kind@),
                forall|i: int| 0 <= i < found@.len() ==> at < #[trigger] found@[i] < next,
            decreases limit - next,
        {
            let ghost before = found@;
            if self.is_kind(next, kind) {
                found.push(next);
                assert(places(found@) =~= places(before).push(next as int));
            }
            next = next + 1;
        }
        found
    }

    /// The last node of one of the kinds among the node at `at` and those below it.
    pub fn last_descendant_by_kind(&self, at: usize, kinds: &[&str]) -> (found: Option<usize>)
        requires
            at < self@.nodes.len(),
        ensures
            place(found) == last_of_kinds(
                self@,
                at as int,
                end_of(self@, at as int),
                kind_texts(kinds@),
            ),
            found is Some ==> at <= found->0 < end_of(self@, at as int),
            end_of(self@, at as int) <= self@.nodes.len(),
    {
        let limit = self.end(at);
        let mut next: usize = limit;
        while next > at
            invariant
                at <= next <= limit <= self@.nodes.len(),
                limit == end_of(self@, at as int),
                self@.nodes == views(self.nodes@),
                last_of_kinds(self@, at as int, limit as int, kind_texts(kinds@)) == last_of_kinds(
                    self@,
                    at as int,
                    next as int,
                    kind_texts(kinds@),
                ),
            decreases next,
        {
            if one_of(self.nodes[next - 1].kind.as_str(), kinds) {
                proof {
                    lemma_kind_texts(kinds@, self.nodes@[next - 1].kind@);
                }
                return Some(next - 1);
            }
            proof {
                lemma_kind_texts(kinds@, self.nodes@[next - 1].kind@);
            }
            next = next - 1;
        }
        None
    }

    /// The first node of the kind among the node at `at` and those below it.
    pub fn first_descendant_by_kind(&self, at: usize, kind: &str) -> (found: Option<usize>)
        requires
            at < self@.nodes.len(),
        ensures
            place(found) == next_of_kind(self@, at as int, end_of(self@, at as int), kind@),
            found is Some ==> at <= found->0 < end_of(self@, at as int),
            end_of(self@, at as int) <= self@.nodes.len(),
    {
        let limit = self.end(at);
        let mut next: usize = at;
        while next < limit
            invariant
                at <= next <= limit <= self@.nodes.len(),
                limit == end_of(self@, at as int),
                next_of_kind(self@, at as int, limit as int, kind@) == next_of_kind(
                    self@,
                    next as int,
                    limit as int,
                    kind@,
                ),
            decreases limit - next,
        {
            if self.is_kind(next, kind) {
                return Some(next);
            }
            next = next + 1;
        }
        None
    }
}

/// The texts of a list of kinds.
pub open spec fn kind_texts(kinds: Seq<&str>) -> Seq<Seq<char>> {
    kinds.map_values(|kind: &str| kind@)
}

proof fn lemma_kind_texts(kinds: Seq<&str>, kind: Seq<char>)
    ensures
        kind_texts(kinds).contains(kind) == exists|i: int|
            0 <= i < kinds.len() && (#[trigger] kinds[i])@ == kind,
{
    if exists|i: int| 0 <= i < kinds.len() && (#[trigger] kinds[i])@ == kind {
        let i = choose|i: int| 0 <= i < kinds.len() && (#[trigger] kinds[i])@ == kind;
        assert(kind_texts(kinds)[i] == kind);
    }
    if kind_texts(kinds).contains(kind) {
        let i = choose|i: int| 0 <= i < kind_texts(kinds).len() && kind_texts(kinds)[i] == kind;
        assert(kinds[i]@ == kind);
    }
}

proof fn lemma_none_negative(nodes: Seq<SyntaxNode>, before: int)
    requires
        before <= nodes.len(),
    ensures
        last_not_deeper(views(nodes), -1, before) is None,
    decreases before,
{
    if before > 0 {
        assert(views(nodes)[before - 1].depth == nodes[before - 1].depth as int);
        lemma_none_negative(nodes, before - 1);
    }
}

// ---------------------------------------------------------------------------
// Parsing

/// The grammars that source files are parsed with.
#[derive(Debug, Clone, Copy, PartialEq, Eq)]
pub enum Grammar {
    Rust,
    Go,
    Java,
    C,
    Cpp,
    Zig,
}

/// `tree_sitter::Tree`: the tree that a parser returns.
#[verifier::external_type_specification]
#[verifier::external_body]
pub struct ExTree(tree_sitter::Tree);

/// `tree_sitter::LanguageError`: why a grammar cannot be used.
#[verifier::external_type_specification]
#[verifier::external_body]
pub struct ExLanguageError(tree_sitter::LanguageError);

/// The nodes of a parser's tree, in the order of a depth-first walk.
pub uninterp spec fn tree_nodes(tree: tree_sitter::Tree) -> Seq<SyntaxNodeView>;

/// The nodes of the tree that a grammar's parser makes of a source.
pub uninterp spec fn parsed_nodes(grammar: Grammar, source: Seq<char>) -> Seq<SyntaxNodeView>;

/// The tree of a source.
pub open spec fn source_tree(grammar: Grammar, source: Seq<char>) -> TreeView {
    TreeView { nodes: parsed_nodes(grammar, source), source }
}

/// `tree_sitter::Parser::parse` with the language of the grammar and without an earlier
/// tree. `Parser::set_language` refuses a grammar by its version alone, and the versions
/// of the six grammars in `Cargo.lock`, 14 and 15, are ones that it takes. With a
/// language, `parse` gives no tree only where a progress callback or a WebAssembly
/// grammar stops it, and neither is in use; the tree depends on nothing but the grammar
/// and the source.
#[verifier::external_body]
fn parse_tree(grammar: Grammar, source: &str) -> (tree: Result<
    Option<tree_sitter::Tree>,
    tree_sitter::LanguageError,
>)
    ensures
        (tree matches Ok(Some(tree)) && parsed_nodes(grammar, source@) == tree_nodes(tree)),
{
    let language = match grammar {
        Grammar::Rust => tree_sitter_rust::LANGUAGE,
        Grammar::Go => tree_sitter_go::LANGUAGE,
        Grammar::Java => tree_sitter_java::LANGUAGE,
        Grammar::C => tree_sitter_c::LANGUAGE,
        Grammar::Cpp => tree_sitter_cpp::LANGUAGE,
        Grammar::Zig => tree_sitter_zig::LANGUAGE,
    };
    let mut parser = tree_sitter::Parser::new();
    parser.set_language(&language.into())?;
    Ok(parser.parse(source, None))
}

/// `tree_sitter::Node::descendant_count` of the root is the number of nodes.
#[verifier::external_body]
fn node_count(tree: &tree_sitter::Tree) -> (count: usize)
    ensures
        count == tree_nodes(*tree).len(),
{
    tree.root_node().descendant_count()
}

/// `tree_sitter::TreeCursor::goto_descendant` moves to the node at a position of the
/// depth-first walk; the cursor tells its depth and field, the node the rest. Depths,
/// offsets, rows and columns are 32-bit numbers inside the parser.
#[verifier::external_body]
fn node_at(tree: &tree_sitter::Tree, at: usize) -> (node: SyntaxNode)
    requires
        at < tree_nodes(*tree).len(),
    ensures
        node@ == tree_nodes(*tree)[at as int],
{
    let mut cursor = tree.walk();
    cursor.goto_descendant(at);
    let node = cursor.node();
    let (start, end) = (node.start_position(), node.end_position());
    SyntaxNode {
        kind: node.kind().to_string(),
        field: cursor.field_name().map(|field| field.to_string()),
        depth: cursor.depth(),
        start_byte: node.start_byte() as u32, end_byte: node.end_byte() as u32,
        start_row: start.row as u32, start_column: start.column as u32,
        end_row: end.row as u32, end_column: end.column as u32,
    }
}

/// Why a source could not be parsed. With the grammars in use neither reason comes.
#[derive(Debug, Clone, Copy, PartialEq, Eq)]
pub enum TreeError {
    /// The parser cannot use the grammar.
    Grammar,
    /// The parser gave up.
    Source,
}

/// The tree of a source, as plain values. With the grammars in use there always is one.
pub fn read_tree(grammar: Grammar, source: &str) -> (tree: Result<SyntaxTree, TreeError>)
    ensures
        tree matches Ok(tree) && tree.wf() && tree@ == source_tree(grammar, source@),
{
    let tree = match parse_tree(grammar, source) {
        Ok(Some(tree)) => tree,
        Ok(None) => {
            return Err(TreeError::Source);
        },
        Err(_) => {
            return Err(TreeError::Grammar);
        },
    };
    let count = node_count(&tree);
    let mut nodes: Vec<SyntaxNode> = Vec::new();
    let mut at: usize = 0;
    while at < count
        invariant
            at <= count,
            count == tree_nodes(tree).len(),
            views(nodes@) == tree_nodes(tree).take(at as int),
        decreases count - at,
    {
        let node = node_at(&tree, at);
        let ghost before = nodes@;
        nodes.push(node);
        proof {
            lemma_views_push(before, node);
            assert(tree_nodes(tree).take(at + 1) =~= tree_nodes(tree).take(at as int).push(
                node@,
            ));
        }
        at = at + 1;
    }
    assert(tree_nodes(tree).take(at as int) =~= tree_nodes(tree));
    Ok(SyntaxTree::new(nodes, source))
}

} // verus!
