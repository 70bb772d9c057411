//! What the traversals of all languages share: signatures and comments of symbols,
//! names, and the symbols and call sites they collect.

pub mod laws;

use vstd::prelude::*;
use crate::db::{plain_call, Node, NodeView, RawCall, RawCallView};
use crate::parser::syntax::{
    children, end_of, lemma_roots_step, parent_of, previous_sibling, roots, source_between,
    subtree_end, text_at, SyntaxTree, TreeView,
};
use crate::paths::{holds_tests, is_test_path};
use crate::text::{
    join, join3, joined, lemma_views_push, lines, lines_of, opt_str, opt_text, split, squeeze,
    squeezed, trim, trim_end, trim_end_of, trimmed, trimmed_end, trimmed_end_of, parts_of, views,
};

verus! {

// ---------------------------------------------------------------------------
// What is collected

/// The symbols and call sites found in a source.
pub struct Extraction {
    pub nodes: Vec<Node>,
    pub calls: Vec<RawCall>,
}

/// The content of an [`Extraction`].
#[verifier::ext_equal]
pub struct ExtractionView {
    pub nodes: Seq<NodeView>,
    pub calls: Seq<RawCallView>,
}

impl View for Extraction {
    type V = ExtractionView;

    open spec fn view(&self) -> ExtractionView {
        ExtractionView { nodes: views(self.nodes@), calls: views(self.calls@) }
    }
}

/// An extraction with one more symbol.
pub open spec fn with_node(out: ExtractionView, node: NodeView) -> ExtractionView {
    ExtractionView { nodes: out.nodes.push(node), calls: out.calls }
}

/// An extraction with one more call site.
pub open spec fn with_call(out: ExtractionView, call: RawCallView) -> ExtractionView {
    ExtractionView { nodes: out.nodes, calls: out.calls.push(call) }
}

/// An extraction with a symbol and a call site, where there are any.
pub open spec fn extended(
    out: ExtractionView,
    node: Option<NodeView>,
    call: Option<RawCallView>,
) -> ExtractionView {
    let with_symbol = match node {
        Some(node) => with_node(out, node),
        None => out,
    };
    match call {
        Some(call) => with_call(with_symbol, call),
        None => with_symbol,
    }
}

/// The extraction without anything in it.
pub open spec fn nothing() -> ExtractionView {
    ExtractionView { nodes: seq![], calls: seq![] }
}

impl Extraction {
    pub fn new() -> (out: Self)
        ensures
            out@ == nothing(),
    {
        let out = Extraction { nodes: Vec::new(), calls: Vec::new() };
        assert(out@ =~= nothing());
        out
    }

    pub fn add_node(&mut self, node: Node)
        ensures
            final(self)@ == with_node(old(self)@, node@),
    {
        proof {
            lemma_views_push(self.nodes@, node);
        }
        self.nodes.push(node);
    }

    pub fn add_call(&mut self, call: RawCall)
        ensures
            final(self)@ == with_call(old(self)@, call@),
    {
        proof {
            lemma_views_push(self.calls@, call);
        }
        self.calls.push(call);
    }
}

// ---------------------------------------------------------------------------
// Signatures

/// The kinds of the nodes that hold the body of a declaration.
pub open spec fn is_body(kind: Seq<char>) -> bool {
    ||| kind == "block"@
    ||| kind == "field_declaration_list"@
    ||| kind == "declaration_list"@
    ||| kind == "interface_type"@
    ||| kind == "struct_type"@
    ||| kind == "compound_statement"@
    ||| kind == "class_body"@
    ||| kind == "interface_body"@
    ||| kind == "constructor_body"@
}

/// The first of `candidates` that holds a body.
pub open spec fn first_body(tree: TreeView, candidates: Seq<int>) -> Option<int>
    decreases candidates.len(),
{
    if candidates.len() == 0 {
        None
    } else if is_body(tree.nodes[candidates[0]].kind) {
        Some(candidates[0])
    } else {
        first_body(tree, candidates.skip(1))
    }
}

/// Where the head of a declaration ends: at its body, or with it.
pub open spec fn head_end(tree: TreeView, at: int) -> int {
    match first_body(tree, children(tree, at)) {
        Some(body) => tree.nodes[body].start_byte,
        None => tree.nodes[at].end_byte,
    }
}

/// The first line of a text, or nothing where it has none.
pub open spec fn first_line(text: Seq<char>) -> Seq<char> {
    if lines(text).len() > 0 {
        lines(text)[0]
    } else {
        seq![]
    }
}

/// The signature of a declaration: its head without white space and braces around it,
/// or its first line where the head is empty.
pub open spec fn signature(tree: TreeView, at: int) -> Seq<char> {
    let head = source_between(tree.source, tree.nodes[at].start_byte, head_end(tree, at));
    let cleaned = trim(trim_end_of(trim(head), '{'));
    if cleaned.len() == 0 {
        trim(first_line(text_at(tree, at)))
    } else {
        cleaned
    }
}

fn holds_body(tree: &SyntaxTree, at: usize) -> (found: bool)
    requires
        at < tree@.nodes.len(),
    ensures
        found == is_body(tree@.nodes[at as int].kind),
{
    tree.is_kind(at, "block") || tree.is_kind(at, "field_declaration_list") || tree.is_kind(
        at,
        "declaration_list",
    ) || tree.is_kind(at, "interface_type") || tree.is_kind(at, "struct_type") || tree.is_kind(
        at,
        "compound_statement",
    ) || tree.is_kind(at, "class_body") || tree.is_kind(at, "interface_body") || tree.is_kind(
        at,
        "constructor_body",
    )
}

fn head_end_of(tree: &SyntaxTree, at: usize) -> (byte: u32)
    requires
        at < tree@.nodes.len(),
    ensures
        byte == head_end(tree@, at as int),
{
    let limit = tree.end(at);
    let mut next: usize = at + 1;
    while next < limit
        invariant
            at < next <= limit <= tree@.nodes.len(),
            limit == end_of(tree@, at as int),
            first_body(tree@, children(tree@, at as int)) == first_body(
                tree@,
                roots(tree@, next as int, limit as int),
            ),
        decreases limit - next,
    {
        proof {
            lemma_roots_step(tree@, next as int, limit as int);
        }
        if holds_body(tree, next) {
            return tree.node(next).start_byte;
        }
        next = tree.subtree_end(next, limit);
    }
    tree.node(at).end_byte
}

/// The signature of the declaration at `at`.
pub fn get_signature(tree: &SyntaxTree, at: usize) -> (text: String)
    requires
        tree.wf(),
        at < tree@.nodes.len(),
    ensures
        text@ == signature(tree@, at as int),
{
    let head = tree.between(tree.node(at).start_byte, head_end_of(tree, at));
    let cleaned = trimmed(trimmed_end_of(trimmed(head.as_str()).as_str(), '{').as_str());
    if cleaned.as_str().is_empty() {
        let whole = tree.text(at);
        let all = lines_of(whole.as_str());
        if all.len() > 0 {
            assert(views(all@)[0] == all@[0]@);
            trimmed(all[0].as_str())
        } else {
            assert(lines(whole@).len() == 0);
            let empty = String::new();
            assert(empty@ =~= first_line(whole@));
            trimmed(empty.as_str())
        }
    } else {
        cleaned
    }
}

// ---------------------------------------------------------------------------
// Comments

/// The kinds of comments.
pub open spec fn is_comment(kind: Seq<char>) -> bool {
    kind == "line_comment"@ || kind == "block_comment"@ || kind == "comment"@
}

/// The kinds of attributes, which may stand between a comment and its symbol.
pub open spec fn is_attribute(kind: Seq<char>) -> bool {
    kind == "attribute_item"@ || kind == "inner_attribute_item"@
}

/// The comments right before the node at `at`, each without the white space it ends
/// with. Attributes among them are passed over.
pub open spec fn comments_before(tree: TreeView, at: int) -> Seq<Seq<char>>
    decreases at,
{
    match previous_sibling(tree, at) {
        Some(previous) => if previous < 0 || previous >= at {
            seq![]
        } else if is_comment(tree.nodes[previous].kind) {
            comments_before(tree, previous).push(trim_end(text_at(tree, previous)))
        } else if is_attribute(tree.nodes[previous].kind) {
            comments_before(tree, previous)
        } else {
            seq![]
        },
        None => seq![],
    }
}

/// The comments of a symbol: those before it, or else those before the type
/// declaration that it stands in.
pub open spec fn comments_of(tree: TreeView, at: int) -> Seq<Seq<char>> {
    let own = comments_before(tree, at);
    match parent_of(tree, at) {
        Some(parent) => if own.len() == 0 && tree.nodes[parent].kind == "type_declaration"@ {
            comments_before(tree, parent)
        } else {
            own
        },
        None => own,
    }
}

/// The documentation of a symbol: its comments, line by line.
pub open spec fn doc_comment(tree: TreeView, at: int) -> Option<Seq<char>> {
    let comments = comments_of(tree, at);
    if comments.len() == 0 {
        None
    } else {
        Some(joined(comments, "\n"@))
    }
}

fn reversed(items: &Vec<String>) -> (turned: Vec<String>)
    ensures
        views(turned@) == views(items@).reverse(),
{
    let mut turned: Vec<String> = Vec::new();
    let mut i: usize = items.len();
    while i > 0
        invariant
            i <= items@.len(),
            views(turned@) == views(items@).skip(i as int).reverse(),
        decreases i,
    {
        let item = items[i - 1].clone();
        let ghost before = turned@;
        turned.push(item);
        proof {
            lemma_views_push(before, item);
            assert(views(items@).skip(i - 1).reverse() =~= views(items@).skip(
                i as int,
            ).reverse().push(item@));
        }
        i = i - 1;
    }
    assert(views(items@).skip(0) =~= views(items@));
    turned
}

fn collect_preceding_comments(tree: &SyntaxTree, at: usize) -> (comments: Vec<String>)
    requires
        tree.wf(),
        at < tree@.nodes.len(),
    ensures
        views(comments@) == comments_before(tree@, at as int),
{
    let mut backward: Vec<String> = Vec::new();
    let mut current: usize = at;
    let mut done = false;
    assert(comments_before(tree@, at as int) + views(backward@).reverse() =~= comments_before(
        tree@,
        at as int,
    ));
    while !done
        invariant
            tree.wf(),
            current <= at < tree@.nodes.len(),
            !done ==> comments_before(tree@, at as int) == comments_before(tree@, current as int)
                + views(backward@).reverse(),
            done ==> comments_before(tree@, at as int) == views(backward@).reverse(),
        decreases current, if done { 0int } else { 1int },
    {
        let ghost before = backward@;
        match tree.prev_sibling(current) {
            Some(previous) => {
                if tree.is_kind(previous, "line_comment") || tree.is_kind(
                    previous,
                    "block_comment",
                ) || tree.is_kind(previous, "comment") {
                    let text = trimmed_end(tree.text(previous).as_str());
                    backward.push(text);
                    proof {
                        lemma_views_push(before, text);
                        assert(comments_before(tree@, previous as int).push(text@) + views(
                            before,
                        ).reverse() =~= comments_before(tree@, previous as int) + views(
                            backward@,
                        ).reverse());
                    }
                    current = previous;
                } else if tree.is_kind(previous, "attribute_item") || tree.is_kind(
                    previous,
                    "inner_attribute_item",
                ) {
                    current = previous;
                } else {
                    assert(Seq::<Seq<char>>::empty() + views(backward@).reverse() =~= views(
                        backward@,
                    ).reverse());
                    done = true;
                }
            },
            None => {
                assert(Seq::<Seq<char>>::empty() + views(backward@).reverse() =~= views(
                    backward@,
                ).reverse());
                done = true;
            },
        }
    }
    reversed(&backward)
}

/// The documentation of the symbol at `at`.
pub fn get_doc_comment(tree: &SyntaxTree, at: usize) -> (doc: Option<String>)
    requires
        tree.wf(),
        at < tree@.nodes.len(),
    ensures
        opt_text(doc) == doc_comment(tree@, at as int),
{
    let mut comments = collect_preceding_comments(tree, at);
    assert(views(comments@).len() == comments@.len());
    if comments.len() == 0 {
        if let Some(parent) = tree.parent(at) {
            if tree.is_kind(parent, "type_declaration") {
                comments = collect_preceding_comments(tree, parent);
            }
        }
    }
    assert(views(comments@) == comments_of(tree@, at as int));
    assert(views(comments@).len() == comments@.len());
    if comments.len() == 0 {
        None
    } else {
        Some(join(&comments, "\n"))
    }
}

// ---------------------------------------------------------------------------
// Names

/// A name within a scope, where there is one.
pub open spec fn scoped(parent: Option<Seq<char>>, name: Seq<char>) -> Seq<char> {
    match parent {
        Some(parent) => parent + "::"@ + name,
        None => name,
    }
}

/// A name within a scope, where there is one.
pub fn qualified_name(parent: Option<&str>, name: &str) -> (qualified: String)
    ensures
        qualified@ == scoped(opt_str(parent), name@),
{
    match parent {
        Some(parent) => join3(parent, "::", name),
        None => name.to_string(),
    }
}

/// The id of a symbol: the path of its file and its qualified name.
pub open spec fn symbol_id(file_path: Seq<char>, qualified: Seq<char>) -> Seq<char> {
    file_path + "::"@ + qualified
}

/// A name without any white space in it.
pub fn normalize_qualified_name(name: &str) -> (normalized: String)
    ensures
        normalized@ == squeeze(name@),
{
    squeezed(name)
}

/// The last of the parts that `separator` divides a text into.
pub open spec fn final_part(text: Seq<char>, separator: Seq<char>) -> Seq<char> {
    split(text, separator).last()
}

pub proof fn lemma_split_some(text: Seq<char>, separator: Seq<char>)
    ensures
        split(text, separator).len() > 0,
{
}

/// The last of the parts that `separator` divides a string into.
pub fn last_split(text: &str, separator: &str) -> (last: String)
    requires
        separator@.len() > 0,
    ensures
        last@ == final_part(text@, separator@),
{
    let parts = parts_of(text, separator);
    proof {
        lemma_split_some(text@, separator@);
        assert(views(parts@).len() == parts@.len());
        assert(views(parts@).last() == parts@[parts@.len() - 1]@);
    }
    parts[parts.len() - 1].clone()
}

// ---------------------------------------------------------------------------
// Symbols and call sites

/// The symbol that the node at `at` declares, with the given signature. It is a test
/// where its file is one of tests.
pub open spec fn symbol_with(
    tree: TreeView,
    at: int,
    file_path: Seq<char>,
    id: Seq<char>,
    name: Seq<char>,
    kind: Seq<char>,
    qualified: Seq<char>,
    signature_text: Seq<char>,
) -> NodeView {
    NodeView {
        id,
        name,
        kind,
        qualified_name: Some(qualified),
        file_path,
        start_line: tree.nodes[at].start_row + 1,
        end_line: tree.nodes[at].end_row + 1,
        start_column: tree.nodes[at].start_column,
        end_column: tree.nodes[at].end_column,
        signature: Some(signature_text),
        doc_comment: doc_comment(tree, at),
        is_test: is_test_path(file_path),
        resolution_kind: None,
        confidence: None,
    }
}

/// The symbol that the node at `at` declares under a qualified name.
pub open spec fn symbol_at(
    tree: TreeView,
    at: int,
    file_path: Seq<char>,
    name: Seq<char>,
    kind: Seq<char>,
    qualified: Seq<char>,
) -> NodeView {
    symbol_with(
        tree,
        at,
        file_path,
        symbol_id(file_path, qualified),
        name,
        kind,
        qualified,
        signature(tree, at),
    )
}

/// The symbol that the node at `at` declares, with the given signature.
pub fn make_symbol(
    tree: &SyntaxTree,
    at: usize,
    file_path: &str,
    id: String,
    name: String,
    kind: &str,
    qualified: String,
    signature_text: String,
) -> (node: Node)
    requires
        tree.wf(),
        at < tree@.nodes.len(),
    ensures
        node@ == symbol_with(
            tree@,
            at as int,
            file_path@,
            id@,
            name@,
            kind@,
            qualified@,
            signature_text@,
        ),
{
    let doc = get_doc_comment(tree, at);
    let syntax = tree.node(at);
    Node {
        id,
        name,
        kind: kind.to_string(),
        qualified_name: Some(qualified),
        file_path: file_path.to_string(),
        start_line: syntax.start_row as i64 + 1,
        end_line: syntax.end_row as i64 + 1,
        start_column: syntax.start_column as i64,
        end_column: syntax.end_column as i64,
        signature: Some(signature_text),
        doc_comment: doc,
        is_test: holds_tests(file_path),
        resolution_kind: None,
        confidence: None,
    }
}

/// The symbol that the node at `at` declares under a qualified name.
pub fn declared_symbol(
    tree: &SyntaxTree,
    at: usize,
    file_path: &str,
    name: String,
    kind: &str,
    qualified: String,
) -> (node: Node)
    requires
        tree.wf(),
        at < tree@.nodes.len(),
    ensures
        node@ == symbol_at(tree@, at as int, file_path@, name@, kind@, qualified@),
{
    let id = join3(file_path, "::", qualified.as_str());
    let signature_text = get_signature(tree, at);
    make_symbol(tree, at, file_path, id, name, kind, qualified, signature_text)
}

/// Adds the symbol that the node at `at` declares under a qualified name.
pub fn push_symbol(
    out: &mut Extraction,
    tree: &SyntaxTree,
    at: usize,
    file_path: &str,
    name: String,
    kind: &str,
    qualified: String,
)
    requires
        tree.wf(),
        at < tree@.nodes.len(),
    ensures
        final(out)@ == with_node(
            old(out)@,
            symbol_at(tree@, at as int, file_path@, name@, kind@, qualified@),
        ),
{
    let node = declared_symbol(tree, at, file_path, name, kind, qualified);
    out.add_node(node);
}

/// The call of `callee_name` that the node at `at` makes.
pub open spec fn call_at(
    tree: TreeView,
    at: int,
    caller_id: Seq<char>,
    callee_name: Seq<char>,
) -> RawCallView {
    plain_call(
        caller_id,
        callee_name,
        tree.nodes[at].start_row + 1,
        tree.nodes[at].start_column,
    )
}

/// The call of `callee_name` that the node at `at` makes.
pub fn raw_call(tree: &SyntaxTree, at: usize, caller_id: &str, callee_name: String) -> (call: RawCall)
    requires
        at < tree@.nodes.len(),
    ensures
        call@ == call_at(tree@, at as int, caller_id@, callee_name@),
{
    let syntax = tree.node(at);
    RawCall::new(
        caller_id.to_string(),
        callee_name,
        syntax.start_row as i64 + 1,
        syntax.start_column as i64,
    )
}

/// An optional string as a borrowed one.
pub fn borrowed(value: &Option<String>) -> (text: Option<&str>)
    ensures
        opt_str(text) == opt_text(*value),
{
    match value {
        Some(text) => Some(text.as_str()),
        None => None,
    }
}

/// An optional string slice as an owned string.
pub fn owned(value: Option<&str>) -> (text: Option<String>)
    ensures
        opt_text(text) == opt_str(value),
{
    match value {
        Some(text) => Some(text.to_string()),
        None => None,
    }
}

} // verus!
