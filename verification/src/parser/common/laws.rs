//! What is told of a declaration besides its name: its head and its comments.

use vstd::prelude::*;
use crate::parser::common::{comments_before, doc_comment, first_body, signature};
use crate::parser::syntax::laws::parents_and_siblings_stand_before;
use crate::parser::syntax::{
    children, parent_of, previous_sibling, source_between, text_at, TreeView,
};
use crate::text::{joined, trim, trim_end, trim_end_of};

verus! {

/// The node holds the body of a declaration.
pub open spec fn holds_body(tree: TreeView, at: int) -> bool {
    let kind = tree.nodes[at].kind;
    ||| kind == "block"@
    ||| kind == "field_declaration_list"@
    ||| kind == "declaration_list"@
    ||| kind == "interface_type"@
    ||| kind == "struct_type"@
    ||| kind == "compound_statement"@
    ||| kind == "class_body"@
    ||| kind == "interface_body"@
    ||| kind == "constructor_body"@
}

/// The first of the nodes that holds a body stands at `i`.
pub open spec fn is_first_body(tree: TreeView, nodes: Seq<int>, i: int) -> bool {
    &&& 0 <= i < nodes.len()
    &&& holds_body(tree, nodes[i])
    &&& forall|j: int| 0 <= j < i ==> !holds_body(tree, #[trigger] nodes[j])
}

/// None of the nodes holds a body.
pub open spec fn no_body(tree: TreeView, nodes: Seq<int>) -> bool {
    forall|j: int| 0 <= j < nodes.len() ==> !holds_body(tree, #[trigger] nodes[j])
}

proof fn lemma_first_body(tree: TreeView, nodes: Seq<int>, i: int)
    ensures
        is_first_body(tree, nodes, i) ==> first_body(tree, nodes) == Some(nodes[i]),
        no_body(tree, nodes) ==> first_body(tree, nodes) is None,
    decreases nodes.len(),
{
    if nodes.len() > 0 {
        let rest = nodes.skip(1);
        lemma_first_body(tree, rest, i - 1);
        if is_first_body(tree, nodes, i) && i > 0 {
            assert(!holds_body(tree, nodes[0]));
            assert(rest[i - 1] == nodes[i]);
            assert forall|j: int| 0 <= j < i - 1 implies !holds_body(
                tree,
                #[trigger] rest[j],
            ) by {
                assert(rest[j] == nodes[j + 1]);
            }
        }
        if no_body(tree, nodes) {
            assert(!holds_body(tree, nodes[0]));
            assert forall|j: int| 0 <= j < rest.len() implies !holds_body(
                tree,
                #[trigger] rest[j],
            ) by {
                assert(rest[j] == nodes[j + 1]);
            }
        }
    }
}

/// The head of a declaration goes up to its body, or to its end where it has none; the
/// signature is the head without white space and an opening brace, where that leaves
/// something.
pub proof fn heads_end_at_bodies(tree: TreeView, at: int, i: int)
    ensures
        ({
            let all = children(tree, at);
            let start = tree.nodes[at].start_byte;
            &&& is_first_body(tree, all, i) ==> {
                let head = source_between(tree.source, start, tree.nodes[all[i]].start_byte);
                let cleaned = trim(trim_end_of(trim(head), '{'));
                cleaned.len() > 0 ==> signature(tree, at) == cleaned
            }
            &&& no_body(tree, all) ==> {
                let head = source_between(tree.source, start, tree.nodes[at].end_byte);
                let cleaned = trim(trim_end_of(trim(head), '{'));
                cleaned.len() > 0 ==> signature(tree, at) == cleaned
            }
        }),
{
    lemma_first_body(tree, children(tree, at), i);
}

/// The comments of a declaration are those right before it, each behind those before it.
/// Attributes between them are passed over, and anything else ends them.
pub proof fn comments_stand_right_before(tree: TreeView, at: int, before: int)
    requires
        0 <= before < at < tree.nodes.len(),
        tree.nodes[before].depth == tree.nodes[at].depth,
        forall|k: int| before < k < at ==> (#[trigger] tree.nodes[k]).depth > tree.nodes[at].depth,
    ensures
        ({
            let kind = tree.nodes[before].kind;
            let comment = kind == "line_comment"@ || kind == "block_comment"@ || kind
                == "comment"@;
            let attribute = kind == "attribute_item"@ || kind == "inner_attribute_item"@;
            &&& comment ==> comments_before(tree, at) == comments_before(tree, before).push(
                trim_end(text_at(tree, before)),
            )
            &&& attribute && !comment ==> comments_before(tree, at) == comments_before(tree, before)
            &&& !comment && !attribute ==> comments_before(tree, at).len() == 0
        }),
{
    parents_and_siblings_stand_before(tree, at, before);
    assert(previous_sibling(tree, at) == Some(before));
}

/// The first of its siblings has no comments.
pub proof fn first_siblings_have_no_comments(tree: TreeView, at: int)
    requires
        0 <= at < tree.nodes.len(),
        previous_sibling(tree, at) is None,
    ensures
        comments_before(tree, at).len() == 0,
{
}

/// The documentation is the comments of a declaration, line under line. One without any in
/// a declaration of types has the comments of that.
pub proof fn documentation_is_the_comments(tree: TreeView, at: int, above: int)
    ensures
        comments_before(tree, at).len() > 0 ==> doc_comment(tree, at) == Some(
            joined(comments_before(tree, at), "\n"@),
        ),
        comments_before(tree, at).len() == 0 && parent_of(tree, at) == Some(above)
            && tree.nodes[above].kind == "type_declaration"@ && comments_before(tree, above).len()
            > 0 ==> doc_comment(tree, at) == Some(joined(comments_before(tree, above), "\n"@)),
        comments_before(tree, at).len() == 0 && parent_of(tree, at) == Some(above)
            && tree.nodes[above].kind != "type_declaration"@ ==> doc_comment(tree, at) is None,
        comments_before(tree, at).len() == 0 && parent_of(tree, at) is None ==> doc_comment(
            tree,
            at,
        ) is None,
{
}

} // verus!
