//! Which symbols a query is about, and in what order they are shown.

use vstd::prelude::*;
use crate::commands::select::{
    at_line, byte_length, confidence_or, confident, fits_better, identified, match_rank, meanings,
    named, ranked, subjects, under,
};
use crate::db::NodeView;
use crate::ordered::{
    chosen, chosen_members, number_first_order, sorting_keeps_members, sorting_orders_and_keeps,
    text_keys_order,
};
use crate::text::{contains, lower_case, starts_with, text_lt};

verus! {

proof fn lemma_chosen(nodes: Seq<NodeView>, picks: spec_fn(NodeView) -> bool, node: NodeView)
    ensures
        chosen(nodes, picks).contains(node) <==> nodes.contains(node) && picks(node),
{
    chosen_members(nodes, picks);
    if chosen(nodes, picks).contains(node) {
        let found = chosen(nodes, picks);
        let i = choose|i: int| 0 <= i < found.len() && found[i] == node;
        assert(picks(found[i]));
    }
}

/// A prefix keeps the symbols of the files whose paths begin with it; a line those that
/// span it, their first and last lines among it; a confidence those that reach it, where an
/// unknown one counts as none. What is not asked for keeps all.
pub proof fn filters_keep_what_is_asked_for(
    nodes: Seq<NodeView>,
    prefix: Seq<char>,
    line: int,
    least: int,
    node: NodeView,
)
    ensures
        under(nodes, Some(prefix)).contains(node) <==> nodes.contains(node) && starts_with(
            node.file_path,
            prefix,
        ),
        under(nodes, None) == nodes,
        at_line(nodes, Some(line)).contains(node) <==> nodes.contains(node) && node.start_line
            <= line && line <= node.end_line,
        at_line(nodes, None) == nodes,
        confident(nodes, Some(least)).contains(node) <==> nodes.contains(node)
            && match node.confidence {
            Some(confidence) => confidence >= least,
            None => least <= 0,
        },
        confident(nodes, None) == nodes,
{
    lemma_chosen(nodes, |node: NodeView| starts_with(node.file_path, prefix), node);
    lemma_chosen(nodes, |node: NodeView| node.start_line <= line <= node.end_line, node);
    lemma_chosen(nodes, |node: NodeView| confidence_or(node, 0) >= least, node);
}

/// Some symbol has the text as its id or its full name.
pub open spec fn some_identified(nodes: Seq<NodeView>, symbol: Seq<char>) -> bool {
    exists|node: NodeView| #[trigger]
        nodes.contains(node) && (node.id == symbol || node.qualified_name == Some(symbol))
}

/// Some symbol has the text as its name.
pub open spec fn some_named(nodes: Seq<NodeView>, symbol: Seq<char>) -> bool {
    exists|node: NodeView| #[trigger] nodes.contains(node) && node.name == symbol
}

proof fn lemma_some(nodes: Seq<NodeView>, symbol: Seq<char>)
    ensures
        identified(nodes, symbol).len() > 0 <==> some_identified(nodes, symbol),
        named(nodes, symbol).len() > 0 <==> some_named(nodes, symbol),
{
    let ids = |node: NodeView| node.id == symbol || node.qualified_name == Some(symbol);
    let names = |node: NodeView| node.name == symbol;
    let by_id = identified(nodes, symbol);
    let by_name = named(nodes, symbol);
    if by_id.len() > 0 {
        lemma_chosen(nodes, ids, by_id[0]);
        assert(by_id.contains(by_id[0]));
        assert(nodes.contains(by_id[0]));
    }
    if some_identified(nodes, symbol) {
        let node = choose|node: NodeView| #[trigger]
            nodes.contains(node) && (node.id == symbol || node.qualified_name == Some(symbol));
        lemma_chosen(nodes, ids, node);
    }
    if by_name.len() > 0 {
        lemma_chosen(nodes, names, by_name[0]);
        assert(by_name.contains(by_name[0]));
        assert(nodes.contains(by_name[0]));
    }
    if some_named(nodes, symbol) {
        let node = choose|node: NodeView| #[trigger] nodes.contains(node) && node.name == symbol;
        lemma_chosen(nodes, names, node);
    }
}

/// A target is looked for by id or full name, and by name only where none has that id or
/// full name.
pub proof fn targets_are_meant_by_id_before_name(
    nodes: Seq<NodeView>,
    symbol: Seq<char>,
    prefix: Seq<char>,
    node: NodeView,
)
    ensures
        meanings(nodes, symbol, None).contains(node) <==> nodes.contains(node) && if some_identified(
            nodes,
            symbol,
        ) {
            node.id == symbol || node.qualified_name == Some(symbol)
        } else {
            node.name == symbol
        },
        meanings(nodes, symbol, Some(prefix)).contains(node) <==> meanings(
            nodes,
            symbol,
            None,
        ).contains(node) && starts_with(node.file_path, prefix),
{
    lemma_some(nodes, symbol);
    lemma_chosen(
        nodes,
        |node: NodeView| node.id == symbol || node.qualified_name == Some(symbol),
        node,
    );
    lemma_chosen(nodes, |node: NodeView| node.name == symbol, node);
    lemma_chosen(
        meanings(nodes, symbol, None),
        |node: NodeView| starts_with(node.file_path, prefix),
        node,
    );
}

/// A query for callers, callees or definitions is about the symbols of the name, and about
/// those of the id or full name only where none has the name.
pub proof fn queries_are_about_names_before_ids(
    nodes: Seq<NodeView>,
    symbol: Seq<char>,
    node: NodeView,
)
    ensures
        subjects(nodes, symbol).contains(node) <==> nodes.contains(node) && if some_named(
            nodes,
            symbol,
        ) {
            node.name == symbol
        } else {
            node.id == symbol || node.qualified_name == Some(symbol)
        },
{
    lemma_some(nodes, symbol);
    lemma_chosen(
        nodes,
        |node: NodeView| node.id == symbol || node.qualified_name == Some(symbol),
        node,
    );
    lemma_chosen(nodes, |node: NodeView| node.name == symbol, node);
}

proof fn lemma_relevance(query: Seq<char>)
    ensures
        crate::ordered::is_weak_order(
            |left: NodeView, right: NodeView| fits_better(left, right, query),
        ),
{
    let rest2 = |l: NodeView, r: NodeView| text_lt(l.name, r.name);
    text_keys_order(rest2, |item: NodeView| item.name);
    let rest1 = |l: NodeView, r: NodeView| if byte_length(l.name) != byte_length(r.name) {
        byte_length(l.name) < byte_length(r.name)
    } else {
        text_lt(l.name, r.name)
    };
    number_first_order(rest1, |item: NodeView| byte_length(item.name), rest2);
    let whole = |left: NodeView, right: NodeView| fits_better(left, right, query);
    number_first_order(whole, |item: NodeView| match_rank(lower_case(item.name), query), rest1);
}

/// All results of a search are shown, and of two of them, whatever their case: one that is
/// the query comes before one that is not; one that begins with it before one that does
/// not; one that contains it before one that does not. Of two that fit alike the shorter
/// comes first, and of two as long the lesser.
pub proof fn better_results_come_first(
    nodes: Seq<NodeView>,
    query: Seq<char>,
    node: NodeView,
    i: int,
    j: int,
)
    requires
        0 <= i < j < ranked(nodes, query).len(),
    ensures
        ranked(nodes, query).contains(node) <==> nodes.contains(node),
        ranked(nodes, query).len() == nodes.len(),
        ({
            let wanted = lower_case(query);
            let first = lower_case(ranked(nodes, query)[i].name);
            let second = lower_case(ranked(nodes, query)[j].name);
            let shorter = ranked(nodes, query)[i].name;
            let longer = ranked(nodes, query)[j].name;
            &&& second == wanted ==> first == wanted
            &&& starts_with(second, wanted) ==> first == wanted || starts_with(first, wanted)
            &&& contains(second, wanted) ==> first == wanted || starts_with(first, wanted)
                || contains(first, wanted)
            &&& first == wanted && second == wanted ==> byte_length(shorter) <= byte_length(longer)
            &&& !contains(first, wanted) && !contains(second, wanted) ==> byte_length(shorter)
                <= byte_length(longer)
            &&& first == second && byte_length(shorter) == byte_length(longer) ==> !text_lt(
                longer,
                shorter,
            )
        }),
{
    let wanted = lower_case(query);
    let precedes = |left: NodeView, right: NodeView| fits_better(left, right, wanted);
    lemma_relevance(wanted);
    sorting_orders_and_keeps(nodes, precedes);
    sorting_keeps_members(nodes, precedes);
    let found = ranked(nodes, query);
    assert(!precedes(found[j], found[i]));
    let first = lower_case(found[i].name);
    let second = lower_case(found[j].name);
    if first == wanted && !contains(first, wanted) {
        assert(first.subrange(0, first.len() as int) =~= first);
        assert(crate::text::occurs_at(first, wanted, 0));
    }
    if starts_with(first, wanted) {
        assert(crate::text::occurs_at(first, wanted, 0));
    }
    if second == wanted && !contains(second, wanted) {
        assert(second.subrange(0, second.len() as int) =~= second);
        assert(crate::text::occurs_at(second, wanted, 0));
    }
    if starts_with(second, wanted) {
        assert(crate::text::occurs_at(second, wanted, 0));
    }
}

} // verus!
