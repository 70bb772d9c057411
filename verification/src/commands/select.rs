//! Which symbols a query is about, and in which order they are shown.

pub mod laws;

use vstd::prelude::*;
use crate::commands::snapshot::ById;
use crate::commands::{Warning, WarningView};
use crate::db::{opt_int, Node, NodeView};
use crate::ordered::{
    choice_of, choose_by, choosing_is_idempotent, chosen, chosen_members, dedup_by,
    distinct_items_ascend, in_order, is_weak_order, kept_items_come_first, number_first_order,
    number_keys_order, refines, relation_of, relations_are_orders, sameness_of, sort_by, sorted_by,
    sorting_keeps_members, sorting_orders_and_keeps, tells_apart, text_first_order, text_keys_order,
    without_repeats, Choice, Order,
};
use crate::text::{
    begins, contains, count, decimal, has, join3, lemma_text_lt_irreflexive, lemma_text_lt_total,
    lemma_views_push, less, lower_case, lowercase, opt_str, same, starts_with, text_lt, views,
};

verus! {

// ---------------------------------------------------------------------------
// Choices

struct NotTest;

impl Choice<Node> for NotTest {
    open spec fn picks(&self, node: NodeView) -> bool {
        !node.is_test
    }

    fn pick(&self, node: &Node) -> (picked: bool) {
        !node.is_test
    }
}

struct Under<'a> {
    prefix: &'a str,
}

impl<'a> Choice<Node> for Under<'a> {
    closed spec fn picks(&self, node: NodeView) -> bool {
        starts_with(node.file_path, self.prefix@)
    }

    fn pick(&self, node: &Node) -> (picked: bool) {
        begins(node.file_path.as_str(), self.prefix)
    }
}

struct AtLine {
    line: i64,
}

impl Choice<Node> for AtLine {
    closed spec fn picks(&self, node: NodeView) -> bool {
        node.start_line <= self.line <= node.end_line
    }

    fn pick(&self, node: &Node) -> (picked: bool) {
        self.line >= node.start_line && self.line <= node.end_line
    }
}

struct Confident {
    least: i64,
}

impl Choice<Node> for Confident {
    closed spec fn picks(&self, node: NodeView) -> bool {
        confidence_or(node, 0) >= self.least
    }

    fn pick(&self, node: &Node) -> (picked: bool) {
        match node.confidence {
            Some(confidence) => confidence >= self.least,
            None => 0 >= self.least,
        }
    }
}

struct NamedBy<'a> {
    name: &'a str,
}

impl<'a> Choice<Node> for NamedBy<'a> {
    closed spec fn picks(&self, node: NodeView) -> bool {
        node.name == self.name@
    }

    fn pick(&self, node: &Node) -> (picked: bool) {
        same(node.name.as_str(), self.name)
    }
}

struct IdentifiedBy<'a> {
    symbol: &'a str,
}

impl<'a> Choice<Node> for IdentifiedBy<'a> {
    closed spec fn picks(&self, node: NodeView) -> bool {
        node.id == self.symbol@ || node.qualified_name == Some(self.symbol@)
    }

    fn pick(&self, node: &Node) -> (picked: bool) {
        let by_name = match &node.qualified_name {
            Some(name) => same(name.as_str(), self.symbol),
            None => false,
        };
        by_name || same(node.id.as_str(), self.symbol)
    }
}

/// The confidence of the edge that leads to a symbol, or what stands for it.
pub open spec fn confidence_or(node: NodeView, otherwise: int) -> int {
    match node.confidence {
        Some(confidence) => confidence,
        None => otherwise,
    }
}

/// The symbols that are not tests, where tests are to be left out.
pub open spec fn without_tests(nodes: Seq<NodeView>, no_tests: bool) -> Seq<NodeView> {
    if no_tests {
        chosen(nodes, |node: NodeView| !node.is_test)
    } else {
        nodes
    }
}

/// The symbols of the files whose paths begin with a prefix.
pub open spec fn under(nodes: Seq<NodeView>, prefix: Option<Seq<char>>) -> Seq<NodeView> {
    match prefix {
        Some(prefix) => chosen(nodes, |node: NodeView| starts_with(node.file_path, prefix)),
        None => nodes,
    }
}

/// The symbols that span a line.
pub open spec fn at_line(nodes: Seq<NodeView>, line: Option<int>) -> Seq<NodeView> {
    match line {
        Some(line) => chosen(nodes, |node: NodeView| node.start_line <= line <= node.end_line),
        None => nodes,
    }
}

/// The symbols to which an edge of at least this confidence leads.
pub open spec fn confident(nodes: Seq<NodeView>, least: Option<int>) -> Seq<NodeView> {
    match least {
        Some(least) => chosen(nodes, |node: NodeView| confidence_or(node, 0) >= least),
        None => nodes,
    }
}

/// The symbols with a name.
pub open spec fn named(nodes: Seq<NodeView>, name: Seq<char>) -> Seq<NodeView> {
    chosen(nodes, |node: NodeView| node.name == name)
}

/// The symbols with an id or a full name.
pub open spec fn identified(nodes: Seq<NodeView>, symbol: Seq<char>) -> Seq<NodeView> {
    chosen(nodes, |node: NodeView| node.id == symbol || node.qualified_name == Some(symbol))
}

fn copy_nodes(nodes: &Vec<Node>) -> (copies: Vec<Node>)
    ensures
        views(copies@) == views(nodes@),
{
    let ghost wanted = views(nodes@);
    let mut copies: Vec<Node> = Vec::new();
    let mut i: usize = 0;
    assert(views(copies@) =~= wanted.take(0));
    while i < nodes.len()
        invariant
            i <= nodes@.len(),
            wanted == views(nodes@),
            views(copies@) == wanted.take(i as int),
        decreases nodes@.len() - i,
    {
        let node = nodes[i].clone();
        proof {
            lemma_views_push(copies@, node);
            assert(wanted.take(i + 1) =~= wanted.take(i as int).push(node@));
        }
        copies.push(node);
        i = i + 1;
    }
    assert(wanted.take(i as int) =~= wanted);
    copies
}

fn keep_under(nodes: Vec<Node>, prefix: Option<&str>) -> (kept: Vec<Node>)
    ensures
        views(kept@) == under(views(nodes@), opt_str(prefix)),
{
    match prefix {
        Some(prefix) => {
            let choice = Under { prefix };
            assert(choice_of::<Node, Under>(choice) =~= (|node: NodeView|
                starts_with(node.file_path, prefix@)));
            choose_by(nodes, &choice)
        },
        None => nodes,
    }
}

fn keep_at_line(nodes: Vec<Node>, line: Option<i64>) -> (kept: Vec<Node>)
    ensures
        views(kept@) == at_line(views(nodes@), opt_int(line)),
{
    match line {
        Some(line) => {
            let choice = AtLine { line };
            assert(choice_of::<Node, AtLine>(choice) =~= (|node: NodeView|
                node.start_line <= line as int <= node.end_line));
            choose_by(nodes, &choice)
        },
        None => nodes,
    }
}

/// Leaves the tests out, where that is asked for.
pub fn retain_non_tests(nodes: &mut Vec<Node>, no_tests: bool)
    ensures
        views(final(nodes)@) == without_tests(views(old(nodes)@), no_tests),
{
    if no_tests {
        let mut all: Vec<Node> = Vec::new();
        core::mem::swap(nodes, &mut all);
        assert(choice_of::<Node, NotTest>(NotTest) =~= (|node: NodeView| !node.is_test));
        *nodes = choose_by(all, &NotTest);
    }
}

/// Leaving the tests out leaves none of them and everything else, and doing so again
/// changes nothing.
pub proof fn no_tests_remain(nodes: Seq<NodeView>)
    ensures
        without_tests(nodes, false) == nodes,
        forall|node: NodeView|
            #[trigger] without_tests(nodes, true).contains(node) <==> nodes.contains(node)
                && !node.is_test,
        without_tests(without_tests(nodes, true), true) == without_tests(nodes, true),
{
    let picks = |node: NodeView| !node.is_test;
    chosen_members(nodes, picks);
    choosing_is_idempotent(nodes, picks);
}

// ---------------------------------------------------------------------------
// Symbols at the other end of an edge

/// The order of symbols by id, and for one id from the highest confidence on.
pub struct ByIdAndConfidence;

/// One symbol comes before another by id, and for one id by its higher confidence.
pub open spec fn id_confidence_lt(left: NodeView, right: NodeView) -> bool {
    if left.id != right.id {
        text_lt(left.id, right.id)
    } else {
        confidence_or(left, -1) > confidence_or(right, -1)
    }
}

fn confidence_value(node: &Node) -> (value: i64)
    ensures
        value == confidence_or(node@, -1),
{
    match node.confidence {
        Some(confidence) => confidence,
        None => -1,
    }
}

impl Order<Node> for ByIdAndConfidence {
    open spec fn precedes(&self, left: NodeView, right: NodeView) -> bool {
        id_confidence_lt(left, right)
    }

    fn before(&self, left: &Node, right: &Node) -> (found: bool) {
        if !same(left.id.as_str(), right.id.as_str()) {
            less(left.id.as_str(), right.id.as_str())
        } else {
            confidence_value(left) > confidence_value(right)
        }
    }

    proof fn is_order(&self) {
        let rest1 = |l: NodeView, r: NodeView| -confidence_or(l, -1) < -confidence_or(r, -1);
        number_keys_order(rest1, |item: NodeView| -confidence_or(item, -1));
        let whole = |left: NodeView, right: NodeView| self.precedes(left, right);
        text_first_order(whole, |item: NodeView| item.id, rest1);
    }
}

/// The order of symbols from the highest confidence on, and for one confidence by id.
pub struct ByConfidence;

/// One symbol comes before another by its higher confidence, and for one confidence by
/// id.
pub open spec fn confidence_id_lt(left: NodeView, right: NodeView) -> bool {
    if confidence_or(left, -1) != confidence_or(right, -1) {
        confidence_or(left, -1) > confidence_or(right, -1)
    } else {
        text_lt(left.id, right.id)
    }
}

impl Order<Node> for ByConfidence {
    open spec fn precedes(&self, left: NodeView, right: NodeView) -> bool {
        confidence_id_lt(left, right)
    }

    fn before(&self, left: &Node, right: &Node) -> (found: bool) {
        let first = confidence_value(left);
        let second = confidence_value(right);
        if first != second {
            first > second
        } else {
            less(left.id.as_str(), right.id.as_str())
        }
    }

    proof fn is_order(&self) {
        let rest1 = |l: NodeView, r: NodeView| text_lt(l.id, r.id);
        text_keys_order(rest1, |item: NodeView| item.id);
        let whole = |left: NodeView, right: NodeView| self.precedes(left, right);
        number_first_order(whole, |item: NodeView| -confidence_or(item, -1), rest1);
    }
}

/// The symbols of each id, the best first.
pub open spec fn best_first(nodes: Seq<NodeView>) -> Seq<NodeView> {
    sorted_by(nodes, relation_of::<Node, ByIdAndConfidence>(ByIdAndConfidence))
}

/// The best symbol of each id.
pub open spec fn best_of_each(nodes: Seq<NodeView>) -> Seq<NodeView> {
    without_repeats(best_first(nodes), sameness_of::<Node, ById>(ById))
}

/// The symbols at the other ends of edges: each once, with its highest confidence, and
/// from the highest confidence on.
pub open spec fn related(nodes: Seq<NodeView>, no_tests: bool) -> Seq<NodeView> {
    sorted_by(
        best_of_each(without_tests(nodes, no_tests)),
        relation_of::<Node, ByConfidence>(ByConfidence),
    )
}

/// Keeps each symbol once, with its highest confidence, from the highest confidence on.
pub fn process_related_nodes(nodes: &mut Vec<Node>, no_tests: bool)
    ensures
        views(final(nodes)@) == related(views(old(nodes)@), no_tests),
{
    retain_non_tests(nodes, no_tests);
    let mut all: Vec<Node> = Vec::new();
    core::mem::swap(nodes, &mut all);
    let sorted = sort_by(all, &ByIdAndConfidence);
    let kept = dedup_by(sorted, &ById);
    *nodes = sort_by(kept, &ByConfidence);
}

/// The symbols at the other ends of edges of at least this confidence.
pub fn related_nodes(nodes: Vec<Node>, min_confidence: Option<i64>, no_tests: bool) -> (found: Vec<
    Node,
>)
    ensures
        views(found@) == related(
            confident(views(nodes@), opt_int(min_confidence)),
            no_tests,
        ),
{
    let mut kept = match min_confidence {
        Some(least) => {
            let choice = Confident { least };
            assert(choice_of::<Node, Confident>(choice) =~= (|node: NodeView|
                confidence_or(node, 0) >= least as int));
            choose_by(nodes, &choice)
        },
        None => nodes,
    };
    process_related_nodes(&mut kept, no_tests);
    kept
}

proof fn lemma_id_confidence_order()
    ensures
        is_weak_order(relation_of::<Node, ByIdAndConfidence>(ByIdAndConfidence)),
        is_weak_order(relation_of::<Node, ByConfidence>(ByConfidence)),
        is_weak_order(relation_of::<Node, ById>(ById)),
        tells_apart(relation_of::<Node, ById>(ById), sameness_of::<Node, ById>(ById)),
        refines(
            relation_of::<Node, ByIdAndConfidence>(ByIdAndConfidence),
            relation_of::<Node, ById>(ById),
        ),
{
    let fine = relation_of::<Node, ByIdAndConfidence>(ByIdAndConfidence);
    let coarse = relation_of::<Node, ById>(ById);
    let alike = sameness_of::<Node, ById>(ById);
    relations_are_orders::<Node, ById>(ById);
    relations_are_orders::<Node, ByIdAndConfidence>(ByIdAndConfidence);
    relations_are_orders::<Node, ByConfidence>(ByConfidence);
    assert(tells_apart(coarse, alike)) by {
        reveal(tells_apart);
        assert forall|a: NodeView, b: NodeView| #[trigger] alike(a, b) == (!coarse(a, b)
            && !coarse(b, a)) by {
            lemma_text_lt_total(a.id, b.id);
            lemma_text_lt_irreflexive(a.id);
        }
    }
    assert(refines(fine, coarse)) by {
        reveal(refines);
        assert forall|a: NodeView, b: NodeView| #[trigger] coarse(a, b) implies fine(a, b) by {
            lemma_text_lt_irreflexive(a.id);
        }
    }
}

/// A symbol that is found stands for all of its id: no other one has a higher
/// confidence.
pub open spec fn is_best(node: NodeView, nodes: Seq<NodeView>) -> bool {
    forall|j: int|
        0 <= j < nodes.len() && (#[trigger] nodes[j]).id == node.id ==> confidence_or(nodes[j], -1)
            <= confidence_or(node, -1)
}

proof fn lemma_best_of_each(nodes: Seq<NodeView>)
    ensures
        forall|i: int, j: int|
            #![trigger best_of_each(nodes)[i], best_of_each(nodes)[j]]
            0 <= i < j < best_of_each(nodes).len() ==> best_of_each(nodes)[i].id
                != best_of_each(nodes)[j].id,
        forall|i: int|
            0 <= i < best_of_each(nodes).len() ==> nodes.contains(
                #[trigger] best_of_each(nodes)[i],
            ) && is_best(best_of_each(nodes)[i], nodes),
        forall|k: int|
            0 <= k < nodes.len() ==> exists|i: int|
                0 <= i < best_of_each(nodes).len() && (#[trigger] best_of_each(nodes)[i]).id == (
                #[trigger] nodes[k]).id,
{
    let fine = relation_of::<Node, ByIdAndConfidence>(ByIdAndConfidence);
    let coarse = relation_of::<Node, ById>(ById);
    let alike = sameness_of::<Node, ById>(ById);
    let sorted = best_first(nodes);
    let kept = best_of_each(nodes);
    lemma_id_confidence_order();
    sorting_orders_and_keeps(nodes, fine);
    sorting_keeps_members(nodes, fine);
    assert(in_order(sorted, coarse)) by {
        reveal(refines);
        assert forall|i: int, j: int| 0 <= i < j < sorted.len() implies !coarse(
            #[trigger] sorted[j],
            #[trigger] sorted[i],
        ) by {
            assert(!fine(sorted[j], sorted[i]));
        }
    }
    distinct_items_ascend(sorted, coarse, alike);
    assert forall|i: int, j: int|
        #![trigger kept[i], kept[j]]
        0 <= i < j < kept.len() implies kept[i].id != kept[j].id by {
        assert(coarse(kept[i], kept[j]));
        lemma_text_lt_irreflexive(kept[i].id);
    }
    assert forall|i: int| 0 <= i < kept.len() implies nodes.contains(#[trigger] kept[i])
        && is_best(kept[i], nodes) by {
        assert(sorted.contains(kept[i]));
        assert forall|j: int| 0 <= j < nodes.len() && (#[trigger] nodes[j]).id
            == kept[i].id implies confidence_or(nodes[j], -1) <= confidence_or(kept[i], -1) by {
            assert(nodes.contains(nodes[j]));
            assert(sorted.contains(nodes[j]));
            let t = choose|t: int| 0 <= t < sorted.len() && sorted[t] == nodes[j];
            assert(alike(sorted[t], kept[i]));
            kept_items_come_first(sorted, fine, coarse, alike, t, i);
        }
    }
    assert forall|k: int| 0 <= k < nodes.len() implies exists|i: int|
        0 <= i < kept.len() && (#[trigger] kept[i]).id == (#[trigger] nodes[k]).id by {
        assert(nodes.contains(nodes[k]));
        assert(sorted.contains(nodes[k]));
        let t = choose|t: int| 0 <= t < sorted.len() && sorted[t] == nodes[k];
        let i = choose|i: int|
            0 <= i < kept.len() && alike(#[trigger] sorted[t], #[trigger] kept[i]);
        assert(kept[i].id == nodes[k].id);
    }
}

proof fn lemma_ranked(kept: Seq<NodeView>)
    requires
        forall|i: int, j: int|
            #![trigger kept[i], kept[j]]
            0 <= i < j < kept.len() ==> kept[i].id != kept[j].id,
    ensures
        ({
            let all = sorted_by(kept, relation_of::<Node, ByConfidence>(ByConfidence));
            forall|i: int, j: int|
                #![trigger all[i], all[j]]
                0 <= i < j < all.len() ==> all[i].id != all[j].id && confidence_id_lt(
                    all[i],
                    all[j],
                )
        }),
{
    let ranked = relation_of::<Node, ByConfidence>(ByConfidence);
    let all = sorted_by(kept, ranked);
    lemma_id_confidence_order();
    sorting_orders_and_keeps(kept, ranked);
    sorting_keeps_members(kept, ranked);
    assert(kept.no_duplicates()) by {
        assert forall|i: int, j: int| 0 <= i < kept.len() && 0 <= j < kept.len() && i
            != j implies kept[i] != kept[j] by {
            if i < j {
                assert(kept[i].id != kept[j].id);
            } else {
                assert(kept[j].id != kept[i].id);
            }
        }
    }
    kept.lemma_multiset_has_no_duplicates();
    all.lemma_multiset_has_no_duplicates_conv();
    assert forall|i: int, j: int|
        #![trigger all[i], all[j]]
        0 <= i < j < all.len() implies all[i].id != all[j].id && confidence_id_lt(
        all[i],
        all[j],
    ) by {
        assert(!ranked(all[j], all[i]));
        assert(all[i] != all[j]);
        assert(all.contains(all[i]) && all.contains(all[j]));
        assert(kept.contains(all[i]) && kept.contains(all[j]));
        let s = choose|s: int| 0 <= s < kept.len() && kept[s] == all[i];
        let t = choose|t: int| 0 <= t < kept.len() && kept[t] == all[j];
        assert(s != t);
        if s < t {
            assert(kept[s].id != kept[t].id);
        } else {
            assert(kept[t].id != kept[s].id);
        }
        lemma_text_lt_total(all[i].id, all[j].id);
    }
}

/// Every symbol, tests left out where they are to be, is shown once, with its highest
/// confidence; the symbols are shown from the highest confidence on, and those of one
/// confidence in the order of their ids.
pub proof fn related_symbols_are_the_best(nodes: Seq<NodeView>, no_tests: bool)
    ensures
        ({
            let shown = related(nodes, no_tests);
            let asked = without_tests(nodes, no_tests);
            &&& forall|i: int|
                0 <= i < shown.len() ==> asked.contains(#[trigger] shown[i]) && is_best(
                    shown[i],
                    asked,
                )
            &&& forall|k: int|
                0 <= k < asked.len() ==> exists|i: int|
                    0 <= i < shown.len() && (#[trigger] shown[i]).id == (#[trigger] asked[k]).id
            &&& forall|i: int, j: int|
                #![trigger shown[i], shown[j]]
                0 <= i < j < shown.len() ==> shown[i].id != shown[j].id && confidence_id_lt(
                    shown[i],
                    shown[j],
                )
            &&& forall|node: NodeView| #[trigger]
                asked.contains(node) <==> nodes.contains(node) && !(no_tests && node.is_test)
        }),
{
    let ranked = relation_of::<Node, ByConfidence>(ByConfidence);
    let asked = without_tests(nodes, no_tests);
    let kept = best_of_each(asked);
    let all = related(nodes, no_tests);
    chosen_members(nodes, |node: NodeView| !node.is_test);
    lemma_best_of_each(asked);
    lemma_id_confidence_order();
    sorting_orders_and_keeps(kept, ranked);
    sorting_keeps_members(kept, ranked);
    assert forall|i: int| 0 <= i < all.len() implies asked.contains(#[trigger] all[i]) && is_best(
        all[i],
        asked,
    ) by {
        assert(all.contains(all[i]));
        assert(kept.contains(all[i]));
        let t = choose|t: int| 0 <= t < kept.len() && kept[t] == all[i];
    }
    assert forall|k: int| 0 <= k < asked.len() implies exists|i: int|
        0 <= i < all.len() && (#[trigger] all[i]).id == (#[trigger] asked[k]).id by {
        let t = choose|t: int|
            0 <= t < kept.len() && (#[trigger] kept[t]).id == asked[k].id;
        assert(kept.contains(kept[t]));
        assert(all.contains(kept[t]));
        let i = choose|i: int| 0 <= i < all.len() && all[i] == kept[t];
        assert(all[i].id == asked[k].id);
    }
    lemma_ranked(kept);
}

// ---------------------------------------------------------------------------
// One symbol

/// What a name resolves to.
#[derive(Debug)]
pub struct TargetResolution {
    pub target: Option<Node>,
    pub warnings: Vec<Warning>,
}

/// The symbols that a name may mean: those with that id or full name, or else those
/// with that name, in the files under a prefix.
pub open spec fn meanings(
    nodes: Seq<NodeView>,
    symbol: Seq<char>,
    prefix: Option<Seq<char>>,
) -> Seq<NodeView> {
    under(
        if identified(nodes, symbol).len() > 0 {
            identified(nodes, symbol)
        } else {
            named(nodes, symbol)
        },
        prefix,
    )
}

/// The remark on a name that means several symbols.
pub open spec fn ambiguity(symbol: Seq<char>, matches: int) -> WarningView {
    WarningView {
        code: "ambiguous_symbol"@,
        message: "symbol '"@ + symbol + "' matches "@ + decimal(matches)
            + " indexed definitions; use --in or an ID/qualified name"@,
    }
}

/// A name resolves to a symbol if it means just that one; if it means several, it
/// resolves to none, with a remark.
pub fn resolve_one_node(nodes: &Vec<Node>, symbol: &str, in_path: Option<&str>) -> (resolution:
    TargetResolution)
    ensures
        ({
            let found = meanings(views(nodes@), symbol@, opt_str(in_path));
            match resolution.target {
                Some(node) => found.len() == 1 && node@ == found[0],
                None => found.len() != 1,
            }
        }),
        ({
            let found = meanings(views(nodes@), symbol@, opt_str(in_path));
            views(resolution.warnings@) == if found.len() > 1 {
                seq![ambiguity(symbol@, found.len() as int)]
            } else {
                seq![]
            }
        }),
{
    let ghost all = views(nodes@);
    let by_id = IdentifiedBy { symbol };
    assert(choice_of::<Node, IdentifiedBy>(by_id) =~= (|node: NodeView|
        node.id == symbol@ || node.qualified_name == Some(symbol@)));
    let exact = choose_by(copy_nodes(nodes), &by_id);
    assert(views(exact@) == identified(all, symbol@));
    assert(views(exact@).len() == exact@.len());
    let candidates = if exact.len() > 0 {
        exact
    } else {
        let by_name = NamedBy { name: symbol };
        assert(choice_of::<Node, NamedBy>(by_name) =~= (|node: NodeView| node.name == symbol@));
        choose_by(copy_nodes(nodes), &by_name)
    };
    let mut found = keep_under(candidates, in_path);
    let ghost wanted = meanings(all, symbol@, opt_str(in_path));
    assert(views(found@) == wanted);
    assert(views(found@).len() == found@.len());
    let mut warnings: Vec<Warning> = Vec::new();
    if found.len() == 1 {
        let target = found.pop();
        assert(target->0@ == wanted[0]);
        assert(views(warnings@) =~= seq![]);
        TargetResolution { target, warnings }
    } else {
        if found.len() > 1 {
            let number = count(found.len());
            let subject = join3("symbol '", symbol, "' matches ");
            let message = join3(
                subject.as_str(),
                number.as_str(),
                " indexed definitions; use --in or an ID/qualified name",
            );
            let warning = Warning { code: "ambiguous_symbol", message };
            assert(warning@ =~= ambiguity(symbol@, wanted.len() as int));
            warnings.push(warning);
            assert(views(warnings@) =~= seq![warning@]);
        } else {
            assert(views(warnings@) =~= seq![]);
        }
        TargetResolution { target: None, warnings }
    }
}

/// The symbols that a query for callers, callees or a definition is about: those with
/// that name, or else those with that id or full name.
pub open spec fn subjects(nodes: Seq<NodeView>, symbol: Seq<char>) -> Seq<NodeView> {
    if named(nodes, symbol).len() > 0 {
        named(nodes, symbol)
    } else {
        identified(nodes, symbol)
    }
}

/// The symbols that a query is about, on a line and under a prefix where these are
/// given, without tests where that is asked for.
pub fn query_subjects(
    nodes: &Vec<Node>,
    symbol: &str,
    line: Option<i64>,
    no_tests: bool,
    in_path: Option<&str>,
) -> (found: Vec<Node>)
    ensures
        views(found@) == under(
            without_tests(
                at_line(subjects(views(nodes@), symbol@), opt_int(line)),
                no_tests,
            ),
            opt_str(in_path),
        ),
{
    let ghost all = views(nodes@);
    let by_name = NamedBy { name: symbol };
    assert(choice_of::<Node, NamedBy>(by_name) =~= (|node: NodeView| node.name == symbol@));
    let simple = choose_by(copy_nodes(nodes), &by_name);
    assert(views(simple@) == named(all, symbol@));
    assert(views(simple@).len() == simple@.len());
    let candidates = if simple.len() > 0 {
        simple
    } else {
        let by_id = IdentifiedBy { symbol };
        assert(choice_of::<Node, IdentifiedBy>(by_id) =~= (|node: NodeView|
            node.id == symbol@ || node.qualified_name == Some(symbol@)));
        choose_by(copy_nodes(nodes), &by_id)
    };
    let mut found = keep_at_line(candidates, line);
    retain_non_tests(&mut found, no_tests);
    keep_under(found, in_path)
}

// ---------------------------------------------------------------------------
// Search results

/// How well a name fits a query, both in lower case: as a whole, at its start, within
/// it, or not by its name.
pub open spec fn match_rank(name: Seq<char>, query: Seq<char>) -> int {
    if name == query {
        0
    } else if starts_with(name, query) {
        1
    } else if contains(name, query) {
        2
    } else {
        3
    }
}

/// How well a name fits a query, both in lower case.
pub fn rank_of(name: &str, query: &str) -> (rank: u8)
    ensures
        rank == match_rank(name@, query@),
{
    if same(name, query) {
        0
    } else if begins(name, query) {
        1
    } else if has(name, query) {
        2
    } else {
        3
    }
}

/// The length of a text in bytes.
pub open spec fn byte_length(text: Seq<char>) -> int {
    vstd::utf8::encode_utf8(text).len() as usize as int
}

/// The order of symbols by how well their names fit a query in lower case, then by the
/// length of their names, then by their names.
pub struct ByRelevance<'a> {
    pub query: &'a str,
}

/// One symbol fits a query in lower case better than another.
pub open spec fn fits_better(left: NodeView, right: NodeView, query: Seq<char>) -> bool {
    let first = match_rank(lower_case(left.name), query);
    let second = match_rank(lower_case(right.name), query);
    if first != second {
        first < second
    } else if byte_length(left.name) != byte_length(right.name) {
        byte_length(left.name) < byte_length(right.name)
    } else {
        text_lt(left.name, right.name)
    }
}

impl<'a> Order<Node> for ByRelevance<'a> {
    open spec fn precedes(&self, left: NodeView, right: NodeView) -> bool {
        fits_better(left, right, self.query@)
    }

    fn before(&self, left: &Node, right: &Node) -> (found: bool) {
        let left_name = lowercase(left.name.as_str());
        let right_name = lowercase(right.name.as_str());
        let first: u8 = rank_of(left_name.as_str(), self.query);
        let second: u8 = rank_of(right_name.as_str(), self.query);
        let left_length: usize = left.name.as_str().len();
        let right_length: usize = right.name.as_str().len();
        if first != second {
            first < second
        } else if left_length != right_length {
            left_length < right_length
        } else {
            less(left.name.as_str(), right.name.as_str())
        }
    }

    proof fn is_order(&self) {
        let query = self.query@;
        let rest2 = |l: NodeView, r: NodeView| text_lt(l.name, r.name);
        text_keys_order(rest2, |item: NodeView| item.name);
        let rest1 = |l: NodeView, r: NodeView| if byte_length(l.name) != byte_length(r.name) {
            byte_length(l.name) < byte_length(r.name)
        } else {
            text_lt(l.name, r.name)
        };
        number_first_order(rest1, |item: NodeView| byte_length(item.name), rest2);
        let whole = |left: NodeView, right: NodeView| self.precedes(left, right);
        number_first_order(whole, |item: NodeView| match_rank(lower_case(item.name), query), rest1);
    }
}

/// Search results, the best first.
pub open spec fn ranked(nodes: Seq<NodeView>, query: Seq<char>) -> Seq<NodeView> {
    sorted_by(
        nodes,
        |left: NodeView, right: NodeView| fits_better(left, right, lower_case(query)),
    )
}

/// Search results without tests where that is asked for, the best first and at most
/// `limit` of them, with the number of those left out.
pub fn rank_search_results(nodes: Vec<Node>, query: &str, no_tests: bool, limit: usize) -> (result: (
    Vec<Node>,
    usize,
))
    ensures
        ({
            let all = ranked(without_tests(views(nodes@), no_tests), query@);
            &&& views(result.0@) == if all.len() > limit {
                all.take(limit as int)
            } else {
                all
            }
            &&& result.1 == if all.len() > limit {
                all.len() - limit
            } else {
                0
            }
        }),
{
    let ghost wanted = ranked(without_tests(views(nodes@), no_tests), query@);
    let mut kept = nodes;
    retain_non_tests(&mut kept, no_tests);
    let query_lower = lowercase(query);
    let order = ByRelevance { query: query_lower.as_str() };
    assert(relation_of::<Node, ByRelevance>(order) =~= (|left: NodeView, right: NodeView|
        fits_better(left, right, lower_case(query@))));
    let mut sorted = sort_by(kept, &order);
    assert(views(sorted@) == wanted);
    assert(wanted.len() == sorted@.len());
    let mut more: usize = 0;
    if sorted.len() > limit {
        more = sorted.len() - limit;
        sorted.truncate(limit);
        assert(views(sorted@) =~= wanted.take(limit as int));
    }
    (sorted, more)
}

} // verus!
