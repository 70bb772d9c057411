//! Which tests have to do with a symbol, and how that is known.

use vstd::prelude::*;
use crate::db::{
    confidence_for_kind, label_for_kind, tier_confidence, tier_label, Edge, EdgeView, Node,
    NodeView,
};
use crate::ordered::{
    number_first_order, relation_of, relations_are_orders, sort_by, sorted_by,
    sorting_keeps_members, sorting_orders_and_keeps, text_first_order, text_keys_order, Order,
};
use crate::text::{
    ascii_lower, ascii_lowercase, contains, decimal, has, join, join2, join3, joined,
    lemma_text_lt_irreflexive, lemma_views_push, less, number, same, text_lt, views,
};

verus! {

/// A relation between two symbols, with what it is worth.
#[derive(Debug)]
pub struct RelationshipPath {
    pub relationship: String,
    pub source: Node,
    pub target: Node,
    pub resolution_kind: String,
    pub confidence: i64,
}

/// The content of a [`RelationshipPath`].
#[verifier::ext_equal]
pub struct RelationshipView {
    pub relationship: Seq<char>,
    pub source: NodeView,
    pub target: NodeView,
    pub resolution_kind: Seq<char>,
    pub confidence: int,
}

impl View for RelationshipPath {
    type V = RelationshipView;

    open spec fn view(&self) -> RelationshipView {
        RelationshipView {
            relationship: self.relationship@,
            source: self.source@,
            target: self.target@,
            resolution_kind: self.resolution_kind@,
            confidence: self.confidence as int,
        }
    }
}

/// A test that has to do with a symbol.
#[derive(Debug)]
pub struct TestForItem {
    pub test: Node,
    pub path: Vec<RelationshipPath>,
    pub confidence: i64,
    pub evidence: &'static str,
}

/// The content of a [`TestForItem`].
#[verifier::ext_equal]
pub struct TestForView {
    pub test: NodeView,
    pub path: Seq<RelationshipView>,
    pub confidence: int,
    pub evidence: Seq<char>,
}

impl View for TestForItem {
    type V = TestForView;

    open spec fn view(&self) -> TestForView {
        TestForView {
            test: self.test@,
            path: views(self.path@),
            confidence: self.confidence as int,
            evidence: self.evidence@,
        }
    }
}

// ---------------------------------------------------------------------------
// Evidence

/// The edge is a call from one symbol to another.
pub open spec fn is_call(edge: EdgeView, source: Seq<char>, target: Seq<char>) -> bool {
    edge.source_id == source && edge.target_id == target && edge.kind == "calls"@
}

/// The highest tier of a call from one symbol to another.
pub open spec fn call_tier(edges: Seq<EdgeView>, source: Seq<char>, target: Seq<char>) -> Option<int>
    decreases edges.len(),
{
    if edges.len() == 0 {
        None
    } else {
        let before = call_tier(edges.drop_last(), source, target);
        if is_call(edges.last(), source, target) {
            match before {
                Some(kind) => Some(
                    if edges.last().resolution_kind > kind {
                        edges.last().resolution_kind
                    } else {
                        kind
                    },
                ),
                None => Some(edges.last().resolution_kind),
            }
        } else {
            before
        }
    }
}

/// A symbol other than the target in the target's file that is no test.
pub open spec fn is_sibling(node: NodeView, target: NodeView) -> bool {
    node.file_path == target.file_path && !node.is_test && node.id != target.id
}

/// One of the symbols with this id stands beside the target.
pub open spec fn names_sibling(nodes: Seq<NodeView>, id: Seq<char>, target: NodeView) -> bool {
    exists|i: int|
        0 <= i < nodes.len() && (#[trigger] nodes[i]).id == id && is_sibling(nodes[i], target)
}

/// The test has an edge to a symbol beside the target.
pub open spec fn reaches_sibling(
    edges: Seq<EdgeView>,
    nodes: Seq<NodeView>,
    test: NodeView,
    target: NodeView,
) -> bool {
    exists|e: int|
        0 <= e < edges.len() && (#[trigger] edges[e]).source_id == test.id && names_sibling(
            nodes,
            edges[e].target_id,
            target,
        )
}

/// The name that a symbol goes by.
pub open spec fn known_name(node: NodeView) -> Seq<char> {
    match node.qualified_name {
        Some(name) => name,
        None => node.name,
    }
}

/// The name of the test speaks of the target.
pub open spec fn speaks_of(test: NodeView, target: NodeView) -> bool {
    contains(ascii_lower(known_name(test)), ascii_lower(target.name))
}

/// A test on the strength of one relation.
pub open spec fn item(
    test: NodeView,
    target: NodeView,
    relationship: Seq<char>,
    resolution_kind: Seq<char>,
    confidence: int,
    evidence: Seq<char>,
) -> TestForView {
    TestForView {
        test,
        path: seq![
            RelationshipView { relationship, source: test, target, resolution_kind, confidence },
        ],
        confidence,
        evidence,
    }
}

/// What a test has to do with the target: it calls it, it reaches a symbol beside it, or
/// its name speaks of it; the first that holds counts.
pub open spec fn evidence_for(
    test: NodeView,
    target: NodeView,
    nodes: Seq<NodeView>,
    edges: Seq<EdgeView>,
) -> Option<TestForView> {
    match call_tier(edges, test.id, target.id) {
        Some(kind) => Some(
            item(
                test,
                target,
                "calls"@,
                tier_label(kind),
                tier_confidence(kind),
                "direct_call"@,
            ),
        ),
        None => if reaches_sibling(edges, nodes, test, target) {
            Some(
                item(
                    test,
                    target,
                    "references"@,
                    "same_module_candidate"@,
                    60,
                    "same_module_candidate"@,
                ),
            )
        } else if speaks_of(test, target) {
            Some(item(test, target, "tests"@, "name_heuristic"@, 30, "name_heuristic"@))
        } else {
            None
        },
    }
}

/// The tests among some symbols that have to do with the target. The relations are
/// looked for among all symbols and edges.
pub open spec fn items_for(
    tests: Seq<NodeView>,
    target: NodeView,
    nodes: Seq<NodeView>,
    edges: Seq<EdgeView>,
) -> Seq<TestForView>
    decreases tests.len(),
{
    if tests.len() == 0 {
        seq![]
    } else {
        let before = items_for(tests.drop_last(), target, nodes, edges);
        if tests.last().is_test {
            match evidence_for(tests.last(), target, nodes, edges) {
                Some(found) => before.push(found),
                None => before,
            }
        } else {
            before
        }
    }
}

/// The order of tests from the highest confidence on, then by id, then by evidence.
pub struct ByStrength;

impl Order<TestForItem> for ByStrength {
    open spec fn precedes(&self, left: TestForView, right: TestForView) -> bool {
        if left.confidence != right.confidence {
            left.confidence > right.confidence
        } else if left.test.id != right.test.id {
            text_lt(left.test.id, right.test.id)
        } else {
            text_lt(left.evidence, right.evidence)
        }
    }

    fn before(&self, left: &TestForItem, right: &TestForItem) -> (found: bool) {
        if left.confidence != right.confidence {
            left.confidence > right.confidence
        } else if !same(left.test.id.as_str(), right.test.id.as_str()) {
            less(left.test.id.as_str(), right.test.id.as_str())
        } else {
            less(left.evidence, right.evidence)
        }
    }

    proof fn is_order(&self) {
        let rest2 = |l: TestForView, r: TestForView| text_lt(l.evidence, r.evidence);
        text_keys_order(rest2, |item: TestForView| item.evidence);
        let rest1 = |l: TestForView, r: TestForView| if l.test.id != r.test.id {
            text_lt(l.test.id, r.test.id)
        } else {
            text_lt(l.evidence, r.evidence)
        };
        text_first_order(rest1, |item: TestForView| item.test.id, rest2);
        let whole = |left: TestForView, right: TestForView| self.precedes(left, right);
        number_first_order(whole, |item: TestForView| -item.confidence, rest1);
    }
}

/// The tests that have to do with a symbol, the strongest evidence first.
pub open spec fn tests_for(
    nodes: Seq<NodeView>,
    edges: Seq<EdgeView>,
    target: NodeView,
    no_tests: bool,
) -> Seq<TestForView> {
    if no_tests {
        seq![]
    } else {
        sorted_by(
            items_for(nodes, target, nodes, edges),
            relation_of::<TestForItem, ByStrength>(ByStrength),
        )
    }
}

// ---------------------------------------------------------------------------
// Finding it

fn find_call(edges: &Vec<Edge>, source: &str, target: &str) -> (kind: Option<i64>)
    ensures
        crate::db::opt_int(kind) == call_tier(views(edges@), source@, target@),
{
    let ghost all = views(edges@);
    let mut best: Option<i64> = None;
    let mut i: usize = 0;
    assert(all.take(0) =~= seq![]);
    while i < edges.len()
        invariant
            i <= edges@.len(),
            all == views(edges@),
            crate::db::opt_int(best) == call_tier(all.take(i as int), source@, target@),
        decreases edges@.len() - i,
    {
        let edge = &edges[i];
        proof {
            assert(all.take(i + 1).drop_last() =~= all.take(i as int));
            assert(all.take(i + 1).last() == edge@);
        }
        if same(edge.source_id.as_str(), source) && same(edge.target_id.as_str(), target) && same(
            edge.kind.as_str(),
            "calls",
        ) {
            best = match best {
                Some(kind) => {
                    if edge.resolution_kind > kind {
                        Some(edge.resolution_kind)
                    } else {
                        Some(kind)
                    }
                },
                None => Some(edge.resolution_kind),
            };
        }
        i = i + 1;
    }
    assert(all.take(i as int) =~= all);
    best
}

fn stands_beside(nodes: &Vec<Node>, id: &str, target: &Node) -> (found: bool)
    ensures
        found == names_sibling(views(nodes@), id@, target@),
{
    let ghost all = views(nodes@);
    let mut i: usize = 0;
    while i < nodes.len()
        invariant
            i <= nodes@.len(),
            all == views(nodes@),
            forall|k: int|
                0 <= k < i ==> !((#[trigger] all[k]).id == id@ && is_sibling(all[k], target@)),
        decreases nodes@.len() - i,
    {
        let node = &nodes[i];
        assert(all[i as int] == node@);
        if same(node.id.as_str(), id) && !node.is_test && same(
            node.file_path.as_str(),
            target.file_path.as_str(),
        ) && !same(node.id.as_str(), target.id.as_str()) {
            return true;
        }
        i = i + 1;
    }
    false
}

fn calls_beside(edges: &Vec<Edge>, nodes: &Vec<Node>, test: &Node, target: &Node) -> (found: bool)
    ensures
        found == reaches_sibling(views(edges@), views(nodes@), test@, target@),
{
    let ghost all = views(edges@);
    let mut i: usize = 0;
    while i < edges.len()
        invariant
            i <= edges@.len(),
            all == views(edges@),
            forall|k: int|
                0 <= k < i ==> !((#[trigger] all[k]).source_id == test@.id && names_sibling(
                    views(nodes@),
                    all[k].target_id,
                    target@,
                )),
        decreases edges@.len() - i,
    {
        let edge = &edges[i];
        assert(all[i as int] == edge@);
        if same(edge.source_id.as_str(), test.id.as_str()) && stands_beside(
            nodes,
            edge.target_id.as_str(),
            target,
        ) {
            return true;
        }
        i = i + 1;
    }
    false
}

fn one_relation(
    test: &Node,
    target: &Node,
    relationship: &str,
    resolution_kind: &str,
    confidence: i64,
    evidence: &'static str,
) -> (found: TestForItem)
    ensures
        found@ == item(
            test@,
            target@,
            relationship@,
            resolution_kind@,
            confidence as int,
            evidence@,
        ),
{
    let mut path: Vec<RelationshipPath> = Vec::new();
    path.push(
        RelationshipPath {
            relationship: relationship.to_string(),
            source: test.clone(),
            target: target.clone(),
            resolution_kind: resolution_kind.to_string(),
            confidence,
        },
    );
    let found = TestForItem { test: test.clone(), path, confidence, evidence };
    assert(found@ =~= item(
        test@,
        target@,
        relationship@,
        resolution_kind@,
        confidence as int,
        evidence@,
    ));
    found
}

/// The content of an optional item.
pub open spec fn opt_item(found: Option<TestForItem>) -> Option<TestForView> {
    match found {
        Some(found) => Some(found@),
        None => None,
    }
}

fn find_evidence(test: &Node, target: &Node, nodes: &Vec<Node>, edges: &Vec<Edge>) -> (found: Option<
    TestForItem,
>)
    ensures
        opt_item(found) == evidence_for(test@, target@, views(nodes@), views(edges@)),
{
    match find_call(edges, test.id.as_str(), target.id.as_str()) {
        Some(kind) => Some(
            one_relation(
                test,
                target,
                "calls",
                label_for_kind(kind),
                confidence_for_kind(kind),
                "direct_call",
            ),
        ),
        None => {
            if calls_beside(edges, nodes, test, target) {
                return Some(
                    one_relation(
                        test,
                        target,
                        "references",
                        "same_module_candidate",
                        60,
                        "same_module_candidate",
                    ),
                );
            }
            let name = match &test.qualified_name {
                Some(name) => ascii_lowercase(name.as_str()),
                None => ascii_lowercase(test.name.as_str()),
            };
            let wanted = ascii_lowercase(target.name.as_str());
            if has(name.as_str(), wanted.as_str()) {
                Some(
                    one_relation(test, target, "tests", "name_heuristic", 30, "name_heuristic"),
                )
            } else {
                None
            }
        },
    }
}

/// The tests among the symbols that have to do with the target, the strongest evidence
/// first.
pub fn collect_tests_for(nodes: &Vec<Node>, edges: &Vec<Edge>, target: &Node, no_tests: bool) -> (items:
    Vec<TestForItem>)
    ensures
        views(items@) == tests_for(views(nodes@), views(edges@), target@, no_tests),
{
    let ghost all = views(nodes@);
    let mut items: Vec<TestForItem> = Vec::new();
    assert(views(items@) =~= seq![]);
    if no_tests {
        return items;
    }
    let mut i: usize = 0;
    assert(all.take(0) =~= seq![]);
    while i < nodes.len()
        invariant
            i <= nodes@.len(),
            all == views(nodes@),
            views(items@) == items_for(all.take(i as int), target@, all, views(edges@)),
        decreases nodes@.len() - i,
    {
        let node = &nodes[i];
        proof {
            assert(all.take(i + 1).drop_last() =~= all.take(i as int));
            assert(all.take(i + 1).last() == node@);
        }
        if node.is_test {
            if let Some(found) = find_evidence(node, target, nodes, edges) {
                proof {
                    lemma_views_push(items@, found);
                }
                items.push(found);
            }
        }
        i = i + 1;
    }
    assert(all.take(i as int) =~= all);
    sort_by(items, &ByStrength)
}

/// Keeps at most `limit` tests, and says whether any was left out.
pub fn limit_tests(items: &mut Vec<TestForItem>, limit: usize) -> (truncated: bool)
    ensures
        truncated == (views(old(items)@).len() > limit),
        views(final(items)@) == if views(old(items)@).len() > limit {
            views(old(items)@).take(limit as int)
        } else {
            views(old(items)@)
        },
{
    let ghost start = items@;
    assert(views(start).len() == start.len());
    let truncated = items.len() > limit;
    if truncated {
        items.truncate(limit);
        assert(views(items@) =~= views(start).take(limit as int));
    }
    truncated
}

/// The line that shows a test.
pub open spec fn item_line(found: TestForView) -> Seq<char> {
    "- "@ + found.test.id + " ["@ + found.evidence + "; confidence: "@ + decimal(found.confidence)
        + "]: "@ + joined(
        found.path.map_values(|step: RelationshipView| step.source.id + " -> "@ + step.target.id),
        "; "@,
    )
}

/// The line that shows a test.
pub fn show_test(found: &TestForItem) -> (line: String)
    ensures
        line@ == item_line(found@),
{
    let ghost wanted = found@.path.map_values(
        |step: RelationshipView| step.source.id + " -> "@ + step.target.id,
    );
    let mut steps: Vec<String> = Vec::new();
    let mut i: usize = 0;
    assert(views(steps@) =~= wanted.take(0));
    while i < found.path.len()
        invariant
            i <= found.path@.len(),
            wanted == views(found.path@).map_values(
                |step: RelationshipView| step.source.id + " -> "@ + step.target.id,
            ),
            views(steps@) == wanted.take(i as int),
        decreases found.path@.len() - i,
    {
        let step = &found.path[i];
        let text = join3(step.source.id.as_str(), " -> ", step.target.id.as_str());
        proof {
            lemma_views_push(steps@, text);
            assert(wanted[i as int] == text@);
            assert(wanted.take(i + 1) =~= wanted.take(i as int).push(text@));
        }
        steps.push(text);
        i = i + 1;
    }
    assert(wanted.take(i as int) =~= wanted);
    let path = join(&steps, "; ");
    let confidence = number(found.confidence);
    let head = join3("- ", found.test.id.as_str(), " [");
    let kind = join3(head.as_str(), found.evidence, "; confidence: ");
    let worth = join3(kind.as_str(), confidence.as_str(), "]: ");
    join2(worth.as_str(), path.as_str())
}

// ---------------------------------------------------------------------------
// Laws

/// What is claimed of a test: it is one, its evidence holds, and only a call counts for
/// more than a candidate.
pub open spec fn justified(
    found: TestForView,
    nodes: Seq<NodeView>,
    edges: Seq<EdgeView>,
    target: NodeView,
) -> bool {
    &&& nodes.contains(found.test) && found.test.is_test
    &&& evidence_for(found.test, target, nodes, edges) == Some(found)
    &&& found.path.len() == 1 && found.path[0].source == found.test && found.path[0].target
        == target
    &&& call_tier(edges, found.test.id, target.id) is None ==> found.confidence <= 60
}

proof fn lemma_items_justified(
    tests: Seq<NodeView>,
    target: NodeView,
    nodes: Seq<NodeView>,
    edges: Seq<EdgeView>,
)
    requires
        forall|i: int| 0 <= i < tests.len() ==> nodes.contains(#[trigger] tests[i]),
    ensures
        forall|k: int|
            0 <= k < items_for(tests, target, nodes, edges).len() ==> justified(
                #[trigger] items_for(tests, target, nodes, edges)[k],
                nodes,
                edges,
                target,
            ),
        forall|i: int|
            0 <= i < tests.len() && (#[trigger] tests[i]).is_test && evidence_for(
                tests[i],
                target,
                nodes,
                edges,
            ) is Some ==> items_for(tests, target, nodes, edges).contains(
                evidence_for(tests[i], target, nodes, edges)->0,
            ),
    decreases tests.len(),
{
    if tests.len() > 0 {
        let front = tests.drop_last();
        let last = tests.last();
        let inner = items_for(front, target, nodes, edges);
        let all = items_for(tests, target, nodes, edges);
        assert forall|i: int| 0 <= i < front.len() implies nodes.contains(#[trigger] front[i]) by {
            assert(front[i] == tests[i]);
        }
        lemma_items_justified(front, target, nodes, edges);
        assert(nodes.contains(tests[tests.len() - 1]));
        assert forall|k: int| 0 <= k < all.len() implies justified(
            #[trigger] all[k],
            nodes,
            edges,
            target,
        ) by {
            if k < inner.len() {
                assert(all[k] == inner[k]);
            }
        }
        assert forall|i: int|
            0 <= i < tests.len() && (#[trigger] tests[i]).is_test && evidence_for(
                tests[i],
                target,
                nodes,
                edges,
            ) is Some implies all.contains(evidence_for(tests[i], target, nodes, edges)->0) by {
            let found = evidence_for(tests[i], target, nodes, edges)->0;
            if i < front.len() {
                assert(front[i] == tests[i]);
                assert(inner.contains(found));
                let k = choose|k: int| 0 <= k < inner.len() && inner[k] == found;
                assert(all[k] == found);
            } else {
                assert(all[inner.len() as int] == found);
            }
        }
    }
}

/// Every test that is listed is justified, every test for which there is evidence is
/// listed, and stronger evidence comes first.
pub proof fn listed_tests_are_justified(
    nodes: Seq<NodeView>,
    edges: Seq<EdgeView>,
    target: NodeView,
)
    ensures
        forall|k: int|
            0 <= k < tests_for(nodes, edges, target, false).len() ==> justified(
                #[trigger] tests_for(nodes, edges, target, false)[k],
                nodes,
                edges,
                target,
            ),
        forall|i: int|
            0 <= i < nodes.len() && (#[trigger] nodes[i]).is_test && evidence_for(
                nodes[i],
                target,
                nodes,
                edges,
            ) is Some ==> tests_for(nodes, edges, target, false).contains(
                evidence_for(nodes[i], target, nodes, edges)->0,
            ),
        forall|i: int, j: int|
            #![trigger tests_for(nodes, edges, target, false)[i], tests_for(nodes, edges, target, false)[j]]
            0 <= i < j < tests_for(nodes, edges, target, false).len() ==> tests_for(
                nodes,
                edges,
                target,
                false,
            )[i].confidence >= tests_for(nodes, edges, target, false)[j].confidence,
        tests_for(nodes, edges, target, true).len() == 0,
{
    let precedes = relation_of::<TestForItem, ByStrength>(ByStrength);
    let items = items_for(nodes, target, nodes, edges);
    let all = tests_for(nodes, edges, target, false);
    lemma_items_justified(nodes, target, nodes, edges);
    sorting_keeps_members(items, precedes);
    relations_are_orders::<TestForItem, ByStrength>(ByStrength);
    sorting_orders_and_keeps(items, precedes);
    assert forall|i: int, j: int|
        #![trigger all[i], all[j]]
        0 <= i < j < all.len() implies all[i].confidence >= all[j].confidence by {
        assert(!precedes(all[j], all[i]));
    }
    assert forall|k: int| 0 <= k < all.len() implies justified(
        #[trigger] all[k],
        nodes,
        edges,
        target,
    ) by {
        assert(all.contains(all[k]));
        assert(items.contains(all[k]));
        let t = choose|t: int| 0 <= t < items.len() && items[t] == all[k];
        assert(justified(items[t], nodes, edges, target));
    }
}

// ---------------------------------------------------------------------------
// Which tests are listed, and why

/// An edge of kind `calls` leads from the one symbol to the other.
pub open spec fn some_call(edges: Seq<EdgeView>, source: Seq<char>, target: Seq<char>) -> bool {
    exists|e: int|
        0 <= e < edges.len() && (#[trigger] edges[e]).source_id == source && edges[e].target_id
            == target && edges[e].kind == "calls"@
}

/// An edge of whatever kind leads from the test to another symbol of the target's file,
/// which is no test itself.
pub open spec fn some_neighbour(
    edges: Seq<EdgeView>,
    nodes: Seq<NodeView>,
    test: NodeView,
    target: NodeView,
) -> bool {
    exists|e: int, n: int|
        0 <= e < edges.len() && 0 <= n < nodes.len() && (#[trigger] edges[e]).source_id == test.id
            && edges[e].target_id == (#[trigger] nodes[n]).id && nodes[n].file_path
            == target.file_path && nodes[n].id != target.id && !nodes[n].is_test
}

/// The target's name stands in the test's name, in whatever case.
pub open spec fn names_target(test: NodeView, target: NodeView) -> bool {
    match test.qualified_name {
        Some(name) => stands_in(name, target.name),
        None => stands_in(test.name, target.name),
    }
}

/// A name stands in another, in whatever case.
pub open spec fn stands_in(own: Seq<char>, name: Seq<char>) -> bool {
    exists|at: int|
        0 <= at && at + name.len() <= own.len() && #[trigger] stands_at(own, name, at)
}

/// A name stands in another at a position, letter by letter but for the case of ASCII
/// letters.
pub open spec fn stands_at(own: Seq<char>, name: Seq<char>, at: int) -> bool {
    forall|j: int|
        0 <= j < name.len() ==> (#[trigger] name[j] == own[at + j] || ('A' <= name[j] <= 'Z'
            && own[at + j] as int == name[j] as int + 32) || ('A' <= own[at + j] <= 'Z'
            && name[j] as int == own[at + j] as int + 32))
}

/// The list has a test with an evidence and a confidence, by a path of one step from the
/// test to the target.
pub open spec fn lists_test(
    items: Seq<TestForView>,
    test: NodeView,
    target: NodeView,
    evidence: Seq<char>,
    confidence: int,
) -> bool {
    exists|i: int|
        0 <= i < items.len() && (#[trigger] items[i]).test == test && items[i].evidence == evidence
            && items[i].confidence == confidence && items[i].path.len() == 1
            && items[i].path[0].source == test && items[i].path[0].target == target
            && items[i].path[0].confidence == confidence
}

proof fn lemma_call_tier(edges: Seq<EdgeView>, source: Seq<char>, target: Seq<char>)
    ensures
        call_tier(edges, source, target) is Some <==> some_call(edges, source, target),
        call_tier(edges, source, target) matches Some(kind) ==> {
            &&& exists|e: int|
                0 <= e < edges.len() && (#[trigger] edges[e]).source_id == source
                    && edges[e].target_id == target && edges[e].kind == "calls"@
                    && edges[e].resolution_kind == kind
            &&& forall|e: int|
                0 <= e < edges.len() && (#[trigger] edges[e]).source_id == source
                    && edges[e].target_id == target && edges[e].kind == "calls"@
                    ==> edges[e].resolution_kind <= kind
        },
    decreases edges.len(),
{
    if edges.len() > 0 {
        let front = edges.drop_last();
        let last = edges.last();
        lemma_call_tier(front, source, target);
        assert(edges[edges.len() - 1] == last);
        if call_tier(front, source, target) is Some {
            let e = choose|e: int|
                0 <= e < front.len() && (#[trigger] front[e]).source_id == source
                    && front[e].target_id == target && front[e].kind == "calls"@
                    && front[e].resolution_kind == call_tier(front, source, target)->0;
            assert(edges[e] == front[e]);
        }
        if some_call(edges, source, target) {
            let e = choose|e: int|
                0 <= e < edges.len() && (#[trigger] edges[e]).source_id == source
                    && edges[e].target_id == target && edges[e].kind == "calls"@;
            if e < front.len() {
                assert(front[e] == edges[e]);
            }
        }
        if let Some(kind) = call_tier(edges, source, target) {
            assert forall|e: int| 0 <= e < edges.len() && (#[trigger] edges[e]).source_id == source
                && edges[e].target_id == target && edges[e].kind
                == "calls"@ implies edges[e].resolution_kind <= kind by {
                if e < front.len() {
                    assert(front[e] == edges[e]);
                }
            }
        }
    }
}

proof fn lemma_neighbour(
    edges: Seq<EdgeView>,
    nodes: Seq<NodeView>,
    test: NodeView,
    target: NodeView,
)
    ensures
        reaches_sibling(edges, nodes, test, target) <==> some_neighbour(
            edges,
            nodes,
            test,
            target,
        ),
{
    if reaches_sibling(edges, nodes, test, target) {
        let e = choose|e: int|
            0 <= e < edges.len() && (#[trigger] edges[e]).source_id == test.id && names_sibling(
                nodes,
                edges[e].target_id,
                target,
            );
        let n = choose|n: int|
            0 <= n < nodes.len() && (#[trigger] nodes[n]).id == edges[e].target_id && is_sibling(
                nodes[n],
                target,
            );
        assert(edges[e].target_id == nodes[n].id);
    }
    if some_neighbour(edges, nodes, test, target) {
        let (e, n) = choose|e: int, n: int|
            0 <= e < edges.len() && 0 <= n < nodes.len() && (#[trigger] edges[e]).source_id
                == test.id && edges[e].target_id == (#[trigger] nodes[n]).id && nodes[n].file_path
                == target.file_path && nodes[n].id != target.id && !nodes[n].is_test;
        assert(is_sibling(nodes[n], target));
        assert(names_sibling(nodes, edges[e].target_id, target));
    }
}

proof fn lemma_names_target(test: NodeView, target: NodeView)
    ensures
        speaks_of(test, target) <==> names_target(test, target),
{
    let own = known_name(test);
    let name = target.name;
    let low_own = ascii_lower(own);
    let low_name = ascii_lower(name);
    assert(low_own.len() == own.len() && low_name.len() == name.len());
    if speaks_of(test, target) {
        let at = choose|at: int| crate::text::occurs_at(low_own, low_name, at);
        assert forall|j: int| 0 <= j < name.len() implies (#[trigger] name[j] == own[at + j] || (
        'A' <= name[j] <= 'Z' && own[at + j] as int == name[j] as int + 32) || ('A' <= own[at + j]
            <= 'Z' && name[j] as int == own[at + j] as int + 32)) by {
            assert(low_own.subrange(at, at + low_name.len())[j] == low_name[j]);
            assert(low_own[at + j] == crate::text::ascii_lower_char(own[at + j]));
            assert(low_name[j] == crate::text::ascii_lower_char(name[j]));
        }
        assert(stands_at(own, name, at));
        assert(0 <= at && at + name.len() <= own.len());
        assert(names_target(test, target));
    }
    if names_target(test, target) {
        let at = choose|at: int|
            0 <= at && at + name.len() <= own.len() && #[trigger] stands_at(own, name, at);
        assert forall|j: int| 0 <= j < name.len() implies low_own.subrange(
            at,
            at + low_name.len(),
        )[j] == low_name[j] by {
            assert(name[j] == name[j]);
            assert(low_own[at + j] == crate::text::ascii_lower_char(own[at + j]));
            assert(low_name[j] == crate::text::ascii_lower_char(name[j]));
        }
        assert(low_own.subrange(at, at + low_name.len()) =~= low_name);
        assert(crate::text::occurs_at(low_own, low_name, at));
        assert(contains(low_own, low_name));
        assert(speaks_of(test, target));
    }
}

/// Every test that calls the target is listed as calling it, whatever the tier of the call,
/// at the confidence of its most certain call. A test that does not, but that has to do with
/// another symbol of the target's file, is listed as a candidate at 60; one whose name holds
/// the target's name as a guess at 30; and any other test is not listed.
pub proof fn tests_are_listed_by_their_evidence(
    nodes: Seq<NodeView>,
    edges: Seq<EdgeView>,
    target: NodeView,
    t: int,
)
    requires
        0 <= t < nodes.len(),
        nodes[t].is_test,
    ensures
        ({
            let items = tests_for(nodes, edges, target, false);
            let test = nodes[t];
            let calls = some_call(edges, test.id, target.id);
            let near = some_neighbour(edges, nodes, test, target);
            let named = names_target(test, target);
            &&& calls ==> exists|e: int|
                0 <= e < edges.len() && (#[trigger] edges[e]).source_id == test.id
                    && edges[e].target_id == target.id && edges[e].kind == "calls"@ && lists_test(
                    items,
                    test,
                    target,
                    "direct_call"@,
                    tier_confidence(edges[e].resolution_kind),
                ) && forall|o: int|
                    0 <= o < edges.len() && (#[trigger] edges[o]).source_id == test.id
                        && edges[o].target_id == target.id && edges[o].kind == "calls"@
                        ==> edges[o].resolution_kind <= edges[e].resolution_kind
            &&& !calls && near ==> lists_test(items, test, target, "same_module_candidate"@, 60)
            &&& !calls && !near && named ==> lists_test(
                items,
                test,
                target,
                "name_heuristic"@,
                30,
            )
            &&& !calls && !near && !named ==> forall|i: int|
                0 <= i < items.len() ==> (#[trigger] items[i]).test != test
        }),
{
    let items = tests_for(nodes, edges, target, false);
    let test = nodes[t];
    listed_tests_are_justified(nodes, edges, target);
    lemma_call_tier(edges, test.id, target.id);
    lemma_neighbour(edges, nodes, test, target);
    lemma_names_target(test, target);
    if let Some(found) = evidence_for(test, target, nodes, edges) {
        assert(items.contains(found));
        let i = choose|i: int| 0 <= i < items.len() && items[i] == found;
        assert(lists_test(items, test, target, found.evidence, found.confidence)) by {
            assert(items[i].test == test && items[i].path.len() == 1);
        }
    }
    if let Some(kind) = call_tier(edges, test.id, target.id) {
        let e = choose|e: int|
            0 <= e < edges.len() && (#[trigger] edges[e]).source_id == test.id
                && edges[e].target_id == target.id && edges[e].kind == "calls"@
                && edges[e].resolution_kind == kind;
        assert(lists_test(
            items,
            test,
            target,
            "direct_call"@,
            tier_confidence(edges[e].resolution_kind),
        ));
        assert(edges[e].source_id == test.id && edges[e].target_id == target.id);
    }
    if evidence_for(test, target, nodes, edges) is None {
        assert forall|i: int| 0 <= i < items.len() implies (#[trigger] items[i]).test != test by {
            assert(justified(items[i], nodes, edges, target));
        }
    }
}

/// A test with a call of whatever tier to the target is listed for it, and among the tiers
/// of ordinary resolution with at least that tier's confidence.
pub proof fn every_call_from_a_test_counts(
    nodes: Seq<NodeView>,
    edges: Seq<EdgeView>,
    target: NodeView,
    t: int,
    e: int,
)
    requires
        0 <= t < nodes.len(),
        nodes[t].is_test,
        0 <= e < edges.len(),
        edges[e].source_id == nodes[t].id,
        edges[e].target_id == target.id,
        edges[e].kind == "calls"@,
        forall|o: int|
            0 <= o < edges.len() ==> 0 <= (#[trigger] edges[o]).resolution_kind <= 5,
    ensures
        ({
            let items = tests_for(nodes, edges, target, false);
            exists|i: int|
                0 <= i < items.len() && (#[trigger] items[i]).test == nodes[t]
                    && items[i].evidence == "direct_call"@ && items[i].confidence >= {
                    let kind = edges[e].resolution_kind;
                    if kind == 5 {
                        100int
                    } else if kind == 4 {
                        90
                    } else if kind == 3 || kind == 2 {
                        80
                    } else if kind == 1 {
                        60
                    } else {
                        30
                    }
                }
        }),
{
    let items = tests_for(nodes, edges, target, false);
    let test = nodes[t];
    tests_are_listed_by_their_evidence(nodes, edges, target, t);
    assert(some_call(edges, test.id, target.id));
    let b = choose|b: int|
        0 <= b < edges.len() && (#[trigger] edges[b]).source_id == test.id && edges[b].target_id
            == target.id && edges[b].kind == "calls"@ && lists_test(
            items,
            test,
            target,
            "direct_call"@,
            tier_confidence(edges[b].resolution_kind),
        ) && forall|o: int|
            0 <= o < edges.len() && (#[trigger] edges[o]).source_id == test.id
                && edges[o].target_id == target.id && edges[o].kind == "calls"@
                ==> edges[o].resolution_kind <= edges[b].resolution_kind;
    assert(edges[e].resolution_kind <= edges[b].resolution_kind);
    assert(edges[b].resolution_kind <= 5);
    crate::db::tiers_have_their_names_and_confidences(0);
    let i = choose|i: int|
        0 <= i < items.len() && (#[trigger] items[i]).test == test && items[i].evidence
            == "direct_call"@ && items[i].confidence == tier_confidence(edges[b].resolution_kind)
            && items[i].path.len() == 1 && items[i].path[0].source == test
            && items[i].path[0].target == target && items[i].path[0].confidence
            == tier_confidence(edges[b].resolution_kind);
    assert(items[i].test == nodes[t]);
}

/// Only tests are listed, the most certain first and those of one confidence by id; where
/// tests are left out, none is.
pub proof fn only_tests_are_listed(nodes: Seq<NodeView>, edges: Seq<EdgeView>, target: NodeView)
    ensures
        ({
            let items = tests_for(nodes, edges, target, false);
            &&& forall|i: int|
                0 <= i < items.len() ==> nodes.contains((#[trigger] items[i]).test)
                    && items[i].test.is_test
            &&& forall|i: int, j: int|
                #![trigger items[i], items[j]]
                0 <= i < j < items.len() ==> items[i].confidence > items[j].confidence || (
                items[i].confidence == items[j].confidence && !text_lt(
                    items[j].test.id,
                    items[i].test.id,
                ))
        }),
        tests_for(nodes, edges, target, true).len() == 0,
{
    let items = tests_for(nodes, edges, target, false);
    let precedes = relation_of::<TestForItem, ByStrength>(ByStrength);
    listed_tests_are_justified(nodes, edges, target);
    relations_are_orders::<TestForItem, ByStrength>(ByStrength);
    sorting_orders_and_keeps(items_for(nodes, target, nodes, edges), precedes);
    assert forall|i: int| 0 <= i < items.len() implies nodes.contains((#[trigger] items[i]).test)
        && items[i].test.is_test by {
        assert(justified(items[i], nodes, edges, target));
    }
    assert forall|i: int, j: int|
        #![trigger items[i], items[j]]
        0 <= i < j < items.len() implies items[i].confidence > items[j].confidence || (
    items[i].confidence == items[j].confidence && !text_lt(
        items[j].test.id,
        items[i].test.id,
    )) by {
        assert(!precedes(items[j], items[i]));
        crate::text::lemma_text_lt_irreflexive(items[i].test.id);
    }
}

/// The tests are listed from the highest confidence on, and of one confidence by their ids.
pub proof fn stronger_tests_come_first(
    nodes: Seq<NodeView>,
    edges: Seq<EdgeView>,
    target: NodeView,
    i: int,
    j: int,
)
    requires
        0 <= i < j < tests_for(nodes, edges, target, false).len(),
    ensures
        ({
            let first = tests_for(nodes, edges, target, false)[i];
            let second = tests_for(nodes, edges, target, false)[j];
            &&& first.confidence >= second.confidence
            &&& first.confidence == second.confidence ==> !text_lt(second.test.id, first.test.id)
        }),
        tests_for(nodes, edges, target, true).len() == 0,
{
    let precedes = relation_of::<TestForItem, ByStrength>(ByStrength);
    relations_are_orders::<TestForItem, ByStrength>(ByStrength);
    sorting_orders_and_keeps(items_for(nodes, target, nodes, edges), precedes);
    let found = tests_for(nodes, edges, target, false);
    assert(!precedes(found[j], found[i]));
    lemma_text_lt_irreflexive(found[i].test.id);
}

} // verus!
