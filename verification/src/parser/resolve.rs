//! Resolving call sites into edges against the project-wide symbol index.
//!
//! A call is tried against a sequence of criteria, from the most to the least
//! certain. Each but the same-file one resolves the call only where exactly one
//! candidate meets it, so that an ambiguous name never yields a guess. A relation
//! that a framework makes with a target known by its qualified name leads to that
//! target alone.

pub mod laws;

use vstd::prelude::*;
use crate::db::{
    Edge, EdgeView, Node, NodeView, RawCall, RawCallView, UnresolvedRef, UnresolvedRefView,
};
use crate::parser::edge_order::{
    best_kinds, canonical_edges, canonical_form_is_unique, is_canonical, key_of,
    lemma_ascending_kinds, EdgeKey,
};
use crate::parser::interner::{
    handles_within, index_of_nodes, symbol_text, IndexView, SymbolCandidate, SymbolIndex,
    SymbolText,
};
use crate::parser::tables::{candidates_named, listed, name_entries, CandidateList, SymbolIx};
use crate::text::{
    after_last, before_first, chars_of, cut_last, ends, ends_with, first_part, join2, join3,
    last_part, lemma_views_push, opt_text, parts_of, rsplit_once, same, split, string_of, views,
};

verus! {

// ---------------------------------------------------------------------------
// The criteria

/// The qualified name is `hint` with `.` for `::`, followed by the simple name.
pub open spec fn exact_qualified(
    qualified_name: Seq<char>,
    hint: Seq<char>,
    simple_name: Seq<char>,
) -> bool {
    let tail = "::"@ + simple_name;
    ends_with(qualified_name, tail) && split(
        qualified_name.take(qualified_name.len() - tail.len()),
        "::"@,
    ) == split(hint, "."@)
}

/// The scope of the qualified name is the receiver's type, or ends with it.
pub open spec fn owner_matches(qualified_name: Seq<char>, receiver_type: Seq<char>) -> bool {
    match rsplit_once(qualified_name, "::"@) {
        Some((owner, _)) => owner == receiver_type || ends_with(owner, "::"@ + receiver_type),
        None => false,
    }
}

/// A character of a path stands for one of an import: a dot may be a separator, and
/// either separator the other.
pub open spec fn import_char_matches(path_char: char, hint_char: char) -> bool {
    if hint_char == '.' {
        path_char == '.' || path_char == '/' || path_char == '\\'
    } else if hint_char == '/' || hint_char == '\\' {
        path_char == '/' || path_char == '\\'
    } else {
        path_char == hint_char
    }
}

/// The import stands in the path at position `at`.
pub open spec fn import_at(path: Seq<char>, hint: Seq<char>, at: int) -> bool {
    &&& 0 <= at
    &&& at + hint.len() <= path.len()
    &&& forall|j: int|
        0 <= j < hint.len() ==> import_char_matches(path[at + j], #[trigger] hint[j])
}

/// The import stands somewhere in the path.
pub open spec fn import_matches(path: Seq<char>, hint: Seq<char>) -> bool {
    exists|at: int| import_at(path, hint, at)
}

/// The qualified name ends with the namespace and the simple name.
pub open spec fn ends_with_scope(
    qualified_name: Seq<char>,
    namespace: Seq<char>,
    simple_name: Seq<char>,
) -> bool {
    ends_with(qualified_name, namespace + "::"@ + simple_name)
}

/// The first part of the qualified name is the package.
pub open spec fn package_matches(qualified_name: Seq<char>, package: Seq<char>) -> bool {
    before_first(qualified_name, "::"@) == package
}

/// Whether the qualified name is the import followed by the simple name.
pub fn matches_exact_qualified(qualified_name: &str, hint: &str, simple_name: &str) -> (found: bool)
    ensures
        found == exact_qualified(qualified_name@, hint@, simple_name@),
{
    proof {
        reveal_strlit("::");
        reveal_strlit(".");
    }
    let tail = join2("::", simple_name);
    if !ends(qualified_name, tail.as_str()) {
        return false;
    }
    let chars = chars_of(qualified_name);
    let tail_chars = chars_of(tail.as_str());
    let owner = string_of(&chars, 0, chars.len() - tail_chars.len());
    assert(owner@ =~= qualified_name@.take(qualified_name@.len() - tail@.len()));
    let owner_parts = parts_of(owner.as_str(), "::");
    let hint_parts = parts_of(hint, ".");
    same_parts(&owner_parts, &hint_parts)
}

fn same_parts(left: &Vec<String>, right: &Vec<String>) -> (equal: bool)
    ensures
        equal == (views(left@) == views(right@)),
{
    if left.len() != right.len() {
        assert(views(left@).len() != views(right@).len());
        return false;
    }
    let mut i: usize = 0;
    while i < left.len()
        invariant
            i <= left@.len(),
            left@.len() == right@.len(),
            forall|j: int| 0 <= j < i ==> views(left@)[j] == views(right@)[j],
        decreases left@.len() - i,
    {
        if !same(left[i].as_str(), right[i].as_str()) {
            assert(views(left@)[i as int] != views(right@)[i as int]);
            return false;
        }
        i = i + 1;
    }
    assert(views(left@) =~= views(right@));
    true
}

/// Whether the scope of the qualified name is the receiver's type.
pub fn candidate_owner_matches(qualified_name: &str, receiver_type: &str) -> (found: bool)
    ensures
        found == owner_matches(qualified_name@, receiver_type@),
{
    match cut_last(qualified_name, "::") {
        Some((owner, _)) => {
            same(owner.as_str(), receiver_type) || ends(
                owner.as_str(),
                join2("::", receiver_type).as_str(),
            )
        },
        None => false,
    }
}

fn import_char(path_char: char, hint_char: char) -> (found: bool)
    ensures
        found == import_char_matches(path_char, hint_char),
{
    if hint_char == '.' {
        path_char == '.' || path_char == '/' || path_char == '\\'
    } else if hint_char == '/' || hint_char == '\\' {
        path_char == '/' || path_char == '\\'
    } else {
        path_char == hint_char
    }
}

fn import_stands_at(path: &Vec<char>, hint: &Vec<char>, at: usize) -> (found: bool)
    requires
        at + hint@.len() <= path@.len(),
    ensures
        found == import_at(path@, hint@, at as int),
{
    let mut j: usize = 0;
    assert(at + hint.len() <= path.len());
    while j < hint.len()
        invariant
            j <= hint@.len(),
            at + hint.len() <= path.len(),
            forall|k: int|
                0 <= k < j ==> import_char_matches(path@[at + k], #[trigger] hint@[k]),
        decreases hint@.len() - j,
    {
        if !import_char(path[at + j], hint[j]) {
            assert(!import_char_matches(path@[at + j], hint@[j as int]));
            return false;
        }
        j = j + 1;
    }
    true
}

/// Whether the import stands somewhere in the path.
pub fn matches_import_hint(candidate_file_path: &str, import_hint: &str) -> (found: bool)
    ensures
        found == import_matches(candidate_file_path@, import_hint@),
{
    let path = chars_of(candidate_file_path);
    let hint = chars_of(import_hint);
    if path.len() < hint.len() {
        return false;
    }
    let last: usize = path.len() - hint.len();
    let mut at: usize = 0;
    loop
        invariant
            path@ == candidate_file_path@,
            hint@ == import_hint@,
            last + hint@.len() == path@.len(),
            at <= last,
            forall|i: int| 0 <= i < at ==> !import_at(path@, hint@, i),
        decreases last - at,
    {
        if import_stands_at(&path, &hint, at) {
            return true;
        }
        if at == last {
            assert forall|i: int| !import_at(path@, hint@, i) by {}
            return false;
        }
        at = at + 1;
    }
}

/// Whether the qualified name ends with the namespace and the simple name.
pub fn cand_qname_ends_with_ns_and_name(cand_qname: &str, ns: &str, simple_name: &str) -> (found:
    bool)
    ensures
        found == ends_with_scope(cand_qname@, ns@, simple_name@),
{
    ends(cand_qname, join3(ns, "::", simple_name).as_str())
}

/// Whether the first part of the qualified name is the package.
pub fn candidate_package_matches(qualified_name: &str, package: &str) -> (found: bool)
    ensures
        found == package_matches(qualified_name@, package@),
{
    same(first_part(qualified_name, "::").as_str(), package)
}

/// The namespace that a call names before its callee, and the callee's simple name.
pub open spec fn called_name(callee_name: Seq<char>) -> (Option<Seq<char>>, Seq<char>) {
    match rsplit_once(callee_name, "::"@) {
        Some((scope, simple)) => (Some(after_last(scope, "::"@)), simple),
        None => (None, callee_name),
    }
}

/// The namespace that a call names before its callee, and the callee's simple name.
pub fn call_namespace_and_simple_name(callee_name: &str) -> (parts: (Option<String>, String))
    ensures
        (opt_text(parts.0), parts.1@) == called_name(callee_name@),
{
    match cut_last(callee_name, "::") {
        Some((scope, simple)) => (Some(last_part(scope.as_str(), "::")), simple),
        None => (None, callee_name.to_string()),
    }
}

/// What is asked of a candidate.
#[verifier::ext_equal]
pub enum CriterionView {
    Import { hint: Seq<char>, simple_name: Seq<char> },
    Receiver { receiver_type: Seq<char> },
    ImportedReceiver { receiver_type: Seq<char>, hint: Seq<char> },
    Path { hint: Seq<char> },
    Package { package: Seq<char> },
    Scope { namespace: Seq<char>, simple_name: Seq<char> },
    Namespace { namespace: Seq<char> },
    File { path: Seq<char> },
    Qualified { name: Seq<char> },
}

/// A symbol meets a criterion.
pub open spec fn meets(symbol: SymbolText, criterion: CriterionView) -> bool {
    match criterion {
        CriterionView::Import { hint, simple_name } => exact_qualified(
            symbol.qualified_name,
            hint,
            simple_name,
        ),
        CriterionView::Receiver { receiver_type } => owner_matches(
            symbol.qualified_name,
            receiver_type,
        ),
        CriterionView::ImportedReceiver { receiver_type, hint } => owner_matches(
            symbol.qualified_name,
            receiver_type,
        ) && import_matches(symbol.file_path, hint),
        CriterionView::Path { hint } => import_matches(symbol.file_path, hint),
        CriterionView::Package { package } => package_matches(symbol.qualified_name, package),
        CriterionView::Scope { namespace, simple_name } => ends_with_scope(
            symbol.qualified_name,
            namespace,
            simple_name,
        ),
        CriterionView::Namespace { namespace } => symbol.namespace == Some(namespace),
        CriterionView::File { path } => symbol.file_path == path,
        CriterionView::Qualified { name } => symbol.qualified_name == name,
    }
}

/// The candidates that meet a criterion, in their order.
pub open spec fn matching(
    symbols: Seq<SymbolText>,
    candidates: Seq<SymbolIx>,
    criterion: CriterionView,
) -> Seq<SymbolIx> {
    candidates.filter(|ix: SymbolIx| meets(symbols[ix as int], criterion))
}

/// The candidates that meet a criterion where there is one, none otherwise.
pub open spec fn matching_some(
    symbols: Seq<SymbolText>,
    candidates: Seq<SymbolIx>,
    criterion: Option<CriterionView>,
) -> Seq<SymbolIx> {
    match criterion {
        Some(criterion) => matching(symbols, candidates, criterion),
        None => seq![],
    }
}

// ---------------------------------------------------------------------------
// The resolution of one call

/// The symbol that makes the call, if it is in the index.
pub open spec fn caller_symbol(index: IndexView, caller_id: Seq<char>) -> Option<SymbolText> {
    if index.by_id.dom().contains(caller_id) && index.by_id[caller_id] < index.symbols.len() {
        Some(index.symbols[index.by_id[caller_id] as int])
    } else {
        None
    }
}

/// The candidates of a call: the symbols that bear its callee's simple name.
pub open spec fn candidates_of(index: IndexView, call: RawCallView) -> Seq<SymbolIx> {
    candidates_named(index.by_name, called_name(call.callee_name).1)
}

/// The criterion of the import, which names the callee's owner.
pub open spec fn import_criterion(call: RawCallView) -> Option<CriterionView> {
    match call.import_hint {
        Some(hint) => Some(
            CriterionView::Import { hint, simple_name: called_name(call.callee_name).1 },
        ),
        None => None,
    }
}

/// The criterion of the receiver's type.
pub open spec fn receiver_criterion(call: RawCallView) -> Option<CriterionView> {
    match call.receiver_type {
        Some(receiver_type) => Some(CriterionView::Receiver { receiver_type }),
        None => None,
    }
}

/// The criterion of the receiver's type in the imported file.
pub open spec fn imported_receiver_criterion(call: RawCallView) -> Option<CriterionView> {
    match (call.receiver_type, call.import_hint) {
        (Some(receiver_type), Some(hint)) => Some(
            CriterionView::ImportedReceiver { receiver_type, hint },
        ),
        _ => None,
    }
}

/// The criterion of the imported file.
pub open spec fn path_criterion(call: RawCallView) -> Option<CriterionView> {
    match call.import_hint {
        Some(hint) => Some(CriterionView::Path { hint }),
        None => None,
    }
}

/// The criterion of the caller's package.
pub open spec fn package_criterion(call: RawCallView) -> Option<CriterionView> {
    match call.package_or_namespace {
        Some(package) => Some(CriterionView::Package { package }),
        None => None,
    }
}

/// The criterion of the namespace that the call names.
pub open spec fn scope_criterion(call: RawCallView) -> Option<CriterionView> {
    match called_name(call.callee_name) {
        (Some(namespace), simple_name) => Some(CriterionView::Scope { namespace, simple_name }),
        _ => None,
    }
}

/// The criterion of the caller's own namespace.
pub open spec fn namespace_criterion(caller: Option<SymbolText>) -> Option<CriterionView> {
    match caller {
        Some(symbol) => match symbol.namespace {
            Some(namespace) => Some(CriterionView::Namespace { namespace }),
            None => None,
        },
        None => None,
    }
}

/// The criterion of the caller's own file.
pub open spec fn file_criterion(caller: Option<SymbolText>) -> Option<CriterionView> {
    match caller {
        Some(symbol) => Some(CriterionView::File { path: symbol.file_path }),
        None => None,
    }
}

/// The call records a relation that a framework makes. The handlers of routes are
/// resolved as plain calls are.
pub open spec fn is_relation(call: RawCallView) -> bool {
    call.relationship_kind != "calls"@ && call.relationship_kind != "route_handler"@
}

/// The target of a relation that names it, as long as no resolution kind was recorded.
/// There is none unless exactly one candidate has the qualified name.
pub open spec fn named_resolution(index: IndexView, call: RawCallView, name: Seq<char>) -> (
    Seq<SymbolIx>,
    int,
) {
    let found = matching_some(
        index.symbols,
        candidates_of(index, call),
        Some(CriterionView::Qualified { name }),
    );
    if found.len() == 1 {
        (found, 0)
    } else {
        (seq![], 0)
    }
}

/// The targets of a relation: the one that it names, and otherwise those of a plain call.
/// They were found at the resolution kind that the relation was recorded with.
pub open spec fn relation_resolution(index: IndexView, call: RawCallView) -> (
    Seq<SymbolIx>,
    int,
) {
    let (targets, kind) = match call.target_qualified_hint {
        Some(name) => named_resolution(index, call, name),
        None => plain_resolution(index, call),
    };
    (
        targets,
        match call.resolution_hint {
            Some(recorded) => if targets.len() > 0 {
                recorded
            } else {
                kind
            },
            None => kind,
        },
    )
}

/// The call goes through a pointer, so that its name says nothing of its target.
pub open spec fn is_indirect(call: RawCallView) -> bool {
    !is_relation(call) && call.call_kind == Some("indirect"@)
}

/// The targets of a call and the resolution kind they were found at. There are none
/// where the call stays unresolved.
pub open spec fn resolution(index: IndexView, call: RawCallView) -> (Seq<SymbolIx>, int) {
    if is_relation(call) {
        relation_resolution(index, call)
    } else if is_indirect(call) {
        (seq![], 0)
    } else {
        plain_resolution(index, call)
    }
}

/// The targets of a plain call and the resolution kind they were found at.
pub open spec fn plain_resolution(index: IndexView, call: RawCallView) -> (Seq<SymbolIx>, int) {
    let candidates = candidates_of(index, call);
    let caller = caller_symbol(index, call.caller_id);
    let found = |criterion: Option<CriterionView>|
        matching_some(index.symbols, candidates, criterion);
    let exact = found(import_criterion(call));
    let imported = found(imported_receiver_criterion(call));
    let received = found(receiver_criterion(call));
    let in_path = found(path_criterion(call));
    let in_package = found(package_criterion(call));
    let in_scope = found(scope_criterion(call));
    let in_namespace = found(namespace_criterion(caller));
    let in_file = found(file_criterion(caller));
    if exact.len() == 1 {
        (exact, 5)
    } else if imported.len() == 1 {
        (imported, 5)
    } else if imported.len() == 0 && received.len() == 1 {
        (received, 4)
    } else if in_path.len() == 1 {
        (in_path, 3)
    } else if in_package.len() == 1 {
        (in_package, 3)
    } else if in_scope.len() == 1 {
        (in_scope, 3)
    } else if in_namespace.len() == 1 {
        (in_namespace, 2)
    } else if in_file.len() > 0 {
        (in_file, 1)
    } else if candidates.len() == 1 {
        (candidates, 0)
    } else {
        (seq![], 0)
    }
}

/// The kind of a call's edges: that of the relation, or of calls.
pub open spec fn edge_kind(call: RawCallView) -> Seq<char> {
    if is_relation(call) {
        call.relationship_kind
    } else {
        "calls"@
    }
}

/// The edge between a call's caller and a target. A reversed relation leads from the
/// target to the caller.
pub open spec fn edge_between(
    call: RawCallView,
    target_id: Seq<char>,
    resolution_kind: int,
) -> EdgeView {
    if is_relation(call) && call.reverse_edge {
        EdgeView {
            source_id: target_id,
            target_id: call.caller_id,
            kind: edge_kind(call),
            resolution_kind,
        }
    } else {
        EdgeView { source_id: call.caller_id, target_id, kind: edge_kind(call), resolution_kind }
    }
}

/// The edges of a call: one for each of its targets.
pub open spec fn call_edges(index: IndexView, call: RawCallView) -> Seq<EdgeView> {
    let (targets, kind) = resolution(index, call);
    Seq::new(
        targets.len(),
        |i: int| edge_between(call, index.symbols[targets[i] as int].id, kind),
    )
}

/// What a call without a target refers to: the qualified name that a relation was
/// recorded with, and otherwise the callee's name.
pub open spec fn referred_name(call: RawCallView) -> Seq<char> {
    match call.target_qualified_hint {
        Some(name) => if is_relation(call) {
            name
        } else {
            call.callee_name
        },
        None => call.callee_name,
    }
}

/// The kind of the reference of a call without a target. It tells why there is none
/// where the call goes through a pointer or may be that of a macro.
pub open spec fn reference_kind(call: RawCallView) -> Seq<char> {
    if is_indirect(call) {
        "indirect_call"@
    } else if !is_relation(call) && call.call_kind == Some("macro_or_function"@) {
        "macro_or_function"@
    } else {
        edge_kind(call)
    }
}

/// The reference that is recorded for a call without a target.
pub open spec fn unresolved_call(call: RawCallView) -> UnresolvedRefView {
    UnresolvedRefView {
        id: None,
        source_id: call.caller_id,
        specifier: referred_name(call),
        kind: reference_kind(call),
        line: call.line,
        column: call.column,
    }
}

/// The edges of all calls, one after the other.
pub open spec fn edges_of_calls(index: IndexView, calls: Seq<RawCallView>) -> Seq<EdgeView>
    decreases calls.len(),
{
    if calls.len() == 0 {
        seq![]
    } else {
        edges_of_calls(index, calls.drop_last()) + call_edges(index, calls.last())
    }
}

/// The references of the calls without a target, in the order of the calls.
pub open spec fn unresolved_of_calls(
    index: IndexView,
    calls: Seq<RawCallView>,
) -> Seq<UnresolvedRefView>
    decreases calls.len(),
{
    if calls.len() == 0 {
        seq![]
    } else {
        let rest = unresolved_of_calls(index, calls.drop_last());
        if resolution(index, calls.last()).0.len() == 0 {
            rest.push(unresolved_call(calls.last()))
        } else {
            rest
        }
    }
}

// ---------------------------------------------------------------------------
// Resolving

enum Criterion<'a> {
    Import { hint: &'a str, simple_name: &'a str },
    Receiver { receiver_type: &'a str },
    ImportedReceiver { receiver_type: &'a str, hint: &'a str },
    Path { hint: &'a str },
    Package { package: &'a str },
    Scope { namespace: &'a str, simple_name: &'a str },
    Namespace { namespace: &'a str },
    File { path: &'a str },
    Qualified { name: &'a str },
}

impl<'a> View for Criterion<'a> {
    type V = CriterionView;

    closed spec fn view(&self) -> CriterionView {
        match self {
            Criterion::Import { hint, simple_name } => CriterionView::Import {
                hint: hint@,
                simple_name: simple_name@,
            },
            Criterion::Receiver { receiver_type } => CriterionView::Receiver {
                receiver_type: receiver_type@,
            },
            Criterion::ImportedReceiver { receiver_type, hint } => CriterionView::ImportedReceiver {
                receiver_type: receiver_type@,
                hint: hint@,
            },
            Criterion::Path { hint } => CriterionView::Path { hint: hint@ },
            Criterion::Package { package } => CriterionView::Package { package: package@ },
            Criterion::Scope { namespace, simple_name } => CriterionView::Scope {
                namespace: namespace@,
                simple_name: simple_name@,
            },
            Criterion::Namespace { namespace } => CriterionView::Namespace {
                namespace: namespace@,
            },
            Criterion::File { path } => CriterionView::File { path: path@ },
            Criterion::Qualified { name } => CriterionView::Qualified { name: name@ },
        }
    }
}

fn text_of(index: &SymbolIndex, ix: u32) -> (text: &str)
    requires
        ix < index.strings@.len(),
    ensures
        text@ == views(index.strings@)[ix as int],
{
    index.strings[ix as usize].as_str()
}

fn symbol_meets(index: &SymbolIndex, ix: SymbolIx, criterion: &Criterion) -> (found: bool)
    requires
        index.wf(),
        ix < index.symbols@.len(),
    ensures
        found == meets(index@.symbols[ix as int], criterion@),
{
    let symbol = index.symbols[ix as usize];
    assert(handles_within(index.symbols@[ix as int], index.strings@.len() as int));
    assert(index@.symbols[ix as int] == symbol_text(symbol, views(index.strings@)));
    let qualified_name = text_of(index, symbol.qualified_name);
    let file_path = text_of(index, symbol.file_path);
    match criterion {
        Criterion::Import { hint, simple_name } => matches_exact_qualified(
            qualified_name,
            hint,
            simple_name,
        ),
        Criterion::Receiver { receiver_type } => candidate_owner_matches(
            qualified_name,
            receiver_type,
        ),
        Criterion::ImportedReceiver { receiver_type, hint } => candidate_owner_matches(
            qualified_name,
            receiver_type,
        ) && matches_import_hint(file_path, hint),
        Criterion::Path { hint } => matches_import_hint(file_path, hint),
        Criterion::Package { package } => candidate_package_matches(qualified_name, package),
        Criterion::Scope { namespace, simple_name } => cand_qname_ends_with_ns_and_name(
            qualified_name,
            namespace,
            simple_name,
        ),
        Criterion::Namespace { namespace } => match symbol.namespace {
            Some(own) => same(text_of(index, own), namespace),
            None => false,
        },
        Criterion::File { path } => same(file_path, path),
        Criterion::Qualified { name } => same(qualified_name, name),
    }
}

spec fn opt_criterion(criterion: Option<Criterion>) -> Option<CriterionView> {
    match criterion {
        Some(criterion) => Some(criterion@),
        None => None,
    }
}

fn find_matching(
    index: &SymbolIndex,
    candidates: &CandidateList,
    criterion: Option<Criterion>,
) -> (found: Vec<SymbolIx>)
    requires
        index.wf(),
        forall|i: int|
            0 <= i < listed(*candidates).len() ==> (#[trigger] listed(*candidates)[i])
                < index.symbols@.len(),
    ensures
        found@ == matching_some(index@.symbols, listed(*candidates), opt_criterion(criterion)),
{
    let mut found: Vec<SymbolIx> = Vec::new();
    let criterion = match criterion {
        Some(criterion) => criterion,
        None => {
            return found;
        },
    };
    let ghost all = listed(*candidates);
    let ghost wanted = |ix: SymbolIx| meets(index@.symbols[ix as int], criterion@);
    let mut i: usize = 0;
    proof {
        reveal(Seq::filter);
        assert(all.take(0).filter(wanted) =~= seq![]);
    }
    while i < candidates.len()
        invariant
            index.wf(),
            all == listed(*candidates),
            i <= all.len(),
            wanted == (|ix: SymbolIx| meets(index@.symbols[ix as int], criterion@)),
            forall|k: int| 0 <= k < all.len() ==> (#[trigger] all[k]) < index.symbols@.len(),
            found@ == all.take(i as int).filter(wanted),
        decreases all.len() - i,
    {
        let ix = candidates.at(i);
        proof {
            reveal(Seq::filter);
            assert(all.take(i + 1).drop_last() =~= all.take(i as int));
            assert(all.take(i + 1).last() == ix);
        }
        if symbol_meets(index, ix, &criterion) {
            found.push(ix);
        }
        i = i + 1;
    }
    assert(all.take(i as int) =~= all);
    found
}

fn as_text(value: &Option<String>) -> (text: Option<&str>)
    ensures
        match text {
            Some(text) => opt_text(*value) == Some(text@),
            None => opt_text(*value) is None,
        },
{
    match value {
        Some(text) => Some(text.as_str()),
        None => None,
    }
}

/// Whether the call records a relation that a framework makes.
pub fn records_relation(call: &RawCall) -> (found: bool)
    ensures
        found == is_relation(call@),
{
    !same(call.relationship_kind.as_str(), "calls") && !same(
        call.relationship_kind.as_str(),
        "route_handler",
    )
}

/// The symbol that makes the call, if it is in the index.
fn find_caller(index: &SymbolIndex, call: &RawCall) -> (caller: Option<SymbolCandidate>)
    requires
        index.wf(),
    ensures
        match caller {
            Some(symbol) => handles_within(symbol, index.strings@.len() as int)
                && caller_symbol(index@, call@.caller_id) == Some(
                symbol_text(symbol, views(index.strings@)),
            ),
            None => caller_symbol(index@, call@.caller_id) is None,
        },
{
    match index.by_id.get(call.caller_id.as_str()) {
        Some(ix) => {
            if (ix as usize) < index.symbols.len() {
                let symbol = index.symbols[ix as usize];
                assert(handles_within(index.symbols@[ix as int], index.strings@.len() as int));
                Some(symbol)
            } else {
                None
            }
        },
        None => None,
    }
}

/// The targets of a plain call with the resolution kind they were found at.
fn resolve_plain(index: &SymbolIndex, call: &RawCall, candidates: &CandidateList) -> (resolved: (
    Vec<SymbolIx>,
    i64,
))
    requires
        index.wf(),
        listed(*candidates) == candidates_of(index@, call@),
    ensures
        (resolved.0@, resolved.1 as int) == plain_resolution(index@, call@),
{
    let (call_namespace, simple) = call_namespace_and_simple_name(call.callee_name.as_str());
    let simple_name = simple.as_str();
    let ghost all = candidates_of(index@, call@);
    proof {
        reveal(Seq::filter);
        lemma_candidates_within(index, called_name(call@.callee_name).1);
    }
    let caller = find_caller(index, call);
    let ghost caller_text = caller_symbol(index@, call@.caller_id);
    let hint = as_text(&call.import_hint);
    let receiver = as_text(&call.receiver_type);

    let by_import: Option<Criterion> = match hint {
        Some(hint) => Some(Criterion::Import { hint, simple_name }),
        None => None,
    };
    assert(opt_criterion(by_import) == import_criterion(call@));
    let exact = find_matching(index, candidates, by_import);
    if exact.len() == 1 {
        return (exact, 5);
    }
    let by_both: Option<Criterion> = match (receiver, hint) {
        (Some(receiver_type), Some(hint)) => Some(
            Criterion::ImportedReceiver { receiver_type, hint },
        ),
        _ => None,
    };
    assert(opt_criterion(by_both) == imported_receiver_criterion(call@));
    let imported = find_matching(index, candidates, by_both);
    if imported.len() == 1 {
        return (imported, 5);
    }
    if imported.len() == 0 {
        let by_receiver: Option<Criterion> = match receiver {
            Some(receiver_type) => Some(Criterion::Receiver { receiver_type }),
            None => None,
        };
        assert(opt_criterion(by_receiver) == receiver_criterion(call@));
        let received = find_matching(index, candidates, by_receiver);
        if received.len() == 1 {
            return (received, 4);
        }
    }
    let by_path: Option<Criterion> = match hint {
        Some(hint) => Some(Criterion::Path { hint }),
        None => None,
    };
    assert(opt_criterion(by_path) == path_criterion(call@));
    let in_path = find_matching(index, candidates, by_path);
    if in_path.len() == 1 {
        return (in_path, 3);
    }
    let by_package: Option<Criterion> = match as_text(&call.package_or_namespace) {
        Some(package) => Some(Criterion::Package { package }),
        None => None,
    };
    assert(opt_criterion(by_package) == package_criterion(call@));
    let in_package = find_matching(index, candidates, by_package);
    if in_package.len() == 1 {
        return (in_package, 3);
    }
    let by_scope: Option<Criterion> = match as_text(&call_namespace) {
        Some(namespace) => Some(Criterion::Scope { namespace, simple_name }),
        None => None,
    };
    assert(opt_criterion(by_scope) == scope_criterion(call@));
    let in_scope = find_matching(index, candidates, by_scope);
    if in_scope.len() == 1 {
        return (in_scope, 3);
    }
    let by_namespace: Option<Criterion> = match caller {
        Some(symbol) => {
            match symbol.namespace {
                Some(own) => Some(Criterion::Namespace { namespace: text_of(index, own) }),
                None => None,
            }
        },
        None => None,
    };
    assert(opt_criterion(by_namespace) == namespace_criterion(caller_text));
    let in_namespace = find_matching(index, candidates, by_namespace);
    if in_namespace.len() == 1 {
        return (in_namespace, 2);
    }
    let by_file: Option<Criterion> = match caller {
        Some(symbol) => {
            Some(Criterion::File { path: text_of(index, symbol.file_path) })
        },
        None => None,
    };
    assert(opt_criterion(by_file) == file_criterion(caller_text));
    let in_file = find_matching(index, candidates, by_file);
    if in_file.len() > 0 {
        return (in_file, 1);
    }
    let mut only: Vec<SymbolIx> = Vec::new();
    if candidates.len() == 1 {
        only.push(candidates.at(0));
        assert(only@ =~= all);
    }
    (only, 0)
}

/// The targets of one call with the resolution kind they were found at.
fn resolve_call(index: &SymbolIndex, call: &RawCall) -> (resolved: (Vec<SymbolIx>, i64))
    requires
        index.wf(),
    ensures
        (resolved.0@, resolved.1 as int) == resolution(index@, call@),
{
    let (_, simple) = call_namespace_and_simple_name(call.callee_name.as_str());
    let simple_name = simple.as_str();
    let ghost all = candidates_of(index@, call@);
    proof {
        reveal(Seq::filter);
        lemma_candidates_within(index, called_name(call@.callee_name).1);
    }
    let candidates = match index.by_name.get(simple_name) {
        Some(candidates) => candidates,
        None => {
            let none: Vec<SymbolIx> = Vec::new();
            proof {
                assert(all =~= seq![]);
                lemma_no_candidates(index@, call@);
                assert(none@ =~= seq![]);
            }
            return (none, 0);
        },
    };
    if records_relation(call) {
        let (targets, kind) = match &call.target_qualified_hint {
            Some(name) => {
                let by_name: Option<Criterion> = Some(Criterion::Qualified { name: name.as_str() });
                assert(opt_criterion(by_name) == Some(CriterionView::Qualified { name: name@ }));
                let named = find_matching(index, candidates, by_name);
                if named.len() == 1 {
                    (named, 0)
                } else {
                    let none: Vec<SymbolIx> = Vec::new();
                    assert(none@ =~= seq![]);
                    (none, 0)
                }
            },
            None => resolve_plain(index, call, candidates),
        };
        let kind: i64 = match call.resolution_hint {
            Some(recorded) => if targets.len() > 0 {
                recorded
            } else {
                kind
            },
            None => kind,
        };
        (targets, kind)
    } else if is_of_kind(call, "indirect") {
        let none: Vec<SymbolIx> = Vec::new();
        assert(none@ =~= seq![]);
        (none, 0)
    } else {
        resolve_plain(index, call, candidates)
    }
}

proof fn lemma_candidates_within(index: &SymbolIndex, name: Seq<char>)
    requires
        index.wf(),
    ensures
        forall|i: int|
            0 <= i < candidates_named(index@.by_name, name).len() ==> (
            #[trigger] candidates_named(index@.by_name, name)[i]) < index.symbols@.len(),
{
    let by_name = name_entries(index.by_name);
    if by_name.dom().contains(name) {
        assert forall|i: int| 0 <= i < by_name[name].len() implies (#[trigger] by_name[name][i])
            < index.symbols@.len() by {}
    }
}

proof fn lemma_matching_within(
    symbols: Seq<SymbolText>,
    candidates: Seq<SymbolIx>,
    criterion: Option<CriterionView>,
)
    ensures
        forall|i: int|
            0 <= i < matching_some(symbols, candidates, criterion).len() ==> candidates.contains(
                #[trigger] matching_some(symbols, candidates, criterion)[i],
            ),
{
    if let Some(criterion) = criterion {
        let wanted = |ix: SymbolIx| meets(symbols[ix as int], criterion);
        assert forall|i: int| 0 <= i < candidates.filter(wanted).len() implies candidates.contains(
            #[trigger] candidates.filter(wanted)[i],
        ) by {
            candidates.lemma_filter_contains_rev(wanted, candidates.filter(wanted)[i]);
        }
    }
}

/// Every target of a call is one of its candidates.
pub proof fn targets_are_candidates(index: IndexView, call: RawCallView)
    ensures
        forall|i: int|
            0 <= i < resolution(index, call).0.len() ==> candidates_of(index, call).contains(
                #[trigger] resolution(index, call).0[i],
            ),
{
    let candidates = candidates_of(index, call);
    let caller = caller_symbol(index, call.caller_id);
    lemma_matching_within(index.symbols, candidates, import_criterion(call));
    lemma_matching_within(index.symbols, candidates, imported_receiver_criterion(call));
    lemma_matching_within(index.symbols, candidates, receiver_criterion(call));
    lemma_matching_within(index.symbols, candidates, path_criterion(call));
    lemma_matching_within(index.symbols, candidates, package_criterion(call));
    lemma_matching_within(index.symbols, candidates, scope_criterion(call));
    lemma_matching_within(index.symbols, candidates, namespace_criterion(caller));
    lemma_matching_within(index.symbols, candidates, file_criterion(caller));
    if let Some(name) = call.target_qualified_hint {
        lemma_matching_within(
            index.symbols,
            candidates,
            Some(CriterionView::Qualified { name }),
        );
    }
}

proof fn lemma_resolution_within(index: IndexView, call: RawCallView, count: int)
    requires
        forall|i: int|
            0 <= i < candidates_of(index, call).len() ==> (#[trigger] candidates_of(
                index,
                call,
            )[i]) < count,
    ensures
        forall|i: int|
            0 <= i < resolution(index, call).0.len() ==> (#[trigger] resolution(index, call).0[i])
                < count,
{
    targets_are_candidates(index, call);
    let candidates = candidates_of(index, call);
    assert forall|i: int| 0 <= i < resolution(index, call).0.len() implies (#[trigger] resolution(
        index,
        call,
    ).0[i]) < count by {
        let target = resolution(index, call).0[i];
        assert(candidates.contains(target));
        let k = choose|k: int| 0 <= k < candidates.len() && candidates[k] == target;
        assert(candidates[k] < count);
    }
}

proof fn lemma_no_candidates(index: IndexView, call: RawCallView)
    requires
        candidates_of(index, call).len() == 0,
    ensures
        resolution(index, call) == (Seq::<SymbolIx>::empty(), 0int),
{
    targets_are_candidates(index, call);
    let (targets, kind) = resolution(index, call);
    if targets.len() > 0 {
        assert(candidates_of(index, call).contains(targets[0]));
    }
    assert(targets =~= seq![]);
}

fn kind_of_edges(call: &RawCall) -> (kind: String)
    ensures
        kind@ == edge_kind(call@),
{
    if records_relation(call) {
        call.relationship_kind.clone()
    } else {
        "calls".to_string()
    }
}

fn is_of_kind(call: &RawCall, kind: &str) -> (found: bool)
    ensures
        found == (call@.call_kind == Some(kind@)),
{
    match &call.call_kind {
        Some(own) => same(own.as_str(), kind),
        None => false,
    }
}

fn kind_of_reference(call: &RawCall) -> (kind: String)
    ensures
        kind@ == reference_kind(call@),
{
    if records_relation(call) {
        call.relationship_kind.clone()
    } else if is_of_kind(call, "indirect") {
        "indirect_call".to_string()
    } else if is_of_kind(call, "macro_or_function") {
        "macro_or_function".to_string()
    } else {
        "calls".to_string()
    }
}

fn name_referred_to(call: &RawCall) -> (name: String)
    ensures
        name@ == referred_name(call@),
{
    match &call.target_qualified_hint {
        Some(name) => if records_relation(call) {
            name.clone()
        } else {
            call.callee_name.clone()
        },
        None => call.callee_name.clone(),
    }
}

fn edge_to(call: &RawCall, target_id: &str, resolution_kind: i64) -> (edge: Edge)
    ensures
        edge@ == edge_between(call@, target_id@, resolution_kind as int),
{
    let kind = kind_of_edges(call);
    if records_relation(call) && call.reverse_edge {
        Edge {
            source_id: target_id.to_string(),
            target_id: call.caller_id.clone(),
            kind,
            resolution_kind,
        }
    } else {
        Edge {
            source_id: call.caller_id.clone(),
            target_id: target_id.to_string(),
            kind,
            resolution_kind,
        }
    }
}

/// Resolves call sites into edges against the project-wide index. The edges come in
/// canonical order. A call that no candidate meets, or that only its name would tell
/// apart from others, is returned as an unresolved reference.
pub fn resolve_calls_global(calls: &[RawCall], index: &SymbolIndex) -> (resolved: (
    Vec<Edge>,
    Vec<UnresolvedRef>,
))
    requires
        index.wf(),
    ensures
        is_canonical(views(resolved.0@), edges_of_calls(index@, views(calls@))),
        views(resolved.1@) == unresolved_of_calls(index@, views(calls@)),
{
    let mut edges: Vec<Edge> = Vec::new();
    let mut unresolved: Vec<UnresolvedRef> = Vec::new();
    let ghost all = views(calls@);
    let mut i: usize = 0;
    proof {
        assert(all.take(0) =~= seq![]);
        assert(views(edges@) =~= seq![]);
        assert(views(unresolved@) =~= seq![]);
    }
    while i < calls.len()
        invariant
            index.wf(),
            i <= calls@.len(),
            all == views(calls@),
            views(edges@) == edges_of_calls(index@, all.take(i as int)),
            views(unresolved@) == unresolved_of_calls(index@, all.take(i as int)),
        decreases calls@.len() - i,
    {
        let call = &calls[i];
        let (targets, kind) = resolve_call(index, call);
        let ghost edges_before = views(edges@);
        proof {
            lemma_candidates_within(index, called_name(call@.callee_name).1);
            lemma_resolution_within(index@, call@, index.symbols@.len() as int);
            assert forall|k: int| 0 <= k < targets@.len() implies (#[trigger] targets@[k])
                < index.symbols@.len() by {
                assert(targets@[k] == resolution(index@, call@).0[k]);
            }
            assert(all.take(i + 1).drop_last() =~= all.take(i as int));
            assert(all.take(i + 1).last() == call@);
            assert(call_edges(index@, call@).take(0) =~= seq![]);
            assert(edges_before + seq![] =~= edges_before);
        }
        if targets.len() == 0 {
            let reference = UnresolvedRef {
                id: None,
                source_id: call.caller_id.clone(),
                specifier: name_referred_to(call),
                kind: kind_of_reference(call),
                line: call.line,
                column: call.column,
            };
            let ghost before = unresolved@;
            unresolved.push(reference);
            proof {
                lemma_views_push(before, reference);
                assert(reference@ =~= unresolved_call(call@));
            }
        }
        let mut t: usize = 0;
        while t < targets.len()
            invariant
                index.wf(),
                t <= targets@.len(),
                (targets@, kind as int) == resolution(index@, call@),
                forall|k: int|
                    0 <= k < targets@.len() ==> (#[trigger] targets@[k]) < index.symbols@.len(),
                views(edges@) == edges_before + call_edges(index@, call@).take(t as int),
            decreases targets@.len() - t,
        {
            let symbol = index.symbols[targets[t] as usize];
            assert(handles_within(
                index.symbols@[targets@[t as int] as int],
                index.strings@.len() as int,
            ));
            let edge = edge_to(call, text_of(index, symbol.id), kind);
            let ghost before = edges@;
            edges.push(edge);
            proof {
                lemma_views_push(before, edge);
                assert(edge@ =~= call_edges(index@, call@)[t as int]);
                assert(call_edges(index@, call@).take(t + 1) =~= call_edges(index@, call@).take(
                    t as int,
                ).push(edge@));
                assert(views(edges@) =~= edges_before + call_edges(index@, call@).take(t + 1));
            }
            t = t + 1;
        }
        assert(call_edges(index@, call@).take(t as int) =~= call_edges(index@, call@));
        i = i + 1;
    }
    assert(all.take(i as int) =~= all);
    (canonical_edges(&edges), unresolved)
}

/// Resolves call sites against the given symbols alone.
pub fn resolve_calls_local(nodes: &[Node], calls: &[RawCall]) -> (edges: Vec<Edge>)
    requires
        nodes@.len() <= 0x3fff_ffff,
    ensures
        is_canonical(
            views(edges@),
            edges_of_calls(index_of_nodes(views(nodes@)), views(calls@)),
        ),
{
    let index = SymbolIndex::from_nodes(nodes);
    let (edges, _) = resolve_calls_global(calls, &index);
    edges
}

// ---------------------------------------------------------------------------
// Laws

/// An ambiguous match is never guessed: outside the same-file tier a plain call has at
/// most one target, and a target by name alone is the only symbol of that name.
pub proof fn ambiguity_is_never_guessed(index: IndexView, call: RawCallView)
    requires
        !is_relation(call),
    ensures
        resolution(index, call).1 != 1 ==> resolution(index, call).0.len() <= 1,
        resolution(index, call).1 == 0 && resolution(index, call).0.len() > 0
            ==> candidates_of(index, call).len() == 1,
        0 <= resolution(index, call).1 <= 5,
{
}

/// A relation that names its target leads to no other: it has at most one target, which
/// bears the qualified name. Any other relation has the targets of a plain call. Either
/// way it keeps the resolution kind that it was recorded with.
pub proof fn relations_keep_what_was_recorded(index: IndexView, call: RawCallView)
    requires
        is_relation(call),
    ensures
        match call.target_qualified_hint {
            Some(name) => resolution(index, call).0.len() <= 1 && (resolution(
                index,
                call,
            ).0.len() == 1 ==> index.symbols[resolution(index, call).0[0] as int].qualified_name
                == name),
            None => resolution(index, call).0 == plain_resolution(index, call).0,
        },
        call.resolution_hint is Some && resolution(index, call).0.len() > 0 ==> resolution(
            index,
            call,
        ).1 == call.resolution_hint->0,
{
    if let Some(name) = call.target_qualified_hint {
        let criterion = CriterionView::Qualified { name };
        let candidates = candidates_of(index, call);
        let wanted = |ix: SymbolIx| meets(index.symbols[ix as int], criterion);
        let found = candidates.filter(wanted);
        if found.len() == 1 {
            candidates.lemma_filter_pred(wanted, 0);
            assert(wanted(found[0]));
        }
    }
}

/// The edges of a relation have its kind, and lead from the target to the caller where
/// the relation is reversed; the edges of a plain call lead from its caller.
pub proof fn edges_follow_their_calls(index: IndexView, call: RawCallView, i: int)
    requires
        0 <= i < call_edges(index, call).len(),
    ensures
        is_relation(call) ==> call_edges(index, call)[i].kind == call.relationship_kind,
        !is_relation(call) ==> call_edges(index, call)[i].kind == "calls"@,
        is_relation(call) && call.reverse_edge ==> call_edges(index, call)[i].target_id
            == call.caller_id,
        !(is_relation(call) && call.reverse_edge) ==> call_edges(index, call)[i].source_id
            == call.caller_id,
{
}

/// A call of a name that no symbol bears stays unresolved, and a call of a name that only
/// one symbol bears is always resolved, unless it goes through a pointer or records a
/// relation that names its target.
pub proof fn unique_names_resolve(index: IndexView, call: RawCallView)
    ensures
        candidates_of(index, call).len() == 0 ==> resolution(index, call).0.len() == 0,
        candidates_of(index, call).len() == 1 && !is_indirect(call) && !(is_relation(call)
            && call.target_qualified_hint is Some) ==> resolution(index, call).0 == candidates_of(
            index,
            call,
        ),
        is_indirect(call) ==> resolution(index, call).0.len() == 0,
{
    if candidates_of(index, call).len() == 0 {
        lemma_no_candidates(index, call);
    }
    if candidates_of(index, call).len() == 1 && !is_indirect(call) && !(is_relation(call)
        && call.target_qualified_hint is Some) {
        let candidates = candidates_of(index, call);
        let caller = caller_symbol(index, call.caller_id);
        targets_are_candidates(index, call);
        lemma_matching_short(index.symbols, candidates, file_criterion(caller));
        let targets = resolution(index, call).0;
        assert(targets.len() == 1);
        assert(candidates.contains(targets[0]));
        assert(targets =~= candidates);
    }
}

proof fn lemma_matching_short(
    symbols: Seq<SymbolText>,
    candidates: Seq<SymbolIx>,
    criterion: Option<CriterionView>,
)
    ensures
        matching_some(symbols, candidates, criterion).len() <= candidates.len(),
{
    if let Some(criterion) = criterion {
        candidates.lemma_filter_len(|ix: SymbolIx| meets(symbols[ix as int], criterion));
    }
}

/// No call is lost: the edges that it resolves to are among the canonical ones, at
/// their kind or a higher one, and without a target it is among the references.
pub proof fn every_call_is_accounted_for(
    index: IndexView,
    calls: Seq<RawCallView>,
    merged: Seq<EdgeView>,
    i: int,
)
    requires
        is_canonical(merged, edges_of_calls(index, calls)),
        0 <= i < calls.len(),
    ensures
        resolution(index, calls[i]).0.len() == 0 ==> unresolved_of_calls(index, calls).contains(
            unresolved_call(calls[i]),
        ),
        forall|t: int|
            0 <= t < call_edges(index, calls[i]).len() ==> exists|m: int|
                0 <= m < merged.len() && key_of(#[trigger] merged[m]) == key_of(
                    #[trigger] call_edges(index, calls[i])[t],
                ) && merged[m].resolution_kind >= call_edges(index, calls[i])[t].resolution_kind,
{
    lemma_unresolved_kept(index, calls, i);
    lemma_edges_kept(index, calls, i);
    lemma_ascending_kinds(merged);
    assert forall|t: int| 0 <= t < call_edges(index, calls[i]).len() implies exists|m: int|
        0 <= m < merged.len() && key_of(#[trigger] merged[m]) == key_of(
            #[trigger] call_edges(index, calls[i])[t],
        ) && merged[m].resolution_kind >= call_edges(index, calls[i])[t].resolution_kind by {
        let edge = call_edges(index, calls[i])[t];
        assert(best_kinds(merged).dom().contains(key_of(edge)));
        let m = choose|m: int| 0 <= m < merged.len() && key_of(#[trigger] merged[m]) == key_of(edge);
        assert(merged[m].resolution_kind == best_kinds(merged)[key_of(edge)]);
    }
}

proof fn lemma_unresolved_kept(index: IndexView, calls: Seq<RawCallView>, i: int)
    requires
        0 <= i < calls.len(),
    ensures
        resolution(index, calls[i]).0.len() == 0 ==> unresolved_of_calls(index, calls).contains(
            unresolved_call(calls[i]),
        ),
    decreases calls.len(),
{
    let rest = unresolved_of_calls(index, calls.drop_last());
    let all = unresolved_of_calls(index, calls);
    if resolution(index, calls[i]).0.len() == 0 {
        if i == calls.len() - 1 {
            assert(all[rest.len() as int] == unresolved_call(calls[i]));
        } else {
            lemma_unresolved_kept(index, calls.drop_last(), i);
            let k = choose|k: int| 0 <= k < rest.len() && rest[k] == unresolved_call(calls[i]);
            assert(all[k] == rest[k]);
        }
    }
}

proof fn lemma_kinds_push(edges: Seq<EdgeView>, more: Seq<EdgeView>, key: EdgeKey)
    ensures
        best_kinds(edges).dom().contains(key) ==> best_kinds(edges + more).dom().contains(key)
            && best_kinds(edges + more)[key] >= best_kinds(edges)[key],
        forall|t: int|
            0 <= t < more.len() ==> best_kinds(edges + more).dom().contains(
                key_of(#[trigger] more[t]),
            ) && best_kinds(edges + more)[key_of(more[t])] >= more[t].resolution_kind,
    decreases more.len(),
{
    if more.len() == 0 {
        assert(edges + more =~= edges);
    } else {
        let front = more.drop_last();
        assert((edges + more).drop_last() =~= edges + front);
        assert((edges + more).last() == more.last());
        lemma_kinds_push(edges, front, key);
        assert forall|t: int| 0 <= t < more.len() implies best_kinds(edges + more).dom().contains(
            key_of(#[trigger] more[t]),
        ) && best_kinds(edges + more)[key_of(more[t])] >= more[t].resolution_kind by {
            if t < front.len() {
                assert(front[t] == more[t]);
            }
        }
    }
}

proof fn lemma_edges_kept(index: IndexView, calls: Seq<RawCallView>, i: int)
    requires
        0 <= i < calls.len(),
    ensures
        forall|t: int|
            0 <= t < call_edges(index, calls[i]).len() ==> best_kinds(
                edges_of_calls(index, calls),
            ).dom().contains(key_of(#[trigger] call_edges(index, calls[i])[t])) && best_kinds(
                edges_of_calls(index, calls),
            )[key_of(call_edges(index, calls[i])[t])] >= call_edges(
                index,
                calls[i],
            )[t].resolution_kind,
    decreases calls.len(),
{
    let front = edges_of_calls(index, calls.drop_last());
    let last = call_edges(index, calls.last());
    if i == calls.len() - 1 {
        lemma_kinds_push(
            front,
            last,
            EdgeKey { source_id: seq![], target_id: seq![], kind: seq![] },
        );
    } else {
        lemma_edges_kept(index, calls.drop_last(), i);
        assert(calls.drop_last()[i] == calls[i]);
        assert forall|t: int| 0 <= t < call_edges(index, calls[i]).len() implies best_kinds(
            front + last,
        ).dom().contains(key_of(#[trigger] call_edges(index, calls[i])[t])) && best_kinds(
            front + last,
        )[key_of(call_edges(index, calls[i])[t])] >= call_edges(
            index,
            calls[i],
        )[t].resolution_kind by {
            lemma_kinds_push(front, last, key_of(call_edges(index, calls[i])[t]));
        }
    }
}

/// No edge is made up: each canonical edge is one that some call resolves to, at the
/// very kind that the call was resolved at.
pub proof fn every_edge_comes_from_a_call(
    index: IndexView,
    calls: Seq<RawCallView>,
    merged: Seq<EdgeView>,
    m: int,
)
    requires
        is_canonical(merged, edges_of_calls(index, calls)),
        0 <= m < merged.len(),
    ensures
        exists|i: int, t: int|
            0 <= i < calls.len() && 0 <= t < call_edges(index, calls[i]).len()
                && #[trigger] call_edges(index, calls[i])[t] == merged[m],
{
    lemma_ascending_kinds(merged);
    let edge = merged[m];
    assert(best_kinds(merged).dom().contains(key_of(edge)));
    lemma_kinds_from_edges(edges_of_calls(index, calls), key_of(edge));
    let edges = edges_of_calls(index, calls);
    let e = choose|e: int|
        0 <= e < edges.len() && key_of(#[trigger] edges[e]) == key_of(edge)
            && edges[e].resolution_kind == best_kinds(edges)[key_of(edge)];
    assert(edges[e] =~= edge);
    lemma_edges_from_calls(index, calls, e);
}

proof fn lemma_kinds_from_edges(edges: Seq<EdgeView>, key: EdgeKey)
    requires
        best_kinds(edges).dom().contains(key),
    ensures
        exists|e: int|
            0 <= e < edges.len() && key_of(#[trigger] edges[e]) == key && edges[e].resolution_kind
                == best_kinds(edges)[key],
    decreases edges.len(),
{
    if edges.len() > 0 {
        let front = edges.drop_last();
        let last = edges.last();
        if best_kinds(front).dom().contains(key) && best_kinds(edges)[key] == best_kinds(front)[key] {
            lemma_kinds_from_edges(front, key);
            let e = choose|e: int|
                0 <= e < front.len() && key_of(#[trigger] front[e]) == key
                    && front[e].resolution_kind == best_kinds(front)[key];
            assert(edges[e] == front[e]);
        } else {
            assert(edges[edges.len() - 1] == last);
        }
    }
}

proof fn lemma_edges_from_calls(index: IndexView, calls: Seq<RawCallView>, e: int)
    requires
        0 <= e < edges_of_calls(index, calls).len(),
    ensures
        exists|i: int, t: int|
            0 <= i < calls.len() && 0 <= t < call_edges(index, calls[i]).len()
                && #[trigger] call_edges(index, calls[i])[t] == edges_of_calls(index, calls)[e],
    decreases calls.len(),
{
    if calls.len() > 0 {
        let front = edges_of_calls(index, calls.drop_last());
        if e < front.len() {
            lemma_edges_from_calls(index, calls.drop_last(), e);
            let (i, t) = choose|i: int, t: int|
                0 <= i < calls.drop_last().len() && 0 <= t < call_edges(
                    index,
                    calls.drop_last()[i],
                ).len() && #[trigger] call_edges(index, calls.drop_last()[i])[t] == front[e];
            assert(calls.drop_last()[i] == calls[i]);
            assert(call_edges(index, calls[i])[t] == edges_of_calls(index, calls)[e]);
        } else {
            let i = calls.len() - 1;
            assert(call_edges(index, calls[i])[e - front.len()] == edges_of_calls(index, calls)[e]);
        }
    }
}

proof fn lemma_listed_within(nodes: Seq<NodeView>, name: Seq<char>)
    ensures
        index_of_nodes(nodes).symbols.len() == nodes.len(),
        forall|i: int|
            0 <= i < candidates_named(index_of_nodes(nodes).by_name, name).len() ==> (
            #[trigger] candidates_named(index_of_nodes(nodes).by_name, name)[i]) < nodes.len(),
    decreases nodes.len(),
{
    if nodes.len() > 0 {
        let front = nodes.drop_last();
        let before = candidates_named(index_of_nodes(front).by_name, name);
        let list = candidates_named(index_of_nodes(nodes).by_name, name);
        lemma_listed_within(front, name);
        if nodes.last().name == name {
            assert(list == before.push(front.len() as u32));
        } else {
            assert(list == before);
        }
        assert forall|i: int| 0 <= i < list.len() implies (#[trigger] list[i]) < nodes.len() by {
            if i < before.len() {
                assert(list[i] == before[i]);
            }
        }
    }
}

proof fn lemma_symbol_ids(nodes: Seq<NodeView>, k: int)
    requires
        0 <= k < nodes.len(),
    ensures
        index_of_nodes(nodes).symbols.len() == nodes.len(),
        index_of_nodes(nodes).symbols[k].id == nodes[k].id,
    decreases nodes.len(),
{
    let front = nodes.drop_last();
    lemma_listed_within(front, seq![]);
    if k < front.len() {
        lemma_symbol_ids(front, k);
    }
}

/// Resolved against some symbols alone, a call leads nowhere else: each edge joins the
/// call's caller and one of the symbols, which is its target unless the call records a
/// reversed relation.
pub proof fn local_edges_join_the_given_symbols(
    nodes: Seq<NodeView>,
    calls: Seq<RawCallView>,
    merged: Seq<EdgeView>,
    m: int,
)
    requires
        is_canonical(merged, edges_of_calls(index_of_nodes(nodes), calls)),
        0 <= m < merged.len(),
    ensures
        exists|i: int, n: int|
            0 <= i < calls.len() && 0 <= n < nodes.len() && merged[m] == #[trigger] edge_between(
                calls[i],
                nodes[n].id,
                merged[m].resolution_kind,
            ),
        (forall|i: int|
            0 <= i < calls.len() ==> !(is_relation(#[trigger] calls[i]) && calls[i].reverse_edge))
            ==> exists|n: int|
            0 <= n < nodes.len() && (#[trigger] nodes[n]).id == merged[m].target_id,
{
    let index = index_of_nodes(nodes);
    every_edge_comes_from_a_call(index, calls, merged, m);
    let (i, t) = choose|i: int, t: int|
        0 <= i < calls.len() && 0 <= t < call_edges(index, calls[i]).len()
            && #[trigger] call_edges(index, calls[i])[t] == merged[m];
    let call = calls[i];
    lemma_listed_within(nodes, called_name(call.callee_name).1);
    lemma_resolution_within(index, call, nodes.len() as int);
    let n = resolution(index, call).0[t] as int;
    lemma_symbol_ids(nodes, n);
    assert(merged[m] == edge_between(calls[i], nodes[n].id, merged[m].resolution_kind));
}

/// Resolving against some symbols alone is resolving against the index of just these:
/// the edges are the same. Without symbols there are none.
pub proof fn local_resolution_is_global_over_the_given_symbols(
    nodes: Seq<NodeView>,
    calls: Seq<RawCallView>,
    local: Seq<EdgeView>,
    global: Seq<EdgeView>,
)
    requires
        is_canonical(local, edges_of_calls(index_of_nodes(nodes), calls)),
        is_canonical(global, edges_of_calls(index_of_nodes(nodes), calls)),
    ensures
        local == global,
        nodes.len() == 0 ==> local.len() == 0,
{
    canonical_form_is_unique(local, global, edges_of_calls(index_of_nodes(nodes), calls));
    if nodes.len() == 0 && local.len() > 0 {
        local_edges_join_the_given_symbols(nodes, calls, local, 0);
    }
}

} // verus!
