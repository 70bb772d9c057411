//! What an indexing run does: which files it reads, which of them changed, and which
//! calls it resolves anew.

pub mod laws;
pub mod order;
pub mod parity;
pub mod recording;
pub mod rules;
pub mod runs;

use vstd::prelude::*;
use crate::db::{
    callee_parts, split_callee_name, Edge, EdgeView, FileMetadata, RawCall, RawCallView,
    UnresolvedRef, UnresolvedRefView,
};
use crate::ordered::{
    chosen, chosen_members, dedup_by, distinct_texts, distinct_texts_ascend, sort_by, ByText,
};
use crate::parser::interner::SymbolIndex;
use crate::parser::{grammar_named, parse_code};
use crate::paths::{extension, extension_of};
use crate::sets::{text_set, texts_in};
use crate::text::{
    begins, lemma_views_push, lower_case, lowercase, opt_str, opt_text, parts_of, same, split,
    starts_with, trim, trimmed, views,
};

verus! {

// ---------------------------------------------------------------------------
// Files

/// A directory of generated or foreign code.
pub open spec fn is_library_dir(name: Seq<char>) -> bool {
    name == "target"@ || name == "node_modules"@ || name == ".venv"@ || name == "vendor"@ || name
        == "build"@ || name == "dist"@
}

/// A directory that is not walked: one of generated or foreign code, unless these are
/// wanted, a hidden one, or the one for clones.
pub open spec fn is_skipped(name: Seq<char>, with_library: bool) -> bool {
    if is_library_dir(name) {
        !with_library
    } else {
        starts_with(name, "."@) || name == "clones"@
    }
}

/// Whether a directory is not walked.
pub fn should_skip_dir(name: &str, with_library: bool) -> (skipped: bool)
    ensures
        skipped == is_skipped(name@, with_library),
{
    if same(name, "target") || same(name, "node_modules") || same(name, ".venv") || same(
        name,
        "vendor",
    ) || same(name, "build") || same(name, "dist") {
        !with_library
    } else {
        begins(name, ".") || same(name, "clones")
    }
}

/// The language of files with an extension in lower case.
pub open spec fn language_of(extension: Seq<char>) -> Option<Seq<char>> {
    if extension == "rs"@ {
        Some("rust"@)
    } else if extension == "go"@ {
        Some("go"@)
    } else if extension == "java"@ {
        Some("java"@)
    } else if extension == "c"@ || extension == "h"@ {
        Some("c"@)
    } else if extension == "cc"@ || extension == "cpp"@ || extension == "cxx"@ || extension == "hh"@
        || extension == "hpp"@ || extension == "hxx"@ {
        Some("cpp"@)
    } else if extension == "zig"@ {
        Some("zig"@)
    } else {
        None
    }
}

/// The language of files with an extension in lower case.
pub fn language_for_extension(extension: &str) -> (language: Option<&'static str>)
    ensures
        opt_str(language) == language_of(extension@),
{
    if same(extension, "rs") {
        Some("rust")
    } else if same(extension, "go") {
        Some("go")
    } else if same(extension, "java") {
        Some("java")
    } else if same(extension, "c") || same(extension, "h") {
        Some("c")
    } else if same(extension, "cc") || same(extension, "cpp") || same(extension, "cxx") || same(
        extension,
        "hh",
    ) || same(extension, "hpp") || same(extension, "hxx") {
        Some("cpp")
    } else if same(extension, "zig") {
        Some("zig")
    } else {
        None
    }
}

/// The language of a file, by the extension of its path in any case.
pub open spec fn path_language(path: Seq<char>) -> Option<Seq<char>> {
    match extension(path) {
        Some(extension) => language_of(lower_case(extension)),
        None => None,
    }
}

/// The language of a file, by the extension of its path in any case.
pub fn language_for_path(path: &str) -> (language: Option<&'static str>)
    ensures
        opt_str(language) == path_language(path@),
{
    match extension_of(path) {
        Some(extension) => {
            let lower = lowercase(extension.as_str());
            language_for_extension(lower.as_str())
        },
        None => None,
    }
}

/// A file that can be read and is in a language with a grammar.
pub open spec fn is_indexable(path: Seq<char>, content: Option<Seq<char>>) -> bool {
    &&& content is Some
    &&& path_language(path) matches Some(language)
    &&& grammar_named(language) is Some
}

/// Whether an indexing run would take a file with this content in.
pub fn can_index(path: &str, content: Option<&str>) -> (indexable: bool)
    ensures
        indexable == is_indexable(path@, opt_str(content)),
{
    match content {
        Some(content) => match language_for_path(path) {
            Some(language) => parse_code(path, content, language).is_ok(),
            None => false,
        },
        None => false,
    }
}

/// A file differs from what is stored of it, or nothing is stored.
pub open spec fn is_changed(
    stored: Option<&FileMetadata>,
    content_hash: Seq<char>,
    size_bytes: i64,
    last_modified: i64,
) -> bool {
    match stored {
        Some(meta) => meta.content_hash@ != content_hash || meta.last_modified != Some(
            last_modified,
        ) || meta.size_bytes != Some(size_bytes),
        None => true,
    }
}

/// Whether a file differs from what is stored of it.
pub fn is_modified(
    stored: Option<&FileMetadata>,
    content_hash: &str,
    size_bytes: i64,
    last_modified: i64,
) -> (modified: bool)
    ensures
        modified == is_changed(stored, content_hash@, size_bytes, last_modified),
{
    match stored {
        Some(meta) => {
            let same_time = match meta.last_modified {
                Some(time) => time == last_modified,
                None => false,
            };
            let same_size = match meta.size_bytes {
                Some(size) => size == size_bytes,
                None => false,
            };
            !same(meta.content_hash.as_str(), content_hash) || !same_time || !same_size
        },
        None => true,
    }
}

/// The stored paths that are no longer on disk.
pub open spec fn missing_paths(stored: Seq<Seq<char>>, on_disk: Seq<Seq<char>>) -> Seq<Seq<char>>
    decreases stored.len(),
{
    if stored.len() == 0 {
        seq![]
    } else if on_disk.contains(stored.last()) {
        missing_paths(stored.drop_last(), on_disk)
    } else {
        missing_paths(stored.drop_last(), on_disk).push(stored.last())
    }
}

/// The stored paths that are no longer on disk.
pub fn files_to_prune(stored: &Vec<String>, on_disk: &Vec<String>) -> (missing: Vec<String>)
    ensures
        views(missing@) == missing_paths(views(stored@), views(on_disk@)),
{
    let ghost all = views(stored@);
    let disk_files = text_set(on_disk);
    let mut missing: Vec<String> = Vec::new();
    let mut i: usize = 0;
    assert(all.take(0) =~= seq![]);
    assert(views(missing@) =~= seq![]);
    while i < stored.len()
        invariant
            i <= stored@.len(),
            all == views(stored@),
            forall|text: Seq<char>| #[trigger]
                texts_in(disk_files).contains(text) <==> views(on_disk@).contains(text),
            views(missing@) == missing_paths(all.take(i as int), views(on_disk@)),
        decreases stored@.len() - i,
    {
        proof {
            assert(all.take(i + 1).drop_last() =~= all.take(i as int));
            assert(all.take(i + 1).last() == stored@[i as int]@);
        }
        if !disk_files.contains(stored[i].as_str()) {
            let path = stored[i].clone();
            proof {
                lemma_views_push(missing@, path);
            }
            missing.push(path);
        }
        i = i + 1;
    }
    assert(all.take(i as int) =~= all);
    missing
}

// ---------------------------------------------------------------------------
// Git

/// A part of a line, where it has so many.
pub open spec fn nth_part(parts: Seq<Seq<char>>, n: int) -> Option<Seq<char>> {
    if n < parts.len() {
        Some(parts[n])
    } else {
        None
    }
}

/// A commit as the log shows it: hash, subject and date.
#[derive(Debug, PartialEq)]
pub struct CommitInfo {
    pub sha: Option<String>,
    pub subject: Option<String>,
    pub date: Option<String>,
}

/// Takes the line of a commit apart at `|`.
pub fn parse_commit(line: &str) -> (commit: CommitInfo)
    ensures
        opt_text(commit.sha) == nth_part(split(line@, "|"@), 0),
        opt_text(commit.subject) == nth_part(split(line@, "|"@), 1),
        opt_text(commit.date) == nth_part(split(line@, "|"@), 2),
{
    proof {
        reveal_strlit("|");
    }
    let parts = parts_of(line, "|");
    let ghost all = views(parts@);
    assert(all.len() == parts@.len());
    let sha = if parts.len() > 0 {
        assert(all[0] == parts@[0]@);
        Some(parts[0].clone())
    } else {
        None
    };
    let subject = if parts.len() > 1 {
        assert(all[1] == parts@[1]@);
        Some(parts[1].clone())
    } else {
        None
    };
    let date = if parts.len() > 2 {
        assert(all[2] == parts@[2]@);
        Some(parts[2].clone())
    } else {
        None
    };
    CommitInfo { sha, subject, date }
}

/// The state of a worktree, by what lists its changes.
pub open spec fn worktree_state(listing: Seq<char>) -> Seq<char> {
    if trim(listing).len() == 0 {
        "clean"@
    } else {
        "dirty"@
    }
}

/// The state of a worktree, by what lists its changes.
pub fn worktree_status(listing: &str) -> (state: &'static str)
    ensures
        state@ == worktree_state(listing@),
{
    let text = trimmed(listing);
    if text.as_str().is_empty() {
        "clean"
    } else {
        "dirty"
    }
}

// ---------------------------------------------------------------------------
// What is resolved anew

/// The ids and names of the symbols that a run removes, replaces or adds.
#[derive(Debug)]
pub struct ChangedSymbols {
    pub ids: Vec<String>,
    pub names: Vec<String>,
}

impl ChangedSymbols {
    /// No symbols.
    pub fn new() -> (changed: Self)
        ensures
            views(changed.ids@) == Seq::<Seq<char>>::empty(),
            views(changed.names@) == Seq::<Seq<char>>::empty(),
    {
        let changed = ChangedSymbols { ids: Vec::new(), names: Vec::new() };
        assert(views(changed.ids@) =~= seq![]);
        assert(views(changed.names@) =~= seq![]);
        changed
    }

    /// One more symbol.
    pub fn note(&mut self, id: &str, name: &str)
        ensures
            views(final(self).ids@) == views(old(self).ids@).push(id@),
            views(final(self).names@) == views(old(self).names@).push(name@),
    {
        let id = id.to_string();
        let name = name.to_string();
        proof {
            lemma_views_push(self.ids@, id);
            lemma_views_push(self.names@, name);
        }
        self.ids.push(id);
        self.names.push(name);
    }
}

/// The callers that a change of symbols with these names concerns, by their call sites.
pub open spec fn callers_of(calls: Seq<RawCallView>, names: Seq<Seq<char>>) -> Seq<Seq<char>>
    decreases calls.len(),
{
    if calls.len() == 0 {
        seq![]
    } else if names.contains(calls.last().callee_simple) {
        callers_of(calls.drop_last(), names).push(calls.last().caller_id)
    } else {
        callers_of(calls.drop_last(), names)
    }
}

/// The callers that a change of symbols with these names concerns, by their references
/// without a target.
pub open spec fn referrers_of(references: Seq<UnresolvedRefView>, names: Seq<Seq<char>>) -> Seq<
    Seq<char>,
>
    decreases references.len(),
{
    if references.len() == 0 {
        seq![]
    } else if names.contains(callee_parts(references.last().specifier).1) {
        referrers_of(references.drop_last(), names).push(references.last().source_id)
    } else {
        referrers_of(references.drop_last(), names)
    }
}

/// The symbols whose calls are resolved anew: the changed ones, and those that call or
/// refer to a changed name; in order, each once.
pub open spec fn affected(
    ids: Seq<Seq<char>>,
    names: Seq<Seq<char>>,
    calls: Seq<RawCallView>,
    references: Seq<UnresolvedRefView>,
) -> Seq<Seq<char>> {
    distinct_texts(ids + callers_of(calls, names) + referrers_of(references, names))
}

/// The symbols whose calls are resolved anew after a change.
pub fn affected_sources(
    changed: &ChangedSymbols,
    calls: &Vec<RawCall>,
    references: &Vec<UnresolvedRef>,
) -> (sources: Vec<String>)
    ensures
        views(sources@) == affected(
            views(changed.ids@),
            views(changed.names@),
            views(calls@),
            views(references@),
        ),
{
    let ghost ids = views(changed.ids@);
    let ghost names = views(changed.names@);
    let mut sources: Vec<String> = Vec::new();
    let mut i: usize = 0;
    assert(views(sources@) =~= ids.take(0));
    while i < changed.ids.len()
        invariant
            i <= changed.ids@.len(),
            ids == views(changed.ids@),
            views(sources@) == ids.take(i as int),
        decreases changed.ids@.len() - i,
    {
        let id = changed.ids[i].clone();
        proof {
            lemma_views_push(sources@, id);
            assert(ids.take(i + 1) =~= ids.take(i as int).push(id@));
        }
        sources.push(id);
        i = i + 1;
    }
    assert(ids.take(i as int) =~= ids);
    let changed_names = text_set(&changed.names);
    let ghost all_calls = views(calls@);
    let mut j: usize = 0;
    assert(all_calls.take(0) =~= seq![]);
    assert(ids + callers_of(all_calls.take(0), names) =~= ids);
    while j < calls.len()
        invariant
            j <= calls@.len(),
            all_calls == views(calls@),
            names == views(changed.names@),
            forall|text: Seq<char>| #[trigger]
                texts_in(changed_names).contains(text) <==> names.contains(text),
            views(sources@) == ids + callers_of(all_calls.take(j as int), names),
        decreases calls@.len() - j,
    {
        proof {
            assert(all_calls.take(j + 1).drop_last() =~= all_calls.take(j as int));
            assert(all_calls.take(j + 1).last() == calls@[j as int]@);
        }
        if changed_names.contains(calls[j].callee_simple.as_str()) {
            let id = calls[j].caller_id.clone();
            let ghost before = sources@;
            sources.push(id);
            proof {
                lemma_views_push(before, id);
                assert(views(sources@) =~= ids + callers_of(all_calls.take(j + 1), names));
            }
        }
        j = j + 1;
    }
    assert(all_calls.take(j as int) =~= all_calls);
    let ghost first = ids + callers_of(all_calls, names);
    let ghost all = views(references@);
    let mut k: usize = 0;
    assert(all.take(0) =~= seq![]);
    assert(first + referrers_of(all.take(0), names) =~= first);
    while k < references.len()
        invariant
            k <= references@.len(),
            all == views(references@),
            names == views(changed.names@),
            forall|text: Seq<char>| #[trigger]
                texts_in(changed_names).contains(text) <==> names.contains(text),
            views(sources@) == first + referrers_of(all.take(k as int), names),
        decreases references@.len() - k,
    {
        proof {
            assert(all.take(k + 1).drop_last() =~= all.take(k as int));
            assert(all.take(k + 1).last() == references@[k as int]@);
        }
        let (_, simple) = split_callee_name(references[k].specifier.as_str());
        if changed_names.contains(simple.as_str()) {
            let id = references[k].source_id.clone();
            let ghost before = sources@;
            sources.push(id);
            proof {
                lemma_views_push(before, id);
                assert(views(sources@) =~= first + referrers_of(all.take(k + 1), names));
            }
        }
        k = k + 1;
    }
    assert(all.take(k as int) =~= all);
    dedup_by(sort_by(sources, &ByText), &ByText)
}

/// The calls that some symbols make.
pub open spec fn calls_of(calls: Seq<RawCallView>, callers: Seq<Seq<char>>) -> Seq<RawCallView> {
    chosen(calls, |call: RawCallView| callers.contains(call.caller_id))
}

/// The calls that some symbols make, in the order in which they are stored.
pub fn calls_to_replay(calls: &Vec<RawCall>, callers: &Vec<String>) -> (found: Vec<RawCall>)
    ensures
        views(found@) == calls_of(views(calls@), views(callers@)),
{
    let ghost all = views(calls@);
    let wanted = text_set(callers);
    let mut found: Vec<RawCall> = Vec::new();
    let mut i: usize = 0;
    assert(all.take(0) =~= seq![]);
    assert(views(found@) =~= seq![]);
    while i < calls.len()
        invariant
            i <= calls@.len(),
            all == views(calls@),
            forall|text: Seq<char>| #[trigger]
                texts_in(wanted).contains(text) <==> views(callers@).contains(text),
            views(found@) == calls_of(all.take(i as int), views(callers@)),
        decreases calls@.len() - i,
    {
        let call = &calls[i];
        proof {
            assert(all.take(i + 1).drop_last() =~= all.take(i as int));
            assert(all.take(i + 1).last() == call@);
        }
        if wanted.contains(call.caller_id.as_str()) {
            let copy = call.clone();
            proof {
                lemma_views_push(found@, copy);
            }
            found.push(copy);
        }
        i = i + 1;
    }
    assert(all.take(i as int) =~= all);
    found
}

/// The relations whose edges lead to the symbol that records them.
pub open spec fn is_reversed_kind(kind: Seq<char>) -> bool {
    kind == "injected_into"@ || kind == "consumes_event"@
}

/// The symbol that records the call or relation between two symbols.
pub open spec fn recorder(source_id: Seq<char>, target_id: Seq<char>, kind: Seq<char>) -> Seq<char> {
    if is_reversed_kind(kind) {
        target_id
    } else {
        source_id
    }
}

/// The symbol that records the call or relation that an edge comes from.
pub open spec fn owner_of(edge: EdgeView) -> Seq<char> {
    recorder(edge.source_id, edge.target_id, edge.kind)
}

/// The edges that come from the calls of some symbols.
pub open spec fn edges_of(edges: Seq<EdgeView>, owners: Seq<Seq<char>>) -> Seq<EdgeView> {
    chosen(edges, |edge: EdgeView| owners.contains(owner_of(edge)))
}

/// The edges that come from the calls of other symbols.
pub open spec fn edges_of_others(edges: Seq<EdgeView>, owners: Seq<Seq<char>>) -> Seq<EdgeView> {
    chosen(edges, |edge: EdgeView| !owners.contains(owner_of(edge)))
}

/// The symbol that records the call or relation that an edge comes from.
pub fn edge_owner(edge: &Edge) -> (id: &str)
    ensures
        id@ == owner_of(edge@),
{
    if same(edge.kind.as_str(), "injected_into") || same(edge.kind.as_str(), "consumes_event") {
        edge.target_id.as_str()
    } else {
        edge.source_id.as_str()
    }
}

/// The stored edges that make way for those of replayed calls: the edges that come from
/// the calls of some symbols.
pub fn edges_to_drop(edges: &Vec<Edge>, owners: &Vec<String>) -> (dropped: Vec<Edge>)
    ensures
        views(dropped@) == edges_of(views(edges@), views(owners@)),
{
    let ghost all = views(edges@);
    let wanted = text_set(owners);
    let mut dropped: Vec<Edge> = Vec::new();
    let mut i: usize = 0;
    assert(all.take(0) =~= seq![]);
    assert(views(dropped@) =~= seq![]);
    while i < edges.len()
        invariant
            i <= edges@.len(),
            all == views(edges@),
            forall|text: Seq<char>| #[trigger]
                texts_in(wanted).contains(text) <==> views(owners@).contains(text),
            views(dropped@) == edges_of(all.take(i as int), views(owners@)),
        decreases edges@.len() - i,
    {
        proof {
            assert(all.take(i + 1).drop_last() =~= all.take(i as int));
            assert(all.take(i + 1).last() == edges@[i as int]@);
        }
        if wanted.contains(edge_owner(&edges[i])) {
            let edge = edges[i].clone();
            proof {
                lemma_views_push(dropped@, edge);
            }
            dropped.push(edge);
        }
        i = i + 1;
    }
    assert(all.take(i as int) =~= all);
    dropped
}

/// The edges both ends of which are among some ids.
pub open spec fn anchored(edges: Seq<EdgeView>, ids: Set<Seq<char>>) -> Seq<EdgeView> {
    chosen(
        edges,
        |edge: EdgeView| ids.contains(edge.source_id) && ids.contains(edge.target_id),
    )
}

/// The edges both ends of which are in the index.
pub fn edges_to_store(edges: &Vec<Edge>, index: &SymbolIndex) -> (kept: Vec<Edge>)
    ensures
        views(kept@) == anchored(views(edges@), index@.by_id.dom()),
{
    let ghost all = views(edges@);
    let ghost ids = index@.by_id.dom();
    let mut kept: Vec<Edge> = Vec::new();
    let mut i: usize = 0;
    assert(all.take(0) =~= seq![]);
    assert(views(kept@) =~= seq![]);
    while i < edges.len()
        invariant
            i <= edges@.len(),
            all == views(edges@),
            ids == index@.by_id.dom(),
            views(kept@) == anchored(all.take(i as int), ids),
        decreases edges@.len() - i,
    {
        proof {
            assert(all.take(i + 1).drop_last() =~= all.take(i as int));
            assert(all.take(i + 1).last() == edges@[i as int]@);
        }
        if index.by_id.get(edges[i].source_id.as_str()).is_some() && index.by_id.get(
            edges[i].target_id.as_str(),
        ).is_some() {
            let edge = edges[i].clone();
            proof {
                lemma_views_push(kept@, edge);
            }
            kept.push(edge);
        }
        i = i + 1;
    }
    assert(all.take(i as int) =~= all);
    kept
}

// ---------------------------------------------------------------------------
// Laws

pub proof fn lemma_affected(
    ids: Seq<Seq<char>>,
    names: Seq<Seq<char>>,
    calls: Seq<RawCallView>,
    references: Seq<UnresolvedRefView>,
    id: Seq<char>,
)
    requires
        ids.contains(id) || callers_of(calls, names).contains(id) || referrers_of(
            references,
            names,
        ).contains(id),
    ensures
        affected(ids, names, calls, references).contains(id),
{
    let callers = callers_of(calls, names);
    let referrers = referrers_of(references, names);
    let all = ids + callers + referrers;
    assert(all.contains(id)) by {
        if ids.contains(id) {
            let k = choose|k: int| 0 <= k < ids.len() && ids[k] == id;
            assert(all[k] == id);
        } else if callers.contains(id) {
            let k = choose|k: int| 0 <= k < callers.len() && callers[k] == id;
            assert(all[ids.len() + k] == id);
        } else {
            let k = choose|k: int| 0 <= k < referrers.len() && referrers[k] == id;
            assert(all[ids.len() + callers.len() + k] == id);
        }
    }
    distinct_texts_ascend(all);
}

pub proof fn lemma_caller_listed(calls: Seq<RawCallView>, names: Seq<Seq<char>>, k: int)
    requires
        0 <= k < calls.len(),
        names.contains(calls[k].callee_simple),
    ensures
        callers_of(calls, names).contains(calls[k].caller_id),
    decreases calls.len(),
{
    let all = callers_of(calls, names);
    let front = calls.drop_last();
    let inner = callers_of(front, names);
    if k == calls.len() - 1 {
        assert(all[inner.len() as int] == calls[k].caller_id);
    } else {
        assert(front[k] == calls[k]);
        lemma_caller_listed(front, names, k);
        let i = choose|i: int| 0 <= i < inner.len() && inner[i] == calls[k].caller_id;
        assert(all[i] == calls[k].caller_id);
    }
}

proof fn lemma_referrer_listed(
    references: Seq<UnresolvedRefView>,
    names: Seq<Seq<char>>,
    k: int,
)
    requires
        0 <= k < references.len(),
        names.contains(callee_parts(references[k].specifier).1),
    ensures
        referrers_of(references, names).contains(references[k].source_id),
    decreases references.len(),
{
    let all = referrers_of(references, names);
    let front = references.drop_last();
    let inner = referrers_of(front, names);
    if k == references.len() - 1 {
        assert(all[inner.len() as int] == references[k].source_id);
    } else {
        assert(front[k] == references[k]);
        lemma_referrer_listed(front, names, k);
        let i = choose|i: int| 0 <= i < inner.len() && inner[i] == references[k].source_id;
        assert(all[i] == references[k].source_id);
    }
}

/// A call of a name that changed is resolved anew, even where its own file did not
/// change.
pub proof fn calls_of_changed_names_are_replayed(
    ids: Seq<Seq<char>>,
    names: Seq<Seq<char>>,
    calls: Seq<RawCallView>,
    references: Seq<UnresolvedRefView>,
    k: int,
)
    requires
        0 <= k < calls.len(),
        names.contains(calls[k].callee_simple) || ids.contains(calls[k].caller_id),
    ensures
        calls_of(calls, affected(ids, names, calls, references)).contains(calls[k]),
{
    if names.contains(calls[k].callee_simple) {
        lemma_caller_listed(calls, names, k);
    }
    lemma_affected(ids, names, calls, references, calls[k].caller_id);
    let callers = affected(ids, names, calls, references);
    chosen_members(calls, |call: RawCallView| callers.contains(call.caller_id));
    assert(calls.contains(calls[k]));
}

/// The calls of a symbol with a reference to a name that changed are resolved anew, so
/// that the reference can find its target.
pub proof fn references_to_changed_names_are_replayed(
    ids: Seq<Seq<char>>,
    names: Seq<Seq<char>>,
    calls: Seq<RawCallView>,
    references: Seq<UnresolvedRefView>,
    r: int,
    k: int,
)
    requires
        0 <= r < references.len(),
        names.contains(callee_parts(references[r].specifier).1),
        0 <= k < calls.len(),
        calls[k].caller_id == references[r].source_id,
    ensures
        calls_of(calls, affected(ids, names, calls, references)).contains(calls[k]),
{
    lemma_referrer_listed(references, names, r);
    lemma_affected(ids, names, calls, references, calls[k].caller_id);
    let callers = affected(ids, names, calls, references);
    chosen_members(calls, |call: RawCallView| callers.contains(call.caller_id));
    assert(calls.contains(calls[k]));
}

/// The calls that are resolved anew are the stored calls of the affected symbols, as
/// they stand: no call of theirs is left out, and no other call is taken.
pub proof fn replayed_calls_are_affected(
    calls: Seq<RawCallView>,
    callers: Seq<Seq<char>>,
    call: RawCallView,
)
    ensures
        calls_of(calls, callers).contains(call) <==> calls.contains(call) && callers.contains(
            call.caller_id,
        ),
{
    chosen_members(calls, |call: RawCallView| callers.contains(call.caller_id));
}

/// An edge is dropped or kept, and never both.
pub proof fn dropped_edges_are_not_kept(
    edges: Seq<EdgeView>,
    owners: Seq<Seq<char>>,
    edge: EdgeView,
)
    ensures
        edges.contains(edge) <==> edges_of(edges, owners).contains(edge) || edges_of_others(
            edges,
            owners,
        ).contains(edge),
        !(edges_of(edges, owners).contains(edge) && edges_of_others(edges, owners).contains(edge)),
{
    chosen_members(edges, |edge: EdgeView| owners.contains(owner_of(edge)));
    chosen_members(edges, |edge: EdgeView| !owners.contains(owner_of(edge)));
}

} // verus!
