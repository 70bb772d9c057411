//! Whether an index can be trusted, and what speaks against it.

use std::collections::hash_map::DefaultHasher;
use std::hash::{BuildHasher, BuildHasherDefault};
pub mod laws;

use vstd::prelude::*;
use crate::commands::index::{can_index, is_indexable};
use crate::db::refs::{reason_of, reference_reason};
use crate::ordered::{
    number_first_order, relation_of, sort_by, sorted_by, text_first_order, text_keys_order, Order,
};
use crate::sets::{text_set, texts_in};
use crate::text::{
    begins, decimal, join2, join3, lemma_views_push, less, number, opt_text, same, starts_with,
    text_lt, views,
};

verus! {

// ---------------------------------------------------------------------------
// Content hashes

/// The digit for a number below sixteen.
pub open spec fn hex_digit(n: int) -> char {
    if n < 10 {
        (n + 48) as char
    } else {
        (n + 87) as char
    }
}

/// A number in hexadecimal digits.
pub open spec fn hex(n: nat) -> Seq<char>
    decreases n,
{
    if n < 16 {
        seq![hex_digit(n as int)]
    } else {
        hex(n / 16).push(hex_digit((n % 16) as int))
    }
}

fn digit_char(n: u8) -> (c: char)
    requires
        n < 16,
    ensures
        c == hex_digit(n as int),
{
    if n < 10 {
        (n + 48) as char
    } else {
        (n + 87) as char
    }
}

/// A number in hexadecimal digits.
pub fn hex_text(n: u64) -> (text: String)
    ensures
        text@ == hex(n as nat),
    decreases n,
{
    if n < 16 {
        let mut text = String::new();
        text.push(digit_char(n as u8));
        assert(text@ =~= hex(n as nat));
        text
    } else {
        let mut text = hex_text(n / 16);
        text.push(digit_char((n % 16) as u8));
        text
    }
}

/// The hash of a text by the standard hasher with its fixed keys.
pub uninterp spec fn content_hash(content: Seq<char>) -> u64;

/// Calls `BuildHasher::hash_one` with the `DefaultHasher` that `default` makes. Hashers
/// made that way are all the same, so that equal texts have equal hashes; the result is
/// named and nothing more is claimed of it. The hasher may be another one in another
/// release of the standard library.
#[verifier::external_body]
fn hash_text(content: &str) -> (hash: u64)
    ensures
        hash == content_hash(content@),
{
    BuildHasherDefault::<DefaultHasher>::default().hash_one(content)
}

/// The hash of a file's content as it is stored.
pub open spec fn stored_hash(content: Seq<char>) -> Seq<char> {
    hex(content_hash(content) as nat)
}

/// The hash of a file's content as it is stored.
pub fn calculate_content_hash(content: &str) -> (hash: String)
    ensures
        hash@ == stored_hash(content@),
{
    hex_text(hash_text(content))
}

// ---------------------------------------------------------------------------
// Freshness

/// Whether an index matches the files.
#[derive(Clone, Copy, Debug, PartialEq, Eq, Structural)]
pub enum Freshness {
    Fresh,
    Stale,
}

impl Freshness {
    /// The name of a state.
    pub open spec fn label(self) -> Seq<char> {
        match self {
            Freshness::Fresh => "fresh"@,
            Freshness::Stale => "stale"@,
        }
    }

    /// The name of a state.
    pub fn as_str(&self) -> (name: &'static str)
        ensures
            name@ == self.label(),
    {
        match self {
            Freshness::Fresh => "fresh",
            Freshness::Stale => "stale",
        }
    }
}

/// A file of the index, with the hash of its content.
#[derive(Debug)]
pub struct IndexedFile {
    pub path: String,
    pub content_hash: String,
}

/// The content of an [`IndexedFile`].
#[verifier::ext_equal]
pub struct IndexedFileView {
    pub path: Seq<char>,
    pub content_hash: Seq<char>,
}

impl View for IndexedFile {
    type V = IndexedFileView;

    open spec fn view(&self) -> IndexedFileView {
        IndexedFileView { path: self.path@, content_hash: self.content_hash@ }
    }
}

/// A file on disk, with its content where that could be read as text.
#[derive(Debug)]
pub struct DiscoveredFile {
    pub path: String,
    pub content: Option<String>,
}

/// The content of a [`DiscoveredFile`].
#[verifier::ext_equal]
pub struct DiscoveredFileView {
    pub path: Seq<char>,
    pub content: Option<Seq<char>>,
}

impl View for DiscoveredFile {
    type V = DiscoveredFileView;

    open spec fn view(&self) -> DiscoveredFileView {
        DiscoveredFileView { path: self.path@, content: opt_text(self.content) }
    }
}

/// The file on disk is as the index has it.
pub open spec fn matches_disk(indexed: IndexedFileView, disk: Seq<DiscoveredFileView>) -> bool {
    exists|i: int|
        0 <= i < disk.len() && (#[trigger] disk[i]).path == indexed.path && disk[i].content is Some
            && stored_hash(disk[i].content->0) == indexed.content_hash
}

/// The path is one of the index.
pub open spec fn is_indexed(path: Seq<char>, indexed: Seq<IndexedFileView>) -> bool {
    exists|i: int| 0 <= i < indexed.len() && (#[trigger] indexed[i]).path == path
}

/// The index matches the files: it is not empty, each of its files is on disk as it was,
/// and a file that is on disk alone is one that a run would not take in.
pub open spec fn sources_fresh(
    indexed: Seq<IndexedFileView>,
    disk: Seq<DiscoveredFileView>,
) -> bool {
    &&& indexed.len() > 0
    &&& forall|i: int| 0 <= i < indexed.len() ==> matches_disk(#[trigger] indexed[i], disk)
    &&& forall|i: int|
        0 <= i < disk.len() ==> is_indexed((#[trigger] disk[i]).path, indexed) || !is_indexable(
            disk[i].path,
            disk[i].content,
        )
}

fn found_on_disk(indexed: &IndexedFile, disk: &Vec<DiscoveredFile>) -> (found: bool)
    ensures
        found == matches_disk(indexed@, views(disk@)),
{
    let ghost all = views(disk@);
    let mut i: usize = 0;
    while i < disk.len()
        invariant
            i <= disk@.len(),
            all == views(disk@),
            forall|k: int|
                0 <= k < i ==> !((#[trigger] all[k]).path == indexed@.path && all[k].content is Some
                    && stored_hash(all[k].content->0) == indexed@.content_hash),
        decreases disk@.len() - i,
    {
        assert(all[i as int] == disk@[i as int]@);
        if same(disk[i].path.as_str(), indexed.path.as_str()) {
            if let Some(content) = &disk[i].content {
                let hash = calculate_content_hash(content.as_str());
                if same(hash.as_str(), indexed.content_hash.as_str()) {
                    return true;
                }
            }
        }
        i = i + 1;
    }
    false
}

fn copy_paths(files: &Vec<IndexedFile>) -> (paths: Vec<String>)
    ensures
        forall|path: Seq<char>| #[trigger]
            views(paths@).contains(path) <==> is_indexed(path, views(files@)),
{
    let ghost all = views(files@);
    let mut paths: Vec<String> = Vec::new();
    let mut i: usize = 0;
    while i < files.len()
        invariant
            i <= files@.len(),
            all == views(files@),
            paths@.len() == i,
            forall|k: int| 0 <= k < i ==> #[trigger] views(paths@)[k] == all[k].path,
        decreases files@.len() - i,
    {
        let path = files[i].path.clone();
        let ghost before = paths@;
        paths.push(path);
        proof {
            lemma_views_push(before, path);
            assert(all[i as int] == files@[i as int]@);
        }
        i = i + 1;
    }
    assert forall|path: Seq<char>| #[trigger] views(paths@).contains(path) <==> is_indexed(
        path,
        all,
    ) by {
        let listed = views(paths@);
        assert(listed.len() == paths@.len());
        if listed.contains(path) {
            let k = choose|k: int| 0 <= k < listed.len() && listed[k] == path;
            assert(all[k].path == path);
        }
        if is_indexed(path, all) {
            let k = choose|k: int| 0 <= k < all.len() && (#[trigger] all[k]).path == path;
            assert(listed[k] == path);
        }
    }
    paths
}

/// Whether the index matches the files.
pub fn indexed_sources_are_fresh(indexed: &Vec<IndexedFile>, disk: &Vec<DiscoveredFile>) -> (fresh:
    bool)
    ensures
        fresh == sources_fresh(views(indexed@), views(disk@)),
{
    let ghost files = views(indexed@);
    let ghost all = views(disk@);
    assert(files.len() == indexed@.len());
    if indexed.len() == 0 {
        return false;
    }
    let mut i: usize = 0;
    while i < indexed.len()
        invariant
            i <= indexed@.len(),
            files == views(indexed@),
            all == views(disk@),
            forall|k: int| 0 <= k < i ==> matches_disk(#[trigger] files[k], all),
        decreases indexed@.len() - i,
    {
        assert(files[i as int] == indexed@[i as int]@);
        if !found_on_disk(&indexed[i], disk) {
            return false;
        }
        i = i + 1;
    }
    let known = text_set(&copy_paths(indexed));
    let mut j: usize = 0;
    while j < disk.len()
        invariant
            j <= disk@.len(),
            files == views(indexed@),
            all == views(disk@),
            forall|path: Seq<char>| #[trigger]
                texts_in(known).contains(path) <==> is_indexed(path, files),
            forall|k: int|
                0 <= k < j ==> is_indexed((#[trigger] all[k]).path, files) || !is_indexable(
                    all[k].path,
                    all[k].content,
                ),
        decreases disk@.len() - j,
    {
        assert(all[j as int] == disk@[j as int]@);
        if !known.contains(disk[j].path.as_str()) {
            let content: Option<&str> = match &disk[j].content {
                Some(content) => Some(content.as_str()),
                None => None,
            };
            if can_index(disk[j].path.as_str(), content) {
                return false;
            }
        }
        j = j + 1;
    }
    true
}

/// A file that no run can take in does not make an index stale.
pub proof fn unindexable_files_leave_an_index_fresh(
    indexed: Seq<IndexedFileView>,
    disk: Seq<DiscoveredFileView>,
    file: DiscoveredFileView,
)
    requires
        sources_fresh(indexed, disk),
        !is_indexable(file.path, file.content),
    ensures
        sources_fresh(indexed, disk.push(file)),
{
    let more = disk.push(file);
    assert forall|i: int| 0 <= i < indexed.len() implies matches_disk(
        #[trigger] indexed[i],
        more,
    ) by {
        let k = choose|k: int|
            0 <= k < disk.len() && (#[trigger] disk[k]).path == indexed[i].path
                && disk[k].content is Some && stored_hash(disk[k].content->0)
                == indexed[i].content_hash;
        assert(more[k] == disk[k]);
    }
    assert forall|i: int| 0 <= i < more.len() implies is_indexed(
        (#[trigger] more[i]).path,
        indexed,
    ) || !is_indexable(more[i].path, more[i].content) by {
        if i < disk.len() {
            assert(more[i] == disk[i]);
        }
    }
}

/// An index is fresh right after a run over the same files: each file that can be taken
/// in is indexed with the hash of its content, and no other.
pub proof fn a_run_leaves_its_index_fresh(
    indexed: Seq<IndexedFileView>,
    disk: Seq<DiscoveredFileView>,
)
    requires
        indexed.len() > 0,
        forall|i: int| 0 <= i < indexed.len() ==> matches_disk(#[trigger] indexed[i], disk),
        forall|i: int|
            0 <= i < disk.len() && is_indexable((#[trigger] disk[i]).path, disk[i].content)
                ==> is_indexed(disk[i].path, indexed),
    ensures
        sources_fresh(indexed, disk),
{
}

// ---------------------------------------------------------------------------
// Verdicts

/// What to do before an index is used, where its schema is as expected or not.
pub open spec fn needed_action(schema_match: bool, nodes: int, freshness: Freshness) -> Seq<char> {
    if !schema_match || nodes == 0 {
        "ochna init"@
    } else if freshness == Freshness::Stale {
        "ochna sync"@
    } else {
        "none"@
    }
}

/// Whether an index is ready, and what to do if it is not.
pub fn index_readiness(schema_match: bool, nodes: i64, freshness: Freshness) -> (state: (
    bool,
    &'static str,
))
    requires
        nodes >= 0,
    ensures
        state.1@ == needed_action(schema_match, nodes as int, freshness),
        state.0 == (schema_match && nodes > 0 && freshness == Freshness::Fresh),
{
    let action = if !schema_match || nodes == 0 {
        "ochna init"
    } else if freshness == Freshness::Stale {
        "ochna sync"
    } else {
        "none"
    };
    (schema_match && nodes > 0 && freshness != Freshness::Stale, action)
}

/// An index is ready exactly if nothing is to be done.
pub proof fn ready_means_nothing_to_do(schema_match: bool, nodes: int, freshness: Freshness)
    requires
        nodes >= 0,
    ensures
        (schema_match && nodes > 0 && freshness == Freshness::Fresh) == (needed_action(
            schema_match,
            nodes,
            freshness,
        ) == "none"@),
{
    reveal_strlit("none");
    reveal_strlit("ochna init");
    reveal_strlit("ochna sync");
    assert("none"@.len() == 4 && "ochna init"@.len() == 10 && "ochna sync"@.len() == 10);
}

/// How far a graph can be trusted.
pub open spec fn trust(schema_match: bool, freshness: Freshness, degraded: bool) -> Seq<char> {
    if !schema_match {
        "unusable"@
    } else if freshness == Freshness::Fresh && !degraded {
        "trusted"@
    } else {
        "degraded"@
    }
}

/// What the check of a graph says.
#[derive(Debug, PartialEq)]
pub struct Diagnosis {
    pub freshness: &'static str,
    pub verdict: &'static str,
    pub next_action: &'static str,
    pub error: Option<String>,
}

/// What to do about a graph.
pub open spec fn remedy(schema_match: bool, freshness: Freshness) -> Seq<char> {
    if !schema_match {
        "ochna init"@
    } else if freshness == Freshness::Stale {
        "ochna sync"@
    } else {
        "none"@
    }
}

/// Why the check of a graph fails, if it does.
pub open spec fn complaint(schema_match: bool, freshness: Freshness, degraded: bool) -> Option<
    Seq<char>,
> {
    if schema_match && freshness == Freshness::Fresh && !degraded {
        None
    } else if degraded && freshness == Freshness::Fresh {
        Some(
            "Graph quality is degraded; review low-quality locations and unsupported source extensions."@,
        )
    } else {
        Some(
            "Graph trust is "@ + trust(schema_match, freshness, degraded) + ". Run '"@ + remedy(
                schema_match,
                freshness,
            ) + "'."@,
        )
    }
}

/// Judges a graph by its schema, its freshness and what was found against it.
pub fn diagnose(schema_match: bool, freshness: Freshness, degraded: bool) -> (diagnosis: Diagnosis)
    ensures
        diagnosis.freshness@ == if schema_match {
            freshness.label()
        } else {
            "incompatible"@
        },
        diagnosis.verdict@ == trust(schema_match, freshness, degraded),
        diagnosis.next_action@ == remedy(schema_match, freshness),
        opt_text(diagnosis.error) == complaint(schema_match, freshness, degraded),
{
    let freshness_name = if schema_match {
        freshness.as_str()
    } else {
        "incompatible"
    };
    let verdict = if !schema_match {
        "unusable"
    } else if freshness == Freshness::Fresh && !degraded {
        "trusted"
    } else {
        "degraded"
    };
    let next_action = if !schema_match {
        "ochna init"
    } else if freshness == Freshness::Stale {
        "ochna sync"
    } else {
        "none"
    };
    let error = if schema_match && freshness == Freshness::Fresh && !degraded {
        None
    } else if degraded && freshness == Freshness::Fresh {
        Some(
            "Graph quality is degraded; review low-quality locations and unsupported source extensions.".to_string(),
        )
    } else {
        let head = join3("Graph trust is ", verdict, ". Run '");
        Some(join3(head.as_str(), next_action, "'."))
    };
    Diagnosis { freshness: freshness_name, verdict, next_action, error }
}

/// The check of a graph passes exactly if the graph is trusted.
pub proof fn only_trusted_graphs_pass(schema_match: bool, freshness: Freshness, degraded: bool)
    ensures
        (complaint(schema_match, freshness, degraded) is None) == (trust(
            schema_match,
            freshness,
            degraded,
        ) == "trusted"@),
{
    reveal_strlit("trusted");
    reveal_strlit("unusable");
    reveal_strlit("degraded");
    assert("trusted"@.len() == 7 && "unusable"@.len() == 8 && "degraded"@.len() == 8);
}

// ---------------------------------------------------------------------------
// Unresolved references

/// A reference without a target, where it stands and why.
#[derive(Debug, PartialEq)]
pub struct UnresolvedRow {
    pub source: String,
    pub specifier: String,
    pub kind: String,
    pub file_path: String,
    pub line: i64,
    pub column: i64,
    pub reason: String,
}

/// The content of an [`UnresolvedRow`].
#[verifier::ext_equal]
pub struct UnresolvedRowView {
    pub source: Seq<char>,
    pub specifier: Seq<char>,
    pub kind: Seq<char>,
    pub file_path: Seq<char>,
    pub line: int,
    pub column: int,
    pub reason: Seq<char>,
}

impl View for UnresolvedRow {
    type V = UnresolvedRowView;

    open spec fn view(&self) -> UnresolvedRowView {
        UnresolvedRowView {
            source: self.source@,
            specifier: self.specifier@,
            kind: self.kind@,
            file_path: self.file_path@,
            line: self.line as int,
            column: self.column as int,
            reason: self.reason@,
        }
    }
}

impl UnresolvedRow {
    /// A reference of which so many symbols bear the simple name.
    pub fn new(
        source: String,
        specifier: String,
        kind: String,
        file_path: String,
        line: i64,
        column: i64,
        candidates: i64,
    ) -> (row: Self)
        ensures
            row@ == (UnresolvedRowView {
                source: source@,
                specifier: specifier@,
                kind: kind@,
                file_path: file_path@,
                line: line as int,
                column: column as int,
                reason: reason_of(kind@, candidates as int),
            }),
    {
        let reason = reference_reason(kind.as_str(), candidates);
        UnresolvedRow { source, specifier, kind, file_path, line, column, reason }
    }
}

/// The order of references by where they stand.
pub struct BySource;

impl Order<UnresolvedRow> for BySource {
    open spec fn precedes(&self, left: UnresolvedRowView, right: UnresolvedRowView) -> bool {
        if left.file_path != right.file_path {
            text_lt(left.file_path, right.file_path)
        } else if left.line != right.line {
            left.line < right.line
        } else if left.column != right.column {
            left.column < right.column
        } else {
            text_lt(left.specifier, right.specifier)
        }
    }

    fn before(&self, left: &UnresolvedRow, right: &UnresolvedRow) -> (found: bool) {
        if !same(left.file_path.as_str(), right.file_path.as_str()) {
            less(left.file_path.as_str(), right.file_path.as_str())
        } else if left.line != right.line {
            left.line < right.line
        } else if left.column != right.column {
            left.column < right.column
        } else {
            less(left.specifier.as_str(), right.specifier.as_str())
        }
    }

    proof fn is_order(&self) {
        let rest3 = |l: UnresolvedRowView, r: UnresolvedRowView| text_lt(l.specifier, r.specifier);
        text_keys_order(rest3, |item: UnresolvedRowView| item.specifier);
        let rest2 = |l: UnresolvedRowView, r: UnresolvedRowView| if l.column != r.column {
            l.column < r.column
        } else {
            text_lt(l.specifier, r.specifier)
        };
        number_first_order(rest2, |item: UnresolvedRowView| item.column, rest3);
        let rest1 = |l: UnresolvedRowView, r: UnresolvedRowView| if l.line != r.line {
            l.line < r.line
        } else {
            if l.column != r.column {
                l.column < r.column
            } else {
                text_lt(l.specifier, r.specifier)
            }
        };
        number_first_order(rest1, |item: UnresolvedRowView| item.line, rest2);
        let whole = |left: UnresolvedRowView, right: UnresolvedRowView| self.precedes(left, right);
        text_first_order(whole, |item: UnresolvedRowView| item.file_path, rest1);
    }
}

struct InPath<'a> {
    prefix: &'a str,
}

impl<'a> crate::ordered::Choice<UnresolvedRow> for InPath<'a> {
    closed spec fn picks(&self, row: UnresolvedRowView) -> bool {
        starts_with(row.file_path, self.prefix@)
    }

    fn pick(&self, row: &UnresolvedRow) -> (picked: bool) {
        begins(row.file_path.as_str(), self.prefix)
    }
}

/// The references in files under a prefix, in the order in which they stand.
pub open spec fn rows_under(rows: Seq<UnresolvedRowView>, prefix: Option<Seq<char>>) -> Seq<
    UnresolvedRowView,
> {
    sorted_by(
        match prefix {
            Some(prefix) => crate::ordered::chosen(
                rows,
                |row: UnresolvedRowView| starts_with(row.file_path, prefix),
            ),
            None => rows,
        },
        relation_of::<UnresolvedRow, BySource>(BySource),
    )
}

/// At most `limit` references in files under a prefix, in the order in which they stand,
/// and whether there are more.
pub fn unresolved_rows(rows: Vec<UnresolvedRow>, in_path: Option<&str>, limit: usize) -> (result: (
    Vec<UnresolvedRow>,
    bool,
))
    ensures
        ({
            let all = rows_under(views(rows@), crate::text::opt_str(in_path));
            &&& result.1 == (all.len() > limit)
            &&& views(result.0@) == if all.len() > limit {
                all.take(limit as int)
            } else {
                all
            }
        }),
{
    let ghost wanted = rows_under(views(rows@), crate::text::opt_str(in_path));
    let kept = match in_path {
        Some(prefix) => {
            let choice = InPath { prefix };
            assert(crate::ordered::choice_of::<UnresolvedRow, InPath>(choice) =~= (|
                row: UnresolvedRowView,
            | starts_with(row.file_path, prefix@)));
            crate::ordered::choose_by(rows, &choice)
        },
        None => rows,
    };
    let mut sorted = sort_by(kept, &BySource);
    assert(views(sorted@) == wanted);
    assert(wanted.len() == sorted@.len());
    let more = sorted.len() > limit;
    if more {
        sorted.truncate(limit);
        assert(views(sorted@) =~= wanted.take(limit as int));
    }
    (sorted, more)
}

/// The line that shows a reference.
pub open spec fn row_line(row: UnresolvedRowView) -> Seq<char> {
    row.file_path + ":"@ + decimal(row.line) + ":"@ + decimal(row.column) + " "@ + row.specifier
        + " ("@ + row.reason + ")"@
}

/// The line that shows a reference.
pub fn show_row(row: &UnresolvedRow) -> (line: String)
    ensures
        line@ == row_line(row@),
{
    let at = number(row.line);
    let column = number(row.column);
    let place = join3(row.file_path.as_str(), ":", at.as_str());
    let exact = join3(place.as_str(), ":", column.as_str());
    let named = join3(exact.as_str(), " ", row.specifier.as_str());
    let open = join3(named.as_str(), " (", row.reason.as_str());
    join2(open.as_str(), ")")
}

/// The number of references with a reason.
pub open spec fn reason_count(rows: Seq<UnresolvedRowView>, reason: Seq<char>) -> nat
    decreases rows.len(),
{
    if rows.len() == 0 {
        0
    } else if rows.last().reason == reason {
        reason_count(rows.drop_last(), reason) + 1
    } else {
        reason_count(rows.drop_last(), reason)
    }
}

/// The number of references with a reason.
pub fn count_reason(rows: &Vec<UnresolvedRow>, reason: &str) -> (found: usize)
    ensures
        found == reason_count(views(rows@), reason@),
{
    let ghost all = views(rows@);
    let mut found: usize = 0;
    let mut i: usize = 0;
    assert(all.take(0) =~= seq![]);
    while i < rows.len()
        invariant
            i <= rows.len(),
            all == views(rows@),
            found <= i,
            found == reason_count(all.take(i as int), reason@),
        decreases rows@.len() - i,
    {
        proof {
            assert(all.take(i + 1).drop_last() =~= all.take(i as int));
            assert(all.take(i + 1).last() == rows@[i as int]@);
        }
        if same(rows[i].reason.as_str(), reason) {
            found = found + 1;
        }
        i = i + 1;
    }
    assert(all.take(i as int) =~= all);
    found
}

} // verus!
