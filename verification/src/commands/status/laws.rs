//! What the state of an index and of a graph comes to, case by case.

use vstd::prelude::*;
use crate::commands::index::is_indexable;
use crate::commands::status::{
    complaint, hex, needed_action, reason_count, remedy, rows_under, sources_fresh, stored_hash,
    trust, BySource, DiscoveredFileView, Freshness, IndexedFileView, UnresolvedRow,
    UnresolvedRowView,
};
use crate::ordered::{chosen, chosen_members, relation_of, sorting_keeps_members};
use crate::text::starts_with;

verus! {

/// The file on disk holds what the index has noted of it.
pub open spec fn agrees(indexed: IndexedFileView, file: DiscoveredFileView) -> bool {
    indexed.path == file.path && match file.content {
        Some(content) => stored_hash(content) == indexed.content_hash,
        None => false,
    }
}

/// Some file on disk holds what the index has noted of one.
pub open spec fn agrees_with_some(
    indexed: IndexedFileView,
    disk: Seq<DiscoveredFileView>,
) -> bool {
    exists|j: int| 0 <= j < disk.len() && agrees(indexed, #[trigger] disk[j])
}

/// The index has noted a file of the path.
pub open spec fn has_noted(indexed: Seq<IndexedFileView>, path: Seq<char>) -> bool {
    exists|j: int| 0 <= j < indexed.len() && (#[trigger] indexed[j]).path == path
}

/// An index without files is stale. One with a file that is gone, cannot be read or reads
/// otherwise than noted is stale. One without a file that it should hold is stale. Any
/// other is fresh.
pub proof fn every_difference_makes_an_index_stale(
    indexed: Seq<IndexedFileView>,
    disk: Seq<DiscoveredFileView>,
    i: int,
)
    ensures
        indexed.len() == 0 ==> !sources_fresh(indexed, disk),
        0 <= i < indexed.len() && !agrees_with_some(indexed[i], disk) ==> !sources_fresh(
            indexed,
            disk,
        ),
        0 <= i < disk.len() && !has_noted(indexed, disk[i].path) && is_indexable(
            disk[i].path,
            disk[i].content,
        ) ==> !sources_fresh(indexed, disk),
        indexed.len() > 0 && (forall|k: int|
            0 <= k < indexed.len() ==> agrees_with_some(#[trigger] indexed[k], disk)) && (forall|
            k: int,
        |
            0 <= k < disk.len() && is_indexable((#[trigger] disk[k]).path, disk[k].content)
                ==> has_noted(indexed, disk[k].path)) ==> sources_fresh(indexed, disk),
{
    assert forall|k: int| 0 <= k < indexed.len() implies agrees_with_some(
        #[trigger] indexed[k],
        disk,
    ) == crate::commands::status::matches_disk(indexed[k], disk) by {
        let one = indexed[k];
        if agrees_with_some(one, disk) {
            let j = choose|j: int| 0 <= j < disk.len() && agrees(one, #[trigger] disk[j]);
            assert(disk[j].path == one.path);
        }
        if crate::commands::status::matches_disk(one, disk) {
            let j = choose|j: int|
                0 <= j < disk.len() && (#[trigger] disk[j]).path == one.path
                    && disk[j].content is Some && stored_hash(disk[j].content->0)
                    == one.content_hash;
            assert(agrees(one, disk[j]));
        }
    }
    assert forall|k: int| 0 <= k < disk.len() implies has_noted(
        indexed,
        (#[trigger] disk[k]).path,
    ) == crate::commands::status::is_indexed(disk[k].path, indexed) by {
    }
}

/// What an index needs: a first run where its schema is another or it holds no symbols, a
/// run where it is stale, and nothing otherwise.
pub proof fn an_index_needs_what_it_lacks(schema_match: bool, nodes: int, freshness: Freshness)
    requires
        nodes >= 0,
    ensures
        !schema_match ==> needed_action(schema_match, nodes, freshness) == "ochna init"@,
        nodes == 0 ==> needed_action(schema_match, nodes, freshness) == "ochna init"@,
        schema_match && nodes > 0 && freshness == Freshness::Stale ==> needed_action(
            schema_match,
            nodes,
            freshness,
        ) == "ochna sync"@,
        schema_match && nodes > 0 && freshness == Freshness::Fresh ==> needed_action(
            schema_match,
            nodes,
            freshness,
        ) == "none"@,
{
}

/// How far a graph is trusted, what is to be done and what is complained of, in each
/// state.
pub proof fn a_graph_is_judged_by_its_state(
    schema_match: bool,
    freshness: Freshness,
    degraded: bool,
)
    ensures
        !schema_match ==> trust(schema_match, freshness, degraded) == "unusable"@ && remedy(
            schema_match,
            freshness,
        ) == "ochna init"@,
        schema_match && freshness == Freshness::Stale ==> trust(schema_match, freshness, degraded)
            == "degraded"@ && remedy(schema_match, freshness) == "ochna sync"@,
        schema_match && freshness == Freshness::Fresh && degraded ==> trust(
            schema_match,
            freshness,
            degraded,
        ) == "degraded"@ && remedy(schema_match, freshness) == "none"@,
        schema_match && freshness == Freshness::Fresh && !degraded ==> trust(
            schema_match,
            freshness,
            degraded,
        ) == "trusted"@ && remedy(schema_match, freshness) == "none"@,
        complaint(schema_match, freshness, degraded) is None <==> schema_match && freshness
            == Freshness::Fresh && !degraded,
        degraded && freshness == Freshness::Fresh ==> complaint(schema_match, freshness, degraded)
            == Some(
            "Graph quality is degraded; review low-quality locations and unsupported source extensions."@,
        ),
        !schema_match && (!degraded || freshness == Freshness::Stale) ==> complaint(
            schema_match,
            freshness,
            degraded,
        ) == Some("Graph trust is "@ + "unusable"@ + ". Run '"@ + "ochna init"@ + "'."@),
        schema_match && freshness == Freshness::Stale ==> complaint(
            schema_match,
            freshness,
            degraded,
        ) == Some("Graph trust is "@ + "degraded"@ + ". Run '"@ + "ochna sync"@ + "'."@),
{
}

/// A listing under a prefix holds just the references in files whose paths begin with it,
/// and a listing without one holds all.
pub proof fn listings_hold_what_is_under_the_prefix(
    rows: Seq<UnresolvedRowView>,
    prefix: Seq<char>,
    row: UnresolvedRowView,
)
    ensures
        rows_under(rows, Some(prefix)).contains(row) <==> rows.contains(row) && starts_with(
            row.file_path,
            prefix,
        ),
        rows_under(rows, None).contains(row) <==> rows.contains(row),
{
    let picks = |row: UnresolvedRowView| starts_with(row.file_path, prefix);
    let precedes = relation_of::<UnresolvedRow, BySource>(BySource);
    chosen_members(rows, picks);
    sorting_keeps_members(chosen(rows, picks), precedes);
    sorting_keeps_members(rows, precedes);
    if chosen(rows, picks).contains(row) {
        let i = choose|i: int| 0 <= i < chosen(rows, picks).len() && chosen(rows, picks)[i] == row;
        assert(picks(chosen(rows, picks)[i]));
    }
}

/// References are counted by their reasons, each once.
pub proof fn reasons_are_counted_one_by_one(
    rows: Seq<UnresolvedRowView>,
    row: UnresolvedRowView,
    reason: Seq<char>,
)
    ensures
        reason_count(seq![], reason) == 0,
        row.reason == reason ==> reason_count(rows.push(row), reason) == reason_count(rows, reason)
            + 1,
        row.reason != reason ==> reason_count(rows.push(row), reason) == reason_count(rows, reason),
{
    assert(rows.push(row).drop_last() =~= rows);
}

/// The number that hexadecimal digits stand for.
pub open spec fn hex_value(text: Seq<char>) -> int
    decreases text.len(),
{
    if text.len() == 0 {
        0
    } else {
        let c = text.last();
        hex_value(text.drop_last()) * 16 + if '0' <= c <= '9' {
            c as int - '0' as int
        } else {
            c as int - 'a' as int + 10
        }
    }
}

/// A number in hexadecimal is written in the digits `0` to `9` and `a` to `f`, without
/// zeros in front, and stands for the number.
pub proof fn hexadecimal_stands_for_the_number(n: nat)
    ensures
        hex_value(hex(n)) == n,
        hex(n).len() > 0,
        n > 0 ==> hex(n)[0] != '0',
        forall|i: int|
            0 <= i < hex(n).len() ==> '0' <= #[trigger] hex(n)[i] <= '9' || 'a' <= hex(n)[i] <= 'f',
    decreases n,
{
    if n < 16 {
        assert(hex(n).drop_last() =~= seq![]);
        assert(hex_value(hex(n).drop_last()) == 0);
    } else {
        hexadecimal_stands_for_the_number(n / 16);
        let front = hex(n / 16);
        assert(hex(n).drop_last() =~= front);
        assert(hex(n)[0] == front[0]);
    }
}

} // verus!
