//! What is counted, and which places, names and extensions are reported.

use vstd::prelude::*;
use crate::commands::quality::{
    collisions, count_or, directory_counts, extension_tally, last_count, location, low_locations,
    names_of, occurrences, row_directories, row_files, tallied, total, unsupported_extension,
    unsupported_extensions, ByLocation, LocationCounts, LocationView, NameCountView,
};
use crate::commands::status::UnresolvedRowView;
use crate::ordered::{
    chosen, chosen_members, distinct_texts, distinct_texts_ascend, kept_items_stand_for_all,
    lemma_push_members, relation_of, sameness_of, sorted_by, sorting_keeps_members, without_repeats,
};
use crate::paths::{directory, extension};
use crate::text::ascii_lower;

verus! {

/// A number of calls and a number of them that stay unresolved make a place one of low
/// quality: at least five calls, and at least a fifth of them unresolved.
pub open spec fn are_low(calls: int, unresolved: int) -> bool {
    calls >= 5 && unresolved * 5 >= calls
}

/// Names are counted one by one.
pub proof fn names_are_counted_one_by_one(names: Seq<Seq<char>>, last: Seq<char>, name: Seq<char>)
    ensures
        occurrences(seq![], name) == 0,
        last == name ==> occurrences(names.push(last), name) == occurrences(names, name) + 1,
        last != name ==> occurrences(names.push(last), name) == occurrences(names, name),
        occurrences(names, name) >= 0,
    decreases names.len(),
{
    assert(names.push(last).drop_last() =~= names);
    if names.len() > 0 {
        names_are_counted_one_by_one(names.drop_last(), names.last(), name);
    }
}

/// Numbers are added up by their names.
pub proof fn numbers_are_added_by_name(
    counts: Seq<NameCountView>,
    last: NameCountView,
    name: Seq<char>,
)
    ensures
        total(seq![], name) == 0,
        last.name == name ==> total(counts.push(last), name) == total(counts, name) + last.count,
        last.name != name ==> total(counts.push(last), name) == total(counts, name),
{
    assert(counts.push(last).drop_last() =~= counts);
}

proof fn lemma_tallied(unresolved: Seq<Seq<char>>, calls: Seq<NameCountView>, path: Seq<char>)
    ensures
        unresolved.contains(path) || names_of(calls).contains(path) ==> tallied(
            unresolved,
            calls,
        ).contains(location(path, unresolved, calls)),
{
    let all = unresolved + names_of(calls);
    distinct_texts_ascend(all);
    if unresolved.contains(path) || names_of(calls).contains(path) {
        assert(all.contains(path)) by {
            if unresolved.contains(path) {
                let i = choose|i: int| 0 <= i < unresolved.len() && unresolved[i] == path;
                assert(all[i] == path);
            } else {
                let i = choose|i: int| 0 <= i < names_of(calls).len() && names_of(calls)[i] == path;
                assert(all[unresolved.len() + i] == path);
            }
        }
        assert(distinct_texts(all).contains(path));
        let i = choose|i: int| 0 <= i < distinct_texts(all).len() && distinct_texts(all)[i] == path;
        assert(tallied(unresolved, calls)[i] == location(path, unresolved, calls));
    }
}

proof fn lemma_positive(names: Seq<Seq<char>>, name: Seq<char>)
    ensures
        occurrences(names, name) >= 0,
        occurrences(names, name) > 0 ==> names.contains(name),
    decreases names.len(),
{
    if names.len() > 0 {
        lemma_positive(names.drop_last(), name);
        assert(names =~= names.drop_last().push(names.last()));
        lemma_push_members(names.drop_last(), names.last(), name);
    }
}

proof fn lemma_counts_fall(counts: Seq<LocationView>, place: LocationView)
    requires
        counts.contains(place),
    ensures
        ({
            let kept = without_repeats(
                sorted_by(counts, relation_of::<LocationCounts, ByLocation>(ByLocation)),
                sameness_of::<LocationCounts, ByLocation>(ByLocation),
            );
            exists|k: int| 0 <= k < kept.len() && (#[trigger] kept[k]).path == place.path
        }),
{
    let precedes = relation_of::<LocationCounts, ByLocation>(ByLocation);
    let alike = sameness_of::<LocationCounts, ByLocation>(ByLocation);
    let sorted = sorted_by(counts, precedes);
    let kept = without_repeats(sorted, alike);
    sorting_keeps_members(counts, precedes);
    assert(sorted.contains(place));
    let k = choose|k: int| 0 <= k < sorted.len() && sorted[k] == place;
    kept_items_stand_for_all(sorted, alike, k);
}

/// Every file of low quality is reported, and so is every directory: whatever makes at
/// least five calls of which at least a fifth stay unresolved.
pub proof fn every_low_place_is_reported(
    rows: Seq<UnresolvedRowView>,
    calls: Seq<NameCountView>,
    path: Seq<char>,
)
    ensures
        are_low(total(calls, path), occurrences(row_files(rows), path)) ==> exists|i: int|
            0 <= i < low_locations(rows, calls).len() && (#[trigger] low_locations(
                rows,
                calls,
            )[i]).path == path,
        are_low(
            total(directory_counts(calls), path),
            occurrences(row_directories(rows), path),
        ) ==> exists|i: int|
            0 <= i < low_locations(rows, calls).len() && (#[trigger] low_locations(
                rows,
                calls,
            )[i]).path == path,
{
    let picks = |place: LocationView| crate::commands::quality::is_low(place);
    let by_file = tallied(row_files(rows), calls);
    let by_directory = tallied(row_directories(rows), directory_counts(calls));
    let files = chosen(by_file, picks);
    let directories = chosen(by_directory, picks);
    let all = files + directories;
    let precedes = relation_of::<LocationCounts, ByLocation>(ByLocation);
    let alike = sameness_of::<LocationCounts, ByLocation>(ByLocation);
    assert(low_locations(rows, calls) == without_repeats(sorted_by(all, precedes), alike));
    chosen_members(by_file, picks);
    chosen_members(by_directory, picks);
    if are_low(total(calls, path), occurrences(row_files(rows), path)) {
        lemma_positive(row_files(rows), path);
        lemma_tallied(row_files(rows), calls, path);
        let place = location(path, row_files(rows), calls);
        assert(picks(place) && by_file.contains(place));
        assert(files.contains(place));
        let i = choose|i: int| 0 <= i < files.len() && files[i] == place;
        assert(all[i] == place);
        lemma_counts_fall(all, place);
        let k = choose|k: int|
            0 <= k < without_repeats(sorted_by(all, precedes), alike).len() && (
            #[trigger] without_repeats(sorted_by(all, precedes), alike)[k]).path == place.path;
        assert(low_locations(rows, calls)[k].path == path);
    }
    if are_low(total(directory_counts(calls), path), occurrences(row_directories(rows), path)) {
        lemma_positive(row_directories(rows), path);
        lemma_tallied(row_directories(rows), directory_counts(calls), path);
        let place = location(path, row_directories(rows), directory_counts(calls));
        assert(picks(place) && by_directory.contains(place));
        assert(directories.contains(place));
        let i = choose|i: int| 0 <= i < directories.len() && directories[i] == place;
        assert(all[files.len() + i] == place);
        lemma_counts_fall(all, place);
        let k = choose|k: int|
            0 <= k < without_repeats(sorted_by(all, precedes), alike).len() && (
            #[trigger] without_repeats(sorted_by(all, precedes), alike)[k]).path == place.path;
        assert(low_locations(rows, calls)[k].path == path);
    }
}

proof fn lemma_tallied_only(
    unresolved: Seq<Seq<char>>,
    calls: Seq<NameCountView>,
    place: LocationView,
)
    requires
        tallied(unresolved, calls).contains(place),
    ensures
        place.calls == total(calls, place.path),
        place.unresolved == occurrences(unresolved, place.path),
{
    let paths = distinct_texts(unresolved + names_of(calls));
    let i = choose|i: int|
        0 <= i < tallied(unresolved, calls).len() && tallied(unresolved, calls)[i] == place;
    assert(place == location(paths[i], unresolved, calls));
}

/// A place that is reported makes at least five calls of which at least a fifth stay
/// unresolved, counted for it as a file or as a directory.
pub proof fn only_low_places_are_reported(
    rows: Seq<UnresolvedRowView>,
    calls: Seq<NameCountView>,
    i: int,
)
    requires
        0 <= i < low_locations(rows, calls).len(),
    ensures
        ({
            let place = low_locations(rows, calls)[i];
            &&& are_low(place.calls, place.unresolved)
            &&& {
                ||| place.calls == total(calls, place.path) && place.unresolved == occurrences(
                    row_files(rows),
                    place.path,
                )
                ||| place.calls == total(directory_counts(calls), place.path) && place.unresolved
                    == occurrences(row_directories(rows), place.path)
            }
        }),
{
    let picks = |place: LocationView| crate::commands::quality::is_low(place);
    let by_file = tallied(row_files(rows), calls);
    let by_directory = tallied(row_directories(rows), directory_counts(calls));
    let files = chosen(by_file, picks);
    let directories = chosen(by_directory, picks);
    let all = files + directories;
    let precedes = relation_of::<LocationCounts, ByLocation>(ByLocation);
    let alike = sameness_of::<LocationCounts, ByLocation>(ByLocation);
    let sorted = sorted_by(all, precedes);
    let place = low_locations(rows, calls)[i];
    chosen_members(by_file, picks);
    chosen_members(by_directory, picks);
    sorting_keeps_members(all, precedes);
    crate::ordered::kept_items_are_items(sorted, alike);
    assert(sorted.contains(place));
    assert(all.contains(place));
    let t = choose|t: int| 0 <= t < all.len() && all[t] == place;
    if t < files.len() {
        assert(files[t] == place && picks(files[t]));
        assert(files.contains(place));
        assert(by_file.contains(place));
        lemma_tallied_only(row_files(rows), calls, place);
    } else {
        let u = t - files.len();
        assert(directories[u] == place && picks(directories[u]));
        assert(directories.contains(place));
        assert(by_directory.contains(place));
        lemma_tallied_only(row_directories(rows), directory_counts(calls), place);
    }
}

/// A file counts for its directory.
pub proof fn files_count_for_their_directories(
    rows: Seq<UnresolvedRowView>,
    calls: Seq<NameCountView>,
    i: int,
)
    ensures
        0 <= i < rows.len() ==> row_files(rows)[i] == rows[i].file_path && row_directories(rows)[i]
            == directory(rows[i].file_path),
        0 <= i < calls.len() ==> directory_counts(calls)[i].name == directory(calls[i].name)
            && directory_counts(calls)[i].count == calls[i].count,
        row_files(rows).len() == rows.len(),
        row_directories(rows).len() == rows.len(),
        directory_counts(calls).len() == calls.len(),
{
}

/// The languages that are not supported are told by these extensions, written in any case,
/// and by no others.
pub proof fn unsupported_sources_are_told_by_extension(path: Seq<char>, own: Seq<char>)
    requires
        extension(path) == Some(own),
    ensures
        ({
            let lower = ascii_lower(own);
            let known = lower == "py"@ || lower == "js"@ || lower == "jsx"@ || lower == "ts"@
                || lower == "tsx"@ || lower == "rb"@ || lower == "php"@ || lower == "cs"@ || lower
                == "kt"@ || lower == "kts"@ || lower == "swift"@ || lower == "scala"@ || lower
                == "sh"@ || lower == "lua"@;
            &&& known ==> unsupported_extension(path) == Some("."@ + lower)
            &&& !known ==> unsupported_extension(path) is None
        }),
{
}

/// Each source in a language that is not supported is counted for its extension.
pub proof fn unsupported_sources_are_counted_one_by_one(
    paths: Seq<Seq<char>>,
    path: Seq<char>,
    name: Seq<char>,
)
    ensures
        unsupported_extension(path) == Some(name) ==> occurrences(
            unsupported_extensions(paths.push(path)),
            name,
        ) == occurrences(unsupported_extensions(paths), name) + 1,
        unsupported_extension(path) != Some(name) ==> occurrences(
            unsupported_extensions(paths.push(path)),
            name,
        ) == occurrences(unsupported_extensions(paths), name),
        occurrences(unsupported_extensions(paths), name) > 0 ==> exists|i: int|
            0 <= i < extension_tally(paths).len() && (#[trigger] extension_tally(paths)[i]).path
                == name && extension_tally(paths)[i].unresolved == occurrences(
                unsupported_extensions(paths),
                name,
            ),
{
    let found = unsupported_extensions(paths);
    assert(paths.push(path).drop_last() =~= paths);
    if let Some(own) = unsupported_extension(path) {
        names_are_counted_one_by_one(found, own, name);
    }
    lemma_positive(found, name);
    if occurrences(found, name) > 0 {
        let none: Seq<NameCountView> = seq![];
        lemma_tallied(found, none, name);
        let place = location(name, found, none);
        let i = choose|i: int|
            0 <= i < extension_tally(paths).len() && extension_tally(paths)[i] == place;
        assert(extension_tally(paths)[i].path == name);
    }
}

proof fn lemma_last_count(counts: Seq<NameCountView>, i: int)
    requires
        0 <= i < counts.len(),
        forall|j: int| i < j < counts.len() ==> (#[trigger] counts[j]).name != counts[i].name,
    ensures
        last_count(counts, counts[i].name) == Some(counts[i].count),
    decreases counts.len(),
{
    if i < counts.len() - 1 {
        assert(counts[counts.len() - 1].name != counts[i].name);
        assert(counts.drop_last()[i] == counts[i]);
        lemma_last_count(counts.drop_last(), i);
    }
}

/// A name that several symbols bear is reported with their number.
pub proof fn names_are_reported_with_their_definitions(
    definitions: Seq<NameCountView>,
    weak: Seq<NameCountView>,
    i: int,
)
    requires
        0 <= i < definitions.len(),
        forall|j: int|
            i < j < definitions.len() ==> (#[trigger] definitions[j]).name != definitions[i].name,
    ensures
        exists|k: int|
            0 <= k < collisions(definitions, weak).len() && (#[trigger] collisions(
                definitions,
                weak,
            )[k]).name == definitions[i].name && collisions(definitions, weak)[k].definitions
                == definitions[i].count && collisions(definitions, weak)[k].low_confidence_edges
                == count_or(weak, definitions[i].name, 0),
{
    let all = names_of(definitions) + names_of(weak);
    distinct_texts_ascend(all);
    lemma_last_count(definitions, i);
    let name = definitions[i].name;
    assert(all[i] == name);
    assert(distinct_texts(all).contains(name));
    let k = choose|k: int| 0 <= k < distinct_texts(all).len() && distinct_texts(all)[k] == name;
    assert(collisions(definitions, weak)[k].name == name);
}

/// A name to which weak edges lead is reported with their number, and as borne once
/// unless more is known.
pub proof fn names_are_reported_with_their_weak_edges(
    definitions: Seq<NameCountView>,
    weak: Seq<NameCountView>,
    i: int,
)
    requires
        0 <= i < weak.len(),
        forall|j: int| i < j < weak.len() ==> (#[trigger] weak[j]).name != weak[i].name,
    ensures
        exists|k: int|
            0 <= k < collisions(definitions, weak).len() && (#[trigger] collisions(
                definitions,
                weak,
            )[k]).name == weak[i].name && collisions(definitions, weak)[k].low_confidence_edges
                == weak[i].count && (last_count(definitions, weak[i].name) is None ==> collisions(
                definitions,
                weak,
            )[k].definitions == 1),
{
    let all = names_of(definitions) + names_of(weak);
    distinct_texts_ascend(all);
    lemma_last_count(weak, i);
    let name = weak[i].name;
    assert(all[definitions.len() + i] == name);
    assert(distinct_texts(all).contains(name));
    let k = choose|k: int| 0 <= k < distinct_texts(all).len() && distinct_texts(all)[k] == name;
    assert(collisions(definitions, weak)[k].name == name);
}

} // verus!
