//! What speaks for and against a graph: its tiers, the places where calls stay
//! unresolved, the names that collide, and the sources that it cannot hold.

pub mod laws;

use vstd::prelude::*;
use crate::commands::status::{UnresolvedRow, UnresolvedRowView};
use crate::db::{confidence_for_kind, label_for_kind, tier_confidence, tier_label};
use crate::ordered::{
    choose_by, chosen, chosen_members, choice_of, dedup_by, distinct_items_ascend, distinct_texts,
    distinct_texts_ascend, position_of, relation_of, relations_are_orders, sameness_of, sort_by,
    sorted_by, sorting_keeps_members, sorting_orders_and_keeps, tells_apart, text_keys_order,
    texts_ascend, without_repeats, ByText, Choice, Order, Sameness,
};
use crate::paths::{directory, extension, extension_of, parent_location};
use crate::text::{
    ascii_lower, ascii_lowercase, copy_texts, join2, lemma_text_lt_irreflexive, lemma_text_lt_total,
    lemma_views_push, less, same, text_lt, views,
};

verus! {

// ---------------------------------------------------------------------------
// Counting by name

/// A number that goes with a name.
#[derive(Debug, PartialEq)]
pub struct NameCount {
    pub name: String,
    pub count: i64,
}

/// The content of a [`NameCount`].
#[verifier::ext_equal]
pub struct NameCountView {
    pub name: Seq<char>,
    pub count: int,
}

impl View for NameCount {
    type V = NameCountView;

    open spec fn view(&self) -> NameCountView {
        NameCountView { name: self.name@, count: self.count as int }
    }
}

/// How often a name occurs.
pub open spec fn occurrences(names: Seq<Seq<char>>, name: Seq<char>) -> int
    decreases names.len(),
{
    if names.len() == 0 {
        0
    } else {
        occurrences(names.drop_last(), name) + if names.last() == name {
            1int
        } else {
            0
        }
    }
}

/// The sum of the numbers that go with a name.
pub open spec fn total(counts: Seq<NameCountView>, name: Seq<char>) -> int
    decreases counts.len(),
{
    if counts.len() == 0 {
        0
    } else {
        total(counts.drop_last(), name) + if counts.last().name == name {
            counts.last().count
        } else {
            0
        }
    }
}

/// The sum of all numbers.
pub open spec fn grand_total(counts: Seq<NameCountView>) -> int
    decreases counts.len(),
{
    if counts.len() == 0 {
        0
    } else {
        grand_total(counts.drop_last()) + counts.last().count
    }
}

/// The names of the numbers.
pub open spec fn names_of(counts: Seq<NameCountView>) -> Seq<Seq<char>> {
    counts.map_values(|count: NameCountView| count.name)
}

/// A place with the calls that it makes and those of them that stay unresolved.
#[derive(Debug, PartialEq)]
pub struct LocationCounts {
    pub path: String,
    pub calls: i64,
    pub unresolved: i64,
}

/// The content of a [`LocationCounts`].
#[verifier::ext_equal]
pub struct LocationView {
    pub path: Seq<char>,
    pub calls: int,
    pub unresolved: int,
}

impl View for LocationCounts {
    type V = LocationView;

    open spec fn view(&self) -> LocationView {
        LocationView {
            path: self.path@,
            calls: self.calls as int,
            unresolved: self.unresolved as int,
        }
    }
}

/// What is counted of a place.
pub open spec fn location(
    path: Seq<char>,
    unresolved: Seq<Seq<char>>,
    calls: Seq<NameCountView>,
) -> LocationView {
    LocationView { path, calls: total(calls, path), unresolved: occurrences(unresolved, path) }
}

/// What is counted of the places with these paths.
pub open spec fn locations(
    paths: Seq<Seq<char>>,
    unresolved: Seq<Seq<char>>,
    calls: Seq<NameCountView>,
) -> Seq<LocationView> {
    paths.map_values(|path: Seq<char>| location(path, unresolved, calls))
}

/// What is counted of all places, in order.
pub open spec fn tallied(unresolved: Seq<Seq<char>>, calls: Seq<NameCountView>) -> Seq<
    LocationView,
> {
    locations(distinct_texts(unresolved + names_of(calls)), unresolved, calls)
}

proof fn lemma_occurrences(names: Seq<Seq<char>>, name: Seq<char>)
    ensures
        0 <= occurrences(names, name) <= names.len(),
    decreases names.len(),
{
    if names.len() > 0 {
        lemma_occurrences(names.drop_last(), name);
    }
}

proof fn lemma_total_bounded(counts: Seq<NameCountView>, name: Seq<char>)
    requires
        forall|i: int| 0 <= i < counts.len() ==> (#[trigger] counts[i]).count >= 0,
    ensures
        0 <= total(counts, name) <= grand_total(counts),
    decreases counts.len(),
{
    if counts.len() > 0 {
        let front = counts.drop_last();
        assert forall|i: int| 0 <= i < front.len() implies (#[trigger] front[i]).count >= 0 by {
            assert(front[i] == counts[i]);
        }
        assert(counts[counts.len() - 1].count >= 0);
        lemma_total_bounded(front, name);
    }
}

proof fn lemma_grand_total_prefix(counts: Seq<NameCountView>, count: int)
    requires
        0 <= count <= counts.len(),
        forall|i: int| 0 <= i < counts.len() ==> (#[trigger] counts[i]).count >= 0,
    ensures
        0 <= grand_total(counts.take(count)) <= grand_total(counts),
    decreases counts.len(),
{
    if counts.len() > 0 {
        let front = counts.drop_last();
        assert forall|i: int| 0 <= i < front.len() implies (#[trigger] front[i]).count >= 0 by {
            assert(front[i] == counts[i]);
        }
        assert(counts[counts.len() - 1].count >= 0);
        if count < counts.len() {
            lemma_grand_total_prefix(front, count);
            assert(front.take(count) =~= counts.take(count));
        } else {
            lemma_grand_total_prefix(front, front.len() as int);
            assert(front.take(front.len() as int) =~= front);
            assert(counts.take(count) =~= counts);
        }
    } else {
        assert(counts.take(count) =~= counts);
    }
}

fn empty_places(paths: &Vec<String>) -> (places: Vec<LocationCounts>)
    ensures
        views(places@) == locations(views(paths@), seq![], seq![]),
{
    let ghost wanted = locations(views(paths@), seq![], seq![]);
    let mut places: Vec<LocationCounts> = Vec::new();
    let mut i: usize = 0;
    assert(views(places@) =~= wanted.take(0));
    while i < paths.len()
        invariant
            i <= paths@.len(),
            wanted == locations(views(paths@), seq![], seq![]),
            views(places@) == wanted.take(i as int),
        decreases paths@.len() - i,
    {
        let place = LocationCounts { path: paths[i].clone(), calls: 0, unresolved: 0 };
        proof {
            lemma_views_push(places@, place);
            assert(views(paths@)[i as int] == paths@[i as int]@);
            assert(wanted[i as int] == place@);
            assert(wanted.take(i + 1) =~= wanted.take(i as int).push(place@));
        }
        places.push(place);
        i = i + 1;
    }
    assert(wanted.take(i as int) =~= wanted);
    places
}

proof fn lemma_counted(
    before: Seq<LocationCounts>,
    after: Seq<LocationCounts>,
    at: int,
    paths: Seq<Seq<char>>,
    old_unresolved: Seq<Seq<char>>,
    old_calls: Seq<NameCountView>,
    unresolved: Seq<Seq<char>>,
    calls: Seq<NameCountView>,
)
    requires
        texts_ascend(paths),
        views(before) == locations(paths, old_unresolved, old_calls),
        0 <= at < paths.len(),
        after.len() == before.len(),
        forall|i: int| 0 <= i < before.len() && i != at ==> #[trigger] after[i] == before[i],
        after[at]@ == location(paths[at], unresolved, calls),
        forall|other: Seq<char>|
            other != paths[at] ==> #[trigger] occurrences(unresolved, other) == occurrences(
                old_unresolved,
                other,
            ) && total(calls, other) == total(old_calls, other),
    ensures
        views(after) == locations(paths, unresolved, calls),
{
    let wanted = locations(paths, unresolved, calls);
    assert(views(before).len() == before.len());
    assert forall|i: int| 0 <= i < after.len() implies views(after)[i] == wanted[i] by {
        if i != at {
            assert(views(before)[i] == location(paths[i], old_unresolved, old_calls));
            if i < at {
                assert(text_lt(paths[i], paths[at]));
            } else {
                assert(text_lt(paths[at], paths[i]));
            }
            lemma_text_lt_irreflexive(paths[at]);
            assert(occurrences(unresolved, paths[i]) == occurrences(old_unresolved, paths[i]));
        }
    }
    assert(views(after) =~= wanted);
}

fn position_among(paths: &Vec<String>, path: &str) -> (at: usize)
    requires
        texts_ascend(views(paths@)),
        views(paths@).contains(path@),
    ensures
        at < paths@.len(),
        views(paths@)[at as int] == path@,
{
    match position_of(paths, path) {
        Some(at) => at,
        None => 0,
    }
}

/// Counts the calls of places, and those of them that stay unresolved.
pub fn tally(unresolved: &Vec<String>, calls: &Vec<NameCount>) -> (counted: Vec<LocationCounts>)
    requires
        forall|i: int| 0 <= i < calls@.len() ==> (#[trigger] calls@[i]).count >= 0,
        grand_total(views(calls@)) <= i64::MAX,
        unresolved@.len() <= i64::MAX,
    ensures
        views(counted@) == tallied(views(unresolved@), views(calls@)),
{
    let ghost keys = views(unresolved@);
    let ghost counts = views(calls@);
    let ghost none: Seq<NameCountView> = seq![];
    let mut all = copy_texts(unresolved);
    add_names(&mut all, calls);
    let paths = dedup_by(sort_by(all, &ByText), &ByText);
    let ghost places = views(paths@);
    proof {
        distinct_texts_ascend(keys + names_of(counts));
        assert(keys.take(0) =~= seq![]);
    }
    let mut entries = empty_places(&paths);
    assert(views(entries@).len() == entries@.len());
    let mut i: usize = 0;
    while i < unresolved.len()
        invariant
            i <= unresolved@.len() <= i64::MAX,
            keys == views(unresolved@),
            places == views(paths@),
            places == distinct_texts(keys + names_of(counts)),
            texts_ascend(places),
            forall|text: Seq<char>| #[trigger]
                places.contains(text) <==> (keys + names_of(counts)).contains(text),
            none == Seq::<NameCountView>::empty(),
            entries@.len() == places.len(),
            views(entries@) == locations(places, keys.take(i as int), none),
        decreases unresolved@.len() - i,
    {
        let ghost before = entries@;
        let ghost name = unresolved@[i as int]@;
        proof {
            assert((keys + names_of(counts))[i as int] == name);
            assert(places.contains(name));
        }
        let at = position_among(&paths, unresolved[i].as_str());
        proof {
            assert(keys.take(i + 1).drop_last() =~= keys.take(i as int));
            assert(keys.take(i + 1).last() == name);
            lemma_occurrences(keys.take(i as int), name);
            assert(views(before)[at as int] == location(name, keys.take(i as int), none));
        }
        let path = entries[at].path.clone();
        let calls_so_far: i64 = entries[at].calls;
        let missed: i64 = entries[at].unresolved;
        entries.set(at, LocationCounts { path, calls: calls_so_far, unresolved: missed + 1 });
        proof {
            lemma_counted(
                before,
                entries@,
                at as int,
                places,
                keys.take(i as int),
                none,
                keys.take(i + 1),
                none,
            );
        }
        i = i + 1;
    }
    proof {
        assert(keys.take(i as int) =~= keys);
        assert(counts.take(0) =~= none);
    }
    let mut j: usize = 0;
    while j < calls.len()
        invariant
            j <= calls.len(),
            keys == views(unresolved@),
            counts == views(calls@),
            places == views(paths@),
            texts_ascend(places),
            forall|text: Seq<char>| #[trigger]
                places.contains(text) <==> (keys + names_of(counts)).contains(text),
            forall|k: int| 0 <= k < calls@.len() ==> (#[trigger] calls@[k]).count >= 0,
            grand_total(counts) <= i64::MAX,
            entries@.len() == places.len(),
            views(entries@) == locations(places, keys, counts.take(j as int)),
        decreases calls@.len() - j,
    {
        let ghost before = entries@;
        let ghost name = calls@[j as int].name@;
        let ghost done = counts.take(j as int);
        proof {
            assert(names_of(counts)[j as int] == name);
            assert((keys + names_of(counts))[keys.len() + j] == name);
            assert(places.contains(name));
        }
        let at = position_among(&paths, calls[j].name.as_str());
        proof {
            assert(counts.take(j + 1).drop_last() =~= done);
            assert(counts.take(j + 1).last() == calls@[j as int]@);
            assert forall|k: int| 0 <= k < counts.len() implies (#[trigger] counts[k]).count >= 0 by {
                assert(calls@[k].count >= 0);
            }
            assert forall|k: int| 0 <= k < counts.take(j + 1).len() implies (
            #[trigger] counts.take(j + 1)[k]).count >= 0 by {
                assert(counts.take(j + 1)[k] == counts[k]);
            }
            lemma_total_bounded(counts.take(j + 1), name);
            lemma_grand_total_prefix(counts, j + 1);
            assert(views(before)[at as int] == location(name, keys, done));
        }
        let path = entries[at].path.clone();
        let calls_so_far: i64 = entries[at].calls;
        let missed: i64 = entries[at].unresolved;
        entries.set(
            at,
            LocationCounts { path, calls: calls_so_far + calls[j].count, unresolved: missed },
        );
        proof {
            lemma_counted(
                before,
                entries@,
                at as int,
                places,
                keys,
                done,
                keys,
                counts.take(j + 1),
            );
        }
        j = j + 1;
    }
    assert(counts.take(j as int) =~= counts);
    entries
}

// ---------------------------------------------------------------------------
// Places where calls stay unresolved

/// The number of calls from which on a place is judged.
pub const LOW_QUALITY_MIN_CALLS: i64 = 5;

/// One call in this many stays unresolved in a place of low quality.
pub const LOW_QUALITY_SHARE: i64 = 5;

/// A place makes enough calls to be judged, and one in five or more of them stay
/// unresolved.
pub open spec fn is_low(place: LocationView) -> bool {
    place.calls >= LOW_QUALITY_MIN_CALLS && place.unresolved * LOW_QUALITY_SHARE >= place.calls
}

struct Low;

impl Choice<LocationCounts> for Low {
    open spec fn picks(&self, place: LocationView) -> bool {
        is_low(place)
    }

    fn pick(&self, place: &LocationCounts) -> (picked: bool) {
        let share = place.calls / LOW_QUALITY_SHARE;
        place.calls >= LOW_QUALITY_MIN_CALLS && (place.unresolved > share || (place.unresolved
            == share && place.calls % LOW_QUALITY_SHARE == 0))
    }
}

/// The order of places by path.
pub struct ByLocation;

impl Order<LocationCounts> for ByLocation {
    open spec fn precedes(&self, left: LocationView, right: LocationView) -> bool {
        text_lt(left.path, right.path)
    }

    fn before(&self, left: &LocationCounts, right: &LocationCounts) -> (found: bool) {
        less(left.path.as_str(), right.path.as_str())
    }

    proof fn is_order(&self) {
        text_keys_order(
            |left: LocationView, right: LocationView| self.precedes(left, right),
            |item: LocationView| item.path,
        );
    }
}

impl Sameness<LocationCounts> for ByLocation {
    open spec fn alike(&self, left: LocationView, right: LocationView) -> bool {
        left.path == right.path
    }

    fn equal(&self, left: &LocationCounts, right: &LocationCounts) -> (found: bool) {
        same(left.path.as_str(), right.path.as_str())
    }
}

/// The files of references without a target.
pub open spec fn row_files(rows: Seq<UnresolvedRowView>) -> Seq<Seq<char>> {
    rows.map_values(|row: UnresolvedRowView| row.file_path)
}

/// The directories of references without a target.
pub open spec fn row_directories(rows: Seq<UnresolvedRowView>) -> Seq<Seq<char>> {
    rows.map_values(|row: UnresolvedRowView| directory(row.file_path))
}

/// The numbers of calls of files, each under the file's directory.
pub open spec fn directory_counts(calls: Seq<NameCountView>) -> Seq<NameCountView> {
    calls.map_values(
        |call: NameCountView| NameCountView { name: directory(call.name), count: call.count },
    )
}

/// The files and directories of low quality: in order, a file before a directory of its
/// path, and each path once.
pub open spec fn low_locations(rows: Seq<UnresolvedRowView>, calls: Seq<NameCountView>) -> Seq<
    LocationView,
> {
    let files = chosen(tallied(row_files(rows), calls), |place: LocationView| is_low(place));
    let directories = chosen(
        tallied(row_directories(rows), directory_counts(calls)),
        |place: LocationView| is_low(place),
    );
    without_repeats(
        sorted_by(files + directories, relation_of::<LocationCounts, ByLocation>(ByLocation)),
        sameness_of::<LocationCounts, ByLocation>(ByLocation),
    )
}

fn list_files(rows: &Vec<UnresolvedRow>) -> (files: Vec<String>)
    ensures
        views(files@) == row_files(views(rows@)),
        files@.len() == rows@.len(),
{
    let ghost wanted = row_files(views(rows@));
    let mut files: Vec<String> = Vec::new();
    let mut i: usize = 0;
    assert(views(files@) =~= wanted.take(0));
    while i < rows.len()
        invariant
            i <= rows@.len(),
            files@.len() == i,
            wanted == row_files(views(rows@)),
            views(files@) == wanted.take(i as int),
        decreases rows@.len() - i,
    {
        let file = rows[i].file_path.clone();
        proof {
            lemma_views_push(files@, file);
            assert(wanted[i as int] == file@);
            assert(wanted.take(i + 1) =~= wanted.take(i as int).push(file@));
        }
        files.push(file);
        i = i + 1;
    }
    assert(wanted.take(i as int) =~= wanted);
    files
}

fn list_directories(rows: &Vec<UnresolvedRow>) -> (directories: Vec<String>)
    ensures
        views(directories@) == row_directories(views(rows@)),
        directories@.len() == rows@.len(),
{
    let ghost wanted = row_directories(views(rows@));
    let mut directories: Vec<String> = Vec::new();
    let mut i: usize = 0;
    assert(views(directories@) =~= wanted.take(0));
    while i < rows.len()
        invariant
            i <= rows@.len(),
            directories@.len() == i,
            wanted == row_directories(views(rows@)),
            views(directories@) == wanted.take(i as int),
        decreases rows@.len() - i,
    {
        let place = parent_location(rows[i].file_path.as_str());
        proof {
            lemma_views_push(directories@, place);
            assert(wanted[i as int] == place@);
            assert(wanted.take(i + 1) =~= wanted.take(i as int).push(place@));
        }
        directories.push(place);
        i = i + 1;
    }
    assert(wanted.take(i as int) =~= wanted);
    directories
}

fn count_by_directory(calls: &Vec<NameCount>) -> (counts: Vec<NameCount>)
    ensures
        views(counts@) == directory_counts(views(calls@)),
        counts@.len() == calls@.len(),
        forall|i: int| 0 <= i < calls@.len() ==> (#[trigger] counts@[i]).count == calls@[i].count,
{
    let ghost wanted = directory_counts(views(calls@));
    let mut counts: Vec<NameCount> = Vec::new();
    let mut i: usize = 0;
    assert(views(counts@) =~= wanted.take(0));
    while i < calls.len()
        invariant
            i <= calls@.len(),
            counts@.len() == i,
            wanted == directory_counts(views(calls@)),
            views(counts@) == wanted.take(i as int),
            forall|k: int| 0 <= k < i ==> (#[trigger] counts@[k]).count == calls@[k].count,
        decreases calls@.len() - i,
    {
        let item = NameCount {
            name: parent_location(calls[i].name.as_str()),
            count: calls[i].count,
        };
        proof {
            lemma_views_push(counts@, item);
            assert(wanted[i as int] == item@);
            assert(wanted.take(i + 1) =~= wanted.take(i as int).push(item@));
        }
        counts.push(item);
        i = i + 1;
    }
    assert(wanted.take(i as int) =~= wanted);
    counts
}

proof fn lemma_same_totals(calls: Seq<NameCountView>)
    ensures
        grand_total(directory_counts(calls)) == grand_total(calls),
    decreases calls.len(),
{
    if calls.len() > 0 {
        lemma_same_totals(calls.drop_last());
        assert(directory_counts(calls).drop_last() =~= directory_counts(calls.drop_last()));
    }
}

/// The files and directories of low quality.
pub fn low_quality_locations(rows: &Vec<UnresolvedRow>, calls: &Vec<NameCount>) -> (places: Vec<
    LocationCounts,
>)
    requires
        forall|i: int| 0 <= i < calls@.len() ==> (#[trigger] calls@[i]).count >= 0,
        grand_total(views(calls@)) <= i64::MAX,
        rows@.len() <= i64::MAX,
    ensures
        views(places@) == low_locations(views(rows@), views(calls@)),
{
    let files = list_files(rows);
    let directories = list_directories(rows);
    let by_directory = count_by_directory(calls);
    proof {
        lemma_same_totals(views(calls@));
        assert(choice_of::<LocationCounts, Low>(Low) =~= (|place: LocationView| is_low(place)));
        assert forall|i: int| 0 <= i < by_directory@.len() implies (#[trigger] by_directory@[i]).count
            >= 0 by {
            assert(by_directory@[i].count == calls@[i].count);
        }
    }
    let mut places = choose_by(tally(&files, calls), &Low);
    let mut more = choose_by(tally(&directories, &by_directory), &Low);
    let ghost first = views(places@);
    let ghost second = views(more@);
    places.append(&mut more);
    assert(views(places@) =~= first + second);
    dedup_by(sort_by(places, &ByLocation), &ByLocation)
}

/// Every place that is reported is of low quality, and no path is reported twice.
pub proof fn reported_places_are_low(rows: Seq<UnresolvedRowView>, calls: Seq<NameCountView>)
    ensures
        forall|i: int|
            0 <= i < low_locations(rows, calls).len() ==> is_low(
                #[trigger] low_locations(rows, calls)[i],
            ),
        forall|i: int, j: int|
            #![trigger low_locations(rows, calls)[i], low_locations(rows, calls)[j]]
            0 <= i < j < low_locations(rows, calls).len() ==> text_lt(
                low_locations(rows, calls)[i].path,
                low_locations(rows, calls)[j].path,
            ),
{
    let picks = |place: LocationView| is_low(place);
    let files = chosen(tallied(row_files(rows), calls), picks);
    let directories = chosen(tallied(row_directories(rows), directory_counts(calls)), picks);
    let all = files + directories;
    let precedes = relation_of::<LocationCounts, ByLocation>(ByLocation);
    let alike = sameness_of::<LocationCounts, ByLocation>(ByLocation);
    let sorted = sorted_by(all, precedes);
    let kept = low_locations(rows, calls);
    relations_are_orders::<LocationCounts, ByLocation>(ByLocation);
    assert(tells_apart(precedes, alike)) by {
        reveal(tells_apart);
        assert forall|a: LocationView, b: LocationView| #[trigger] alike(a, b) == (!precedes(a, b)
            && !precedes(b, a)) by {
            lemma_text_lt_total(a.path, b.path);
            lemma_text_lt_irreflexive(a.path);
        }
    }
    chosen_members(tallied(row_files(rows), calls), picks);
    chosen_members(tallied(row_directories(rows), directory_counts(calls)), picks);
    sorting_orders_and_keeps(all, precedes);
    sorting_keeps_members(all, precedes);
    distinct_items_ascend(sorted, precedes, alike);
    assert forall|i: int| 0 <= i < kept.len() implies is_low(#[trigger] kept[i]) by {
        assert(sorted.contains(kept[i]));
        assert(all.contains(kept[i]));
        let t = choose|t: int| 0 <= t < all.len() && all[t] == kept[i];
        if t < files.len() {
            assert(picks(files[t]));
        } else {
            assert(picks(directories[t - files.len()]));
        }
    }
    assert forall|i: int, j: int|
        #![trigger kept[i], kept[j]]
        0 <= i < j < kept.len() implies text_lt(kept[i].path, kept[j].path) by {
        assert(precedes(kept[i], kept[j]));
    }
}

// ---------------------------------------------------------------------------
// Tiers

/// The number of edges that were resolved at a tier.
#[derive(Debug, PartialEq)]
pub struct TierCount {
    pub kind: &'static str,
    pub confidence: i64,
    pub edges: i64,
}

/// The number of edges that were resolved at a tier.
pub fn resolution_tier(resolution_kind: i64, edges: i64) -> (tier: TierCount)
    ensures
        tier.kind@ == tier_label(resolution_kind as int),
        tier.confidence == tier_confidence(resolution_kind as int),
        tier.edges == edges,
{
    TierCount {
        kind: label_for_kind(resolution_kind),
        confidence: confidence_for_kind(resolution_kind),
        edges,
    }
}

// ---------------------------------------------------------------------------
// Names that collide

/// The last number that goes with a name.
pub open spec fn last_count(counts: Seq<NameCountView>, name: Seq<char>) -> Option<int>
    decreases counts.len(),
{
    if counts.len() == 0 {
        None
    } else if counts.last().name == name {
        Some(counts.last().count)
    } else {
        last_count(counts.drop_last(), name)
    }
}

/// The last number that goes with a name, or what stands for it.
pub open spec fn count_or(counts: Seq<NameCountView>, name: Seq<char>, otherwise: int) -> int {
    match last_count(counts, name) {
        Some(count) => count,
        None => otherwise,
    }
}

/// A name that several symbols bear, or to which weak edges lead.
#[derive(Debug, PartialEq)]
pub struct CollisionName {
    pub name: String,
    pub definitions: i64,
    pub low_confidence_edges: i64,
}

/// The content of a [`CollisionName`].
#[verifier::ext_equal]
pub struct CollisionView {
    pub name: Seq<char>,
    pub definitions: int,
    pub low_confidence_edges: int,
}

impl View for CollisionName {
    type V = CollisionView;

    open spec fn view(&self) -> CollisionView {
        CollisionView {
            name: self.name@,
            definitions: self.definitions as int,
            low_confidence_edges: self.low_confidence_edges as int,
        }
    }
}

/// The names that several symbols bear or to which weak edges lead, in order.
pub open spec fn collisions(definitions: Seq<NameCountView>, weak: Seq<NameCountView>) -> Seq<
    CollisionView,
> {
    distinct_texts(names_of(definitions) + names_of(weak)).map_values(
        |name: Seq<char>|
            CollisionView {
                name,
                definitions: count_or(definitions, name, 1),
                low_confidence_edges: count_or(weak, name, 0),
            },
    )
}

/// What goes with each name: the last of its numbers, or what stands for it.
fn last_counts(names: &Vec<String>, counts: &Vec<NameCount>, otherwise: i64) -> (found: Vec<i64>)
    requires
        texts_ascend(views(names@)),
    ensures
        found@.len() == names@.len(),
        forall|k: int|
            0 <= k < found@.len() ==> (#[trigger] found@[k]) == count_or(
                views(counts@),
                views(names@)[k],
                otherwise as int,
            ),
{
    let ghost all = views(counts@);
    let ghost texts = views(names@);
    let mut found: Vec<i64> = Vec::new();
    let mut i: usize = 0;
    while i < names.len()
        invariant
            i <= names@.len(),
            found@.len() == i,
            forall|k: int| 0 <= k < i ==> #[trigger] found@[k] == otherwise,
        decreases names@.len() - i,
    {
        found.push(otherwise);
        i = i + 1;
    }
    let mut j: usize = 0;
    assert(all.take(0) =~= seq![]);
    while j < counts.len()
        invariant
            j <= counts@.len(),
            all == views(counts@),
            texts == views(names@),
            texts_ascend(texts),
            found@.len() == texts.len(),
            forall|k: int|
                0 <= k < found@.len() ==> (#[trigger] found@[k]) == count_or(
                    all.take(j as int),
                    texts[k],
                    otherwise as int,
                ),
        decreases counts@.len() - j,
    {
        let ghost before = found@;
        proof {
            assert(all.take(j + 1).drop_last() =~= all.take(j as int));
            assert(all.take(j + 1).last() == counts@[j as int]@);
        }
        let place = position_of(names, counts[j].name.as_str());
        if let Some(at) = place {
            found.set(at, counts[j].count);
        }
        proof {
            assert forall|k: int| 0 <= k < found@.len() implies (#[trigger] found@[k]) == count_or(
                all.take(j + 1),
                texts[k],
                otherwise as int,
            ) by {
                assert(before[k] == count_or(all.take(j as int), texts[k], otherwise as int));
                match place {
                    Some(at) => {
                        lemma_text_lt_irreflexive(texts[k]);
                        if k < at {
                            assert(text_lt(texts[k], texts[at as int]));
                        } else if at < k {
                            assert(text_lt(texts[at as int], texts[k]));
                        }
                    },
                    None => {
                        assert(texts.contains(texts[k]));
                    },
                }
            }
        }
        j = j + 1;
    }
    assert(all.take(j as int) =~= all);
    found
}

fn add_names(names: &mut Vec<String>, counts: &Vec<NameCount>)
    ensures
        views(final(names)@) == views(old(names)@) + names_of(views(counts@)),
{
    let ghost start = views(names@);
    let ghost wanted = names_of(views(counts@));
    let mut i: usize = 0;
    assert(start + wanted.take(0) =~= start);
    while i < counts.len()
        invariant
            i <= counts@.len(),
            wanted == names_of(views(counts@)),
            views(names@) == start + wanted.take(i as int),
        decreases counts@.len() - i,
    {
        let name = counts[i].name.clone();
        let ghost before = names@;
        names.push(name);
        proof {
            lemma_views_push(before, name);
            assert(wanted[i as int] == name@);
            assert(wanted.take(i + 1) =~= wanted.take(i as int).push(name@));
            assert(views(names@) =~= start + wanted.take(i + 1));
        }
        i = i + 1;
    }
    assert(wanted.take(i as int) =~= wanted);
}

/// The names that several symbols bear or to which weak edges lead, in order.
pub fn collision_prone_names(definitions: &Vec<NameCount>, weak: &Vec<NameCount>) -> (found: Vec<
    CollisionName,
>)
    ensures
        views(found@) == collisions(views(definitions@), views(weak@)),
{
    let ghost wanted = collisions(views(definitions@), views(weak@));
    let mut names: Vec<String> = Vec::new();
    assert(views(names@) =~= seq![]);
    add_names(&mut names, definitions);
    add_names(&mut names, weak);
    assert(views(names@) =~= names_of(views(definitions@)) + names_of(views(weak@)));
    let names = dedup_by(sort_by(names, &ByText), &ByText);
    proof {
        distinct_texts_ascend(names_of(views(definitions@)) + names_of(views(weak@)));
    }
    let by_definition = last_counts(&names, definitions, 1);
    let by_edge = last_counts(&names, weak, 0);
    let mut found: Vec<CollisionName> = Vec::new();
    let mut i: usize = 0;
    assert(views(found@) =~= wanted.take(0));
    while i < names.len()
        invariant
            i <= names@.len(),
            views(names@) == distinct_texts(
                names_of(views(definitions@)) + names_of(views(weak@)),
            ),
            wanted == collisions(views(definitions@), views(weak@)),
            by_definition@.len() == names@.len(),
            by_edge@.len() == names@.len(),
            forall|k: int|
                0 <= k < names@.len() ==> (#[trigger] by_definition@[k]) == count_or(
                    views(definitions@),
                    views(names@)[k],
                    1,
                ),
            forall|k: int|
                0 <= k < names@.len() ==> (#[trigger] by_edge@[k]) == count_or(
                    views(weak@),
                    views(names@)[k],
                    0,
                ),
            views(found@) == wanted.take(i as int),
        decreases names@.len() - i,
    {
        let item = CollisionName {
            name: names[i].clone(),
            definitions: by_definition[i],
            low_confidence_edges: by_edge[i],
        };
        proof {
            lemma_views_push(found@, item);
            assert(views(names@)[i as int] == item@.name);
            assert(wanted[i as int] == item@);
            assert(wanted.take(i + 1) =~= wanted.take(i as int).push(item@));
        }
        found.push(item);
        i = i + 1;
    }
    assert(wanted.take(i as int) =~= wanted);
    found
}

// ---------------------------------------------------------------------------
// Sources that cannot be indexed

/// The extension, in lower case, of sources in a language that is not supported.
pub open spec fn is_unsupported(extension: Seq<char>) -> bool {
    extension == "py"@ || extension == "js"@ || extension == "jsx"@ || extension == "ts"@ || extension
        == "tsx"@ || extension == "rb"@ || extension == "php"@ || extension == "cs"@ || extension
        == "kt"@ || extension == "kts"@ || extension == "swift"@ || extension == "scala"@
        || extension == "sh"@ || extension == "lua"@
}

/// The extension, with its dot, of a source in a language that is not supported.
pub open spec fn unsupported_extension(path: Seq<char>) -> Option<Seq<char>> {
    match extension(path) {
        Some(extension) => if is_unsupported(ascii_lower(extension)) {
            Some("."@ + ascii_lower(extension))
        } else {
            None
        },
        None => None,
    }
}

fn unsupported(extension: &str) -> (found: bool)
    ensures
        found == is_unsupported(extension@),
{
    same(extension, "py") || same(extension, "js") || same(extension, "jsx") || same(
        extension,
        "ts",
    ) || same(extension, "tsx") || same(extension, "rb") || same(extension, "php") || same(
        extension,
        "cs",
    ) || same(extension, "kt") || same(extension, "kts") || same(extension, "swift") || same(
        extension,
        "scala",
    ) || same(extension, "sh") || same(extension, "lua")
}

/// The extensions of the sources in languages that are not supported.
pub open spec fn unsupported_extensions(paths: Seq<Seq<char>>) -> Seq<Seq<char>>
    decreases paths.len(),
{
    if paths.len() == 0 {
        seq![]
    } else {
        let before = unsupported_extensions(paths.drop_last());
        match unsupported_extension(paths.last()) {
            Some(extension) => before.push(extension),
            None => before,
        }
    }
}

/// The number of sources with each extension that is not supported, in order: the
/// number stands for the unresolved ones.
pub open spec fn extension_tally(paths: Seq<Seq<char>>) -> Seq<LocationView> {
    tallied(unsupported_extensions(paths), seq![])
}

/// Counts the sources in languages that are not supported, by extension and in order.
pub fn source_extension_counts(paths: &Vec<String>) -> (counts: Vec<NameCount>)
    requires
        paths@.len() <= i64::MAX,
    ensures
        views(counts@) == extension_tally(views(paths@)).map_values(
            |place: LocationView| NameCountView { name: place.path, count: place.unresolved },
        ),
{
    let ghost all = views(paths@);
    let mut found: Vec<String> = Vec::new();
    let mut i: usize = 0;
    assert(all.take(0) =~= seq![]);
    assert(views(found@) =~= seq![]);
    while i < paths.len()
        invariant
            i <= paths@.len(),
            found@.len() <= i,
            all == views(paths@),
            views(found@) == unsupported_extensions(all.take(i as int)),
        decreases paths@.len() - i,
    {
        proof {
            assert(all.take(i + 1).drop_last() =~= all.take(i as int));
            assert(all.take(i + 1).last() == paths@[i as int]@);
        }
        if let Some(own) = extension_of(paths[i].as_str()) {
            let lower = ascii_lowercase(own.as_str());
            if unsupported(lower.as_str()) {
                let text = join2(".", lower.as_str());
                proof {
                    lemma_views_push(found@, text);
                }
                found.push(text);
            }
        }
        i = i + 1;
    }
    assert(all.take(i as int) =~= all);
    let none: Vec<NameCount> = Vec::new();
    assert(views(none@) =~= seq![]);
    let places = tally(&found, &none);
    let ghost wanted = extension_tally(all).map_values(
        |place: LocationView| NameCountView { name: place.path, count: place.unresolved },
    );
    let mut counts: Vec<NameCount> = Vec::new();
    let mut j: usize = 0;
    assert(views(counts@) =~= wanted.take(0));
    while j < places.len()
        invariant
            j <= places@.len(),
            views(places@) == extension_tally(all),
            wanted == extension_tally(all).map_values(
                |place: LocationView| NameCountView { name: place.path, count: place.unresolved },
            ),
            views(counts@) == wanted.take(j as int),
        decreases places@.len() - j,
    {
        let item = NameCount { name: places[j].path.clone(), count: places[j].unresolved };
        proof {
            lemma_views_push(counts@, item);
            assert(views(places@)[j as int] == places@[j as int]@);
            assert(wanted[j as int] == item@);
            assert(wanted.take(j + 1) =~= wanted.take(j as int).push(item@));
        }
        counts.push(item);
        j = j + 1;
    }
    assert(wanted.take(j as int) =~= wanted);
    counts
}

} // verus!
