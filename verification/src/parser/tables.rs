//! The collections of the symbol index: candidate lists that stay inline while
//! they are short, and hash tables with a fast hasher.

use rustc_hash::FxHashMap;
use smallvec::SmallVec;
use vstd::prelude::*;

verus! {

/// The position of a symbol in the index.
pub type SymbolIx = u32;

/// The handle of an interned string.
pub type InternedString = u32;

// ---------------------------------------------------------------------------
// Candidate lists

/// The symbols that share a name, in the order of the index.
#[verifier::external_body]
pub struct CandidateList {
    items: SmallVec<[SymbolIx; 4]>,
}

/// The items of a candidate list, in their order.
pub uninterp spec fn listed(list: CandidateList) -> Seq<SymbolIx>;

impl CandidateList {
    /// `SmallVec::push` appends the item.
    #[verifier::external_body]
    pub(crate) fn push(&mut self, ix: SymbolIx)
        ensures
            listed(*final(self)) == listed(*old(self)).push(ix),
    {
        self.items.push(ix)
    }

    /// `SmallVec::len` is the number of items.
    #[verifier::external_body]
    pub(crate) fn len(&self) -> (count: usize)
        ensures
            count == listed(*self).len(),
    {
        self.items.len()
    }

    /// Indexing a `SmallVec` gives the item at that position; it panics beyond the end.
    #[verifier::external_body]
    pub(crate) fn at(&self, at: usize) -> (ix: SymbolIx)
        requires
            at < listed(*self).len(),
        ensures
            ix == listed(*self)[at as int],
    {
        self.items[at]
    }
}

// ---------------------------------------------------------------------------
// From a string to a number

/// A table from strings to 32-bit numbers.
#[verifier::external_body]
pub struct TextTable {
    map: FxHashMap<String, u32>,
}

/// The entries of a table.
pub uninterp spec fn text_entries(table: TextTable) -> Map<Seq<char>, u32>;

impl TextTable {
    /// `FxHashMap::default` is the empty table.
    #[verifier::external_body]
    pub(crate) fn new() -> (table: Self)
        ensures
            (text_entries(table) == Map::<Seq<char>, u32>::empty()),
    {
        TextTable { map: FxHashMap::default() }
    }

    /// `FxHashMap::get` gives the number stored under an equal key, if any.
    #[verifier::external_body]
    pub(crate) fn get(&self, key: &str) -> (value: Option<u32>)
        ensures
            value == if text_entries(*self).dom().contains(key@) {
                Some(text_entries(*self)[key@])
            } else {
                None
            },
    {
        self.map.get(key).copied()
    }

    /// `FxHashMap::insert` stores the number under the key, in place of any before.
    #[verifier::external_body]
    pub(crate) fn insert(&mut self, key: String, value: u32)
        ensures
            text_entries(*final(self)) == text_entries(*old(self)).insert(key@, value),
    {
        self.map.insert(key, value);
    }
}

// ---------------------------------------------------------------------------
// From a name to its candidates

/// A table from simple names to candidate lists.
#[verifier::external_body]
pub struct NameTable {
    map: FxHashMap<String, CandidateList>,
}

/// The entries of a table.
pub uninterp spec fn name_entries(table: NameTable) -> Map<Seq<char>, Seq<SymbolIx>>;

/// The candidates under a name: none where there is no entry.
pub open spec fn candidates_named(
    entries: Map<Seq<char>, Seq<SymbolIx>>,
    name: Seq<char>,
) -> Seq<SymbolIx> {
    if entries.dom().contains(name) {
        entries[name]
    } else {
        seq![]
    }
}

impl NameTable {
    /// `FxHashMap::default` is the empty table.
    #[verifier::external_body]
    pub(crate) fn new() -> (table: Self)
        ensures
            (name_entries(table) == Map::<Seq<char>, Seq<SymbolIx>>::empty()),
    {
        NameTable { map: FxHashMap::default() }
    }

    /// `FxHashMap::get` gives the list stored under an equal key, if any.
    #[verifier::external_body]
    pub(crate) fn get(&self, key: &str) -> (list: Option<&CandidateList>)
        ensures
            match list {
                Some(list) => name_entries(*self).dom().contains(key@) && listed(*list)
                    == name_entries(*self)[key@],
                None => !name_entries(*self).dom().contains(key@),
            },
    {
        self.map.get(key)
    }

    /// `FxHashMap::entry` with `Entry::or_insert_with` gives the list under the key,
    /// an empty one where there was no entry; what becomes of it is stored.
    #[verifier::external_body]
    pub(crate) fn entry(&mut self, key: &str) -> (list: &mut CandidateList)
        ensures
            listed(*list) == candidates_named(name_entries(*old(self)), key@),
            name_entries(*final(self)) == name_entries(*old(self)).insert(
                key@,
                listed(*final(list)),
            ),
    {
        self.map.entry(key.to_string()).or_insert_with(
            || CandidateList { items: SmallVec::new() },
        )
    }
}

// ---------------------------------------------------------------------------
// From a name and a file to the candidates there

/// A table from interned file paths to candidate lists.
#[verifier::external_body]
pub struct CandidateByFile {
    map: FxHashMap<InternedString, CandidateList>,
}

/// The entries of a table.
pub uninterp spec fn file_entries(table: CandidateByFile) -> Map<InternedString, Seq<SymbolIx>>;

/// The candidates in a file: none where there is no entry.
pub open spec fn candidates_in(
    entries: Map<InternedString, Seq<SymbolIx>>,
    file: InternedString,
) -> Seq<SymbolIx> {
    if entries.dom().contains(file) {
        entries[file]
    } else {
        seq![]
    }
}

impl CandidateByFile {
    /// `FxHashMap::entry` with `Entry::or_insert_with` gives the list under the key,
    /// an empty one where there was no entry; what becomes of it is stored.
    #[verifier::external_body]
    pub(crate) fn entry(&mut self, key: InternedString) -> (list: &mut CandidateList)
        ensures
            listed(*list) == candidates_in(file_entries(*old(self)), key),
            file_entries(*final(self)) == file_entries(*old(self)).insert(
                key,
                listed(*final(list)),
            ),
    {
        self.map.entry(key).or_insert_with(|| CandidateList { items: SmallVec::new() })
    }
}

/// A table from simple names to the candidates in each file.
#[verifier::external_body]
pub struct NameFileTable {
    map: FxHashMap<String, CandidateByFile>,
}

/// The entries of a table.
pub uninterp spec fn name_file_entries(table: NameFileTable) -> Map<
    Seq<char>,
    Map<InternedString, Seq<SymbolIx>>,
>;

/// The candidates under a name, file by file: none where there is no entry.
pub open spec fn files_named(
    entries: Map<Seq<char>, Map<InternedString, Seq<SymbolIx>>>,
    name: Seq<char>,
) -> Map<InternedString, Seq<SymbolIx>> {
    if entries.dom().contains(name) {
        entries[name]
    } else {
        Map::empty()
    }
}

impl NameFileTable {
    /// `FxHashMap::default` is the empty table.
    #[verifier::external_body]
    pub(crate) fn new() -> (table: Self)
        ensures
            (name_file_entries(table) == Map::<Seq<char>, Map<InternedString, Seq<SymbolIx>>>::empty()),
    {
        NameFileTable { map: FxHashMap::default() }
    }

    /// `FxHashMap::entry` with `Entry::or_insert_with` gives the inner table under the
    /// key, an empty one where there was no entry; what becomes of it is stored.
    #[verifier::external_body]
    pub(crate) fn entry(&mut self, key: &str) -> (inner: &mut CandidateByFile)
        ensures
            file_entries(*inner) == files_named(name_file_entries(*old(self)), key@),
            name_file_entries(*final(self)) == name_file_entries(*old(self)).insert(
                key@,
                file_entries(*final(inner)),
            ),
    {
        self.map.entry(key.to_string()).or_insert_with(
            || CandidateByFile { map: FxHashMap::default() },
        )
    }
}

} // verus!
