//! The project-wide symbol index and its string interner. Symbols are stored as
//! integer positions over interned strings, which keeps the tables that calls
//! are resolved with compact.

use vstd::prelude::*;
use crate::db::{Node, NodeView};
use crate::parser::tables::{
    candidates_in, candidates_named, files_named, name_entries, name_file_entries, text_entries,
    InternedString, NameFileTable, NameTable, SymbolIx, TextTable,
};
use crate::text::laws::{is_made_of, none_after, the_last_separator_cuts};
use crate::text::{
    after_last, contains, cut_last, last_part, opt_str, opt_text, rsplit_once, views,
};

verus! {

// ---------------------------------------------------------------------------
// The interner

/// Gives each distinct string one handle.
pub struct StringInterner {
    strings: Vec<String>,
    by_value: TextTable,
}

/// The strings after `value` has been interned among `strings`.
pub open spec fn interned(strings: Seq<Seq<char>>, value: Seq<char>) -> Seq<Seq<char>> {
    if strings.contains(value) {
        strings
    } else {
        strings.push(value)
    }
}

impl View for StringInterner {
    type V = Seq<Seq<char>>;

    closed spec fn view(&self) -> Seq<Seq<char>> {
        views(self.strings@)
    }
}

impl Default for StringInterner {
    fn default() -> (interner: Self)
        ensures
            interner.wf(),
            interner@ == Seq::<Seq<char>>::empty(),
    {
        let interner = StringInterner { strings: Vec::new(), by_value: TextTable::new() };
        assert(interner@ =~= Seq::<Seq<char>>::empty());
        interner
    }
}

impl StringInterner {
    /// The table holds each string under its handle, and nothing else.
    pub closed spec fn wf(self) -> bool {
        let entries = text_entries(self.by_value);
        &&& self@.len() <= 0x1_0000_0000
        &&& forall|i: int|
            0 <= i < self@.len() ==> entries.dom().contains(#[trigger] self@[i])
                && entries[self@[i]] == i
        &&& forall|value: Seq<char>| #[trigger]
            entries.dom().contains(value) ==> entries[value] < self@.len()
                && self@[entries[value] as int] == value
    }

    /// The handle of `value`: the one it has, or a new one.
    pub fn intern(&mut self, value: &str) -> (ix: InternedString)
        requires
            old(self).wf(),
            old(self)@.len() < 0x1_0000_0000,
        ensures
            final(self).wf(),
            final(self)@ == interned(old(self)@, value@),
            ix < final(self)@.len(),
            final(self)@[ix as int] == value@,
    {
        if let Some(ix) = self.by_value.get(value) {
            assert(self@.contains(value@)) by {
                assert(self@[ix as int] == value@);
            }
            return ix;
        }
        proof {
            if self@.contains(value@) {
                let i = choose|i: int| 0 <= i < self@.len() && self@[i] == value@;
                assert(text_entries(self.by_value).dom().contains(self@[i]));
            }
        }
        let ix: u32 = self.strings.len() as u32;
        let ghost before = self@;
        self.strings.push(value.to_string());
        self.by_value.insert(value.to_string(), ix);
        assert(self@ =~= before.push(value@));
        assert forall|i: int| 0 <= i < self@.len() implies text_entries(
            self.by_value,
        ).dom().contains(#[trigger] self@[i]) && text_entries(self.by_value)[self@[i]] == i by {
            if i < before.len() {
                assert(self@[i] == before[i]);
                assert(before.contains(before[i]));
            }
        }
        ix
    }

    /// The string of a handle.
    pub fn resolve(&self, ix: InternedString) -> (value: &str)
        requires
            ix < self@.len(),
        ensures
            value@ == self@[ix as int],
    {
        self.strings[ix as usize].as_str()
    }

    /// All strings, each at the position of its handle.
    pub fn into_strings(self) -> (strings: Vec<String>)
        ensures
            views(strings@) == self@,
    {
        self.strings
    }
}

/// Interning never changes what an earlier handle stands for, and no two handles
/// stand for the same string.
pub proof fn interning_is_stable(strings: Seq<Seq<char>>, value: Seq<char>, ix: int)
    requires
        strings.no_duplicates(),
        0 <= ix < strings.len(),
    ensures
        interned(strings, value)[ix] == strings[ix],
        interned(strings, value).no_duplicates(),
        interned(strings, value).contains(value),
        interned(interned(strings, value), value) == interned(strings, value),
{
    let after = interned(strings, value);
    if !strings.contains(value) {
        assert(after[strings.len() as int] == value);
        assert forall|i: int, j: int| 0 <= i < after.len() && 0 <= j < after.len() && i
            != j implies after[i] != after[j] by {
            if i < strings.len() && j < strings.len() {
                assert(strings[i] != strings[j]);
            } else if i < strings.len() {
                assert(strings.contains(strings[i]));
            } else if j < strings.len() {
                assert(strings.contains(strings[j]));
            }
        }
    }
}

// ---------------------------------------------------------------------------
// The index

/// What the index holds of a symbol, as handles of its strings.
#[derive(Debug, Clone, Copy, PartialEq, Eq)]
pub struct SymbolCandidate {
    pub id: InternedString,
    pub file_path: InternedString,
    pub namespace: Option<InternedString>,
    pub qualified_name: InternedString,
}

impl SymbolCandidate {
    pub fn new(
        id: InternedString,
        file_path: InternedString,
        namespace: Option<InternedString>,
        qualified_name: InternedString,
    ) -> (candidate: Self)
        ensures
            candidate == (SymbolCandidate { id, file_path, namespace, qualified_name }),
    {
        SymbolCandidate { id, file_path, namespace, qualified_name }
    }
}

/// What the index holds of a symbol, as text.
#[verifier::ext_equal]
pub struct SymbolText {
    pub id: Seq<char>,
    pub file_path: Seq<char>,
    pub namespace: Option<Seq<char>>,
    pub qualified_name: Seq<char>,
}

/// The content of a symbol index: the symbols, the positions of those that bear a
/// simple name, all of them and file by file, and the position of the symbol with an id.
#[verifier::ext_equal]
pub struct IndexView {
    pub symbols: Seq<SymbolText>,
    pub by_name: Map<Seq<char>, Seq<SymbolIx>>,
    pub by_name_file: Map<Seq<char>, Map<InternedString, Seq<SymbolIx>>>,
    pub by_id: Map<Seq<char>, u32>,
}

/// Every handle of the candidate stands for one of `count` strings.
pub open spec fn handles_within(candidate: SymbolCandidate, count: int) -> bool {
    &&& candidate.id < count
    &&& candidate.file_path < count
    &&& candidate.qualified_name < count
    &&& (candidate.namespace is Some ==> candidate.namespace->0 < count)
}

/// The strings that a candidate's handles stand for.
pub open spec fn symbol_text(candidate: SymbolCandidate, strings: Seq<Seq<char>>) -> SymbolText {
    SymbolText {
        id: strings[candidate.id as int],
        file_path: strings[candidate.file_path as int],
        namespace: match candidate.namespace {
            Some(ix) => Some(strings[ix as int]),
            None => None,
        },
        qualified_name: strings[candidate.qualified_name as int],
    }
}

/// The texts of all candidates.
pub open spec fn symbol_texts(
    symbols: Seq<SymbolCandidate>,
    strings: Seq<Seq<char>>,
) -> Seq<SymbolText> {
    Seq::new(symbols.len(), |i: int| symbol_text(symbols[i], strings))
}

/// Every list holds positions of symbols only.
pub open spec fn positions_within(by_name: Map<Seq<char>, Seq<SymbolIx>>, count: int) -> bool {
    forall|name: Seq<char>, i: int|
        #![trigger by_name[name][i]]
        by_name.dom().contains(name) && 0 <= i < by_name[name].len() ==> by_name[name][i] < count
}

/// The symbols of a project, with the tables to find them by.
pub struct SymbolIndex {
    pub symbols: Vec<SymbolCandidate>,
    pub strings: Vec<String>,
    pub by_name: NameTable,
    pub by_name_file: NameFileTable,
    pub by_id: TextTable,
}

impl View for SymbolIndex {
    type V = IndexView;

    open spec fn view(&self) -> IndexView {
        IndexView {
            symbols: symbol_texts(self.symbols@, views(self.strings@)),
            by_name: name_entries(self.by_name),
            by_name_file: name_file_entries(self.by_name_file),
            by_id: text_entries(self.by_id),
        }
    }
}

/// The last part of the scope that a qualified name stands in.
pub open spec fn namespace_of(qualified_name: Seq<char>) -> Option<Seq<char>> {
    match rsplit_once(qualified_name, "::"@) {
        Some((parent, _)) => Some(after_last(parent, "::"@)),
        None => None,
    }
}

/// The last part of the scope that a qualified name stands in.
pub fn parent_namespace(qualified_name: &str) -> (namespace: Option<String>)
    ensures
        opt_text(namespace) == namespace_of(qualified_name@),
{
    match cut_last(qualified_name, "::") {
        Some((parent, _)) => Some(last_part(parent.as_str(), "::")),
        None => None,
    }
}

/// The index entry of a symbol. A symbol without a qualified name goes by its name.
pub open spec fn indexed_symbol(
    id: Seq<char>,
    name: Seq<char>,
    file_path: Seq<char>,
    qualified_name: Option<Seq<char>>,
) -> SymbolText {
    SymbolText {
        id,
        file_path,
        namespace: match qualified_name {
            Some(qualified) => namespace_of(qualified),
            None => None,
        },
        qualified_name: match qualified_name {
            Some(qualified) => qualified,
            None => name,
        },
    }
}

/// The strings that a symbol brings into the interner.
pub open spec fn strings_with_symbol(strings: Seq<Seq<char>>, symbol: SymbolText) -> Seq<Seq<char>> {
    let with_id = interned(strings, symbol.id);
    let with_path = interned(with_id, symbol.file_path);
    let with_namespace = match symbol.namespace {
        Some(namespace) => interned(with_path, namespace),
        None => with_path,
    };
    interned(with_namespace, symbol.qualified_name)
}

/// The index with one more symbol at its end, whose file path has the given handle.
pub open spec fn with_symbol(
    index: IndexView,
    symbol: SymbolText,
    name: Seq<char>,
    file: InternedString,
) -> IndexView {
    let ix = index.symbols.len() as u32;
    let files = files_named(index.by_name_file, name);
    IndexView {
        symbols: index.symbols.push(symbol),
        by_name: index.by_name.insert(name, candidates_named(index.by_name, name).push(ix)),
        by_name_file: index.by_name_file.insert(
            name,
            files.insert(file, candidates_in(files, file).push(ix)),
        ),
        by_id: index.by_id.insert(symbol.id, ix),
    }
}

/// The handle of a string among the interned ones.
pub open spec fn handle_of(strings: Seq<Seq<char>>, value: Seq<char>) -> InternedString {
    strings.index_of(value) as u32
}

/// The index without symbols.
pub open spec fn empty_index() -> IndexView {
    IndexView {
        symbols: seq![],
        by_name: Map::empty(),
        by_name_file: Map::empty(),
        by_id: Map::empty(),
    }
}

/// The interned strings of the first symbols of a project.
pub open spec fn strings_of_nodes(nodes: Seq<NodeView>) -> Seq<Seq<char>>
    decreases nodes.len(),
{
    if nodes.len() == 0 {
        seq![]
    } else {
        let node = nodes.last();
        strings_with_symbol(
            strings_of_nodes(nodes.drop_last()),
            indexed_symbol(node.id, node.name, node.file_path, node.qualified_name),
        )
    }
}

/// The index of a project's symbols, in their order.
pub open spec fn index_of_nodes(nodes: Seq<NodeView>) -> IndexView
    decreases nodes.len(),
{
    if nodes.len() == 0 {
        empty_index()
    } else {
        let node = nodes.last();
        with_symbol(
            index_of_nodes(nodes.drop_last()),
            indexed_symbol(node.id, node.name, node.file_path, node.qualified_name),
            node.name,
            handle_of(strings_of_nodes(nodes), node.file_path),
        )
    }
}

/// Collects symbols into an index.
pub struct SymbolIndexBuilder {
    symbols: Vec<SymbolCandidate>,
    by_name: NameTable,
    by_name_file: NameFileTable,
    by_id: TextTable,
    interner: StringInterner,
}

impl View for SymbolIndexBuilder {
    type V = IndexView;

    closed spec fn view(&self) -> IndexView {
        IndexView {
            symbols: symbol_texts(self.symbols@, self.interner@),
            by_name: name_entries(self.by_name),
            by_name_file: name_file_entries(self.by_name_file),
            by_id: text_entries(self.by_id),
        }
    }
}

impl Default for SymbolIndexBuilder {
    fn default() -> (builder: Self)
        ensures
            builder.wf(),
            builder@ == empty_index(),
            builder.strings() == Seq::<Seq<char>>::empty(),
    {
        let builder = SymbolIndexBuilder {
            symbols: Vec::new(),
            by_name: NameTable::new(),
            by_name_file: NameFileTable::new(),
            by_id: TextTable::new(),
            interner: StringInterner::default(),
        };
        assert(builder@ =~= empty_index());
        builder
    }
}

impl SymbolIndexBuilder {
    /// The strings interned so far.
    pub closed spec fn strings(self) -> Seq<Seq<char>> {
        self.interner@
    }

    /// The handles of the symbols are handles of the interner, and the lists hold
    /// positions of symbols.
    pub closed spec fn wf(self) -> bool {
        &&& self.interner.wf()
        &&& forall|i: int|
            0 <= i < self.symbols@.len() ==> handles_within(
                #[trigger] self.symbols@[i],
                self.interner@.len() as int,
            )
        &&& positions_within(name_entries(self.by_name), self.symbols@.len() as int)
    }

    /// Adds a symbol and gives its position.
    pub fn push(
        &mut self,
        id: &str,
        name: &str,
        file_path: &str,
        qualified_name: Option<&str>,
    ) -> (ix: SymbolIx)
        requires
            old(self).wf(),
            old(self)@.symbols.len() < 0x1_0000_0000,
            old(self).strings().len() <= 0xffff_fffc,
        ensures
            final(self).wf(),
            ix == old(self)@.symbols.len(),
            final(self).strings() == strings_with_symbol(
                old(self).strings(),
                indexed_symbol(id@, name@, file_path@, opt_str(qualified_name)),
            ),
            final(self).strings().len() <= old(self).strings().len() + 4,
            final(self)@ == with_symbol(
                old(self)@,
                indexed_symbol(id@, name@, file_path@, opt_str(qualified_name)),
                name@,
                handle_of(final(self).strings(), file_path@),
            ),
    {
        let ghost symbol = indexed_symbol(id@, name@, file_path@, opt_str(qualified_name));
        let ghost s0 = self.interner@;
        let ix: u32 = self.symbols.len() as u32;
        let id_ix = self.interner.intern(id);
        let ghost s1 = self.interner@;
        let file_path_ix = self.interner.intern(file_path);
        let ghost s2 = self.interner@;
        let namespace: Option<String> = match qualified_name {
            Some(qualified) => parent_namespace(qualified),
            None => None,
        };
        let namespace_ix: Option<InternedString> = match namespace {
            Some(namespace) => Some(self.interner.intern(namespace.as_str())),
            None => None,
        };
        let ghost s3 = self.interner@;
        let qualified_ix = match qualified_name {
            Some(qualified) => self.interner.intern(qualified),
            None => self.interner.intern(name),
        };
        let ghost s4 = self.interner@;
        proof {
            assert(s4 == strings_with_symbol(s0, symbol));
            assert(self.interner.wf());
            assert(s4.index_of(file_path@) == file_path_ix) by {
                self.interner.lemma_handle(file_path_ix as int);
            }
            assert forall|i: int| 0 <= i < s0.len() implies s4[i] == s0[i] by {}
        }
        let ghost symbols_before = self.symbols@;
        let candidate = SymbolCandidate::new(id_ix, file_path_ix, namespace_ix, qualified_ix);
        self.symbols.push(candidate);
        let list = self.by_name.entry(name);
        list.push(ix);
        let files = self.by_name_file.entry(name);
        let in_file = files.entry(file_path_ix);
        in_file.push(ix);
        self.by_id.insert(id.to_string(), ix);
        proof {
            assert(symbol_text(candidate, s4) =~= symbol);
            assert(symbol_texts(self.symbols@, s4) =~= symbol_texts(symbols_before, s0).push(
                symbol,
            ));
            assert(self@ =~= with_symbol(old(self)@, symbol, name@, handle_of(s4, file_path@)));
        }
        ix
    }

    /// The index of the symbols collected.
    pub fn finish(self) -> (index: SymbolIndex)
        requires
            self.wf(),
        ensures
            index.wf(),
            index@ == self@,
            views(index.strings@) == self.strings(),
    {
        SymbolIndex {
            symbols: self.symbols,
            strings: self.interner.into_strings(),
            by_name: self.by_name,
            by_name_file: self.by_name_file,
            by_id: self.by_id,
        }
    }
}

impl StringInterner {
    proof fn lemma_handle(&self, ix: int)
        requires
            self.wf(),
            0 <= ix < self@.len(),
        ensures
            self@.index_of(self@[ix]) == ix,
    {
        let value = self@[ix];
        assert(self@.contains(value));
        let found = self@.index_of(value);
        assert(self@[found] == value);
        assert(text_entries(self.by_value)[self@[found]] == found);
        assert(text_entries(self.by_value)[self@[ix]] == ix);
    }
}

impl SymbolIndex {
    /// The handles of the symbols stand for strings of the index, and the lists hold
    /// positions of symbols.
    pub open spec fn wf(self) -> bool {
        &&& forall|i: int|
            0 <= i < self.symbols@.len() ==> handles_within(
                #[trigger] self.symbols@[i],
                self.strings@.len() as int,
            )
        &&& positions_within(name_entries(self.by_name), self.symbols@.len() as int)
    }

    /// The index of the given symbols, in their order.
    pub fn from_nodes(nodes: &[Node]) -> (index: Self)
        requires
            nodes@.len() <= 0x3fff_ffff,
        ensures
            index.wf(),
            index@ == index_of_nodes(views(nodes@)),
            views(index.strings@) == strings_of_nodes(views(nodes@)),
    {
        let mut builder = SymbolIndexBuilder::default();
        let mut i: usize = 0;
        assert(views(nodes@).take(0) =~= seq![]);
        while i < nodes.len()
            invariant
                i <= nodes@.len() <= 0x3fff_ffff,
                builder.wf(),
                builder@ == index_of_nodes(views(nodes@).take(i as int)),
                builder.strings() == strings_of_nodes(views(nodes@).take(i as int)),
                builder.strings().len() <= 4 * i,
                builder@.symbols.len() == i,
            decreases nodes@.len() - i,
        {
            let node = &nodes[i];
            let qualified_name: Option<&str> = match &node.qualified_name {
                Some(qualified) => Some(qualified.as_str()),
                None => None,
            };
            assert(views(nodes@).take(i + 1).drop_last() =~= views(nodes@).take(i as int));
            assert(views(nodes@).take(i + 1).last() == node@);
            builder.push(
                node.id.as_str(),
                node.name.as_str(),
                node.file_path.as_str(),
                qualified_name,
            );
            i = i + 1;
        }
        assert(views(nodes@).take(i as int) =~= views(nodes@));
        builder.finish()
    }
}

// ---------------------------------------------------------------------------
// Laws

/// The index finds a symbol by its simple name exactly if the symbol bears that name:
/// the positions under a name ascend and are those of the symbols with it.
pub proof fn names_list_their_symbols(nodes: Seq<NodeView>, name: Seq<char>)
    requires
        nodes.len() <= 0x1_0000_0000,
    ensures
        ({
            let list = candidates_named(index_of_nodes(nodes).by_name, name);
            &&& forall|i: int, j: int| 0 <= i < j < list.len() ==> list[i] < list[j]
            &&& forall|i: int|
                0 <= i < list.len() ==> (#[trigger] list[i]) < nodes.len()
                    && nodes[list[i] as int].name == name
            &&& forall|k: int|
                0 <= k < nodes.len() && (#[trigger] nodes[k]).name == name ==> list.contains(
                    k as u32,
                )
        }),
        index_of_nodes(nodes).symbols.len() == nodes.len(),
    decreases nodes.len(),
{
    if nodes.len() > 0 {
        let front = nodes.drop_last();
        names_list_their_symbols(front, name);
        let before = candidates_named(index_of_nodes(front).by_name, name);
        let list = candidates_named(index_of_nodes(nodes).by_name, name);
        let ix = front.len() as u32;
        if nodes.last().name == name {
            assert(list == before.push(ix));
            assert(list[before.len() as int] == ix);
        } else {
            assert(list =~= before);
        }
        assert forall|i: int| 0 <= i < list.len() implies (#[trigger] list[i]) < nodes.len()
            && nodes[list[i] as int].name == name by {
            if i < before.len() {
                assert(list[i] == before[i]);
                assert(front[before[i] as int] == nodes[before[i] as int]);
            }
        }
        assert forall|k: int|
            0 <= k < nodes.len() && (#[trigger] nodes[k]).name == name implies list.contains(
            k as u32,
        ) by {
            if k < front.len() {
                assert(front[k] == nodes[k]);
                assert(before.contains(k as u32));
                let i = choose|i: int| 0 <= i < before.len() && before[i] == k as u32;
                assert(list[i] == k as u32);
            } else {
                assert(list[before.len() as int] == k as u32);
            }
        }
    }
}

/// The index holds the symbols in their order, each under its id; of two with the same
/// id the later one is found.
pub proof fn ids_find_their_symbols(nodes: Seq<NodeView>, k: int)
    requires
        nodes.len() <= 0x1_0000_0000,
        0 <= k < nodes.len(),
        forall|later: int| k < later < nodes.len() ==> (#[trigger] nodes[later]).id != nodes[k].id,
    ensures
        index_of_nodes(nodes).symbols.len() == nodes.len(),
        index_of_nodes(nodes).symbols[k] == indexed_symbol(
            nodes[k].id,
            nodes[k].name,
            nodes[k].file_path,
            nodes[k].qualified_name,
        ),
        index_of_nodes(nodes).by_id.dom().contains(nodes[k].id),
        index_of_nodes(nodes).by_id[nodes[k].id] == k,
    decreases nodes.len(),
{
    let front = nodes.drop_last();
    names_list_their_symbols(front, nodes[k].name);
    if k < front.len() {
        assert forall|later: int| k < later < front.len() implies (#[trigger] front[later]).id
            != front[k].id by {
            assert(front[later] == nodes[later]);
        }
        ids_find_their_symbols(front, k);
        assert(nodes[nodes.len() - 1].id != nodes[k].id);
    }
}

/// A name stands in the scope right before it: the part between its last two separators,
/// or all before its only one.
pub proof fn names_stand_in_the_scope_before_them(
    outer: Seq<char>,
    scope: Seq<char>,
    name: Seq<char>,
)
    requires
        none_after(outer + "::"@ + scope, "::"@, outer.len() as int),
        none_after(
            outer + "::"@ + scope + "::"@ + name,
            "::"@,
            (outer + "::"@ + scope).len() as int,
        ),
        !contains(scope, "::"@),
        none_after(scope + "::"@ + name, "::"@, scope.len() as int),
        !contains(name, "::"@),
    ensures
        namespace_of(outer + "::"@ + scope + "::"@ + name) == Some(scope),
        namespace_of(scope + "::"@ + name) == Some(scope),
        namespace_of(name) is None,
{
    let parent = outer + "::"@ + scope;
    the_last_separator_cuts(parent + "::"@ + name, "::"@, parent, name);
    the_last_separator_cuts(parent, "::"@, outer, scope);
    the_last_separator_cuts(scope + "::"@ + name, "::"@, scope, name);
    the_last_separator_cuts(scope, "::"@, scope, name);
    the_last_separator_cuts(name, "::"@, name, name);
    assert(is_made_of(parent + "::"@ + name, parent, "::"@, name));
    assert(is_made_of(parent, outer, "::"@, scope));
    assert(is_made_of(scope + "::"@ + name, scope, "::"@, name));
}

} // verus!
