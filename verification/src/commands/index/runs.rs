//! What is stored of the files of a project, and how a run changes it.

use vstd::prelude::*;
use crate::commands::index::{is_indexable, language_for_path, path_language, ChangedSymbols};
use crate::db::{Node, NodeView, RawCall, RawCallView};
use crate::ordered::{chosen, lemma_push_members, reversed};
use crate::parser::common::{nothing, ExtractionView};
use crate::parser::syntax::source_tree;
use crate::parser::{extraction, grammar_named, parse_code};
use crate::sets::{texts_in, TextSet};
use crate::text::{lemma_views_push, views};

verus! {

// ---------------------------------------------------------------------------
// One file

/// The ids of symbols.
pub open spec fn ids_of(nodes: Seq<NodeView>) -> Seq<Seq<char>> {
    nodes.map_values(|node: NodeView| node.id)
}

/// The symbols that are left where a later one takes the place of an earlier one with its
/// id.
pub open spec fn last_of_each(nodes: Seq<NodeView>) -> Seq<NodeView>
    decreases nodes.len(),
{
    if nodes.len() == 0 {
        seq![]
    } else {
        let rest = last_of_each(nodes.skip(1));
        if ids_of(nodes.skip(1)).contains(nodes[0].id) {
            rest
        } else {
            seq![nodes[0]] + rest
        }
    }
}

/// The calls that some of the symbols make.
pub open spec fn calls_within(calls: Seq<RawCallView>, nodes: Seq<NodeView>) -> Seq<RawCallView> {
    chosen(calls, |call: RawCallView| ids_of(nodes).contains(call.caller_id))
}

/// What is stored of a file.
#[verifier::ext_equal]
pub struct FileView {
    pub path: Seq<char>,
    pub nodes: Seq<NodeView>,
    pub calls: Seq<RawCallView>,
}

/// A file of a project.
#[verifier::ext_equal]
pub struct SourceView {
    pub path: Seq<char>,
    pub content: Seq<char>,
}

/// What the parser finds in a file, by the language of its path.
pub open spec fn found_in(source: SourceView) -> ExtractionView {
    match path_language(source.path) {
        Some(language) => match grammar_named(language) {
            Some(grammar) => extraction(
                grammar,
                source_tree(grammar, source.content),
                source.path,
            ),
            None => nothing(),
        },
        None => nothing(),
    }
}

/// What is stored of a file: its symbols, one for each id, and the calls that they make.
pub open spec fn file_of(source: SourceView) -> FileView {
    let nodes = last_of_each(found_in(source).nodes);
    FileView { path: source.path, nodes, calls: calls_within(found_in(source).calls, nodes) }
}

fn keep_last(nodes: Vec<Node>) -> (kept: Vec<Node>)
    ensures
        views(kept@) == last_of_each(views(nodes@)),
{
    let ghost all = views(nodes@);
    let ghost count = nodes@.len();
    let mut waiting = nodes;
    let mut seen = TextSet::new();
    let mut turned: Vec<Node> = Vec::new();
    proof {
        assert(all.take(count as int) =~= all);
        assert(all.skip(count as int) =~= seq![]);
        assert(views(turned@).reverse() =~= seq![]);
        assert(ids_of(all.skip(count as int)) =~= seq![]);
    }
    while waiting.len() > 0
        invariant
            count == all.len(),
            waiting@.len() <= count,
            views(waiting@) == all.take(waiting@.len() as int),
            forall|id: Seq<char>| #[trigger]
                texts_in(seen).contains(id) <==> ids_of(all.skip(waiting@.len() as int)).contains(
                    id,
                ),
            views(turned@).reverse() == last_of_each(all.skip(waiting@.len() as int)),
        decreases waiting@.len(),
    {
        let ghost left = waiting@.len() - 1;
        let ghost before = texts_in(seen);
        let ghost turned_before = turned@;
        proof {
            assert(views(waiting@)[left] == all[left]);
            assert(views(waiting@).drop_last() =~= all.take(left));
        }
        if let Some(node) = waiting.pop() {
            proof {
                assert(views(waiting@) =~= all.take(left));
                assert(node@ == all[left]);
                assert(all.skip(left).skip(1) =~= all.skip(left + 1));
                assert(all.skip(left)[0] == node@);
                assert(ids_of(all.skip(left)) =~= seq![node@.id] + ids_of(all.skip(left + 1)));
            }
            let added = seen.insert(node.id.clone());
            proof {
                let rest = ids_of(all.skip(left + 1));
                assert forall|id: Seq<char>| #[trigger]
                    texts_in(seen).contains(id) <==> ids_of(all.skip(left)).contains(id) by {
                    assert(before.contains(id) <==> rest.contains(id));
                    if rest.contains(id) {
                        let k = choose|k: int| 0 <= k < rest.len() && rest[k] == id;
                        assert((seq![node@.id] + rest)[k + 1] == id);
                    }
                    assert((seq![node@.id] + rest)[0] == node@.id);
                    if ids_of(all.skip(left)).contains(id) {
                        let k = choose|k: int|
                            0 <= k < (seq![node@.id] + rest).len() && (seq![node@.id] + rest)[k]
                                == id;
                        if k > 0 {
                            assert(rest[k - 1] == id);
                        }
                    }
                }
            }
            if added {
                turned.push(node);
                proof {
                    lemma_views_push(turned_before, node);
                    assert(views(turned@).reverse() =~= seq![node@] + views(
                        turned_before,
                    ).reverse());
                }
            }
        }
    }
    proof {
        assert(all.skip(0) =~= all);
        assert(views(turned@.reverse()) =~= views(turned@).reverse());
    }
    reversed(turned)
}

fn keep_calls(calls: &Vec<RawCall>, nodes: &Vec<Node>) -> (kept: Vec<RawCall>)
    ensures
        views(kept@) == calls_within(views(calls@), views(nodes@)),
{
    let ghost ids = ids_of(views(nodes@));
    let mut known = TextSet::new();
    let mut n: usize = 0;
    while n < nodes.len()
        invariant
            n <= nodes@.len(),
            ids == ids_of(views(nodes@)),
            forall|id: Seq<char>| #[trigger]
                texts_in(known).contains(id) <==> ids.take(n as int).contains(id),
        decreases nodes@.len() - n,
    {
        let ghost before = texts_in(known);
        known.insert(nodes[n].id.clone());
        proof {
            let id = nodes@[n as int].id@;
            assert(views(nodes@)[n as int] == nodes@[n as int]@);
            assert(ids.take(n + 1) =~= ids.take(n as int).push(id));
            assert forall|x: Seq<char>| #[trigger] texts_in(known).contains(x) <==> ids.take(
                n + 1,
            ).contains(x) by {
                lemma_push_members(ids.take(n as int), id, x);
                assert(before.contains(x) <==> ids.take(n as int).contains(x));
            }
        }
        n = n + 1;
    }
    assert(ids.take(n as int) =~= ids);
    let ghost all = views(calls@);
    let mut kept: Vec<RawCall> = Vec::new();
    let mut i: usize = 0;
    assert(all.take(0) =~= seq![]);
    assert(views(kept@) =~= seq![]);
    while i < calls.len()
        invariant
            i <= calls@.len(),
            all == views(calls@),
            ids == ids_of(views(nodes@)),
            forall|id: Seq<char>| #[trigger] texts_in(known).contains(id) <==> ids.contains(id),
            views(kept@) == calls_within(all.take(i as int), views(nodes@)),
        decreases calls@.len() - i,
    {
        proof {
            assert(all.take(i + 1).drop_last() =~= all.take(i as int));
            assert(all.take(i + 1).last() == calls@[i as int]@);
        }
        if known.contains(calls[i].caller_id.as_str()) {
            let call = calls[i].clone();
            proof {
                lemma_views_push(kept@, call);
            }
            kept.push(call);
        }
        i = i + 1;
    }
    assert(all.take(i as int) =~= all);
    kept
}

/// What is stored of a file with this content: its symbols, one for each id, and the calls
/// that they make. Nothing is, where the language of its path is not known.
pub fn index_file(path: &str, content: &str) -> (indexed: Option<(Vec<Node>, Vec<RawCall>)>)
    ensures
        indexed is Some <==> is_indexable(path@, Some(content@)),
        match indexed {
            Some((nodes, calls)) => (FileView {
                path: path@,
                nodes: views(nodes@),
                calls: views(calls@),
            }) == file_of(SourceView { path: path@, content: content@ }),
            None => true,
        },
{
    let language = match language_for_path(path) {
        Some(language) => language,
        None => {
            return None;
        },
    };
    match parse_code(path, content, language) {
        Ok((found, made)) => {
            let nodes = keep_last(found);
            let calls = keep_calls(&made, &nodes);
            Some((nodes, calls))
        },
        Err(_) => None,
    }
}

impl ChangedSymbols {
    /// The symbols of a file.
    pub fn note_all(&mut self, nodes: &Vec<Node>)
        ensures
            views(final(self).ids@) == views(old(self).ids@) + ids_of(views(nodes@)),
            views(final(self).names@) == views(old(self).names@) + names_of_nodes(views(nodes@)),
    {
        let ghost ids = ids_of(views(nodes@));
        let ghost names = names_of_nodes(views(nodes@));
        let ghost first = views(self.ids@);
        let ghost second = views(self.names@);
        let mut i: usize = 0;
        proof {
            assert(first + ids.take(0) =~= first);
            assert(second + names.take(0) =~= second);
        }
        while i < nodes.len()
            invariant
                i <= nodes@.len(),
                ids == ids_of(views(nodes@)),
                names == names_of_nodes(views(nodes@)),
                views(self.ids@) == first + ids.take(i as int),
                views(self.names@) == second + names.take(i as int),
            decreases nodes@.len() - i,
        {
            self.note(nodes[i].id.as_str(), nodes[i].name.as_str());
            proof {
                assert(views(nodes@)[i as int] == nodes@[i as int]@);
                assert(first + ids.take(i + 1) =~= (first + ids.take(i as int)).push(
                    ids[i as int],
                ));
                assert(second + names.take(i + 1) =~= (second + names.take(i as int)).push(
                    names[i as int],
                ));
            }
            i = i + 1;
        }
        assert(ids.take(i as int) =~= ids);
        assert(names.take(i as int) =~= names);
    }
}

/// The names of symbols.
pub open spec fn names_of_nodes(nodes: Seq<NodeView>) -> Seq<Seq<char>> {
    nodes.map_values(|node: NodeView| node.name)
}

// ---------------------------------------------------------------------------
// All files

/// What is stored of some files.
pub open spec fn files_of(sources: Seq<SourceView>) -> Seq<FileView> {
    sources.map_values(|source: SourceView| file_of(source))
}

/// The symbols of some files, file by file.
pub open spec fn all_nodes(files: Seq<FileView>) -> Seq<NodeView>
    decreases files.len(),
{
    if files.len() == 0 {
        seq![]
    } else {
        all_nodes(files.drop_last()) + files.last().nodes
    }
}

/// The calls of some files, file by file.
pub open spec fn all_calls(files: Seq<FileView>) -> Seq<RawCallView>
    decreases files.len(),
{
    if files.len() == 0 {
        seq![]
    } else {
        all_calls(files.drop_last()) + files.last().calls
    }
}

/// The files after a run: those that it did not touch, as they are, and those that it
/// stored anew.
pub open spec fn after_run(
    files: Seq<FileView>,
    touched: Seq<Seq<char>>,
    parsed: Seq<FileView>,
) -> Seq<FileView> {
    chosen(files, |file: FileView| !touched.contains(file.path)) + parsed
}

/// The ids and names of a file's symbols are noted.
pub open spec fn is_noted(file: FileView, ids: Seq<Seq<char>>, names: Seq<Seq<char>>) -> bool {
    forall|k: int|
        0 <= k < file.nodes.len() ==> ids.contains((#[trigger] file.nodes[k]).id)
            && names.contains(file.nodes[k].name)
}

} // verus!
