//! How symbols, code and walks are shown as text.

use vstd::prelude::*;
use crate::commands::impact::{
    AffectedTest, AffectedTestView, BoundaryView, ImpactEdge, ImpactEdgeView, ImpactPath,
    ImpactPathView, ImpactResult, ImpactResultView, UnresolvedBoundary,
};
use crate::commands::{Warning, WarningView};
use crate::db::{Node, NodeView};
use crate::ordered::{choice_of, choose_by, chosen, chosen_members, Choice};
use crate::text::{
    decimal, join, join2, join3, joined, lemma_views_push, number, same, views,
};

verus! {

// ---------------------------------------------------------------------------
// Rendering

/// A way to show a value as text.
pub trait Rendering<T: View> {
    spec fn shown(&self, item: T::V) -> Seq<char>;

    fn show(&self, item: &T) -> (text: String)
        ensures
            text@ == self.shown(item@),
    ;
}

/// What is shown of each value.
pub open spec fn shown_all<T: View, R: Rendering<T>>(items: Seq<T::V>, rendering: R) -> Seq<
    Seq<char>,
> {
    items.map_values(|item: T::V| rendering.shown(item))
}

/// Appends what is shown of each value.
pub fn show_all<T: View, R: Rendering<T>>(lines: &mut Vec<String>, items: &Vec<T>, rendering: &R)
    ensures
        views(final(lines)@) == views(old(lines)@) + shown_all::<T, R>(views(items@), *rendering),
{
    let ghost start = views(lines@);
    let ghost wanted = shown_all::<T, R>(views(items@), *rendering);
    let mut i: usize = 0;
    assert(start + wanted.take(0) =~= start);
    while i < items.len()
        invariant
            i <= items@.len(),
            wanted == shown_all::<T, R>(views(items@), *rendering),
            views(lines@) == start + wanted.take(i as int),
        decreases items@.len() - i,
    {
        let text = rendering.show(&items[i]);
        let ghost before = lines@;
        lines.push(text);
        proof {
            lemma_views_push(before, text);
            assert(wanted[i as int] == text@);
            assert(wanted.take(i + 1) =~= wanted.take(i as int).push(text@));
            assert(views(lines@) =~= start + wanted.take(i + 1));
        }
        i = i + 1;
    }
    assert(wanted.take(i as int) =~= wanted);
}

/// What is shown of each value, or else a word for there being none.
pub open spec fn shown_or<T: View, R: Rendering<T>>(
    items: Seq<T::V>,
    rendering: R,
    none: Seq<char>,
) -> Seq<Seq<char>> {
    if items.len() == 0 {
        seq![none]
    } else {
        shown_all::<T, R>(items, rendering)
    }
}

/// Appends what is shown of each value, or else a word for there being none.
pub fn show_or<T: View, R: Rendering<T>>(
    lines: &mut Vec<String>,
    items: &Vec<T>,
    rendering: &R,
    none: &str,
)
    ensures
        views(final(lines)@) == views(old(lines)@) + shown_or::<T, R>(
            views(items@),
            *rendering,
            none@,
        ),
{
    assert(views(items@).len() == items@.len());
    if items.len() == 0 {
        add_line(lines, none.to_string());
    } else {
        show_all(lines, items, rendering);
    }
}

fn add_line(lines: &mut Vec<String>, line: String)
    ensures
        views(final(lines)@) == views(old(lines)@) + seq![line@],
{
    let ghost before = lines@;
    lines.push(line);
    proof {
        lemma_views_push(before, line);
        assert(views(lines@) =~= views(before) + seq![line@]);
    }
}

fn no_lines() -> (lines: Vec<String>)
    ensures
        views(lines@) == Seq::<Seq<char>>::empty(),
{
    let lines: Vec<String> = Vec::new();
    assert(views(lines@) =~= seq![]);
    lines
}

// ---------------------------------------------------------------------------
// Symbols

/// How the edge to a symbol was resolved, where that is to be shown and is known.
pub open spec fn resolution_suffix(node: NodeView, show_resolution: bool) -> Seq<char> {
    if show_resolution && node.resolution_kind is Some && node.confidence is Some {
        " [resolution: "@ + node.resolution_kind->0 + ", confidence: "@ + decimal(
            node.confidence->0,
        ) + "]"@
    } else {
        seq![]
    }
}

fn show_resolution_of(node: &Node, show_resolution: bool) -> (suffix: String)
    ensures
        suffix@ == resolution_suffix(node@, show_resolution),
{
    if show_resolution {
        if let Some(kind) = &node.resolution_kind {
            if let Some(confidence) = node.confidence {
                let worth = number(confidence);
                let head = join3(" [resolution: ", kind.as_str(), ", confidence: ");
                return join3(head.as_str(), worth.as_str(), "]");
            }
        }
    }
    let none = String::new();
    assert(none@ =~= seq![]);
    none
}

/// The line of a symbol under a name.
pub open spec fn node_line(name: Seq<char>, node: NodeView, show_resolution: bool) -> Seq<char> {
    "- "@ + name + " ("@ + node.kind + ") - "@ + node.file_path + ":"@ + decimal(node.start_line)
        + resolution_suffix(node, show_resolution)
}

fn show_node(name: &str, node: &Node, show_resolution: bool) -> (line: String)
    ensures
        line@ == node_line(name@, node@, show_resolution),
{
    let suffix = show_resolution_of(node, show_resolution);
    let line = number(node.start_line);
    let head = join3("- ", name, " (");
    let kind = join3(head.as_str(), node.kind.as_str(), ") - ");
    let place = join3(kind.as_str(), node.file_path.as_str(), ":");
    join3(place.as_str(), line.as_str(), suffix.as_str())
}

/// The name by which a listed symbol can be told from others of its name.
pub open spec fn display_name(node: NodeView) -> Seq<char> {
    match node.qualified_name {
        Some(name) => name,
        None => node.name,
    }
}

/// A symbol of a list.
pub struct Listed {
    pub show_resolution: bool,
}

impl Rendering<Node> for Listed {
    open spec fn shown(&self, node: NodeView) -> Seq<char> {
        node_line(display_name(node), node, self.show_resolution)
    }

    fn show(&self, node: &Node) -> (text: String) {
        match &node.qualified_name {
            Some(name) => show_node(name.as_str(), node, self.show_resolution),
            None => show_node(node.name.as_str(), node, self.show_resolution),
        }
    }
}

/// A symbol beside another, with a margin.
pub struct Related<'a> {
    pub margin: &'a str,
    pub show_resolution: bool,
}

impl<'a> Rendering<Node> for Related<'a> {
    open spec fn shown(&self, node: NodeView) -> Seq<char> {
        self.margin@ + node_line(node.name, node, self.show_resolution)
    }

    fn show(&self, node: &Node) -> (text: String) {
        let line = show_node(node.name.as_str(), node, self.show_resolution);
        join2(self.margin, line.as_str())
    }
}

/// A symbol of a file.
pub struct InFile;

impl Rendering<Node> for InFile {
    open spec fn shown(&self, node: NodeView) -> Seq<char> {
        "- "@ + node.name + " ("@ + node.kind + ") - lines "@ + decimal(node.start_line) + "-"@
            + decimal(node.end_line)
    }

    fn show(&self, node: &Node) -> (text: String) {
        let first = number(node.start_line);
        let last = number(node.end_line);
        let head = join3("- ", node.name.as_str(), " (");
        let kind = join3(head.as_str(), node.kind.as_str(), ") - lines ");
        let start = join3(kind.as_str(), first.as_str(), "-");
        join2(start.as_str(), last.as_str())
    }
}

/// The lines of a list of symbols.
pub fn list_nodes(nodes: &Vec<Node>, empty_message: &str, show_resolution: bool) -> (lines: Vec<String>)
    ensures
        views(lines@) == shown_or::<Node, Listed>(
            views(nodes@),
            (Listed { show_resolution }),
            empty_message@,
        ),
{
    let mut lines = no_lines();
    show_or(&mut lines, nodes, &Listed { show_resolution }, empty_message);
    assert(views(lines@) =~= shown_or::<Node, Listed>(
        views(nodes@),
        (Listed { show_resolution }),
        empty_message@,
    ));
    lines
}

/// The lines that show the symbols of a file.
pub open spec fn file_symbol_lines(file: Seq<char>, nodes: Seq<NodeView>) -> Seq<Seq<char>> {
    if nodes.len() == 0 {
        seq!["No symbols found for file '"@ + file + "'."@]
    } else {
        seq!["Symbols in "@ + file + ":"@] + shown_all::<Node, InFile>(nodes, InFile)
    }
}

/// The lines that show the symbols of a file.
pub fn list_file_symbols(file: &str, nodes: &Vec<Node>) -> (lines: Vec<String>)
    ensures
        views(lines@) == file_symbol_lines(file@, views(nodes@)),
{
    let mut lines = no_lines();
    assert(views(nodes@).len() == nodes@.len());
    if nodes.len() == 0 {
        add_line(&mut lines, join3("No symbols found for file '", file, "'."));
    } else {
        add_line(&mut lines, join3("Symbols in ", file, ":"));
        show_all(&mut lines, nodes, &InFile);
    }
    assert(views(lines@) =~= file_symbol_lines(file@, views(nodes@)));
    lines
}

// ---------------------------------------------------------------------------
// Code

/// A line of a file with its number.
#[derive(Debug, PartialEq)]
pub struct CodeLine {
    pub line: i64,
    pub text: String,
}

/// The content of a [`CodeLine`].
#[verifier::ext_equal]
pub struct CodeLineView {
    pub line: int,
    pub text: Seq<char>,
}

impl View for CodeLine {
    type V = CodeLineView;

    open spec fn view(&self) -> CodeLineView {
        CodeLineView { line: self.line as int, text: self.text@ }
    }
}

/// The first line that is shown where this one is asked for.
pub open spec fn first_line(start: int) -> int {
    if start < 1 {
        1
    } else {
        start
    }
}

/// The last line that is shown of so many where this one is asked for.
pub open spec fn last_line(end: int, total: int) -> int {
    if end < total {
        end
    } else {
        total
    }
}

/// The lines of a file from `start` to `end` that are there, with their numbers.
pub open spec fn code_lines(lines: Seq<Seq<char>>, start: int, end: int) -> Seq<CodeLineView> {
    let first = first_line(start);
    let last = last_line(end, lines.len() as int);
    if last < first {
        seq![]
    } else {
        Seq::new(
            (last - first + 1) as nat,
            |i: int| CodeLineView { line: first + i, text: lines[first + i - 1] },
        )
    }
}

/// The lines of a file from `start` to `end` that are there, with their numbers.
pub fn number_lines(lines: &Vec<String>, start: i64, end: i64) -> (found: Vec<CodeLine>)
    requires
        lines@.len() <= i64::MAX,
    ensures
        views(found@) == code_lines(views(lines@), start as int, end as int),
{
    let ghost wanted = code_lines(views(lines@), start as int, end as int);
    let total: i64 = lines.len() as i64;
    let first: i64 = if start < 1 {
        1
    } else {
        start
    };
    let last: i64 = if end < total {
        end
    } else {
        total
    };
    let mut found: Vec<CodeLine> = Vec::new();
    assert(views(lines@).len() == lines@.len());
    assert(views(found@) =~= wanted.take(0));
    if last < first {
        assert(wanted =~= seq![]);
        return found;
    }
    let mut line: i64 = first;
    while line <= last
        invariant
            1 <= first <= line <= last + 1,
            last <= lines.len() <= i64::MAX,
            wanted == code_lines(views(lines@), start as int, end as int),
            wanted.len() == last - first + 1,
            forall|i: int|
                0 <= i < wanted.len() ==> #[trigger] wanted[i] == (CodeLineView {
                    line: first + i,
                    text: views(lines@)[first + i - 1],
                }),
            views(found@) == wanted.take(line - first),
        decreases last - line + 1,
    {
        let at: usize = (line - 1) as usize;
        let item = CodeLine { line, text: lines[at].clone() };
        let ghost before = found@;
        found.push(item);
        proof {
            lemma_views_push(before, item);
            assert(wanted[line - first] == item@);
            assert(wanted.take(line - first + 1) =~= wanted.take(line - first).push(item@));
        }
        if line == last {
            assert(wanted.take(last - first + 1) =~= wanted);
            return found;
        }
        line = line + 1;
    }
    found
}

/// Every line that is shown is the line of the file with its number, and lies in the
/// range asked for.
pub proof fn shown_lines_are_lines(lines: Seq<Seq<char>>, start: int, end: int, i: int)
    requires
        0 <= i < code_lines(lines, start, end).len(),
    ensures
        ({
            let shown = code_lines(lines, start, end)[i];
            &&& 1 <= shown.line <= lines.len()
            &&& start <= shown.line <= end
            &&& shown.text == lines[shown.line - 1]
        }),
{
}

/// The last line of a file that is shown where so many lines are asked for.
pub open spec fn range_end(start: int, limit: Option<int>, total: int) -> int {
    match limit {
        Some(limit) => last_line(start + limit - 1, total),
        None => total,
    }
}

/// The range of lines that is shown of a file with so many lines.
pub fn line_range(offset: Option<i64>, limit: Option<i64>, total: i64) -> (range: (i64, i64))
    requires
        limit is Some ==> first_line(
            (match offset {
                Some(offset) => offset as int,
                None => 1,
            }),
        ) + limit->0 - 1 <= i64::MAX,
    ensures
        range.0 == first_line(
            (match offset {
                Some(offset) => offset as int,
                None => 1,
            }),
        ),
        range.1 == range_end(range.0 as int, crate::db::opt_int(limit), total as int),
{
    let asked: i64 = match offset {
        Some(offset) => offset,
        None => 1,
    };
    let start: i64 = if asked < 1 {
        1
    } else {
        asked
    };
    let end: i64 = match limit {
        Some(limit) => {
            let last: i64 = start - 1 + limit;
            if last < total {
                last
            } else {
                total
            }
        },
        None => total,
    };
    (start, end)
}

/// A slice of a file shows as many lines as are asked for, one after the other from the
/// first one on, and fewer only where the file ends before that.
pub proof fn slices_hold_the_lines_asked_for(lines: Seq<Seq<char>>, offset: int, limit: int)
    requires
        1 <= first_line(offset) <= lines.len(),
        limit >= 1,
    ensures
        ({
            let start = first_line(offset);
            let end = range_end(start, Some(limit), lines.len() as int);
            let shown = code_lines(lines, start, end);
            &&& shown.len() == if limit <= lines.len() - start {
                limit
            } else {
                lines.len() - start + 1
            }
            &&& forall|i: int| 0 <= i < shown.len() ==> (#[trigger] shown[i]).line == start + i
        }),
{
}

/// A line of code with a margin.
pub struct Numbered<'a> {
    pub margin: &'a str,
}

impl<'a> Rendering<CodeLine> for Numbered<'a> {
    open spec fn shown(&self, line: CodeLineView) -> Seq<char> {
        self.margin@ + decimal(line.line) + "\t"@ + line.text
    }

    fn show(&self, line: &CodeLine) -> (text: String) {
        let at = number(line.line);
        let head = join3(self.margin, at.as_str(), "\t");
        join2(head.as_str(), line.text.as_str())
    }
}

/// The lines that show a part of a file and the symbols elsewhere that need it.
pub open spec fn file_lines(
    file: Seq<char>,
    start: int,
    end: int,
    code: Seq<CodeLineView>,
    dependents: Seq<NodeView>,
    show_resolution: bool,
) -> Seq<Seq<char>> {
    seq![
        "File content of "@ + file + " (lines "@ + decimal(start) + " to "@ + decimal(end) + "):"@,
    ] + shown_all::<CodeLine, Numbered>(code, (Numbered { margin: "" })) + seq!["\nDependents:"@]
        + shown_or::<Node, Related>(
        dependents,
        (Related { margin: "", show_resolution }),
        "No external dependents."@,
    )
}

/// The lines that show a part of a file and the symbols elsewhere that need it.
pub fn show_file(
    file: &str,
    start: i64,
    end: i64,
    code: &Vec<CodeLine>,
    dependents: &Vec<Node>,
    show_resolution: bool,
) -> (lines: Vec<String>)
    ensures
        views(lines@) == file_lines(
            file@,
            start as int,
            end as int,
            views(code@),
            views(dependents@),
            show_resolution,
        ),
{
    let mut lines = no_lines();
    let first = number(start);
    let last = number(end);
    let head = join3("File content of ", file, " (lines ");
    let from = join3(head.as_str(), first.as_str(), " to ");
    add_line(&mut lines, join3(from.as_str(), last.as_str(), "):"));
    show_all(&mut lines, code, &Numbered { margin: "" });
    add_line(&mut lines, "\nDependents:".to_string());
    show_or(
        &mut lines,
        dependents,
        &Related { margin: "", show_resolution },
        "No external dependents.",
    );
    assert(views(lines@) =~= file_lines(
        file@,
        start as int,
        end as int,
        views(code@),
        views(dependents@),
        show_resolution,
    ));
    lines
}

struct Elsewhere<'a> {
    file: &'a str,
}

impl<'a> Choice<Node> for Elsewhere<'a> {
    closed spec fn picks(&self, node: NodeView) -> bool {
        node.file_path != self.file@
    }

    fn pick(&self, node: &Node) -> (picked: bool) {
        !same(node.file_path.as_str(), self.file)
    }
}

/// The symbols of other files.
pub open spec fn external(nodes: Seq<NodeView>, file: Seq<char>) -> Seq<NodeView> {
    chosen(nodes, |node: NodeView| node.file_path != file)
}

/// The symbols of other files.
pub fn external_nodes(nodes: Vec<Node>, file: &str) -> (found: Vec<Node>)
    ensures
        views(found@) == external(views(nodes@), file@),
{
    let choice = Elsewhere { file };
    assert(choice_of::<Node, Elsewhere>(choice) =~= (|node: NodeView| node.file_path != file@));
    choose_by(nodes, &choice)
}

// ---------------------------------------------------------------------------
// A symbol with all that is known of it

/// The code of a symbol: not asked for, not to be had, or the lines of its file.
#[derive(Debug)]
pub enum SourceText {
    Omitted,
    Unreadable,
    Lines(Vec<String>),
}

/// The content of a [`SourceText`].
#[verifier::ext_equal]
pub enum SourceView {
    Omitted,
    Unreadable,
    Lines(Seq<Seq<char>>),
}

impl View for SourceText {
    type V = SourceView;

    open spec fn view(&self) -> SourceView {
        match self {
            SourceText::Omitted => SourceView::Omitted,
            SourceText::Unreadable => SourceView::Unreadable,
            SourceText::Lines(lines) => SourceView::Lines(views(lines@)),
        }
    }
}

/// The lines that show the code of a symbol.
pub open spec fn source_lines(node: NodeView, source: SourceView) -> Seq<Seq<char>> {
    match source {
        SourceView::Omitted => seq![],
        SourceView::Unreadable => seq!["\nCode: [Could not read file '"@ + node.file_path + "']"@],
        SourceView::Lines(lines) => seq!["\nCode:"@] + shown_all::<CodeLine, Numbered>(
            code_lines(lines, node.start_line, node.end_line),
            (Numbered { margin: "" }),
        ),
    }
}

/// The lines that show what a symbol says of itself.
pub open spec fn header_lines(node: NodeView) -> Seq<Seq<char>> {
    seq![
        "Symbol: "@ + node.name + " ("@ + node.kind + ")"@,
        "Defined in: "@ + node.file_path + " (lines "@ + decimal(node.start_line) + "-"@ + decimal(
            node.end_line,
        ) + ")"@,
    ] + (match node.signature {
        Some(signature) => seq!["Signature: "@ + signature],
        None => seq![],
    }) + (match node.doc_comment {
        Some(doc) => seq!["Documentation:\n"@ + doc],
        None => seq![],
    })
}

/// The lines that show a symbol, its code and the symbols at the other ends of its edges.
pub open spec fn symbol_lines(
    node: NodeView,
    source: SourceView,
    callers: Seq<NodeView>,
    callees: Seq<NodeView>,
    show_resolution: bool,
) -> Seq<Seq<char>> {
    header_lines(node) + source_lines(node, source) + seq!["\nCallers:"@] + shown_or::<Node, Related>(
        callers,
        (Related { margin: "", show_resolution }),
        "None"@,
    ) + seq!["\nCallees:"@] + shown_or::<Node, Related>(
        callees,
        (Related { margin: "", show_resolution }),
        "None"@,
    )
}

fn add_header(lines: &mut Vec<String>, node: &Node)
    ensures
        views(final(lines)@) == views(old(lines)@) + header_lines(node@),
{
    let ghost start = views(lines@);
    let first = number(node.start_line);
    let last = number(node.end_line);
    let symbol = join3("Symbol: ", node.name.as_str(), " (");
    add_line(lines, join3(symbol.as_str(), node.kind.as_str(), ")"));
    let place = join3("Defined in: ", node.file_path.as_str(), " (lines ");
    let from = join3(place.as_str(), first.as_str(), "-");
    add_line(lines, join3(from.as_str(), last.as_str(), ")"));
    if let Some(signature) = &node.signature {
        add_line(lines, join2("Signature: ", signature.as_str()));
    }
    if let Some(doc) = &node.doc_comment {
        add_line(lines, join2("Documentation:\n", doc.as_str()));
    }
    assert(views(lines@) =~= start + header_lines(node@));
}

/// The number of lines can be counted.
pub open spec fn source_fits(source: SourceText) -> bool {
    match source {
        SourceText::Lines(lines) => lines@.len() <= i64::MAX,
        _ => true,
    }
}

fn add_source(lines: &mut Vec<String>, node: &Node, source: &SourceText)
    requires
        source_fits(*source),
    ensures
        views(final(lines)@) == views(old(lines)@) + source_lines(node@, source@),
{
    let ghost start = views(lines@);
    match source {
        SourceText::Omitted => {},
        SourceText::Unreadable => {
            add_line(
                lines,
                join3("\nCode: [Could not read file '", node.file_path.as_str(), "']"),
            );
        },
        SourceText::Lines(text) => {
            let code = number_lines(text, node.start_line, node.end_line);
            add_line(lines, "\nCode:".to_string());
            show_all(lines, &code, &Numbered { margin: "" });
        },
    }
    assert(views(lines@) =~= start + source_lines(node@, source@));
}

/// The text that shows a symbol, its code and the symbols at the other ends of its edges.
pub fn show_symbol(
    node: &Node,
    source: &SourceText,
    callers: &Vec<Node>,
    callees: &Vec<Node>,
    show_resolution: bool,
) -> (text: String)
    requires
        source_fits(*source),
    ensures
        text@ == joined(
            symbol_lines(
                node@,
                source@,
                views(callers@),
                views(callees@),
                show_resolution,
            ),
            "\n"@,
        ),
{
    let mut lines = no_lines();
    add_header(&mut lines, node);
    add_source(&mut lines, node, source);
    add_line(&mut lines, "\nCallers:".to_string());
    show_or(&mut lines, callers, &Related { margin: "", show_resolution }, "None");
    add_line(&mut lines, "\nCallees:".to_string());
    show_or(&mut lines, callees, &Related { margin: "", show_resolution }, "None");
    assert(views(lines@) =~= symbol_lines(
        node@,
        source@,
        views(callers@),
        views(callees@),
        show_resolution,
    ));
    join(&lines, "\n")
}

// ---------------------------------------------------------------------------
// Symbols by file

/// The paths of the symbols' files, in the order in which they first appear.
pub open spec fn paths_of(nodes: Seq<NodeView>) -> Seq<Seq<char>>
    decreases nodes.len(),
{
    if nodes.len() == 0 {
        seq![]
    } else {
        let before = paths_of(nodes.drop_last());
        if before.contains(nodes.last().file_path) {
            before
        } else {
            before.push(nodes.last().file_path)
        }
    }
}

/// The symbols of one file.
#[derive(Debug)]
pub struct FileGroup {
    pub file_path: String,
    pub nodes: Vec<Node>,
}

/// The content of a [`FileGroup`].
#[verifier::ext_equal]
pub struct FileGroupView {
    pub file_path: Seq<char>,
    pub nodes: Seq<NodeView>,
}

impl View for FileGroup {
    type V = FileGroupView;

    open spec fn view(&self) -> FileGroupView {
        FileGroupView { file_path: self.file_path@, nodes: views(self.nodes@) }
    }
}

/// The symbols of the file with a path.
pub open spec fn group_of(nodes: Seq<NodeView>, path: Seq<char>) -> FileGroupView {
    FileGroupView {
        file_path: path,
        nodes: chosen(nodes, |node: NodeView| node.file_path == path),
    }
}

/// The symbols file by file, in the order in which the files first appear.
pub open spec fn groups_of(nodes: Seq<NodeView>) -> Seq<FileGroupView> {
    paths_of(nodes).map_values(|path: Seq<char>| group_of(nodes, path))
}

fn knows_path(paths: &Vec<String>, path: &str) -> (found: bool)
    ensures
        found == views(paths@).contains(path@),
{
    let ghost all = views(paths@);
    let mut i: usize = 0;
    while i < paths.len()
        invariant
            i <= paths@.len(),
            all == views(paths@),
            forall|k: int| 0 <= k < i ==> #[trigger] all[k] != path@,
        decreases paths@.len() - i,
    {
        assert(all[i as int] == paths@[i as int]@);
        if same(paths[i].as_str(), path) {
            return true;
        }
        i = i + 1;
    }
    false
}

fn list_paths(nodes: &Vec<Node>) -> (paths: Vec<String>)
    ensures
        views(paths@) == paths_of(views(nodes@)),
{
    let ghost all = views(nodes@);
    let mut paths = no_lines();
    let mut i: usize = 0;
    assert(all.take(0) =~= seq![]);
    while i < nodes.len()
        invariant
            i <= nodes@.len(),
            all == views(nodes@),
            views(paths@) == paths_of(all.take(i as int)),
        decreases nodes@.len() - i,
    {
        proof {
            assert(all.take(i + 1).drop_last() =~= all.take(i as int));
            assert(all.take(i + 1).last() == nodes@[i as int]@);
        }
        if !knows_path(&paths, nodes[i].file_path.as_str()) {
            let path = nodes[i].file_path.clone();
            proof {
                lemma_views_push(paths@, path);
            }
            paths.push(path);
        }
        i = i + 1;
    }
    assert(all.take(i as int) =~= all);
    paths
}

fn nodes_in_file(nodes: &Vec<Node>, path: &str) -> (found: Vec<Node>)
    ensures
        views(found@) == group_of(views(nodes@), path@).nodes,
{
    let ghost all = views(nodes@);
    let ghost picks = |node: NodeView| node.file_path == path@;
    let mut found: Vec<Node> = Vec::new();
    let mut i: usize = 0;
    assert(all.take(0) =~= seq![]);
    assert(views(found@) =~= seq![]);
    while i < nodes.len()
        invariant
            i <= nodes@.len(),
            all == views(nodes@),
            picks == (|node: NodeView| node.file_path == path@),
            views(found@) == chosen(all.take(i as int), picks),
        decreases nodes@.len() - i,
    {
        proof {
            assert(all.take(i + 1).drop_last() =~= all.take(i as int));
            assert(all.take(i + 1).last() == nodes@[i as int]@);
        }
        if same(nodes[i].file_path.as_str(), path) {
            let node = nodes[i].clone();
            proof {
                lemma_views_push(found@, node);
            }
            found.push(node);
        }
        i = i + 1;
    }
    assert(all.take(i as int) =~= all);
    found
}

/// The symbols file by file, in the order in which the files first appear.
pub fn group_by_file(nodes: &Vec<Node>) -> (groups: Vec<FileGroup>)
    ensures
        views(groups@) == groups_of(views(nodes@)),
{
    let paths = list_paths(nodes);
    let ghost wanted = groups_of(views(nodes@));
    let mut groups: Vec<FileGroup> = Vec::new();
    let mut i: usize = 0;
    assert(views(groups@) =~= wanted.take(0));
    while i < paths.len()
        invariant
            i <= paths@.len(),
            views(paths@) == paths_of(views(nodes@)),
            wanted == groups_of(views(nodes@)),
            views(groups@) == wanted.take(i as int),
        decreases paths@.len() - i,
    {
        let group = FileGroup {
            file_path: paths[i].clone(),
            nodes: nodes_in_file(nodes, paths[i].as_str()),
        };
        proof {
            lemma_views_push(groups@, group);
            assert(wanted[i as int] == group_of(views(nodes@), views(paths@)[i as int]));
            assert(group@ =~= wanted[i as int]);
            assert(wanted.take(i + 1) =~= wanted.take(i as int).push(wanted[i as int]));
        }
        groups.push(group);
        i = i + 1;
    }
    assert(wanted.take(i as int) =~= wanted);
    groups
}

proof fn lemma_paths(nodes: Seq<NodeView>)
    ensures
        paths_of(nodes).no_duplicates(),
        forall|i: int|
            0 <= i < nodes.len() ==> paths_of(nodes).contains((#[trigger] nodes[i]).file_path),
    decreases nodes.len(),
{
    if nodes.len() > 0 {
        let front = nodes.drop_last();
        let before = paths_of(front);
        let last = nodes.last().file_path;
        let all = paths_of(nodes);
        lemma_paths(front);
        if !before.contains(last) {
            assert forall|i: int, j: int|
                0 <= i < all.len() && 0 <= j < all.len() && i != j implies all[i] != all[j] by {
                if i < before.len() && j < before.len() {
                    assert(all[i] == before[i] && all[j] == before[j]);
                } else if i < before.len() {
                    assert(all[i] == before[i]);
                    assert(before.contains(before[i]));
                } else {
                    assert(all[j] == before[j]);
                    assert(before.contains(before[j]));
                }
            }
        }
        assert forall|i: int| 0 <= i < nodes.len() implies all.contains(
            (#[trigger] nodes[i]).file_path,
        ) by {
            if i < front.len() {
                assert(front[i] == nodes[i]);
                assert(before.contains(front[i].file_path));
                let k = choose|k: int| 0 <= k < before.len() && before[k] == nodes[i].file_path;
                assert(all[k] == before[k]);
            } else if before.contains(last) {
                assert(all == before);
            } else {
                assert(all[before.len() as int] == last);
            }
        }
    }
}

/// Each file has one group, and each symbol is in the group of its file and in no other.
pub proof fn groups_part_the_symbols(nodes: Seq<NodeView>)
    ensures
        forall|i: int, j: int|
            #![trigger groups_of(nodes)[i], groups_of(nodes)[j]]
            0 <= i < groups_of(nodes).len() && 0 <= j < groups_of(nodes).len() && i != j
                ==> groups_of(nodes)[i].file_path != groups_of(nodes)[j].file_path,
        forall|i: int, node: NodeView|
            0 <= i < groups_of(nodes).len() ==> (#[trigger] groups_of(nodes)[i].nodes.contains(node)
                <==> nodes.contains(node) && node.file_path == groups_of(nodes)[i].file_path),
        forall|k: int|
            0 <= k < nodes.len() ==> paths_of(nodes).contains((#[trigger] nodes[k]).file_path),
{
    let groups = groups_of(nodes);
    let paths = paths_of(nodes);
    lemma_paths(nodes);
    assert forall|i: int| 0 <= i < groups.len() implies #[trigger] groups[i] == group_of(
        nodes,
        paths[i],
    ) by {}
    assert forall|i: int, node: NodeView| 0 <= i < groups.len() implies (
    #[trigger] groups[i].nodes.contains(node) <==> nodes.contains(node) && node.file_path
        == groups[i].file_path) by {
        assert(groups[i] == group_of(nodes, paths[i]));
        chosen_members(nodes, |node: NodeView| node.file_path == paths[i]);
    }
}

/// A symbol that was found, with the symbols at the other ends of its edges.
#[derive(Debug)]
pub struct ExploredSymbol {
    pub node: Node,
    pub callers: Vec<Node>,
    pub callees: Vec<Node>,
}

/// The content of an [`ExploredSymbol`].
#[verifier::ext_equal]
pub struct ExploredSymbolView {
    pub node: NodeView,
    pub callers: Seq<NodeView>,
    pub callees: Seq<NodeView>,
}

impl View for ExploredSymbol {
    type V = ExploredSymbolView;

    open spec fn view(&self) -> ExploredSymbolView {
        ExploredSymbolView {
            node: self.node@,
            callers: views(self.callers@),
            callees: views(self.callees@),
        }
    }
}

/// The lines that show the other ends of a symbol's edges.
pub open spec fn relation_lines(title: Seq<char>, nodes: Seq<NodeView>, show_resolution: bool) -> Seq<
    Seq<char>,
> {
    if nodes.len() == 0 {
        seq!["    "@ + title + ": None"@]
    } else {
        seq!["    "@ + title + ":"@] + shown_all::<Node, Related>(
            nodes,
            (Related { margin: "      ", show_resolution }),
        )
    }
}

/// The lines that show a symbol that was found, with its code where its file could be
/// read.
pub open spec fn explored_lines(
    symbol: ExploredSymbolView,
    source: Option<Seq<Seq<char>>>,
    show_resolution: bool,
) -> Seq<Seq<char>> {
    seq![
        "  Symbol: "@ + symbol.node.name + " ("@ + symbol.node.kind + ")"@,
        "  Lines: "@ + decimal(symbol.node.start_line) + " to "@ + decimal(symbol.node.end_line),
    ] + (match source {
        Some(lines) => seq!["  Code:"@] + shown_all::<CodeLine, Numbered>(
            code_lines(lines, symbol.node.start_line, symbol.node.end_line),
            (Numbered { margin: "    " }),
        ),
        None => seq![],
    }) + seq!["  Relationships:"@] + relation_lines("Callers"@, symbol.callers, show_resolution)
        + relation_lines("Callees"@, symbol.callees, show_resolution)
}

/// A file with symbols that were found, and its lines where it could be read.
#[derive(Debug)]
pub struct ExploredFile {
    pub file_path: String,
    pub source: Option<Vec<String>>,
    pub symbols: Vec<ExploredSymbol>,
}

/// The content of an [`ExploredFile`].
#[verifier::ext_equal]
pub struct ExploredFileView {
    pub file_path: Seq<char>,
    pub source: Option<Seq<Seq<char>>>,
    pub symbols: Seq<ExploredSymbolView>,
}

/// The lines of a file, where it could be read.
pub open spec fn opt_lines(source: Option<Vec<String>>) -> Option<Seq<Seq<char>>> {
    match source {
        Some(lines) => Some(views(lines@)),
        None => None,
    }
}

impl View for ExploredFile {
    type V = ExploredFileView;

    open spec fn view(&self) -> ExploredFileView {
        ExploredFileView {
            file_path: self.file_path@,
            source: opt_lines(self.source),
            symbols: views(self.symbols@),
        }
    }
}

/// The lines that show the symbols of one file.
pub open spec fn explored_symbols(
    symbols: Seq<ExploredSymbolView>,
    source: Option<Seq<Seq<char>>>,
    show_resolution: bool,
) -> Seq<Seq<char>>
    decreases symbols.len(),
{
    if symbols.len() == 0 {
        seq![]
    } else {
        explored_symbols(symbols.drop_last(), source, show_resolution) + explored_lines(
            symbols.last(),
            source,
            show_resolution,
        )
    }
}

/// The lines that show what was found, file by file.
pub open spec fn explored_files(files: Seq<ExploredFileView>, show_resolution: bool) -> Seq<Seq<char>>
    decreases files.len(),
{
    if files.len() == 0 {
        seq![]
    } else {
        explored_files(files.drop_last(), show_resolution) + seq!["File: "@ + files.last().file_path]
            + explored_symbols(
            files.last().symbols,
            files.last().source,
            show_resolution,
        ) + seq![Seq::<char>::empty()]
    }
}

fn add_relation(lines: &mut Vec<String>, title: &str, nodes: &Vec<Node>, show_resolution: bool)
    ensures
        views(final(lines)@) == views(old(lines)@) + relation_lines(
            title@,
            views(nodes@),
            show_resolution,
        ),
{
    let ghost start = views(lines@);
    assert(views(nodes@).len() == nodes@.len());
    if nodes.len() == 0 {
        add_line(lines, join3("    ", title, ": None"));
    } else {
        add_line(lines, join3("    ", title, ":"));
        show_all(lines, nodes, &Related { margin: "      ", show_resolution });
    }
    assert(views(lines@) =~= start + relation_lines(title@, views(nodes@), show_resolution));
}

fn add_explored(
    lines: &mut Vec<String>,
    symbol: &ExploredSymbol,
    source: &Option<Vec<String>>,
    show_resolution: bool,
)
    requires
        source matches Some(text) ==> text@.len() <= i64::MAX,
    ensures
        views(final(lines)@) == views(old(lines)@) + explored_lines(
            symbol@,
            opt_lines(*source),
            show_resolution,
        ),
{
    let ghost start = views(lines@);
    let node = &symbol.node;
    let first = number(node.start_line);
    let last = number(node.end_line);
    let name = join3("  Symbol: ", node.name.as_str(), " (");
    add_line(lines, join3(name.as_str(), node.kind.as_str(), ")"));
    let from = join3("  Lines: ", first.as_str(), " to ");
    add_line(lines, join2(from.as_str(), last.as_str()));
    if let Some(text) = source {
        let code = number_lines(text, node.start_line, node.end_line);
        add_line(lines, "  Code:".to_string());
        show_all(lines, &code, &Numbered { margin: "    " });
    }
    add_line(lines, "  Relationships:".to_string());
    add_relation(lines, "Callers", &symbol.callers, show_resolution);
    add_relation(lines, "Callees", &symbol.callees, show_resolution);
    assert(views(lines@) =~= start + explored_lines(
        symbol@,
        opt_lines(*source),
        show_resolution,
    ));
}

fn add_explored_file(lines: &mut Vec<String>, file: &ExploredFile, show_resolution: bool)
    requires
        file.source matches Some(text) ==> text@.len() <= i64::MAX,
    ensures
        views(final(lines)@) == views(old(lines)@) + seq!["File: "@ + file@.file_path]
            + explored_symbols(file@.symbols, file@.source, show_resolution) + seq![
            Seq::<char>::empty(),
        ],
{
    let ghost start = views(lines@) + seq!["File: "@ + file@.file_path];
    let ghost all = file@.symbols;
    add_line(lines, join2("File: ", file.file_path.as_str()));
    let mut i: usize = 0;
    assert(all.take(0) =~= seq![]);
    assert(start + explored_symbols(all.take(0), file@.source, show_resolution) =~= start);
    while i < file.symbols.len()
        invariant
            i <= file.symbols@.len(),
            all == views(file.symbols@),
            file.source matches Some(text) ==> text@.len() <= i64::MAX,
            views(lines@) == start + explored_symbols(
                all.take(i as int),
                file@.source,
                show_resolution,
            ),
        decreases file.symbols@.len() - i,
    {
        proof {
            assert(all.take(i + 1).drop_last() =~= all.take(i as int));
            assert(all.take(i + 1).last() == file.symbols@[i as int]@);
        }
        add_explored(lines, &file.symbols[i], &file.source, show_resolution);
        assert(views(lines@) =~= start + explored_symbols(
            all.take(i + 1),
            file@.source,
            show_resolution,
        ));
        i = i + 1;
    }
    assert(all.take(i as int) =~= all);
    let end = String::new();
    assert(end@ =~= Seq::<char>::empty());
    add_line(lines, end);
}

/// The text that shows what was found, file by file.
pub fn show_explored(files: &Vec<ExploredFile>, show_resolution: bool) -> (text: String)
    requires
        forall|i: int|
            0 <= i < files@.len() ==> ((#[trigger] files@[i]).source matches Some(text)
                ==> text@.len() <= i64::MAX),
    ensures
        text@ == joined(explored_files(views(files@), show_resolution), "\n"@),
{
    let ghost all = views(files@);
    let mut lines = no_lines();
    let mut i: usize = 0;
    assert(all.take(0) =~= seq![]);
    while i < files.len()
        invariant
            i <= files@.len(),
            all == views(files@),
            forall|k: int|
                0 <= k < files@.len() ==> ((#[trigger] files@[k]).source matches Some(text)
                    ==> text@.len() <= i64::MAX),
            views(lines@) == explored_files(all.take(i as int), show_resolution),
        decreases files@.len() - i,
    {
        proof {
            assert(all.take(i + 1).drop_last() =~= all.take(i as int));
            assert(all.take(i + 1).last() == files@[i as int]@);
        }
        add_explored_file(&mut lines, &files[i], show_resolution);
        i = i + 1;
    }
    assert(all.take(i as int) =~= all);
    join(&lines, "\n")
}

// ---------------------------------------------------------------------------
// Walks

struct Reached;

impl Rendering<Node> for Reached {
    open spec fn shown(&self, node: NodeView) -> Seq<char> {
        reached_line(node)
    }

    fn show(&self, node: &Node) -> (text: String) {
        match &node.qualified_name {
            Some(name) => join2("- ", name.as_str()),
            None => join2("- ", node.id.as_str()),
        }
    }
}

/// The line of a symbol that a walk reaches.
pub open spec fn reached_line(node: NodeView) -> Seq<char> {
    match node.qualified_name {
        Some(name) => "- "@ + name,
        None => "- "@ + node.id,
    }
}

struct Step;

impl Rendering<ImpactEdge> for Step {
    open spec fn shown(&self, edge: ImpactEdgeView) -> Seq<char> {
        step_text(edge)
    }

    fn show(&self, edge: &ImpactEdge) -> (text: String) {
        let worth = number(edge.confidence);
        let ends = join3(edge.source.id.as_str(), " -> ", edge.target.id.as_str());
        let open = join3(ends.as_str(), " [", worth.as_str());
        join2(open.as_str(), "]")
    }
}

/// One edge of a path.
pub open spec fn step_text(edge: ImpactEdgeView) -> Seq<char> {
    edge.source.id + " -> "@ + edge.target.id + " ["@ + decimal(edge.confidence) + "]"@
}

struct PathLine;

impl Rendering<ImpactPath> for PathLine {
    open spec fn shown(&self, path: ImpactPathView) -> Seq<char> {
        path_line(path)
    }

    fn show(&self, path: &ImpactPath) -> (text: String) {
        let mut steps = no_lines();
        show_all(&mut steps, &path.edges, &Step);
        assert(views(steps@) =~= path@.edges.map_values(|edge: ImpactEdgeView| step_text(edge)));
        let way = join(&steps, "; ");
        let head = join3("- ", path.id.as_str(), ": ");
        join2(head.as_str(), way.as_str())
    }
}

/// The line of a path.
pub open spec fn path_line(path: ImpactPathView) -> Seq<char> {
    "- "@ + path.id + ": "@ + joined(
        path.edges.map_values(|edge: ImpactEdgeView| step_text(edge)),
        "; "@,
    )
}

struct TestLine;

impl Rendering<AffectedTest> for TestLine {
    open spec fn shown(&self, test: AffectedTestView) -> Seq<char> {
        test_line(test)
    }

    fn show(&self, test: &AffectedTest) -> (text: String) {
        let ids = join(&test.path_ids, ", ");
        let head = join3("- ", test.test.id.as_str(), " (");
        join3(head.as_str(), ids.as_str(), ")")
    }
}

/// The line of a test that a walk reaches.
pub open spec fn test_line(test: AffectedTestView) -> Seq<char> {
    "- "@ + test.test.id + " ("@ + joined(test.path_ids, ", "@) + ")"@
}

struct OpenEnd;

impl Rendering<UnresolvedBoundary> for OpenEnd {
    open spec fn shown(&self, end: BoundaryView) -> Seq<char> {
        open_end_line(end)
    }

    fn show(&self, end: &UnresolvedBoundary) -> (text: String) {
        let head = join3("- ", end.source.id.as_str(), " -[");
        let kind = join3(head.as_str(), end.relationship.as_str(), "]-> null (");
        let specifier = join3(kind.as_str(), end.specifier.as_str(), ", ");
        let reason = join3(specifier.as_str(), end.reason.as_str(), ", ");
        join3(reason.as_str(), end.path_id.as_str(), ")")
    }
}

/// The line of a reference without a target.
pub open spec fn open_end_line(end: BoundaryView) -> Seq<char> {
    "- "@ + end.source.id + " -["@ + end.relationship + "]-> null ("@ + end.specifier + ", "@
        + end.reason + ", "@ + end.path_id + ")"@
}

struct EdgeLine;

impl Rendering<ImpactEdge> for EdgeLine {
    open spec fn shown(&self, edge: ImpactEdgeView) -> Seq<char> {
        edge_line(edge)
    }

    fn show(&self, edge: &ImpactEdge) -> (text: String) {
        let worth = number(edge.confidence);
        let head = join3("- ", edge.source.id.as_str(), " -> ");
        let ends = join3(head.as_str(), edge.target.id.as_str(), " [");
        let kind = join3(ends.as_str(), edge.resolution_kind.as_str(), "; ");
        join3(kind.as_str(), worth.as_str(), "]")
    }
}

/// The line of an edge.
pub open spec fn edge_line(edge: ImpactEdgeView) -> Seq<char> {
    "- "@ + edge.source.id + " -> "@ + edge.target.id + " ["@ + edge.resolution_kind + "; "@
        + decimal(edge.confidence) + "]"@
}

/// The lines of a section, or a word for there being none.
pub open spec fn section(title: Seq<char>, lines: Seq<Seq<char>>) -> Seq<Seq<char>> {
    if lines.len() == 0 {
        seq![title, "none"@]
    } else {
        seq![title] + lines
    }
}

fn add_section(lines: &mut Vec<String>, title: &str, more: Vec<String>)
    ensures
        views(final(lines)@) == views(old(lines)@) + section(title@, views(more@)),
{
    let ghost start = views(lines@);
    let ghost all = views(more@);
    assert(all.len() == more@.len());
    add_line(lines, title.to_string());
    if more.len() == 0 {
        add_line(lines, "none".to_string());
    } else {
        let mut more = more;
        let ghost before = lines@;
        let ghost rest = more@;
        lines.append(&mut more);
        assert(views(lines@) =~= views(before) + views(rest));
    }
    assert(views(lines@) =~= start + section(title@, all));
}

/// The first frontier of a walk that left something out.
pub open spec fn first_frontier(frontiers: Seq<Seq<char>>) -> Seq<char> {
    if frontiers.len() == 0 {
        "unknown"@
    } else {
        frontiers[0]
    }
}

/// The lines that show what a walk found.
pub open spec fn impact_lines(symbol: Seq<char>, result: ImpactResultView) -> Seq<Seq<char>> {
    seq!["Impact for "@ + symbol + ":"@] + section(
        "Nodes:"@,
        result.nodes.map_values(|node: NodeView| reached_line(node)),
    ) + section("Paths:"@, result.paths.map_values(|path: ImpactPathView| path_line(path)))
        + section(
        "Affected tests:"@,
        result.affected_tests.map_values(|test: AffectedTestView| test_line(test)),
    ) + section(
        "Unresolved boundaries:"@,
        result.boundaries.map_values(|end: BoundaryView| open_end_line(end)),
    ) + section("Edges:"@, result.edges.map_values(|edge: ImpactEdgeView| edge_line(edge))) + if result.truncated {
        seq![
            "Warnings:\n- result budget reached; frontier not walked: "@ + first_frontier(
                result.truncated_frontiers,
            ),
        ]
    } else {
        seq![]
    }
}

fn frontier_text(frontiers: &Vec<String>) -> (text: String)
    ensures
        text@ == "result budget reached; frontier not walked: "@ + first_frontier(
            views(frontiers@),
        ),
{
    assert(views(frontiers@).len() == frontiers@.len());
    if frontiers.len() == 0 {
        join2("result budget reached; frontier not walked: ", "unknown")
    } else {
        assert(views(frontiers@)[0] == frontiers@[0]@);
        join2("result budget reached; frontier not walked: ", frontiers[0].as_str())
    }
}

/// The lines that show what a walk found.
pub fn show_impact(symbol: &str, result: &ImpactResult) -> (lines: Vec<String>)
    ensures
        views(lines@) == impact_lines(symbol@, result@),
{
    let mut nodes = no_lines();
    show_all(&mut nodes, &result.nodes, &Reached);
    assert(views(nodes@) =~= result@.nodes.map_values(|node: NodeView| reached_line(node)));
    let mut paths = no_lines();
    show_all(&mut paths, &result.paths, &PathLine);
    assert(views(paths@) =~= result@.paths.map_values(|path: ImpactPathView| path_line(path)));
    let mut tests = no_lines();
    show_all(&mut tests, &result.affected_tests, &TestLine);
    assert(views(tests@) =~= result@.affected_tests.map_values(
        |test: AffectedTestView| test_line(test),
    ));
    let mut ends = no_lines();
    show_all(&mut ends, &result.boundaries, &OpenEnd);
    assert(views(ends@) =~= result@.boundaries.map_values(|end: BoundaryView| open_end_line(end)));
    let mut edges = no_lines();
    show_all(&mut edges, &result.edges, &EdgeLine);
    assert(views(edges@) =~= result@.edges.map_values(|edge: ImpactEdgeView| edge_line(edge)));
    let mut lines = no_lines();
    add_line(&mut lines, join3("Impact for ", symbol, ":"));
    add_section(&mut lines, "Nodes:", nodes);
    add_section(&mut lines, "Paths:", paths);
    add_section(&mut lines, "Affected tests:", tests);
    add_section(&mut lines, "Unresolved boundaries:", ends);
    add_section(&mut lines, "Edges:", edges);
    if result.truncated {
        let frontier = frontier_text(&result.truncated_frontiers);
        let warning = join2("Warnings:\n- ", frontier.as_str());
        proof {
            reveal_strlit("Warnings:\n- ");
            reveal_strlit("result budget reached; frontier not walked: ");
            reveal_strlit("Warnings:\n- result budget reached; frontier not walked: ");
            assert(warning@ =~= "Warnings:\n- result budget reached; frontier not walked: "@
                + first_frontier(result@.truncated_frontiers));
        }
        add_line(&mut lines, warning);
    }
    assert(views(lines@) =~= impact_lines(symbol@, result@));
    lines
}

/// An open end that no call leads to.
pub open spec fn is_framework_end(end: BoundaryView) -> bool {
    end.relationship != "calls"@
}

/// Some open end of a walk is one that no call leads to.
pub open spec fn has_framework_end(ends: Seq<BoundaryView>) -> bool {
    exists|i: int| 0 <= i < ends.len() && is_framework_end(#[trigger] ends[i])
}

/// The remarks on what a walk found.
pub open spec fn impact_remarks(result: ImpactResultView) -> Seq<WarningView> {
    (if result.truncated {
        seq![
            WarningView {
                code: "truncated"@,
                message: "result budget reached; frontier not walked: "@ + first_frontier(
                    result.truncated_frontiers,
                ),
            },
        ]
    } else {
        seq![]
    }) + (if has_framework_end(result.boundaries) {
        seq![
            WarningView {
                code: "unresolved_framework_endpoint"@,
                message: "A framework relationship endpoint is not indexed; its target is null rather than inferred from a same-named symbol."@,
            },
        ]
    } else {
        seq![]
    })
}

fn any_framework_end(ends: &Vec<UnresolvedBoundary>) -> (found: bool)
    ensures
        found == has_framework_end(views(ends@)),
{
    let ghost all = views(ends@);
    let mut i: usize = 0;
    while i < ends.len()
        invariant
            i <= ends@.len(),
            all == views(ends@),
            forall|k: int| 0 <= k < i ==> !is_framework_end(#[trigger] all[k]),
        decreases ends@.len() - i,
    {
        assert(all[i as int] == ends@[i as int]@);
        if !same(ends[i].relationship.as_str(), "calls") {
            return true;
        }
        i = i + 1;
    }
    false
}

/// The remarks on what a walk found.
pub fn impact_warnings(result: &ImpactResult) -> (warnings: Vec<Warning>)
    ensures
        views(warnings@) == impact_remarks(result@),
{
    let mut warnings: Vec<Warning> = Vec::new();
    if result.truncated {
        warnings.push(
            Warning { code: "truncated", message: frontier_text(&result.truncated_frontiers) },
        );
    }
    if any_framework_end(&result.boundaries) {
        warnings.push(
            Warning {
                code: "unresolved_framework_endpoint",
                message: "A framework relationship endpoint is not indexed; its target is null rather than inferred from a same-named symbol.".to_string(),
            },
        );
    }
    assert(views(warnings@) =~= impact_remarks(result@));
    warnings
}

/// A cut result is remarked on with the first thing that was left out, and so is an open
/// end that is not of a call; a whole result whose open ends are all of calls is not
/// remarked on.
pub proof fn remarks_tell_what_is_missing(result: ImpactResultView, i: int)
    ensures
        result.truncated && result.truncated_frontiers.len() > 0 ==> impact_remarks(result).len()
            > 0 && impact_remarks(result)[0].code == "truncated"@ && impact_remarks(
            result,
        )[0].message == "result budget reached; frontier not walked: "@
            + result.truncated_frontiers[0],
        0 <= i < result.boundaries.len() && result.boundaries[i].relationship != "calls"@
            ==> impact_remarks(result).len() > 0 && impact_remarks(result).last().code
            == "unresolved_framework_endpoint"@,
        !result.truncated && (forall|j: int|
            0 <= j < result.boundaries.len() ==> (#[trigger] result.boundaries[j]).relationship
                == "calls"@) ==> impact_remarks(result).len() == 0,
        result.truncated && (forall|j: int|
            0 <= j < result.boundaries.len() ==> (#[trigger] result.boundaries[j]).relationship
                == "calls"@) ==> impact_remarks(result).len() == 1,
{
    if 0 <= i < result.boundaries.len() && result.boundaries[i].relationship != "calls"@ {
        assert(is_framework_end(result.boundaries[i]));
        assert(has_framework_end(result.boundaries));
    }
}

/// The symbols of other files are those that stand in another file.
pub proof fn external_symbols_stand_elsewhere(
    nodes: Seq<NodeView>,
    file: Seq<char>,
    node: NodeView,
)
    ensures
        external(nodes, file).contains(node) <==> nodes.contains(node) && node.file_path != file,
{
    let picks = |node: NodeView| node.file_path != file;
    chosen_members(nodes, picks);
    let found = external(nodes, file);
    if found.contains(node) {
        let i = choose|i: int| 0 <= i < found.len() && found[i] == node;
        assert(picks(found[i]));
    }
    if nodes.contains(node) && picks(node) {
        assert(found.contains(node));
    }
}

/// So many lines are shown from the first on as were asked for, as far as the file goes.
pub proof fn ranges_end_where_asked(start: int, limit: int, total: int)
    requires
        start >= 1,
        limit >= 0,
    ensures
        start + limit - 1 <= total ==> range_end(start, Some(limit), total) == start + limit - 1,
        start + limit - 1 > total ==> range_end(start, Some(limit), total) == total,
        range_end(start, None, total) == total,
{
}

} // verus!
