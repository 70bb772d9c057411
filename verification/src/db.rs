//! The records of the index: symbols, call sites, edges and references that
//! could not be resolved, with the tiers of confidence of an edge.

pub mod refs;
pub mod schema;

use vstd::prelude::*;
use crate::text::laws::{is_made_of, none_after, the_last_separator_cuts};
use crate::text::{contains, cut_last, opt_text, rsplit_once};

verus! {

/// A symbol of the index.
#[derive(Debug, PartialEq)]
pub struct Node {
    pub id: String,
    pub name: String,
    pub kind: String,
    pub qualified_name: Option<String>,
    pub file_path: String,
    pub start_line: i64,
    pub end_line: i64,
    pub start_column: i64,
    pub end_column: i64,
    pub signature: Option<String>,
    pub doc_comment: Option<String>,
    pub is_test: bool,
    pub resolution_kind: Option<String>,
    pub confidence: Option<i64>,
}

/// The content of a [`Node`].
#[verifier::ext_equal]
pub struct NodeView {
    pub id: Seq<char>,
    pub name: Seq<char>,
    pub kind: Seq<char>,
    pub qualified_name: Option<Seq<char>>,
    pub file_path: Seq<char>,
    pub start_line: int,
    pub end_line: int,
    pub start_column: int,
    pub end_column: int,
    pub signature: Option<Seq<char>>,
    pub doc_comment: Option<Seq<char>>,
    pub is_test: bool,
    pub resolution_kind: Option<Seq<char>>,
    pub confidence: Option<int>,
}

/// An optional machine integer as a mathematical one.
pub open spec fn opt_int(value: Option<i64>) -> Option<int> {
    match value {
        Some(n) => Some(n as int),
        None => None,
    }
}

impl View for Node {
    type V = NodeView;

    open spec fn view(&self) -> NodeView {
        NodeView {
            id: self.id@,
            name: self.name@,
            kind: self.kind@,
            qualified_name: opt_text(self.qualified_name),
            file_path: self.file_path@,
            start_line: self.start_line as int,
            end_line: self.end_line as int,
            start_column: self.start_column as int,
            end_column: self.end_column as int,
            signature: opt_text(self.signature),
            doc_comment: opt_text(self.doc_comment),
            is_test: self.is_test,
            resolution_kind: opt_text(self.resolution_kind),
            confidence: opt_int(self.confidence),
        }
    }
}

impl Clone for Node {
    fn clone(&self) -> (copy: Self)
        ensures
            copy == *self,
    {
        Node {
            id: self.id.clone(),
            name: self.name.clone(),
            kind: self.kind.clone(),
            qualified_name: self.qualified_name.clone(),
            file_path: self.file_path.clone(),
            start_line: self.start_line,
            end_line: self.end_line,
            start_column: self.start_column,
            end_column: self.end_column,
            signature: self.signature.clone(),
            doc_comment: self.doc_comment.clone(),
            is_test: self.is_test,
            resolution_kind: self.resolution_kind.clone(),
            confidence: self.confidence,
        }
    }
}

/// A directed relation between two symbols, with the tier it was resolved at.
#[derive(Debug, PartialEq)]
pub struct Edge {
    pub source_id: String,
    pub target_id: String,
    pub kind: String,
    pub resolution_kind: i64,
}

/// The content of an [`Edge`].
#[verifier::ext_equal]
pub struct EdgeView {
    pub source_id: Seq<char>,
    pub target_id: Seq<char>,
    pub kind: Seq<char>,
    pub resolution_kind: int,
}

impl View for Edge {
    type V = EdgeView;

    open spec fn view(&self) -> EdgeView {
        EdgeView {
            source_id: self.source_id@,
            target_id: self.target_id@,
            kind: self.kind@,
            resolution_kind: self.resolution_kind as int,
        }
    }
}

impl Clone for Edge {
    fn clone(&self) -> (copy: Self)
        ensures
            copy == *self,
    {
        Edge {
            source_id: self.source_id.clone(),
            target_id: self.target_id.clone(),
            kind: self.kind.clone(),
            resolution_kind: self.resolution_kind,
        }
    }
}

/// What is recorded of an indexed file.
#[derive(Debug, PartialEq)]
pub struct FileMetadata {
    pub file_path: String,
    pub content_hash: String,
    pub language: Option<String>,
    pub size_bytes: Option<i64>,
    pub last_modified: Option<i64>,
}

impl Clone for FileMetadata {
    fn clone(&self) -> (copy: Self)
        ensures
            copy == *self,
    {
        FileMetadata {
            file_path: self.file_path.clone(),
            content_hash: self.content_hash.clone(),
            language: self.language.clone(),
            size_bytes: self.size_bytes,
            last_modified: self.last_modified,
        }
    }
}

/// One fact about the project as a whole.
#[derive(Debug, PartialEq)]
pub struct ProjectMetadata {
    pub key: String,
    pub value: Option<String>,
}

impl Clone for ProjectMetadata {
    fn clone(&self) -> (copy: Self)
        ensures
            copy == *self,
    {
        ProjectMetadata { key: self.key.clone(), value: self.value.clone() }
    }
}

/// A call whose target is not known.
#[derive(Debug, PartialEq)]
pub struct UnresolvedRef {
    pub id: Option<i64>,
    pub source_id: String,
    pub specifier: String,
    pub kind: String,
    pub line: i64,
    pub column: i64,
}

/// The content of an [`UnresolvedRef`].
#[verifier::ext_equal]
pub struct UnresolvedRefView {
    pub id: Option<int>,
    pub source_id: Seq<char>,
    pub specifier: Seq<char>,
    pub kind: Seq<char>,
    pub line: int,
    pub column: int,
}

impl View for UnresolvedRef {
    type V = UnresolvedRefView;

    open spec fn view(&self) -> UnresolvedRefView {
        UnresolvedRefView {
            id: opt_int(self.id),
            source_id: self.source_id@,
            specifier: self.specifier@,
            kind: self.kind@,
            line: self.line as int,
            column: self.column as int,
        }
    }
}

impl Clone for UnresolvedRef {
    fn clone(&self) -> (copy: Self)
        ensures
            copy == *self,
    {
        UnresolvedRef {
            id: self.id,
            source_id: self.source_id.clone(),
            specifier: self.specifier.clone(),
            kind: self.kind.clone(),
            line: self.line,
            column: self.column,
        }
    }
}

/// A call site as it stands in the source, before resolution.
#[derive(Debug, PartialEq)]
pub struct RawCall {
    pub caller_id: String,
    pub callee_name: String,
    pub callee_simple: String,
    pub callee_scope: Option<String>,
    pub call_kind: Option<String>,
    pub receiver_expr: Option<String>,
    pub receiver_type: Option<String>,
    pub package_or_namespace: Option<String>,
    pub import_hint: Option<String>,
    pub line: i64,
    pub column: i64,
    /// The relation that the site stands for; `calls` for an ordinary call.
    pub relationship_kind: String,
    /// Whether the relation runs from the named target to the site's owner.
    pub reverse_edge: bool,
    pub target_qualified_hint: Option<String>,
    /// The framework tier that the extraction supplies, if any.
    pub resolution_hint: Option<i64>,
}

/// The content of a [`RawCall`].
#[verifier::ext_equal]
pub struct RawCallView {
    pub caller_id: Seq<char>,
    pub callee_name: Seq<char>,
    pub callee_simple: Seq<char>,
    pub callee_scope: Option<Seq<char>>,
    pub call_kind: Option<Seq<char>>,
    pub receiver_expr: Option<Seq<char>>,
    pub receiver_type: Option<Seq<char>>,
    pub package_or_namespace: Option<Seq<char>>,
    pub import_hint: Option<Seq<char>>,
    pub line: int,
    pub column: int,
    pub relationship_kind: Seq<char>,
    pub reverse_edge: bool,
    pub target_qualified_hint: Option<Seq<char>>,
    pub resolution_hint: Option<int>,
}

impl View for RawCall {
    type V = RawCallView;

    open spec fn view(&self) -> RawCallView {
        RawCallView {
            caller_id: self.caller_id@,
            callee_name: self.callee_name@,
            callee_simple: self.callee_simple@,
            callee_scope: opt_text(self.callee_scope),
            call_kind: opt_text(self.call_kind),
            receiver_expr: opt_text(self.receiver_expr),
            receiver_type: opt_text(self.receiver_type),
            package_or_namespace: opt_text(self.package_or_namespace),
            import_hint: opt_text(self.import_hint),
            line: self.line as int,
            column: self.column as int,
            relationship_kind: self.relationship_kind@,
            reverse_edge: self.reverse_edge,
            target_qualified_hint: opt_text(self.target_qualified_hint),
            resolution_hint: opt_int(self.resolution_hint),
        }
    }
}

impl Clone for RawCall {
    fn clone(&self) -> (copy: Self)
        ensures
            copy == *self,
    {
        RawCall {
            caller_id: self.caller_id.clone(),
            callee_name: self.callee_name.clone(),
            callee_simple: self.callee_simple.clone(),
            callee_scope: self.callee_scope.clone(),
            call_kind: self.call_kind.clone(),
            receiver_expr: self.receiver_expr.clone(),
            receiver_type: self.receiver_type.clone(),
            package_or_namespace: self.package_or_namespace.clone(),
            import_hint: self.import_hint.clone(),
            line: self.line,
            column: self.column,
            relationship_kind: self.relationship_kind.clone(),
            reverse_edge: self.reverse_edge,
            target_qualified_hint: self.target_qualified_hint.clone(),
            resolution_hint: self.resolution_hint,
        }
    }
}

/// The scope and the simple name of a callee: the parts around its last `::`.
pub open spec fn callee_parts(callee_name: Seq<char>) -> (Option<Seq<char>>, Seq<char>) {
    match rsplit_once(callee_name, "::"@) {
        Some((scope, simple)) => (Some(scope), simple),
        None => (None, callee_name),
    }
}

/// An ordinary call site: a call of `callee_name` with nothing else known of it.
pub open spec fn plain_call(
    caller_id: Seq<char>,
    callee_name: Seq<char>,
    line: int,
    column: int,
) -> RawCallView {
    RawCallView {
        caller_id,
        callee_name,
        callee_simple: callee_parts(callee_name).1,
        callee_scope: callee_parts(callee_name).0,
        call_kind: None,
        receiver_expr: None,
        receiver_type: None,
        package_or_namespace: None,
        import_hint: None,
        line,
        column,
        relationship_kind: "calls"@,
        reverse_edge: false,
        target_qualified_hint: None,
        resolution_hint: None,
    }
}

impl RawCall {
    /// A call site with the parts of its callee's name taken apart.
    pub fn new(caller_id: String, callee_name: String, line: i64, column: i64) -> (call: Self)
        ensures
            call@ == plain_call(caller_id@, callee_name@, line as int, column as int),
    {
        let (callee_scope, callee_simple) = split_callee_name(callee_name.as_str());
        RawCall {
            caller_id,
            callee_name,
            callee_simple,
            callee_scope,
            call_kind: None,
            receiver_expr: None,
            receiver_type: None,
            package_or_namespace: None,
            import_hint: None,
            line,
            column,
            relationship_kind: "calls".to_string(),
            reverse_edge: false,
            target_qualified_hint: None,
            resolution_hint: None,
        }
    }
}

/// Takes a callee's name apart at its last `::`.
pub fn split_callee_name(callee_name: &str) -> (parts: (Option<String>, String))
    ensures
        (opt_text(parts.0), parts.1@) == callee_parts(callee_name@),
{
    match cut_last(callee_name, "::") {
        Some((scope, simple)) => (Some(scope), simple),
        None => (None, callee_name.to_string()),
    }
}

// ---------------------------------------------------------------------------
// Confidence

/// The name of the tier of a resolution kind.
pub open spec fn tier_label(resolution_kind: int) -> Seq<char> {
    if resolution_kind == 1 {
        "same_file"@
    } else if resolution_kind == 2 {
        "namespace"@
    } else if resolution_kind == 3 {
        "package"@
    } else if resolution_kind == 4 {
        "receiver_type"@
    } else if resolution_kind == 5 {
        "exact"@
    } else if resolution_kind == 6 {
        "framework_annotation"@
    } else if resolution_kind == 7 {
        "framework_convention"@
    } else if resolution_kind == 8 {
        "framework_declaration"@
    } else {
        "name_only"@
    }
}

/// The confidence of the tier of a resolution kind, in percent.
pub open spec fn tier_confidence(resolution_kind: int) -> int {
    if resolution_kind == 1 {
        60
    } else if resolution_kind == 2 || resolution_kind == 3 {
        80
    } else if resolution_kind == 4 {
        90
    } else if resolution_kind == 5 {
        100
    } else if resolution_kind == 6 {
        85
    } else if resolution_kind == 7 {
        70
    } else if resolution_kind == 8 {
        80
    } else {
        30
    }
}

/// The name of the tier of a resolution kind.
pub fn label_for_kind(resolution_kind: i64) -> (label: &'static str)
    ensures
        label@ == tier_label(resolution_kind as int),
{
    if resolution_kind == 1 {
        "same_file"
    } else if resolution_kind == 2 {
        "namespace"
    } else if resolution_kind == 3 {
        "package"
    } else if resolution_kind == 4 {
        "receiver_type"
    } else if resolution_kind == 5 {
        "exact"
    } else if resolution_kind == 6 {
        "framework_annotation"
    } else if resolution_kind == 7 {
        "framework_convention"
    } else if resolution_kind == 8 {
        "framework_declaration"
    } else {
        "name_only"
    }
}

/// The confidence of the tier of a resolution kind, in percent.
pub fn confidence_for_kind(resolution_kind: i64) -> (confidence: i64)
    ensures
        confidence as int == tier_confidence(resolution_kind as int),
{
    match resolution_kind {
        1 => 60,
        2 => 80,
        3 => 80,
        4 => 90,
        5 => 100,
        6 => 85,
        7 => 70,
        8 => 80,
        _ => 30,
    }
}

/// Among the tiers of ordinary resolution a higher kind is never less certain,
/// and every framework tier is less certain than an exact match.
pub proof fn confidence_follows_tiers(lower: int, higher: int, framework: int)
    requires
        0 <= lower <= higher <= 5,
        6 <= framework <= 8,
    ensures
        tier_confidence(lower) <= tier_confidence(higher),
        tier_confidence(framework) < tier_confidence(5),
        0 <= tier_confidence(lower) <= 100,
{
}

/// How certain each way to resolve is, and what it is called.
pub proof fn tiers_have_their_names_and_confidences(kind: int)
    ensures
        tier_label(1) == "same_file"@ && tier_confidence(1) == 60,
        tier_label(2) == "namespace"@ && tier_confidence(2) == 80,
        tier_label(3) == "package"@ && tier_confidence(3) == 80,
        tier_label(4) == "receiver_type"@ && tier_confidence(4) == 90,
        tier_label(5) == "exact"@ && tier_confidence(5) == 100,
        tier_label(6) == "framework_annotation"@ && tier_confidence(6) == 85,
        tier_label(7) == "framework_convention"@ && tier_confidence(7) == 70,
        tier_label(8) == "framework_declaration"@ && tier_confidence(8) == 80,
        kind < 1 || kind > 8 ==> tier_label(kind) == "name_only"@ && tier_confidence(kind) == 30,
{
}

/// What is known of one edge between two given symbols.
#[derive(Debug, PartialEq)]
pub struct EdgeRecord {
    pub kind: String,
    pub resolution_kind: String,
    pub confidence: i64,
}

/// The content of an [`EdgeRecord`].
#[verifier::ext_equal]
pub struct EdgeRecordView {
    pub kind: Seq<char>,
    pub resolution_kind: Seq<char>,
    pub confidence: int,
}

impl View for EdgeRecord {
    type V = EdgeRecordView;

    open spec fn view(&self) -> EdgeRecordView {
        EdgeRecordView {
            kind: self.kind@,
            resolution_kind: self.resolution_kind@,
            confidence: self.confidence as int,
        }
    }
}

impl Clone for EdgeRecord {
    fn clone(&self) -> (copy: Self)
        ensures
            copy == *self,
    {
        EdgeRecord {
            kind: self.kind.clone(),
            resolution_kind: self.resolution_kind.clone(),
            confidence: self.confidence,
        }
    }
}

/// A callee's name is taken apart at its last separator: what stands before is its scope,
/// and what stands after its simple name. One without a separator has no scope.
pub proof fn names_come_apart_at_the_last_separator(scope: Seq<char>, name: Seq<char>)
    requires
        none_after(scope + "::"@ + name, "::"@, scope.len() as int),
        !contains(name, "::"@),
    ensures
        callee_parts(scope + "::"@ + name) == (Some(scope), name),
        callee_parts(name) == (None::<Seq<char>>, name),
{
    the_last_separator_cuts(scope + "::"@ + name, "::"@, scope, name);
    the_last_separator_cuts(name, "::"@, name, name);
    assert(is_made_of(scope + "::"@ + name, scope, "::"@, name));
}

} // verus!
