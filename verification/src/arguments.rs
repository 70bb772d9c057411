//! The values that commands accept.

pub mod laws;

use vstd::prelude::*;
use crate::commands::impact::ImpactDirection;
use crate::commands::changes::{is_workspace_relative, workspace_relative, MAX_CHANGED_FILES};
use crate::ordered::{dedup_by, distinct_texts, sort_by, ByText};
use crate::text::{
    decimal, join2, join3, lemma_views_push, opt_text, parse_signed, parse_unsigned, signed_value,
    unsigned_value, views,
};

verus! {

/// How many search results are shown unless asked otherwise.
pub const DEFAULT_SEARCH_LIMIT: usize = 30;

/// How many unresolved references are listed unless asked otherwise.
pub const DEFAULT_UNRESOLVED_LIMIT: usize = 50;

/// How many tests are listed unless asked otherwise.
pub const DEFAULT_TESTS_FOR_LIMIT: usize = 30;

/// How many changed symbols are listed unless asked otherwise.
pub const DEFAULT_DIFF_LIMIT: usize = 100;

/// How far a walk goes unless asked otherwise.
pub const DEFAULT_IMPACT_DEPTH: usize = 2;

/// Which way a walk follows the edges unless asked otherwise.
pub const DEFAULT_IMPACT_DIRECTION: ImpactDirection = ImpactDirection::Both;

/// How certain an edge must be for a walk to follow it, unless asked otherwise.
pub const DEFAULT_IMPACT_CONFIDENCE: i64 = 80;

/// How many symbols a walk reports unless asked otherwise.
pub const DEFAULT_IMPACT_LIMIT: usize = 50;

/// The number in a text, if it lies between 1 and `most`, or why it is refused.
pub open spec fn bounded(text: Seq<char>, subject: Seq<char>, most: int) -> Result<int, Seq<char>> {
    match unsigned_value(text) {
        Some(n) => if n > usize::MAX {
            Err(subject + " must be a positive integer"@)
        } else if 1 <= n <= most {
            Ok(n as int)
        } else {
            Err(subject + " must be between 1 and "@ + decimal(most))
        },
        None => Err(subject + " must be a positive integer"@),
    }
}

/// What a parser says.
pub open spec fn outcome(result: Result<usize, String>) -> Result<int, Seq<char>> {
    match result {
        Ok(n) => Ok(n as int),
        Err(message) => Err(message@),
    }
}

fn parse_bounded(text: &str, subject: &str, most: i64) -> (result: Result<usize, String>)
    requires
        1 <= most <= 1000,
    ensures
        outcome(result) == bounded(text@, subject@, most as int),
{
    match parse_unsigned(text) {
        Some(n) => {
            if n > usize::MAX as u64 {
                Err(join2(subject, " must be a positive integer"))
            } else if 1 <= n && n <= most as u64 {
                Ok(n as usize)
            } else {
                let bound = crate::text::number(most);
                Err(join3(subject, " must be between 1 and ", bound.as_str()))
            }
        },
        None => Err(join2(subject, " must be a positive integer")),
    }
}

/// The limit of a list of unresolved references: from 1 to 200.
pub fn parse_unresolved_limit(value: &str) -> (limit: Result<usize, String>)
    ensures
        outcome(limit) == bounded(value@, "limit"@, 200),
{
    parse_bounded(value, "limit", 200)
}

/// The limit of a list of tests: from 1 to 100.
pub fn parse_tests_for_limit(value: &str) -> (limit: Result<usize, String>)
    ensures
        outcome(limit) == bounded(value@, "limit"@, 100),
{
    parse_bounded(value, "limit", 100)
}

/// The limit of a list of changes: from 1 to 500.
pub fn parse_diff_limit(value: &str) -> (limit: Result<usize, String>)
    ensures
        outcome(limit) == bounded(value@, "limit"@, 500),
{
    parse_bounded(value, "limit", 500)
}

/// The limit of the symbols that a walk reports: from 1 to 200.
pub fn parse_impact_limit(value: &str) -> (limit: Result<usize, String>)
    ensures
        outcome(limit) == bounded(value@, "limit"@, 200),
{
    parse_bounded(value, "limit", 200)
}

/// The depth of a walk: from 1 to 5.
pub fn parse_impact_depth(value: &str) -> (depth: Result<usize, String>)
    ensures
        outcome(depth) == bounded(value@, "depth"@, 5),
{
    parse_bounded(value, "depth", 5)
}

/// The confidence in a text, if it lies between 0 and 100, or why it is refused.
pub open spec fn confidence_in(text: Seq<char>) -> Result<int, Seq<char>> {
    match signed_value(text) {
        Some(n) => if n < i64::MIN || n > i64::MAX {
            Err("min-confidence must be an integer"@)
        } else if 0 <= n <= 100 {
            Ok(n)
        } else {
            Err("min-confidence must be between 0 and 100"@)
        },
        None => Err("min-confidence must be an integer"@),
    }
}

/// A confidence: from 0 to 100.
pub fn parse_confidence(value: &str) -> (confidence: Result<i64, String>)
    ensures
        (match confidence {
            Ok(n) => Ok::<int, Seq<char>>(n as int),
            Err(message) => Err(message@),
        }) == confidence_in(value@),
{
    match parse_signed(value) {
        Some(n) => {
            if 0 <= n && n <= 100 {
                Ok(n)
            } else {
                Err("min-confidence must be between 0 and 100".to_string())
            }
        },
        None => Err("min-confidence must be an integer".to_string()),
    }
}

/// Every number that is written as one and lies within the bounds is accepted, and no
/// other text is.
pub proof fn accepted_numbers_lie_within(text: Seq<char>, subject: Seq<char>, most: int)
    requires
        1 <= most <= 1000,
    ensures
        bounded(text, subject, most) is Ok <==> unsigned_value(text) is Some && 1
            <= unsigned_value(text)->0 <= most,
        bounded(text, subject, most) matches Ok(n) ==> unsigned_value(text) == Some(n as nat),
{
}

// ---------------------------------------------------------------------------
// What a comparison is about

/// What is compared: two revisions, or files that are named.
#[derive(Debug, PartialEq)]
pub enum DiffSelection {
    Range { base: String, head: Option<String> },
    Files(Vec<String>),
}

/// Why a comparison is about nothing, or about too much.
#[derive(Clone, Copy, Debug, PartialEq, Eq, Structural)]
pub enum SelectionError {
    Nothing,
    BaseAndFiles,
    HeadWithoutBase,
}

impl SelectionError {
    /// What the error says to a reader.
    pub open spec fn text(self) -> Seq<char> {
        match self {
            SelectionError::Nothing => "diff requires exactly one selector: --base <revision> or --files <path>..."@,
            SelectionError::BaseAndFiles => "--base cannot be used with --files"@,
            SelectionError::HeadWithoutBase => "--head requires --base"@,
        }
    }

    /// What the error says to a reader.
    pub fn message(&self) -> (text: &'static str)
        ensures
            text@ == self.text(),
    {
        match self {
            SelectionError::Nothing => "diff requires exactly one selector: --base <revision> or --files <path>...",
            SelectionError::BaseAndFiles => "--base cannot be used with --files",
            SelectionError::HeadWithoutBase => "--head requires --base",
        }
    }
}

/// A comparison is about a range of revisions from a base on, or about files, and not
/// about both.
pub fn select_diff(base: Option<String>, head: Option<String>, files: Vec<String>) -> (selected: Result<
    DiffSelection,
    SelectionError,
>)
    ensures
        match selected {
            Ok(DiffSelection::Range { base: from, head: to }) => base == Some(from) && head == to
                && files@.len() == 0,
            Ok(DiffSelection::Files(paths)) => base is None && head is None && paths == files
                && files@.len() > 0,
            Err(SelectionError::Nothing) => base is None && head is None && files@.len() == 0,
            Err(SelectionError::BaseAndFiles) => base is Some && files@.len() > 0,
            Err(SelectionError::HeadWithoutBase) => base is None && head is Some,
        },
{
    match base {
        Some(base) => {
            if files.len() > 0 {
                Err(SelectionError::BaseAndFiles)
            } else {
                Ok(DiffSelection::Range { base, head })
            }
        },
        None => {
            if head.is_some() {
                Err(SelectionError::HeadWithoutBase)
            } else if files.len() > 0 {
                Ok(DiffSelection::Files(files))
            } else {
                Err(SelectionError::Nothing)
            }
        },
    }
}

/// The first path that leaves the workspace.
pub open spec fn first_outside(files: Seq<Seq<char>>) -> Option<Seq<char>>
    decreases files.len(),
{
    if files.len() == 0 {
        None
    } else if !is_workspace_relative(files[0]) {
        Some(files[0])
    } else {
        first_outside(files.skip(1))
    }
}

/// Why named files are refused: one of them leaves the workspace, or there are too many
/// different ones.
pub open spec fn refusal(files: Seq<Seq<char>>) -> Option<Seq<char>> {
    match first_outside(files) {
        Some(file) => Some("--files path must be workspace-relative: "@ + file),
        None => if distinct_texts(files).len() > MAX_CHANGED_FILES {
            Some("--files accepts at most 500 distinct workspace-relative paths"@)
        } else {
            None
        },
    }
}

fn copy_texts(texts: &Vec<String>) -> (copies: Vec<String>)
    ensures
        views(copies@) == views(texts@),
{
    let ghost wanted = views(texts@);
    let mut copies: Vec<String> = Vec::new();
    let mut i: usize = 0;
    assert(views(copies@) =~= wanted.take(0));
    while i < texts.len()
        invariant
            i <= texts@.len(),
            wanted == views(texts@),
            views(copies@) == wanted.take(i as int),
        decreases texts@.len() - i,
    {
        let text = texts[i].clone();
        proof {
            lemma_views_push(copies@, text);
            assert(wanted.take(i + 1) =~= wanted.take(i as int).push(text@));
        }
        copies.push(text);
        i = i + 1;
    }
    assert(wanted.take(i as int) =~= wanted);
    copies
}

/// Why named files are refused, if they are.
pub fn check_explicit_files(files: &Vec<String>) -> (refused: Option<String>)
    ensures
        opt_text(refused) == refusal(views(files@)),
{
    let ghost all = views(files@);
    let mut i: usize = 0;
    assert(all.skip(0) =~= all);
    while i < files.len()
        invariant
            i <= files@.len(),
            all == views(files@),
            first_outside(all) == first_outside(all.skip(i as int)),
        decreases files@.len() - i,
    {
        proof {
            assert(all.skip(i as int)[0] == files@[i as int]@);
            assert(all.skip(i as int).skip(1) =~= all.skip(i + 1));
        }
        if !workspace_relative(files[i].as_str()) {
            return Some(join2("--files path must be workspace-relative: ", files[i].as_str()));
        }
        i = i + 1;
    }
    assert(all.skip(i as int) =~= seq![]);
    let distinct = dedup_by(sort_by(copy_texts(files), &ByText), &ByText);
    assert(views(distinct@).len() == distinct@.len());
    if distinct.len() > MAX_CHANGED_FILES {
        Some("--files accepts at most 500 distinct workspace-relative paths".to_string())
    } else {
        None
    }
}

} // verus!
