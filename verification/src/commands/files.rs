//! The list of indexed files.

use vstd::prelude::*;
use crate::db::opt_int;
use crate::text::{decimal, join3, number, opt_text};

verus! {

/// An indexed file.
#[derive(Debug)]
pub struct FileRow {
    pub path: String,
    pub language: Option<String>,
    pub size_bytes: Option<i64>,
    pub is_test: bool,
    pub symbol_count: i64,
}

/// A text with spaces after it up to a width.
pub open spec fn padded(text: Seq<char>, width: nat) -> Seq<char> {
    if text.len() >= width {
        text
    } else {
        text + Seq::new((width - text.len()) as nat, |i: int| ' ')
    }
}

/// A text with spaces after it up to a width.
pub fn pad(text: &str, width: usize) -> (result: String)
    ensures
        result@ == padded(text@, width as nat),
{
    let length = crate::text::chars_of(text).len();
    let mut result = text.to_string();
    let mut i: usize = length;
    while i < width
        invariant
            text@.len() == length,
            length <= i,
            i > length ==> i <= width,
            result@ == padded(text@, i as nat),
        decreases width - i,
    {
        result.push(' ');
        i = i + 1;
        assert(result@ =~= padded(text@, i as nat));
    }
    assert(result@ =~= padded(text@, width as nat));
    result
}

/// The cells of a row, each with its width.
pub open spec fn row_text(
    path: Seq<char>,
    language: Seq<char>,
    size: Seq<char>,
    test: Seq<char>,
    symbols: Seq<char>,
) -> Seq<char> {
    padded(path, 40) + " "@ + padded(language, 10) + " "@ + padded(size, 10) + " "@ + padded(test, 8)
        + " "@ + padded(symbols, 12)
}

fn show_cells(path: &str, language: &str, size: &str, test: &str, symbols: &str) -> (line: String)
    ensures
        line@ == row_text(path@, language@, size@, test@, symbols@),
{
    let first = join3(pad(path, 40).as_str(), " ", pad(language, 10).as_str());
    let second = join3(first.as_str(), " ", pad(size, 10).as_str());
    let third = join3(second.as_str(), " ", pad(test, 8).as_str());
    join3(third.as_str(), " ", pad(symbols, 12).as_str())
}

/// The heading of the list.
pub fn files_heading() -> (line: String)
    ensures
        line@ == row_text("File Path"@, "Language"@, "Size (B)"@, "Test"@, "Symbols"@),
{
    show_cells("File Path", "Language", "Size (B)", "Test", "Symbols")
}

/// The line of a file.
pub open spec fn file_line(row: FileRow) -> Seq<char> {
    row_text(
        row.path@,
        match opt_text(row.language) {
            Some(language) => language,
            None => "unknown"@,
        },
        match opt_int(row.size_bytes) {
            Some(size) => decimal(size),
            None => "-"@,
        },
        if row.is_test {
            "true"@
        } else {
            "false"@
        },
        decimal(row.symbol_count as int),
    )
}

/// The line of a file.
pub fn show_file_row(row: &FileRow) -> (line: String)
    ensures
        line@ == file_line(*row),
{
    let language = match &row.language {
        Some(language) => language.clone(),
        None => "unknown".to_string(),
    };
    let size = match row.size_bytes {
        Some(size) => number(size),
        None => "-".to_string(),
    };
    let test = if row.is_test {
        "true"
    } else {
        "false"
    };
    let symbols = number(row.symbol_count);
    show_cells(
        row.path.as_str(),
        language.as_str(),
        size.as_str(),
        test,
        symbols.as_str(),
    )
}

/// A cell takes at least its width, and a text that fits is followed by spaces only.
pub proof fn cells_keep_their_text(text: Seq<char>, width: nat)
    ensures
        padded(text, width).len() == if text.len() >= width {
            text.len()
        } else {
            width
        },
        padded(text, width).take(text.len() as int) == text,
        forall|i: int|
            text.len() <= i < padded(text, width).len() ==> #[trigger] padded(text, width)[i] == ' ',
{
    assert(padded(text, width).take(text.len() as int) =~= text);
}

} // verus!
