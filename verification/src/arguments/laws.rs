//! Which arguments are taken, and what is said of the others.

use vstd::prelude::*;
use crate::arguments::{bounded, confidence_in, first_outside, refusal};
use crate::commands::changes::is_workspace_relative;
use crate::ordered::distinct_texts;
use crate::text::{decimal, unsigned_value, written_numbers_are_read_back};

verus! {

/// A number written out is taken from 1 up to the bound, and refused below and above.
pub proof fn numbers_are_taken_within_bounds(n: int, subject: Seq<char>, most: int)
    requires
        0 <= n <= usize::MAX,
    ensures
        1 <= n <= most ==> bounded(decimal(n), subject, most) == Ok::<int, Seq<char>>(n),
        n == 0 || n > most ==> bounded(decimal(n), subject, most) == Err::<int, Seq<char>>(
            subject + " must be between 1 and "@ + decimal(most),
        ),
{
    written_numbers_are_read_back(n);
}

/// What is no number is refused as such.
pub proof fn other_texts_are_no_numbers(text: Seq<char>, subject: Seq<char>, most: int)
    requires
        unsigned_value(text) is None,
    ensures
        bounded(text, subject, most) == Err::<int, Seq<char>>(
            subject + " must be a positive integer"@,
        ),
{
}

/// A confidence written out is taken from 0 up to 100, and refused below and above.
pub proof fn confidences_are_taken_from_0_to_100(n: int)
    requires
        i64::MIN <= n <= i64::MAX,
    ensures
        0 <= n <= 100 ==> confidence_in(decimal(n)) == Ok::<int, Seq<char>>(n),
        n < 0 || n > 100 ==> confidence_in(decimal(n)) == Err::<int, Seq<char>>(
            "min-confidence must be between 0 and 100"@,
        ),
{
    written_numbers_are_read_back(n);
}

/// The path is the first of the files that leaves the workspace.
pub open spec fn is_first_outside(files: Seq<Seq<char>>, i: int) -> bool {
    &&& 0 <= i < files.len()
    &&& !is_workspace_relative(files[i])
    &&& forall|j: int| 0 <= j < i ==> is_workspace_relative(#[trigger] files[j])
}

/// The first file outside the workspace is refused. Where there is none, more than five
/// hundred different ones are refused, and up to five hundred are taken.
pub proof fn files_are_refused_for_a_reason(files: Seq<Seq<char>>, i: int)
    ensures
        is_first_outside(files, i) ==> refusal(files) == Some(
            "--files path must be workspace-relative: "@ + files[i],
        ),
        (forall|j: int| 0 <= j < files.len() ==> is_workspace_relative(#[trigger] files[j])) ==> (
        refusal(files) is None <==> distinct_texts(files).len() <= 500),
        (forall|j: int| 0 <= j < files.len() ==> is_workspace_relative(#[trigger] files[j]))
            && distinct_texts(files).len() > 500 ==> refusal(files) == Some(
            "--files accepts at most 500 distinct workspace-relative paths"@,
        ),
{
    lemma_first_outside(files, i);
}

proof fn lemma_first_outside(files: Seq<Seq<char>>, i: int)
    ensures
        is_first_outside(files, i) ==> first_outside(files) == Some(files[i]),
        (forall|j: int| 0 <= j < files.len() ==> is_workspace_relative(#[trigger] files[j]))
            ==> first_outside(files) is None,
    decreases files.len(),
{
    if files.len() > 0 {
        let rest = files.skip(1);
        lemma_first_outside(rest, i - 1);
        if is_first_outside(files, i) && i > 0 {
            assert(is_workspace_relative(files[0]));
            assert forall|j: int| 0 <= j < i - 1 implies is_workspace_relative(
                #[trigger] rest[j],
            ) by {
                assert(rest[j] == files[j + 1]);
            }
            assert(rest[i - 1] == files[i]);
            assert(is_first_outside(rest, i - 1));
        }
        if forall|j: int| 0 <= j < files.len() ==> is_workspace_relative(#[trigger] files[j]) {
            assert forall|j: int| 0 <= j < rest.len() implies is_workspace_relative(
                #[trigger] rest[j],
            ) by {
                assert(rest[j] == files[j + 1]);
            }
            assert(is_workspace_relative(files[0]));
        }
    }
}

} // verus!
