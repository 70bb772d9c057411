//! The commands: what they decide and report, apart from files, processes and the
//! database.

pub mod changes;
pub mod diff;
pub mod files;
pub mod impact;
pub mod index;
pub mod listing;
pub mod quality;
pub mod select;
pub mod snapshot;
pub mod status;
pub mod tests_for;

use vstd::prelude::*;

verus! {

/// A remark that goes with a result.
#[derive(Debug, PartialEq)]
pub struct Warning {
    pub code: &'static str,
    pub message: String,
}

/// The content of a [`Warning`].
#[verifier::ext_equal]
pub struct WarningView {
    pub code: Seq<char>,
    pub message: Seq<char>,
}

impl View for Warning {
    type V = WarningView;

    open spec fn view(&self) -> WarningView {
        WarningView { code: self.code@, message: self.message@ }
    }
}

/// What to do after a result that may have been cut.
pub open spec fn advice(cut: bool) -> Seq<char> {
    if cut {
        "narrow the query"@
    } else {
        "none"@
    }
}

/// What to do after a result that may have been cut.
pub fn next_action(cut: bool) -> (action: &'static str)
    ensures
        action@ == advice(cut),
{
    if cut {
        "narrow the query"
    } else {
        "none"
    }
}

} // verus!
