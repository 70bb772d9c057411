//! The later revision: `legacy_render` is gone.

use vstd::prelude::*;
use crate::text::join2;

verus! {

/// Renders the input.
pub fn render(input: &str) -> (page: String)
    ensures
        page@ == "rendered:"@ + input@,
{
    join2("rendered:", input)
}

/// Renders a whole page.
pub fn render_page(input: &str) -> (page: String)
    ensures
        page@ == "rendered:"@ + input@,
{
    render(input)
}

} // verus!
