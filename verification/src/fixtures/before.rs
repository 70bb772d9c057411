//! The earlier revision: rendering goes through `legacy_render`.

use vstd::prelude::*;
use crate::text::join2;

verus! {

/// Renders the input the old way.
pub fn legacy_render(input: &str) -> (page: String)
    ensures
        page@ == "legacy:"@ + input@,
{
    join2("legacy:", input)
}

/// Renders the input.
pub fn render(input: &str) -> (page: String)
    ensures
        page@ == "legacy:"@ + input@,
{
    legacy_render(input)
}

/// Renders a whole page.
pub fn render_page(input: &str) -> (page: String)
    ensures
        page@ == "legacy:"@ + input@,
{
    render(input)
}

} // verus!
