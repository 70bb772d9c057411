//! The two revisions of the rendering fixture.

use ochna::fixtures::{after, before};

#[test]
fn render_page_uses_render() {
    assert_eq!(after::render("home"), "rendered:home");
    assert_eq!(after::render_page("home"), "rendered:home");
}

#[test]
fn render_tests_render_page_uses_render() {
    let rendered = before::render("home");
    let page = before::render_page("home");
    assert_eq!(rendered, "legacy:home");
    assert_eq!(page, "legacy:home");
}

#[test]
fn rendering_goes_through_the_legacy_renderer() {
    assert_eq!(before::legacy_render("home"), "legacy:home");
    assert_eq!(before::legacy_render(""), "legacy:");
}
