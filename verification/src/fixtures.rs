//! Two revisions of a small rendering library, for trying a comparison of
//! revisions: a function is deleted, and another one loses its only use of it.

pub mod after;
pub mod before;
