//! Declarative GTK user interfaces.
//!
//! [`vdom`] keeps a live widget tree in step with a declarative description of
//! it; [`markup`] parses the tag syntax in which such descriptions are written.

pub mod markup;
pub mod vdom;
