//! A capability-based protection model.
//!
//! A [`graph::Graph`] holds a set of objects and a set of directed
//! capabilities between them. Each capability carries a non-empty set of
//! access rights. The graph is changed by the rules `create`, `remove`,
//! `take`, `grant` and `call`, and answers two questions: whether a subject
//! holds given rights on an object, and whether rights could structurally
//! reach an object from a subject.
pub mod capability;
pub mod graph;
pub mod laws;
pub mod listing;
pub mod object;
pub mod right;
pub mod state;
