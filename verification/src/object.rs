//! Handles of the objects of a protection graph.
use vstd::prelude::*;

verus! {

/// A handle of an object: a subject or a resource of a protection graph.
///
/// An object has no attribute but its identity. A graph issues the handles
/// of its objects one after the other, and never takes one back.
#[derive(Clone, Copy, Debug, PartialEq, Eq, Hash, Structural)]
pub struct Object {
    pub(crate) id: usize,
}

impl View for Object {
    type V = nat;

    /// The place of the object among the objects of its graph.
    closed spec fn view(&self) -> nat {
        self.id as nat
    }
}

impl Object {
    /// The place of a handle is the number that it holds.
    pub(crate) proof fn lemma_place(self)
        ensures
            self@ == self.id,
    {
    }

    /// Two handles with the same place are the same handle.
    pub proof fn lemma_view_injective(a: Object, b: Object)
        requires
            a@ == b@,
        ensures
            a == b,
    {
    }
}

} // verus!
