//! Capabilities: directed edges that carry rights.
use crate::object::Object;
use crate::right::Right;
use vstd::prelude::*;

verus! {

/// A directed edge from a subject to an object, with a set of rights.
///
/// Two capabilities are equal when they join the same two objects in the
/// same direction, whatever their rights are: a capability built with any
/// rights finds the stored edge between its end points.
#[derive(Clone, Copy, Debug)]
pub struct Capability {
    from: Object,
    to: Object,
    rights: Right,
}

impl Capability {
    /// The subject that holds the capability.
    pub closed spec fn spec_from(&self) -> Object {
        self.from
    }

    /// The object that the capability is for.
    pub closed spec fn spec_to(&self) -> Object {
        self.to
    }

    /// The rights that the capability carries.
    pub closed spec fn spec_rights(&self) -> &Right {
        &self.rights
    }

    /// The ordered pair of end points, by which a capability is known.
    pub open spec fn key(&self) -> (Object, Object) {
        (self.from(), self.to())
    }

    /// A capability is known by its end points and its rights.
    pub proof fn lemma_fields_injective(a: Capability, b: Capability)
        requires
            a.from() == b.from(),
            a.to() == b.to(),
            a.rights() == b.rights(),
        ensures
            a == b,
    {
    }

    /// The capability from `from` to `to` with the rights `rights`.
    pub fn new_with_rights(from: Object, to: Object, rights: Right) -> (c: Capability)
        ensures
            c.from() == from,
            c.to() == to,
            c.rights() == rights,
    {
        Capability { from, to, rights }
    }

    /// The capability from `from` to `to` without any right.
    pub fn new_with_empty(from: Object, to: Object) -> (c: Capability)
        ensures
            c.from() == from,
            c.to() == to,
            c.rights() == Right::empty(),
    {
        Capability { from, to, rights: Right::empty() }
    }

    /// The capability from `from` to `to` with all rights.
    pub fn new_with_full(from: Object, to: Object) -> (c: Capability)
        ensures
            c.from() == from,
            c.to() == to,
            c.rights() == Right::full(),
    {
        Capability { from, to, rights: Right::full() }
    }

    /// Whether the capability carries every right of `rights`.
    pub fn contains(&self, rights: &Right) -> (b: bool)
        ensures
            b == self.rights().includes(*rights),
    {
        self.rights.contains(rights)
    }

    /// The subject that holds the capability.
    #[verifier::when_used_as_spec(spec_from)]
    pub fn from(&self) -> (o: Object)
        ensures
            o == self.from(),
    {
        self.from
    }

    /// The object that the capability is for.
    #[verifier::when_used_as_spec(spec_to)]
    pub fn to(&self) -> (o: Object)
        ensures
            o == self.to(),
    {
        self.to
    }

    /// The rights that the capability carries.
    #[verifier::when_used_as_spec(spec_rights)]
    pub fn rights(&self) -> (r: &Right)
        ensures
            r == self.rights(),
    {
        &self.rights
    }
}

impl PartialEq for Capability {
    fn eq(&self, other: &Capability) -> (b: bool) {
        self.from == other.from && self.to == other.to
    }
}

impl Eq for Capability {

}

impl vstd::std_specs::cmp::PartialEqSpecImpl for Capability {
    open spec fn obeys_eq_spec() -> bool {
        true
    }

    open spec fn eq_spec(&self, other: &Capability) -> bool {
        self.key() == other.key()
    }
}

} // verus!
