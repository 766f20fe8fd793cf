//! Sets of access rights.
use vstd::prelude::*;

verus! {

/// The bit of the `read` right.
pub const READ_BIT: u8 = 1;

/// The bit of the `write` right.
pub const WRITE_BIT: u8 = 2;

/// The bit of the `execute` right.
pub const EXECUTE_BIT: u8 = 4;

/// All three bits.
pub const ALL_BITS: u8 = 7;

/// A subset of the rights `read`, `write` and `execute`, kept as a bit mask.
#[derive(Clone, Copy, Debug, PartialEq, Eq, Hash, Structural)]
pub struct Right {
    bits: u8,
}

impl View for Right {
    type V = u8;

    /// The bit mask: bit 0 is `read`, bit 1 is `write`, bit 2 is `execute`.
    closed spec fn view(&self) -> u8 {
        self.bits
    }
}

impl Right {
    /// The set with the given bit mask.
    pub closed spec fn of(bits: u8) -> Right {
        Right { bits }
    }

    /// Only the three rights occur in the set.
    pub open spec fn wf(self) -> bool {
        self@ <= ALL_BITS
    }

    /// Every right of `other` is in `self`.
    pub open spec fn includes(self, other: Right) -> bool {
        self@ & other@ == other@
    }

    /// The rights that are in `self` or in `other`.
    pub open spec fn union(self, other: Right) -> Right {
        Right::of(self@ | other@)
    }

    /// The rights of `self` that are not in `other`.
    pub open spec fn minus(self, other: Right) -> Right {
        Right::of(self@ & !other@)
    }

    /// The set holds no right.
    pub open spec fn none(self) -> bool {
        self@ == 0
    }

    /// The set is one of the three single rights.
    pub open spec fn single(self) -> bool {
        self == Right::read() || self == Right::write() || self == Right::execute()
    }

    /// The right to read, as a ghost value.
    pub open spec fn spec_read() -> Right {
        Right::of(READ_BIT)
    }

    /// The right to write, as a ghost value.
    pub open spec fn spec_write() -> Right {
        Right::of(WRITE_BIT)
    }

    /// The right to execute, as a ghost value.
    pub open spec fn spec_execute() -> Right {
        Right::of(EXECUTE_BIT)
    }

    /// The set without any right, as a ghost value.
    pub open spec fn spec_empty() -> Right {
        Right::of(0)
    }

    /// The set of all three rights, as a ghost value.
    pub open spec fn spec_full() -> Right {
        Right::of(ALL_BITS)
    }

    /// The set that holds `read`, `write` and `execute` as the flags say.
    pub open spec fn from_flags(read: bool, write: bool, execute: bool) -> Right {
        let read_bit: u8 = if read { READ_BIT } else { 0 };
        let write_bit: u8 = if write { WRITE_BIT } else { 0 };
        let execute_bit: u8 = if execute { EXECUTE_BIT } else { 0 };
        Right::of(read_bit | write_bit | execute_bit)
    }

    /// The right to read.
    #[verifier::when_used_as_spec(spec_read)]
    pub fn read() -> (r: Right)
        ensures
            r == Right::read(),
            r@ == READ_BIT,
    {
        Right { bits: 1 }
    }

    /// The right to write.
    #[verifier::when_used_as_spec(spec_write)]
    pub fn write() -> (r: Right)
        ensures
            r == Right::write(),
            r@ == WRITE_BIT,
    {
        Right { bits: 2 }
    }

    /// The right to execute.
    #[verifier::when_used_as_spec(spec_execute)]
    pub fn execute() -> (r: Right)
        ensures
            r == Right::execute(),
            r@ == EXECUTE_BIT,
    {
        Right { bits: 4 }
    }

    /// The set without any right.
    #[verifier::when_used_as_spec(spec_empty)]
    pub fn empty() -> (r: Right)
        ensures
            r == Right::empty(),
            r@ == 0,
    {
        Right { bits: 0 }
    }

    /// The set of all three rights.
    #[verifier::when_used_as_spec(spec_full)]
    pub fn full() -> (r: Right)
        ensures
            r == Right::full(),
            r@ == ALL_BITS,
    {
        let r = Right::read() | Right::write() | Right::execute();
        assert(1u8 | 2u8 | 4u8 == 7u8) by (bit_vector);
        r
    }

    /// Whether every right of `other` is in `self`.
    pub fn contains(&self, other: &Right) -> (b: bool)
        ensures
            b == self.includes(*other),
    {
        (self.bits & other.bits) == other.bits
    }

    /// Adds the rights of `other` to `self`.
    pub fn turn_on(&mut self, other: &Right)
        ensures
            *final(self) == old(self).union(*other),
    {
        self.bits = self.bits | other.bits;
    }

    /// Takes the rights of `other` out of `self`.
    pub fn turn_off(&mut self, other: &Right)
        ensures
            *final(self) == old(self).minus(*other),
    {
        self.bits = self.bits & !other.bits;
    }

    /// Whether the set holds no right.
    pub fn is_empty(&self) -> (b: bool)
        ensures
            b == self.none(),
    {
        self.bits == 0
    }

    /// Whether the set holds some right.
    pub fn is_any(&self) -> (b: bool)
        ensures
            b == !self.none(),
    {
        !self.is_empty()
    }
}

impl core::ops::BitOr for Right {
    type Output = Right;

    fn bitor(self, rhs: Right) -> (r: Right) {
        Right { bits: self.bits | rhs.bits }
    }
}

impl vstd::std_specs::ops::BitOrSpecImpl for Right {
    open spec fn obeys_bitor_spec() -> bool {
        true
    }

    open spec fn bitor_req(self, rhs: Right) -> bool {
        true
    }

    open spec fn bitor_spec(self, rhs: Right) -> Right {
        self.union(rhs)
    }
}

impl From<u8> for Right {
    /// The set whose bit mask is the low three bits of `value`.
    fn from(value: u8) -> (r: Right) {
        Right { bits: value & 7 }
    }
}

impl vstd::std_specs::convert::FromSpecImpl<u8> for Right {
    open spec fn obeys_from_spec() -> bool {
        true
    }

    open spec fn from_spec(value: u8) -> Right {
        Right::of(value & ALL_BITS)
    }
}

impl From<Right> for u8 {
    /// The bit mask of `rights`.
    fn from(rights: Right) -> (bits: u8) {
        rights.bits
    }
}

impl vstd::std_specs::convert::FromSpecImpl<Right> for u8 {
    open spec fn obeys_from_spec() -> bool {
        true
    }

    open spec fn from_spec(rights: Right) -> u8 {
        rights@
    }
}

/// What holds of sets of rights.
impl Right {
    /// A set is known by its bit mask.
    pub proof fn lemma_of_view(bits: u8)
        ensures
            Right::of(bits)@ == bits,
    {
    }

    /// Union does not depend on the order of its arguments, nor on how they
    /// are grouped, and the union of a set with itself is that set.
    pub proof fn lemma_union_laws(a: Right, b: Right, c: Right)
        ensures
            a.union(b) == b.union(a),
            a.union(b).union(c) == a.union(b.union(c)),
            a.union(a) == a,
    {
        let (x, y, z) = (a@, b@, c@);
        assert(x | y == y | x) by (bit_vector);
        assert((x | y) | z == x | (y | z)) by (bit_vector);
        assert(x | x == x) by (bit_vector);
    }

    /// The empty set adds nothing to a union.
    pub proof fn lemma_union_empty(a: Right)
        ensures
            a.union(Right::empty()) == a,
            Right::empty().union(a) == a,
    {
        let x = a@;
        assert(x | 0 == x && 0 | x == x) by (bit_vector);
    }

    /// A union includes both of its arguments, and is included in every set
    /// that includes both.
    pub proof fn lemma_union_includes(a: Right, b: Right, c: Right)
        ensures
            a.union(b).includes(a),
            a.union(b).includes(b),
            c.includes(a.union(b)) <==> c.includes(a) && c.includes(b),
    {
        let (x, y, z) = (a@, b@, c@);
        assert((x | y) & x == x && (x | y) & y == y) by (bit_vector);
        assert((z & (x | y) == x | y) <==> (z & x == x && z & y == y)) by (bit_vector);
    }

    /// Every set includes itself, and the sets that its subsets include.
    pub proof fn lemma_includes_order(a: Right, b: Right, c: Right)
        ensures
            a.includes(a),
            a.includes(b) && b.includes(c) ==> a.includes(c),
            a.includes(b) && b.includes(a) ==> a == b,
    {
        let (x, y, z) = (a@, b@, c@);
        assert(x & x == x) by (bit_vector);
        assert((x & y == y && y & z == z) ==> x & z == z) by (bit_vector);
        assert((x & y == y && y & x == x) ==> x == y) by (bit_vector);
    }

    /// A union is empty exactly when both of its arguments are.
    pub proof fn lemma_union_none(a: Right, b: Right)
        ensures
            a.union(b).none() <==> a.none() && b.none(),
    {
        let (x, y) = (a@, b@);
        assert((x | y == 0) <==> (x == 0 && y == 0)) by (bit_vector);
    }

    /// The union and the difference of two sets of the three rights are sets
    /// of the three rights.
    pub proof fn lemma_wf_closed(a: Right, b: Right)
        requires
            a.wf(),
        ensures
            b.wf() ==> a.union(b).wf(),
            a.minus(b).wf(),
    {
        let (x, y) = (a@, b@);
        assert((x <= 7 && y <= 7) ==> (x | y) <= 7) by (bit_vector);
        assert(x <= 7 ==> (x & !y) <= 7) by (bit_vector);
    }

    /// The named sets are sets of the three rights, and only `empty` is
    /// empty.
    pub proof fn lemma_named_sets()
        ensures
            Right::read().wf() && !Right::read().none(),
            Right::write().wf() && !Right::write().none(),
            Right::execute().wf() && !Right::execute().none(),
            Right::full().wf() && !Right::full().none(),
            Right::empty().wf() && Right::empty().none(),
            Right::full() == Right::read().union(Right::write()).union(Right::execute()),
    {
        assert((1u8 | 2u8) | 4u8 == 7u8) by (bit_vector);
    }

    /// The one set without any right is `empty`.
    pub proof fn lemma_none_is_empty(a: Right)
        ensures
            a.none() <==> a == Right::empty(),
    {
    }

    /// `full` includes every set of the three rights, and every set includes
    /// `empty`.
    pub proof fn lemma_full_includes(a: Right)
        ensures
            a.wf() ==> Right::full().includes(a),
            a.includes(Right::empty()),
            Right::empty().includes(a) <==> a.none(),
    {
        let x = a@;
        assert(x <= 7 ==> 7 & x == x) by (bit_vector);
        assert(x & 0 == 0) by (bit_vector);
        assert((0 & x == x) <==> x == 0) by (bit_vector);
    }

    /// A set built from three flags holds each of the three rights as its
    /// flag says, and nothing else.
    pub proof fn lemma_from_flags(read: bool, write: bool, execute: bool)
        ensures
            Right::from_flags(read, write, execute).wf(),
            Right::from_flags(read, write, execute).includes(Right::read()) == read,
            Right::from_flags(read, write, execute).includes(Right::write()) == write,
            Right::from_flags(read, write, execute).includes(Right::execute()) == execute,
            Right::from_flags(read, write, execute).none() <==> !read && !write && !execute,
    {
        let r: u8 = if read { 1 } else { 0 };
        let w: u8 = if write { 2 } else { 0 };
        let x: u8 = if execute { 4 } else { 0 };
        assert((r == 0 || r == 1) && (w == 0 || w == 2) && (x == 0 || x == 4) ==> {
            &&& (r | w | x) <= 7
            &&& ((r | w | x) & 1 == 1 <==> r == 1)
            &&& ((r | w | x) & 2 == 2 <==> w == 2)
            &&& ((r | w | x) & 4 == 4 <==> x == 4)
            &&& ((r | w | x) == 0 <==> r == 0 && w == 0 && x == 0)
        }) by (bit_vector);
    }

    /// A set of the three rights is known by which of the three it holds.
    pub proof fn lemma_flags(a: Right)
        requires
            a.wf(),
        ensures
            a == Right::from_flags(
                a.includes(Right::read()),
                a.includes(Right::write()),
                a.includes(Right::execute()),
            ),
    {
        let v = a@;
        let r: u8 = if v & 1 == 1 { 1 } else { 0 };
        let w: u8 = if v & 2 == 2 { 2 } else { 0 };
        let x: u8 = if v & 4 == 4 { 4 } else { 0 };
        assert({
            &&& v <= 7
            &&& r == (if v & 1 == 1 { 1u8 } else { 0u8 })
            &&& w == (if v & 2 == 2 { 2u8 } else { 0u8 })
            &&& x == (if v & 4 == 4 { 4u8 } else { 0u8 })
        } ==> v == r | w | x) by (bit_vector);
    }

    /// One set of the three rights includes another exactly when it holds
    /// each of the three that the other holds.
    pub proof fn lemma_includes_flags(a: Right, b: Right)
        requires
            b.wf(),
        ensures
            a.includes(b) <==> {
                &&& b.includes(Right::read()) ==> a.includes(Right::read())
                &&& b.includes(Right::write()) ==> a.includes(Right::write())
                &&& b.includes(Right::execute()) ==> a.includes(Right::execute())
            },
    {
        let (x, y) = (a@, b@);
        assert(y <= 7 ==> ((x & y == y) <==> {
            &&& y & 1 == 1 ==> x & 1 == 1
            &&& y & 2 == 2 ==> x & 2 == 2
            &&& y & 4 == 4 ==> x & 4 == 4
        })) by (bit_vector);
    }

    /// A single right is in a union exactly when it is in one of the two
    /// sets.
    pub proof fn lemma_union_single(a: Right, b: Right, right: Right)
        requires
            right.single(),
        ensures
            a.union(b).includes(right) <==> a.includes(right) || b.includes(right),
    {
        let (x, y) = (a@, b@);
        assert(((x | y) & 1 == 1) <==> (x & 1 == 1 || y & 1 == 1)) by (bit_vector);
        assert(((x | y) & 2 == 2) <==> (x & 2 == 2 || y & 2 == 2)) by (bit_vector);
        assert(((x | y) & 4 == 4) <==> (x & 4 == 4 || y & 4 == 4)) by (bit_vector);
    }

    /// A set includes a set of the three rights if it holds each single
    /// right of that set.
    pub proof fn lemma_includes_by_singles(a: Right, b: Right)
        requires
            b.wf(),
            forall|right: Right|
                right.single() && b.includes(right) ==> #[trigger] a.includes(right),
        ensures
            a.includes(b),
    {
        Right::lemma_includes_flags(a, b);
        assert(Right::read().single() && Right::write().single() && Right::execute().single());
    }

    /// Two sets with the same bit mask are the same set.
    pub proof fn lemma_view_injective(a: Right, b: Right)
        requires
            a@ == b@,
        ensures
            a == b,
    {
    }

    /// The low three bits of a byte make a set of the three rights, and are
    /// the byte itself where it holds no other bit.
    pub proof fn lemma_low_bits(value: u8)
        ensures
            Right::of(value & ALL_BITS).wf(),
            value <= ALL_BITS ==> Right::of(value & ALL_BITS)@ == value,
    {
        assert(value & 7 <= 7) by (bit_vector);
        assert(value <= 7 ==> value & 7 == value) by (bit_vector);
    }
}

} // verus!
