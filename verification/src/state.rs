//! The protection state as a mathematical value, and its rules.
//!
//! A [`State`] is what a graph holds at one moment: the set of its objects
//! and a map from ordered pairs of objects to the rights of the capability
//! that joins them. Each rule of the graph is a function from states to
//! states, and each question a predicate on a state.
use crate::object::Object;
use crate::right::Right;
use vstd::prelude::*;

verus! {

/// The objects of a graph and the rights of its capabilities.
pub struct State {
    /// The objects that the graph has issued.
    pub objects: Set<Object>,
    /// The rights of each capability, by its end points.
    pub caps: Map<(Object, Object), Right>,
}

impl State {
    /// The state of a new graph: no object, no capability.
    pub open spec fn empty() -> State {
        State { objects: Set::empty(), caps: Map::empty() }
    }

    /// The capability from `a` to `b` joins two objects of the graph, and
    /// has some right among the three.
    pub open spec fn sound(self, a: Object, b: Object) -> bool {
        &&& self.objects.contains(a)
        &&& self.objects.contains(b)
        &&& self.caps[(a, b)].wf()
        &&& !self.caps[(a, b)].none()
    }

    /// The invariant of every state that a graph reaches: finitely many
    /// objects and capabilities, and every capability sound.
    pub open spec fn inv(self) -> bool {
        &&& self.objects.finite()
        &&& self.caps.dom().finite()
        &&& forall|a: Object, b: Object| #[trigger]
            self.caps.contains_key((a, b)) ==> self.sound(a, b)
    }

    /// The rights that `from` holds on `to`: those of the capability between
    /// them, and none where there is no capability.
    pub open spec fn rights(self, from: Object, to: Object) -> Right {
        if self.caps.contains_key((from, to)) {
            self.caps[(from, to)]
        } else {
            Right::empty()
        }
    }

    /// There is a capability from `from` to `to` with every right of `right`.
    pub open spec fn holds(self, from: Object, to: Object, right: Right) -> bool {
        self.caps.contains_key((from, to)) && self.caps[(from, to)].includes(right)
    }

    /// The state with one more object.
    pub open spec fn add_object(self, fresh: Object) -> State {
        State { objects: self.objects.insert(fresh), caps: self.caps }
    }

    /// The rule `create`: the object `fresh` joins the graph, and `subject`
    /// holds all rights on it.
    pub open spec fn create(self, subject: Object, fresh: Object) -> State {
        State {
            objects: self.objects.insert(fresh),
            caps: self.caps.insert((subject, fresh), Right::full()),
        }
    }

    /// The rule `remove`: the capability from `from` to `to` leaves, if there
    /// is one.
    pub open spec fn remove(self, from: Object, to: Object) -> State {
        State { objects: self.objects, caps: self.caps.remove((from, to)) }
    }

    /// Some object of `sources` holds a capability to `to` with every right
    /// of `right`.
    pub open spec fn some_source_holds(
        self,
        sources: Set<Object>,
        to: Object,
        right: Right,
    ) -> bool {
        exists|y: Object| sources.contains(y) && #[trigger] self.holds(y, to, right)
    }

    /// The union of the rights that the objects of `sources` hold on `to`: a
    /// right is in it exactly when some source holds it on `to`.
    pub open spec fn gathered(self, sources: Set<Object>, to: Object) -> Right {
        Right::from_flags(
            self.some_source_holds(sources, to, Right::read()),
            self.some_source_holds(sources, to, Right::write()),
            self.some_source_holds(sources, to, Right::execute()),
        )
    }

    /// The objects that `from` can read.
    pub open spec fn readable_by(self, from: Object) -> Set<Object> {
        Set::new(|y: Object| self.holds(from, y, Right::read()))
    }

    /// The objects that can write to `from`.
    pub open spec fn writers_of(self, from: Object) -> Set<Object> {
        Set::new(|x: Object| self.holds(x, from, Right::write()))
    }

    /// The state in which `from` holds the rights `rights` on `to` besides
    /// those it held before.
    pub open spec fn merge(self, from: Object, to: Object, rights: Right) -> State {
        State {
            objects: self.objects,
            caps: self.caps.insert((from, to), self.rights(from, to).union(rights)),
        }
    }

    /// The rights that `take` brings to `from` on `to`: those that the
    /// objects which `from` can read hold on `to`.
    pub open spec fn taken(self, from: Object, to: Object) -> Right {
        self.gathered(self.readable_by(from), to)
    }

    /// The rights that `grant` brings to `from` on `to`: those that the
    /// objects which can write to `from` hold on `to`.
    pub open spec fn granted(self, from: Object, to: Object) -> Right {
        self.gathered(self.writers_of(from), to)
    }

    /// The rule `take`: nothing changes where no right is taken; else `from`
    /// holds the taken rights on `to` besides those it held before.
    pub open spec fn take(self, from: Object, to: Object) -> State {
        if self.taken(from, to).none() {
            self
        } else {
            self.merge(from, to, self.taken(from, to))
        }
    }

    /// The rule `grant`: nothing changes where no right is granted; else
    /// `from` holds the granted rights on `to` besides those it held before.
    pub open spec fn grant(self, from: Object, to: Object) -> State {
        if self.granted(from, to).none() {
            self
        } else {
            self.merge(from, to, self.granted(from, to))
        }
    }

    /// The state in which the object `process` has joined the graph and
    /// holds on `para` the rights that `from` holds on it.
    pub open spec fn pass(self, from: Object, para: Object, process: Object) -> State {
        State {
            objects: self.objects.insert(process),
            caps: self.caps.insert((process, para), self.caps[(from, para)]),
        }
    }

    /// The rule `call`: nothing changes where `from` holds no capability to
    /// `para`; else the object `process` joins the graph, holds on `para` the
    /// rights that `from` holds on it, and `read` is merged into what it
    /// holds on `to`. Where `to` is `para`, the one capability of `process`
    /// has the rights of `from` and `read`.
    pub open spec fn call(self, from: Object, to: Object, para: Object, process: Object) -> State {
        if !self.caps.contains_key((from, para)) {
            self
        } else {
            self.pass(from, para, process).merge(process, to, Right::read())
        }
    }

    /// A capability joins `a` and `b`, in one direction or the other.
    pub open spec fn adjacent(self, a: Object, b: Object) -> bool {
        self.caps.contains_key((a, b)) || self.caps.contains_key((b, a))
    }

    /// `path` is a walk along capabilities, taken in either direction.
    pub open spec fn is_walk(self, path: Seq<Object>) -> bool {
        &&& path.len() > 0
        &&& forall|i: int|
            0 <= i < path.len() - 1 ==> self.adjacent(#[trigger] path[i], path[i + 1])
    }

    /// `a` and `b` are the same object, or a walk leads from `a` to `b`.
    pub open spec fn connected(self, a: Object, b: Object) -> bool {
        exists|path: Seq<Object>| #[trigger]
            self.is_walk(path) && path.first() == a && path.last() == b
    }

    /// Some object of the graph holds a capability to `to` with some right.
    pub open spec fn has_holder(self, to: Object) -> bool {
        exists|y: Object|
            self.objects.contains(y) && #[trigger] self.caps.contains_key((y, to))
                && !self.caps[(y, to)].none()
    }

    /// The coarse test whether rights could reach `to` from `from`: the two
    /// are connected, and some object of the graph holds a right on `to`.
    pub open spec fn can_operate(self, from: Object, to: Object) -> bool {
        self.connected(from, to) && self.has_holder(to)
    }

    /// The gathered rights hold a single right exactly when some source
    /// holds it on `to`.
    pub proof fn lemma_gathered_single(self, sources: Set<Object>, to: Object, right: Right)
        requires
            right.single(),
        ensures
            self.gathered(sources, to).includes(right) == self.some_source_holds(
                sources,
                to,
                right,
            ),
    {
        Right::lemma_from_flags(
            self.some_source_holds(sources, to, Right::read()),
            self.some_source_holds(sources, to, Right::write()),
            self.some_source_holds(sources, to, Right::execute()),
        );
    }

    /// The gathered rights are among the three. Where they are not empty,
    /// some source holds a capability to `to`.
    pub proof fn lemma_gathered(self, sources: Set<Object>, to: Object)
        ensures
            self.gathered(sources, to).wf(),
            !self.gathered(sources, to).none() ==> exists|y: Object|
                sources.contains(y) && #[trigger] self.caps.contains_key((y, to)),
    {
        let r = self.some_source_holds(sources, to, Right::read());
        let w = self.some_source_holds(sources, to, Right::write());
        let x = self.some_source_holds(sources, to, Right::execute());
        Right::lemma_from_flags(r, w, x);
        if !self.gathered(sources, to).none() {
            let right = if r {
                Right::read()
            } else if w {
                Right::write()
            } else {
                Right::execute()
            };
            let y = choose|y: Object| sources.contains(y) && #[trigger] self.holds(y, to, right);
            assert(self.caps.contains_key((y, to)));
        }
    }

    /// The gathered rights include the rights of every capability from a
    /// source to `to`, and are empty where there is no such capability.
    pub proof fn lemma_gathered_bounds(self, sources: Set<Object>, to: Object)
        requires
            self.inv(),
        ensures
            forall|y: Object|
                sources.contains(y) && #[trigger] self.caps.contains_key((y, to))
                    ==> self.gathered(sources, to).includes(self.caps[(y, to)]),
            self.gathered(sources, to).none() <==> forall|y: Object|
                sources.contains(y) ==> !#[trigger] self.caps.contains_key((y, to)),
    {
        let all = self.gathered(sources, to);
        self.lemma_gathered(sources, to);
        assert forall|y: Object|
            sources.contains(y) && #[trigger] self.caps.contains_key((y, to)) implies all.includes(
            self.caps[(y, to)],
        ) && !all.none() by {
            let held = self.caps[(y, to)];
            assert(self.sound(y, to));
            assert forall|right: Right|
                right.single() && held.includes(right) implies #[trigger] all.includes(right) by {
                assert(self.holds(y, to, right));
                self.lemma_gathered_single(sources, to, right);
            }
            Right::lemma_includes_by_singles(all, held);
            Right::lemma_none_is_empty(all);
            Right::lemma_full_includes(held);
        }
    }

    /// The gathered rights are the least set that includes the rights of
    /// every capability from a source to `to`.
    pub proof fn lemma_gathered_least(self, sources: Set<Object>, to: Object, bound: Right)
        requires
            forall|y: Object|
                sources.contains(y) && #[trigger] self.caps.contains_key((y, to))
                    ==> bound.includes(self.caps[(y, to)]),
        ensures
            bound.includes(self.gathered(sources, to)),
    {
        let all = self.gathered(sources, to);
        self.lemma_gathered(sources, to);
        assert forall|right: Right|
            right.single() && all.includes(right) implies #[trigger] bound.includes(right) by {
            self.lemma_gathered_single(sources, to, right);
            let y = choose|y: Object| sources.contains(y) && #[trigger] self.holds(y, to, right);
            assert(self.caps.contains_key((y, to)));
            Right::lemma_includes_order(bound, self.caps[(y, to)], right);
        }
        Right::lemma_includes_by_singles(bound, all);
    }

    /// Some object of the graph holds a right on `to` exactly when the
    /// rights that all of them hold on it are not empty.
    pub proof fn lemma_has_holder(self, to: Object)
        requires
            self.inv(),
        ensures
            self.has_holder(to) == !self.gathered(self.objects, to).none(),
    {
        self.lemma_gathered(self.objects, to);
        self.lemma_gathered_bounds(self.objects, to);
        if self.has_holder(to) {
            let y = choose|y: Object|
                self.objects.contains(y) && #[trigger] self.caps.contains_key((y, to))
                    && !self.caps[(y, to)].none();
            assert(self.objects.contains(y) && self.caps.contains_key((y, to)));
        }
        if !self.gathered(self.objects, to).none() {
            let y = choose|y: Object|
                self.objects.contains(y) && #[trigger] self.caps.contains_key((y, to));
            assert(self.sound(y, to));
        }
    }

    /// Merging rights that are not empty into a capability between two
    /// objects of the graph keeps the invariant.
    pub proof fn lemma_merge_inv(self, from: Object, to: Object, rights: Right)
        requires
            self.inv(),
            self.objects.contains(from),
            self.objects.contains(to),
            rights.wf(),
            !rights.none(),
        ensures
            self.merge(from, to, rights).inv(),
    {
        let held = self.rights(from, to);
        Right::lemma_named_sets();
        Right::lemma_wf_closed(held, rights);
        Right::lemma_union_none(held, rights);
        let after = self.merge(from, to, rights);
        assert(after.caps.dom() =~= self.caps.dom().insert((from, to)));
        assert forall|a: Object, b: Object| #[trigger]
            after.caps.contains_key((a, b)) implies after.sound(a, b) by {
            if (a, b) != (from, to) {
                assert(self.sound(a, b));
            }
        }
    }

    /// Where `take` brings a right, `from` and `to` are objects of the graph.
    pub proof fn lemma_taken_between_objects(self, from: Object, to: Object)
        requires
            self.inv(),
            !self.taken(from, to).none(),
        ensures
            self.objects.contains(from),
            self.objects.contains(to),
    {
        self.lemma_gathered(self.readable_by(from), to);
        let y = choose|y: Object|
            self.readable_by(from).contains(y) && #[trigger] self.caps.contains_key((y, to));
        assert(self.holds(from, y, Right::read()));
        assert(self.caps.contains_key((from, y)));
    }

    /// Where `grant` brings a right, `from` and `to` are objects of the
    /// graph.
    pub proof fn lemma_granted_between_objects(self, from: Object, to: Object)
        requires
            self.inv(),
            !self.granted(from, to).none(),
        ensures
            self.objects.contains(from),
            self.objects.contains(to),
    {
        self.lemma_gathered(self.writers_of(from), to);
        let x = choose|x: Object|
            self.writers_of(from).contains(x) && #[trigger] self.caps.contains_key((x, to));
        assert(self.holds(x, from, Right::write()));
        assert(self.caps.contains_key((x, from)));
    }

    /// One more object keeps the invariant.
    pub proof fn lemma_add_object_inv(self, fresh: Object)
        requires
            self.inv(),
        ensures
            self.add_object(fresh).inv(),
    {
        let after = self.add_object(fresh);
        assert forall|a: Object, b: Object| #[trigger]
            after.caps.contains_key((a, b)) implies after.sound(a, b) by {
            assert(self.sound(a, b));
        }
    }

    /// `create` by an object of the graph keeps the invariant.
    pub proof fn lemma_create_inv(self, subject: Object, fresh: Object)
        requires
            self.inv(),
            self.objects.contains(subject),
        ensures
            self.create(subject, fresh).inv(),
    {
        let after = self.create(subject, fresh);
        Right::lemma_named_sets();
        assert(after.caps.dom() =~= self.caps.dom().insert((subject, fresh)));
        assert forall|a: Object, b: Object| #[trigger]
            after.caps.contains_key((a, b)) implies after.sound(a, b) by {
            if (a, b) != (subject, fresh) {
                assert(self.sound(a, b));
            }
        }
    }

    /// `remove` keeps the invariant.
    pub proof fn lemma_remove_inv(self, from: Object, to: Object)
        requires
            self.inv(),
        ensures
            self.remove(from, to).inv(),
    {
        let after = self.remove(from, to);
        assert(after.caps.dom() =~= self.caps.dom().remove((from, to)));
        assert forall|a: Object, b: Object| #[trigger]
            after.caps.contains_key((a, b)) implies after.sound(a, b) by {
            assert(self.sound(a, b));
        }
    }

    /// `take` keeps the invariant.
    pub proof fn lemma_take_inv(self, from: Object, to: Object)
        requires
            self.inv(),
        ensures
            self.take(from, to).inv(),
    {
        if !self.taken(from, to).none() {
            self.lemma_taken_between_objects(from, to);
            self.lemma_gathered(self.readable_by(from), to);
            self.lemma_merge_inv(from, to, self.taken(from, to));
        }
    }

    /// `grant` keeps the invariant.
    pub proof fn lemma_grant_inv(self, from: Object, to: Object)
        requires
            self.inv(),
        ensures
            self.grant(from, to).inv(),
    {
        if !self.granted(from, to).none() {
            self.lemma_granted_between_objects(from, to);
            self.lemma_gathered(self.writers_of(from), to);
            self.lemma_merge_inv(from, to, self.granted(from, to));
        }
    }

    /// Passing the rights that `from` holds on `para` to one more object
    /// keeps the invariant.
    pub proof fn lemma_pass_inv(self, from: Object, para: Object, process: Object)
        requires
            self.inv(),
            self.caps.contains_key((from, para)),
        ensures
            self.pass(from, para, process).inv(),
    {
        let after = self.pass(from, para, process);
        assert(self.sound(from, para));
        assert(after.caps.dom() =~= self.caps.dom().insert((process, para)));
        assert forall|a: Object, b: Object| #[trigger]
            after.caps.contains_key((a, b)) implies after.sound(a, b) by {
            if (a, b) != (process, para) {
                assert(self.sound(a, b));
            }
        }
    }

    /// `call` of an object of the graph keeps the invariant.
    pub proof fn lemma_call_inv(self, from: Object, to: Object, para: Object, process: Object)
        requires
            self.inv(),
            self.objects.contains(to),
        ensures
            self.call(from, to, para, process).inv(),
    {
        if self.caps.contains_key((from, para)) {
            Right::lemma_named_sets();
            self.lemma_pass_inv(from, para, process);
            self.pass(from, para, process).lemma_merge_inv(process, to, Right::read());
        }
    }

    /// Every object is connected to itself, and to the neighbours of the
    /// objects that it is connected to.
    pub proof fn lemma_connected_grows(self, a: Object, b: Object, c: Object)
        ensures
            self.connected(a, a),
            self.connected(a, b) && self.adjacent(b, c) ==> self.connected(a, c),
    {
        assert(self.is_walk(seq![a]) && seq![a].first() == a && seq![a].last() == a);
        if self.connected(a, b) && self.adjacent(b, c) {
            let path = choose|path: Seq<Object>| #[trigger]
                self.is_walk(path) && path.first() == a && path.last() == b;
            let longer = path.push(c);
            assert forall|i: int| 0 <= i < longer.len() - 1 implies self.adjacent(
                #[trigger] longer[i],
                longer[i + 1],
            ) by {
                if i < path.len() - 1 {
                    assert(self.adjacent(path[i], path[i + 1]));
                }
            }
            assert(self.is_walk(longer) && longer.first() == a && longer.last() == c);
        }
    }

    /// A walk that starts in a set which holds the neighbours of each of its
    /// objects stays in that set.
    pub proof fn lemma_walk_stays(self, within: Set<Object>, path: Seq<Object>, upto: int)
        requires
            self.is_walk(path),
            within.contains(path.first()),
            forall|x: Object, y: Object|
                within.contains(x) && #[trigger] self.adjacent(x, y) ==> within.contains(y),
            0 <= upto < path.len(),
        ensures
            within.contains(path[upto]),
        decreases upto,
    {
        if upto > 0 {
            self.lemma_walk_stays(within, path, upto - 1);
            assert(self.adjacent(path[upto - 1], path[upto - 1 + 1]));
        }
    }

    /// An object is connected only to objects of each set that holds it and
    /// the neighbours of each of its objects.
    pub proof fn lemma_connected_within(self, within: Set<Object>, a: Object, b: Object)
        requires
            within.contains(a),
            forall|x: Object, y: Object|
                within.contains(x) && #[trigger] self.adjacent(x, y) ==> within.contains(y),
            self.connected(a, b),
        ensures
            within.contains(b),
    {
        let path = choose|path: Seq<Object>| #[trigger]
            self.is_walk(path) && path.first() == a && path.last() == b;
        self.lemma_walk_stays(within, path, path.len() - 1);
    }

    /// Two different objects are connected only if each is an end point of
    /// a capability, and so an object of the graph.
    pub proof fn lemma_connected_objects(self, a: Object, b: Object)
        requires
            self.inv(),
            self.connected(a, b),
            a != b,
        ensures
            self.objects.contains(a),
            self.objects.contains(b),
    {
        let path = choose|path: Seq<Object>| #[trigger]
            self.is_walk(path) && path.first() == a && path.last() == b;
        assert(self.adjacent(path[0], path[0int + 1]));
        let last = path.len() - 2;
        assert(self.adjacent(path[last], path[last + 1]));
    }
}

} // verus!
