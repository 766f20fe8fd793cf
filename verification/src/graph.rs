//! The protection graph and its rules.
use crate::capability::Capability;
use crate::listing::{
    caps_map, key_index, lemma_caps_map_index, lemma_caps_map_len, lemma_caps_map_push,
    lemma_caps_map_remove, lemma_caps_map_update, unique_keys,
};
use crate::object::Object;
use crate::right::Right;
use crate::state::State;
use vstd::prelude::*;

verus! {

/// A protection graph: objects, and capabilities between them.
///
/// The graph owns its objects and hands out their handles. It keeps at most
/// one capability for each ordered pair of objects, and none without rights.
pub struct Graph {
    objects: Vec<Object>,
    capabilities: Vec<Capability>,
}

impl View for Graph {
    type V = State;

    /// The objects and the capabilities of the graph as a state.
    closed spec fn view(&self) -> State {
        State { objects: self.objects@.to_set(), caps: caps_map(self.capabilities@) }
    }
}

impl Graph {
    /// The handles are issued in order, and no two capabilities have the
    /// same end points.
    pub closed spec fn ordered(&self) -> bool {
        &&& forall|i: int| 0 <= i < self.objects@.len() ==> (#[trigger] self.objects@[i]).id == i
        &&& unique_keys(self.capabilities@)
    }

    /// The graph is well formed: it is laid out in order, and its state
    /// satisfies the invariant of states.
    pub open spec fn wf(&self) -> bool {
        self.ordered() && self@.inv()
    }

    /// The object that the graph issues next.
    pub closed spec fn next_object(&self) -> Object {
        Object { id: self.objects.len() }
    }

    /// The object that a graph issues next is none of its objects, and its
    /// place is the number of objects issued before it.
    pub proof fn lemma_next_object_fresh(&self)
        requires
            self.wf(),
        ensures
            !self@.objects.contains(self.next_object()),
            self.next_object()@ == self@.objects.len(),
    {
        self.lemma_registered(self.next_object());
        self.next_object().lemma_place();
        self.lemma_objects_listed();
    }

    /// A graph without objects and without capabilities.
    pub fn new() -> (g: Graph)
        ensures
            g.wf(),
            g@ == State::empty(),
    {
        let g = Graph { objects: Vec::new(), capabilities: Vec::new() };
        assert(g@.objects =~= Set::empty());
        assert(g@.caps =~= Map::empty());
        g
    }

    /// Whether `object` is an object of the graph.
    pub fn contains_object(&self, object: &Object) -> (b: bool)
        requires
            self.wf(),
        ensures
            b == self@.objects.contains(*object),
    {
        proof {
            self.lemma_registered(*object);
        }
        object.id < self.objects.len()
    }

    /// Adds an object without any capability, and returns its handle.
    pub fn new_object(&mut self) -> (new: Object)
        requires
            old(self).wf(),
        ensures
            final(self).wf(),
            !old(self)@.objects.contains(new),
            new == old(self).next_object(),
            final(self)@ == old(self)@.add_object(new),
            old(self)@.objects.subset_of(final(self)@.objects),
            final(self)@.objects.len() == old(self)@.objects.len() + 1,
    {
        let new = Object { id: self.objects.len() };
        proof {
            self.lemma_next_object_fresh();
        }
        self.objects.push(new);
        proof {
            old(self).lemma_pushed_object(self, new);
        }
        new
    }

    /// Whether `from` holds a capability to `to` with every right of
    /// `right`.
    pub fn have_operation(&self, from: &Object, to: &Object, right: &Right) -> (b: bool)
        requires
            self.wf(),
        ensures
            b == self@.holds(*from, *to, *right),
    {
        match self.position(*from, *to) {
            Some(i) => {
                proof {
                    lemma_caps_map_index(self.capabilities@, i as int);
                }
                self.capabilities[i].contains(right)
            },
            None => false,
        }
    }

    /// The rule `create`: adds an object on which `object` holds all rights,
    /// and returns its handle.
    ///
    /// `object` must be an object of the graph. The graph then has one
    /// object and one capability more.
    pub fn create(&mut self, object: &Object) -> (new: Object)
        requires
            old(self).wf(),
            old(self)@.objects.contains(*object),
        ensures
            final(self).wf(),
            !old(self)@.objects.contains(new),
            new == old(self).next_object(),
            final(self)@ == old(self)@.create(*object, new),
            old(self)@.objects.subset_of(final(self)@.objects),
            final(self)@.objects.len() == old(self)@.objects.len() + 1,
            final(self)@.caps.dom().len() == old(self)@.caps.dom().len() + 1,
            final(self)@.caps[(*object, new)] == Right::full(),
    {
        let new = Object { id: self.objects.len() };
        let cap = Capability::new_with_full(*object, new);
        proof {
            self.lemma_next_object_fresh();
            self@.lemma_create_inv(*object, new);
            self@.lemma_create_counts(*object, new);
            if self@.caps.contains_key(cap.key()) {
                assert(self@.sound(*object, new));
            }
            lemma_caps_map_push(self.capabilities@, cap);
        }
        self.capabilities.push(cap);
        self.objects.push(new);
        proof {
            old(self).lemma_pushed_object(self, new);
        }
        new
    }

    /// The rule `remove`: takes away the capability from `from` to `to`.
    /// Nothing changes where there is none.
    pub fn remove(&mut self, from: &Object, to: &Object)
        requires
            old(self).wf(),
        ensures
            final(self).wf(),
            final(self)@ == old(self)@.remove(*from, *to),
            old(self)@.objects.subset_of(final(self)@.objects),
    {
        proof {
            self@.lemma_remove_inv(*from, *to);
            self@.lemma_remove_once(*from, *to);
        }
        match self.position(*from, *to) {
            Some(i) => {
                proof {
                    lemma_caps_map_remove(self.capabilities@, i as int);
                }
                self.capabilities.remove(i);
            },
            None => {},
        }
    }

    /// Gives `from` the rights `rights` on `to`, besides those that it holds
    /// already.
    fn insert_or_merge_capability(&mut self, from: &Object, to: &Object, rights: Right)
        requires
            old(self).wf(),
            old(self)@.objects.contains(*from),
            old(self)@.objects.contains(*to),
            rights.wf(),
            !rights.none(),
        ensures
            final(self).wf(),
            final(self)@ == old(self)@.merge(*from, *to, rights),
    {
        let mut rights = rights;
        let ghost given = rights;
        proof {
            self@.lemma_merge_inv(*from, *to, given);
        }
        match self.position(*from, *to) {
            Some(i) => {
                proof {
                    let held = *self.capabilities@[i as int].rights();
                    lemma_caps_map_index(self.capabilities@, i as int);
                    Right::lemma_union_laws(given, held, held);
                }
                rights.turn_on(self.capabilities[i].rights());
                let cap = Capability::new_with_rights(*from, *to, rights);
                proof {
                    lemma_caps_map_update(self.capabilities@, i as int, cap);
                }
                self.capabilities.set(i, cap);
            },
            None => {
                let cap = Capability::new_with_rights(*from, *to, rights);
                proof {
                    Right::lemma_union_empty(given);
                    lemma_caps_map_push(self.capabilities@, cap);
                }
                self.capabilities.push(cap);
            },
        }
    }

    /// The union of the rights that the objects marked by `from` hold on
    /// `to`.
    fn collect_rights_to_object(&self, from: &Vec<bool>, to: Object) -> (rights: Right)
        requires
            self.wf(),
            from@.len() == self.objects@.len(),
        ensures
            rights == self@.gathered(marked(from@), to),
            rights.wf(),
    {
        let mut acc = Right::empty();
        let mut i: usize = 0;
        proof {
            Right::lemma_named_sets();
            Right::lemma_full_includes(Right::read());
            Right::lemma_full_includes(Right::write());
            Right::lemma_full_includes(Right::execute());
        }
        while i < self.capabilities.len()
            invariant
                self.wf(),
                from@.len() == self.objects@.len(),
                i <= self.capabilities@.len(),
                acc.wf(),
                forall|right: Right|
                    right.single() ==> acc.includes(right) == #[trigger] self.fed_before(
                        from@,
                        to,
                        right,
                        i as int,
                    ),
            decreases self.capabilities@.len() - i,
        {
            let cap = &self.capabilities[i];
            let ghost before = acc;
            proof {
                self.lemma_stored(i as int);
            }
            if from[cap.from().id] && cap.to() == to {
                acc = acc | *cap.rights();
                proof {
                    Right::lemma_wf_closed(before, *cap.rights());
                }
            }
            proof {
                assert forall|right: Right| right.single() implies acc.includes(right)
                    == #[trigger] self.fed_before(from@, to, right, i + 1) by {
                    lemma_some_step(self.feeding(from@, to, right), i as int);
                    Right::lemma_union_single(before, *cap.rights(), right);
                    assert(before.includes(right) == self.fed_before(from@, to, right, i as int));
                }
            }
            i += 1;
        }
        proof {
            assert forall|right: Right| #[trigger] right.single() implies acc.includes(right)
                == self@.some_source_holds(marked(from@), to, right) by {
                self.lemma_fed(from@, to, right);
                assert(acc.includes(right) == self.fed_before(from@, to, right, i as int));
            }
            assert(Right::read().single() && Right::write().single() && Right::execute().single());
            Right::lemma_flags(acc);
        }
        acc
    }

    /// The rule `take`: `from` takes, from each object that it can read, the
    /// rights which that object holds on `to`.
    ///
    /// Nothing changes where those objects hold no right on `to`.
    pub fn take(&mut self, from: &Object, to: &Object)
        requires
            old(self).wf(),
        ensures
            final(self).wf(),
            final(self)@ == old(self)@.take(*from, *to),
            old(self)@.objects.subset_of(final(self)@.objects),
    {
        let mut taking_objects = self.no_marks();
        let mut i: usize = 0;
        while i < self.capabilities.len()
            invariant
                self.wf(),
                i <= self.capabilities@.len(),
                taking_objects@.len() == self.objects@.len(),
                forall|id: int|
                    0 <= id < taking_objects@.len() ==> taking_objects@[id]
                        == #[trigger] self.read_before(*from, id, i as int),
            decreases self.capabilities@.len() - i,
        {
            let c = &self.capabilities[i];
            proof {
                self.lemma_stored(i as int);
                assert forall|id: int| #[trigger]
                    self.read_before(*from, id, i + 1) == (self.read_before(*from, id, i as int)
                        || (self.reads(*from, i as int) && c.to().id == id)) by {
                    lemma_some_step(self.reading(*from, id), i as int);
                }
            }
            if c.from() == *from && c.contains(&Right::read()) {
                taking_objects.set(c.to().id, true);
            }
            i += 1;
        }
        proof {
            self.lemma_readable(*from, taking_objects@);
        }
        let new_rights = self.collect_rights_to_object(&taking_objects, *to);

        if new_rights.is_empty() {
            return ;
        }
        proof {
            self@.lemma_taken_between_objects(*from, *to);
        }
        self.insert_or_merge_capability(from, to, new_rights);
    }

    /// The rule `grant`: each object that can write to `from` grants it the
    /// rights which that object holds on `to`.
    ///
    /// Nothing changes where those objects hold no right on `to`.
    pub fn grant(&mut self, from: &Object, to: &Object)
        requires
            old(self).wf(),
        ensures
            final(self).wf(),
            final(self)@ == old(self)@.grant(*from, *to),
            old(self)@.objects.subset_of(final(self)@.objects),
    {
        let mut granting_objects = self.no_marks();
        let mut i: usize = 0;
        while i < self.capabilities.len()
            invariant
                self.wf(),
                i <= self.capabilities@.len(),
                granting_objects@.len() == self.objects@.len(),
                forall|id: int|
                    0 <= id < granting_objects@.len() ==> granting_objects@[id]
                        == #[trigger] self.written_before(*from, id, i as int),
            decreases self.capabilities@.len() - i,
        {
            let cap = &self.capabilities[i];
            proof {
                self.lemma_stored(i as int);
                assert forall|id: int| #[trigger]
                    self.written_before(*from, id, i + 1) == (self.written_before(
                        *from,
                        id,
                        i as int,
                    ) || (self.writes(*from, i as int) && cap.from().id == id)) by {
                    lemma_some_step(self.writing(*from, id), i as int);
                }
            }
            if cap.to() == *from && cap.contains(&Right::write()) {
                granting_objects.set(cap.from().id, true);
            }
            i += 1;
        }
        proof {
            self.lemma_writers(*from, granting_objects@);
        }
        let new_rights = self.collect_rights_to_object(&granting_objects, *to);

        if new_rights.is_empty() {
            return ;
        }
        proof {
            self@.lemma_granted_between_objects(*from, *to);
        }
        self.insert_or_merge_capability(from, to, new_rights);
    }

    /// The rule `call`: `from` calls `to` and passes `para`.
    ///
    /// Nothing changes where `from` holds no capability to `para`. Else a
    /// new object stands for the call: it holds on `para` the rights that
    /// `from` holds on it, and `read` is merged into what it holds on `to`.
    /// Where `to` is `para`, its one capability has the rights of `from` and
    /// `read`.
    ///
    /// `to` must be an object of the graph.
    pub fn call(&mut self, from: Object, to: Object, para: Object)
        requires
            old(self).wf(),
            old(self)@.objects.contains(to),
        ensures
            final(self).wf(),
            !old(self)@.objects.contains(old(self).next_object()),
            final(self)@ == old(self)@.call(from, to, para, old(self).next_object()),
            old(self)@.objects.subset_of(final(self)@.objects),
            old(self)@.caps.contains_key((from, para)) ==> final(self)@.objects.len()
                == old(self)@.objects.len() + 1,
            !old(self)@.caps.contains_key((from, para)) ==> final(self)@ == old(self)@,
    {
        let process = Object { id: self.objects.len() };
        proof {
            self.lemma_next_object_fresh();
        }
        let Some(at) = self.position(from, para) else {
            return ;
        };
        let passed = Capability::new_with_rights(process, para, *self.capabilities[at].rights());
        proof {
            lemma_caps_map_index(self.capabilities@, at as int);
            if self@.caps.contains_key((process, para)) {
                assert(self@.sound(process, para));
            }
            lemma_caps_map_push(self.capabilities@, passed);
            self@.lemma_pass_inv(from, para, process);
        }
        self.capabilities.push(passed);
        self.objects.push(process);
        proof {
            old(self).lemma_pushed_object(self, process);
            assert(self@ == old(self)@.pass(from, para, process));
            Right::lemma_named_sets();
        }
        self.insert_or_merge_capability(&process, &to, Right::read());
    }

    /// The objects of the graph, in the order in which they were issued.
    pub fn objects(&self) -> (objects: &Vec<Object>)
        requires
            self.wf(),
        ensures
            objects@.to_set() == self@.objects,
            objects@.len() == self@.objects.len(),
            forall|i: int| 0 <= i < objects@.len() ==> (#[trigger] objects@[i])@ == i,
    {
        proof {
            self.lemma_objects_listed();
            assert forall|i: int| 0 <= i < self.objects@.len() implies (
            #[trigger] self.objects@[i])@ == i by {
                self.objects@[i].lemma_place();
            }
        }
        &self.objects
    }

    /// The capabilities of the graph: one for each entry of the state's map,
    /// with the rights of that entry.
    pub fn capabilities(&self) -> (capabilities: &Vec<Capability>)
        requires
            self.wf(),
        ensures
            unique_keys(capabilities@),
            caps_map(capabilities@) == self@.caps,
            capabilities@.len() == self@.caps.dom().len(),
    {
        proof {
            lemma_caps_map_len(self.capabilities@);
        }
        &self.capabilities
    }

    /// Whether `a` and `b` are the same object, or a walk along capabilities,
    /// taken in either direction, leads from `a` to `b`.
    ///
    /// The objects connected to `a` are visited breadth first.
    fn is_connected(&self, a: Object, b: Object) -> (found: bool)
        requires
            self.wf(),
        ensures
            found == self@.connected(a, b),
    {
        if a == b {
            proof {
                self@.lemma_connected_grows(a, a, a);
            }
            return true;
        }
        if a.id >= self.objects.len() {
            proof {
                self.lemma_registered(a);
                if self@.connected(a, b) {
                    self@.lemma_connected_objects(a, b);
                }
            }
            return false;
        }
        let mut visited = self.no_marks();
        visited.set(a.id, true);
        let mut queue: Vec<Object> = Vec::new();
        queue.push(a);
        let mut head: usize = 0;
        proof {
            self.lemma_search_starts(a, b, visited@, queue@);
        }
        while head < queue.len()
            invariant
                self.wf(),
                self.searching(a, b, visited@, queue@, head as int),
            decreases self.objects@.len() - head,
        {
            proof {
                self.lemma_queue_bound(queue@);
            }
            let current = queue[head];
            let near = self.neighbors(current);
            let mut k: usize = 0;
            while k < near.len()
                invariant
                    self.wf(),
                    head < queue@.len(),
                    current == queue@[head as int],
                    k <= near@.len(),
                    self.searching(a, b, visited@, queue@, head as int),
                    forall|o: Object| near@.contains(o) <==> self@.adjacent(current, o),
                    forall|m: int| 0 <= m < k ==> marked(visited@).contains(#[trigger] near@[m]),
                decreases near@.len() - k,
            {
                let neighbor = near[k];
                proof {
                    assert(near@.contains(neighbor));
                    self.lemma_neighbor(a, b, visited@, queue@, head as int, neighbor);
                }
                if !visited[neighbor.id] {
                    if neighbor == b {
                        return true;
                    }
                    proof {
                        self.lemma_visit(a, b, visited@, queue@, head as int, neighbor);
                    }
                    visited.set(neighbor.id, true);
                    queue.push(neighbor);
                }
                k += 1;
            }
            proof {
                self.lemma_visited_all(a, b, visited@, queue@, head as int, near@);
            }
            head += 1;
        }
        proof {
            self.lemma_search_over(a, b, visited@, queue@);
        }
        false
    }

    /// The objects that a capability joins to `node`, in one direction or
    /// the other.
    fn neighbors(&self, node: Object) -> (near: Vec<Object>)
        requires
            self.wf(),
        ensures
            forall|o: Object| near@.contains(o) <==> self@.adjacent(node, o),
    {
        let mut near: Vec<Object> = Vec::new();
        let mut i: usize = 0;
        while i < self.capabilities.len()
            invariant
                self.wf(),
                i <= self.capabilities@.len(),
                forall|o: Object| near@.contains(o) <==> self.joined_before(node, o, i as int),
            decreases self.capabilities@.len() - i,
        {
            let cap = &self.capabilities[i];
            let ghost before = near@;
            if cap.from() == node {
                near.push(cap.to());
            } else if cap.to() == node {
                near.push(cap.from());
            }
            proof {
                assert forall|o: Object| near@.contains(o) <==> self.joined_before(
                    node,
                    o,
                    i + 1,
                ) by {
                    lemma_some_step(self.joining(node, o), i as int);
                    if cap.from() == node {
                        lemma_push_contains(before, cap.to(), o);
                    } else if cap.to() == node {
                        lemma_push_contains(before, cap.from(), o);
                    }
                }
            }
            i += 1;
        }
        proof {
            assert forall|o: Object| near@.contains(o) <==> self@.adjacent(node, o) by {
                self.lemma_joined(node, o);
            }
        }
        near
    }

    /// The union of the rights that the objects of the graph hold on `to`.
    fn all_rights_to_object(&self, to: Object) -> (rights: Right)
        requires
            self.wf(),
        ensures
            rights == self@.gathered(self@.objects, to),
            rights.wf(),
    {
        let mut marks: Vec<bool> = Vec::new();
        let mut i: usize = 0;
        while i < self.objects.len()
            invariant
                i <= self.objects@.len(),
                marks@.len() == i,
                forall|j: int| 0 <= j < i ==> #[trigger] marks@[j],
            decreases self.objects@.len() - i,
        {
            marks.push(true);
            i += 1;
        }
        proof {
            assert forall|o: Object| marked(marks@).contains(o) <==> self@.objects.contains(o) by {
                self.lemma_registered(o);
            }
            assert(marked(marks@) =~= self@.objects);
        }
        self.collect_rights_to_object(&marks, to)
    }

    /// Whether rights could reach `to` from `from`: the two are connected
    /// by capabilities, taken in either direction, and some object of the
    /// graph holds a right on `to`.
    ///
    /// The answer is a coarse one: no sequence of rules is searched for.
    pub fn can_operation(&self, from: &Object, to: &Object) -> (b: bool)
        requires
            self.wf(),
        ensures
            b == self@.can_operate(*from, *to),
    {
        if !self.is_connected(*from, *to) {
            return false;
        }
        proof {
            self@.lemma_has_holder(*to);
        }
        self.all_rights_to_object(*to).is_any()
    }
}

/// The objects that `marks` marks: those whose place in the graph holds
/// `true`.
spec fn marked(marks: Seq<bool>) -> Set<Object> {
    Set::new(|o: Object| o.id < marks.len() && marks[o.id as int])
}

/// A list with one more object holds that object and those of before.
proof fn lemma_push_contains(list: Seq<Object>, last: Object, o: Object)
    ensures
        list.push(last).contains(o) <==> list.contains(o) || o == last,
{
    let longer = list.push(last);
    if list.contains(o) {
        let i = choose|i: int| 0 <= i < list.len() && list[i] == o;
        assert(longer[i] == o);
    }
    if o == last {
        assert(longer[list.len() as int] == o);
    }
}

/// `found` holds of some number below `n`.
spec fn some_before(found: spec_fn(int) -> bool, n: int) -> bool {
    exists|j: int| j < n && #[trigger] found(j)
}

/// One more number is in reach: `found` holds of some number below `n + 1`
/// exactly when it holds of one below `n`, or of `n`.
proof fn lemma_some_step(found: spec_fn(int) -> bool, n: int)
    ensures
        some_before(found, n + 1) == (some_before(found, n) || found(n)),
{
    if some_before(found, n + 1) {
        let j = choose|j: int| j < n + 1 && #[trigger] found(j);
        if j < n {
            assert(some_before(found, n));
        }
    }
    if some_before(found, n) {
        let j = choose|j: int| j < n && #[trigger] found(j);
        assert(j < n + 1);
    }
}

/// A number below `n` of which `found` holds, where there is one.
proof fn lemma_some_witness(found: spec_fn(int) -> bool, n: int) -> (j: int)
    requires
        some_before(found, n),
    ensures
        j < n,
        found(j),
{
    choose|j: int| j < n && #[trigger] found(j)
}

impl Graph {
    /// The place of the capability from `from` to `to`, if there is one.
    fn position(&self, from: Object, to: Object) -> (at: Option<usize>)
        requires
            self.wf(),
        ensures
            at.is_some() <==> self@.caps.contains_key((from, to)),
            at matches Some(i) ==> i < self.capabilities@.len()
                && self.capabilities@[i as int].key() == (from, to),
    {
        let mut i: usize = 0;
        while i < self.capabilities.len()
            invariant
                i <= self.capabilities@.len(),
                forall|j: int|
                    0 <= j < i ==> (#[trigger] self.capabilities@[j]).key() != (from, to),
            decreases self.capabilities@.len() - i,
        {
            let cap = &self.capabilities[i];
            if cap.from() == from && cap.to() == to {
                return Some(i);
            }
            i += 1;
        }
        None
    }

    /// A list of `false`, one for each object of the graph.
    fn no_marks(&self) -> (marks: Vec<bool>)
        ensures
            marks@.len() == self.objects@.len(),
            forall|j: int| 0 <= j < marks@.len() ==> !#[trigger] marks@[j],
    {
        let mut marks: Vec<bool> = Vec::new();
        let mut i: usize = 0;
        while i < self.objects.len()
            invariant
                i <= self.objects@.len(),
                marks@.len() == i,
                forall|j: int| 0 <= j < i ==> !#[trigger] marks@[j],
            decreases self.objects@.len() - i,
        {
            marks.push(false);
            i += 1;
        }
        marks
    }

    /// An object belongs to the graph exactly when its handle was issued
    /// before the next one.
    proof fn lemma_registered(&self, object: Object)
        requires
            self.ordered(),
        ensures
            self@.objects.contains(object) <==> object.id < self.objects@.len(),
    {
        if object.id < self.objects@.len() {
            assert(self.objects@[object.id as int].id == object.id);
            assert(self.objects@[object.id as int] == object);
        }
        if self.objects@.contains(object) {
            let i = choose|i: int| 0 <= i < self.objects@.len() && self.objects@[i] == object;
            assert(self.objects@[i].id == i);
        }
    }

    /// No object is listed twice, so the graph has as many objects as its
    /// list is long.
    proof fn lemma_objects_listed(&self)
        requires
            self.ordered(),
        ensures
            self.objects@.no_duplicates(),
            self@.objects.finite(),
            self@.objects.len() == self.objects@.len(),
    {
        assert forall|i: int, j: int|
            0 <= i < self.objects@.len() && 0 <= j < self.objects@.len() && i
                != j implies self.objects@[i] != self.objects@[j] by {
            assert(self.objects@[i].id == i);
            assert(self.objects@[j].id == j);
        }
        self.objects@.unique_seq_to_set();
    }

    /// After one more handle was issued, the objects are those of before
    /// and the new one, and the handles are still in order.
    proof fn lemma_pushed_object(&self, after: &Graph, new: Object)
        requires
            self.ordered(),
            new == self.next_object(),
            after.objects@ == self.objects@.push(new),
        ensures
            after@.objects == self@.objects.insert(new),
            after@.objects.len() == self@.objects.len() + 1,
            forall|i: int| 0 <= i < after.objects@.len() ==> (#[trigger] after.objects@[i]).id == i,
    {
        assert forall|o: Object| after@.objects.contains(o) <==> self@.objects.insert(
            new,
        ).contains(o) by {
            lemma_push_contains(self.objects@, new, o);
        }
        assert(after@.objects =~= self@.objects.insert(new));
        self.lemma_registered(new);
        self.lemma_objects_listed();
    }

    /// The stored capability at `i` is an entry of the state's map, and is
    /// sound.
    proof fn lemma_stored(&self, i: int)
        requires
            self.wf(),
            0 <= i < self.capabilities@.len(),
        ensures
            self@.caps.contains_key(self.capabilities@[i].key()),
            self@.caps[self.capabilities@[i].key()] == *self.capabilities@[i].rights(),
            self@.sound(self.capabilities@[i].from(), self.capabilities@[i].to()),
            self.capabilities@[i].from().id < self.objects@.len(),
            self.capabilities@[i].to().id < self.objects@.len(),
    {
        lemma_caps_map_index(self.capabilities@, i);
        let c = self.capabilities@[i];
        assert(self@.caps.contains_key((c.from(), c.to())));
        self.lemma_registered(c.from());
        self.lemma_registered(c.to());
    }

    /// The capability at `j` lets `from` read.
    spec fn reads(&self, from: Object, j: int) -> bool {
        &&& 0 <= j < self.capabilities@.len()
        &&& self.capabilities@[j].from() == from
        &&& self.capabilities@[j].rights().includes(Right::read())
    }

    /// Whether the capability at a given place lets `from` read the object
    /// at `id`.
    spec fn reading(&self, from: Object, id: int) -> spec_fn(int) -> bool {
        |j: int| self.reads(from, j) && self.capabilities@[j].to().id == id
    }

    /// One of the first `n` capabilities lets `from` read the object at
    /// `id`.
    spec fn read_before(&self, from: Object, id: int, n: int) -> bool {
        some_before(self.reading(from, id), n)
    }

    /// Marks that follow the capabilities which let `from` read mark the
    /// objects that `from` can read.
    proof fn lemma_readable(&self, from: Object, marks: Seq<bool>)
        requires
            self.wf(),
            marks.len() == self.objects@.len(),
            forall|id: int|
                0 <= id < marks.len() ==> marks[id] == #[trigger] self.read_before(
                    from,
                    id,
                    self.capabilities@.len() as int,
                ),
        ensures
            marked(marks) == self@.readable_by(from),
    {
        let n = self.capabilities@.len() as int;
        assert forall|y: Object| marked(marks).contains(y) <==> self@.readable_by(
            from,
        ).contains(y) by {
            if marked(marks).contains(y) {
                assert(self.read_before(from, y.id as int, n));
                let j = lemma_some_witness(self.reading(from, y.id as int), n);
                self.lemma_stored(j);
                assert(self.capabilities@[j].to() == y);
            }
            if self@.readable_by(from).contains(y) {
                let j = key_index(self.capabilities@, (from, y));
                self.lemma_stored(j);
                assert((self.reading(from, y.id as int))(j));
                assert(self.read_before(from, y.id as int, n));
            }
        }
        assert(marked(marks) =~= self@.readable_by(from));
    }

    /// The capability at `j` lets its holder write to `from`.
    spec fn writes(&self, from: Object, j: int) -> bool {
        &&& 0 <= j < self.capabilities@.len()
        &&& self.capabilities@[j].to() == from
        &&& self.capabilities@[j].rights().includes(Right::write())
    }

    /// Whether the capability at a given place lets the object at `id`
    /// write to `from`.
    spec fn writing(&self, from: Object, id: int) -> spec_fn(int) -> bool {
        |j: int| self.writes(from, j) && self.capabilities@[j].from().id == id
    }

    /// One of the first `n` capabilities lets the object at `id` write to
    /// `from`.
    spec fn written_before(&self, from: Object, id: int, n: int) -> bool {
        some_before(self.writing(from, id), n)
    }

    /// Marks that follow the capabilities which let write to `from` mark the
    /// objects that can write to `from`.
    proof fn lemma_writers(&self, from: Object, marks: Seq<bool>)
        requires
            self.wf(),
            marks.len() == self.objects@.len(),
            forall|id: int|
                0 <= id < marks.len() ==> marks[id] == #[trigger] self.written_before(
                    from,
                    id,
                    self.capabilities@.len() as int,
                ),
        ensures
            marked(marks) == self@.writers_of(from),
    {
        let n = self.capabilities@.len() as int;
        assert forall|x: Object| marked(marks).contains(x) <==> self@.writers_of(
            from,
        ).contains(x) by {
            if marked(marks).contains(x) {
                assert(self.written_before(from, x.id as int, n));
                let j = lemma_some_witness(self.writing(from, x.id as int), n);
                self.lemma_stored(j);
                assert(self.capabilities@[j].from() == x);
            }
            if self@.writers_of(from).contains(x) {
                let j = key_index(self.capabilities@, (x, from));
                self.lemma_stored(j);
                assert((self.writing(from, x.id as int))(j));
                assert(self.written_before(from, x.id as int, n));
            }
        }
        assert(marked(marks) =~= self@.writers_of(from));
    }

    /// The capability at `j` leads to `to` from an object that `marks`
    /// marks, and carries every right of `right`.
    spec fn feeds(&self, marks: Seq<bool>, to: Object, right: Right, j: int) -> bool {
        &&& 0 <= j < self.capabilities@.len()
        &&& self.capabilities@[j].to() == to
        &&& self.capabilities@[j].from().id < marks.len()
        &&& marks[self.capabilities@[j].from().id as int]
        &&& self.capabilities@[j].rights().includes(right)
    }

    /// Whether the capability at a given place feeds `right` to `to`.
    spec fn feeding(
        &self,
        marks: Seq<bool>,
        to: Object,
        right: Right,
    ) -> spec_fn(int) -> bool {
        |j: int| self.feeds(marks, to, right, j)
    }

    /// One of the first `n` capabilities leads to `to` from a marked object
    /// and carries every right of `right`.
    spec fn fed_before(&self, marks: Seq<bool>, to: Object, right: Right, n: int) -> bool {
        some_before(self.feeding(marks, to, right), n)
    }

    /// What all the capabilities feed is what the marked objects hold on
    /// `to`.
    proof fn lemma_fed(&self, marks: Seq<bool>, to: Object, right: Right)
        requires
            self.wf(),
            marks.len() == self.objects@.len(),
        ensures
            self.fed_before(marks, to, right, self.capabilities@.len() as int)
                == self@.some_source_holds(marked(marks), to, right),
    {
        let n = self.capabilities@.len() as int;
        if self.fed_before(marks, to, right, n) {
            let j = lemma_some_witness(self.feeding(marks, to, right), n);
            self.lemma_stored(j);
            let y = self.capabilities@[j].from();
            assert(marked(marks).contains(y));
            assert(self@.holds(y, to, right));
        }
        if self@.some_source_holds(marked(marks), to, right) {
            let y = choose|y: Object|
                marked(marks).contains(y) && #[trigger] self@.holds(y, to, right);
            let j = key_index(self.capabilities@, (y, to));
            self.lemma_stored(j);
            assert((self.feeding(marks, to, right))(j));
        }
    }

    /// The capability at `j` joins `node` to `o`: it leads from `node` to
    /// `o`, or from another object `o` to `node`.
    spec fn joins(&self, node: Object, o: Object, j: int) -> bool {
        let cap = self.capabilities@[j];
        &&& 0 <= j < self.capabilities@.len()
        &&& (cap.from() == node && cap.to() == o) || (cap.from() != node && cap.to() == node
            && cap.from() == o)
    }

    /// Whether the capability at a given place joins `node` to `o`.
    spec fn joining(&self, node: Object, o: Object) -> spec_fn(int) -> bool {
        |j: int| self.joins(node, o, j)
    }

    /// One of the first `n` capabilities joins `node` to `o`.
    spec fn joined_before(&self, node: Object, o: Object, n: int) -> bool {
        some_before(self.joining(node, o), n)
    }

    /// The objects that the capabilities join to `node` are its neighbours
    /// in the state.
    proof fn lemma_joined(&self, node: Object, o: Object)
        requires
            self.wf(),
        ensures
            self.joined_before(node, o, self.capabilities@.len() as int) == self@.adjacent(
                node,
                o,
            ),
    {
        let n = self.capabilities@.len() as int;
        if self.joined_before(node, o, n) {
            let j = lemma_some_witness(self.joining(node, o), n);
            self.lemma_stored(j);
        }
        if self@.caps.contains_key((node, o)) {
            let j = key_index(self.capabilities@, (node, o));
            assert((self.joining(node, o))(j));
        } else if self@.caps.contains_key((o, node)) {
            let j = key_index(self.capabilities@, (o, node));
            assert((self.joining(node, o))(j));
        }
    }

    /// What holds while the objects connected to `a` are searched for `b`:
    /// the marked objects are those of `queue`, each is connected to `a`, and
    /// the neighbours of the first `done` of them are marked. `a` is marked
    /// and `b` is not.
    spec fn searching(
        &self,
        a: Object,
        b: Object,
        visited: Seq<bool>,
        queue: Seq<Object>,
        done: int,
    ) -> bool {
        &&& visited.len() == self.objects@.len()
        &&& 0 <= done <= queue.len()
        &&& queue.no_duplicates()
        &&& forall|k: int| 0 <= k < queue.len() ==> marked(visited).contains(#[trigger] queue[k])
        &&& forall|o: Object| #[trigger]
            marked(visited).contains(o) ==> queue.contains(o) && self@.connected(a, o)
        &&& forall|k: int, o: Object|
            0 <= k < done && #[trigger] self@.adjacent(queue[k], o) ==> marked(visited).contains(
                o,
            )
        &&& marked(visited).contains(a)
        &&& !marked(visited).contains(b)
    }

    /// The search starts with `a` alone marked and queued.
    proof fn lemma_search_starts(
        &self,
        a: Object,
        b: Object,
        visited: Seq<bool>,
        queue: Seq<Object>,
    )
        requires
            a != b,
            a.id < self.objects@.len(),
            visited.len() == self.objects@.len(),
            forall|j: int| 0 <= j < visited.len() ==> visited[j] == (j == a.id),
            queue.len() == 1,
            queue[0] == a,
        ensures
            self.searching(a, b, visited, queue, 0),
    {
        self@.lemma_connected_grows(a, a, a);
        assert forall|o: Object| #[trigger] marked(visited).contains(o) implies queue.contains(o)
            && self@.connected(a, o) by {
            assert(o.id == a.id);
        }
    }

    /// A neighbour of a queued object is an object of the graph, and is
    /// connected to `a`.
    proof fn lemma_neighbor(
        &self,
        a: Object,
        b: Object,
        visited: Seq<bool>,
        queue: Seq<Object>,
        done: int,
        neighbor: Object,
    )
        requires
            self.wf(),
            self.searching(a, b, visited, queue, done),
            done < queue.len(),
            self@.adjacent(queue[done], neighbor),
        ensures
            neighbor.id < visited.len(),
            self@.connected(a, neighbor),
    {
        let current = queue[done];
        assert(marked(visited).contains(current));
        self@.lemma_connected_grows(a, current, neighbor);
        if self@.caps.contains_key((current, neighbor)) {
            assert(self@.sound(current, neighbor));
        } else {
            assert(self@.sound(neighbor, current));
        }
        self.lemma_registered(neighbor);
    }

    /// Marking and queueing an unmarked object that is connected to `a`, and
    /// is not `b`, keeps the search in order and unmarks nothing.
    proof fn lemma_visit(
        &self,
        a: Object,
        b: Object,
        visited: Seq<bool>,
        queue: Seq<Object>,
        done: int,
        neighbor: Object,
    )
        requires
            self.searching(a, b, visited, queue, done),
            neighbor.id < visited.len(),
            !visited[neighbor.id as int],
            neighbor != b,
            self@.connected(a, neighbor),
        ensures
            self.searching(
                a,
                b,
                visited.update(neighbor.id as int, true),
                queue.push(neighbor),
                done,
            ),
            forall|o: Object|
                marked(visited).contains(o) ==> #[trigger] marked(
                    visited.update(neighbor.id as int, true),
                ).contains(o),
            marked(visited.update(neighbor.id as int, true)).contains(neighbor),
    {
        let seen = visited.update(neighbor.id as int, true);
        let line = queue.push(neighbor);
        assert forall|o: Object| #[trigger] marked(seen).contains(o) implies marked(
            visited,
        ).contains(o) || o == neighbor by {}
        assert forall|o: Object| #[trigger] marked(seen).contains(o) implies line.contains(o)
            && self@.connected(a, o) by {
            lemma_push_contains(queue, neighbor, o);
        }
        assert(!queue.contains(neighbor));
        assert forall|k: int| 0 <= k < line.len() implies marked(seen).contains(
            #[trigger] line[k],
        ) by {
            if k < queue.len() {
                assert(line[k] == queue[k]);
            }
        }
        assert forall|k: int, o: Object|
            0 <= k < done && #[trigger] self@.adjacent(line[k], o) implies marked(seen).contains(
            o,
        ) by {
            assert(self@.adjacent(queue[k], o));
        }
    }

    /// Once every neighbour of the next queued object is marked, that
    /// object is done.
    proof fn lemma_visited_all(
        &self,
        a: Object,
        b: Object,
        visited: Seq<bool>,
        queue: Seq<Object>,
        done: int,
        near: Seq<Object>,
    )
        requires
            self.searching(a, b, visited, queue, done),
            done < queue.len(),
            forall|o: Object| near.contains(o) <==> self@.adjacent(queue[done], o),
            forall|m: int| 0 <= m < near.len() ==> marked(visited).contains(#[trigger] near[m]),
        ensures
            self.searching(a, b, visited, queue, done + 1),
    {
        assert forall|k: int, o: Object|
            0 <= k < done + 1 && #[trigger] self@.adjacent(queue[k], o) implies marked(
            visited,
        ).contains(o) by {
            if k == done {
                assert(near.contains(o));
                let m = choose|m: int| 0 <= m < near.len() && near[m] == o;
                assert(marked(visited).contains(near[m]));
            }
        }
    }

    /// Once every queued object is done, the marked objects are all that is
    /// connected to `a`, and `b` is not among them.
    proof fn lemma_search_over(&self, a: Object, b: Object, visited: Seq<bool>, queue: Seq<Object>)
        requires
            self.searching(a, b, visited, queue, queue.len() as int),
        ensures
            !self@.connected(a, b),
    {
        let within = marked(visited);
        assert forall|x: Object, y: Object|
            within.contains(x) && #[trigger] self@.adjacent(x, y) implies within.contains(y) by {
            assert(queue.contains(x));
            let k = choose|k: int| 0 <= k < queue.len() && queue[k] == x;
            assert(self@.adjacent(queue[k], y));
        }
        if self@.connected(a, b) {
            self@.lemma_connected_within(within, a, b);
        }
    }

    /// A list of different objects of the graph is no longer than the list
    /// of all its objects.
    proof fn lemma_queue_bound(&self, queue: Seq<Object>)
        requires
            self.wf(),
            queue.no_duplicates(),
            forall|k: int|
                0 <= k < queue.len() ==> (#[trigger] queue[k]).id < self.objects@.len(),
        ensures
            queue.len() <= self.objects@.len(),
    {
        self.lemma_objects_listed();
        queue.unique_seq_to_set();
        assert forall|o: Object| queue.to_set().contains(o) implies self@.objects.contains(o) by {
            let k = choose|k: int| 0 <= k < queue.len() && queue[k] == o;
            assert(queue[k].id < self.objects@.len());
            self.lemma_registered(o);
        }
        vstd::set_lib::lemma_len_subset(queue.to_set(), self@.objects);
    }
}

} // verus!
