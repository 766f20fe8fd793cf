//! What holds of the rules, whatever the state and the objects that they are
//! applied to.
use crate::object::Object;
use crate::right::Right;
use crate::state::State;
use vstd::prelude::*;

verus! {

impl State {
    /// Every rule keeps the invariant of states. So every capability of a
    /// state that a graph reaches joins two of its objects and has some
    /// right.
    pub proof fn lemma_rules_keep_inv(
        self,
        from: Object,
        to: Object,
        para: Object,
        fresh: Object,
    )
        requires
            self.inv(),
        ensures
            self.add_object(fresh).inv(),
            self.objects.contains(from) ==> self.create(from, fresh).inv(),
            self.remove(from, to).inv(),
            self.take(from, to).inv(),
            self.grant(from, to).inv(),
            self.objects.contains(to) ==> self.call(from, to, para, fresh).inv(),
    {
        self.lemma_add_object_inv(fresh);
        if self.objects.contains(from) {
            self.lemma_create_inv(from, fresh);
        }
        self.lemma_remove_inv(from, to);
        self.lemma_take_inv(from, to);
        self.lemma_grant_inv(from, to);
        if self.objects.contains(to) {
            self.lemma_call_inv(from, to, para, fresh);
        }
    }

    /// No rule takes an object away: after each rule the graph has the
    /// objects of before, and at least as many.
    pub proof fn lemma_objects_stay(self, from: Object, to: Object, para: Object, fresh: Object)
        requires
            self.inv(),
        ensures
            self.objects.subset_of(self.add_object(fresh).objects),
            self.objects.subset_of(self.create(from, fresh).objects),
            self.objects.subset_of(self.remove(from, to).objects),
            self.objects.subset_of(self.take(from, to).objects),
            self.objects.subset_of(self.grant(from, to).objects),
            self.objects.subset_of(self.call(from, to, para, fresh).objects),
            self.objects.len() <= self.add_object(fresh).objects.len(),
            self.objects.len() <= self.create(from, fresh).objects.len(),
            self.objects.len() <= self.remove(from, to).objects.len(),
            self.objects.len() <= self.take(from, to).objects.len(),
            self.objects.len() <= self.grant(from, to).objects.len(),
            self.objects.len() <= self.call(from, to, para, fresh).objects.len(),
    {
        vstd::set_lib::lemma_len_subset(self.objects, self.objects.insert(fresh));
    }

    /// `remove` changes nothing where there is no capability from `from` to
    /// `to`, and a second `remove` changes nothing after the first.
    pub proof fn lemma_remove_once(self, from: Object, to: Object)
        ensures
            !self.caps.contains_key((from, to)) ==> self.remove(from, to) == self,
            self.remove(from, to).remove(from, to) == self.remove(from, to),
            !self.remove(from, to).caps.contains_key((from, to)),
    {
        let once = self.caps.remove((from, to));
        if !self.caps.contains_key((from, to)) {
            assert(once =~= self.caps);
        }
        assert(once.remove((from, to)) =~= once);
    }

    /// `create` gives the graph one object and one capability more, and the
    /// new capability has all rights.
    pub proof fn lemma_create_counts(self, subject: Object, fresh: Object)
        requires
            self.inv(),
            !self.objects.contains(fresh),
        ensures
            self.create(subject, fresh).objects.len() == self.objects.len() + 1,
            self.create(subject, fresh).caps.dom().len() == self.caps.dom().len() + 1,
            self.create(subject, fresh).caps[(subject, fresh)] == Right::full(),
    {
        if self.caps.contains_key((subject, fresh)) {
            assert(self.sound(subject, fresh));
        }
    }

    /// `call` changes nothing where `from` holds no capability to `para`.
    /// Else it gives the graph one object more, which holds on `para` the
    /// rights of `from` and on `to` the right to read: two capabilities more,
    /// or one with both sets of rights where `to` is `para`.
    pub proof fn lemma_call_counts(
        self,
        from: Object,
        to: Object,
        para: Object,
        process: Object,
    )
        requires
            self.inv(),
            !self.objects.contains(process),
        ensures
            !self.caps.contains_key((from, para)) ==> self.call(from, to, para, process) == self,
            self.caps.contains_key((from, para)) ==> {
                let after = self.call(from, to, para, process);
                let passed = self.caps[(from, para)];
                &&& after.objects == self.objects.insert(process)
                &&& after.objects.len() == self.objects.len() + 1
                &&& to == para ==> {
                    &&& after.caps.dom().len() == self.caps.dom().len() + 1
                    &&& after.caps[(process, para)] == passed.union(Right::read())
                }
                &&& to != para ==> {
                    &&& after.caps.dom().len() == self.caps.dom().len() + 2
                    &&& after.caps[(process, para)] == passed
                    &&& after.caps[(process, to)] == Right::read()
                }
            },
    {
        if self.caps.contains_key((from, para)) {
            let between = self.pass(from, para, process);
            if self.caps.contains_key((process, para)) {
                assert(self.sound(process, para));
            }
            if self.caps.contains_key((process, to)) {
                assert(self.sound(process, to));
            }
            assert(between.caps.dom() =~= self.caps.dom().insert((process, para)));
            Right::lemma_union_empty(Right::read());
        }
    }

    /// An object can operate on itself exactly when some object of the
    /// graph, which may be that object, holds a right on it.
    pub proof fn lemma_can_operate_on_itself(self, x: Object)
        ensures
            self.can_operate(x, x) == self.has_holder(x),
    {
        self.lemma_connected_grows(x, x, x);
    }

    /// Merging rights takes no capability away and no right out of one.
    pub proof fn lemma_merge_grows(self, from: Object, to: Object, rights: Right)
        ensures
            forall|a: Object, b: Object| #[trigger]
                self.caps.contains_key((a, b)) ==> self.merge(from, to, rights).holds(
                    a,
                    b,
                    self.caps[(a, b)],
                ),
    {
        let after = self.merge(from, to, rights);
        assert forall|a: Object, b: Object| #[trigger]
            self.caps.contains_key((a, b)) implies after.holds(a, b, self.caps[(a, b)]) by {
            let held = self.caps[(a, b)];
            Right::lemma_includes_order(held, held, held);
            if (a, b) == (from, to) {
                Right::lemma_union_includes(held, rights, held);
            }
        }
    }

    /// `take` and `grant` are monotone: they take no capability away and no
    /// right out of one.
    pub proof fn lemma_take_grant_grow(self, from: Object, to: Object)
        ensures
            forall|a: Object, b: Object| #[trigger]
                self.caps.contains_key((a, b)) ==> {
                    &&& self.take(from, to).holds(a, b, self.caps[(a, b)])
                    &&& self.grant(from, to).holds(a, b, self.caps[(a, b)])
                },
    {
        self.lemma_merge_grows(from, to, self.taken(from, to));
        self.lemma_merge_grows(from, to, self.granted(from, to));
        assert forall|a: Object, b: Object| #[trigger]
            self.caps.contains_key((a, b)) implies self.holds(a, b, self.caps[(a, b)]) by {
            let held = self.caps[(a, b)];
            Right::lemma_includes_order(held, held, held);
        }
    }

    /// Merging rights that `from` holds on `to` already changes nothing.
    pub proof fn lemma_merge_held(self, from: Object, to: Object, rights: Right)
        requires
            self.rights(from, to).includes(rights),
            !rights.none(),
        ensures
            self.merge(from, to, rights) == self,
    {
        let held = self.rights(from, to);
        Right::lemma_full_includes(rights);
        Right::lemma_union_includes(held, rights, held);
        Right::lemma_includes_order(held, held, held);
        Right::lemma_includes_order(held, held.union(rights), held);
        assert(self.caps.insert((from, to), held) =~= self.caps);
    }

    /// A second `grant` changes nothing after the first.
    pub proof fn lemma_grant_once(self, from: Object, to: Object)
        requires
            self.inv(),
        ensures
            self.grant(from, to).grant(from, to) == self.grant(from, to),
    {
        let first = self.granted(from, to);
        if !first.none() {
            let after = self.grant(from, to);
            let held = self.rights(from, to);
            let reached = after.rights(from, to);
            let second = after.granted(from, to);
            self.lemma_gathered(self.writers_of(from), to);
            after.lemma_gathered(after.writers_of(from), to);
            assert forall|right: Right|
                right.single() && second.includes(right) implies #[trigger] reached.includes(
                right,
            ) by {
                after.lemma_gathered_single(after.writers_of(from), to, right);
                Right::lemma_union_single(held, first, right);
                let x = choose|x: Object|
                    after.writers_of(from).contains(x) && #[trigger] after.holds(x, to, right);
                if x != from {
                    assert(self.holds(x, to, right));
                    assert(after.holds(x, from, Right::write()));
                    assert(self.writers_of(from).contains(x));
                    self.lemma_gathered_single(self.writers_of(from), to, right);
                }
            }
            Right::lemma_includes_by_singles(reached, second);
            if !second.none() {
                after.lemma_merge_held(from, to, second);
            }
        }
    }

    /// The one way in which a second `take` brings more than the first: the
    /// first lets `from` read `to`, which it could not before, and `to`
    /// holds on itself a right that `from` does not hold on it after the
    /// first.
    pub open spec fn take_opens_more(self, from: Object, to: Object) -> bool {
        &&& from != to
        &&& !self.holds(from, to, Right::read())
        &&& self.take(from, to).holds(from, to, Right::read())
        &&& self.caps.contains_key((to, to))
        &&& !self.take(from, to).rights(from, to).includes(self.caps[(to, to)])
    }

    /// A second `take` changes nothing after the first, but where the first
    /// opens more: there, and only there, the second brings a further
    /// right.
    pub proof fn lemma_take_once(self, from: Object, to: Object)
        requires
            self.inv(),
        ensures
            self.take(from, to).take(from, to) == self.take(from, to) <==> !self.take_opens_more(
                from,
                to,
            ),
    {
        let first = self.taken(from, to);
        if !first.none() {
            let after = self.take(from, to);
            let held = self.rights(from, to);
            let reached = after.rights(from, to);
            let second = after.taken(from, to);
            self.lemma_gathered(self.readable_by(from), to);
            after.lemma_gathered(after.readable_by(from), to);
            if !self.take_opens_more(from, to) {
                assert forall|right: Right|
                    right.single() && second.includes(right) implies #[trigger] reached.includes(
                    right,
                ) by {
                    after.lemma_gathered_single(after.readable_by(from), to, right);
                    Right::lemma_union_single(held, first, right);
                    let y = choose|y: Object|
                        after.readable_by(from).contains(y) && #[trigger] after.holds(y, to, right);
                    assert(after.holds(from, y, Right::read()));
                    if y != from {
                        assert(self.holds(y, to, right));
                        if self.holds(from, y, Right::read()) {
                            assert(self.readable_by(from).contains(y));
                            self.lemma_gathered_single(self.readable_by(from), to, right);
                        } else {
                            assert(y == to);
                            Right::lemma_includes_order(reached, self.caps[(to, to)], right);
                        }
                    }
                }
                Right::lemma_includes_by_singles(reached, second);
                if !second.none() {
                    after.lemma_merge_held(from, to, second);
                }
            } else {
                let own = self.caps[(to, to)];
                assert(self.sound(to, to));
                if forall|right: Right|
                    right.single() && own.includes(right) ==> #[trigger] reached.includes(right) {
                    Right::lemma_includes_by_singles(reached, own);
                }
                let right = choose|right: Right|
                    right.single() && own.includes(right) && !#[trigger] reached.includes(right);
                assert(after.readable_by(from).contains(to));
                assert(after.holds(to, to, right));
                after.lemma_gathered_single(after.readable_by(from), to, right);
                Right::lemma_none_is_empty(second);
                Right::lemma_full_includes(right);
                Right::lemma_named_sets();
                Right::lemma_union_single(reached, second, right);
                assert(after.take(from, to).caps[(from, to)].includes(right));
                assert(after.caps[(from, to)] == reached);
            }
        }
    }
}

} // verus!
