//! Lists of capabilities, read as maps from end points to rights.
use crate::capability::Capability;
use crate::object::Object;
use crate::right::Right;
use vstd::prelude::*;

verus! {

/// A capability of `caps` has the end points `key`.
pub open spec fn has_key(caps: Seq<Capability>, key: (Object, Object)) -> bool {
    exists|i: int| 0 <= i < caps.len() && (#[trigger] caps[i]).key() == key
}

/// The place in `caps` of a capability with the end points `key`.
pub open spec fn key_index(caps: Seq<Capability>, key: (Object, Object)) -> int {
    choose|i: int| 0 <= i < caps.len() && (#[trigger] caps[i]).key() == key
}

/// No two capabilities of `caps` have the same end points.
pub open spec fn unique_keys(caps: Seq<Capability>) -> bool {
    forall|i: int, j: int|
        0 <= i < j < caps.len() ==> (#[trigger] caps[i]).key() != (#[trigger] caps[j]).key()
}

/// The rights of the capabilities of `caps`, by their end points.
pub open spec fn caps_map(caps: Seq<Capability>) -> Map<(Object, Object), Right> {
    Map::new(
        |key: (Object, Object)| has_key(caps, key),
        |key: (Object, Object)| *caps[key_index(caps, key)].rights(),
    )
}

/// In a list without two capabilities of the same end points, each one is
/// found in the map under its end points, with its rights.
pub proof fn lemma_caps_map_index(caps: Seq<Capability>, i: int)
    requires
        unique_keys(caps),
        0 <= i < caps.len(),
    ensures
        caps_map(caps).contains_key(caps[i].key()),
        caps_map(caps)[caps[i].key()] == *caps[i].rights(),
        key_index(caps, caps[i].key()) == i,
{
    let j = key_index(caps, caps[i].key());
    if i < j {
        assert(caps[i].key() != caps[j].key());
    } else if j < i {
        assert(caps[j].key() != caps[i].key());
    }
}

/// A capability added at the end, with end points that the list does not
/// hold yet, is one more entry of the map.
pub proof fn lemma_caps_map_push(caps: Seq<Capability>, cap: Capability)
    requires
        unique_keys(caps),
        !caps_map(caps).contains_key(cap.key()),
    ensures
        unique_keys(caps.push(cap)),
        caps_map(caps.push(cap)) == caps_map(caps).insert(cap.key(), *cap.rights()),
{
    let after = caps.push(cap);
    let expected = caps_map(caps).insert(cap.key(), *cap.rights());
    assert(unique_keys(after)) by {
        assert forall|i: int, j: int| 0 <= i < j < after.len() implies (#[trigger] after[i]).key()
            != (#[trigger] after[j]).key() by {
            assert(after[i] == caps[i]);
            if j < caps.len() {
                assert(after[j] == caps[j]);
            }
        }
    }
    assert forall|key: (Object, Object)| caps_map(after).contains_key(key) implies #[trigger]
        expected.contains_key(key) by {
        let i = key_index(after, key);
        if i < caps.len() {
            assert(caps[i].key() == key);
        }
    }
    assert forall|key: (Object, Object)| #[trigger] expected.contains_key(key) implies caps_map(
        after,
    ).contains_key(key) && caps_map(after)[key] == expected[key] by {
        let i = if key == cap.key() {
            caps.len() as int
        } else {
            key_index(caps, key)
        };
        assert(after[i].key() == key);
        lemma_caps_map_index(after, i);
        if key != cap.key() {
            lemma_caps_map_index(caps, i);
        }
    }
    assert(caps_map(after) =~= expected);
}

/// A capability put in the place of one with the same end points changes
/// the rights of that entry of the map.
pub proof fn lemma_caps_map_update(caps: Seq<Capability>, at: int, cap: Capability)
    requires
        unique_keys(caps),
        0 <= at < caps.len(),
        caps[at].key() == cap.key(),
    ensures
        unique_keys(caps.update(at, cap)),
        caps_map(caps.update(at, cap)) == caps_map(caps).insert(cap.key(), *cap.rights()),
{
    let after = caps.update(at, cap);
    let expected = caps_map(caps).insert(cap.key(), *cap.rights());
    assert(unique_keys(after)) by {
        assert forall|i: int, j: int| 0 <= i < j < after.len() implies (#[trigger] after[i]).key()
            != (#[trigger] after[j]).key() by {
            assert(after[i].key() == caps[i].key());
            assert(after[j].key() == caps[j].key());
        }
    }
    assert forall|key: (Object, Object)| caps_map(after).contains_key(key) implies #[trigger]
        expected.contains_key(key) by {
        let i = key_index(after, key);
        assert(caps[i].key() == key);
    }
    assert forall|key: (Object, Object)| #[trigger] expected.contains_key(key) implies caps_map(
        after,
    ).contains_key(key) && caps_map(after)[key] == expected[key] by {
        let i = if key == cap.key() {
            at
        } else {
            key_index(caps, key)
        };
        assert(after[i].key() == key);
        lemma_caps_map_index(after, i);
        if key != cap.key() {
            lemma_caps_map_index(caps, i);
        }
    }
    assert(caps_map(after) =~= expected);
}

/// A capability taken out of the list is an entry less in the map.
pub proof fn lemma_caps_map_remove(caps: Seq<Capability>, at: int)
    requires
        unique_keys(caps),
        0 <= at < caps.len(),
    ensures
        unique_keys(caps.remove(at)),
        caps_map(caps.remove(at)) == caps_map(caps).remove(caps[at].key()),
{
    let after = caps.remove(at);
    let expected = caps_map(caps).remove(caps[at].key());
    // The place in `caps` of what stands at `i` in `after`.
    let before = |i: int| if i < at { i } else { i + 1 };
    assert forall|i: int| 0 <= i < after.len() implies #[trigger] after[i] == caps[before(i)] by {}
    assert(unique_keys(after)) by {
        assert forall|i: int, j: int| 0 <= i < j < after.len() implies (#[trigger] after[i]).key()
            != (#[trigger] after[j]).key() by {
            assert(caps[before(i)].key() != caps[before(j)].key());
        }
    }
    assert forall|key: (Object, Object)| caps_map(after).contains_key(key) implies #[trigger]
        expected.contains_key(key) by {
        let i = before(key_index(after, key));
        assert(caps[i].key() == key);
        if i < at {
            assert(caps[i].key() != caps[at].key());
        } else {
            assert(caps[at].key() != caps[i].key());
        }
    }
    assert forall|key: (Object, Object)| #[trigger] expected.contains_key(key) implies caps_map(
        after,
    ).contains_key(key) && caps_map(after)[key] == expected[key] by {
        let i = key_index(caps, key);
        let moved = if i < at { i } else { i - 1 };
        assert(after[moved] == caps[i]);
        lemma_caps_map_index(after, moved);
        lemma_caps_map_index(caps, i);
    }
    assert(caps_map(after) =~= expected);
}

/// The map of a list without two capabilities of the same end points has as
/// many entries as the list has capabilities.
pub proof fn lemma_caps_map_len(caps: Seq<Capability>)
    requires
        unique_keys(caps),
    ensures
        caps_map(caps).dom().finite(),
        caps_map(caps).dom().len() == caps.len(),
    decreases caps.len(),
{
    if caps.len() == 0 {
        assert(caps_map(caps).dom() =~= Set::empty());
    } else {
        let last = caps.len() - 1;
        let front = caps.remove(last);
        lemma_caps_map_remove(caps, last);
        lemma_caps_map_len(front);
        lemma_caps_map_index(caps, last);
        assert(caps_map(caps).dom() =~= caps_map(front).dom().insert(caps[last].key()));
    }
}

} // verus!
