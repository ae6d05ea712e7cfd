//! A map from texts to values that is walked in the order of the texts.
use vstd::prelude::*;

use crate::text::{at_or_before, same_text, text_le};
use crate::text::{law_text_order_is_total, law_text_order_is_transitive};

verus! {

/// A map from texts to values that is walked in the order of the texts.
#[derive(Debug)]
pub struct TextMap<V> {
    entries: Vec<(String, V)>,
}

/// The keys stand in order and none stands twice.
pub open spec fn strictly_ordered(keys: Seq<Seq<char>>) -> bool {
    forall|i: int, j: int|
        0 <= i < j < keys.len() ==> text_le(#[trigger] keys[i], #[trigger] keys[j]) && keys[i]
            != keys[j]
}

impl<V> TextMap<V> {
    /// The keys, in the order in which they are walked.
    pub closed spec fn keys(self) -> Seq<Seq<char>> {
        self.entries@.map_values(|entry: (String, V)| entry.0@)
    }

    /// The values, in the order of their keys.
    pub closed spec fn values(self) -> Seq<V> {
        self.entries@.map_values(|entry: (String, V)| entry.1)
    }

    /// The keys are in order, each stands once, and each has a value.
    pub open spec fn well_formed(self) -> bool {
        strictly_ordered(self.keys()) && self.values().len() == self.keys().len()
    }

    /// The map from keys to values.
    pub open spec fn map(self) -> Map<Seq<char>, V> {
        Map::new(
            |key: Seq<char>| self.keys().contains(key),
            |key: Seq<char>| self.values()[self.keys().index_of(key)],
        )
    }

    /// A map that holds nothing.
    pub fn new() -> (r: Self)
        ensures
            r.well_formed(),
            r.keys() == Seq::<Seq<char>>::empty(),
            r.values() == Seq::<V>::empty(),
            r.map() == Map::<Seq<char>, V>::empty(),
    {
        let r = TextMap { entries: Vec::new() };
        assert(r.keys() =~= Seq::<Seq<char>>::empty());
        assert(r.values() =~= Seq::<V>::empty());
        assert(r.map() =~= Map::<Seq<char>, V>::empty());
        r
    }

    /// How many keys there are.
    pub fn len(&self) -> (n: usize)
        ensures
            n == self.keys().len(),
            n == self.values().len(),
    {
        self.entries.len()
    }

    /// The key at a place.
    pub fn key(&self, i: usize) -> (r: &str)
        requires
            i < self.keys().len(),
        ensures
            r@ == self.keys()[i as int],
    {
        self.entries[i].0.as_str()
    }

    /// The value at a place.
    pub fn value(&self, i: usize) -> (r: &V)
        requires
            i < self.values().len(),
        ensures
            *r == self.values()[i as int],
    {
        &self.entries[i].1
    }

    /// The value at a place, to be changed.
    pub fn value_mut(&mut self, i: usize) -> (r: &mut V)
        requires
            i < old(self).values().len(),
        ensures
            *r == old(self).values()[i as int],
            final(self).keys() == old(self).keys(),
            final(self).values() == old(self).values().update(i as int, *final(r)),
    {
        &mut self.entries[i].1
    }

    /// The place of a key that is there.
    pub fn find(&self, key: &str) -> (r: Option<usize>)
        requires
            self.well_formed(),
        ensures
            match r {
                Some(i) => i < self.keys().len() && self.keys()[i as int] == key@
                    && self.map().contains_key(key@) && self.map()[key@]
                    == self.values()[i as int],
                None => !self.map().contains_key(key@),
            },
    {
        let i = self.place(key);
        if i < self.entries.len() && same_text(key, self.entries[i].0.as_str()) {
            proof {
                lemma_place_of_key(*self, i as int);
            }
            Some(i)
        } else {
            proof {
                if self.keys().contains(key@) {
                    let j = choose|j: int| 0 <= j < self.keys().len() && self.keys()[j] == key@;
                    law_text_order_is_total(key@, key@);
                    if j > i {
                        assert(text_le(self.keys()[i as int], self.keys()[j]));
                        assert(text_le(key@, self.keys()[i as int]));
                        law_text_order_is_total(key@, self.keys()[i as int]);
                    }
                }
            }
            None
        }
    }

    /// Makes sure that a key is there, with the given value where it is new,
    /// and says at which place.
    pub fn ensure(&mut self, key: &str, fresh: V) -> (i: usize)
        requires
            old(self).well_formed(),
        ensures
            final(self).well_formed(),
            i < final(self).keys().len(),
            final(self).keys()[i as int] == key@,
            final(self).map() == (if old(self).map().contains_key(key@) {
                old(self).map()
            } else {
                old(self).map().insert(key@, fresh)
            }),
            final(self).values()[i as int] == final(self).map()[key@],
            old(self).map().contains_key(key@) ==> *final(self) == *old(self),
            !old(self).map().contains_key(key@) ==> i <= old(self).keys().len()
                && final(self).keys() == old(self).keys().insert(i as int, key@)
                && final(self).values() == old(self).values().insert(i as int, fresh),
    {
        if let Some(i) = self.find(key) {
            return i;
        }
        let i = self.place(key);
        let ghost keys = self.keys();
        let ghost values = self.values();
        let ghost map = self.map();
        self.entries.insert(i, (key.to_string(), fresh));
        proof {
            assert(self.keys() =~= keys.insert(i as int, key@));
            assert(self.values() =~= values.insert(i as int, fresh));
            assert(!keys.contains(key@));
            assert forall|a: int, b: int| 0 <= a < b < self.keys().len() implies text_le(
                #[trigger] self.keys()[a],
                #[trigger] self.keys()[b],
            ) && self.keys()[a] != self.keys()[b] by {
                if b == i {
                    law_text_order_is_total(key@, keys[a]);
                } else if a == i {
                    assert(self.keys()[b] == keys[b - 1]);
                } else {
                    let x = if a < i {
                        a
                    } else {
                        a - 1
                    };
                    let y = if b < i {
                        b
                    } else {
                        b - 1
                    };
                    assert(self.keys()[a] == keys[x] && self.keys()[b] == keys[y]);
                }
            }
            assert forall|k: Seq<char>| self.map().contains_key(k) <==> map.insert(
                key@,
                fresh,
            ).contains_key(k) by {
                if keys.contains(k) {
                    let j = choose|j: int| 0 <= j < keys.len() && keys[j] == k;
                    assert(self.keys()[if j < i {
                        j
                    } else {
                        j + 1
                    }] == k);
                }
                if self.keys().contains(k) {
                    let j = choose|j: int| 0 <= j < self.keys().len() && self.keys()[j] == k;
                    if j < i {
                        assert(keys[j] == k);
                    } else if j > i {
                        assert(keys[j - 1] == k);
                    }
                }
                assert(self.keys()[i as int] == key@);
            }
            assert forall|k: Seq<char>| #[trigger] self.map().contains_key(k) implies self.map()[k]
                == map.insert(key@, fresh)[k] by {
                let j = self.keys().index_of(k);
                let at = choose|at: int| 0 <= at < self.keys().len() && self.keys()[at] == k;
                lemma_place_of_key(*self, at);
                if at == i {
                } else {
                    let was = if at < i {
                        at
                    } else {
                        at - 1
                    };
                    assert(keys[was] == k);
                    lemma_index_by_order(keys, was);
                    assert(values[was] == self.values()[at]);
                }
            }
            assert(self.map() =~= map.insert(key@, fresh));
        }
        i
    }

    /// The place of the first key that does not stand before the given one.
    pub fn place(&self, key: &str) -> (i: usize)
        requires
            self.well_formed(),
        ensures
            i <= self.keys().len(),
            forall|j: int| 0 <= j < i ==> !text_le(key@, #[trigger] self.keys()[j]),
            forall|j: int| i <= j < self.keys().len() ==> text_le(key@, #[trigger] self.keys()[j]),
    {
        let mut i: usize = 0;
        while i < self.entries.len() && !at_or_before(key, self.entries[i].0.as_str())
            invariant
                i <= self.keys().len() == self.entries@.len(),
                forall|j: int| 0 <= j < i ==> !text_le(key@, #[trigger] self.keys()[j]),
            decreases self.entries@.len() - i,
        {
            i += 1;
        }
        proof {
            assert forall|j: int| i <= j < self.keys().len() implies text_le(
                key@,
                #[trigger] self.keys()[j],
            ) by {
                if j > i {
                    law_text_order_is_transitive(key@, self.keys()[i as int], self.keys()[j]);
                }
            }
        }
        i
    }
}

/// A key that stands once is found where it stands.
proof fn lemma_index_by_order(keys: Seq<Seq<char>>, i: int)
    requires
        strictly_ordered(keys),
        0 <= i < keys.len(),
    ensures
        keys.contains(keys[i]),
        keys.index_of(keys[i]) == i,
{
    let j = keys.index_of(keys[i]);
    assert(keys[j] == keys[i]) by {
        assert(keys.contains(keys[i]));
    }
    if j < i {
        assert(keys[j] != keys[i]);
    } else if i < j {
        assert(keys[i] != keys[j]);
    }
}

proof fn lemma_place_of_key<V>(m: TextMap<V>, i: int)
    requires
        m.well_formed(),
        0 <= i < m.keys().len(),
    ensures
        m.map().contains_key(m.keys()[i]),
        m.map()[m.keys()[i]] == m.values()[i],
{
    lemma_index_by_order(m.keys(), i);
}

/// The keys are walked in order, none twice, and each maps to the value that
/// stands at its place.
pub proof fn law_keys_are_walked_in_order<V>(m: TextMap<V>, i: int, j: int)
    requires
        m.well_formed(),
        0 <= i < j < m.keys().len(),
    ensures
        text_le(m.keys()[i], m.keys()[j]),
        !text_le(m.keys()[j], m.keys()[i]),
        m.map().contains_key(m.keys()[i]) && m.map()[m.keys()[i]] == m.values()[i],
        m.map().contains_key(m.keys()[j]) && m.map()[m.keys()[j]] == m.values()[j],
{
    assert(text_le(m.keys()[i], m.keys()[j]) && m.keys()[i] != m.keys()[j]);
    law_text_order_is_total(m.keys()[i], m.keys()[j]);
    lemma_place_of_key(m, i);
    lemma_place_of_key(m, j);
}

/// The map holds the keys that are walked and no others.
pub proof fn law_the_map_holds_the_keys<V>(m: TextMap<V>, key: Seq<char>)
    ensures
        m.map().contains_key(key) <==> exists|i: int|
            0 <= i < m.keys().len() && #[trigger] m.keys()[i] == key,
{
}

/// Changing the value at a place changes what its key maps to and nothing else.
pub proof fn law_changing_a_place_changes_its_key<V>(
    before: TextMap<V>,
    after: TextMap<V>,
    i: int,
    value: V,
)
    requires
        before.well_formed(),
        0 <= i < before.keys().len(),
        after.keys() == before.keys(),
        after.values() == before.values().update(i, value),
    ensures
        after.well_formed(),
        after.map() == before.map().insert(before.keys()[i], value),
{
    lemma_index_by_order(before.keys(), i);
    assert forall|k: Seq<char>| #[trigger] after.map().contains_key(k) implies after.map()[k]
        == before.map().insert(before.keys()[i], value)[k] by {
        let j = choose|j: int| 0 <= j < before.keys().len() && before.keys()[j] == k;
        lemma_index_by_order(before.keys(), j);
    }
    assert(after.map() =~= before.map().insert(before.keys()[i], value));
}

} // verus!
