//! A list of values under distinct string keys, in the order in which the
//! keys first came.

use vstd::prelude::*;

verus! {

/// Values under string keys. The keys are kept in the order of their first
/// insertion.
#[derive(Debug)]
pub struct KeyedList<V> {
    slots: Vec<(String, V)>,
}

impl<V> KeyedList<V> {
    /// The keys, in the order of their first insertion.
    pub closed spec fn keys(&self) -> Seq<Seq<char>> {
        self.slots@.map_values(|slot: (String, V)| slot.0@)
    }

    /// The values, each at the position of its key.
    pub closed spec fn values(&self) -> Seq<V> {
        self.slots@.map_values(|slot: (String, V)| slot.1)
    }

    /// No key stands twice.
    pub open spec fn wf(&self) -> bool {
        &&& self.keys().no_duplicates()
        &&& self.keys().len() == self.values().len()
    }

    /// The list as a map from key to value.
    pub open spec fn as_map(&self) -> Map<Seq<char>, V> {
        Map::new(
            |key: Seq<char>| self.keys().contains(key),
            |key: Seq<char>| self.values()[self.keys().index_of(key)],
        )
    }

    /// Under a key that stands at position `i`, the map holds the value at `i`;
    /// the map holds as many keys as the list.
    pub proof fn lemma_as_map(&self)
        requires
            self.wf(),
        ensures
            self.as_map().dom() == self.keys().to_set(),
            self.as_map().dom().finite(),
            self.as_map().dom().len() == self.keys().len(),
            forall|i: int|
                0 <= i < self.keys().len() ==> {
                    &&& #[trigger] self.as_map().contains_key(self.keys()[i])
                    &&& self.as_map()[self.keys()[i]] == self.values()[i]
                },
    {
        assert(self.as_map().dom() =~= self.keys().to_set());
        self.keys().unique_seq_to_set();
        vstd::seq_lib::seq_to_set_is_finite(self.keys());
    }

    /// An empty list.
    pub fn new() -> (list: Self)
        ensures
            list.wf(),
            list.keys() == Seq::<Seq<char>>::empty(),
            list.values() == Seq::<V>::empty(),
    {
        let list = KeyedList { slots: Vec::new() };
        assert(list.keys() =~= Seq::<Seq<char>>::empty());
        assert(list.values() =~= Seq::<V>::empty());
        list
    }

    /// The number of keys.
    pub fn len(&self) -> (n: usize)
        ensures
            n == self.keys().len(),
            n == self.values().len(),
    {
        self.slots.len()
    }

    /// The position of `key`, if the list holds it.
    pub fn position(&self, key: &String) -> (found: Option<usize>)
        requires
            self.wf(),
        ensures
            match found {
                Some(i) => i < self.keys().len() && self.keys()[i as int] == key@,
                None => !self.keys().contains(key@),
            },
    {
        let mut i: usize = 0;
        while i < self.slots.len()
            invariant
                i <= self.slots.len(),
                forall|j: int| 0 <= j < i ==> self.keys()[j] != key@,
            decreases self.slots.len() - i,
        {
            if self.slots[i].0 == *key {
                return Some(i);
            }
            i += 1;
        }
        None
    }

    /// The key at position `i`.
    pub fn key_at(&self, i: usize) -> (key: &String)
        requires
            i < self.keys().len(),
        ensures
            key@ == self.keys()[i as int],
    {
        &self.slots[i].0
    }

    /// The value at position `i`.
    pub fn value_at(&self, i: usize) -> (value: &V)
        requires
            i < self.values().len(),
        ensures
            *value == self.values()[i as int],
    {
        &self.slots[i].1
    }

    /// Puts `value` under `key`: in place of the value that the key had, or
    /// at the end of the list where the key is new.
    pub fn put(&mut self, key: String, value: V)
        requires
            old(self).wf(),
        ensures
            final(self).wf(),
            final(self).as_map() == old(self).as_map().insert(key@, value),
            old(self).keys().contains(key@) ==> {
                &&& final(self).keys() == old(self).keys()
                &&& final(self).values() == old(self).values().update(
                    old(self).keys().index_of(key@),
                    value,
                )
            },
            !old(self).keys().contains(key@) ==> {
                &&& final(self).keys() == old(self).keys().push(key@)
                &&& final(self).values() == old(self).values().push(value)
            },
    {
        match self.position(&key) {
            Some(i) => {
                self.slots.set(i, (key, value));
                assert(self.keys() =~= old(self).keys());
                assert(self.values() =~= old(self).values().update(i as int, value));
                assert(self.as_map() =~= old(self).as_map().insert(key@, value));
            },
            None => {
                self.slots.push((key, value));
                assert(self.keys() =~= old(self).keys().push(key@));
                assert(self.values() =~= old(self).values().push(value));
                proof {
                    let before = old(self).keys();
                    let after = self.keys();
                    assert(after[before.len() as int] == key@);
                    assert forall|k: Seq<char>| before.contains(k) implies after.contains(k)
                        && after.index_of(k) == before.index_of(k) by {
                        let j = before.index_of(k);
                        assert(after[j] == k);
                    }
                    assert forall|k: Seq<char>| after.contains(k) && k != key@ implies before.contains(
                        k,
                    ) by {
                        let j = after.index_of(k);
                        assert(before[j] == k);
                    }
                    assert(self.as_map() =~= old(self).as_map().insert(key@, value));
                }
            },
        }
    }
}

} // verus!
