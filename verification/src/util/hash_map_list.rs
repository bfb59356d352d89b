//! A map from keys to lists of values.

use std::collections::HashMap;
use std::hash::Hash;
use vstd::prelude::*;
use vstd::std_specs::hash::obeys_key_model;
use vstd::std_specs::iter::IteratorSpec;

verus! {

broadcast use vstd::std_specs::hash::group_hash_axioms;

/// A `HashMap<K, Vec<V>>` in which inserting under a key appends to the list of that key
/// instead of overwriting it. A key that was never inserted has no list.
pub struct HashMapList<K, V>(HashMap<K, Vec<V>>);

impl<K, V> View for HashMapList<K, V> {
    type V = Map<K, Seq<V>>;

    closed spec fn view(&self) -> Map<K, Seq<V>> {
        Map::new(|k: K| self.0@.contains_key(k), |k: K| self.0@[k]@)
    }
}

impl<K: Eq + Hash, V> HashMapList<K, V> {
    /// The list under `k`, empty where the key has none.
    pub open spec fn list(self, k: K) -> Seq<V> {
        if self@.contains_key(k) {
            self@[k]
        } else {
            Seq::empty()
        }
    }

    /// Creates an empty collection.
    pub fn new() -> (list: Self)
        requires
            obeys_key_model::<K>(),
        ensures
            list@ == Map::<K, Seq<V>>::empty(),
    {
        let list = HashMapList(HashMap::new());
        assert(list@ =~= Map::<K, Seq<V>>::empty());
        list
    }

    /// The values inserted under `k`, in the order of insertion; `None` if there are none.
    pub fn get(&self, k: &K) -> (values: Option<&[V]>)
        requires
            obeys_key_model::<K>(),
        ensures
            match values {
                Some(slice) => self@.contains_key(*k) && slice@ == self@[*k],
                None => !self@.contains_key(*k),
            },
    {
        match self.0.get(k) {
            Some(v) => Some(v.as_slice()),
            None => None,
        }
    }

    /// Appends `v` to the list under `k`, which is started if the key is new.
    pub fn insert(&mut self, k: K, v: V)
        requires
            obeys_key_model::<K>(),
        ensures
            final(self)@ == old(self)@.insert(k, old(self).list(k).push(v)),
    {
        let ghost before = *self;
        let slot = self.0.entry(k).or_insert(Vec::new());
        slot.push(v);
        assert(self@ =~= before@.insert(k, before.list(k).push(v)));
    }
}


impl<K: Eq + Hash + Copy, V> HashMapList<K, V> {
    /// The keys that have a list, each once, in no particular order.
    pub fn keys(&self) -> (keys: Vec<K>)
        requires
            obeys_key_model::<K>(),
        ensures
            keys@.to_set() == self@.dom(),
            keys@.no_duplicates(),
    {
        let mut keys: Vec<K> = Vec::new();
        let source = self.0.keys();
        let ghost all = source.remaining();
        for key in iter: source
            invariant
                iter.seq() == all,
                keys@.len() == iter.index(),
                forall|i: int| 0 <= i < keys@.len() ==> keys@[i] == *all[i],
        {
            keys.push(*key);
        }
        assert(keys@ =~= all.unref());
        assert(self@.dom() =~= self.0@.dom());
        keys
    }
}


/// The pairs of key and value that are left, from value number `value` of key number `key`
/// on: for each key in turn, its values in the order of insertion.
pub open spec fn pairs_from<K, V>(map: Map<K, Seq<V>>, keys: Seq<K>, key: int, value: int) -> Seq<
    (K, V),
>
    decreases keys.len() - key,
{
    if key < 0 || key >= keys.len() {
        Seq::empty()
    } else {
        let list = if map.contains_key(keys[key]) {
            map[keys[key]]
        } else {
            Seq::empty()
        };
        Seq::new(
            if 0 <= value <= list.len() {
                (list.len() - value) as nat
            } else {
                0
            },
            |i: int| (keys[key], list[value + i]),
        ) + pairs_from(map, keys, key + 1, 0)
    }
}

/// Walks through the pairs of key and value of a [`HashMapList`]: key by key, and under each
/// key value by value in the order of insertion.
pub struct Iter<'a, K, V> {
    collection: &'a HashMapList<K, V>,
    keys: Vec<K>,
    key: usize,
    value: usize,
}

impl<'a, K: Eq + Hash + Copy, V> Iter<'a, K, V> {
    /// The order in which the keys are visited.
    pub closed spec fn keys(&self) -> Seq<K> {
        self.keys@
    }

    /// The pairs that are still to come.
    pub closed spec fn remaining(&self) -> Seq<(K, V)> {
        pairs_from(self.collection@, self.keys@, self.key as int, self.value as int)
    }

    pub closed spec fn wf(&self) -> bool {
        self.key <= self.keys@.len() && (self.key < self.keys@.len() ==> self.value
            <= self.collection.list(self.keys@[self.key as int]).len())
    }

    /// An iterator over all pairs of the collection.
    pub fn new(collection: &'a HashMapList<K, V>) -> (iter: Self)
        requires
            obeys_key_model::<K>(),
        ensures
            iter.wf(),
            iter.keys().to_set() == collection@.dom(),
            iter.keys().no_duplicates(),
            iter.remaining() == pairs_from(collection@, iter.keys(), 0, 0),
    {
        Iter { collection, keys: collection.keys(), key: 0, value: 0 }
    }

    /// The next pair, or `None` when all pairs were handed out.
    pub fn next(&mut self) -> (pair: Option<(K, &'a V)>)
        requires
            obeys_key_model::<K>(),
            old(self).wf(),
        ensures
            final(self).wf(),
            final(self).keys() == old(self).keys(),
            match pair {
                Some((key, value)) => old(self).remaining().len() > 0 && old(self).remaining()[0]
                    == (key, *value) && final(self).remaining() == old(
                    self,
                ).remaining().drop_first(),
                None => old(self).remaining().len() == 0 && final(self).remaining().len() == 0,
            },
    {
        let ghost map = self.collection@;
        let ghost keys = self.keys@;
        loop
            invariant
                self.wf(),
                obeys_key_model::<K>(),
                self.collection == old(self).collection,
                map == self.collection@,
                keys == self.keys@,
                keys == old(self).keys@,
                self.remaining() == old(self).remaining(),
            decreases self.keys@.len() - self.key,
        {
            if self.key >= self.keys.len() {
                return None;
            }
            let key = self.keys[self.key];
            let ghost list = self.collection.list(key);
            let ghost here = Seq::new(
                (list.len() - self.value) as nat,
                |i: int| (key, list[self.value + i]),
            );
            let ghost later = pairs_from(map, keys, self.key + 1, 0);
            assert(self.remaining() == here + later);
            let found = match self.collection.get(&key) {
                Some(values) => if self.value < values.len() {
                    Some(&values[self.value])
                } else {
                    None
                },
                None => None,
            };
            match found {
                Some(value) => {
                    let ghost before = self.remaining();
                    self.value = self.value + 1;
                    let ghost rest = Seq::new(
                        (list.len() - self.value) as nat,
                        |i: int| (key, list[self.value + i]),
                    );
                    assert(self.remaining() == rest + later);
                    assert(before[0] == here[0]);
                    assert(rest + later =~= (here + later).drop_first());
                    return Some((key, value));
                },
                None => {
                    assert(here =~= Seq::empty());
                    assert(here + later =~= later);
                    self.key = self.key + 1;
                    self.value = 0;
                },
            }
        }
    }
}

impl<K: Eq + Hash + Copy, V> HashMapList<K, V> {
    /// An iterator over the pairs of key and value.
    pub fn iter(&self) -> (iter: Iter<'_, K, V>)
        requires
            obeys_key_model::<K>(),
        ensures
            iter.wf(),
            iter.keys().to_set() == self@.dom(),
            iter.keys().no_duplicates(),
            iter.remaining() == pairs_from(self@, iter.keys(), 0, 0),
    {
        Iter::new(self)
    }
}


/// The pairs of key and value that are left when the values of each key are taken from the
/// end of its list: for each key from number `key` on, its values in reverse.
pub open spec fn pairs_backwards<K, V>(map: Map<K, Seq<V>>, keys: Seq<K>, key: int) -> Seq<(K, V)>
    decreases keys.len() - key,
{
    if key < 0 || key >= keys.len() {
        Seq::empty()
    } else {
        let list = if map.contains_key(keys[key]) {
            map[keys[key]]
        } else {
            Seq::empty()
        };
        Seq::new(list.len(), |i: int| (keys[key], list[list.len() - 1 - i])) + pairs_backwards(
            map,
            keys,
            key + 1,
        )
    }
}

/// What is left under later keys does not depend on the lists of earlier keys.
proof fn lemma_pairs_backwards_frame<K, V>(
    one: Map<K, Seq<V>>,
    other: Map<K, Seq<V>>,
    keys: Seq<K>,
    key: int,
)
    requires
        0 <= key,
        forall|i: int|
            key <= i < keys.len() ==> one.contains_key(#[trigger] keys[i]) == other.contains_key(
                keys[i],
            ) && (one.contains_key(keys[i]) ==> one[keys[i]] == other[keys[i]]),
    ensures
        pairs_backwards(one, keys, key) == pairs_backwards(other, keys, key),
    decreases keys.len() - key,
{
    if key < keys.len() {
        assert(one.contains_key(keys[key]) == other.contains_key(keys[key]));
        lemma_pairs_backwards_frame(one, other, keys, key + 1);
    }
}

/// Hands out the pairs of key and value of a [`HashMapList`] that it has taken over: key by
/// key, and under each key the values from the last inserted to the first.
pub struct IntoIter<K, V> {
    entries: HashMapList<K, V>,
    keys: Vec<K>,
    key: usize,
}

impl<K: Eq + Hash + Copy, V> IntoIter<K, V> {
    /// The order in which the keys are visited.
    pub closed spec fn keys(&self) -> Seq<K> {
        self.keys@
    }

    /// The pairs that are still to come.
    pub closed spec fn remaining(&self) -> Seq<(K, V)> {
        pairs_backwards(self.entries@, self.keys@, self.key as int)
    }

    pub closed spec fn wf(&self) -> bool {
        self.key <= self.keys@.len() && self.keys@.no_duplicates()
    }

    /// The next pair, or `None` when all pairs were handed out.
    pub fn next(&mut self) -> (pair: Option<(K, V)>)
        requires
            obeys_key_model::<K>(),
            old(self).wf(),
        ensures
            final(self).wf(),
            final(self).keys() == old(self).keys(),
            match pair {
                Some(found) => old(self).remaining().len() > 0 && old(self).remaining()[0] == found
                    && final(self).remaining() == old(self).remaining().drop_first(),
                None => old(self).remaining().len() == 0 && final(self).remaining().len() == 0,
            },
    {
        let ghost keys = self.keys@;
        loop
            invariant
                self.wf(),
                obeys_key_model::<K>(),
                keys == self.keys@,
                keys == old(self).keys@,
                self.remaining() == old(self).remaining(),
            decreases self.keys@.len() - self.key,
        {
            if self.key >= self.keys.len() {
                return None;
            }
            let key = self.keys[self.key];
            let ghost map = self.entries@;
            let ghost list = self.entries.list(key);
            let ghost here = Seq::new(list.len(), |i: int| (key, list[list.len() - 1 - i]));
            let ghost later = pairs_backwards(map, keys, self.key + 1);
            assert(self.remaining() == here + later);
            let mut taken = match self.entries.0.remove(&key) {
                Some(values) => values,
                None => Vec::new(),
            };
            assert(taken@ == list);
            match taken.pop() {
                Some(value) => {
                    if taken.len() > 0 {
                        self.entries.0.insert(key, taken);
                        let ghost rest = Seq::new(
                            (list.len() - 1) as nat,
                            |i: int| (key, list.drop_last()[list.len() - 2 - i]),
                        );
                        assert(self.entries@ =~= map.insert(key, list.drop_last()));
                        proof {
                            lemma_pairs_backwards_frame(map, self.entries@, keys, self.key + 1);
                        }
                        assert(self.remaining() == rest + later);
                        assert(rest + later =~= (here + later).drop_first());
                    } else {
                        assert(self.entries@ =~= map.remove(key));
                        proof {
                            lemma_pairs_backwards_frame(map, self.entries@, keys, self.key + 1);
                        }
                        self.key = self.key + 1;
                        assert(later =~= (here + later).drop_first());
                    }
                    assert((here + later)[0] == here[0]);
                    return Some((key, value));
                },
                None => {
                    assert(self.entries@ =~= map.remove(key));
                    proof {
                        lemma_pairs_backwards_frame(map, self.entries@, keys, self.key + 1);
                    }
                    assert(here =~= Seq::empty());
                    assert(here + later =~= later);
                    self.key = self.key + 1;
                },
            }
        }
    }
}

impl<K: Eq + Hash + Copy, V> HashMapList<K, V> {
    /// Turns the collection into an iterator that hands out its pairs of key and value.
    pub fn into_iter(self) -> (iter: IntoIter<K, V>)
        requires
            obeys_key_model::<K>(),
        ensures
            iter.wf(),
            iter.keys().to_set() == self@.dom(),
            iter.keys().no_duplicates(),
            iter.remaining() == pairs_backwards(self@, iter.keys(), 0),
    {
        let keys = self.keys();
        IntoIter { entries: self, keys, key: 0 }
    }
}

} // verus!
