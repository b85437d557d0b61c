//! A map from flow keys to values, with what the flows' upkeep needs.
use std::collections::BTreeMap;
use vstd::prelude::*;
use vstd::std_specs::cmp::OrdSpec;
use vstd::std_specs::iter::IteratorSpec;

verus! {

broadcast use vstd::std_specs::btree::group_btree_axioms;

pub struct Table<V> {
    pub entries: BTreeMap<u128, V>,
}

/// The entries that a predicate keeps.
pub open spec fn retained<V>(m: Map<u128, V>, keep: spec_fn(u128, V) -> bool) -> Map<u128, V> {
    Map::new(|k: u128| m.contains_key(k) && keep(k, m[k]), |k: u128| m[k])
}

/// A key that no other key of the map is below.
pub open spec fn is_least<V>(m: Map<u128, V>, key: u128) -> bool {
    m.contains_key(key) && forall|k: u128| m.contains_key(k) ==> key <= k
}

/// The map without its least key.
pub open spec fn without_least<V>(m: Map<u128, V>) -> Map<u128, V> {
    if m.dom().len() == 0 {
        m
    } else {
        m.remove(choose|key: u128| is_least(m, key))
    }
}

impl<V> View for Table<V> {
    type V = Map<u128, V>;

    closed spec fn view(&self) -> Map<u128, V> {
        self.entries@
    }
}

impl<V> Table<V> {
    /// What is held is finite.
    pub closed spec fn wf(&self) -> bool {
        self@.dom().finite()
    }

    pub fn new() -> (r: Self)
        ensures
            r.wf(),
            r@ == Map::<u128, V>::empty(),
    {
        Table { entries: BTreeMap::new() }
    }

    pub fn len(&self) -> (r: usize)
        requires
            self.wf(),
        ensures
            r == self@.dom().len(),
    {
        self.entries.len()
    }

    pub fn contains(&self, key: u128) -> (r: bool)
        requires
            self.wf(),
        ensures
            r == self@.contains_key(key),
    {
        self.entries.contains_key(&key)
    }

    pub fn insert(&mut self, key: u128, value: V)
        requires
            old(self).wf(),
        ensures
            final(self).wf(),
            final(self)@ == old(self)@.insert(key, value),
    {
        let _ = self.entries.insert(key, value);
    }

    /// Takes an entry out.
    pub fn take(&mut self, key: u128) -> (r: Option<V>)
        requires
            old(self).wf(),
        ensures
            final(self).wf(),
            final(self)@ == old(self)@.remove(key),
            r == if old(self)@.contains_key(key) {
                Some(old(self)@[key])
            } else {
                None
            },
    {
        self.entries.remove(&key)
    }

    /// Looks an entry up.
    pub fn peek(&self, key: u128) -> (r: Option<&V>)
        requires
            self.wf(),
        ensures
            match r {
                Some(value) => self@.contains_key(key) && self@[key] == *value,
                None => !self@.contains_key(key),
            },
    {
        self.entries.get(&key)
    }

    fn least(&self) -> (r: Option<u128>)
        ensures
            match r {
                Some(key) => is_least(self@, key),
                None => self@.dom().len() == 0,
            },
    {
        for entry in all: self.entries.iter()
            invariant
                all.index() == 0,
                all.seq().len() == self@.dom().len(),
                all.seq() == self.entries.iter().remaining(),
                vstd::std_specs::btree::increasing_seq(
                    all.seq().map_values(|kv: (&u128, &V)| *kv.0),
                ),
        {
            proof {
                let keys: Seq<u128> = all.seq().map_values(|kv: (&u128, &V)| *kv.0);
                assert(keys[0] == *entry.0);
                assert(self@.contains_key(*all.seq()[0].0));
                assert forall|k: u128| self@.contains_key(k) implies *entry.0 <= k by {
                    assert(all.seq().contains((&k, &self@[k])));
                    let i: int = choose|i: int|
                        0 <= i < all.seq().len() && all.seq()[i] == (&k, &self@[k]);
                    assert(keys[i] == k);
                    if i > 0 {
                        assert(keys[0].cmp_spec(&keys[i]) is Less);
                    }
                }
            }
            return Some(*entry.0);
        }
        None
    }

    /// Drops the entry with the least key.
    pub fn pop_least(&mut self)
        requires
            old(self).wf(),
        ensures
            final(self).wf(),
            final(self)@ == without_least(old(self)@),
    {
        match self.least() {
            Some(key) => {
                proof {
                    let chosen: u128 = choose|k: u128| is_least(self@, k);
                    assert(is_least(self@, chosen));
                    assert(chosen == key);
                }
                let _ = self.entries.remove(&key);
            },
            None => {},
        }
    }

    /// Keeps the entries that the predicate accepts.
    pub(crate) fn retain<F: Fn(u128, &V) -> bool>(
        &mut self,
        keep: F,
        Ghost(chosen): Ghost<spec_fn(u128, V) -> bool>,
    )
        requires
            old(self).wf(),
            forall|k: u128, v: V| call_requires(keep, (k, &v)),
            forall|k: u128, v: V, r: bool| call_ensures(keep, (k, &v), r) ==> r == chosen(k, v),
        ensures
            final(self).wf(),
            final(self)@ == retained(old(self)@, chosen),
    {
        let ghost original: Map<u128, V> = self@;
        let mut gone: Vec<u128> = Vec::new();
        for key in keys: self.entries.keys()
            invariant
                self@ == original,
                keys.seq().unref().to_set() == original.dom(),
                forall|k: u128, v: V| call_requires(keep, (k, &v)),
                forall|k: u128, v: V, r: bool| call_ensures(keep, (k, &v), r) ==> r == chosen(k, v),
                forall|j: int|
                    0 <= j < gone@.len() ==> original.contains_key(#[trigger] gone@[j]) && !chosen(
                        gone@[j],
                        original[gone@[j]],
                    ),
                forall|j: int|
                    0 <= j < keys.index() ==> chosen(
                        *(#[trigger] keys.seq()[j]),
                        original[*keys.seq()[j]],
                    ) || gone@.contains(*keys.seq()[j]),
        {
            match self.entries.get(key) {
                Some(value) => {
                    if !keep(*key, value) {
                        let ghost before: Seq<u128> = gone@;
                        gone.push(*key);
                        proof {
                            assert(gone@[before.len() as int] == *key);
                            assert forall|k: u128| before.contains(k) implies #[trigger] gone@.contains(
                                k,
                            ) by {
                                let i: int = choose|i: int| 0 <= i < before.len() && before[i] == k;
                                assert(gone@[i] == k);
                            }
                        }
                    }
                },
                None => {},
            }
        }
        let mut i: usize = 0;
        while i < gone.len()
            invariant
                i <= gone@.len(),
                self.wf(),
                forall|k: u128| #[trigger]
                    self@.contains_key(k) == (original.contains_key(k) && !gone@.take(
                        i as int,
                    ).contains(k)),
                forall|k: u128| #[trigger] self@.contains_key(k) ==> self@[k] == original[k],
            decreases gone@.len() - i,
        {
            let key: u128 = gone[i];
            let _ = self.entries.remove(&key);
            proof {
                let before: Seq<u128> = gone@.take(i as int);
                let after: Seq<u128> = gone@.take(i + 1);
                assert forall|k: u128| after.contains(k) == (before.contains(k) || k == key) by {
                    if before.contains(k) {
                        let j: int = choose|j: int| 0 <= j < before.len() && before[j] == k;
                        assert(after[j] == k);
                    }
                    if after.contains(k) {
                        let j: int = choose|j: int| 0 <= j < after.len() && after[j] == k;
                        if j < i {
                            assert(before[j] == k);
                        }
                    }
                    assert(after[i as int] == key);
                }
            }
            i = i + 1;
        }
        assert(gone@.take(i as int) =~= gone@);
        assert(self@ =~= retained(original, chosen));
    }
}

impl<V: Copy> Table<V> {
    pub fn get(&self, key: u128) -> (r: Option<V>)
        requires
            self.wf(),
        ensures
            r == if self@.contains_key(key) {
                Some(self@[key])
            } else {
                None
            },
    {
        match self.peek(key) {
            Some(value) => Some(*value),
            None => None,
        }
    }
}

} // verus!
