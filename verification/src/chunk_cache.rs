//! A keyed store whose values can be checked out and brought back.

use vstd::prelude::*;
use vstd::std_specs::hash::obeys_key_model;
use std::collections::HashMap;
use std::hash::Hash;

verus! {

/// What the store holds under a key: the value, or the mark that the value
/// is checked out.
pub enum Entry<V> {
    Cached(V),
    Borrowed,
}

impl<V> Entry<V> {
    /// Checks the value out and leaves the mark.
    pub fn acquire(&mut self) -> (r: V)
        requires
            *old(self) is Cached,
        ensures
            *old(self) == Entry::Cached(r),
            *final(self) == Entry::<V>::Borrowed,
    {
        let mut taken = Entry::Borrowed;
        core::mem::swap(self, &mut taken);
        match taken {
            Entry::Cached(value) => value,
            Entry::Borrowed => vstd::pervasive::unreached(),
        }
    }

    /// Brings `value` back in place of the mark.
    pub fn release(&mut self, value: V)
        requires
            *old(self) is Borrowed,
        ensures
            *final(self) == Entry::Cached(value),
    {
        *self = Entry::Cached(value);
    }

    /// The value of an entry that is not checked out.
    pub fn unwrap(self) -> (r: V)
        requires
            self is Cached,
        ensures
            self == Entry::Cached(r),
    {
        match self {
            Entry::Cached(value) => value,
            Entry::Borrowed => vstd::pervasive::unreached(),
        }
    }
}

/// The keys whose values are checked out.
pub open spec fn borrowed_keys<K, V>(m: Map<K, Entry<V>>) -> Set<K> {
    Set::new(|k: K| m.contains_key(k) && m[k] is Borrowed)
}

/// Whether `key` may be asked for: its value is not checked out.
pub open spec fn may_acquire<K, V>(m: Map<K, Entry<V>>, key: K) -> bool {
    !(m.contains_key(key) && m[key] is Borrowed)
}

/// What asking for `key` gives: the value held under it, if there is one.
pub open spec fn acquired<K, V>(m: Map<K, Entry<V>>, key: K) -> Option<V> {
    if m.contains_key(key) && m[key] is Cached {
        Some(m[key]->Cached_0)
    } else {
        None
    }
}

/// The store after `key` was asked for: a value held under it is checked
/// out.
pub open spec fn after_acquire<K, V>(m: Map<K, Entry<V>>, key: K) -> Map<K, Entry<V>> {
    if m.contains_key(key) && m[key] is Cached {
        m.insert(key, Entry::Borrowed)
    } else {
        m
    }
}

/// Whether a value may be brought back under `key`: one is checked out.
pub open spec fn may_release<K, V>(m: Map<K, Entry<V>>, key: K) -> bool {
    m.contains_key(key) && m[key] is Borrowed
}

/// Whether the value under `key` may be taken away: it is there.
pub open spec fn may_remove<K, V>(m: Map<K, Entry<V>>, key: K) -> bool {
    m.contains_key(key) && m[key] is Cached
}

/// Whether no value is checked out.
pub open spec fn fully_synced<K, V>(m: Map<K, Entry<V>>) -> bool {
    forall|k: K| m.contains_key(k) ==> !(#[trigger] m[k] is Borrowed)
}

/// Checking out and bringing back. In a store with nothing checked out and
/// nothing under `k`: after `v` is put under `k`, asking for `k` gives `v`;
/// `k` may then not be asked for again until a value is brought back; and
/// once `v2` is brought back nothing is checked out, and taking `k` away
/// gives `v2` and leaves the store as it was.
pub proof fn lemma_checkout_discipline<K, V>(m: Map<K, Entry<V>>, k: K, v: V, v2: V)
    requires
        !m.contains_key(k),
        fully_synced(m),
    ensures
        ({
            let put = m.insert(k, Entry::Cached(v));
            let out = after_acquire(put, k);
            let back = out.insert(k, Entry::Cached(v2));
            &&& may_acquire(put, k)
            &&& acquired(put, k) == Some(v)
            &&& !may_acquire(out, k)
            &&& !fully_synced(out)
            &&& may_release(out, k)
            &&& fully_synced(back)
            &&& may_remove(back, k)
            &&& back[k] == Entry::Cached(v2)
            &&& back.remove(k) == m
        }),
{
}

/// A store of values by key, in which a value is either present or checked
/// out to one owner.
pub struct Cache<K, V> {
    map: HashMap<K, Entry<V>>,
    borrows: usize,
}

impl<K, V> View for Cache<K, V> {
    type V = Map<K, Entry<V>>;

    closed spec fn view(&self) -> Map<K, Entry<V>> {
        self.map@
    }
}

impl<K: Hash + Eq + Copy, V> Cache<K, V> {
    /// The store counts rightly how many values are checked out, and its
    /// keys are of a type that a hash map can be keyed by.
    pub closed spec fn wf(&self) -> bool {
        &&& obeys_key_model::<K>()
        &&& self.borrows == borrowed_keys(self.map@).len()
    }

    /// An empty store.
    pub fn new() -> (r: Cache<K, V>)
        requires
            obeys_key_model::<K>(),
        ensures
            r.wf(),
            r@ == Map::<K, Entry<V>>::empty(),
    {
        let map: HashMap<K, Entry<V>> = HashMap::new();
        proof {
            assert(borrowed_keys(map@) =~= Set::<K>::empty());
        }
        Cache { map, borrows: 0 }
    }

    /// Whether the store has an entry under `key`, present or checked out.
    pub fn contains(&self, key: &K) -> (r: bool)
        requires
            self.wf(),
        ensures
            r == self@.contains_key(*key),
    {
        self.map.contains_key(key)
    }

    /// Whether the value under `key` is checked out.
    pub fn is_borrowed(&self, key: &K) -> (r: bool)
        requires
            self.wf(),
        ensures
            r == may_release(self@, *key),
    {
        match self.map.get(key) {
            Some(entry) => match entry {
                Entry::Borrowed => true,
                Entry::Cached(_) => false,
            },
            None => false,
        }
    }

    /// Checks out the value under `key`. Gives `None` where the store has
    /// nothing under `key`.
    pub fn acquire(&mut self, key: &K) -> (r: Option<V>)
        requires
            old(self).wf(),
            may_acquire(old(self)@, *key),
        ensures
            final(self).wf(),
            r == acquired(old(self)@, *key),
            final(self)@ == after_acquire(old(self)@, *key),
    {
        let ghost before = self.map@;
        match self.map.remove(key) {
            None => {
                proof {
                    assert(self.map@ =~= before);
                }
                None
            },
            Some(mut entry) => {
                let value = entry.acquire();
                self.map.insert(*key, entry);
                proof {
                    assert(borrowed_keys(self.map@) =~= borrowed_keys(before).insert(*key));
                    lemma_borrowed_finite(before);
                    lemma_borrowed_finite(self.map@);
                }
                // No more values are checked out than the map, whose length fits
                // in a `usize`, has keys.
                let _ = self.map.len();
                self.borrows += 1;
                Some(value)
            },
        }
    }

    /// Brings `value` back under `key`, whose value was checked out.
    pub fn release(&mut self, key: K, value: V)
        requires
            old(self).wf(),
            may_release(old(self)@, key),
        ensures
            final(self).wf(),
            final(self)@ == old(self)@.insert(key, Entry::Cached(value)),
    {
        let ghost before = self.map@;
        self.map.insert(key, Entry::Cached(value));
        proof {
            assert(borrowed_keys(self.map@) =~= borrowed_keys(before).remove(key));
            lemma_borrowed_finite(before);
        }
        self.borrows -= 1;
    }

    /// Puts `value` under `key`, under which the store has nothing.
    pub fn insert(&mut self, key: K, value: V)
        requires
            old(self).wf(),
            !old(self)@.contains_key(key),
        ensures
            final(self).wf(),
            final(self)@ == old(self)@.insert(key, Entry::Cached(value)),
    {
        let ghost before = self.map@;
        self.map.insert(key, Entry::Cached(value));
        proof {
            assert(borrowed_keys(self.map@) =~= borrowed_keys(before));
        }
    }

    /// Marks `key`, under which the store has nothing, as checked out: its
    /// value is with an owner already and will be brought back later.
    pub fn insert_and_acquire(&mut self, key: K)
        requires
            old(self).wf(),
            !old(self)@.contains_key(key),
        ensures
            final(self).wf(),
            final(self)@ == old(self)@.insert(key, Entry::Borrowed),
    {
        let ghost before = self.map@;
        self.map.insert(key, Entry::Borrowed);
        proof {
            assert(borrowed_keys(self.map@) =~= borrowed_keys(before).insert(key));
            lemma_borrowed_finite(before);
            lemma_borrowed_finite(self.map@);
        }
        // No more values are checked out than the map, whose length fits in a
        // `usize`, has keys.
        let _ = self.map.len();
        self.borrows += 1;
    }

    /// Takes the value under `key` out of the store for good.
    pub fn remove(&mut self, key: &K) -> (r: V)
        requires
            old(self).wf(),
            may_remove(old(self)@, *key),
        ensures
            final(self).wf(),
            old(self)@[*key] == Entry::Cached(r),
            final(self)@ == old(self)@.remove(*key),
    {
        let ghost before = self.map@;
        let entry = self.map.remove(key);
        proof {
            assert(borrowed_keys(self.map@) =~= borrowed_keys(before));
        }
        match entry {
            Some(entry) => entry.unwrap(),
            None => vstd::pervasive::unreached(),
        }
    }

    /// Whether some value is checked out.
    pub fn borrowed(&self) -> (r: bool)
        requires
            self.wf(),
        ensures
            r == !fully_synced(self@),
    {
        proof {
            lemma_borrowed_finite(self.map@);
            if self.borrows == 0 {
                assert forall|k: K| self.map@.contains_key(k) implies !(
                #[trigger] self.map@[k] is Borrowed) by {
                    assert(!borrowed_keys(self.map@).contains(k));
                }
            } else {
                let k = borrowed_keys(self.map@).choose();
                assert(borrowed_keys(self.map@).contains(k));
            }
        }
        self.borrows != 0
    }
}

/// The keys checked out of a finite store are finitely many, and no more
/// than its keys.
proof fn lemma_borrowed_finite<K, V>(m: Map<K, Entry<V>>)
    requires
        m.dom().finite(),
    ensures
        borrowed_keys(m).finite(),
        borrowed_keys(m).len() <= m.dom().len(),
{
    vstd::set_lib::lemma_len_subset(borrowed_keys(m), m.dom());
}

} // verus!
