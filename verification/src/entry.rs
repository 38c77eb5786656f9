use crate::trie::keys_with_prefix;
use crate::trie::TrieNode;
use vstd::prelude::*;

verus! {

/// A handle for a key that the tree does not store: it supports inserting
/// a value for that key, which is then known to displace nothing.
pub struct VacantEntry {
    key: Vec<u8>,
}

/// A handle for a key that the tree stores: it supports reading, replacing
/// and removing the stored value.
pub struct OccupiedEntry {
    key: Vec<u8>,
}

/// The outcome of classifying one key: either vacant or occupied.
pub enum Entry {
    Vacant(VacantEntry),
    Occupied(OccupiedEntry),
}

impl View for VacantEntry {
    type V = Seq<u8>;

    closed spec fn view(&self) -> Seq<u8> {
        self.key@
    }
}

impl View for OccupiedEntry {
    type V = Seq<u8>;

    closed spec fn view(&self) -> Seq<u8> {
        self.key@
    }
}

impl View for Entry {
    type V = Seq<u8>;

    closed spec fn view(&self) -> Seq<u8> {
        match self {
            Entry::Vacant(v) => v@,
            Entry::Occupied(o) => o@,
        }
    }
}

impl<C> TrieNode<C> {
    /// Classifies `key` with a single search: `Occupied` when the tree
    /// stores it, `Vacant` otherwise.
    pub fn entry(&self, key: Vec<u8>) -> (r: Entry)
        requires
            self.wf(),
        ensures
            r@ == key@,
            match r {
                Entry::Occupied(o) => o@ == key@ && self@.contains_key(key@),
                Entry::Vacant(v) => v@ == key@ && !self@.contains_key(key@),
            },
    {
        let occupied = self.get(key.as_slice()).is_some();
        if occupied {
            Entry::Occupied(OccupiedEntry { key })
        } else {
            Entry::Vacant(VacantEntry { key })
        }
    }
}

impl VacantEntry {
    /// Inserts `val` for the vacant key and returns a mutable reference to
    /// the stored value; the key was absent, so nothing is displaced.
    pub fn insert<'a, C>(self, root: &'a mut TrieNode<C>, val: C) -> (r: &'a mut C)
        requires
            old(root).wf(),
            !old(root)@.contains_key(self@),
        ensures
            *r == val,
            final(root).wf(),
            final(root)@ == old(root)@.insert(self@, *final(r)),
    {
        proof {
            assert forall|w: C| #![trigger old(root)@.insert(self@, w)]
                old(root)@.insert(self@, val).insert(self@, w) == old(root)@.insert(
                    self@,
                    w,
                ) by {
                assert(old(root)@.insert(self@, val).insert(self@, w) =~= old(root)@.insert(
                    self@,
                    w,
                ));
            }
        }
        let prev = root.insert(vstd::slice::slice_to_vec(self.key.as_slice()), val);
        root.value_mut(self.key.as_slice())
    }

    /// Counts the stored keys of which the vacant key is a byte-wise
    /// prefix.
    pub fn prefix_len<C>(&self, root: &TrieNode<C>) -> (r: usize)
        requires
            root.wf(),
            root@.dom().len() <= usize::MAX,
        ensures
            r == keys_with_prefix(root@, self@).len(),
    {
        root.prefix_len(self.key.as_slice())
    }

    /// The key this entry was classified for.
    pub fn key(&self) -> (r: &[u8])
        ensures
            r@ == self@,
    {
        self.key.as_slice()
    }

    /// Gives the key back, consuming the entry.
    pub fn into_key(self) -> (r: Vec<u8>)
        ensures
            r@ == self@,
    {
        self.key
    }
}

impl OccupiedEntry {
    /// The key this entry was classified for.
    pub fn key(&self) -> (r: &[u8])
        ensures
            r@ == self@,
    {
        self.key.as_slice()
    }

    /// A reference to the value stored for the occupied key.
    pub fn get<'a, C>(&self, root: &'a TrieNode<C>) -> (r: &'a C)
        requires
            root.wf(),
            root@.contains_key(self@),
        ensures
            *r == root@[self@],
    {
        match root.get(self.key.as_slice()) {
            Some(v) => v,
            None => vstd::pervasive::unreached(),
        }
    }

    /// A mutable reference to the value stored for the occupied key.
    pub fn get_mut<'a, C>(&self, root: &'a mut TrieNode<C>) -> (r: &'a mut C)
        requires
            old(root).wf(),
            old(root)@.contains_key(self@),
        ensures
            *r == old(root)@[self@],
            final(root).wf(),
            final(root)@ == old(root)@.insert(self@, *final(r)),
    {
        root.value_mut(self.key.as_slice())
    }

    /// Turns the entry into a mutable reference to the value stored for
    /// the occupied key.
    pub fn into_mut<'a, C>(self, root: &'a mut TrieNode<C>) -> (r: &'a mut C)
        requires
            old(root).wf(),
            old(root)@.contains_key(self@),
        ensures
            *r == old(root)@[self@],
            final(root).wf(),
            final(root)@ == old(root)@.insert(self@, *final(r)),
    {
        root.value_mut(self.key.as_slice())
    }

    /// Replaces the value stored for the occupied key; returns the
    /// displaced value.
    pub fn insert<C>(&self, root: &mut TrieNode<C>, val: C) -> (r: C)
        requires
            old(root).wf(),
            old(root)@.contains_key(self@),
        ensures
            final(root).wf(),
            final(root)@ == old(root)@.insert(self@, val),
            r == old(root)@[self@],
    {
        match root.insert(vstd::slice::slice_to_vec(self.key.as_slice()), val) {
            Some(c) => c,
            None => vstd::pervasive::unreached(),
        }
    }

    /// Removes the occupied key; returns the key together with its value,
    /// pruning ancestors that are left without a value and without
    /// children.
    pub fn remove_entry<C>(self, root: &mut TrieNode<C>) -> (kv: (Vec<u8>, C))
        requires
            old(root).wf(),
            old(root)@.contains_key(self@),
        ensures
            final(root).wf(),
            final(root)@ == old(root)@.remove(self@),
            kv.0@ == self@,
            kv.1 == old(root)@[self@],
    {
        let c = match root.remove(self.key.as_slice()) {
            Some(c) => c,
            None => vstd::pervasive::unreached(),
        };
        (self.key, c)
    }

    /// Removes the occupied key and returns its value, pruning ancestors
    /// that are left without a value and without children.
    pub fn remove<C>(self, root: &mut TrieNode<C>) -> (r: C)
        requires
            old(root).wf(),
            old(root)@.contains_key(self@),
        ensures
            final(root).wf(),
            final(root)@ == old(root)@.remove(self@),
            r == old(root)@[self@],
    {
        self.remove_entry(root).1
    }
}

impl Entry {
    /// On a vacant key inserts `val` and returns a reference yielding it;
    /// on an occupied key leaves the stored value untouched and returns a
    /// reference to it.
    pub fn or_insert<'a, C>(self, root: &'a mut TrieNode<C>, val: C) -> (r: &'a mut C)
        requires
            old(root).wf(),
            (self matches Entry::Occupied(_) ==> old(root)@.contains_key(self@)),
            (self matches Entry::Vacant(_) ==> !old(root)@.contains_key(self@)),
        ensures
            final(root).wf(),
            match self {
                Entry::Vacant(v) => *r == val && final(root)@ == old(root)@.insert(
                    v@,
                    *final(r),
                ),
                Entry::Occupied(o) => *r == old(root)@[o@] && final(root)@ == old(root)@.insert(
                    o@,
                    *final(r),
                ),
            },
    {
        match self {
            Entry::Vacant(v) => {
                proof {
                    assert forall|w: C| #![trigger old(root)@.insert(v@, w)]
                        old(root)@.insert(v@, val).insert(v@, w) == old(root)@.insert(v@, w) by {
                        assert(old(root)@.insert(v@, val).insert(v@, w) =~= old(root)@.insert(
                            v@,
                            w,
                        ));
                    }
                }
                let prev = root.insert(vstd::slice::slice_to_vec(v.key.as_slice()), val);
                root.value_mut(v.key.as_slice())
            },
            Entry::Occupied(o) => root.value_mut(o.key.as_slice()),
        }
    }

    /// Like `or_insert`, but the value for a vacant key is produced by
    /// calling `f` only when it is needed.
    pub fn or_insert_with<'a, C, F: FnOnce() -> C>(self, root: &'a mut TrieNode<C>, f: F) -> (r:
        &'a mut C)
        requires
            old(root).wf(),
            (self matches Entry::Occupied(_) ==> old(root)@.contains_key(self@)),
            (self matches Entry::Vacant(_) ==> !old(root)@.contains_key(self@)),
            (self matches Entry::Vacant(_) ==> f.requires(())),
        ensures
            final(root).wf(),
            match self {
                Entry::Vacant(v) => f.ensures((), *r) && final(root)@ == old(root)@.insert(
                    v@,
                    *final(r),
                ),
                Entry::Occupied(o) => *r == old(root)@[o@] && final(root)@ == old(root)@.insert(
                    o@,
                    *final(r),
                ),
            },
    {
        match self {
            Entry::Vacant(v) => {
                let val = f();
                proof {
                    assert forall|w: C| #![trigger old(root)@.insert(v@, w)]
                        old(root)@.insert(v@, val).insert(v@, w) == old(root)@.insert(v@, w) by {
                        assert(old(root)@.insert(v@, val).insert(v@, w) =~= old(root)@.insert(
                            v@,
                            w,
                        ));
                    }
                }
                let prev = root.insert(vstd::slice::slice_to_vec(v.key.as_slice()), val);
                root.value_mut(v.key.as_slice())
            },
            Entry::Occupied(o) => root.value_mut(o.key.as_slice()),
        }
    }

    /// The key this entry was classified for.
    pub fn key(&self) -> (r: &[u8])
        ensures
            r@ == self@,
    {
        match self {
            Entry::Vacant(v) => v.key(),
            Entry::Occupied(o) => o.key(),
        }
    }
}

} // verus!
