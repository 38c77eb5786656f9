use crate::trie::keys_with_prefix;
use vstd::prelude::*;

verus! {

/// After inserting `v` for key `k`, looking `k` up yields exactly `v`, and
/// every other key keeps exactly its binding: a lookup after a sequence of
/// insertions returns the most recently inserted value for that key.
pub proof fn lemma_insert_then_get<C>(m: Map<Seq<u8>, C>, k: Seq<u8>, v: C)
    ensures
        m.insert(k, v).contains_key(k),
        m.insert(k, v)[k] == v,
        forall|k2: Seq<u8>|
            k2 != k ==> m.insert(k, v).contains_key(k2) == m.contains_key(k2),
        forall|k2: Seq<u8>| k2 != k && m.contains_key(k2) ==> m.insert(k, v)[k2] == m[k2],
{
}

/// Inserting an absent key grows the number of stored pairs by exactly
/// one; inserting a key a second time does not grow it.  Together with the
/// matching fact for removal, the count equals the number of distinct keys
/// inserted minus the number successfully removed.
pub proof fn lemma_len_insert<C>(m: Map<Seq<u8>, C>, k: Seq<u8>, v: C)
    requires
        m.dom().finite(),
    ensures
        m.insert(k, v).dom().finite(),
        m.insert(k, v).dom().len() == m.dom().len() + (if m.contains_key(k) {
            0int
        } else {
            1int
        }),
{
    assert(m.insert(k, v).dom() =~= m.dom().insert(k));
}

/// Removing a stored key leaves it absent, shrinks the number of stored
/// pairs by exactly one, and removing it again changes nothing.
pub proof fn lemma_remove_round_trip<C>(m: Map<Seq<u8>, C>, k: Seq<u8>)
    requires
        m.dom().finite(),
        m.contains_key(k),
    ensures
        !m.remove(k).contains_key(k),
        m.remove(k).dom().finite(),
        m.remove(k).dom().len() == m.dom().len() - 1,
        m.remove(k).remove(k) == m.remove(k),
{
    assert(m.remove(k).dom() =~= m.dom().remove(k));
    assert(m.remove(k).remove(k) =~= m.remove(k));
}

/// Removing one key disturbs nothing else: every other stored key keeps
/// exactly its value, and no absent key appears.
pub proof fn lemma_remove_preserves_others<C>(m: Map<Seq<u8>, C>, k: Seq<u8>)
    ensures
        forall|k2: Seq<u8>| k2 != k ==> m.remove(k).contains_key(k2) == m.contains_key(k2),
        forall|k2: Seq<u8>| k2 != k && m.contains_key(k2) ==> m.remove(k)[k2] == m[k2],
{
}

/// The empty sequence is a prefix of every stored key, so counting by the
/// empty prefix counts every stored pair.
pub proof fn lemma_prefix_count_empty_prefix<C>(m: Map<Seq<u8>, C>)
    ensures
        keys_with_prefix(m, Seq::<u8>::empty()) == m.dom(),
{
    assert forall|k: Seq<u8>| #[trigger] m.dom().contains(k) implies Seq::<u8>::empty().is_prefix_of(
        k,
    ) by {
        assert(Seq::<u8>::empty() =~= k.subrange(0, 0));
    }
    assert(keys_with_prefix(m, Seq::<u8>::empty()) =~= m.dom());
}

/// A prefix strictly longer than every stored key is a prefix of none of
/// them, so it counts nothing.
pub proof fn lemma_prefix_count_long_prefix<C>(m: Map<Seq<u8>, C>, p: Seq<u8>)
    requires
        forall|k: Seq<u8>| m.contains_key(k) ==> k.len() < p.len(),
    ensures
        keys_with_prefix(m, p) == Set::<Seq<u8>>::empty(),
        keys_with_prefix(m, p).len() == 0,
{
    assert(keys_with_prefix(m, p) =~= Set::<Seq<u8>>::empty());
}

} // verus!
