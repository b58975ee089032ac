//! Laws that the containers' contracts compose to. Every operation's
//! postcondition is stated over the abstract `Map` of contents, so the
//! laws are stated and proved over those maps; they apply equally to the
//! sharded map and to the nested map, whose operations are specified as
//! the same abstract updates.

use vstd::prelude::*;

verus! {

/// After the last insert for `k`, a lookup sees exactly that value, and
/// inserts or removes of other keys in between do not disturb it.
pub proof fn lemma_get_sees_last_insert<A, B>(m: Map<A, B>, k: A, v: B, k2: A, v2: B)
    requires
        k2 != k,
    ensures
        m.insert(k, v).dom().contains(k),
        m.insert(k, v)[k] == v,
        m.insert(k, v).insert(k2, v2)[k] == v,
        m.insert(k, v).remove(k2).dom().contains(k),
        m.insert(k, v).remove(k2)[k] == v,
{
}

/// Inserting twice for one key keeps the second value: the contents after
/// both inserts are those after the second alone.
pub proof fn lemma_insert_insert<A, B>(m: Map<A, B>, k: A, v1: B, v2: B)
    ensures
        m.insert(k, v1).insert(k, v2) == m.insert(k, v2),
        m.insert(k, v1).insert(k, v2)[k] == v2,
{
    assert(m.insert(k, v1).insert(k, v2) =~= m.insert(k, v2));
}

/// A removed key is absent until inserted again.
pub proof fn lemma_remove_absent<A, B>(m: Map<A, B>, k: A)
    ensures
        !m.remove(k).dom().contains(k),
{
}

/// An insert followed by a remove of the same key acts on the contents as
/// the remove alone; on a key that was absent, it is a no-op.
pub proof fn lemma_insert_then_remove<A, B>(m: Map<A, B>, k: A, v: B)
    ensures
        m.insert(k, v).remove(k) == m.remove(k),
        !m.dom().contains(k) ==> m.insert(k, v).remove(k) == m,
{
    assert(m.insert(k, v).remove(k) =~= m.remove(k));
    if !m.dom().contains(k) {
        assert(m.remove(k) =~= m);
    }
}

/// Emptied contents hold no entries, so a size reading after a `clear`
/// reports zero.
pub proof fn lemma_cleared_is_empty<A, B>(m: Map<A, B>)
    requires
        m == Map::<A, B>::empty(),
    ensures
        m.len() == 0,
        forall|k: A| !(#[trigger] m.dom().contains(k)),
{
    assert(m.dom() =~= Set::<A>::empty());
    vstd::set_lib::lemma_set_empty_equivalency_len(m.dom());
}

} // verus!
