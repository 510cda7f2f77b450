//! Laws of the container, stated over its mathematical view. A run of the
//! container is a sequence of `insert` calls, each of which turns the view
//! `m` into `m.insert(key, value)`; the laws below speak of such sequences.

use crate::CritBit;
use crate::node::lemma_u8_set_bound;
use vstd::prelude::*;

verus! {

/// The view after a sequence of inserts, applied first to last.
pub open spec fn insert_all<V>(m: Map<u8, V>, entries: Seq<(u8, V)>) -> Map<u8, V>
    decreases entries.len(),
{
    if entries.len() == 0 {
        m
    } else {
        insert_all(m.insert(entries[0].0, entries[0].1), entries.drop_first())
    }
}

/// The set of distinct keys named by a sequence of inserts.
pub open spec fn keys_of<V>(entries: Seq<(u8, V)>) -> Set<u8>
    decreases entries.len(),
{
    if entries.len() == 0 {
        Set::empty()
    } else {
        keys_of(entries.drop_first()).insert(entries[0].0)
    }
}

/// A container whose view is empty — freshly constructed, or just cleared —
/// holds nothing: every key is absent, so `get` answers nothing and
/// `contains_key` answers false, and the key count is zero.
pub proof fn lemma_empty_holds_nothing<V>(m: CritBit<V>, k: u8)
    requires
        m@ == Map::<u8, V>::empty(),
    ensures
        !m@.dom().contains(k),
        m@.dom().len() == 0,
{
    assert(m@.dom() =~= Set::empty());
}

/// An entry survives any later inserts of other keys: a sequence of inserts
/// none of which names `k` leaves the value stored for `k` untouched.
pub proof fn lemma_untouched_key_survives<V>(m: Map<u8, V>, entries: Seq<(u8, V)>, k: u8)
    requires
        m.dom().contains(k),
        forall|i: int| 0 <= i < entries.len() ==> (#[trigger] entries[i]).0 != k,
    ensures
        insert_all(m, entries).dom().contains(k),
        insert_all(m, entries)[k] == m[k],
    decreases entries.len(),
{
    if entries.len() > 0 {
        lemma_untouched_key_survives(m.insert(entries[0].0, entries[0].1), entries.drop_first(), k);
    }
}

/// Last write wins: after an insert of `k` with `v` followed by any inserts
/// that do not name `k` again, the container's view stores `v` for `k`.
pub proof fn lemma_last_write_wins<V>(m: Map<u8, V>, k: u8, v: V, later: Seq<(u8, V)>)
    requires
        forall|i: int| 0 <= i < later.len() ==> (#[trigger] later[i]).0 != k,
    ensures
        insert_all(m.insert(k, v), later).dom().contains(k),
        insert_all(m.insert(k, v), later)[k] == v,
{
    lemma_untouched_key_survives(m.insert(k, v), later, k);
}

/// One insert grows the key count by exactly one if the key is new, and
/// leaves it unchanged if the key was already present.
pub proof fn lemma_insert_grows_len_iff_new<V>(m: Map<u8, V>, k: u8, v: V)
    ensures
        m.dom().contains(k) ==> m.insert(k, v).dom().len() == m.dom().len(),
        !m.dom().contains(k) ==> m.insert(k, v).dom().len() == m.dom().len() + 1,
{
    lemma_u8_set_bound(m.dom());
    assert(m.insert(k, v).dom() =~= m.dom().insert(k));
}

/// The key count after any sequence of inserts into a fresh container is
/// the number of distinct keys the sequence names.
pub proof fn lemma_len_counts_distinct_keys<V>(entries: Seq<(u8, V)>)
    ensures
        insert_all(Map::<u8, V>::empty(), entries).dom() == keys_of(entries),
{
    lemma_insert_all_dom(Map::<u8, V>::empty(), entries);
    assert(Map::<u8, V>::empty().dom().union(keys_of(entries)) =~= keys_of(entries));
}

/// The keys after a sequence of inserts are the keys before plus the keys
/// the sequence names.
pub proof fn lemma_insert_all_dom<V>(m: Map<u8, V>, entries: Seq<(u8, V)>)
    ensures
        insert_all(m, entries).dom() == m.dom().union(keys_of(entries)),
    decreases entries.len(),
{
    if entries.len() == 0 {
        assert(m.dom().union(Set::empty()) =~= m.dom());
    } else {
        let m1 = m.insert(entries[0].0, entries[0].1);
        lemma_insert_all_dom(m1, entries.drop_first());
        assert(m1.dom().union(keys_of(entries.drop_first())) =~= m.dom().union(
            keys_of(entries),
        ));
    }
}

} // verus!
