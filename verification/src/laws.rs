//! Laws relating the map operations, stated over the abstract contents.

use vstd::prelude::*;

verus! {

/// After an insertion of `(k, v)`, a lookup of `k` finds exactly `v`:
/// `insert` leaves the view at `m.insert(k, v)`, and `get` answers from
/// the view, so `get(k)` returns that `v`.
pub proof fn lemma_get_after_insert<V>(m: Map<u64, V>, k: u64, v: V)
    ensures
        m.insert(k, v).dom().contains(k),
        m.insert(k, v)[k] == v,
{
}

/// A successful deletion removes exactly one binding: afterwards the
/// deleted key is unbound, while every other bound key keeps its prior
/// value. `delete` leaves the view at `m.remove(k)`, and `get` answers
/// from the view.
pub proof fn lemma_delete_removes_one_binding<V>(m: Map<u64, V>, k: u64)
    ensures
        !m.remove(k).dom().contains(k),
        forall|k2: u64|
            k2 != k && #[trigger] m.dom().contains(k2) ==> m.remove(k).dom().contains(k2)
                && m.remove(k)[k2] == m[k2],
{
}

/// Insertion overwrites: two insertions at one key leave a single
/// binding for it, holding the later value, and the key set is the same
/// as after the first insertion alone.
pub proof fn lemma_insert_overwrites<V>(m: Map<u64, V>, k: u64, v1: V, v2: V)
    ensures
        m.insert(k, v1).insert(k, v2) == m.insert(k, v2),
        m.insert(k, v1).insert(k, v2).dom() == m.insert(k, v1).dom(),
        m.insert(k, v1).insert(k, v2)[k] == v2,
{
    assert(m.insert(k, v1).insert(k, v2) =~= m.insert(k, v2));
    assert(m.insert(k, v1).insert(k, v2).dom() =~= m.insert(k, v1).dom());
}

/// Round trip: inserting a key the map does not bind and then deleting
/// it restores exactly the prior contents, and the deleted binding held
/// the inserted value, so `delete`'s contract makes it return that
/// value.
pub proof fn lemma_insert_delete_round_trip<V>(m: Map<u64, V>, k: u64, v: V)
    requires
        !m.dom().contains(k),
    ensures
        m.insert(k, v).dom().contains(k),
        m.insert(k, v)[k] == v,
        m.insert(k, v).remove(k) == m,
{
    assert(m.insert(k, v).remove(k) =~= m);
}

} // verus!
