use crate::model::ListModel;
use vstd::prelude::*;

verus! {

/// A removed element's handle is dead for good. The insertion that follows a
/// removal reuses the freed slot, stamps it with a generation above the
/// removed handle's, and the removed handle is valid neither after the
/// removal nor after that insertion, wherever it places the new element.
/// `get`, `next_index`, `prev_index` and `remove` all answer `None` for a
/// handle that is not valid.
pub proof fn lemma_reuse_bumps_generation<T>(m: ListModel<T>, key: (usize, usize), k: int, v: T)
    requires
        m.wf(),
        m.valid(key),
        m.generation < usize::MAX,
        0 <= k < m.len(),
    ensures
        m.remove(key).fresh_slot() == key.0,
        m.remove(key).fresh_key().1 > key.1,
        !m.remove(key).valid(key),
        !m.remove(key).insert_at(k, v).valid(key),
{
    let p = m.pos(key);
    let m1 = m.remove(key);
    let m2 = m1.insert_at(k, v);
    assert(m.keys[p] == key);
    m.keys.remove_ensures(p);
    assert(!m1.valid(key)) by {
        if m1.valid(key) {
            let j = m1.keys.index_of(key);
            let i = if j < p { j } else { j + 1 };
            assert(m.keys[i] == key);
            if i < p {
                assert(m.keys[i].0 != m.keys[p].0);
            } else {
                assert(m.keys[p].0 != m.keys[i].0);
            }
        }
    }
    m1.keys.insert_ensures(k, m1.fresh_key());
    assert(!m2.valid(key)) by {
        if m2.valid(key) {
            let j = m2.keys.index_of(key);
            if j != k {
                assert(m1.keys[if j < k { j } else { j - 1 }] == key);
            }
        }
    }
}

/// Removing through a handle works once: afterwards the handle is no longer
/// valid, so a second `remove` with it answers `None` and changes nothing.
pub proof fn lemma_remove_invalidates<T>(m: ListModel<T>, key: (usize, usize))
    requires
        m.wf(),
        m.valid(key),
        m.generation < usize::MAX,
    ensures
        !m.remove(key).valid(key),
{
    lemma_reuse_bumps_generation(m, key, 0, m.items[0]);
}

} // verus!
