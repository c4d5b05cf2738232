use vstd::prelude::*;

verus! {

/// The abstract state of an `IndexList`: what a caller can observe through its
/// operations, without the slot links that realise it.
pub struct ListModel<T> {
    /// The elements, in sequence order.
    pub items: Seq<T>,
    /// The handle of each element as `(slot, generation)`, in sequence order.
    pub keys: Seq<(usize, usize)>,
    /// The free slots, in the order in which they will be reused.
    pub free: Seq<usize>,
    /// The number of slots in the backing store (it never shrinks).
    pub slots: nat,
    /// The generation stamped onto every element inserted from now on.
    pub generation: usize,
}

impl<T> ListModel<T> {
    pub open spec fn len(self) -> nat {
        self.items.len()
    }

    /// A handle is valid when it addresses a live element.
    pub open spec fn valid(self, key: (usize, usize)) -> bool {
        self.keys.contains(key)
    }

    /// The sequence position of the element that a valid handle addresses.
    pub open spec fn pos(self, key: (usize, usize)) -> int {
        self.keys.index_of(key)
    }

    /// The slot that the next insertion occupies: the most recently freed one, or
    /// a new slot at the end of the store.
    pub open spec fn fresh_slot(self) -> usize {
        if self.free.len() > 0 {
            self.free[0]
        } else {
            self.slots as usize
        }
    }

    /// The handle that the next insertion returns.
    pub open spec fn fresh_key(self) -> (usize, usize) {
        (self.fresh_slot(), self.generation)
    }

    /// Inserts `v` so that it stands at position `k`.
    pub open spec fn insert_at(self, k: int, v: T) -> Self {
        ListModel {
            items: self.items.insert(k, v),
            keys: self.keys.insert(k, self.fresh_key()),
            free: if self.free.len() > 0 {
                self.free.drop_first()
            } else {
                self.free
            },
            slots: if self.free.len() > 0 {
                self.slots
            } else {
                self.slots + 1
            },
            generation: self.generation,
        }
    }

    /// Takes out the element at position `k`; its slot is reused first.
    pub open spec fn take_at(self, k: int) -> Self {
        ListModel {
            items: self.items.remove(k),
            keys: self.keys.remove(k),
            free: seq![self.keys[k].0] + self.free,
            slots: self.slots,
            generation: self.generation,
        }
    }

    /// Removes the element at position `k` and advances the generation.
    pub open spec fn remove_at(self, k: int) -> Self {
        ListModel { generation: (self.generation + 1) as usize, ..self.take_at(k) }
    }

    /// Replaces the element at position `k` by `v`.
    pub open spec fn set(self, k: int, v: T) -> Self {
        ListModel { items: self.items.update(k, v), ..self }
    }

    pub open spec fn push_back(self, v: T) -> Self {
        self.insert_at(self.len() as int, v)
    }

    pub open spec fn push_front(self, v: T) -> Self {
        self.insert_at(0, v)
    }

    pub open spec fn insert_before(self, key: (usize, usize), v: T) -> Self {
        self.insert_at(self.pos(key), v)
    }

    pub open spec fn insert_after(self, key: (usize, usize), v: T) -> Self {
        self.insert_at(self.pos(key) + 1, v)
    }

    pub open spec fn remove(self, key: (usize, usize)) -> Self {
        self.remove_at(self.pos(key))
    }

    /// The model of a list with no slots.
    pub open spec fn empty() -> Self {
        ListModel { items: seq![], keys: seq![], free: seq![], slots: 0, generation: 0 }
    }

    /// The shape that every reachable state has: each slot is either live, under
    /// exactly one handle, or free, exactly once; and no live handle carries a
    /// generation above the counter.
    pub open spec fn wf(self) -> bool {
        &&& self.keys.len() == self.items.len()
        &&& self.keys.len() + self.free.len() == self.slots
        &&& self.free.no_duplicates()
        &&& forall|i: int, j: int|
            0 <= i < j < self.keys.len() ==> #[trigger] self.keys[i].0 != #[trigger] self.keys[j].0
        &&& forall|i: int|
            0 <= i < self.keys.len() ==> {
                &&& (#[trigger] self.keys[i]).0 < self.slots
                &&& self.keys[i].1 <= self.generation
                &&& !self.free.contains(self.keys[i].0)
            }
        &&& forall|i: int| 0 <= i < self.free.len() ==> #[trigger] self.free[i] < self.slots
    }
}

impl<T> ListModel<T> {
    /// In a valid model every handle stands at one position only.
    pub proof fn lemma_pos(self, k: int)
        requires
            self.wf(),
            0 <= k < self.keys.len(),
        ensures
            self.valid(self.keys[k]),
            self.pos(self.keys[k]) == k,
    {
        assert(self.keys[k] == self.keys[k]);
        let j = self.pos(self.keys[k]);
        assert(self.keys[j] == self.keys[k]);
        if j != k {
            if j < k {
                assert(self.keys[j].0 != self.keys[k].0);
            } else {
                assert(self.keys[k].0 != self.keys[j].0);
            }
        }
    }
}

} // verus!
