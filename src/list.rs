use crate::handle::Index;
use crate::model::ListModel;
use vstd::assert_seqs_equal;
use vstd::pervasive::unreached;
use vstd::prelude::*;
use vstd::std_specs::cmp::PartialEqSpec;

verus! {

/// A live element in its slot, with the links to its neighbours in sequence order.
#[derive(Debug, PartialEq)]
pub struct OccupiedEntry<T> {
    pub item: T,
    pub generation: usize,
    pub next: Option<usize>,
    pub prev: Option<usize>,
}

/// One slot of the backing store.
#[derive(Debug, PartialEq)]
pub enum Entry<T> {
    /// An unused slot, linked to the next slot of the free chain.
    Free { next_free: Option<usize> },
    /// A slot that holds an element.
    Occupied(OccupiedEntry<T>),
}

/// A doubly-linked list backed by a vector of slots. The vector only grows:
/// freed slots are chained together and reused.
pub struct IndexList<T> {
    contents: Vec<Entry<T>>,
    generation: usize,
    next_free: Option<usize>,
    head: Option<usize>,
    tail: Option<usize>,
    count: usize,
    /// The occupied slots, in sequence order.
    order: Ghost<Seq<usize>>,
    /// The free slots, in free-chain order.
    free: Ghost<Seq<usize>>,
}

spec fn entry_item<T>(e: Entry<T>) -> T {
    match e {
        Entry::Occupied(oc) => oc.item,
        Entry::Free { .. } => arbitrary(),
    }
}

spec fn entry_generation<T>(e: Entry<T>) -> usize {
    match e {
        Entry::Occupied(oc) => oc.generation,
        Entry::Free { .. } => 0,
    }
}

/// Slot `i` stands at position `k` of `s` or next to it.
spec fn near(s: Seq<usize>, k: int, i: int) -> bool {
    ||| link_at(s, k - 1) == Some(i as usize)
    ||| link_at(s, k) == Some(i as usize)
    ||| link_at(s, k + 1) == Some(i as usize)
}

/// The neighbour of position `k` in a chain of slots: `None` past either end.
pub open spec fn link_at(s: Seq<usize>, k: int) -> Option<usize> {
    if 0 <= k < s.len() {
        Some(s[k])
    } else {
        None
    }
}

impl<T> IndexList<T> {
    /// The slot at position `k` of the sequence is occupied and linked to its neighbours.
    spec fn linked_at(&self, k: int) -> bool {
        let s = self.order@[k] as int;
        &&& s < self.contents@.len()
        &&& self.contents@[s] matches Entry::Occupied(oc) && {
            &&& oc.prev == link_at(self.order@, k - 1)
            &&& oc.next == link_at(self.order@, k + 1)
            &&& oc.generation <= self.generation
        }
    }

    /// The slot at position `k` of the free chain is free and linked to the next one.
    spec fn chained_at(&self, k: int) -> bool {
        let s = self.free@[k] as int;
        &&& s < self.contents@.len()
        &&& self.contents@[s] matches Entry::Free { next_free } && next_free == link_at(
            self.free@,
            k + 1,
        )
    }

    /// Slot `key.0` holds an element under generation `key.1`.
    spec fn holds(&self, key: (usize, usize)) -> bool {
        &&& key.0 < self.contents@.len()
        &&& self.contents@[key.0 as int] matches Entry::Occupied(oc) && oc.generation == key.1
    }

    /// The list is valid: its links realise its model, and the model is valid.
    pub open spec fn wf(&self) -> bool {
        self.inv() && self@.wf()
    }

    /// The links, the free chain and the counters agree with the ghost order of
    /// the occupied slots and of the free ones.
    pub closed spec fn inv(&self) -> bool {
        &&& self.order@.no_duplicates()
        &&& self.free@.no_duplicates()
        &&& forall|k: int| 0 <= k < self.order@.len() ==> #[trigger] self.linked_at(k)
        &&& forall|k: int| 0 <= k < self.free@.len() ==> #[trigger] self.chained_at(k)
        &&& forall|i: int|
            0 <= i < self.contents@.len() ==> (#[trigger] self.contents@[i] is Occupied
                ==> self.order@.contains(i as usize)) && (self.contents@[i] is Free
                ==> self.free@.contains(i as usize))
        &&& self.order@.len() + self.free@.len() == self.contents@.len()
        &&& self.count == self.order@.len()
        &&& self.head == link_at(self.order@, 0)
        &&& self.tail == link_at(self.order@, self.order@.len() - 1)
        &&& self.next_free == link_at(self.free@, 0)
    }

    /// The slots of the backing store.
    pub closed spec fn slots(&self) -> Seq<Entry<T>> {
        self.contents@
    }

    /// The slot of the first element.
    pub closed spec fn head_slot(&self) -> Option<usize> {
        self.head
    }

    /// The slot of the last element.
    pub closed spec fn tail_slot(&self) -> Option<usize> {
        self.tail
    }
}

impl<T> View for IndexList<T> {
    type V = ListModel<T>;

    closed spec fn view(&self) -> ListModel<T> {
        ListModel {
            items: Seq::new(self.order@.len(), |k: int| entry_item(self.contents@[self.order@[k] as int])),
            keys: Seq::new(
                self.order@.len(),
                |k: int| (self.order@[k], entry_generation(self.contents@[self.order@[k] as int])),
            ),
            free: self.free@,
            slots: self.contents@.len(),
            generation: self.generation,
        }
    }
}

impl<T> IndexList<T> {
    /// Creates an empty list.
    pub fn new() -> (r: Self)
        ensures
            r.wf(),
            r@ == ListModel::<T>::empty(),
    {
        Self::with_capacity(0)
    }

    /// Creates an empty list with room for `capacity` elements before the
    /// backing store grows.
    pub fn with_capacity(capacity: usize) -> (r: Self)
        ensures
            r.wf(),
            r@ == ListModel::<T>::empty(),
    {
        let r = IndexList {
            contents: Vec::with_capacity(capacity),
            generation: 0,
            next_free: None,
            head: None,
            tail: None,
            count: 0,
            order: Ghost(Seq::empty()),
            free: Ghost(Seq::empty()),
        };
        proof {
            assert(r@.items =~= seq![]);
            assert(r@.keys =~= seq![]);
        }
        r
    }
}

impl<T> Default for IndexList<T> {
    fn default() -> (r: Self)
        ensures
            r.wf(),
            r@ == ListModel::<T>::empty(),
    {
        Self::new()
    }
}

impl<T> IndexList<T> {
    /// The links determine a valid model.
    proof fn lemma_model_wf(&self)
        requires
            self.inv(),
        ensures
            self@.wf(),
    {
        let m = self@;
        assert forall|i: int| 0 <= i < m.keys.len() implies {
            &&& (#[trigger] m.keys[i]).0 < m.slots
            &&& m.keys[i].1 <= m.generation
            &&& !m.free.contains(m.keys[i].0)
        } by {
            assert(self.linked_at(i));
            if m.free.contains(m.keys[i].0) {
                let j = m.free.index_of(m.keys[i].0);
                assert(self.chained_at(j));
            }
        }
        assert forall|i: int| 0 <= i < m.free.len() implies #[trigger] m.free[i] < m.slots by {
            assert(self.chained_at(i));
        }
    }

    /// What `link_new` leaves behind is a valid list with the element inserted.
    #[verifier::rlimit(40)]
    proof fn lemma_link_new(a: Self, b: Self, k: int, item: T)
        requires
            a.wf(),
            0 <= k <= a.order@.len(),
            b.order@ == a.order@.insert(k, b.order@[k]),
            !a.order@.contains(b.order@[k]),
            b.generation == a.generation,
            b.count == a.count + 1,
            b.head == link_at(b.order@, 0),
            b.tail == link_at(b.order@, b.order@.len() - 1),
            b.next_free == link_at(b.free@, 0),
            ({
                let slot = b.order@[k];
                ||| a.free@.len() > 0 && slot == a.free@[0] && b.free@ == a.free@.drop_first()
                    && b.contents@.len() == a.contents@.len()
                ||| a.free@.len() == 0 && slot == a.contents@.len() && b.free@ == a.free@
                    && b.contents@.len() == a.contents@.len() + 1
            }),
            b.contents@[b.order@[k] as int] == Entry::Occupied(
                OccupiedEntry {
                    item,
                    generation: a.generation,
                    next: link_at(b.order@, k + 1),
                    prev: link_at(b.order@, k - 1),
                },
            ),
            forall|i: int|
                0 <= i < a.contents@.len() && !near(b.order@, k, i) ==> b.contents@[i]
                    == a.contents@[i],
            k > 0 ==> b.contents@[b.order@[k - 1] as int] == Entry::Occupied(
                OccupiedEntry {
                    next: Some(b.order@[k]),
                    ..a.contents@[b.order@[k - 1] as int]->Occupied_0
                },
            ),
            k < a.order@.len() ==> b.contents@[b.order@[k + 1] as int] == Entry::Occupied(
                OccupiedEntry {
                    prev: Some(b.order@[k]),
                    ..a.contents@[b.order@[k + 1] as int]->Occupied_0
                },
            ),
        ensures
            b.wf(),
            b@ == a@.insert_at(k, item),
    {
        let o = a.order@;
        let o2 = b.order@;
        let c0 = a.contents@;
        let c = b.contents@;
        let slot = o2[k];
        assert(c.len() == b.contents.len() && c0.len() == a.contents.len());
        assert(forall|j: int| 0 <= j < o.len() ==> #[trigger] a.linked_at(j));
        assert(forall|j: int| 0 <= j < a.free@.len() ==> #[trigger] a.chained_at(j));
        assert(o2.no_duplicates());
        a@.items.insert_ensures(k, item);
        a@.keys.insert_ensures(k, a@.fresh_key());
        assert forall|j: int| 0 <= j < o2.len() implies #[trigger] b.linked_at(j) && b@.items[j]
            == a@.items.insert(k, item)[j] && b@.keys[j] == a@.keys.insert(k, a@.fresh_key())[j] by {
            if j < k - 1 {
                assert(!near(o2, k, o2[j] as int));
                assert(a.linked_at(j));
                assert(a@.items[j] == entry_item(c0[o[j] as int]));
                assert(a@.keys[j].1 == entry_generation(c0[o[j] as int]));
                assert(link_at(o2, j - 1) == link_at(o, j - 1));
                assert(link_at(o2, j + 1) == link_at(o, j + 1));
                assert(b.linked_at(j));
                assert(b@.items[j] == a@.items.insert(k, item)[j]);
                assert(b@.keys[j] == a@.keys.insert(k, a@.fresh_key())[j]);
            } else if j == k - 1 {
                assert(a.linked_at(j));
                assert(a@.items[j] == entry_item(c0[o[j] as int]));
                assert(a@.keys[j].1 == entry_generation(c0[o[j] as int]));
                assert(link_at(o2, j - 1) == link_at(o, j - 1));
                assert(b.linked_at(j));
                assert(b@.items[j] == a@.items.insert(k, item)[j]);
                assert(b@.keys[j] == a@.keys.insert(k, a@.fresh_key())[j]);
            } else if j == k + 1 {
                assert(a.linked_at(k));
                assert(a@.items[k] == entry_item(c0[o[k] as int]));
                assert(a@.keys[k].1 == entry_generation(c0[o[k] as int]));
                assert(link_at(o2, j + 1) == link_at(o, k + 1));
                assert(b.linked_at(j));
                assert(b@.items[j] == a@.items.insert(k, item)[j]);
                assert(b@.keys[j] == a@.keys.insert(k, a@.fresh_key())[j]);
            } else if j > k + 1 {
                assert(!near(o2, k, o2[j] as int));
                assert(a.linked_at(j - 1));
                assert(a@.items[j - 1] == entry_item(c0[o[j - 1] as int]));
                assert(a@.keys[j - 1].1 == entry_generation(c0[o[j - 1] as int]));
                assert(link_at(o2, j - 1) == link_at(o, j - 2));
                assert(link_at(o2, j + 1) == link_at(o, j));
                assert(b.linked_at(j));
                assert(b@.items[j] == a@.items.insert(k, item)[j]);
                assert(b@.keys[j] == a@.keys.insert(k, a@.fresh_key())[j]);
            } else {
                if a.free@.len() > 0 {
                    assert(a.chained_at(0));
                }
                assert(b.linked_at(j));
                assert(b@.items[j] == a@.items.insert(k, item)[j]);
                assert(b@.keys[j] == a@.keys.insert(k, a@.fresh_key())[j]);
            }
        }
        assert(o2.no_duplicates());
        let f2 = b.free@;
        assert forall|j: int| 0 <= j < f2.len() implies #[trigger] b.chained_at(j) by {
            assert(f2[j] == a.free@[j + 1]);
            assert(a.chained_at(j + 1));
            assert(!near(o2, k, f2[j] as int)) by {
                if k > 0 {
                    assert(a.linked_at(k - 1));
                }
                if k < o.len() {
                    assert(a.linked_at(k));
                }
            }
            assert(link_at(f2, j + 1) == link_at(a.free@, j + 2));
        }
        assert forall|i: int| 0 <= i < c.len() implies (#[trigger] c[i] is Occupied
            ==> o2.contains(i as usize)) && (c[i] is Free ==> f2.contains(i as usize)) by {
            if o2[k] == i as usize {
                assert(c[i] is Occupied);
            } else if link_at(o2, k - 1) == Some(i as usize) {
                assert(o2[k - 1] == i as usize);
                assert(c[i] is Occupied);
            } else if link_at(o2, k + 1) == Some(i as usize) {
                assert(o2[k + 1] == i as usize);
                assert(c[i] is Occupied);
            } else if c0[i] is Occupied {
                assert(!near(o2, k, i));
                assert(i < c0.len());
                assert(c[i] == c0[i]);
                assert(o.contains(i as usize));
                let j = o.index_of(i as usize);
                assert(o[j] == i as usize);
                assert(o2[if j < k { j } else { j + 1 }] == i as usize);
            } else {
                assert(!near(o2, k, i));
                assert(i < c0.len());
                assert(c[i] == c0[i]);
                assert(a.free@.contains(i as usize));
                let j = a.free@.index_of(i as usize);
                assert(a.free@[j] == i as usize);
                assert(j != 0);
                assert(f2[j - 1] == i as usize);
            }
        }
        assert(b.inv());
        b.lemma_model_wf();
        let items2 = a@.items.insert(k, item);
        let keys2 = a@.keys.insert(k, a@.fresh_key());
        assert forall|j: int| 0 <= j < items2.len() implies #[trigger] b@.items[j] == items2[j] by {
            assert(b.linked_at(j));
        }
        assert forall|j: int| 0 <= j < keys2.len() implies #[trigger] b@.keys[j] == keys2[j] by {
            assert(b.linked_at(j));
        }
        o.insert_ensures(k, slot);
        assert_seqs_equal!(b@.items, items2);
        assert_seqs_equal!(b@.keys, keys2);
        assert(b@.keys =~= a@.keys.insert(k, a@.fresh_key()));
    }

    /// Writes `item` into a free slot, or a new one, and links it in at position
    /// `k` of the sequence, between the slots `prev` and `next`.
    fn link_new(&mut self, k: Ghost<int>, prev: Option<usize>, next: Option<usize>, item: T) -> (r:
        Index<T>)
        requires
            old(self).wf(),
            0 <= k@ <= old(self).order@.len(),
            prev == link_at(old(self).order@, k@ - 1),
            next == link_at(old(self).order@, k@),
        ensures
            final(self).wf(),
            final(self)@ == old(self)@.insert_at(k@, item),
            r@ == old(self)@.fresh_key(),
    {
        let ghost old_self = *self;
        let entry = Entry::Occupied(OccupiedEntry { item, generation: self.generation, next, prev });
        let slot: usize;
        match self.next_free {
            Some(f) => {
                proof {
                    assert(self.chained_at(0));
                }
                let following = match &self.contents[f] {
                    Entry::Free { next_free } => *next_free,
                    Entry::Occupied(_) => unreached(),
                };
                self.contents[f] = entry;
                self.next_free = following;
                slot = f;
                proof {
                    self.free@ = self.free@.drop_first();
                }
            },
            None => {
                self.contents.push(entry);
                slot = self.contents.len() - 1;
            },
        }
        match prev {
            Some(p) => {
                proof {
                    assert(old_self.linked_at(k@ - 1));
                }
                match &mut self.contents[p] {
                    Entry::Occupied(oc) => {
                        oc.next = Some(slot);
                    },
                    Entry::Free { .. } => unreached(),
                }
            },
            None => {
                self.head = Some(slot);
            },
        }
        match next {
            Some(q) => {
                proof {
                    assert(old_self.linked_at(k@));
                }
                match &mut self.contents[q] {
                    Entry::Occupied(oc) => {
                        oc.prev = Some(slot);
                    },
                    Entry::Free { .. } => unreached(),
                }
            },
            None => {
                self.tail = Some(slot);
            },
        }
        proof {
            let o = old_self.order@;
            assert(forall|j: int| 0 <= j < o.len() ==> #[trigger] old_self.linked_at(j));
            assert(!o.contains(slot)) by {
                if o.contains(slot) {
                    assert(old_self.linked_at(o.index_of(slot)));
                }
            }
            assert(old_self.count < self.contents.len());
            self.order@ = o.insert(k@, slot);
        }
        self.count = self.count + 1;
        proof {
            Self::lemma_link_new(old_self, *self, k@, item);
        }
        Index::new(slot, self.generation)
    }
}

impl<T> IndexList<T> {
    /// A handle is valid exactly when its slot is occupied under its generation,
    /// and then its element stands where the slot does in the sequence.
    proof fn lemma_valid(&self, key: (usize, usize))
        requires
            self.wf(),
        ensures
            self@.valid(key) <==> self.holds(key),
            self@.valid(key) ==> {
                let k = self@.pos(key);
                &&& 0 <= k < self.order@.len()
                &&& self.order@[k] == key.0
                &&& self.linked_at(k)
            },
    {
        let m = self@;
        if m.valid(key) {
            let k = m.pos(key);
            assert(m.keys[k] == key);
            assert(self.linked_at(k));
        }
        if key.0 < self.contents@.len() && self.contents@[key.0 as int] is Occupied {
            let j = self.order@.index_of(key.0);
            assert(self.order@[j] == key.0);
            assert(self.linked_at(j));
            if entry_generation(self.contents@[key.0 as int]) == key.1 {
                assert(m.keys[j] == key);
            }
        }
    }

    /// The entry under a valid handle.
    fn find(&self, index: Index<T>) -> (r: Option<&OccupiedEntry<T>>)
        requires
            self.wf(),
        ensures
            r is Some <==> self@.valid(index@),
            r matches Some(oc) ==> self.contents@[index@.0 as int] == Entry::Occupied(*oc),
    {
        proof {
            self.lemma_valid(index@);
        }
        let slot = index.index();
        if slot >= self.contents.len() {
            return None;
        }
        match &self.contents[slot] {
            Entry::Occupied(oc) => {
                if oc.generation == index.generation() {
                    Some(oc)
                } else {
                    None
                }
            },
            Entry::Free { .. } => None,
        }
    }

    /// The handle of the element in `slot`, which the list links to.
    fn handle_at(&self, slot: usize, k: Ghost<int>) -> (r: Index<T>)
        requires
            self.wf(),
            0 <= k@ < self.order@.len(),
            self.order@[k@] == slot,
        ensures
            r@ == self@.keys[k@],
    {
        proof {
            assert(self.linked_at(k@));
        }
        match &self.contents[slot] {
            Entry::Occupied(oc) => Index::new(slot, oc.generation),
            Entry::Free { .. } => unreached(),
        }
    }

    /// Appends an element to the back of the list and returns its handle.
    pub fn push_back(&mut self, item: T) -> (r: Index<T>)
        requires
            old(self).wf(),
        ensures
            final(self).wf(),
            final(self)@ == old(self)@.push_back(item),
            r@ == old(self)@.fresh_key(),
    {
        let tail = self.tail;
        let k = Ghost(self.order@.len() as int);
        self.link_new(k, tail, None, item)
    }

    /// Inserts an element at the front of the list and returns its handle.
    pub fn push_front(&mut self, item: T) -> (r: Index<T>)
        requires
            old(self).wf(),
        ensures
            final(self).wf(),
            final(self)@ == old(self)@.push_front(item),
            r@ == old(self)@.fresh_key(),
    {
        let head = self.head;
        self.link_new(Ghost(0), None, head, item)
    }

    /// Inserts an element just before the one that `index` addresses and returns
    /// its handle, or returns `None` and changes nothing if `index` is not valid.
    pub fn insert_before(&mut self, index: Index<T>, item: T) -> (r: Option<Index<T>>)
        requires
            old(self).wf(),
        ensures
            final(self).wf(),
            match r {
                Some(h) => {
                    &&& old(self)@.valid(index@)
                    &&& final(self)@ == old(self)@.insert_before(index@, item)
                    &&& h@ == old(self)@.fresh_key()
                },
                None => !old(self)@.valid(index@) && *final(self) == *old(self),
            },
    {
        proof {
            self.lemma_valid(index@);
        }
        let prev = match self.find(index) {
            Some(oc) => oc.prev,
            None => {
                return None;
            },
        };
        let k = Ghost(self@.pos(index@));
        Some(self.link_new(k, prev, Some(index.index()), item))
    }

    /// Inserts an element just after the one that `index` addresses and returns
    /// its handle, or returns `None` and changes nothing if `index` is not valid.
    pub fn insert_after(&mut self, index: Index<T>, item: T) -> (r: Option<Index<T>>)
        requires
            old(self).wf(),
        ensures
            final(self).wf(),
            match r {
                Some(h) => {
                    &&& old(self)@.valid(index@)
                    &&& final(self)@ == old(self)@.insert_after(index@, item)
                    &&& h@ == old(self)@.fresh_key()
                },
                None => !old(self)@.valid(index@) && *final(self) == *old(self),
            },
    {
        proof {
            self.lemma_valid(index@);
        }
        let next = match self.find(index) {
            Some(oc) => oc.next,
            None => {
                return None;
            },
        };
        let k = Ghost(self@.pos(index@) + 1);
        Some(self.link_new(k, Some(index.index()), next, item))
    }

    /// Returns the element that `index` addresses, if the handle is valid.
    pub fn get(&self, index: Index<T>) -> (r: Option<&T>)
        requires
            self.wf(),
        ensures
            match r {
                Some(x) => self@.valid(index@) && *x == self@.items[self@.pos(index@)],
                None => !self@.valid(index@),
            },
    {
        proof {
            self.lemma_valid(index@);
        }
        match self.find(index) {
            Some(oc) => Some(&oc.item),
            None => None,
        }
    }

    /// Returns the handle of the element after the one that `index` addresses;
    /// `None` if the handle is not valid or addresses the last element.
    pub fn next_index(&self, index: Index<T>) -> (r: Option<Index<T>>)
        requires
            self.wf(),
        ensures
            match r {
                Some(h) => {
                    &&& self@.valid(index@)
                    &&& self@.pos(index@) + 1 < self@.len()
                    &&& h@ == self@.keys[self@.pos(index@) + 1]
                },
                None => !self@.valid(index@) || self@.pos(index@) + 1 == self@.len(),
            },
    {
        proof {
            self.lemma_valid(index@);
        }
        match self.find(index) {
            Some(oc) => match oc.next {
                Some(n) => Some(self.handle_at(n, Ghost(self@.pos(index@) + 1))),
                None => None,
            },
            None => None,
        }
    }

    /// Returns the handle of the element before the one that `index` addresses;
    /// `None` if the handle is not valid or addresses the first element.
    pub fn prev_index(&self, index: Index<T>) -> (r: Option<Index<T>>)
        requires
            self.wf(),
        ensures
            match r {
                Some(h) => {
                    &&& self@.valid(index@)
                    &&& self@.pos(index@) > 0
                    &&& h@ == self@.keys[self@.pos(index@) - 1]
                },
                None => !self@.valid(index@) || self@.pos(index@) == 0,
            },
    {
        proof {
            self.lemma_valid(index@);
        }
        match self.find(index) {
            Some(oc) => match oc.prev {
                Some(p) => Some(self.handle_at(p, Ghost(self@.pos(index@) - 1))),
                None => None,
            },
            None => None,
        }
    }
}

impl<T> IndexList<T> {
    /// What `unlink` leaves behind is a valid list without the element.
    #[verifier::rlimit(40)]
    proof fn lemma_unlink(a: Self, b: Self, k: int)
        requires
            a.wf(),
            0 <= k < a.order@.len(),
            b.order@ == a.order@.remove(k),
            b.free@ == seq![a.order@[k]] + a.free@,
            b.generation == a.generation,
            b.count == a.count - 1,
            b.head == link_at(b.order@, 0),
            b.tail == link_at(b.order@, b.order@.len() - 1),
            b.next_free == Some(a.order@[k]),
            b.contents@.len() == a.contents@.len(),
            b.contents@[a.order@[k] as int] == (Entry::<T>::Free { next_free: link_at(a.free@, 0) }),
            forall|i: int|
                0 <= i < a.contents@.len() && !near(a.order@, k, i) ==> b.contents@[i]
                    == a.contents@[i],
            k > 0 ==> b.contents@[a.order@[k - 1] as int] == Entry::Occupied(
                OccupiedEntry {
                    next: link_at(a.order@, k + 1),
                    ..a.contents@[a.order@[k - 1] as int]->Occupied_0
                },
            ),
            (k + 1 < a.order@.len() ==> b.contents@[a.order@[k + 1] as int] == Entry::Occupied(
                OccupiedEntry {
                    prev: link_at(a.order@, k - 1),
                    ..a.contents@[a.order@[k + 1] as int]->Occupied_0
                },
            )),
        ensures
            b.wf(),
            b@ == a@.take_at(k),
    {
        let o = a.order@;
        let o2 = b.order@;
        let c0 = a.contents@;
        let c = b.contents@;
        let slot = o[k];
        let f2 = b.free@;
        assert(c.len() == b.contents.len() && c0.len() == a.contents.len());
        assert(forall|j: int| 0 <= j < o.len() ==> #[trigger] a.linked_at(j));
        assert(forall|j: int| 0 <= j < a.free@.len() ==> #[trigger] a.chained_at(j));
        assert(!a.free@.contains(slot)) by {
            assert(a.linked_at(k));
            if a.free@.contains(slot) {
                let j = a.free@.index_of(slot);
                assert(a.free@[j] == slot);
                assert(a.chained_at(j));
            }
        }
        assert forall|j: int| 0 <= j < o2.len() implies #[trigger] b.linked_at(j) by {
            if j < k - 1 {
                assert(o2[j] == o[j]);
                assert(a.linked_at(j));
                assert(!near(o, k, o[j] as int));
                assert(link_at(o2, j - 1) == link_at(o, j - 1));
                assert(link_at(o2, j + 1) == link_at(o, j + 1));
            } else if j == k - 1 {
                assert(o2[j] == o[j]);
                assert(a.linked_at(j));
                assert(link_at(o2, j - 1) == link_at(o, j - 1));
                assert(link_at(o2, j + 1) == link_at(o, k + 1));
            } else if j == k {
                assert(o2[j] == o[k + 1]);
                assert(a.linked_at(k + 1));
                assert(link_at(o2, j - 1) == link_at(o, k - 1));
                assert(link_at(o2, j + 1) == link_at(o, k + 2));
            } else {
                assert(o2[j] == o[j + 1]);
                assert(!near(o, k, o[j + 1] as int));
                assert(a.linked_at(j + 1));
                assert(link_at(o2, j - 1) == link_at(o, j));
                assert(link_at(o2, j + 1) == link_at(o, j + 2));
            }
        }
        assert forall|j: int| 0 <= j < f2.len() implies #[trigger] b.chained_at(j) by {
            if j > 0 {
                assert(f2[j] == a.free@[j - 1]);
                assert(a.chained_at(j - 1));
                assert(!near(o, k, f2[j] as int)) by {
                    assert(a.linked_at(k));
                    if k > 0 {
                        assert(a.linked_at(k - 1));
                    }
                    if k + 1 < o.len() {
                        assert(a.linked_at(k + 1));
                    }
                }
                assert(link_at(f2, j + 1) == link_at(a.free@, j));
                assert(c[f2[j] as int] == c0[f2[j] as int]);
            } else {
                assert(a.linked_at(k));
                assert(f2[0] == slot);
                assert(link_at(f2, 1) == link_at(a.free@, 0));
            }
        }
        assert(o2.no_duplicates());
        assert(f2.no_duplicates());
        assert forall|i: int| 0 <= i < c.len() implies (#[trigger] c[i] is Occupied
            ==> o2.contains(i as usize)) && (c[i] is Free ==> f2.contains(i as usize)) by {
            if i == slot {
                assert(f2[0] == i as usize);
            } else if link_at(o, k - 1) == Some(i as usize) {
                assert(o2[k - 1] == i as usize);
            } else if link_at(o, k + 1) == Some(i as usize) {
                assert(o2[k] == i as usize);
            } else {
                assert(!near(o, k, i));
                assert(c[i] == c0[i]);
                if c0[i] is Occupied {
                    assert(o.contains(i as usize));
                    let j = o.index_of(i as usize);
                    assert(o[j] == i as usize);
                    assert(o2[if j < k { j } else { j - 1 }] == i as usize);
                } else {
                    assert(a.free@.contains(i as usize));
                    let j = a.free@.index_of(i as usize);
                    assert(a.free@[j] == i as usize);
                    assert(f2[j + 1] == i as usize);
                }
            }
        }
        assert(b.inv());
        b.lemma_model_wf();
        let items2 = a@.items.remove(k);
        let keys2 = a@.keys.remove(k);
        a@.items.remove_ensures(k);
        a@.keys.remove_ensures(k);
        o.remove_ensures(k);
        assert forall|j: int| 0 <= j < items2.len() implies #[trigger] b@.items[j] == items2[j] by {
            let i = if j < k { j } else { j + 1 };
            assert(a.linked_at(i));
            assert(o2[j] == o[i]);
            if i != k - 1 && i != k + 1 {
                assert(!near(o, k, o[i] as int));
            }
            assert(a@.items[i] == entry_item(c0[o[i] as int]));
        }
        assert forall|j: int| 0 <= j < keys2.len() implies #[trigger] b@.keys[j] == keys2[j] by {
            let i = if j < k { j } else { j + 1 };
            assert(a.linked_at(i));
            assert(o2[j] == o[i]);
            if i != k - 1 && i != k + 1 {
                assert(!near(o, k, o[i] as int));
            }
            assert(a@.keys[i].1 == entry_generation(c0[o[i] as int]));
        }
        assert_seqs_equal!(b@.items, items2);
        assert_seqs_equal!(b@.keys, keys2);
    }

    /// Takes the element at position `k` of the sequence out of its slot, links
    /// its neighbours to each other and puts the slot on the free chain.
    fn unlink(&mut self, k: Ghost<int>, slot: usize) -> (r: T)
        requires
            old(self).wf(),
            0 <= k@ < old(self).order@.len(),
            old(self).order@[k@] == slot,
        ensures
            final(self).wf(),
            final(self)@ == old(self)@.take_at(k@),
            r == old(self)@.items[k@],
    {
        let ghost old_self = *self;
        proof {
            assert(self.linked_at(k@));
            if k@ > 0 {
                assert(self.linked_at(k@ - 1));
            }
            if k@ + 1 < self.order@.len() {
                assert(self.linked_at(k@ + 1));
            }
        }
        let (prev, next) = match &self.contents[slot] {
            Entry::Occupied(oc) => (oc.prev, oc.next),
            Entry::Free { .. } => unreached(),
        };
        match prev {
            Some(p) => match &mut self.contents[p] {
                Entry::Occupied(oc) => {
                    oc.next = next;
                },
                Entry::Free { .. } => unreached(),
            },
            None => {
                self.head = next;
            },
        }
        match next {
            Some(q) => match &mut self.contents[q] {
                Entry::Occupied(oc) => {
                    oc.prev = prev;
                },
                Entry::Free { .. } => unreached(),
            },
            None => {
                self.tail = prev;
            },
        }
        let mut entry = Entry::Free { next_free: self.next_free };
        std::mem::swap(&mut self.contents[slot], &mut entry);
        self.next_free = Some(slot);
        self.count = self.count - 1;
        proof {
            self.order@ = self.order@.remove(k@);
            self.free@ = seq![slot] + self.free@;
            Self::lemma_unlink(old_self, *self, k@);
        }
        match entry {
            Entry::Occupied(oc) => oc.item,
            Entry::Free { .. } => unreached(),
        }
    }

    /// Removes the element that `index` addresses and returns it, or returns
    /// `None` and changes nothing if `index` is not valid. A successful removal
    /// advances the generation, so no handle issued so far addresses whatever
    /// later occupies the freed slot. The counter does not wrap: a removal
    /// needs it below `usize::MAX`.
    pub fn remove(&mut self, index: Index<T>) -> (r: Option<T>)
        requires
            old(self).wf(),
            old(self)@.valid(index@) ==> old(self)@.generation < usize::MAX,
        ensures
            final(self).wf(),
            match r {
                Some(x) => {
                    &&& old(self)@.valid(index@)
                    &&& x == old(self)@.items[old(self)@.pos(index@)]
                    &&& final(self)@ == old(self)@.remove(index@)
                },
                None => !old(self)@.valid(index@) && *final(self) == *old(self),
            },
    {
        proof {
            self.lemma_valid(index@);
        }
        if self.find(index).is_none() {
            return None;
        }
        let k = Ghost(self@.pos(index@));
        let item = self.unlink(k, index.index());
        let ghost before = *self;
        self.generation = self.generation + 1;
        proof {
            assert forall|j: int| 0 <= j < self.order@.len() implies #[trigger] self.linked_at(j) by {
                assert(before.linked_at(j));
            }
            assert forall|j: int| 0 <= j < self.free@.len() implies #[trigger] self.chained_at(j) by {
                assert(before.chained_at(j));
            }
            assert(self@.items =~= before@.items);
            assert(self@.keys =~= before@.keys);
        }
        Some(item)
    }
}

impl<T> IndexList<T> {
    /// Returns the number of elements.
    pub fn len(&self) -> (r: usize)
        requires
            self.wf(),
        ensures
            r == self@.len(),
    {
        self.count
    }

    /// Returns the generation that the next inserted element will carry.
    pub fn generation(&self) -> (r: usize)
        ensures
            r == self@.generation,
    {
        self.generation
    }

    /// Returns the slot that the next insertion reuses, if any slot is free.
    pub fn next_free(&self) -> (r: Option<usize>)
        requires
            self.wf(),
        ensures
            r == link_at(self@.free, 0),
    {
        self.next_free
    }

    /// Returns the slots of the backing store, occupied and free.
    pub fn entries(&self) -> (r: &Vec<Entry<T>>)
        ensures
            r@ == self.slots(),
    {
        &self.contents
    }

    /// Returns the first element, or `None` if the list is empty.
    pub fn head(&self) -> (r: Option<&T>)
        requires
            self.wf(),
        ensures
            match r {
                Some(x) => self@.len() > 0 && *x == self@.items[0],
                None => self@.len() == 0,
            },
    {
        match self.head {
            Some(h) => {
                proof {
                    assert(self.linked_at(0));
                }
                match &self.contents[h] {
                    Entry::Occupied(oc) => Some(&oc.item),
                    Entry::Free { .. } => unreached(),
                }
            },
            None => None,
        }
    }

    /// Returns the first element for mutation, or `None` if the list is empty.
    pub fn head_mut(&mut self) -> (r: Option<&mut T>)
        requires
            old(self).wf(),
        ensures
            match r {
                Some(x) => {
                    &&& old(self)@.len() > 0
                    &&& *x == old(self)@.items[0]
                    &&& final(self).wf()
                    &&& final(self)@ == old(self)@.set(0, *final(x))
                },
                None => old(self)@.len() == 0 && *final(self) == *old(self),
            },
    {
        match self.head {
            Some(h) => {
                proof {
                    assert(self.linked_at(0));
                    Self::lemma_set_item(*self, 0);
                }
                let k = Ghost(0int);
                Some(self.item_mut(h, k))
            },
            None => None,
        }
    }

    /// The element in `slot`, at position `k` of the sequence, for mutation.
    fn item_mut(&mut self, slot: usize, k: Ghost<int>) -> (r: &mut T)
        requires
            old(self).wf(),
            0 <= k@ < old(self).order@.len(),
            old(self).order@[k@] == slot,
        ensures
            *r == old(self)@.items[k@],
            Self::item_replaced(*old(self), *final(self), k@, *final(r)),
    {
        proof {
            assert(self.linked_at(k@));
        }
        match &mut self.contents[slot] {
            Entry::Occupied(oc) => &mut oc.item,
            Entry::Free { .. } => unreached(),
        }
    }

    /// `b` is `a` with the element at position `k` replaced by `v`.
    spec fn item_replaced(a: Self, b: Self, k: int, v: T) -> bool {
        &&& b.contents@ == a.contents@.update(
            a.order@[k] as int,
            Entry::Occupied(OccupiedEntry { item: v, ..a.contents@[a.order@[k] as int]->Occupied_0 }),
        )
        &&& b.generation == a.generation
        &&& b.next_free == a.next_free
        &&& b.head == a.head
        &&& b.tail == a.tail
        &&& b.count == a.count
        &&& b.order == a.order
        &&& b.free == a.free
    }

    /// Replacing the element in an occupied slot keeps the list valid and
    /// replaces that element in the model.
    proof fn lemma_set_item(a: Self, k: int)
        requires
            a.wf(),
            0 <= k < a.order@.len(),
        ensures
            forall|b: Self, v: T| #[trigger]
                Self::item_replaced(a, b, k, v) ==> b.wf() && b@ == a@.set(k, v),
    {
        assert forall|b: Self, v: T| #[trigger] Self::item_replaced(a, b, k, v) implies b.wf() && b@
            == a@.set(k, v) by {
            let s = a.order@[k];
            assert(a.linked_at(k));
            assert forall|j: int| 0 <= j < b.order@.len() implies #[trigger] b.linked_at(j) by {
                assert(a.linked_at(j));
            }
            assert forall|j: int| 0 <= j < b.free@.len() implies #[trigger] b.chained_at(j) by {
                assert(a.chained_at(j));
            }
            assert forall|i: int| 0 <= i < b.contents@.len() implies (
            #[trigger] b.contents@[i] is Occupied ==> b.order@.contains(i as usize)) && (
            b.contents@[i] is Free ==> b.free@.contains(i as usize)) by {
                assert(a.contents@[i] is Occupied ==> a.order@.contains(i as usize));
            }
            assert forall|j: int| 0 <= j < b.order@.len() implies #[trigger] b@.items[j] == a@.set(
                k,
                v,
            ).items[j] by {
                assert(a.linked_at(j));
                if j != k {
                    assert(b.order@[j] != s);
                }
            }
            assert(b@.items =~= a@.set(k, v).items);
            assert(b@.keys =~= a@.keys) by {
                assert forall|j: int| 0 <= j < b.order@.len() implies #[trigger] b@.keys[j] == a@.keys[j] by {
                    assert(a.linked_at(j));
                    if j != k {
                        assert(b.order@[j] != s);
                    }
                }
            }
        }
    }

    /// Returns the handle of the first element, or `None` if the list is empty.
    pub fn head_index(&self) -> (r: Option<Index<T>>)
        requires
            self.wf(),
        ensures
            match r {
                Some(h) => self@.len() > 0 && h@ == self@.keys[0],
                None => self@.len() == 0,
            },
    {
        match self.head {
            Some(h) => Some(self.handle_at(h, Ghost(0))),
            None => None,
        }
    }

    /// Returns the handle of the last element, or `None` if the list is empty.
    pub fn tail_index(&self) -> (r: Option<Index<T>>)
        requires
            self.wf(),
        ensures
            match r {
                Some(h) => self@.len() > 0 && h@ == self@.keys.last(),
                None => self@.len() == 0,
            },
    {
        match self.tail {
            Some(t) => Some(self.handle_at(t, Ghost(self.order@.len() - 1))),
            None => None,
        }
    }

    /// Returns the element that `index` addresses for mutation, if the handle is valid.
    pub fn get_mut(&mut self, index: Index<T>) -> (r: Option<&mut T>)
        requires
            old(self).wf(),
        ensures
            match r {
                Some(x) => {
                    &&& old(self)@.valid(index@)
                    &&& *x == old(self)@.items[old(self)@.pos(index@)]
                    &&& final(self).wf()
                    &&& final(self)@ == old(self)@.set(old(self)@.pos(index@), *final(x))
                },
                None => !old(self)@.valid(index@) && *final(self) == *old(self),
            },
    {
        proof {
            self.lemma_valid(index@);
        }
        if self.find(index).is_none() {
            return None;
        }
        let k = Ghost(self@.pos(index@));
        proof {
            Self::lemma_set_item(*self, k@);
        }
        Some(self.item_mut(index.index(), k))
    }

    /// Removes the first element and returns it, or returns `None` if the list
    /// is empty. Like `remove`, it needs room to advance the generation.
    pub fn pop_front(&mut self) -> (r: Option<T>)
        requires
            old(self).wf(),
            old(self)@.len() > 0 ==> old(self)@.generation < usize::MAX,
        ensures
            final(self).wf(),
            match r {
                Some(x) => {
                    &&& old(self)@.len() > 0
                    &&& x == old(self)@.items[0]
                    &&& final(self)@ == old(self)@.remove_at(0)
                },
                None => old(self)@.len() == 0 && *final(self) == *old(self),
            },
    {
        match self.head {
            Some(h) => {
                let index = self.handle_at(h, Ghost(0));
                proof {
                    self@.lemma_pos(0);
                }
                self.remove(index)
            },
            None => None,
        }
    }
}

impl<T> IndexList<T> {
    /// Takes the first element out, without advancing the generation: for a
    /// list that is being consumed and will take no new elements.
    pub(crate) fn take_front(&mut self) -> (r: Option<T>)
        requires
            old(self).wf(),
        ensures
            final(self).wf(),
            match r {
                Some(x) => {
                    &&& old(self)@.len() > 0
                    &&& x == old(self)@.items[0]
                    &&& final(self)@ == old(self)@.take_at(0)
                },
                None => old(self)@.len() == 0 && *final(self) == *old(self),
            },
    {
        match self.head {
            Some(h) => Some(self.unlink(Ghost(0), h)),
            None => None,
        }
    }
}

impl<T: PartialEq> IndexList<T> {
    /// Returns the handle of the first element, in sequence order, that equals
    /// `item`, or `None` if there is none.
    pub fn index_of(&self, item: &T) -> (r: Option<Index<T>>)
        requires
            self.wf(),
        ensures
            match r {
                Some(h) => {
                    &&& self@.valid(h@)
                    &&& T::obeys_eq_spec() ==> self@.items[self@.pos(h@)].eq_spec(item)
                    &&& T::obeys_eq_spec() ==> forall|j: int|
                        0 <= j < self@.pos(h@) ==> !(#[trigger] self@.items[j]).eq_spec(item)
                },
                None => T::obeys_eq_spec() ==> forall|j: int|
                    0 <= j < self@.len() ==> !(#[trigger] self@.items[j]).eq_spec(item),
            },
    {
        let mut cur = self.head;
        let ghost mut j: int = 0;
        loop
            invariant
                self.wf(),
                0 <= j <= self.order@.len(),
                cur == link_at(self.order@, j),
                T::obeys_eq_spec() ==> forall|i: int|
                    0 <= i < j ==> !(#[trigger] self@.items[i]).eq_spec(item),
            decreases self.order@.len() - j,
        {
            match cur {
                None => {
                    return None;
                },
                Some(slot) => {
                    proof {
                        assert(self.linked_at(j));
                    }
                    match &self.contents[slot] {
                        Entry::Occupied(oc) => {
                            if oc.item == *item {
                                proof {
                                    self@.lemma_pos(j);
                                }
                                return Some(Index::new(slot, oc.generation));
                            }
                            cur = oc.next;
                        },
                        Entry::Free { .. } => {
                            return unreached();
                        },
                    }
                    proof {
                        j = j + 1;
                    }
                },
            }
        }
    }

    /// Returns `true` if some element equals `value`.
    pub fn contains(&self, value: &T) -> (r: bool)
        requires
            self.wf(),
        ensures
            T::obeys_eq_spec() ==> (r <==> exists|j: int|
                0 <= j < self@.len() && (#[trigger] self@.items[j]).eq_spec(value)),
    {
        self.index_of(value).is_some()
    }
}

/// The slots visited by following next-links from `cur`, for at most `fuel` steps.
pub open spec fn walk_next<T>(slots: Seq<Entry<T>>, cur: Option<usize>, fuel: nat) -> Seq<usize>
    decreases fuel,
{
    match cur {
        Some(i) => if fuel > 0 && i < slots.len() && slots[i as int] is Occupied {
            seq![i] + walk_next(slots, slots[i as int]->Occupied_0.next, (fuel - 1) as nat)
        } else {
            seq![]
        },
        None => seq![],
    }
}

/// The slots visited by following prev-links from `cur`, for at most `fuel` steps.
pub open spec fn walk_prev<T>(slots: Seq<Entry<T>>, cur: Option<usize>, fuel: nat) -> Seq<usize>
    decreases fuel,
{
    match cur {
        Some(i) => if fuel > 0 && i < slots.len() && slots[i as int] is Occupied {
            seq![i] + walk_prev(slots, slots[i as int]->Occupied_0.prev, (fuel - 1) as nat)
        } else {
            seq![]
        },
        None => seq![],
    }
}

impl<T> IndexList<T> {
    proof fn lemma_walk_next(&self, k: int, fuel: nat)
        requires
            self.inv(),
            0 <= k <= self.order@.len(),
            fuel >= self.order@.len() - k,
        ensures
            walk_next(self.contents@, link_at(self.order@, k), fuel) == self.order@.subrange(
                k,
                self.order@.len() as int,
            ),
        decreases self.order@.len() - k,
    {
        let o = self.order@;
        if k < o.len() {
            assert(self.linked_at(k));
            self.lemma_walk_next(k + 1, (fuel - 1) as nat);
            assert(o.subrange(k, o.len() as int) =~= seq![o[k]] + o.subrange(k + 1, o.len() as int));
        } else {
            assert(o.subrange(k, o.len() as int) =~= seq![]);
        }
    }

    proof fn lemma_walk_prev(&self, k: int, fuel: nat)
        requires
            self.inv(),
            -1 <= k < self.order@.len(),
            fuel >= k + 1,
        ensures
            walk_prev(self.contents@, link_at(self.order@, k), fuel) == self.order@.subrange(
                0,
                k + 1,
            ).reverse(),
        decreases k + 1,
    {
        let o = self.order@;
        if k >= 0 {
            assert(self.linked_at(k));
            self.lemma_walk_prev(k - 1, (fuel - 1) as nat);
            assert(o.subrange(0, k + 1).reverse() =~= seq![o[k]] + o.subrange(0, k).reverse());
        } else {
            assert(o.subrange(0, k + 1).reverse() =~= seq![]);
        }
    }

    /// Following next-links from the head visits the elements' slots in
    /// sequence order, `len` of them; following prev-links from the tail visits
    /// the same slots in reverse.
    pub proof fn lemma_traversals_agree(&self)
        requires
            self.wf(),
        ensures
            walk_next(self.slots(), self.head_slot(), self.slots().len()) == self@.keys.map_values(
                |key: (usize, usize)| key.0,
            ),
            walk_prev(self.slots(), self.tail_slot(), self.slots().len()) == walk_next(
                self.slots(),
                self.head_slot(),
                self.slots().len(),
            ).reverse(),
            walk_next(self.slots(), self.head_slot(), self.slots().len()).len() == self@.len(),
    {
        let o = self.order@;
        self.lemma_walk_next(0, self.contents@.len());
        self.lemma_walk_prev(o.len() - 1, self.contents@.len());
        assert(o.subrange(0, o.len() as int) =~= o);
        assert(self@.keys.map_values(|key: (usize, usize)| key.0) =~= o);
    }

    /// The first element has no predecessor and the last no successor; the
    /// list has a head and a tail exactly when it is not empty.
    pub proof fn lemma_boundaries(&self)
        requires
            self.wf(),
        ensures
            self.head_slot() is None <==> self@.len() == 0,
            self.tail_slot() is None <==> self@.len() == 0,
            self.head_slot() matches Some(h) ==> h < self.slots().len() && self.slots()[h as int] is Occupied
                && self.slots()[h as int]->Occupied_0.prev is None,
            self.tail_slot() matches Some(t) ==> t < self.slots().len() && self.slots()[t as int] is Occupied
                && self.slots()[t as int]->Occupied_0.next is None,
    {
        if self.order@.len() > 0 {
            assert(self.linked_at(0));
            assert(self.linked_at(self.order@.len() - 1));
        }
    }
}

} // verus!
