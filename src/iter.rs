use crate::handle::Index;
use crate::list::IndexList;
use crate::model::ListModel;
use vstd::prelude::*;

verus! {

/// Walks a list front to back, lending out each element.
pub struct Iter<'a, T> {
    list: &'a IndexList<T>,
    index: Option<Index<T>>,
}

impl<'a, T> Iter<'a, T> {
    /// The list is valid and the cursor addresses one of its elements, if any.
    pub closed spec fn wf(&self) -> bool {
        &&& self.list.wf()
        &&& self.index matches Some(h) ==> self.list@.valid(h@)
    }

    /// The elements not yet yielded, in order.
    pub closed spec fn rest(&self) -> Seq<T> {
        match self.index {
            Some(h) => self.list@.items.skip(self.list@.pos(h@)),
            None => seq![],
        }
    }

    /// Yields the next element, or `None` once every element has been yielded.
    pub fn next(&mut self) -> (r: Option<&'a T>)
        requires
            old(self).wf(),
        ensures
            final(self).wf(),
            match r {
                Some(x) => {
                    &&& old(self).rest().len() > 0
                    &&& *x == old(self).rest()[0]
                    &&& final(self).rest() == old(self).rest().drop_first()
                },
                None => old(self).rest().len() == 0 && final(self).rest() == old(self).rest(),
            },
    {
        match self.index {
            None => None,
            Some(index) => {
                let list = self.list;
                let next = list.next_index(index);
                proof {
                    let k = list@.pos(index@);
                    if k + 1 < list@.len() {
                        list@.lemma_pos(k + 1);
                    }
                    assert(list@.items.skip(k).drop_first() =~= list@.items.skip(k + 1));
                }
                self.index = next;
                list.get(index)
            },
        }
    }
}

/// Walks a list front to back, lending out each element for mutation.
pub struct IterMut<'a, T> {
    list: &'a mut IndexList<T>,
    index: Option<Index<T>>,
}

impl<'a, T> IterMut<'a, T> {
    /// The list is valid and the cursor addresses one of its elements, if any.
    pub closed spec fn wf(&self) -> bool {
        &&& self.list.wf()
        &&& self.index matches Some(h) ==> self.list@.valid(h@)
    }

    /// The list as it stands now.
    pub open spec fn current(&self) -> ListModel<T> {
        (*self.borrowed())@
    }

    /// Once the iterator is no longer used, the list is left as the iterator last saw it.
    pub proof fn lemma_resolved(&self)
        requires
            has_resolved(*self),
        ensures
            *final(self.borrowed()) == *self.borrowed(),
    {
    }

    /// The borrow of the list that the iterator holds.
    pub closed spec fn borrowed(&self) -> &'a mut IndexList<T> {
        self.list
    }

    /// The position of the next element to yield.
    pub closed spec fn cursor(&self) -> int {
        match self.index {
            Some(h) => self.list@.pos(h@),
            None => self.list@.len() as int,
        }
    }

    /// Yields the next element for mutation, or `None` once every element has
    /// been yielded.
    pub fn next(&mut self) -> (r: Option<&mut T>)
        requires
            old(self).wf(),
        ensures
            *final(final(self).borrowed()) == *final(old(self).borrowed()),
            match r {
                Some(x) => {
                    &&& old(self).cursor() < old(self).current().len()
                    &&& *x == old(self).current().items[old(self).cursor()]
                    &&& final(self).wf()
                    &&& final(self).cursor() == old(self).cursor() + 1
                    &&& final(self).current() == old(self).current().set(old(self).cursor(), *final(x))
                },
                None => old(self).cursor() == old(self).current().len() && *final(self) == *old(self),
            },
    {
        match self.index {
            None => None,
            Some(index) => {
                let next = self.list.next_index(index);
                self.index = next;
                self.list.get_mut(index)
            },
        }
    }
}

impl<T> IndexList<T> {
    /// Returns an iterator that lends out each element for mutation, front to back.
    pub fn iter_mut(&mut self) -> (r: IterMut<'_, T>)
        requires
            old(self).wf(),
        ensures
            r.wf(),
            r.current() == old(self)@,
            r.cursor() == 0,
            *final(self) == *final(r.borrowed()),
    {
        let index = self.head_index();
        proof {
            if self@.len() > 0 {
                self@.lemma_pos(0);
            }
        }
        IterMut { list: self, index }
    }
}

/// Consumes a list front to back, handing out each element.
pub struct IterOwn<T> {
    list: IndexList<T>,
}

impl<T> IterOwn<T> {
    /// The list that remains is valid.
    pub closed spec fn wf(&self) -> bool {
        self.list.wf()
    }

    /// The elements not yet yielded, in order.
    pub closed spec fn rest(&self) -> Seq<T> {
        self.list@.items
    }

    /// Yields the next element, or `None` once every element has been yielded.
    pub fn next(&mut self) -> (r: Option<T>)
        requires
            old(self).wf(),
        ensures
            final(self).wf(),
            match r {
                Some(x) => {
                    &&& old(self).rest().len() > 0
                    &&& x == old(self).rest()[0]
                    &&& final(self).rest() == old(self).rest().drop_first()
                },
                None => old(self).rest().len() == 0 && final(self).rest() == old(self).rest(),
            },
    {
        let r = self.list.take_front();
        proof {
            if r is Some {
                assert(old(self).rest().remove(0) =~= old(self).rest().drop_first());
            }
        }
        r
    }
}

impl<T> IndexList<T> {
    /// Returns an iterator that consumes the list, front to back.
    pub fn iter_own(self) -> (r: IterOwn<T>)
        requires
            self.wf(),
        ensures
            r.wf(),
            r.rest() == self@.items,
    {
        IterOwn { list: self }
    }

    /// Returns an iterator over the elements, front to back.
    pub fn iter(&self) -> (r: Iter<'_, T>)
        requires
            self.wf(),
        ensures
            r.wf(),
            r.rest() == self@.items,
    {
        let index = self.head_index();
        proof {
            if self@.len() > 0 {
                self@.lemma_pos(0);
            }
        }
        Iter { list: self, index }
    }
}

} // verus!
