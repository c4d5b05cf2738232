use std::marker::PhantomData;
use vstd::prelude::*;

verus! {

/// A generational handle to an element of an `IndexList`: the slot that holds
/// the element and the generation stamped on it when it was inserted.
///
/// A handle stays valid until its element is removed; after that it never
/// addresses an element again, even once its slot holds a new one.
#[derive(Debug)]
pub struct Index<T> {
    index: usize,
    generation: usize,
    _marker: PhantomData<T>,
}

impl<T> View for Index<T> {
    type V = (usize, usize);

    closed spec fn view(&self) -> (usize, usize) {
        (self.index, self.generation)
    }
}

impl<T> Index<T> {
    pub fn new(index: usize, generation: usize) -> (r: Self)
        ensures
            r@ == (index, generation),
    {
        Index { index, generation, _marker: PhantomData }
    }

    /// The slot that the handle addresses.
    pub fn index(&self) -> (r: usize)
        ensures
            r == self@.0,
    {
        self.index
    }

    /// The generation that the handle carries.
    pub fn generation(&self) -> (r: usize)
        ensures
            r == self@.1,
    {
        self.generation
    }
}

impl<T> Clone for Index<T> {
    fn clone(&self) -> (r: Self)
        ensures
            r == *self,
    {
        *self
    }
}

impl<T> Copy for Index<T> {

}

impl<T> PartialEq for Index<T> {
    fn eq(&self, other: &Index<T>) -> (r: bool) {
        self.index == other.index && self.generation == other.generation
    }
}

impl<T> vstd::std_specs::cmp::PartialEqSpecImpl for Index<T> {
    open spec fn obeys_eq_spec() -> bool {
        true
    }

    open spec fn eq_spec(&self, other: &Index<T>) -> bool {
        self@ == other@
    }
}

impl<T> Eq for Index<T> {

}

} // verus!
