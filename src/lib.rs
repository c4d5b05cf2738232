//! A doubly-linked list kept in one growable array of slots and addressed
//! through generational handles.
//!
//! Elements never move: a handle names the slot of its element and the
//! generation stamped on it, so lookup, insertion next to an element and
//! removal are all constant time. Freed slots are reused, most recent first,
//! and every removal advances the list's generation, so a handle to a removed
//! element never addresses a later occupant of its slot.
mod handle;
mod iter;
mod laws;
mod list;
mod model;

pub use handle::Index;
pub use iter::{Iter, IterMut, IterOwn};
pub use list::{link_at, walk_next, walk_prev, Entry, IndexList, OccupiedEntry};
pub use laws::{lemma_remove_invalidates, lemma_reuse_bumps_generation};
pub use model::ListModel;
