//! Building blocks of the slot store: single bits, the bounded buffer, the
//! levels of the occupancy index, and the sparse vector built on them.

pub mod bits;
pub mod mvec;
pub mod levels;
pub mod bvec;
pub mod history;
