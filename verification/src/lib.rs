//! Sparse slot storage: values kept at dense integer slots, with a layered
//! bit index that tells occupied slots from empty ones.

pub mod utils;
