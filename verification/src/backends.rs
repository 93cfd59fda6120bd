//! The backends known to the store.

pub mod memory;
