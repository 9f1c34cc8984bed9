//! LMD-GHOST fork choice over an in-memory block and state store.
pub mod types;
pub mod root_map;
pub mod store;
pub mod slow_lmd_ghost;
pub mod theorems;
