//! Implementation of various types for Casserole.
pub mod basic;
pub mod boxed;
pub mod map;
pub mod map_text;
pub mod order;
pub mod sync;
pub mod tuples;
pub mod variants;
