//! The mutations, and what they share.

pub mod all;
pub mod expiry_order;
pub mod laws;
pub mod move_from_borrowed;
pub mod mutably_lend_shared;
pub mod mutator_impl;
pub mod read_from_write;
pub mod utils;
pub mod write_to_shared;
