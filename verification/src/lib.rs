//! A small store of text records, each under a generated identifier, that
//! lists its records in the order in which they were created.
//!
//! - [`id`] holds the identifier type and the generator that derives an
//!   identifier from a seed.
//! - [`model`] holds the mathematical model of the store, over which every
//!   contract is stated, and the lemmas about it.
//! - [`ordered_map`] holds the store itself.
//! - [`text_order`] holds the lexicographic order on byte strings by which
//!   identifiers are ordered.
//! - [`todos`] holds the operations on a store: create, read, update, delete,
//!   list by page, and restore from a snapshot.

pub mod id;
pub mod model;
pub mod ordered_map;
pub mod text_order;
pub mod todos;
