//! Verified core of a centralized-exchange simulation: a price-time priority
//! order book, the balance snapshots that feed a Merkle sum tree of solvency,
//! the arithmetic side of the Merkle parent relation, and the small pieces of
//! simulator and administration logic around them.

pub mod decimal;
pub mod types;
pub mod arena;
pub mod book_model;
pub mod order_book;
pub mod book_laws;
pub mod poseidon;
pub mod tree;
pub mod circuit;
pub mod text;
pub mod state;
pub mod simulator;
pub mod admin;
