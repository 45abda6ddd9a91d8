//! Bounded search for combinations of items whose sum lands near a target.
//!
//! The library decides everything but the arithmetic on the item values:
//! which items take part, which combinations are tried and in what order,
//! and when the iteration and match budgets end a search.

pub mod model;
pub mod filter;
pub mod combos;
pub mod search;
