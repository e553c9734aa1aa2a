use vstd::prelude::*;

pub mod bits;
pub mod book;
mod ladder;
mod occupancy;
pub mod laws;
pub mod model;
pub mod tiers;
pub mod types;

pub use book::OrderBookImpl;
pub use types::{Price, Quantity, Side, Update};
