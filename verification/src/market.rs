//! The order book: what is cached of it, and the trades it offers.

pub mod order;
pub mod trade;
