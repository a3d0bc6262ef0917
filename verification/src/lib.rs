//! Market data cache, trade matching and cargo planning for a trading
//! assistant. Money and hold space are whole numbers of hundredths, so every
//! rule in this crate is exact.

pub mod eve_api;
pub mod eve_service;
pub mod manager;
pub mod market;
pub mod number;
pub mod pathfinding;
pub mod route;
