//! Where the pilot is, and how systems connect.

pub mod models;
