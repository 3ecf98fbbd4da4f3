//! The command journal: its records, and the decisions around its database.
pub mod models;
pub mod store;
pub mod tables;
