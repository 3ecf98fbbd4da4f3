//! The choice among all that the providers propose.
pub mod broker;
