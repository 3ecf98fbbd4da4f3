//! The decisions of a cwd-aware inline suggestion engine for zsh.
pub mod cli;
pub mod config;
pub mod daemon;
pub mod db;
pub mod distinct;
pub mod history_seed;
pub mod migrate;
pub mod number;
pub mod order;
pub mod paths;
pub mod plugin;
pub mod protocol;
pub mod ranking;
pub mod runtime;
pub mod text;
