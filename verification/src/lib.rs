//! Jesper: turns the custom errors declared in Solidity sources and in the
//! compiled ABI files into a table keyed by error selector, with the message
//! written above each declaration.

pub mod config;
pub mod find_selector;
pub mod handle_parse_all_files;
pub mod parse_sol_file;
pub mod strmap;
pub mod text;
