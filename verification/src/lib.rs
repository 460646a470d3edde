//! A regular-expression engine with a grep-like front end.
pub mod basic;
pub mod cli;
pub mod engine;
pub mod regex;
pub mod simple;
pub mod text;

pub use regex::Regex;
