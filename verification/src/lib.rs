//! Architecture rules for Rust crates, checked against a plain model of items and their
//! dependencies.

pub mod base;
pub mod domain;
pub mod lang;
pub mod library;
pub mod order;
pub mod text;
