//! The rule language: events, conditions, rules and their evaluation.

pub mod condition;
pub mod conditions;
pub mod configuration;
pub mod constructors;
pub mod evaluation;
pub mod events;
pub mod rule;
pub mod syntax;
pub mod transitive;
