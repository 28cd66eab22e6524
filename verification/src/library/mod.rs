//! The rule library: cycle detection and the freezing of rules.

pub mod architectures;
pub mod cycle_detection;
pub mod dependency_rules;
pub mod dependencies;
pub mod freeze;
pub mod modular_monolith;
pub mod plantuml;
