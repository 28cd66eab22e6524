//! Described predicates and package matching.

pub mod count_predicates;
pub mod dependency_predicates;
pub mod package_matcher;
pub mod predicates;
pub mod regex_match;
