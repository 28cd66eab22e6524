//! The settings that rules read: whether a rule that checks no item fails, and how far the
//! search for cycles goes and how much of each cycle it reports.

use vstd::prelude::*;

verus! {

/// The settings that rules read.
#[derive(Debug, Clone, Copy)]
pub struct ArchConfiguration {
    /// Whether a rule that checks no item fails, unless the rule itself says otherwise
    /// (`arch_rule.fail_on_empty_should`).
    pub fail_on_empty_should: bool,
    /// How many cycles the search for cycles records at most
    /// (`cycles.max_number_to_detect`).
    pub max_number_of_cycles_to_detect: usize,
    /// How many dependencies each edge of a reported cycle lists at most
    /// (`cycles.max_number_of_dependencies_per_edge`).
    pub max_number_of_dependencies_per_edge: usize,
}

impl ArchConfiguration {
    /// Whether these are the values that hold where nothing was configured.
    pub open spec fn is_default(self) -> bool {
        &&& self.fail_on_empty_should
        &&& self.max_number_of_cycles_to_detect == 100
        &&& self.max_number_of_dependencies_per_edge == 20
    }

    /// The settings that hold unless configured otherwise: rules that check no item fail, at
    /// most 100 cycles are recorded, with at most 20 dependencies listed per edge.
    pub fn defaults() -> (r: ArchConfiguration)
        ensures
            r.is_default(),
    {
        ArchConfiguration { fail_on_empty_should: true, max_number_of_cycles_to_detect: 100, max_number_of_dependencies_per_edge: 20 }
    }
}

} // verus!
