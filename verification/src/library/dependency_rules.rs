//! Rules about the direction of dependencies between modules.

use vstd::prelude::*;
use vstd::string::*;

use crate::domain::ItemView;
use crate::lang::condition::{ArchCondition, ConditionLogic};
use crate::lang::rule::{because_text, SimpleArchRule};
use crate::lang::syntax::{no_classes, prepared, Prepare};

verus! {

/// `depend on upper packages`: one event per dependency, satisfied where the target resides in
/// an ancestor of the item's module.
pub fn depend_on_upper_packages() -> (r: ArchCondition)
    ensures
        r.wf(),
        r.description@ == "depend on upper packages"@,
        r.logic == ConditionLogic::UpperPackages,
        r.scope@.len() == 0,
{
    ArchCondition::new("depend on upper packages", ConditionLogic::UpperPackages)
}

/// `no classes should depend on upper packages, because ..`.
pub fn no_classes_should_depend_upper_packages() -> (r: SimpleArchRule)
    ensures
        r.wf(),
        r.description_text() == because_text(
            "no classes should depend on upper packages"@,
            "that might prevent packages on that level from being split into separate artifacts in a clean way"@,
        ),
        forall|x: ItemView| #[trigger] r.transformer.filter.holds(x),
        r.condition.logic matches ConditionLogic::Never(c) && c.logic == ConditionLogic::UpperPackages,
{
    let given = no_classes();
    let conjunction = given.should_with(depend_on_upper_packages());
    proof {
        reveal_strlit("no classes");
        reveal_strlit(" should ");
        reveal_strlit("depend on upper packages");
        reveal_strlit("no classes should depend on upper packages");
        assert("no classes"@ + " should "@ + "depend on upper packages"@ =~= "no classes should depend on upper packages"@);
    }
    let rule = conjunction.into_rule();
    rule.because("that might prevent packages on that level from being split into separate artifacts in a clean way")
}

} // verus!
