//! Predefined conditions: each builds a described [`ArchCondition`] on items.

use vstd::prelude::*;
use vstd::string::*;

use super::condition::{
    AllDependenciesCondition, AnyDependencyCondition, ArchCondition, ConditionByPredicate,
    ConditionLogic, EventDescriber,
};
use crate::base::count_predicates::CountPredicate;
use crate::base::dependency_predicates::{dependency_origin, dependency_target, described_dependency, kind_test_holds, DependencyPredicate, DependencyTest};
use crate::base::package_matcher::spec_match;
use crate::base::regex_match::{anchored, regex_is_match};
use crate::base::predicates::{self, in_crate, quoted_list, some_identifier_matches, ItemPredicate, ItemTest};
use crate::domain::{resolve, AccessKind, Dependency, ItemKind, ItemView, Nesting, RustItem, RustModifier};
use crate::text::{cat, cat3, contains_infix, join, join_quoted, join_seq, quote, simple_name_of, simple_of, single_quoted, views};

verus! {

/// `r` checks each item against a predicate described as `predicate` that holds exactly
/// where `holds` does; its events read `positive` where the predicate holds and `negative`
/// where not.
pub open spec fn checks(r: ArchCondition, holds: spec_fn(ItemView) -> bool, predicate: Seq<char>, positive: Seq<char>, negative: Seq<char>) -> bool {
    &&& r.wf()
    &&& r.logic is ByPredicate
    &&& r.logic->ByPredicate_0.predicate.description@ == predicate
    &&& forall|x: ItemView| #[trigger] r.logic->ByPredicate_0.predicate.holds(x) == holds(x)
    &&& forall|s: bool| #[trigger] r.logic->ByPredicate_0.describer.text(predicate, s) == if s { positive } else { negative }
}

/// `r` inverts every event of a condition that [`checks`] as given.
pub open spec fn checks_never(r: ArchCondition, holds: spec_fn(ItemView) -> bool, predicate: Seq<char>, positive: Seq<char>, negative: Seq<char>) -> bool {
    &&& r.wf()
    &&& r.logic is Never
    &&& checks(*r.logic->Never_0, holds, predicate, positive, negative)
}

/// A condition from a predicate; described as `have <predicate>`, events read
/// `has <predicate>` / `does not have <predicate>`.
pub fn have(predicate: ItemPredicate) -> (r: ConditionByPredicate)
    ensures
        r.description@ == "have "@ + predicate.description@,
        r.predicate == predicate,
        forall|d: Seq<char>, s: bool| #[trigger] r.describer.text(d, s) == if s { "has "@ + d } else { "does not have "@ + d },
{
    let description = cat("have ", predicate.description.as_str());
    ConditionByPredicate { predicate, description, describer: EventDescriber::prefix("has ", "does not have ") }
}

/// A condition from a predicate; described as `be <predicate>`, events read
/// `is <predicate>` / `is not <predicate>`.
pub fn be(predicate: ItemPredicate) -> (r: ConditionByPredicate)
    ensures
        r.description@ == "be "@ + predicate.description@,
        r.predicate == predicate,
        forall|d: Seq<char>, s: bool| #[trigger] r.describer.text(d, s) == if s { "is "@ + d } else { "is not "@ + d },
{
    let description = cat("be ", predicate.description.as_str());
    ConditionByPredicate { predicate, description, describer: EventDescriber::prefix("is ", "is not ") }
}

/// `have name matching '<regex>'`: the full name matches the expression as a whole.
pub fn have_name_matching(regex: &str) -> (r: ArchCondition)
    ensures
        r.description@ == "have "@ + ("name matching "@ + single_quoted(regex@)),
        checks(r, |x: ItemView| regex_is_match(anchored(regex@), x.full_name) == Some(true), "name matching "@ + single_quoted(regex@), "has "@ + ("name matching "@ + single_quoted(regex@)), "does not have "@ + ("name matching "@ + single_quoted(regex@))),
{
    have(predicates::name_matching(regex)).into_condition()
}

/// `have name not matching '<regex>'`.
pub fn have_name_not_matching(regex: &str) -> (r: ArchCondition)
    ensures
        r.description@ == "have name not matching "@ + single_quoted(regex@),
        checks_never(r, |x: ItemView| regex_is_match(anchored(regex@), x.full_name) == Some(true), "name matching "@ + single_quoted(regex@), "has "@ + ("name matching "@ + single_quoted(regex@)), "does not have "@ + ("name matching "@ + single_quoted(regex@))),
{
    not(have_name_matching(regex)).as_(cat("have name not matching ", quote(regex).as_str()).as_str())
}

/// `have full name matching '<regex>'`.
pub fn have_full_name_matching(regex: &str) -> (r: ArchCondition)
    ensures
        r.description@ == "have "@ + ("full name matching "@ + single_quoted(regex@)),
        checks(r, |x: ItemView| regex_is_match(anchored(regex@), x.full_name) == Some(true), "full name matching "@ + single_quoted(regex@), "has "@ + ("full name matching "@ + single_quoted(regex@)), "does not have "@ + ("full name matching "@ + single_quoted(regex@))),
{
    have(predicates::full_name_matching(regex)).into_condition()
}

/// `have full name not matching '<regex>'`.
pub fn have_full_name_not_matching(regex: &str) -> (r: ArchCondition)
    ensures
        r.description@ == "have full name not matching "@ + single_quoted(regex@),
        checks_never(r, |x: ItemView| regex_is_match(anchored(regex@), x.full_name) == Some(true), "full name matching "@ + single_quoted(regex@), "has "@ + ("full name matching "@ + single_quoted(regex@)), "does not have "@ + ("full name matching "@ + single_quoted(regex@))),
{
    not(have_full_name_matching(regex)).as_(cat("have full name not matching ", quote(regex).as_str()).as_str())
}

/// A condition from a predicate, described as the predicate; events read `does <predicate>`
/// / `does not <predicate>`.
fn does(predicate: ItemPredicate) -> (r: ConditionByPredicate)
    ensures
        r.description == predicate.description,
        r.predicate == predicate,
        forall|d: Seq<char>, s: bool| #[trigger] r.describer.text(d, s) == if s { "does "@ + d } else { "does not "@ + d },
{
    let description = predicate.description.clone();
    ConditionByPredicate { predicate, description, describer: EventDescriber::prefix("does ", "does not ") }
}

/// Both conditions; described as `<a> and <b>`.
pub fn and(first: ArchCondition, second: ArchCondition) -> (r: ArchCondition)
    requires
        first.wf(),
        second.wf(),
    ensures
        r.wf(),
        r.description@ == first.description@ + " and "@ + second.description@,
        r.logic matches ConditionLogic::Join(is_and, cs) && is_and && cs@ == seq![first, second],
{
    first.and(second)
}

/// One of the conditions; described as `<a> or <b>`.
pub fn or(first: ArchCondition, second: ArchCondition) -> (r: ArchCondition)
    requires
        first.wf(),
        second.wf(),
    ensures
        r.wf(),
        r.description@ == first.description@ + " or "@ + second.description@,
        r.logic matches ConditionLogic::Join(is_and, cs) && !is_and && cs@ == seq![first, second],
{
    first.or(second)
}

/// Every event inverted; described as `never <description>`.
pub fn never(condition: ArchCondition) -> (r: ArchCondition)
    ensures
        condition.wf() ==> r.wf(),
        r.description@ == "never "@ + condition.description@,
        r.logic == ConditionLogic::Never(Box::new(condition)),
{
    ArchCondition::never(condition)
}

/// Every event inverted; described as `not <description>`.
pub fn not(condition: ArchCondition) -> (r: ArchCondition)
    ensures
        condition.wf() ==> r.wf(),
        r.description@ == "not "@ + condition.description@,
        r.logic == ConditionLogic::Never(Box::new(condition)),
{
    ArchCondition::not(condition)
}

/// Items whose full name is `<name>`; described as `fully qualified name '<name>'`.
pub fn fully_qualified_name(name: &str) -> (r: ItemPredicate)
    ensures
        r.wf(),
        r.description@ == "fully qualified name "@ + single_quoted(name@),
        forall|x: ItemView| #[trigger] r.holds(x) <==> x.full_name == name@,
{
    let p = predicates::name(name);
    let description = cat("fully qualified ", p.description.as_str());
    proof {
        reveal_strlit("fully qualified ");
        reveal_strlit("name ");
        reveal_strlit("fully qualified name ");
        assert(description@ =~= "fully qualified name "@ + single_quoted(name@));
    }
    p.as_(description.as_str())
}

/// `be <name>`: the item of that full name; events read `is <name>` / `is not <name>`.
pub fn be_class(class_name: &str) -> (r: ArchCondition)
    ensures
        r.description@ == "be "@ + class_name@,
        checks(r, |x: ItemView| x.full_name == class_name@, class_name@, "is "@ + class_name@, "is not "@ + class_name@),
{
    let p = fully_qualified_name(class_name).as_(class_name);
    be(p).into_condition()
}

/// `not be <name>`.
pub fn not_be_class(class_name: &str) -> (r: ArchCondition)
    ensures
        r.description@ == "not "@ + ("be "@ + class_name@),
        checks_never(r, |x: ItemView| x.full_name == class_name@, class_name@, "is "@ + class_name@, "is not "@ + class_name@),
{
    not(be_class(class_name))
}

/// `have name ..`.
pub fn have_name(name: &str) -> (r: ArchCondition)
    ensures
        r.description@ == "have "@ + "name "@ + single_quoted(name@),
        checks(r, |x: ItemView| x.full_name == name@, "name "@ + single_quoted(name@), "has "@ + ("name "@ + single_quoted(name@)), "does not have "@ + ("name "@ + single_quoted(name@))),
{
    have(predicates::name(name)).into_condition()
}

/// `have full name ..`.
pub fn have_full_name(full_name: &str) -> (r: ArchCondition)
    ensures
        r.description@ == "have "@ + "full name "@ + single_quoted(full_name@),
        checks(r, |x: ItemView| x.full_name == full_name@, "full name "@ + single_quoted(full_name@), "has "@ + ("full name "@ + single_quoted(full_name@)), "does not have "@ + ("full name "@ + single_quoted(full_name@))),
{
    have(predicates::full_name(full_name)).into_condition()
}

/// `have fully qualified name ..`.
pub fn have_fully_qualified_name(name: &str) -> (r: ArchCondition)
    ensures
        r.description@ == "have "@ + "fully qualified name "@ + single_quoted(name@),
        checks(r, |x: ItemView| x.full_name == name@, "fully qualified name "@ + single_quoted(name@), "has "@ + ("fully qualified name "@ + single_quoted(name@)), "does not have "@ + ("fully qualified name "@ + single_quoted(name@))),
{
    have(fully_qualified_name(name)).into_condition()
}

/// `have simple name ..`.
pub fn have_simple_name(name: &str) -> (r: ArchCondition)
    ensures
        r.description@ == "have "@ + "simple name "@ + single_quoted(name@),
        checks(r, |x: ItemView| x.simple_name == name@, "simple name "@ + single_quoted(name@), "has "@ + ("simple name "@ + single_quoted(name@)), "does not have "@ + ("simple name "@ + single_quoted(name@))),
{
    have(predicates::simple_name(name)).into_condition()
}

/// `have simple name starting with ..`.
pub fn have_simple_name_starting_with(prefix: &str) -> (r: ArchCondition)
    ensures
        r.description@ == "have "@ + "simple name starting with "@ + single_quoted(prefix@),
        checks(r, |x: ItemView| prefix@.is_prefix_of(x.simple_name), "simple name starting with "@ + single_quoted(prefix@), "has "@ + ("simple name starting with "@ + single_quoted(prefix@)), "does not have "@ + ("simple name starting with "@ + single_quoted(prefix@))),
{
    have(predicates::simple_name_starting_with(prefix)).into_condition()
}

/// `have simple name containing ..`.
pub fn have_simple_name_containing(infix: &str) -> (r: ArchCondition)
    ensures
        r.description@ == "have "@ + "simple name containing "@ + single_quoted(infix@),
        checks(r, |x: ItemView| contains_infix(x.simple_name, infix@), "simple name containing "@ + single_quoted(infix@), "has "@ + ("simple name containing "@ + single_quoted(infix@)), "does not have "@ + ("simple name containing "@ + single_quoted(infix@))),
{
    have(predicates::simple_name_containing(infix)).into_condition()
}

/// `have simple name ending with ..`.
pub fn have_simple_name_ending_with(suffix: &str) -> (r: ArchCondition)
    ensures
        r.description@ == "have "@ + "simple name ending with "@ + single_quoted(suffix@),
        checks(r, |x: ItemView| suffix@.is_suffix_of(x.simple_name), "simple name ending with "@ + single_quoted(suffix@), "has "@ + ("simple name ending with "@ + single_quoted(suffix@)), "does not have "@ + ("simple name ending with "@ + single_quoted(suffix@))),
{
    have(predicates::simple_name_ending_with(suffix)).into_condition()
}

/// `have name starting with ..`.
pub fn have_name_starting_with(prefix: &str) -> (r: ArchCondition)
    ensures
        r.description@ == "have "@ + "name starting with "@ + single_quoted(prefix@),
        checks(r, |x: ItemView| prefix@.is_prefix_of(x.full_name), "name starting with "@ + single_quoted(prefix@), "has "@ + ("name starting with "@ + single_quoted(prefix@)), "does not have "@ + ("name starting with "@ + single_quoted(prefix@))),
{
    have(predicates::name_starting_with(prefix)).into_condition()
}

/// `have name containing ..`.
pub fn have_name_containing(infix: &str) -> (r: ArchCondition)
    ensures
        r.description@ == "have "@ + "name containing "@ + single_quoted(infix@),
        checks(r, |x: ItemView| contains_infix(x.full_name, infix@), "name containing "@ + single_quoted(infix@), "has "@ + ("name containing "@ + single_quoted(infix@)), "does not have "@ + ("name containing "@ + single_quoted(infix@))),
{
    have(predicates::name_containing(infix)).into_condition()
}

/// `have name ending with ..`.
pub fn have_name_ending_with(suffix: &str) -> (r: ArchCondition)
    ensures
        r.description@ == "have "@ + "name ending with "@ + single_quoted(suffix@),
        checks(r, |x: ItemView| suffix@.is_suffix_of(x.full_name), "name ending with "@ + single_quoted(suffix@), "has "@ + ("name ending with "@ + single_quoted(suffix@)), "does not have "@ + ("name ending with "@ + single_quoted(suffix@))),
{
    have(predicates::name_ending_with(suffix)).into_condition()
}

/// `not have name ..`.
pub fn not_have_name(name: &str) -> (r: ArchCondition)
    ensures
        r.description@ == "not "@ + ("have "@ + "name "@ + single_quoted(name@)),
        checks_never(r, |x: ItemView| x.full_name == name@, "name "@ + single_quoted(name@), "has "@ + ("name "@ + single_quoted(name@)), "does not have "@ + ("name "@ + single_quoted(name@))),
{
    not(have_name(name))
}

/// `not have full name ..`.
pub fn not_have_full_name(full_name: &str) -> (r: ArchCondition)
    ensures
        r.description@ == "not "@ + ("have "@ + "full name "@ + single_quoted(full_name@)),
        checks_never(r, |x: ItemView| x.full_name == full_name@, "full name "@ + single_quoted(full_name@), "has "@ + ("full name "@ + single_quoted(full_name@)), "does not have "@ + ("full name "@ + single_quoted(full_name@))),
{
    not(have_full_name(full_name))
}

/// `not have fully qualified name ..`.
pub fn not_have_fully_qualified_name(name: &str) -> (r: ArchCondition)
    ensures
        r.description@ == "not "@ + ("have "@ + "fully qualified name "@ + single_quoted(name@)),
        checks_never(r, |x: ItemView| x.full_name == name@, "fully qualified name "@ + single_quoted(name@), "has "@ + ("fully qualified name "@ + single_quoted(name@)), "does not have "@ + ("fully qualified name "@ + single_quoted(name@))),
{
    not(have_fully_qualified_name(name))
}

/// `not have simple name ..`.
pub fn not_have_simple_name(name: &str) -> (r: ArchCondition)
    ensures
        r.description@ == "not "@ + ("have "@ + "simple name "@ + single_quoted(name@)),
        checks_never(r, |x: ItemView| x.simple_name == name@, "simple name "@ + single_quoted(name@), "has "@ + ("simple name "@ + single_quoted(name@)), "does not have "@ + ("simple name "@ + single_quoted(name@))),
{
    not(have_simple_name(name))
}

/// `have simple name not starting with '..'`.
pub fn have_simple_name_not_starting_with(prefix: &str) -> (r: ArchCondition)
    ensures
        r.description@ == "have simple name not starting with "@ + single_quoted(prefix@),
        checks_never(r, |x: ItemView| prefix@.is_prefix_of(x.simple_name), "simple name starting with "@ + single_quoted(prefix@), "has "@ + ("simple name starting with "@ + single_quoted(prefix@)), "does not have "@ + ("simple name starting with "@ + single_quoted(prefix@))),
{
    not(have_simple_name_starting_with(prefix)).as_(cat("have simple name not starting with ", quote(prefix).as_str()).as_str())
}

/// `have simple name not containing '..'`.
pub fn have_simple_name_not_containing(infix: &str) -> (r: ArchCondition)
    ensures
        r.description@ == "have simple name not containing "@ + single_quoted(infix@),
        checks_never(r, |x: ItemView| contains_infix(x.simple_name, infix@), "simple name containing "@ + single_quoted(infix@), "has "@ + ("simple name containing "@ + single_quoted(infix@)), "does not have "@ + ("simple name containing "@ + single_quoted(infix@))),
{
    not(have_simple_name_containing(infix)).as_(cat("have simple name not containing ", quote(infix).as_str()).as_str())
}

/// `have simple name not ending with '..'`.
pub fn have_simple_name_not_ending_with(suffix: &str) -> (r: ArchCondition)
    ensures
        r.description@ == "have simple name not ending with "@ + single_quoted(suffix@),
        checks_never(r, |x: ItemView| suffix@.is_suffix_of(x.simple_name), "simple name ending with "@ + single_quoted(suffix@), "has "@ + ("simple name ending with "@ + single_quoted(suffix@)), "does not have "@ + ("simple name ending with "@ + single_quoted(suffix@))),
{
    not(have_simple_name_ending_with(suffix)).as_(cat("have simple name not ending with ", quote(suffix).as_str()).as_str())
}

/// `have name not starting with '..'`.
pub fn have_name_not_starting_with(prefix: &str) -> (r: ArchCondition)
    ensures
        r.description@ == "have name not starting with "@ + single_quoted(prefix@),
        checks_never(r, |x: ItemView| prefix@.is_prefix_of(x.full_name), "name starting with "@ + single_quoted(prefix@), "has "@ + ("name starting with "@ + single_quoted(prefix@)), "does not have "@ + ("name starting with "@ + single_quoted(prefix@))),
{
    not(have_name_starting_with(prefix)).as_(cat("have name not starting with ", quote(prefix).as_str()).as_str())
}

/// `have name not containing '..'`.
pub fn have_name_not_containing(infix: &str) -> (r: ArchCondition)
    ensures
        r.description@ == "have name not containing "@ + single_quoted(infix@),
        checks_never(r, |x: ItemView| contains_infix(x.full_name, infix@), "name containing "@ + single_quoted(infix@), "has "@ + ("name containing "@ + single_quoted(infix@)), "does not have "@ + ("name containing "@ + single_quoted(infix@))),
{
    not(have_name_containing(infix)).as_(cat("have name not containing ", quote(infix).as_str()).as_str())
}

/// `have name not ending with '..'`.
pub fn have_name_not_ending_with(suffix: &str) -> (r: ArchCondition)
    ensures
        r.description@ == "have name not ending with "@ + single_quoted(suffix@),
        checks_never(r, |x: ItemView| suffix@.is_suffix_of(x.full_name), "name ending with "@ + single_quoted(suffix@), "has "@ + ("name ending with "@ + single_quoted(suffix@)), "does not have "@ + ("name ending with "@ + single_quoted(suffix@))),
{
    not(have_name_ending_with(suffix)).as_(cat("have name not ending with ", quote(suffix).as_str()).as_str())
}

/// `be <predicate>`, with events that read `positive` / `negative` alone.
fn kind_condition(predicate: ItemPredicate, positive: &str, negative: &str) -> (r: ArchCondition)
    ensures
        r.description@ == "be "@ + predicate.description@,
        r.logic is ByPredicate,
        r.logic->ByPredicate_0.predicate == predicate,
        forall|d: Seq<char>, s: bool| #[trigger] r.logic->ByPredicate_0.describer.text(d, s) == if s { positive@ } else { negative@ },
{
    be(predicate).describe_events_by(EventDescriber::fixed(positive, negative)).into_condition()
}

/// `reside in a package '<identifier>'`.
pub fn reside_in_a_package(package_identifier: &str) -> (r: ArchCondition)
    ensures
        r.description@ == "reside in a package "@ + single_quoted(package_identifier@),
        checks(r, |x: ItemView| spec_match(package_identifier@, x.package_name) is Some, "reside in a package "@ + single_quoted(package_identifier@), "does "@ + ("reside in a package "@ + single_quoted(package_identifier@)), "does not "@ + ("reside in a package "@ + single_quoted(package_identifier@))),
{
    does(predicates::reside_in_a_package(package_identifier)).into_condition()
}

/// `reside in any package ['a', 'b']`.
pub fn reside_in_any_package(package_identifiers: &Vec<String>) -> (r: ArchCondition)
    ensures
        r.description@ == "reside in any package "@ + quoted_list(views(package_identifiers@)),
        checks(r, |x: ItemView| some_identifier_matches(package_identifiers@, x.package_name), "reside in any package "@ + quoted_list(views(package_identifiers@)), "does "@ + ("reside in any package "@ + quoted_list(views(package_identifiers@))), "does not "@ + ("reside in any package "@ + quoted_list(views(package_identifiers@)))),
{
    does(predicates::reside_in_any_package(package_identifiers)).into_condition()
}

/// `reside outside of package '<identifier>'`.
pub fn reside_outside_of_package(package_identifier: &str) -> (r: ArchCondition)
    ensures
        r.description@ == "reside outside of package "@ + single_quoted(package_identifier@),
        checks(r, |x: ItemView| spec_match(package_identifier@, x.package_name) is None, "reside outside of package "@ + single_quoted(package_identifier@), "does "@ + ("reside outside of package "@ + single_quoted(package_identifier@)), "does not "@ + ("reside outside of package "@ + single_quoted(package_identifier@))),
{
    does(predicates::reside_outside_of_package(package_identifier)).into_condition()
}

/// `reside outside of packages ['a', 'b']`.
pub fn reside_outside_of_packages(package_identifiers: &Vec<String>) -> (r: ArchCondition)
    ensures
        r.description@ == "reside outside of packages "@ + quoted_list(views(package_identifiers@)),
        checks(r, |x: ItemView| !some_identifier_matches(package_identifiers@, x.package_name), "reside outside of packages "@ + quoted_list(views(package_identifiers@)), "does "@ + ("reside outside of packages "@ + quoted_list(views(package_identifiers@))), "does not "@ + ("reside outside of packages "@ + quoted_list(views(package_identifiers@)))),
{
    does(predicates::reside_outside_of_packages(package_identifiers)).into_condition()
}

/// `reside in crate '<name>'`.
pub fn reside_in_crate(crate_name: &str) -> (r: ArchCondition)
    ensures
        r.description@ == "reside in crate "@ + single_quoted(crate_name@),
        checks(r, |x: ItemView| in_crate(x.package_name, crate_name@), "reside in crate "@ + single_quoted(crate_name@), "does "@ + ("reside in crate "@ + single_quoted(crate_name@)), "does not "@ + ("reside in crate "@ + single_quoted(crate_name@))),
{
    does(predicates::reside_in_crate(crate_name)).into_condition()
}

/// `have modifier <modifier>`.
pub fn have_modifier(m: RustModifier) -> (r: ArchCondition)
    ensures
        r.description@ == "have "@ + "modifier "@ + predicates::modifier_text(m),
        checks(r, |x: ItemView| x.modifiers.contains(m), "modifier "@ + predicates::modifier_text(m), "has "@ + ("modifier "@ + predicates::modifier_text(m)), "does not have "@ + ("modifier "@ + predicates::modifier_text(m))),
{
    have(predicates::modifier(m)).into_condition()
}

/// `not have modifier <modifier>`.
pub fn not_have_modifier(m: RustModifier) -> (r: ArchCondition)
    ensures
        r.description@ == "not "@ + ("have "@ + "modifier "@ + predicates::modifier_text(m)),
        checks_never(r, |x: ItemView| x.modifiers.contains(m), "modifier "@ + predicates::modifier_text(m), "has "@ + ("modifier "@ + predicates::modifier_text(m)), "does not have "@ + ("modifier "@ + predicates::modifier_text(m))),
{
    not(have_modifier(m))
}

/// `be annotated with @<name>`.
pub fn be_annotated_with(annotation: &str) -> (r: ArchCondition)
    ensures
        r.description@ == "be "@ + "annotated with @"@ + annotation@,
        checks(r, |x: ItemView| x.annotations.contains(annotation@), "annotated with @"@ + annotation@, "is "@ + ("annotated with @"@ + annotation@), "is not "@ + ("annotated with @"@ + annotation@)),
{
    be(predicates::annotated_with(annotation)).into_condition()
}

/// `not be annotated with @<name>`.
pub fn not_be_annotated_with(annotation: &str) -> (r: ArchCondition)
    ensures
        r.description@ == "not "@ + ("be "@ + "annotated with @"@ + annotation@),
        checks_never(r, |x: ItemView| x.annotations.contains(annotation@), "annotated with @"@ + annotation@, "is "@ + ("annotated with @"@ + annotation@), "is not "@ + ("annotated with @"@ + annotation@)),
{
    not(be_annotated_with(annotation))
}

/// `implement <trait>`.
pub fn implement(trait_name: &str) -> (r: ArchCondition)
    ensures
        r.description@ == "implement "@ + trait_name@,
        checks(r, |x: ItemView| x.implemented.contains(trait_name@), "implement "@ + trait_name@, "does "@ + ("implement "@ + trait_name@), "does not "@ + ("implement "@ + trait_name@)),
{
    does(predicates::implement(trait_name)).into_condition()
}

/// `not implement <trait>`.
pub fn not_implement(trait_name: &str) -> (r: ArchCondition)
    ensures
        r.description@ == "not "@ + "implement "@ + trait_name@,
        checks_never(r, |x: ItemView| x.implemented.contains(trait_name@), "implement "@ + trait_name@, "does "@ + ("implement "@ + trait_name@), "does not "@ + ("implement "@ + trait_name@)),
{
    not(implement(trait_name))
}

/// `be assignable to <type>`: the item is the type or implements it.
pub fn be_assignable_to(target_name: &str) -> (r: ArchCondition)
    ensures
        r.description@ == "be "@ + "assignable to "@ + target_name@,
        checks(r, |x: ItemView| x.full_name == target_name@ || x.implemented.contains(target_name@), "assignable to "@ + target_name@, "is "@ + ("assignable to "@ + target_name@), "is not "@ + ("assignable to "@ + target_name@)),
{
    be(predicates::assignable_to(target_name)).into_condition()
}

/// `not be assignable to <type>`.
pub fn not_be_assignable_to(target_name: &str) -> (r: ArchCondition)
    ensures
        r.description@ == "not "@ + ("be "@ + "assignable to "@ + target_name@),
        checks_never(r, |x: ItemView| x.full_name == target_name@ || x.implemented.contains(target_name@), "assignable to "@ + target_name@, "is "@ + ("assignable to "@ + target_name@), "is not "@ + ("assignable to "@ + target_name@)),
{
    not(be_assignable_to(target_name))
}

/// `have only private constructors`: per item, one event per constructor, violated where it
/// is not private, and for a struct one more, violated where it can be built with a struct
/// literal outside its module (no private field and not `#[non_exhaustive]`).
pub fn have_only_private_constructors() -> (r: ArchCondition)
    ensures
        r.wf(),
        r.description@ == "have only private constructors"@,
        r.logic == ConditionLogic::PrivateConstructors,
        r.scope@.len() == 0,
{
    ArchCondition::new("have only private constructors", ConditionLogic::PrivateConstructors)
}

/// `be interfaces`: events read `is an interface` / `is no interface`.
pub fn be_interfaces() -> (r: ArchCondition)
    ensures
        r.description@ == "be "@ + "interfaces"@,
        checks(r, |x: ItemView| x.kind == ItemKind::Trait, "interfaces"@, "is an interface"@, "is no interface"@),
{
    kind_condition(predicates::kind_is(ItemKind::Trait, "interfaces"), "is an interface", "is no interface")
}

/// `not be interfaces`.
pub fn not_be_interfaces() -> (r: ArchCondition)
    ensures
        r.description@ == "not "@ + ("be "@ + "interfaces"@),
        checks_never(r, |x: ItemView| x.kind == ItemKind::Trait, "interfaces"@, "is an interface"@, "is no interface"@),
{
    not(be_interfaces())
}

/// `be traits`: events read `is a trait` / `is no trait`.
pub fn be_traits() -> (r: ArchCondition)
    ensures
        r.description@ == "be "@ + "traits"@,
        checks(r, |x: ItemView| x.kind == ItemKind::Trait, "traits"@, "is a trait"@, "is no trait"@),
{
    kind_condition(predicates::kind_is(ItemKind::Trait, "traits"), "is a trait", "is no trait")
}

/// `not be traits`.
pub fn not_be_traits() -> (r: ArchCondition)
    ensures
        r.description@ == "not "@ + ("be "@ + "traits"@),
        checks_never(r, |x: ItemView| x.kind == ItemKind::Trait, "traits"@, "is a trait"@, "is no trait"@),
{
    not(be_traits())
}

/// `be enums`: events read `is an enum` / `is no enum`.
pub fn be_enums() -> (r: ArchCondition)
    ensures
        r.description@ == "be "@ + "enums"@,
        checks(r, |x: ItemView| x.kind == ItemKind::Enum, "enums"@, "is an enum"@, "is no enum"@),
{
    kind_condition(predicates::kind_is(ItemKind::Enum, "enums"), "is an enum", "is no enum")
}

/// `not be enums`.
pub fn not_be_enums() -> (r: ArchCondition)
    ensures
        r.description@ == "not "@ + ("be "@ + "enums"@),
        checks_never(r, |x: ItemView| x.kind == ItemKind::Enum, "enums"@, "is an enum"@, "is no enum"@),
{
    not(be_enums())
}

/// `be structs`: events read `is a struct` / `is no struct`.
pub fn be_structs() -> (r: ArchCondition)
    ensures
        r.description@ == "be "@ + "structs"@,
        checks(r, |x: ItemView| x.kind == ItemKind::Struct, "structs"@, "is a struct"@, "is no struct"@),
{
    kind_condition(predicates::kind_is(ItemKind::Struct, "structs"), "is a struct", "is no struct")
}

/// `not be structs`.
pub fn not_be_structs() -> (r: ArchCondition)
    ensures
        r.description@ == "not "@ + ("be "@ + "structs"@),
        checks_never(r, |x: ItemView| x.kind == ItemKind::Struct, "structs"@, "is a struct"@, "is no struct"@),
{
    not(be_structs())
}

/// `be functions`: events read `is a function` / `is no function`.
pub fn be_functions() -> (r: ArchCondition)
    ensures
        r.description@ == "be "@ + "functions"@,
        checks(r, |x: ItemView| x.kind == ItemKind::Function, "functions"@, "is a function"@, "is no function"@),
{
    kind_condition(predicates::kind_is(ItemKind::Function, "functions"), "is a function", "is no function")
}

/// `not be functions`.
pub fn not_be_functions() -> (r: ArchCondition)
    ensures
        r.description@ == "not "@ + ("be "@ + "functions"@),
        checks_never(r, |x: ItemView| x.kind == ItemKind::Function, "functions"@, "is a function"@, "is no function"@),
{
    not(be_functions())
}

/// `be top level classes`: events read `is a top level class` / `is no top level class`.
pub fn be_top_level_classes() -> (r: ArchCondition)
    ensures
        r.description@ == "be "@ + "top level classes"@,
        checks(r, |x: ItemView| x.nesting == Nesting::TopLevel, "top level classes"@, "is a top level class"@, "is no top level class"@),
{
    kind_condition(predicates::nesting_is(Nesting::TopLevel, "top level classes"), "is a top level class", "is no top level class")
}

/// `not be top level classes`.
pub fn not_be_top_level_classes() -> (r: ArchCondition)
    ensures
        r.description@ == "not "@ + ("be "@ + "top level classes"@),
        checks_never(r, |x: ItemView| x.nesting == Nesting::TopLevel, "top level classes"@, "is a top level class"@, "is no top level class"@),
{
    not(be_top_level_classes())
}

/// `be nested classes`: events read `is a nested class` / `is no nested class`.
pub fn be_nested_classes() -> (r: ArchCondition)
    ensures
        r.description@ == "be "@ + "nested classes"@,
        checks(r, |x: ItemView| x.nesting == Nesting::Nested, "nested classes"@, "is a nested class"@, "is no nested class"@),
{
    kind_condition(predicates::nesting_is(Nesting::Nested, "nested classes"), "is a nested class", "is no nested class")
}

/// `not be nested classes`.
pub fn not_be_nested_classes() -> (r: ArchCondition)
    ensures
        r.description@ == "not "@ + ("be "@ + "nested classes"@),
        checks_never(r, |x: ItemView| x.nesting == Nesting::Nested, "nested classes"@, "is a nested class"@, "is no nested class"@),
{
    not(be_nested_classes())
}

/// `be local classes`: events read `is a local class` / `is no local class`.
pub fn be_local_classes() -> (r: ArchCondition)
    ensures
        r.description@ == "be "@ + "local classes"@,
        checks(r, |x: ItemView| x.nesting == Nesting::Local, "local classes"@, "is a local class"@, "is no local class"@),
{
    kind_condition(predicates::nesting_is(Nesting::Local, "local classes"), "is a local class", "is no local class")
}

/// `not be local classes`.
pub fn not_be_local_classes() -> (r: ArchCondition)
    ensures
        r.description@ == "not "@ + ("be "@ + "local classes"@),
        checks_never(r, |x: ItemView| x.nesting == Nesting::Local, "local classes"@, "is a local class"@, "is no local class"@),
{
    not(be_local_classes())
}

/// `depend on classes that <predicate>`: some dependency of the item has a target satisfying
/// the predicate.
pub fn depend_on_classes_that(predicate: ItemPredicate) -> (r: AnyDependencyCondition)
    ensures
        r.description@ == "depend on classes that "@ + predicate.description@,
        r.predicate.description@ == "target "@ + predicate.description@,
        r.predicate.test == DependencyTest::Target(predicate),
        !r.incoming,
        r.ignore.test is AlwaysFalse,
{
    let description = cat("depend on classes that ", predicate.description.as_str());
    AnyDependencyCondition::new(description, dependency_target(predicate), false)
}

/// `transitively depend on classes that <predicate>`: for each target of the item's
/// dependencies outside the checked items, the first path found depth first to an item
/// satisfying the predicate is reported; items without such a path are violations.
pub fn transitively_depend_on_classes_that(predicate: ItemPredicate) -> (r: ArchCondition)
    ensures
        r.description@ == "transitively depend on classes that "@ + predicate.description@,
        r.logic == ConditionLogic::Transitive(predicate),
        r.scope@.len() == 0,
        predicate.wf() ==> r.wf(),
{
    let description = cat("transitively depend on classes that ", predicate.description.as_str());
    ArchCondition::from_logic(description.as_str(), ConditionLogic::Transitive(predicate))
}

/// `contain number of elements <predicate>`: after all items are checked, one event on the
/// number of distinct checked items.
pub fn contain_number_of_elements(predicate: CountPredicate) -> (r: ArchCondition)
    ensures
        r.description@ == "contain number of elements "@ + predicate.description@,
        r.logic == ConditionLogic::Count(predicate),
        r.scope@.len() == 0,
        r.wf(),
{
    let description = cat("contain number of elements ", predicate.description.as_str());
    ArchCondition::from_logic(description.as_str(), ConditionLogic::Count(predicate))
}

/// `have any dependencies that <predicate>`: some dependency of the item satisfies it.
pub fn have_any_dependencies_that(predicate: DependencyPredicate) -> (r: AnyDependencyCondition)
    ensures
        r.description@ == "have any dependencies that "@ + predicate.description@,
        r.predicate == predicate,
        !r.incoming,
        r.ignore.test is AlwaysFalse,
{
    let description = cat("have any dependencies that ", predicate.description.as_str());
    AnyDependencyCondition::new(description, predicate, false)
}

/// `only depend on classes that <predicate>`: every dependency of the item has a target
/// satisfying the predicate.
pub fn only_depend_on_classes_that(predicate: ItemPredicate) -> (r: AllDependenciesCondition)
    ensures
        r.description@ == "only depend on classes that "@ + predicate.description@,
        r.predicate.description@ == "target "@ + predicate.description@,
        r.predicate.test == DependencyTest::Target(predicate),
        !r.incoming,
        r.ignore.test is AlwaysFalse,
{
    let description = cat("only depend on classes that ", predicate.description.as_str());
    AllDependenciesCondition::new(description, dependency_target(predicate), false)
}

/// `only have dependents where <predicate>`: every dependency on the item satisfies it.
pub fn only_have_dependents_where(predicate: DependencyPredicate) -> (r: AllDependenciesCondition)
    ensures
        r.description@ == "only have dependents where "@ + predicate.description@,
        r.predicate == predicate,
        r.incoming,
        r.ignore.test is AlwaysFalse,
{
    let description = cat("only have dependents where ", predicate.description.as_str());
    AllDependenciesCondition::new(description, predicate, true)
}

/// `only have dependent classes that <predicate>`: every dependency on the item has an
/// origin satisfying the predicate.
pub fn only_have_dependent_classes_that(predicate: ItemPredicate) -> (r: AllDependenciesCondition)
    ensures
        r.description@ == "only have dependent classes that "@ + predicate.description@,
        r.predicate.test == DependencyTest::Origin(predicate),
        r.incoming,
        r.ignore.test is AlwaysFalse,
{
    let description = cat("only have dependent classes that ", predicate.description.as_str());
    only_have_dependents_where(dependency_origin(predicate)).as_(description.as_str())
}

/// `only have dependents in any package ['a', 'b']`: every dependency on the item comes
/// from a module matching one of the identifiers.
pub fn only_have_dependents_in_any_package(package_identifiers: &Vec<String>) -> (r: AllDependenciesCondition)
    ensures
        r.description@ == "only have dependents in any package "@ + quoted_list(views(package_identifiers@)),
        r.predicate.test is Origin,
        r.predicate.test->Origin_0.wf(),
        forall|x: ItemView| #[trigger] r.predicate.test->Origin_0.holds(x) <==> some_identifier_matches(package_identifiers@, x.package_name),
        r.incoming,
        r.ignore.test is AlwaysFalse,
{
    let description = cat3("only have dependents in any package [", join_quoted(package_identifiers).as_str(), "]");
    proof {
        reveal_strlit("only have dependents in any package [");
        reveal_strlit("only have dependents in any package ");
        reveal_strlit("[");
        assert("only have dependents in any package ["@ =~= "only have dependents in any package "@ + "["@);
    }
    let p = predicates::reside_in_any_package(package_identifiers);
    only_have_dependents_where(dependency_origin(p)).as_(description.as_str())
}

/// `only have dependencies where <predicate>`: every dependency of the item satisfies it.
pub fn only_have_dependencies_where(predicate: DependencyPredicate) -> (r: AllDependenciesCondition)
    ensures
        r.description@ == "only have dependencies where "@ + predicate.description@,
        r.predicate == predicate,
        !r.incoming,
        r.ignore.test is AlwaysFalse,
{
    let description = cat("only have dependencies where ", predicate.description.as_str());
    AllDependenciesCondition::new(description, predicate, false)
}

/// `only have dependencies in any package ['a', 'b']`: every dependency of the item has a
/// target in a module matching one of the identifiers.
pub fn only_have_dependencies_in_any_package(package_identifiers: &Vec<String>) -> (r: AllDependenciesCondition)
    ensures
        r.description@ == "only have dependencies in any package "@ + quoted_list(views(package_identifiers@)),
        r.predicate.test is Target,
        r.predicate.test->Target_0.wf(),
        forall|x: ItemView| #[trigger] r.predicate.test->Target_0.holds(x) <==> some_identifier_matches(package_identifiers@, x.package_name),
        !r.incoming,
        r.ignore.test is AlwaysFalse,
{
    let description = cat3("only have dependencies in any package [", join_quoted(package_identifiers).as_str(), "]");
    proof {
        reveal_strlit("only have dependencies in any package [");
        reveal_strlit("only have dependencies in any package ");
        reveal_strlit("[");
        assert("only have dependencies in any package ["@ =~= "only have dependencies in any package "@ + "["@);
    }
    let p = predicates::reside_in_any_package(package_identifiers);
    only_have_dependencies_where(dependency_target(p)).as_(description.as_str())
}

// ---- accesses -------------------------------------------------------------------------------

/// `r` joins, over the accesses of an item considered by `considered` (or the accesses on
/// it, when `incoming`), the events of `holds`: satisfied when any access satisfies it
/// (`any`), or when all do.
pub open spec fn checks_accesses(
    r: ArchCondition,
    any: bool,
    incoming: bool,
    holds: spec_fn(Dependency, Seq<RustItem>) -> bool,
    considered: spec_fn(Dependency) -> bool,
) -> bool {
    &&& r.wf()
    &&& if any {
        &&& r.logic is AnyDependency
        &&& r.logic->AnyDependency_0.incoming == incoming
        &&& forall|d: Dependency, items: Seq<RustItem>| #[trigger] r.logic->AnyDependency_0.predicate.holds(d, items) == holds(d, items)
        &&& forall|d: Dependency, items: Seq<RustItem>| #[trigger] r.logic->AnyDependency_0.ignore.holds(d, items) == !considered(d)
    } else {
        &&& r.logic is AllDependencies
        &&& r.logic->AllDependencies_0.incoming == incoming
        &&& forall|d: Dependency, items: Seq<RustItem>| #[trigger] r.logic->AllDependencies_0.predicate.holds(d, items) == holds(d, items)
        &&& forall|d: Dependency, items: Seq<RustItem>| #[trigger] r.logic->AllDependencies_0.ignore.holds(d, items) == !considered(d)
    }
}

/// The accesses of one kind.
fn of_kind(kind: AccessKind) -> (r: DependencyPredicate)
    ensures
        r.wf(),
        forall|d: Dependency, items: Seq<RustItem>| #[trigger] r.holds(d, items) == (d.kind == kind),
{
    described_dependency(String::from_str("of kind"), DependencyTest::KindIs(kind))
}

/// Not an access considered by `considered`.
fn not_considered(considered: DependencyTest) -> (r: DependencyPredicate)
    requires
        is_kind_test(considered),
    ensures
        r.test is Not,
        r.test->Not_0.test == considered,
        r.wf(),
        forall|d: Dependency, items: Seq<RustItem>| #[trigger] r.holds(d, items) == !kind_test_holds(considered, d),
{
    let p = described_dependency(String::from_str("considered"), considered);
    let r = described_dependency(String::from_str("not considered"), DependencyTest::Not(Box::new(p)));
    proof {
        assert forall|d: Dependency, items: Seq<RustItem>| #[trigger] r.holds(d, items) == !kind_test_holds(considered, d) by {
            assert(p.holds(d, items) == kind_test_holds(considered, d));
        }
    }
    r
}

/// The kinds of access a condition can be restricted to.
pub open spec fn is_kind_test(t: DependencyTest) -> bool {
    t is KindIs || t is IsAccess || t is IsFieldAccess || t is IsCodeUnitCall
}

/// The condition described as `description` over the considered accesses.
fn accesses(description: &str, predicate: DependencyPredicate, considered: DependencyTest, incoming: bool, any: bool) -> (r: ArchCondition)
    requires
        predicate.wf(),
        is_kind_test(considered),
    ensures
        r.description@ == description@,
        r.wf(),
        any ==> (r.logic is AnyDependency && r.logic->AnyDependency_0.predicate == predicate
            && r.logic->AnyDependency_0.incoming == incoming
            && forall|d: Dependency, items: Seq<RustItem>| #[trigger] r.logic->AnyDependency_0.ignore.holds(d, items) == !kind_test_holds(considered, d)),
        !any ==> (r.logic is AllDependencies && r.logic->AllDependencies_0.predicate == predicate
            && r.logic->AllDependencies_0.incoming == incoming
            && forall|d: Dependency, items: Seq<RustItem>| #[trigger] r.logic->AllDependencies_0.ignore.holds(d, items) == !kind_test_holds(considered, d)),
{
    let ignore = not_considered(considered);
    if any {
        ArchCondition {
            description: String::from_str(description),
            logic: ConditionLogic::AnyDependency(AnyDependencyCondition { description: String::from_str(description), predicate, incoming, ignore }),
            scope: Vec::new(),
        }
    } else {
        ArchCondition {
            description: String::from_str(description),
            logic: ConditionLogic::AllDependencies(AllDependenciesCondition { description: String::from_str(description), predicate, incoming, ignore }),
            scope: Vec::new(),
        }
    }
}

/// Accesses of the member `member` of the item named `owner`; described as `<owner>::<member>`.
fn owner_and_name_are(owner: &str, member: &str) -> (r: DependencyPredicate)
    ensures
        r.wf(),
        r.description@ == owner@ + "::"@ + member@,
        forall|d: Dependency, items: Seq<RustItem>| #[trigger] r.holds(d, items) == (resolve(items, d.target).full_name == owner@ && d.member@ == member@),
{
    let description = cat3(owner, "::", member);
    let target = dependency_target(predicates::full_name(owner));
    let name = described_dependency(String::from_str(member), DependencyTest::MemberIs(String::from_str(member)));
    target.and(name).as_(description.as_str())
}

/// Field reads matching `predicate`; described as `get field where <predicate>`.
pub fn get_field_where(predicate: DependencyPredicate) -> (r: ArchCondition)
    requires
        predicate.wf(),
    ensures
        r.description@ == "get field where "@ + predicate.description@,
        checks_accesses(r, true, false, |d: Dependency, items: Seq<RustItem>| predicate.holds(d, items) && d.kind == AccessKind::GetField, |d: Dependency| d.kind == AccessKind::GetField),
{
    let description = cat("get field where ", predicate.description.as_str());
    let p = predicate.and(of_kind(AccessKind::GetField));
    accesses(description.as_str(), p, DependencyTest::KindIs(AccessKind::GetField), false, true)
}

/// Reads of the field `<owner>::<field>`; described as `get field <Owner>::<field>` with the owner's simple name.
pub fn get_field(owner: &str, field_name: &str) -> (r: ArchCondition)
    ensures
        r.description@ == "get field "@ + simple_of(owner@) + "::"@ + field_name@,
        checks_accesses(r, true, false, |d: Dependency, items: Seq<RustItem>| resolve(items, d.target).full_name == owner@ && d.member@ == field_name@ && d.kind == AccessKind::GetField, |d: Dependency| d.kind == AccessKind::GetField),
{
    let description = cat3(cat("get field ", simple_name_of(owner).as_str()).as_str(), "::", field_name);
    get_field_where(owner_and_name_are(owner, field_name)).as_(description.as_str())
}

/// Field writes matching `predicate`; described as `set field where <predicate>`.
pub fn set_field_where(predicate: DependencyPredicate) -> (r: ArchCondition)
    requires
        predicate.wf(),
    ensures
        r.description@ == "set field where "@ + predicate.description@,
        checks_accesses(r, true, false, |d: Dependency, items: Seq<RustItem>| predicate.holds(d, items) && d.kind == AccessKind::SetField, |d: Dependency| d.kind == AccessKind::SetField),
{
    let description = cat("set field where ", predicate.description.as_str());
    let p = predicate.and(of_kind(AccessKind::SetField));
    accesses(description.as_str(), p, DependencyTest::KindIs(AccessKind::SetField), false, true)
}

/// Writes of the field `<owner>::<field>`; described as `set field <Owner>::<field>`.
pub fn set_field(owner: &str, field_name: &str) -> (r: ArchCondition)
    ensures
        r.description@ == "set field "@ + simple_of(owner@) + "::"@ + field_name@,
        checks_accesses(r, true, false, |d: Dependency, items: Seq<RustItem>| resolve(items, d.target).full_name == owner@ && d.member@ == field_name@ && d.kind == AccessKind::SetField, |d: Dependency| d.kind == AccessKind::SetField),
{
    let description = cat3(cat("set field ", simple_name_of(owner).as_str()).as_str(), "::", field_name);
    set_field_where(owner_and_name_are(owner, field_name)).as_(description.as_str())
}

/// Field accesses matching `predicate`; described as `access field where <predicate>`.
pub fn access_field_where(predicate: DependencyPredicate) -> (r: ArchCondition)
    requires
        predicate.wf(),
    ensures
        r.description@ == "access field where "@ + predicate.description@,
        checks_accesses(r, true, false, |d: Dependency, items: Seq<RustItem>| predicate.holds(d, items), |d: Dependency| d.kind == AccessKind::GetField || d.kind == AccessKind::SetField),
{
    let description = cat("access field where ", predicate.description.as_str());
    let p = predicate;
    accesses(description.as_str(), p, DependencyTest::IsFieldAccess, false, true)
}

/// Reads or writes of the field `<owner>::<field>`; described as `access field <Owner>::<field>`.
pub fn access_field(owner: &str, field_name: &str) -> (r: ArchCondition)
    ensures
        r.description@ == "access field "@ + simple_of(owner@) + "::"@ + field_name@,
        checks_accesses(r, true, false, |d: Dependency, items: Seq<RustItem>| resolve(items, d.target).full_name == owner@ && d.member@ == field_name@, |d: Dependency| d.kind == AccessKind::GetField || d.kind == AccessKind::SetField),
{
    let description = cat3(cat("access field ", simple_name_of(owner).as_str()).as_str(), "::", field_name);
    access_field_where(owner_and_name_are(owner, field_name)).as_(description.as_str())
}

/// The parameter types as written, joined by `, `; described as `raw parameter types [<types>]`.
fn parameter_types(parameter_type_names: &Vec<String>) -> (r: DependencyPredicate)
    ensures
        r.wf(),
        forall|d: Dependency, items: Seq<RustItem>| #[trigger] r.holds(d, items) == (d.parameters@ == join_seq(views(parameter_type_names@), ", "@)),
{
    let joined = join(parameter_type_names, ", ");
    let description = cat3("raw parameter types [", joined.as_str(), "]");
    described_dependency(description, DependencyTest::ParametersAre(joined))
}

/// The simple names of the types.
fn simple_names(names: &Vec<String>) -> (r: Vec<String>)
    ensures
        r@.len() == names@.len(),
        forall|i: int| 0 <= i < r@.len() ==> (#[trigger] r@[i])@ == simple_of(names@[i]@),
{
    let mut r: Vec<String> = Vec::new();
    let mut i: usize = 0;
    while i < names.len()
        invariant
            i <= names@.len(),
            r@.len() == i,
            forall|j: int| 0 <= j < i ==> (#[trigger] r@[j])@ == simple_of(names@[j]@),
        decreases names@.len() - i,
    {
        r.push(simple_name_of(names[i].as_str()));
        i += 1;
    }
    r
}

/// Method calls matching `predicate`; described as `call method where <predicate>`.
pub fn call_method_where(predicate: DependencyPredicate) -> (r: ArchCondition)
    requires
        predicate.wf(),
    ensures
        r.description@ == "call method where "@ + predicate.description@,
        checks_accesses(r, true, false, |d: Dependency, items: Seq<RustItem>| predicate.holds(d, items), |d: Dependency| d.kind == AccessKind::MethodCall),
{
    let description = cat("call method where ", predicate.description.as_str());
    accesses(description.as_str(), predicate, DependencyTest::KindIs(AccessKind::MethodCall), false, true)
}

/// Calls of the method `<owner>::<method>` with the parameter types as written; described as
/// `call method <Owner>.<method>(<types>)` with simple names.
pub fn call_method(owner: &str, method_name: &str, parameter_type_names: &Vec<String>) -> (r: ArchCondition)
    ensures
        checks_accesses(
            r,
            true,
            false,
            |d: Dependency, items: Seq<RustItem>| resolve(items, d.target).full_name == owner@ && d.member@ == method_name@
                && d.parameters@ == join_seq(views(parameter_type_names@), ", "@),
            |d: Dependency| d.kind == AccessKind::MethodCall,
        ),
        exists|simple: Seq<Seq<char>>| {
            &&& simple.len() == parameter_type_names@.len()
            &&& (forall|i: int| 0 <= i < simple.len() ==> #[trigger] simple[i] == simple_of(parameter_type_names@[i]@))
            &&& r.description@ == "call method "@ + simple_of(owner@) + "."@ + method_name@ + "("@ + join_seq(simple, ", "@) + ")"@
        },
{
    let simple = simple_names(parameter_type_names);
    let mut description = cat("call method ", simple_name_of(owner).as_str());
    description.append(".");
    description.append(method_name);
    description.append("(");
    description.append(join(&simple, ", ").as_str());
    description.append(")");
    let target = cat3("target ", owner, "::");
    let target = cat(target.as_str(), method_name);
    let named = owner_and_name_are(owner, method_name).as_(target.as_str());
    let r = call_method_where(named.and(parameter_types(parameter_type_names))).as_(description.as_str());
    proof {
        assert(views(simple@).len() == parameter_type_names@.len());
        assert(forall|i: int| 0 <= i < views(simple@).len() ==> #[trigger] views(simple@)[i] == simple_of(parameter_type_names@[i]@));
    }
    r
}

/// Constructor calls matching `predicate`; described as `call constructor where <predicate>`.
pub fn call_constructor_where(predicate: DependencyPredicate) -> (r: ArchCondition)
    requires
        predicate.wf(),
    ensures
        r.description@ == "call constructor where "@ + predicate.description@,
        checks_accesses(r, true, false, |d: Dependency, items: Seq<RustItem>| predicate.holds(d, items), |d: Dependency| d.kind == AccessKind::ConstructorCall),
{
    let description = cat("call constructor where ", predicate.description.as_str());
    accesses(description.as_str(), predicate, DependencyTest::KindIs(AccessKind::ConstructorCall), false, true)
}

/// Calls of a constructor of `<owner>` with the parameter types as written; described as
/// `call constructor <Owner>(<types>)` with simple names.
pub fn call_constructor(owner: &str, parameter_type_names: &Vec<String>) -> (r: ArchCondition)
    ensures
        checks_accesses(
            r,
            true,
            false,
            |d: Dependency, items: Seq<RustItem>| resolve(items, d.target).full_name == owner@
                && d.parameters@ == join_seq(views(parameter_type_names@), ", "@),
            |d: Dependency| d.kind == AccessKind::ConstructorCall,
        ),
        exists|simple: Seq<Seq<char>>| {
            &&& simple.len() == parameter_type_names@.len()
            &&& (forall|i: int| 0 <= i < simple.len() ==> #[trigger] simple[i] == simple_of(parameter_type_names@[i]@))
            &&& r.description@ == "call constructor "@ + simple_of(owner@) + "("@ + join_seq(simple, ", "@) + ")"@
        },
{
    let simple = simple_names(parameter_type_names);
    let mut description = cat("call constructor ", simple_name_of(owner).as_str());
    description.append("(");
    description.append(join(&simple, ", ").as_str());
    description.append(")");
    let owner_predicate = dependency_target(predicates::full_name(owner)).as_(cat("target owner ", owner).as_str());
    let r = call_constructor_where(owner_predicate.and(parameter_types(parameter_type_names))).as_(description.as_str());
    proof {
        assert(views(simple@).len() == parameter_type_names@.len());
        assert(forall|i: int| 0 <= i < views(simple@).len() ==> #[trigger] views(simple@)[i] == simple_of(parameter_type_names@[i]@));
    }
    r
}

/// Calls of methods or constructors matching `predicate`; described as
/// `call code unit where <predicate>`.
pub fn call_code_unit_where(predicate: DependencyPredicate) -> (r: ArchCondition)
    requires
        predicate.wf(),
    ensures
        r.description@ == "call code unit where "@ + predicate.description@,
        checks_accesses(r, true, false, |d: Dependency, items: Seq<RustItem>| predicate.holds(d, items), |d: Dependency| d.kind == AccessKind::MethodCall || d.kind == AccessKind::ConstructorCall),
{
    let description = cat("call code unit where ", predicate.description.as_str());
    accesses(description.as_str(), predicate, DependencyTest::IsCodeUnitCall, false, true)
}

/// Accesses matching `predicate`; described as `access target where <predicate>`.
pub fn access_target_where(predicate: DependencyPredicate) -> (r: ArchCondition)
    requires
        predicate.wf(),
    ensures
        r.description@ == "access target where "@ + predicate.description@,
        checks_accesses(r, true, false, |d: Dependency, items: Seq<RustItem>| predicate.holds(d, items), |d: Dependency| d.kind != AccessKind::Other),
{
    let description = cat("access target where ", predicate.description.as_str());
    accesses(description.as_str(), predicate, DependencyTest::IsAccess, false, true)
}

/// `access classes that <predicate>`: some access of the item has a target satisfying it.
pub fn access_classes_that(predicate: ItemPredicate) -> (r: ArchCondition)
    requires
        predicate.wf(),
    ensures
        r.description@ == "access classes that "@ + predicate.description@,
        checks_accesses(r, true, false, |d: Dependency, items: Seq<RustItem>| predicate.holds(resolve(items, d.target)), |d: Dependency| d.kind != AccessKind::Other),
{
    let description = cat("access classes that ", predicate.description.as_str());
    accesses(description.as_str(), dependency_target(predicate), DependencyTest::IsAccess, false, true)
}

/// `only access classes that <predicate>`: every access of the item has a target satisfying it.
pub fn only_access_classes_that(predicate: ItemPredicate) -> (r: ArchCondition)
    requires
        predicate.wf(),
    ensures
        r.description@ == "only access classes that "@ + predicate.description@,
        checks_accesses(r, false, false, |d: Dependency, items: Seq<RustItem>| predicate.holds(resolve(items, d.target)), |d: Dependency| d.kind != AccessKind::Other),
{
    let description = cat("only access classes that ", predicate.description.as_str());
    accesses(description.as_str(), dependency_target(predicate), DependencyTest::IsAccess, false, false)
}

/// `only be accessed by classes that <predicate>`: every access on the item comes from an
/// item satisfying it.
pub fn only_be_accessed_by_classes_that(predicate: ItemPredicate) -> (r: ArchCondition)
    requires
        predicate.wf(),
    ensures
        r.description@ == "only be accessed by classes that "@ + predicate.description@,
        checks_accesses(r, false, true, |d: Dependency, items: Seq<RustItem>| predicate.holds(resolve(items, d.origin)), |d: Dependency| d.kind != AccessKind::Other),
{
    let description = cat("only be accessed by classes that ", predicate.description.as_str());
    accesses(description.as_str(), dependency_origin(predicate), DependencyTest::IsAccess, true, false)
}

/// `access classes that reside in any package ['a', 'b']`.
pub fn access_classes_that_reside_in_any_package(package_identifiers: &Vec<String>) -> (r: ArchCondition)
    ensures
        r.description@ == "access classes that reside in any package "@ + quoted_list(views(package_identifiers@)),
        checks_accesses(r, true, false, |d: Dependency, items: Seq<RustItem>| some_identifier_matches(package_identifiers@, resolve(items, d.target).package_name), |d: Dependency| d.kind != AccessKind::Other),
{
    let description = cat3("access classes that reside in any package [", join_quoted(package_identifiers).as_str(), "]");
    proof {
        reveal_strlit("access classes that reside in any package [");
        reveal_strlit("access classes that reside in any package ");
        reveal_strlit("[");
        assert("access classes that reside in any package ["@ =~= "access classes that reside in any package "@ + "["@);
    }
    let p = predicates::reside_in_any_package(package_identifiers);
    accesses(description.as_str(), dependency_target(p), DependencyTest::IsAccess, false, true)
}

/// `access classes that reside in package '<identifier>'`.
pub fn access_classes_that_reside_in(package_identifier: &str) -> (r: ArchCondition)
    ensures
        r.description@ == "access classes that reside in package "@ + single_quoted(package_identifier@),
        checks_accesses(r, true, false, |d: Dependency, items: Seq<RustItem>| spec_match(package_identifier@, resolve(items, d.target).package_name) is Some, |d: Dependency| d.kind != AccessKind::Other),
{
    let mut ids: Vec<String> = Vec::new();
    ids.push(String::from_str(package_identifier));
    let description = cat("access classes that reside in package ", quote(package_identifier).as_str());
    let r = access_classes_that_reside_in_any_package(&ids).as_(description.as_str());
    proof {
        assert forall|x: Seq<char>| #[trigger] some_identifier_matches(ids@, x) == (spec_match(package_identifier@, x) is Some) by {
            if spec_match(package_identifier@, x) is Some {
                assert(spec_match(ids@[0]@, x) is Some);
            }
        }
    }
    r
}

/// `only be accessed by any package ['a', 'b']`: every access on the item comes from a
/// module matching one of the identifiers.
pub fn only_be_accessed_by_any_package(package_identifiers: &Vec<String>) -> (r: ArchCondition)
    ensures
        r.description@ == "only be accessed by any package "@ + quoted_list(views(package_identifiers@)),
        checks_accesses(r, false, true, |d: Dependency, items: Seq<RustItem>| some_identifier_matches(package_identifiers@, resolve(items, d.origin).package_name), |d: Dependency| d.kind != AccessKind::Other),
{
    let description = cat3("only be accessed by any package [", join_quoted(package_identifiers).as_str(), "]");
    proof {
        reveal_strlit("only be accessed by any package [");
        reveal_strlit("only be accessed by any package ");
        reveal_strlit("[");
        assert("only be accessed by any package ["@ =~= "only be accessed by any package "@ + "["@);
    }
    let p = predicates::reside_in_any_package(package_identifiers);
    accesses(description.as_str(), dependency_origin(p), DependencyTest::IsAccess, true, false)
}

/// The name of an access kind, as it reads in descriptions.
pub open spec fn access_kind_name(kind: AccessKind) -> Seq<char> {
    match kind {
        AccessKind::Other => "Other"@,
        AccessKind::GetField => "GetField"@,
        AccessKind::SetField => "SetField"@,
        AccessKind::MethodCall => "MethodCall"@,
        AccessKind::ConstructorCall => "ConstructorCall"@,
    }
}

/// Accesses of the kind `kind`; described as `access kind <kind>`.
pub fn access_kind_is(kind: AccessKind) -> (r: DependencyPredicate)
    ensures
        r.description@ == "access kind "@ + access_kind_name(kind),
        r.test == DependencyTest::KindIs(kind),
        r.wf(),
{
    let name = match kind {
        AccessKind::Other => "Other",
        AccessKind::GetField => "GetField",
        AccessKind::SetField => "SetField",
        AccessKind::MethodCall => "MethodCall",
        AccessKind::ConstructorCall => "ConstructorCall",
    };
    DependencyPredicate { description: cat("access kind ", name), test: DependencyTest::KindIs(kind) }
}

} // verus!

