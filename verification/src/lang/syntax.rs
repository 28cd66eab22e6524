//! The fluent rule syntax (`ArchRuleDefinition`): `classes().that(..).should(..)`.

use vstd::prelude::*;
use vstd::string::*;

use super::condition::{events_of_all, evaluated_events, names_of, ArchCondition, ConditionLogic};
use super::conditions::{self, checks_accesses};
use super::events::EventsView;
use super::rule::{selected, selected_where, ClassesTransformer, Priority, SimpleArchRule};
use crate::base::count_predicates::CountPredicate;
use crate::base::dependency_predicates::DependencyTest;
use crate::base::predicates::{self, ItemPredicate, ItemTest};
use crate::domain::{resolve, same_item, AccessKind, Dependency, ItemView, RustItem, RustItems};
use crate::text::{cat, cat3, views};

verus! {

/// What a rule does to its condition before checking: nothing, or invert every event
/// (for `no classes ..`).
#[derive(Debug, Clone, Copy, PartialEq, Eq, Structural)]
pub enum Prepare {
    /// The condition as it is.
    Identity,
    /// Every event inverted, under the same description.
    Negate,
}

/// `r` is `c` prepared as `p` says.
pub open spec fn prepared(p: Prepare, c: ArchCondition, r: ArchCondition) -> bool {
    match p {
        Prepare::Identity => r == c,
        Prepare::Negate => r.description == c.description && r.logic == ConditionLogic::Never(Box::new(c)),
    }
}

/// Conditions with the same logic give the same events on any objects.
proof fn lemma_same_logic_events(a: ArchCondition, b: ArchCondition, objects: Seq<RustItem>, items: Seq<RustItem>, scope: Seq<Seq<char>>)
    requires
        a.logic == b.logic,
    ensures
        events_of_all(a, objects, items, scope) == events_of_all(b, objects, items, scope),
    decreases objects.len(),
{
    if objects.len() > 0 {
        lemma_same_logic_events(a, b, objects.drop_last(), items, scope);
    }
}

/// A rule begun with `no_classes()` checks its condition negated: evaluated on any objects, the
/// condition it is finished with gives exactly the events that [`ArchCondition::never`] of
/// that condition gives; only the description differs (it keeps the condition's own, the rule
/// reading `no classes should <description>`).
pub proof fn lemma_no_classes_checks_never(c: ArchCondition, prepared_condition: ArchCondition, never_c: ArchCondition, objects: Seq<RustItem>, items: Seq<RustItem>)
    requires
        prepared(Prepare::Negate, c, prepared_condition),
        never_c.logic == ConditionLogic::Never(Box::new(c)),
    ensures
        evaluated_events(prepared_condition, objects, items) == evaluated_events(never_c, objects, items),
        prepared_condition.description == c.description,
{
    lemma_same_logic_events(prepared_condition, never_c, objects, items, names_of(objects));
}

/// A rule whose condition is prepared the way `no classes should ..` prepares it reports, where it
/// checks some item or may check none, exactly the violations and number text that
/// [`ArchCondition::never`] of the condition gives evaluated on the selected items; it fails
/// only where it checks no item and may not.
pub proof fn lemma_no_classes_rule_reports_never(rule: SimpleArchRule, c: ArchCondition, never_c: ArchCondition, items: Seq<RustItem>)
    requires
        prepared(Prepare::Negate, c, rule.condition),
        never_c.logic == ConditionLogic::Never(Box::new(c)),
    ensures
        ({
            let objects = selected(items, rule.transformer.filter);
            let events = EventsView::empty().added_all(evaluated_events(never_c, objects, items));
            match rule.evaluation(items) {
                Ok(v) => v.violations == events.violating && v.information == events.information
                    && v.rule_description == rule.description_text() && v.priority == rule.priority,
                Err(_) => objects.len() == 0 && !rule.allows_empty(),
            }
        }),
        selected(items, rule.transformer.filter).len() > 0 || rule.allows_empty() ==> rule.evaluation(items) is Ok,
{
    let objects = selected(items, rule.transformer.filter);
    lemma_no_classes_checks_never(c, rule.condition, never_c, objects, items);
}

/// Prepares `c` as `p` says.
pub fn prepare(p: Prepare, c: ArchCondition) -> (r: ArchCondition)
    ensures
        prepared(p, c, r),
        c.wf() ==> r.wf(),
{
    match p {
        Prepare::Identity => c,
        Prepare::Negate => {
            let description = c.description.clone();
            ArchCondition { description, logic: ConditionLogic::Never(Box::new(c)), scope: Vec::new() }
        },
    }
}

/// `r` is `old` with `p` added: `p` alone at first, then joined by `and` (or `or` when
/// `or_mode`), described as `<old> and <p>` (or `<old> or <p>`).
pub open spec fn added(old: Option<ItemPredicate>, or_mode: bool, p: ItemPredicate, r: Option<ItemPredicate>) -> bool {
    match r {
        None => false,
        Some(q) => match old {
            None => q == p,
            Some(f) => if or_mode {
                q.description@ == f.description@ + " or "@ + p.description@ && q.test == ItemTest::Or(Box::new(f), Box::new(p))
            } else {
                q.description@ == f.description@ + " and "@ + p.description@ && q.test == ItemTest::And(Box::new(f), Box::new(p))
            },
        },
    }
}

fn add_predicate(old: Option<ItemPredicate>, or_mode: bool, p: ItemPredicate) -> (r: Option<ItemPredicate>)
    ensures
        added(old, or_mode, p, r),
{
    match old {
        None => Some(p),
        Some(f) => if or_mode {
            Some(f.or(p))
        } else {
            Some(f.and(p))
        },
    }
}

/// The predicate is well formed, if there is one.
pub open spec fn predicate_wf(p: Option<ItemPredicate>) -> bool {
    match p {
        Some(q) => q.wf(),
        None => true,
    }
}

/// The state of `classes() ..` before `should`: the items, the predicates they should
/// satisfy, and how the condition is prepared.
#[derive(Debug)]
pub struct GivenClasses {
    /// The priority of the rule.
    pub priority: Priority,
    /// All items the rule starts from.
    pub transformer: ClassesTransformer,
    /// What is done to the condition.
    pub prepare: Prepare,
    /// The predicates added with `that`, `and` and `or`.
    pub predicate: Option<ItemPredicate>,
    /// Whether the next predicate is joined with `or`.
    pub or_mode: bool,
}

impl GivenClasses {
    /// The transformer and predicates are well formed.
    pub open spec fn wf(&self) -> bool {
        self.transformer.filter.wf() && predicate_wf(self.predicate)
    }

    /// Only the items that also satisfy `predicate` (`that(..)`).
    pub fn that_with(self, predicate: ItemPredicate) -> (r: GivenClasses)
        ensures
            added(self.predicate, self.or_mode, predicate, r.predicate),
            r == (GivenClasses { predicate: r.predicate, ..self }),
            self.wf() && predicate.wf() ==> r.wf(),
    {
        let p = add_predicate(self.predicate, self.or_mode, predicate);
        GivenClasses { predicate: p, ..self }
    }

    /// The builder for the predicate of `that()`.
    pub fn that(self) -> (r: ClassesThat)
        ensures
            r.given == self,
    {
        ClassesThat { given: self }
    }

    /// Adds `predicate` joined by `and` (`and(..)`).
    pub fn and_with(self, predicate: ItemPredicate) -> (r: GivenClasses)
        ensures
            added(self.predicate, false, predicate, r.predicate),
            r == (GivenClasses { predicate: r.predicate, or_mode: false, ..self }),
            self.wf() && predicate.wf() ==> r.wf(),
    {
        let p = add_predicate(self.predicate, false, predicate);
        GivenClasses { predicate: p, or_mode: false, ..self }
    }

    /// The builder for a predicate joined by `and`.
    pub fn and(self) -> (r: ClassesThat)
        ensures
            r.given == (GivenClasses { or_mode: false, ..self }),
    {
        ClassesThat { given: GivenClasses { or_mode: false, ..self } }
    }

    /// Adds `predicate` joined by `or` (`or(..)`).
    pub fn or_with(self, predicate: ItemPredicate) -> (r: GivenClasses)
        ensures
            added(self.predicate, true, predicate, r.predicate),
            r == (GivenClasses { predicate: r.predicate, or_mode: true, ..self }),
            self.wf() && predicate.wf() ==> r.wf(),
    {
        let p = add_predicate(self.predicate, true, predicate);
        GivenClasses { predicate: p, or_mode: true, ..self }
    }

    /// The builder for a predicate joined by `or`.
    pub fn or(self) -> (r: ClassesThat)
        ensures
            r.given == (GivenClasses { or_mode: true, ..self }),
    {
        ClassesThat { given: GivenClasses { or_mode: true, ..self } }
    }

    /// The items of the rule: those of the transformer satisfying the predicates; described
    /// as `<items> that <predicates>`.
    fn finished_transformer(self) -> (r: ClassesTransformer)
        requires
            self.wf(),
        ensures
            r.filter.wf(),
            match self.predicate {
                Some(p) => r.description@ == self.transformer.description@ + " that "@ + p.description@
                    && forall|x: ItemView| #[trigger] r.filter.holds(x) == (self.transformer.filter.holds(x) && p.holds(x)),
                None => r == self.transformer,
            },
    {
        match self.predicate {
            Some(p) => self.transformer.that(p),
            None => self.transformer,
        }
    }

    /// Starts the conditions (`should()`).
    pub fn should(self) -> (r: ClassesShould)
        requires
            self.wf(),
        ensures
            r.wf(),
            r.condition is None,
            !r.or_mode,
            !r.prepend,
            r.priority == self.priority,
            r.prepare == self.prepare,
            match self.predicate {
                Some(p) => r.transformer.description@ == self.transformer.description@ + " that "@ + p.description@
                    && forall|x: ItemView| #[trigger] r.transformer.filter.holds(x) == (self.transformer.filter.holds(x) && p.holds(x)),
                None => r.transformer == self.transformer,
            },
    {
        let priority = self.priority;
        let prepare = self.prepare;
        let transformer = self.finished_transformer();
        ClassesShould { transformer, priority, condition: None, or_mode: false, prepend: false, prepare }
    }

    /// The rule with its first condition (`should(condition)`).
    pub fn should_with(self, condition: ArchCondition) -> (r: ClassesShouldConjunction)
        requires
            self.wf(),
            condition.wf(),
        ensures
            r.wf(),
            r.condition == condition,
            r.priority == self.priority,
            r.prepare == self.prepare,
            match self.predicate {
                Some(p) => r.transformer.description@ == self.transformer.description@ + " that "@ + p.description@
                    && forall|x: ItemView| #[trigger] r.transformer.filter.holds(x) == (self.transformer.filter.holds(x) && p.holds(x)),
                None => r.transformer == self.transformer,
            },
    {
        self.should().satisfy(condition)
    }
}

/// The builder for one predicate of `that()`.
#[derive(Debug)]
pub struct ClassesThat {
    /// The rule the predicate is added to.
    pub given: GivenClasses,
}

impl ClassesThat {
    /// Adds `predicate` (`satisfy(..)`).
    pub fn satisfy(self, predicate: ItemPredicate) -> (r: GivenClasses)
        ensures
            added(self.given.predicate, self.given.or_mode, predicate, r.predicate),
            r == (GivenClasses { predicate: r.predicate, ..self.given }),
            self.given.wf() && predicate.wf() ==> r.wf(),
    {
        self.given.that_with(predicate)
    }

    /// Items in a module matching the identifier.
    pub fn reside_in_a_package(self, package_identifier: &str) -> (r: GivenClasses)
        ensures
            r == (GivenClasses { predicate: r.predicate, ..self.given }),
            self.given.wf() ==> r.wf(),
            r.predicate is Some,
    {
        self.satisfy(predicates::reside_in_a_package(package_identifier))
    }

    /// Items in no module matching the identifier.
    pub fn reside_outside_of_package(self, package_identifier: &str) -> (r: GivenClasses)
        ensures
            r == (GivenClasses { predicate: r.predicate, ..self.given }),
            self.given.wf() ==> r.wf(),
            r.predicate is Some,
    {
        self.satisfy(predicates::reside_outside_of_package(package_identifier))
    }

    /// Items whose simple name is `name`.
    pub fn have_simple_name(self, name: &str) -> (r: GivenClasses)
        ensures
            r == (GivenClasses { predicate: r.predicate, ..self.given }),
            self.given.wf() ==> r.wf(),
            r.predicate is Some,
    {
        self.satisfy(conditions::have(predicates::simple_name(name)).predicate.as_(cat("have ", "simple name ").as_str()))
    }

    /// Items whose simple name ends with `suffix`; described as `have simple name ending with '<suffix>'`.
    pub fn have_simple_name_ending_with(self, suffix: &str) -> (r: GivenClasses)
        ensures
            r == (GivenClasses { predicate: r.predicate, ..self.given }),
            self.given.wf() ==> r.wf(),
            r.predicate is Some,
    {
        let p = predicates::simple_name_ending_with(suffix);
        let d = cat("have ", p.description.as_str());
        self.satisfy(p.as_(d.as_str()))
    }

    /// Traits; described as `are traits`.
    pub fn are_traits(self) -> (r: GivenClasses)
        ensures
            r == (GivenClasses { predicate: r.predicate, ..self.given }),
            self.given.wf() ==> r.wf(),
            r.predicate is Some,
    {
        self.satisfy(predicates::kind_is(crate::domain::ItemKind::Trait, "are traits"))
    }
}

/// The state of a rule after `should()`, before a condition is added.
#[derive(Debug)]
pub struct ClassesShould {
    /// The items of the rule.
    pub transformer: ClassesTransformer,
    /// The priority.
    pub priority: Priority,
    /// The conditions so far.
    pub condition: Option<ArchCondition>,
    /// Whether the next condition is joined with `or`.
    pub or_mode: bool,
    /// Whether the next condition is described as `should <condition>`.
    pub prepend: bool,
    /// What is done to the condition.
    pub prepare: Prepare,
}

/// `r` is `old` with `c` added: `c` alone at first (described as `should <c>` when
/// `prepend`), then joined by `and` (or `or`).
pub open spec fn condition_added(old: Option<ArchCondition>, or_mode: bool, prepend: bool, c: ArchCondition, r: ArchCondition) -> bool {
    let second_description = if prepend { "should "@ + c.description@ } else { c.description@ };
    match old {
        None => r.description@ == second_description && r.logic == c.logic,
        Some(f) => {
            &&& r.description@ == f.description@ + (if or_mode { " or "@ } else { " and "@ }) + second_description
            &&& r.logic matches ConditionLogic::Join(is_and, cs) && is_and == !or_mode && cs@.len() == 2 && cs@[0] == f
                && cs@[1].logic == c.logic && cs@[1].description@ == second_description
        },
    }
}

impl ClassesShould {
    /// The conditions are well formed.
    pub open spec fn wf(&self) -> bool {
        &&& self.transformer.filter.wf()
        &&& match self.condition {
            Some(c) => c.wf(),
            None => true,
        }
    }

    /// Adds `condition` (`satisfy(..)`).
    pub fn satisfy(self, condition: ArchCondition) -> (r: ClassesShouldConjunction)
        requires
            self.wf(),
            condition.wf(),
        ensures
            r.wf(),
            condition_added(self.condition, self.or_mode, self.prepend, condition, r.condition),
            self.condition is None && !self.prepend ==> r.condition == condition,
            r.transformer == self.transformer,
            r.priority == self.priority,
            r.prepare == self.prepare,
    {
        let second = if self.prepend {
            let d = cat("should ", condition.description.as_str());
            condition.as_(d.as_str())
        } else {
            condition
        };
        let combined = match self.condition {
            None => second,
            Some(first) => if self.or_mode {
                first.or(second)
            } else {
                first.and(second)
            },
        };
        ClassesShouldConjunction { transformer: self.transformer, priority: self.priority, condition: combined, prepare: self.prepare }
    }

    /// `depend on classes that <predicate>`.
    pub fn depend_on_classes_that(self, predicate: ItemPredicate) -> (r: ClassesShouldConjunction)
        requires
            self.wf(),
            predicate.wf(),
        ensures
            r.wf(),
            exists|c: ArchCondition| #[trigger] continues(self, r, c)
                && c.description@ == "depend on classes that "@ + predicate.description@
                && (c.logic matches ConditionLogic::AnyDependency(a)
                && a.predicate.test == DependencyTest::Target(predicate) && !a.incoming && a.ignore.test is AlwaysFalse),
    {
        let c = conditions::depend_on_classes_that(predicate).into_condition();
        let ghost g = c;
        let r = self.satisfy(c);
        proof {
            assert(continues(self, r, g));
        }
        r
    }

    /// `only depend on classes that <predicate>`.
    pub fn only_depend_on_classes_that(self, predicate: ItemPredicate) -> (r: ClassesShouldConjunction)
        requires
            self.wf(),
            predicate.wf(),
        ensures
            r.wf(),
            exists|c: ArchCondition| #[trigger] continues(self, r, c)
                && c.description@ == "only depend on classes that "@ + predicate.description@
                && (c.logic matches ConditionLogic::AllDependencies(a)
                && a.predicate.test == DependencyTest::Target(predicate) && !a.incoming && a.ignore.test is AlwaysFalse),
    {
        let c = conditions::only_depend_on_classes_that(predicate).into_condition();
        let ghost g = c;
        let r = self.satisfy(c);
        proof {
            assert(continues(self, r, g));
        }
        r
    }

    /// `only have dependent classes that <predicate>`.
    pub fn only_have_dependent_classes_that(self, predicate: ItemPredicate) -> (r: ClassesShouldConjunction)
        requires
            self.wf(),
            predicate.wf(),
        ensures
            r.wf(),
            exists|c: ArchCondition| #[trigger] continues(self, r, c)
                && c.description@ == "only have dependent classes that "@ + predicate.description@
                && (c.logic matches ConditionLogic::AllDependencies(a)
                && a.predicate.test == DependencyTest::Origin(predicate) && a.incoming && a.ignore.test is AlwaysFalse),
    {
        let c = conditions::only_have_dependent_classes_that(predicate).into_condition();
        let ghost g = c;
        let r = self.satisfy(c);
        proof {
            assert(continues(self, r, g));
        }
        r
    }

    /// `transitively depend on classes that <predicate>`.
    pub fn transitively_depend_on_classes_that(self, predicate: ItemPredicate) -> (r: ClassesShouldConjunction)
        requires
            self.wf(),
            predicate.wf(),
        ensures
            r.wf(),
            exists|c: ArchCondition| #[trigger] continues(self, r, c)
                && c.description@ == "transitively depend on classes that "@ + predicate.description@
                && c.logic == ConditionLogic::Transitive(predicate),
    {
        let c = conditions::transitively_depend_on_classes_that(predicate);
        let ghost g = c;
        let r = self.satisfy(c);
        proof {
            assert(continues(self, r, g));
        }
        r
    }

    /// `have only private constructors`.
    pub fn have_only_private_constructors(self) -> (r: ClassesShouldConjunction)
        requires
            self.wf(),
        ensures
            r.wf(),
            exists|c: ArchCondition| #[trigger] continues(self, r, c)
                && c.description@ == "have only private constructors"@
                && c.logic == ConditionLogic::PrivateConstructors,
    {
        let c = conditions::have_only_private_constructors();
        let ghost g = c;
        let r = self.satisfy(c);
        proof {
            assert(continues(self, r, g));
        }
        r
    }

    /// `contain number of elements <predicate>`.
    pub fn contain_number_of_elements(self, predicate: CountPredicate) -> (r: ClassesShouldConjunction)
        requires
            self.wf(),
        ensures
            r.wf(),
            exists|c: ArchCondition| #[trigger] continues(self, r, c)
                && c.description@ == "contain number of elements "@ + predicate.description@
                && c.logic == ConditionLogic::Count(predicate),
    {
        let c = conditions::contain_number_of_elements(predicate);
        let ghost g = c;
        let r = self.satisfy(c);
        proof {
            assert(continues(self, r, g));
        }
        r
    }

    /// `access classes that <predicate>`.
    pub fn access_classes_that(self, predicate: ItemPredicate) -> (r: ClassesShouldConjunction)
        requires
            self.wf(),
            predicate.wf(),
        ensures
            r.wf(),
            exists|c: ArchCondition| #[trigger] continues(self, r, c)
                && c.description@ == "access classes that "@ + predicate.description@
                && checks_accesses(c, true, false, |d: Dependency, items: Seq<RustItem>| predicate.holds(resolve(items, d.target)), |d: Dependency| d.kind != AccessKind::Other),
    {
        let c = conditions::access_classes_that(predicate);
        let ghost g = c;
        let r = self.satisfy(c);
        proof {
            assert(continues(self, r, g));
        }
        r
    }

    /// `only access classes that <predicate>`.
    pub fn only_access_classes_that(self, predicate: ItemPredicate) -> (r: ClassesShouldConjunction)
        requires
            self.wf(),
            predicate.wf(),
        ensures
            r.wf(),
            exists|c: ArchCondition| #[trigger] continues(self, r, c)
                && c.description@ == "only access classes that "@ + predicate.description@
                && checks_accesses(c, false, false, |d: Dependency, items: Seq<RustItem>| predicate.holds(resolve(items, d.target)), |d: Dependency| d.kind != AccessKind::Other),
    {
        let c = conditions::only_access_classes_that(predicate);
        let ghost g = c;
        let r = self.satisfy(c);
        proof {
            assert(continues(self, r, g));
        }
        r
    }

    /// `only be accessed ..`, continued by the accessors.
    pub fn only_be_accessed(self) -> (r: OnlyBeAccessedSpecification)
        ensures
            r.should == self,
    {
        OnlyBeAccessedSpecification { should: self }
    }
}

/// `r` continues `s` with the condition `c` (see [`condition_added`]).
pub open spec fn continues(s: ClassesShould, r: ClassesShouldConjunction, c: ArchCondition) -> bool {
    &&& r.transformer == s.transformer
    &&& r.priority == s.priority
    &&& r.prepare == s.prepare
    &&& condition_added(s.condition, s.or_mode, s.prepend, c, r.condition)
}

/// `only be accessed ..` (`OnlyBeAccessedSpecification`).
#[derive(Debug)]
pub struct OnlyBeAccessedSpecification {
    /// The rule so far.
    pub should: ClassesShould,
}

impl OnlyBeAccessedSpecification {
    /// `only be accessed by any package ['a', 'b']`.
    pub fn by_any_package(self, package_identifiers: &Vec<String>) -> (r: ClassesShouldConjunction)
        requires
            self.should.wf(),
        ensures
            r.wf(),
            exists|c: ArchCondition| #[trigger] continues(self.should, r, c)
                && c.description@ == "only be accessed by any package "@ + predicates::quoted_list(views(package_identifiers@))
                && checks_accesses(c, false, true, |d: Dependency, items: Seq<RustItem>| predicates::some_identifier_matches(package_identifiers@, resolve(items, d.origin).package_name), |d: Dependency| d.kind != AccessKind::Other),
    {
        let c = conditions::only_be_accessed_by_any_package(package_identifiers);
        let ghost g = c;
        let r = self.should.satisfy(c);
        proof {
            assert(continues(self.should, r, g));
        }
        r
    }

    /// `only be accessed by classes that <predicate>`.
    pub fn by_classes_that(self, predicate: ItemPredicate) -> (r: ClassesShouldConjunction)
        requires
            self.should.wf(),
            predicate.wf(),
        ensures
            r.wf(),
            exists|c: ArchCondition| #[trigger] continues(self.should, r, c)
                && c.description@ == "only be accessed by classes that "@ + predicate.description@
                && checks_accesses(c, false, true, |d: Dependency, items: Seq<RustItem>| predicate.holds(resolve(items, d.origin)), |d: Dependency| d.kind != AccessKind::Other),
    {
        let c = conditions::only_be_accessed_by_classes_that(predicate);
        let ghost g = c;
        let r = self.should.satisfy(c);
        proof {
            assert(continues(self.should, r, g));
        }
        r
    }

    /// `only be accessed by classes that <predicate>` (the form that takes the predicate).
    pub fn by_classes_that_with(self, predicate: ItemPredicate) -> (r: ClassesShouldConjunction)
        requires
            self.should.wf(),
            predicate.wf(),
        ensures
            r.wf(),
            exists|c: ArchCondition| #[trigger] continues(self.should, r, c)
                && c.description@ == "only be accessed by classes that "@ + predicate.description@
                && checks_accesses(c, false, true, |d: Dependency, items: Seq<RustItem>| predicate.holds(resolve(items, d.origin)), |d: Dependency| d.kind != AccessKind::Other),
    {
        self.by_classes_that(predicate)
    }
}

/// A rule with at least one condition (`ClassesShouldConjunction`).
#[derive(Debug)]
pub struct ClassesShouldConjunction {
    /// The items of the rule.
    pub transformer: ClassesTransformer,
    /// The priority.
    pub priority: Priority,
    /// The conditions.
    pub condition: ArchCondition,
    /// What is done to the condition.
    pub prepare: Prepare,
}

impl ClassesShouldConjunction {
    /// The parts are well formed.
    pub open spec fn wf(&self) -> bool {
        self.transformer.filter.wf() && self.condition.wf()
    }

    /// `<items> should <conditions>`.
    pub fn description(&self) -> (r: String)
        ensures
            r@ == self.transformer.description@ + " should "@ + self.condition.description@,
    {
        cat3(self.transformer.description.as_str(), " should ", self.condition.description.as_str())
    }

    /// Continues with a condition joined by `and`, described as `should <condition>`.
    pub fn and_should(self) -> (r: ClassesShould)
        requires
            self.wf(),
        ensures
            r.wf(),
            r.condition == Some(self.condition),
            !r.or_mode,
            r.prepend,
            r.transformer == self.transformer,
            r.priority == self.priority,
            r.prepare == self.prepare,
    {
        ClassesShould { transformer: self.transformer, priority: self.priority, condition: Some(self.condition), or_mode: false, prepend: true, prepare: self.prepare }
    }

    /// Adds `condition` joined by `and`, described as `should <condition>`.
    pub fn and_should_with(self, condition: ArchCondition) -> (r: ClassesShouldConjunction)
        requires
            self.wf(),
            condition.wf(),
        ensures
            r.wf(),
            condition_added(Some(self.condition), false, true, condition, r.condition),
            r.transformer == self.transformer,
            r.priority == self.priority,
    {
        self.and_should().satisfy(condition)
    }

    /// Continues with a condition joined by `or`, described as `should <condition>`.
    pub fn or_should(self) -> (r: ClassesShould)
        requires
            self.wf(),
        ensures
            r.wf(),
            r.condition == Some(self.condition),
            r.or_mode,
            r.prepend,
            r.transformer == self.transformer,
            r.priority == self.priority,
            r.prepare == self.prepare,
    {
        ClassesShould { transformer: self.transformer, priority: self.priority, condition: Some(self.condition), or_mode: true, prepend: true, prepare: self.prepare }
    }

    /// Adds `condition` joined by `or`, described as `should <condition>`.
    pub fn or_should_with(self, condition: ArchCondition) -> (r: ClassesShouldConjunction)
        requires
            self.wf(),
            condition.wf(),
        ensures
            r.wf(),
            condition_added(Some(self.condition), true, true, condition, r.condition),
            r.transformer == self.transformer,
            r.priority == self.priority,
    {
        self.or_should().satisfy(condition)
    }

    /// The finished rule: the items of the transformer should satisfy the prepared
    /// conditions.
    pub fn into_rule(self) -> (r: SimpleArchRule)
        requires
            self.wf(),
        ensures
            r.wf(),
            r.transformer == self.transformer,
            prepared(self.prepare, self.condition, r.condition),
            r.priority == self.priority,
            r.overridden_description is None,
            r.allow_empty_should is None,
            r.description_text() == self.transformer.description@ + " should "@ + self.condition.description@,
    {
        let condition = prepare(self.prepare, self.condition);
        SimpleArchRule::create(self.transformer, condition, self.priority)
    }

    /// The finished rule with `, because <reason>` appended (`because(..)`).
    pub fn because(self, reason: &str) -> (r: SimpleArchRule)
        requires
            self.wf(),
        ensures
            r.wf(),
            r.description_text() == crate::lang::rule::because_text(
                self.transformer.description@ + " should "@ + self.condition.description@,
                reason@,
            ),
    {
        self.into_rule().because(reason)
    }

    /// The finished rule under another description (`as(..)`).
    pub fn as_(self, description: &str) -> (r: SimpleArchRule)
        requires
            self.wf(),
        ensures
            r.wf(),
            r.description_text() == description@,
    {
        self.into_rule().as_(description)
    }

    /// The finished rule, allowed or not to check no items.
    pub fn allow_empty_should(self, allow_empty_should: bool) -> (r: SimpleArchRule)
        requires
            self.wf(),
        ensures
            r.wf(),
            r.allow_empty_should == Some(allow_empty_should),
            r.description_text() == self.transformer.description@ + " should "@ + self.condition.description@,
    {
        self.into_rule().allow_empty_should(allow_empty_should)
    }
}

/// The state of `the_class(..)`: the one item of that name.
#[derive(Debug)]
pub struct GivenClass {
    /// The priority.
    pub priority: Priority,
    /// The item.
    pub transformer: ClassesTransformer,
    /// What is done to the condition.
    pub prepare: Prepare,
}

impl GivenClass {
    /// Starts the conditions (`should()`).
    pub fn should(self) -> (r: ClassesShould)
        requires
            self.transformer.filter.wf(),
        ensures
            r.wf(),
            r.condition is None,
            !r.prepend,
            !r.or_mode,
            r.transformer == self.transformer,
            r.priority == self.priority,
            r.prepare == self.prepare,
    {
        ClassesShould { transformer: self.transformer, priority: self.priority, condition: None, or_mode: false, prepend: false, prepare: self.prepare }
    }

    /// The rule with its first condition (`should(condition)`).
    pub fn should_with(self, condition: ArchCondition) -> (r: ClassesShouldConjunction)
        requires
            self.transformer.filter.wf(),
            condition.wf(),
        ensures
            r.wf(),
            r.condition == condition,
            r.transformer == self.transformer,
            r.priority == self.priority,
            r.prepare == self.prepare,
    {
        self.should().satisfy(condition)
    }
}

/// The entry points of the syntax with a priority.
#[derive(Debug, Clone, Copy)]
pub struct Creator {
    /// The priority of the rules.
    pub priority: Priority,
}

/// All items; described as `classes`.
fn classes_transformer() -> (r: ClassesTransformer)
    ensures
        r.description@ == "classes"@,
        r.filter.wf(),
        forall|x: ItemView| #[trigger] r.filter.holds(x),
{
    ClassesTransformer::new("classes", predicates::always_true())
}

/// The item named `class_name`; described as `the class <name>`.
fn the_class_transformer(class_name: &str) -> (r: ClassesTransformer)
    ensures
        r.description@ == "the class "@ + class_name@,
        r.filter.wf(),
        forall|x: ItemView| #[trigger] r.filter.holds(x) == (x.full_name == class_name@),
{
    let description = cat("the class ", class_name);
    ClassesTransformer::new(description.as_str(), predicates::full_name(class_name))
}

impl Creator {
    /// `classes()`: all items should satisfy the condition.
    pub fn classes(self) -> (r: GivenClasses)
        ensures
            r.wf(),
            r.priority == self.priority,
            r.prepare == Prepare::Identity,
            r.predicate is None,
            r.transformer.description@ == "classes"@,
            forall|x: ItemView| #[trigger] r.transformer.filter.holds(x),
    {
        GivenClasses { priority: self.priority, transformer: classes_transformer(), prepare: Prepare::Identity, predicate: None, or_mode: false }
    }

    /// `no classes ..`: no item should satisfy the condition (every event inverted).
    pub fn no_classes(self) -> (r: GivenClasses)
        ensures
            r.wf(),
            r.priority == self.priority,
            r.prepare == Prepare::Negate,
            r.predicate is None,
            r.transformer.description@ == "no classes"@,
            forall|x: ItemView| #[trigger] r.transformer.filter.holds(x),
    {
        let transformer = classes_transformer().as_("no classes");
        GivenClasses { priority: self.priority, transformer, prepare: Prepare::Negate, predicate: None, or_mode: false }
    }

    /// `the class <name>`: the item of that full name should satisfy the condition.
    pub fn the_class(self, class_name: &str) -> (r: GivenClass)
        ensures
            r.transformer.filter.wf(),
            r.priority == self.priority,
            r.prepare == Prepare::Identity,
            r.transformer.description@ == "the class "@ + class_name@,
            forall|x: ItemView| #[trigger] r.transformer.filter.holds(x) == (x.full_name == class_name@),
    {
        GivenClass { priority: self.priority, transformer: the_class_transformer(class_name), prepare: Prepare::Identity }
    }

    /// `no class <name>`: the item of that full name should not satisfy the condition.
    pub fn no_class(self, class_name: &str) -> (r: GivenClass)
        ensures
            r.transformer.filter.wf(),
            r.priority == self.priority,
            r.prepare == Prepare::Negate,
            r.transformer.description@ == "no class "@ + class_name@,
            forall|x: ItemView| #[trigger] r.transformer.filter.holds(x) == (x.full_name == class_name@),
    {
        let description = cat("no class ", class_name);
        let transformer = the_class_transformer(class_name).as_(description.as_str());
        GivenClass { priority: self.priority, transformer, prepare: Prepare::Negate }
    }

    /// The items of `transformer` should satisfy the condition (`all(..)`).
    pub fn all(self, transformer: ClassesTransformer) -> (r: GivenObjects)
        ensures
            r.given.transformer == transformer,
            r.given.priority == self.priority,
            r.given.prepare == Prepare::Identity,
            r.given.predicate is None,
            r.overridden_description is None,
    {
        GivenObjects {
            given: GivenClasses { priority: self.priority, transformer, prepare: Prepare::Identity, predicate: None, or_mode: false },
            overridden_description: None,
        }
    }

    /// No item of `transformer` should satisfy the condition (`no(..)`); described as
    /// `no <description>`.
    pub fn no(self, transformer: ClassesTransformer) -> (r: GivenObjects)
        ensures
            r.given.transformer.description@ == "no "@ + transformer.description@,
            transformer.filter.wf() ==> r.given.transformer.filter.wf(),
            forall|x: ItemView| #[trigger] r.given.transformer.filter.holds(x) == transformer.filter.holds(x),
            r.given.priority == self.priority,
            r.given.prepare == Prepare::Negate,
            r.given.predicate is None,
            r.overridden_description is None,
    {
        let description = cat("no ", transformer.description.as_str());
        let t = transformer.as_(description.as_str());
        GivenObjects {
            given: GivenClasses { priority: self.priority, transformer: t, prepare: Prepare::Negate, predicate: None, or_mode: false },
            overridden_description: None,
        }
    }
}

/// The entry points of the syntax (`ArchRuleDefinition`).
#[derive(Debug, Clone, Copy)]
pub struct ArchRuleDefinition;

impl ArchRuleDefinition {
    /// The entry points with `priority`.
    pub fn priority(priority: Priority) -> (r: Creator)
        ensures
            r.priority == priority,
    {
        Creator { priority }
    }

    /// `classes()` with priority `MEDIUM`.
    pub fn classes() -> (r: GivenClasses)
        ensures
            r.wf(),
            r.priority == Priority::Medium,
            r.prepare == Prepare::Identity,
            r.predicate is None,
            r.transformer.description@ == "classes"@,
            forall|x: ItemView| #[trigger] r.transformer.filter.holds(x),
    {
        Creator { priority: Priority::Medium }.classes()
    }

    /// A rule that no items should match, with medium priority.
    pub fn no_classes() -> (r: GivenClasses)
        ensures
            r.wf(),
            r.priority == Priority::Medium,
            r.prepare == Prepare::Negate,
            r.predicate is None,
            r.transformer.description@ == "no classes"@,
            forall|x: ItemView| #[trigger] r.transformer.filter.holds(x),
    {
        Creator { priority: Priority::Medium }.no_classes()
    }

    /// A rule about the one item of that name, with medium priority.
    pub fn the_class(class_name: &str) -> (r: GivenClass)
        ensures
            r.transformer.filter.wf(),
            r.priority == Priority::Medium,
            r.prepare == Prepare::Identity,
            r.transformer.description@ == "the class "@ + class_name@,
            forall|x: ItemView| #[trigger] r.transformer.filter.holds(x) == (x.full_name == class_name@),
    {
        Creator { priority: Priority::Medium }.the_class(class_name)
    }

    /// A rule that the item of that name should not match, with medium priority.
    pub fn no_class(class_name: &str) -> (r: GivenClass)
        ensures
            r.transformer.filter.wf(),
            r.priority == Priority::Medium,
            r.prepare == Prepare::Negate,
            r.transformer.description@ == "no class "@ + class_name@,
            forall|x: ItemView| #[trigger] r.transformer.filter.holds(x) == (x.full_name == class_name@),
    {
        Creator { priority: Priority::Medium }.no_class(class_name)
    }

    /// `all(..)` with priority `MEDIUM`.
    pub fn all(transformer: ClassesTransformer) -> (r: GivenObjects)
        ensures
            r.given.transformer == transformer,
            r.given.priority == Priority::Medium,
            r.given.prepare == Prepare::Identity,
            r.given.predicate is None,
            r.overridden_description is None,
    {
        Creator { priority: Priority::Medium }.all(transformer)
    }

    /// `no(..)` with priority `MEDIUM`.
    pub fn no(transformer: ClassesTransformer) -> (r: GivenObjects)
        ensures
            r.given.transformer.description@ == "no "@ + transformer.description@,
            transformer.filter.wf() ==> r.given.transformer.filter.wf(),
            forall|x: ItemView| #[trigger] r.given.transformer.filter.holds(x) == transformer.filter.holds(x),
            r.given.priority == Priority::Medium,
            r.given.prepare == Prepare::Negate,
            r.given.predicate is None,
            r.overridden_description is None,
    {
        Creator { priority: Priority::Medium }.no(transformer)
    }
}

/// The entry points with `priority`.
pub fn priority(p: Priority) -> (r: Creator)
    ensures
        r.priority == p,
{
    ArchRuleDefinition::priority(p)
}

/// All items.
pub fn classes() -> (r: GivenClasses)
    ensures
        r.wf(),
        r.priority == Priority::Medium,
        r.prepare == Prepare::Identity,
        r.predicate is None,
        r.transformer.description@ == "classes"@,
        forall|x: ItemView| #[trigger] r.transformer.filter.holds(x),
{
    ArchRuleDefinition::classes()
}

/// No item.
pub fn no_classes() -> (r: GivenClasses)
    ensures
        r.wf(),
        r.priority == Priority::Medium,
        r.prepare == Prepare::Negate,
        r.predicate is None,
        r.transformer.description@ == "no classes"@,
        forall|x: ItemView| #[trigger] r.transformer.filter.holds(x),
{
    ArchRuleDefinition::no_classes()
}

/// The item of that full name.
pub fn the_class(class_name: &str) -> (r: GivenClass)
    ensures
        r.transformer.filter.wf(),
        r.priority == Priority::Medium,
        r.prepare == Prepare::Identity,
        r.transformer.description@ == "the class "@ + class_name@,
        forall|x: ItemView| #[trigger] r.transformer.filter.holds(x) == (x.full_name == class_name@),
{
    ArchRuleDefinition::the_class(class_name)
}

/// Not the item of that full name.
pub fn no_class(class_name: &str) -> (r: GivenClass)
    ensures
        r.transformer.filter.wf(),
        r.priority == Priority::Medium,
        r.prepare == Prepare::Negate,
        r.transformer.description@ == "no class "@ + class_name@,
        forall|x: ItemView| #[trigger] r.transformer.filter.holds(x) == (x.full_name == class_name@),
{
    ArchRuleDefinition::no_class(class_name)
}

/// The items of a transformer.
pub fn all(transformer: ClassesTransformer) -> (r: GivenObjects)
    ensures
        r.given.transformer == transformer,
        r.given.priority == Priority::Medium,
        r.given.prepare == Prepare::Identity,
        r.given.predicate is None,
        r.overridden_description is None,
{
    ArchRuleDefinition::all(transformer)
}

/// None of the items of a transformer.
pub fn no(transformer: ClassesTransformer) -> (r: GivenObjects)
    ensures
        r.given.transformer.description@ == "no "@ + transformer.description@,
        transformer.filter.wf() ==> r.given.transformer.filter.wf(),
        forall|x: ItemView| #[trigger] r.given.transformer.filter.holds(x) == transformer.filter.holds(x),
        r.given.priority == Priority::Medium,
        r.given.prepare == Prepare::Negate,
        r.given.predicate is None,
        r.overridden_description is None,
{
    ArchRuleDefinition::no(transformer)
}

/// The state of `all(transformer) ..` (`GivenObjects`).
#[derive(Debug)]
pub struct GivenObjects {
    /// The items and predicates.
    pub given: GivenClasses,
    /// A description that replaces the one of the items.
    pub overridden_description: Option<String>,
}

impl GivenObjects {
    /// Only the items that satisfy `predicate` (`that(..)`).
    pub fn that(self, predicate: ItemPredicate) -> (r: GivenObjects)
        ensures
            added(self.given.predicate, self.given.or_mode, predicate, r.given.predicate),
            r.given == (GivenClasses { predicate: r.given.predicate, ..self.given }),
            r.overridden_description == self.overridden_description,
    {
        GivenObjects { given: self.given.that_with(predicate), overridden_description: self.overridden_description }
    }

    /// Adds `predicate` joined by `and` (`and(..)`).
    pub fn and(self, predicate: ItemPredicate) -> (r: GivenObjects)
        ensures
            added(self.given.predicate, false, predicate, r.given.predicate),
            r.given == (GivenClasses { predicate: r.given.predicate, or_mode: false, ..self.given }),
            r.overridden_description == self.overridden_description,
    {
        GivenObjects { given: self.given.and_with(predicate), overridden_description: self.overridden_description }
    }

    /// Adds `predicate` joined by `or` (`or(..)`).
    pub fn or(self, predicate: ItemPredicate) -> (r: GivenObjects)
        ensures
            added(self.given.predicate, true, predicate, r.given.predicate),
            r.given == (GivenClasses { predicate: r.given.predicate, or_mode: true, ..self.given }),
            r.overridden_description == self.overridden_description,
    {
        GivenObjects { given: self.given.or_with(predicate), overridden_description: self.overridden_description }
    }

    /// Describes the items as `description` (`as(..)`).
    pub fn as_(self, description: &str) -> (r: GivenObjects)
        ensures
            r.given == self.given,
            r.overridden_description matches Some(d) && d@ == description@,
    {
        GivenObjects { given: self.given, overridden_description: Some(String::from_str(description)) }
    }

    /// The finished rule: the items should satisfy the prepared `condition` (`should(..)`).
    pub fn should(self, condition: ArchCondition) -> (r: SimpleArchRule)
        requires
            self.given.wf(),
            condition.wf(),
        ensures
            r.wf(),
            prepared(self.given.prepare, condition, r.condition),
            r.priority == self.given.priority,
            match self.overridden_description {
                Some(d) => r.transformer.description@ == d@,
                None => true,
            },
    {
        let priority = self.given.priority;
        let p = self.given.prepare;
        let transformer = self.given.finished_transformer();
        let transformer = match self.overridden_description {
            Some(d) => transformer.as_(d.as_str()),
            None => transformer,
        };
        let c = prepare(p, condition);
        SimpleArchRule::create(transformer, c, priority)
    }

    /// The items the rule is about (`transform(..)`).
    pub fn transform(&self, items: &RustItems) -> (r: Vec<RustItem>)
        requires
            self.given.wf(),
        ensures
            ({
                let chosen = selected_where(
                    items.items@,
                    |x: ItemView| self.given.transformer.filter.holds(x) && match self.given.predicate {
                        Some(p) => p.holds(x),
                        None => true,
                    },
                );
                &&& r@.len() == chosen.len()
                &&& forall|i: int| 0 <= i < r@.len() ==> same_item(#[trigger] r@[i], chosen[i])
            }),
    {
        let ghost f = |x: ItemView| self.given.transformer.filter.holds(x) && match self.given.predicate {
            Some(p) => p.holds(x),
            None => true,
        };
        match &self.given.predicate {
            Some(p) => {
                let t = self.given.transformer.that(p.copy());
                proof {
                    assert((|x: ItemView| t.filter.holds(x)) =~= f);
                }
                t.transform(items)
            },
            None => {
                proof {
                    assert((|x: ItemView| self.given.transformer.filter.holds(x)) =~= f);
                }
                self.given.transformer.transform(items)
            },
        }
    }
}

} // verus!
