//! Conditions that items should satisfy (`ArchCondition`), described by their text and
//! checked into events.

use vstd::prelude::*;
use vstd::string::*;

use super::events::{
    and_face, any_face, event_views, evaluated_views, inverted_all, is_blank, is_white, message_text,
    only_face, or_face, single_event, ConditionEvent, ConditionEvents, CorrespondingObject,
    EvaluatedCondition, EventView, EventsView, SimpleConditionEvent, create_message,
};
use super::constructors::{check_private_constructors, private_constructor_events};
use super::transitive::{check_transitive, transitive_events};
use crate::base::count_predicates::CountPredicate;
use crate::base::dependency_predicates::DependencyPredicate;
use crate::base::predicates::ItemPredicate;
use crate::library::plantuml::{diagram_events, PlantUmlArchCondition};
use crate::domain::{dependencies_to, item_description, Dependency, ItemRef, ItemView, RustItem, RustItems};
use crate::order::{sort_unique, sorted_unique};
use crate::text::{cat, cat3, decimal, decimal_string, join, join_seq, views};

verus! {

/// The reference to `item`.
pub open spec fn reference_of(item: RustItem) -> ItemRef {
    ItemRef { full_name: item.full_name, simple_name: item.simple_name, package_name: item.package_name }
}

/// Every dependency of `item` has a description that is not blank.
pub open spec fn item_described(item: RustItem) -> bool {
    forall|j: int| 0 <= j < item.dependencies@.len() ==> !is_blank(#[trigger] item.dependencies@[j].description@)
}

/// Every dependency of the items has a description that is not blank.
pub open spec fn items_described(items: Seq<RustItem>) -> bool {
    forall|i: int| 0 <= i < items.len() ==> item_described(#[trigger] items[i])
}

/// How the event of a predicate reads: a text for satisfied and one for violated, followed
/// by the predicate's description or standing alone.
#[derive(Debug)]
pub enum EventDescriber {
    /// `<positive><predicate>` or `<negative><predicate>`.
    Prefix { positive: String, negative: String },
    /// `<positive>` or `<negative>`.
    Fixed { positive: String, negative: String },
}

impl EventDescriber {
    /// The text for a predicate described as `predicate`.
    pub open spec fn text(&self, predicate: Seq<char>, satisfied: bool) -> Seq<char> {
        match self {
            EventDescriber::Prefix { positive, negative } => if satisfied {
                positive@ + predicate
            } else {
                negative@ + predicate
            },
            EventDescriber::Fixed { positive, negative } => if satisfied {
                positive@
            } else {
                negative@
            },
        }
    }

    /// The text for a predicate described as `predicate`.
    pub fn describe(&self, predicate: &str, satisfied: bool) -> (r: String)
        ensures
            r@ == self.text(predicate@, satisfied),
    {
        match self {
            EventDescriber::Prefix { positive, negative } => if satisfied {
                cat(positive.as_str(), predicate)
            } else {
                cat(negative.as_str(), predicate)
            },
            EventDescriber::Fixed { positive, negative } => if satisfied {
                positive.clone()
            } else {
                negative.clone()
            },
        }
    }

    /// `<positive><predicate>` or `<negative><predicate>`.
    pub fn prefix(positive: &str, negative: &str) -> (r: EventDescriber)
        ensures
            r matches EventDescriber::Prefix { positive: p, negative: n } && p@ == positive@ && n@ == negative@,
    {
        EventDescriber::Prefix { positive: String::from_str(positive), negative: String::from_str(negative) }
    }

    /// `<positive>` or `<negative>`.
    pub fn fixed(positive: &str, negative: &str) -> (r: EventDescriber)
        ensures
            r matches EventDescriber::Fixed { positive: p, negative: n } && p@ == positive@ && n@ == negative@,
    {
        EventDescriber::Fixed { positive: String::from_str(positive), negative: String::from_str(negative) }
    }
}

/// A condition derived from a predicate: each item
/// gives one event `<item> <message> in <location>`.
#[derive(Debug)]
pub struct ConditionByPredicate {
    /// The predicate.
    pub predicate: ItemPredicate,
    /// The condition's description.
    pub description: String,
    /// How events read.
    pub describer: EventDescriber,
}

impl ConditionByPredicate {
    /// The condition `predicate`: described as the
    /// predicate, events read `satisfies <p>` / `does not satisfy <p>`.
    pub fn from(predicate: ItemPredicate) -> (r: ConditionByPredicate)
        ensures
            r.description@ == predicate.description@,
            r.predicate == predicate,
            r.describer.text(predicate.description@, true) == "satisfies "@ + predicate.description@,
            r.describer.text(predicate.description@, false) == "does not satisfy "@ + predicate.description@,
            r.describer is Prefix,
            forall|d: Seq<char>, s: bool| #[trigger] r.describer.text(d, s) == if s { "satisfies "@ + d } else { "does not satisfy "@ + d },
    {
        let description = predicate.description.clone();
        ConditionByPredicate { predicate, description, describer: EventDescriber::prefix("satisfies ", "does not satisfy ") }
    }

    /// Changes how events read.
    pub fn describe_events_by(self, describer: EventDescriber) -> (r: ConditionByPredicate)
        ensures
            r.predicate == self.predicate,
            r.description == self.description,
            r.describer == describer,
    {
        ConditionByPredicate { describer, ..self }
    }

    /// The same condition under another description (`as(..)`).
    pub fn as_(self, description: &str) -> (r: ConditionByPredicate)
        ensures
            r.predicate == self.predicate,
            r.description@ == description@,
            r.describer == self.describer,
    {
        ConditionByPredicate { description: String::from_str(description), ..self }
    }

    /// The description.
    pub fn description(&self) -> (r: &str)
        ensures
            r@ == self.description@,
    {
        self.description.as_str()
    }

    /// The same condition (kept for the fluent syntax).
    pub fn for_subtype(self) -> (r: ConditionByPredicate)
        ensures
            r == self,
    {
        self
    }

    /// The condition as an [`ArchCondition`] of the same description.
    pub fn into_condition(self) -> (r: ArchCondition)
        ensures
            r.description == self.description,
            r.logic == ConditionLogic::ByPredicate(self),
    {
        let description = self.description.clone();
        ArchCondition { description, logic: ConditionLogic::ByPredicate(self), scope: Vec::new() }
    }
}

/// A condition on any of an item's dependencies, ignoring some (`AnyDependencyCondition`):
/// satisfied when one of the considered dependencies satisfies the predicate.
#[derive(Debug)]
pub struct AnyDependencyCondition {
    /// The description.
    pub description: String,
    /// What a dependency should satisfy.
    pub predicate: DependencyPredicate,
    /// Whether the dependencies on the item are meant, rather than those of it.
    pub incoming: bool,
    /// The dependencies not considered.
    pub ignore: DependencyPredicate,
}

/// A condition on all of an item's dependencies, ignoring some (`AllDependenciesCondition`):
/// violated when one of the considered dependencies violates the predicate.
#[derive(Debug)]
pub struct AllDependenciesCondition {
    /// The description.
    pub description: String,
    /// What each dependency should satisfy.
    pub predicate: DependencyPredicate,
    /// Whether the dependencies on the item are meant, rather than those of it.
    pub incoming: bool,
    /// The dependencies not considered.
    pub ignore: DependencyPredicate,
}

impl AnyDependencyCondition {
    /// The condition described as `description` on the dependencies of an item (or on it,
    /// when `incoming`), ignoring none.
    pub fn new(description: String, predicate: DependencyPredicate, incoming: bool) -> (r: AnyDependencyCondition)
        ensures
            r.description == description,
            r.predicate == predicate,
            r.incoming == incoming,
            r.ignore.description@ == "always false"@,
            r.ignore.test is AlwaysFalse,
    {
        AnyDependencyCondition { description, predicate, incoming, ignore: DependencyPredicate::always_false() }
    }

    /// Also ignores dependencies matching `ignore`.
    pub fn ignore_dependency(self, ignore: DependencyPredicate) -> (r: AnyDependencyCondition)
        ensures
            r.description == self.description,
            r.predicate == self.predicate,
            r.incoming == self.incoming,
            r.ignore.description@ == self.ignore.description@ + " or "@ + ignore.description@,
            r.ignore.test == crate::base::dependency_predicates::DependencyTest::Or(Box::new(self.ignore), Box::new(ignore)),
    {
        AnyDependencyCondition { ignore: self.ignore.or(ignore), ..self }
    }

    /// The same condition under another description.
    pub fn as_(self, description: &str) -> (r: AnyDependencyCondition)
        ensures
            r.description@ == description@,
            r.predicate == self.predicate,
            r.incoming == self.incoming,
            r.ignore == self.ignore,
    {
        AnyDependencyCondition { description: String::from_str(description), ..self }
    }

    /// The description.
    pub fn description(&self) -> (r: &str)
        ensures
            r@ == self.description@,
    {
        self.description.as_str()
    }

    /// The condition as an [`ArchCondition`] of the same description.
    pub fn into_condition(self) -> (r: ArchCondition)
        ensures
            r.description == self.description,
            r.logic == ConditionLogic::AnyDependency(self),
    {
        let description = self.description.clone();
        ArchCondition { description, logic: ConditionLogic::AnyDependency(self), scope: Vec::new() }
    }
}

impl AllDependenciesCondition {
    /// The condition described as `description` on the dependencies of an item (or on it,
    /// when `incoming`), ignoring none.
    pub fn new(description: String, predicate: DependencyPredicate, incoming: bool) -> (r: AllDependenciesCondition)
        ensures
            r.description == description,
            r.predicate == predicate,
            r.incoming == incoming,
            r.ignore.description@ == "always false"@,
            r.ignore.test is AlwaysFalse,
    {
        AllDependenciesCondition { description, predicate, incoming, ignore: DependencyPredicate::always_false() }
    }

    /// Also ignores dependencies matching `ignore`.
    pub fn ignore_dependency(self, ignore: DependencyPredicate) -> (r: AllDependenciesCondition)
        ensures
            r.description == self.description,
            r.predicate == self.predicate,
            r.incoming == self.incoming,
            r.ignore.description@ == self.ignore.description@ + " or "@ + ignore.description@,
            r.ignore.test == crate::base::dependency_predicates::DependencyTest::Or(Box::new(self.ignore), Box::new(ignore)),
    {
        AllDependenciesCondition { ignore: self.ignore.or(ignore), ..self }
    }

    /// The same condition under another description.
    pub fn as_(self, description: &str) -> (r: AllDependenciesCondition)
        ensures
            r.description@ == description@,
            r.predicate == self.predicate,
            r.incoming == self.incoming,
            r.ignore == self.ignore,
    {
        AllDependenciesCondition { description: String::from_str(description), ..self }
    }

    /// The description.
    pub fn description(&self) -> (r: &str)
        ensures
            r@ == self.description@,
    {
        self.description.as_str()
    }

    /// The condition as an [`ArchCondition`] of the same description.
    pub fn into_condition(self) -> (r: ArchCondition)
        ensures
            r.description == self.description,
            r.logic == ConditionLogic::AllDependencies(self),
    {
        let description = self.description.clone();
        ArchCondition { description, logic: ConditionLogic::AllDependencies(self), scope: Vec::new() }
    }
}

/// What a condition checks.
#[derive(Debug)]
pub enum ConditionLogic {
    /// One event per item from a predicate.
    ByPredicate(ConditionByPredicate),
    /// One event per item with dependencies, satisfied when any dependency matches.
    AnyDependency(AnyDependencyCondition),
    /// One event per item with dependencies, satisfied when all dependencies match.
    AllDependencies(AllDependenciesCondition),
    /// The events of the inner condition, each inverted.
    Never(Box<ArchCondition>),
    /// One event per item joining the events of the parts: a conjunction when `true`, a
    /// disjunction when `false`.
    Join(bool, Vec<ArchCondition>),
    /// No event per item; one event at the end for the number of distinct objects checked.
    Count(CountPredicate),
    /// Per item, one event per target outside the checked objects from which an item that
    /// matches the predicate is reached, or else one violation.
    Transitive(ItemPredicate),
    /// Per item, one event per dependency, satisfied where the target's module is an ancestor
    /// of the item's own.
    UpperPackages,
    /// Every constructor is private, and a struct cannot be built with a struct literal from
    /// outside its module.
    PrivateConstructors,
    /// Per item, the events of adhering to a PlantUML diagram.
    PlantUml(PlantUmlArchCondition),
}

/// A condition that items should satisfy (`ArchCondition`).
#[derive(Debug)]
pub struct ArchCondition {
    /// The description used in rule texts.
    pub description: String,
    /// What it checks.
    pub logic: ConditionLogic,
    /// The full names of the objects it was initialized with (`init(..)`).
    pub scope: Vec<String>,
}

/// The dependencies of `item`, or those on it among `items` when `incoming`.
pub open spec fn dependencies_of(item: RustItem, items: Seq<RustItem>, incoming: bool) -> Seq<Dependency> {
    if incoming {
        dependencies_to(items, item.full_name@)
    } else {
        item.dependencies@
    }
}

/// The dependencies of `deps` not matched by `ignore`, in order.
pub open spec fn considered(deps: Seq<Dependency>, ignore: DependencyPredicate, items: Seq<RustItem>) -> Seq<Dependency>
    decreases deps.len(),
{
    if deps.len() == 0 {
        Seq::empty()
    } else {
        considered(deps.drop_last(), ignore, items) + if ignore.holds(deps.last(), items) {
            Seq::empty()
        } else {
            seq![deps.last()]
        }
    }
}

/// The event of one dependency: satisfied when it matches `predicate`, described by the
/// dependency's description.
pub open spec fn dependency_event(d: Dependency, predicate: DependencyPredicate, items: Seq<RustItem>) -> EventView {
    single_event(CorrespondingObject::Dependency(d), predicate.holds(d, items), d.description@)
}

/// The events of the dependencies.
pub open spec fn dependency_events(deps: Seq<Dependency>, predicate: DependencyPredicate, items: Seq<RustItem>) -> Seq<EventView> {
    deps.map_values(|d: Dependency| dependency_event(d, predicate, items))
}

/// The dependencies as objects of events.
pub open spec fn dependency_objects(deps: Seq<Dependency>) -> Seq<CorrespondingObject> {
    deps.map_values(|d: Dependency| CorrespondingObject::Dependency(d))
}

/// The event of `any dependency ..` on the considered dependencies, if there are any.
pub open spec fn any_dependency_events(deps: Seq<Dependency>, predicate: DependencyPredicate, items: Seq<RustItem>) -> Seq<EventView> {
    if deps.len() == 0 {
        Seq::empty()
    } else {
        let sub = EventsView::empty().added_all(dependency_events(deps, predicate, items));
        seq![EventView { face: any_face(dependency_objects(deps), sub.allowed, sub.violating), inverse: only_face(sub.allowed) }]
    }
}

/// The event of `all dependencies ..` on the considered dependencies, if there are any.
pub open spec fn all_dependencies_events(deps: Seq<Dependency>, predicate: DependencyPredicate, items: Seq<RustItem>) -> Seq<EventView> {
    if deps.len() == 0 {
        Seq::empty()
    } else {
        let sub = EventsView::empty().added_all(dependency_events(deps, predicate, items));
        seq![EventView { face: only_face(sub.violating), inverse: any_face(dependency_objects(deps), sub.violating, sub.allowed) }]
    }
}

/// The event of a predicate condition for `item`.
pub open spec fn predicate_event(c: ConditionByPredicate, item: RustItem) -> EventView {
    let satisfied = c.predicate.holds(item@);
    single_event(
        CorrespondingObject::Item(reference_of(item)),
        satisfied,
        message_text(item, c.describer.text(c.predicate.description@, satisfied)),
    )
}

/// The events a check of `conds` gives, each part's satisfied events first.
pub open spec fn parts_of(conds: Seq<ArchCondition>, item: RustItem, items: Seq<RustItem>, scope: Seq<Seq<char>>) -> Seq<Seq<EventView>>
    decreases conds,
{
    if conds.len() == 0 {
        Seq::empty()
    } else {
        parts_of(conds.drop_last(), item, items, scope).push(
            EventsView::empty().added_all(conds.last().events_of(item, items, scope)).all(),
        )
    }
}

/// The events the parts give when finishing, one part after the other.
pub open spec fn finish_of(conds: Seq<ArchCondition>, scope: Seq<Seq<char>>) -> Seq<EventView>
    decreases conds,
{
    if conds.len() == 0 {
        Seq::empty()
    } else {
        finish_of(conds.drop_last(), scope) + conds.last().finish_events(scope)
    }
}

/// `there is/are <n> element(s) in [<names>]`.
pub open spec fn count_text(names: Seq<Seq<char>>) -> Seq<char> {
    "there is/are "@ + decimal(names.len()) + " element(s) in ["@ + join_seq(names, ", "@) + "]"@
}

/// The event on the number of distinct names in `scope`.
pub open spec fn count_event(p: CountPredicate, scope: Seq<Seq<char>>) -> EventView {
    let names = sort_unique(scope);
    single_event(CorrespondingObject::Count(names.len() as usize), p.holds(names.len()), count_text(names))
}

/// The module `target` resides in is an ancestor of the module of `origin`.
pub open spec fn on_upper_package(origin: ItemView, target: ItemView) -> bool {
    (target.package_name + seq![':', ':']).is_prefix_of(origin.package_name)
}

/// The event of a dependency for `depend on upper packages`: satisfied where it leads to an
/// ancestor module.
pub open spec fn upper_event(d: Dependency, items: Seq<RustItem>) -> EventView {
    single_event(
        CorrespondingObject::Dependency(d),
        on_upper_package(crate::domain::resolve(items, d.origin), crate::domain::resolve(items, d.target)),
        d.description@,
    )
}

/// The events of `depend on upper packages` for the dependencies `deps`.
pub open spec fn upper_events(deps: Seq<Dependency>, items: Seq<RustItem>) -> Seq<EventView> {
    deps.map_values(|d: Dependency| upper_event(d, items))
}

/// The full names of `objects`.
pub open spec fn names_of(objects: Seq<RustItem>) -> Seq<Seq<char>> {
    objects.map_values(|o: RustItem| o.full_name@)
}

/// All parts are well formed.
pub open spec fn conditions_wf(conds: Seq<ArchCondition>) -> bool
    decreases conds,
{
    if conds.len() == 0 {
        true
    } else {
        conditions_wf(conds.drop_last()) && conds.last().wf()
    }
}

impl ArchCondition {
    /// Every predicate inside is well formed.
    pub open spec fn wf(self) -> bool
        decreases self,
    {
        match self.logic {
            ConditionLogic::ByPredicate(c) => c.predicate.wf(),
            ConditionLogic::AnyDependency(c) => c.predicate.wf() && c.ignore.wf(),
            ConditionLogic::AllDependencies(c) => c.predicate.wf() && c.ignore.wf(),
            ConditionLogic::Never(c) => c.wf(),
            ConditionLogic::Join(_, cs) => conditions_wf(cs@),
            ConditionLogic::Count(_) => true,
            ConditionLogic::Transitive(p) => p.wf(),
            ConditionLogic::UpperPackages => true,
            ConditionLogic::PrivateConstructors => true,
            ConditionLogic::PlantUml(c) => c.wf(),
        }
    }

    /// The events a check of `item` gives, in the order they are added, for a condition
    /// initialized with the objects named `scope`.
    pub open spec fn events_of(self, item: RustItem, items: Seq<RustItem>, scope: Seq<Seq<char>>) -> Seq<EventView>
        decreases self,
    {
        match self.logic {
            ConditionLogic::ByPredicate(c) => seq![predicate_event(c, item)],
            ConditionLogic::AnyDependency(c) => any_dependency_events(
                considered(dependencies_of(item, items, c.incoming), c.ignore, items),
                c.predicate,
                items,
            ),
            ConditionLogic::AllDependencies(c) => all_dependencies_events(
                considered(dependencies_of(item, items, c.incoming), c.ignore, items),
                c.predicate,
                items,
            ),
            ConditionLogic::Never(c) => inverted_all(EventsView::empty().added_all(c.events_of(item, items, scope)).all()),
            ConditionLogic::Join(is_and, cs) => {
                let parts = parts_of(cs@, item, items, scope);
                let object = CorrespondingObject::Item(reference_of(item));
                if is_and {
                    seq![EventView { face: and_face(parts, false), inverse: or_face(object, parts, true) }]
                } else {
                    seq![EventView { face: or_face(object, parts, false), inverse: and_face(parts, true) }]
                }
            },
            ConditionLogic::Count(_) => Seq::empty(),
            ConditionLogic::Transitive(p) => transitive_events(p, item, items, scope),
            ConditionLogic::UpperPackages => upper_events(item.dependencies@, items),
            ConditionLogic::PrivateConstructors => private_constructor_events(item),
            ConditionLogic::PlantUml(c) => diagram_events(c, item, items),
        }
    }

    /// The events finishing gives (`finish(..)`), for a condition initialized with the
    /// objects named `scope`.
    pub open spec fn finish_events(self, scope: Seq<Seq<char>>) -> Seq<EventView>
        decreases self,
    {
        match self.logic {
            ConditionLogic::Count(p) => seq![count_event(p, scope)],
            ConditionLogic::Never(c) => inverted_all(EventsView::empty().added_all(c.finish_events(scope)).all()),
            ConditionLogic::Join(_, cs) => finish_of(cs@, scope),
            _ => Seq::empty(),
        }
    }
}

/// No dependency of `deps` has a blank description.
pub open spec fn deps_described(deps: Seq<Dependency>) -> bool {
    forall|j: int| 0 <= j < deps.len() ==> !is_blank(#[trigger] deps[j].description@)
}

proof fn lemma_targeting_described(deps: Seq<Dependency>, name: Seq<char>)
    requires
        deps_described(deps),
    ensures
        deps_described(crate::domain::targeting(deps, name)),
    decreases deps.len(),
{
    if deps.len() > 0 {
        lemma_targeting_described(deps.drop_last(), name);
        let a = crate::domain::targeting(deps.drop_last(), name);
        let t = crate::domain::targeting(deps, name);
        assert forall|j: int| 0 <= j < t.len() implies !is_blank(#[trigger] t[j].description@) by {
            if j >= a.len() {
                assert(t[j] == deps.last());
                assert(deps[deps.len() - 1] == deps.last());
            } else {
                assert(t[j] == a[j]);
            }
        }
    }
}

/// The dependencies on an item have descriptions that are not blank.
pub(crate) proof fn lemma_dependencies_to_described(items: Seq<RustItem>, name: Seq<char>)
    requires
        items_described(items),
    ensures
        deps_described(dependencies_to(items, name)),
    decreases items.len(),
{
    if items.len() > 0 {
        let rest = items.drop_last();
        assert forall|i: int| 0 <= i < rest.len() implies item_described(#[trigger] rest[i]) by {
            assert(item_described(items[i]));
        }
        lemma_dependencies_to_described(rest, name);
        let last = items.last();
        assert(item_described(items[items.len() - 1]));
        assert(deps_described(last.dependencies@));
        lemma_targeting_described(last.dependencies@, name);
        let a = dependencies_to(rest, name);
        let b = crate::domain::targeting(last.dependencies@, name);
        let t = dependencies_to(items, name);
        assert(t == a + b);
        assert forall|j: int| 0 <= j < t.len() implies !is_blank(#[trigger] t[j].description@) by {
            if j >= a.len() {
                assert(t[j] == b[j - a.len()]);
            } else {
                assert(t[j] == a[j]);
            }
        }
    }
}

/// The considered dependencies are among the given ones.
pub(crate) proof fn lemma_considered_described(deps: Seq<Dependency>, ignore: DependencyPredicate, items: Seq<RustItem>)
    requires
        deps_described(deps),
    ensures
        deps_described(considered(deps, ignore, items)),
    decreases deps.len(),
{
    if deps.len() > 0 {
        lemma_considered_described(deps.drop_last(), ignore, items);
        let a = considered(deps.drop_last(), ignore, items);
        let t = considered(deps, ignore, items);
        assert forall|j: int| 0 <= j < t.len() implies !is_blank(#[trigger] t[j].description@) by {
            if j >= a.len() {
                assert(t[j] == deps.last());
                assert(deps[deps.len() - 1] == deps.last());
            } else {
                assert(t[j] == a[j]);
            }
        }
    }
}

/// A message about an item is never blank: it starts with `Item <`.
pub(crate) proof fn lemma_message_not_blank(item: RustItem, message: Seq<char>)
    ensures
        !is_blank(message_text(item, message)),
{
    reveal_strlit("Item <");
    let m = message_text(item, message);
    assert(m[0] == 'I');
    assert(!is_white(m[0]));
}

/// Adding events one after the other, in two runs.
pub(crate) proof fn lemma_added_all_concat(v: EventsView, a: Seq<EventView>, b: Seq<EventView>)
    ensures
        v.added_all(a + b) == v.added_all(a).added_all(b),
    decreases b.len(),
{
    if b.len() == 0 {
        assert(a + b =~= a);
    } else {
        lemma_added_all_concat(v, a, b.drop_last());
        assert((a + b).drop_last() =~= a + b.drop_last());
        assert((a + b).last() == b.last());
    }
}

/// Adding events leaves the text for the number of violations alone.
pub(crate) proof fn lemma_added_all_information(v: EventsView, evs: Seq<EventView>)
    ensures
        v.added_all(evs).information == v.information,
    decreases evs.len(),
{
    if evs.len() > 0 {
        lemma_added_all_information(v, evs.drop_last());
    }
}

pub(crate) proof fn lemma_added_one(v: EventsView, e: EventView)
    ensures
        v.added_all(seq![e]) == v.added(e),
{
    let s = seq![e];
    assert(s.drop_last() =~= Seq::<EventView>::empty());
    assert(s.last() == e);
    assert(v.added_all(s.drop_last()) == v);
}

proof fn lemma_conditions_wf(conds: Seq<ArchCondition>, i: int)
    requires
        conditions_wf(conds),
        0 <= i < conds.len(),
    ensures
        conds[i].wf(),
    decreases conds.len(),
{
    if i < conds.len() - 1 {
        lemma_conditions_wf(conds.drop_last(), i);
    }
}

/// The dependencies of `deps` not matched by `ignore`.
pub(crate) fn considered_dependencies(deps: &Vec<Dependency>, ignore: &DependencyPredicate, items: &RustItems) -> (r: Vec<Dependency>)
    requires
        ignore.wf(),
    ensures
        r@ == considered(deps@, *ignore, items.items@),
{
    let mut r: Vec<Dependency> = Vec::new();
    let mut i: usize = 0;
    while i < deps.len()
        invariant
            i <= deps@.len(),
            ignore.wf(),
            r@ == considered(deps@.take(i as int), *ignore, items.items@),
        decreases deps@.len() - i,
    {
        proof {
            assert(deps@.take(i + 1).drop_last() =~= deps@.take(i as int));
        }
        if !ignore.test(&deps[i], items) {
            r.push(deps[i].copy());
        } else {
            proof {
                assert(r@ =~= r@ + Seq::<Dependency>::empty());
            }
        }
        i += 1;
    }
    proof {
        assert(deps@.take(deps@.len() as int) =~= deps@);
    }
    r
}

/// The events of the dependencies, collected.
pub(crate) fn dependency_sub_events(deps: &Vec<Dependency>, predicate: &DependencyPredicate, items: &RustItems) -> (r: ConditionEvents)
    requires
        predicate.wf(),
        deps_described(deps@),
    ensures
        r@ == EventsView::empty().added_all(dependency_events(deps@, *predicate, items.items@)),
{
    let mut sub = ConditionEvents::new();
    let mut i: usize = 0;
    while i < deps.len()
        invariant
            i <= deps@.len(),
            predicate.wf(),
            deps_described(deps@),
            sub@ == EventsView::empty().added_all(dependency_events(deps@.take(i as int), *predicate, items.items@)),
        decreases deps@.len() - i,
    {
        let satisfied = predicate.test(&deps[i], items);
        proof {
            assert(!is_blank(deps@[i as int].description@));
        }
        sub.add(SimpleConditionEvent::new(CorrespondingObject::Dependency(deps[i].copy()), satisfied, deps[i].description.clone()));
        proof {
            let evs = dependency_events(deps@.take(i + 1), *predicate, items.items@);
            assert(evs.drop_last() =~= dependency_events(deps@.take(i as int), *predicate, items.items@));
            assert(evs.last() == dependency_event(deps@[i as int], *predicate, items.items@));
        }
        i += 1;
    }
    proof {
        assert(deps@.take(deps@.len() as int) =~= deps@);
    }
    sub
}

/// The dependencies as objects of events.
pub(crate) fn objects_of(deps: &Vec<Dependency>) -> (r: Vec<CorrespondingObject>)
    ensures
        r@ == dependency_objects(deps@),
{
    let mut r: Vec<CorrespondingObject> = Vec::new();
    let mut i: usize = 0;
    while i < deps.len()
        invariant
            i <= deps@.len(),
            r@ == dependency_objects(deps@.take(i as int)),
        decreases deps@.len() - i,
    {
        r.push(CorrespondingObject::Dependency(deps[i].copy()));
        proof {
            assert(dependency_objects(deps@.take(i + 1)) =~= dependency_objects(deps@.take(i as int)).push(CorrespondingObject::Dependency(deps@[i as int])));
        }
        i += 1;
    }
    proof {
        assert(deps@.take(deps@.len() as int) =~= deps@);
    }
    r
}

/// The dependencies of `item`, or those on it when `incoming`, not matched by `ignore`.
fn considered_of(item: &RustItem, items: &RustItems, incoming: bool, ignore: &DependencyPredicate) -> (r: Vec<Dependency>)
    requires
        ignore.wf(),
        item_described(*item),
        items_described(items.items@),
    ensures
        r@ == considered(dependencies_of(*item, items.items@, incoming), *ignore, items.items@),
        deps_described(r@),
{
    let deps = if incoming {
        items.dependencies_to(item.full_name.as_str())
    } else {
        crate::domain::copy_dependencies(&item.dependencies)
    };
    proof {
        if incoming {
            lemma_dependencies_to_described(items.items@, item.full_name@);
        }
        lemma_considered_described(deps@, *ignore, items.items@);
    }
    considered_dependencies(&deps, ignore, items)
}

/// The events a check of each object gives, one object after the other, for a condition
/// initialized with the objects named `scope`.
pub open spec fn events_of_all(c: ArchCondition, objects: Seq<RustItem>, items: Seq<RustItem>, scope: Seq<Seq<char>>) -> Seq<EventView>
    decreases objects.len(),
{
    if objects.len() == 0 {
        Seq::empty()
    } else {
        events_of_all(c, objects.drop_last(), items, scope) + c.events_of(objects.last(), items, scope)
    }
}

/// What evaluating a condition on `objects` gives (`evaluate(..)`): initialized with them,
/// each checked in turn, then finished.
pub open spec fn evaluated_events(c: ArchCondition, objects: Seq<RustItem>, items: Seq<RustItem>) -> Seq<EventView> {
    events_of_all(c, objects, items, names_of(objects)) + c.finish_events(names_of(objects))
}

/// The full names of `objects`.
fn full_names(objects: &Vec<RustItem>) -> (r: Vec<String>)
    ensures
        views(r@) == names_of(objects@),
{
    let mut r: Vec<String> = Vec::new();
    let mut i: usize = 0;
    while i < objects.len()
        invariant
            i <= objects@.len(),
            views(r@) == names_of(objects@.take(i as int)),
        decreases objects@.len() - i,
    {
        let ghost before = r@;
        r.push(objects[i].full_name.clone());
        proof {
            assert(views(r@) =~= views(before).push(objects@[i as int].full_name@));
            assert(names_of(objects@.take(i + 1)) =~= names_of(objects@.take(i as int)).push(objects@[i as int].full_name@));
        }
        i += 1;
    }
    proof {
        assert(objects@.take(objects@.len() as int) =~= objects@);
    }
    r
}

impl ArchCondition {
    /// A condition described as `description` that checks `logic`.
    pub fn new(description: &str, logic: ConditionLogic) -> (r: ArchCondition)
        ensures
            r.description@ == description@,
            r.logic == logic,
            r.scope@.len() == 0,
    {
        ArchCondition { description: String::from_str(description), logic, scope: Vec::new() }
    }

    /// A condition described as `description` that checks `logic`.
    pub fn from_logic(description: &str, logic: ConditionLogic) -> (r: ArchCondition)
        ensures
            r.description@ == description@,
            r.logic == logic,
            r.scope@.len() == 0,
    {
        ArchCondition { description: String::from_str(description), logic, scope: Vec::new() }
    }

    /// The description used in rule texts.
    pub fn description(&self) -> (r: &str)
        ensures
            r@ == self.description@,
    {
        self.description.as_str()
    }

    /// The same condition under another description (`as(..)`).
    pub fn as_(self, description: &str) -> (r: ArchCondition)
        ensures
            r.description@ == description@,
            r.logic == self.logic,
            r.scope == self.scope,
    {
        ArchCondition { description: String::from_str(description), ..self }
    }

    /// The same condition (kept for the fluent syntax).
    pub fn for_subtype(self) -> (r: ArchCondition)
        ensures
            r == self,
    {
        self
    }

    /// Prepares the condition for checking `all_objects_to_test` (`init(..)`): it remembers
    /// their names, which the conditions that look at all checked objects read.
    pub fn init(&mut self, all_objects_to_test: &Vec<RustItem>)
        ensures
            views(final(self).scope@) == names_of(all_objects_to_test@),
            final(self).description == old(self).description,
            final(self).logic == old(self).logic,
    {
        self.scope = full_names(all_objects_to_test);
    }

    /// Checks `item`, adding its events (`check(..)`).
    pub fn check(&self, item: &RustItem, items: &RustItems, events: &mut ConditionEvents)
        requires
            self.wf(),
            item_described(*item),
            items_described(items.items@),
        ensures
            final(events)@ == old(events)@.added_all(self.events_of(*item, items.items@, views(self.scope@))),
    {
        self.check_in(item, items, &self.scope, events);
    }

    /// Adds the events of finishing (`finish(..)`): those of the conditions on all checked
    /// objects together.
    pub fn finish(&self, events: &mut ConditionEvents)
        requires
            self.wf(),
        ensures
            final(events)@ == old(events)@.added_all(self.finish_events(views(self.scope@))),
    {
        self.finish_in(&self.scope, events);
    }

    /// Checks `item` for a condition initialized with the objects named `scope`.
    pub fn check_in(&self, item: &RustItem, items: &RustItems, scope: &Vec<String>, events: &mut ConditionEvents)
        requires
            self.wf(),
            item_described(*item),
            items_described(items.items@),
        ensures
            final(events)@ == old(events)@.added_all(self.events_of(*item, items.items@, views(scope@))),
        decreases self,
    {
        let ghost sc = views(scope@);
        match &self.logic {
            ConditionLogic::ByPredicate(c) => {
                let satisfied = c.predicate.test(item);
                let text = c.describer.describe(c.predicate.description.as_str(), satisfied);
                let message = create_message(item, text.as_str());
                proof {
                    lemma_message_not_blank(*item, text@);
                }
                let e = SimpleConditionEvent::new(CorrespondingObject::Item(item.reference()), satisfied, message);
                proof {
                    assert(e.event_view() == predicate_event(*c, *item));
                    lemma_added_one(old(events)@, e.event_view());
                }
                events.add(e);
            },
            ConditionLogic::AnyDependency(c) => {
                let deps = considered_of(item, items, c.incoming, &c.ignore);
                if deps.len() > 0 {
                    let sub = dependency_sub_events(&deps, &c.predicate, items);
                    let objects = objects_of(&deps);
                    let e = ConditionEvent::any(objects, sub.allowed, sub.violating);
                    proof {
                        lemma_added_one(old(events)@, e@);
                    }
                    events.add_boxed(e);
                }
            },
            ConditionLogic::AllDependencies(c) => {
                let deps = considered_of(item, items, c.incoming, &c.ignore);
                if deps.len() > 0 {
                    let sub = dependency_sub_events(&deps, &c.predicate, items);
                    let objects = objects_of(&deps);
                    let e = ConditionEvent::only(objects, sub.allowed, sub.violating);
                    proof {
                        lemma_added_one(old(events)@, e@);
                    }
                    events.add_boxed(e);
                }
            },
            ConditionLogic::Never(c) => {
                let mut sub = ConditionEvents::new();
                c.check_in(item, items, scope, &mut sub);
                proof {
                    lemma_added_all_information(EventsView::empty(), c.events_of(*item, items.items@, sc));
                }
                events.add_all_inverted(sub);
            },
            ConditionLogic::Join(is_and, cs) => {
                let mut evaluated: Vec<EvaluatedCondition> = Vec::new();
                let mut i: usize = 0;
                while i < cs.len()
                    invariant
                        i <= cs@.len(),
                        self.logic is Join,
                        self.logic->Join_1 == *cs,
                        conditions_wf(cs@),
                        item_described(*item),
                        items_described(items.items@),
                        evaluated_views(evaluated@) == parts_of(cs@.take(i as int), *item, items.items@, sc),
                        sc == views(scope@),
                    decreases cs@.len() - i,
                {
                    proof {
                        lemma_conditions_wf(cs@, i as int);
                    }
                    let mut sub = ConditionEvents::new();
                    proof {
                        assert(decreases_to!(*self => self.logic));
                        assert(decreases_to!(self.logic => self.logic->Join_1));
                        assert(self.logic->Join_1 == *cs);
                        assert(decreases_to!(*cs => cs@));
                        assert(decreases_to!(cs@ => cs@[i as int]));
                    }
                    cs[i].check_in(item, items, scope, &mut sub);
                    let ev = EvaluatedCondition::from_events(sub);
                    evaluated.push(ev);
                    proof {
                        assert(cs@.take(i + 1).drop_last() =~= cs@.take(i as int));
                        assert(evaluated_views(evaluated@) =~= parts_of(cs@.take(i as int), *item, items.items@, sc).push(ev@));
                    }
                    i += 1;
                }
                proof {
                    assert(cs@.take(cs@.len() as int) =~= cs@);
                }
                let object = CorrespondingObject::Item(item.reference());
                let e = if *is_and {
                    ConditionEvent::and(object, evaluated)
                } else {
                    ConditionEvent::or(object, evaluated)
                };
                proof {
                    lemma_added_one(old(events)@, e@);
                }
                events.add_boxed(e);
            },
            ConditionLogic::Count(_) => {
                proof {
                    assert(old(events)@.added_all(Seq::<EventView>::empty()) == old(events)@);
                }
            },
            ConditionLogic::Transitive(p) => {
                check_transitive(p, item, items, scope, events);
            },
            ConditionLogic::UpperPackages => {
                let ghost start = old(events)@;
                let deps = &item.dependencies;
                let mut i: usize = 0;
                while i < deps.len()
                    invariant
                        i <= deps@.len(),
                        *deps == item.dependencies,
                        item_described(*item),
                        events@ == start.added_all(upper_events(deps@.take(i as int), items.items@)),
                    decreases deps@.len() - i,
                {
                    let d = &deps[i];
                    let origin = items.resolve(&d.origin);
                    let target = items.resolve(&d.target);
                    let prefix = cat(target.package_name.as_str(), "::");
                    let upper = crate::text::starts_with(origin.package_name.as_str(), prefix.as_str());
                    proof {
                        assert(!is_blank(deps@[i as int].description@));
                        reveal_strlit("::");
                        assert("::"@ =~= seq![':', ':']);
                    }
                    let e = SimpleConditionEvent::new(CorrespondingObject::Dependency(d.copy()), upper, d.description.clone());
                    proof {
                        assert(e.event_view() == upper_event(deps@[i as int], items.items@));
                        assert(deps@.take(i + 1).drop_last() =~= deps@.take(i as int));
                        assert(upper_events(deps@.take(i + 1), items.items@) =~= upper_events(deps@.take(i as int), items.items@).push(e.event_view()));
                        assert(upper_events(deps@.take(i + 1), items.items@).drop_last() =~= upper_events(deps@.take(i as int), items.items@));
                    }
                    events.add(e);
                    i += 1;
                }
                proof {
                    assert(deps@.take(deps@.len() as int) =~= deps@);
                }
            },
            ConditionLogic::PlantUml(c) => {
                c.check_item(item, items, events);
            },
            ConditionLogic::PrivateConstructors => {
                check_private_constructors(item, events);
            },
        }
    }



    /// Adds the events of finishing for a condition initialized with the objects named
    /// `scope`.
    pub fn finish_in(&self, scope: &Vec<String>, events: &mut ConditionEvents)
        requires
            self.wf(),
        ensures
            final(events)@ == old(events)@.added_all(self.finish_events(views(scope@))),
        decreases self,
    {
        let ghost sc = views(scope@);
        match &self.logic {
            ConditionLogic::Count(p) => {
                let names = sorted_unique(scope);
                let size = names.len();
                let satisfied = p.test(size);
                let number = decimal_string(size as u64);
                let joined = join(&names, ", ");
                let mut message = cat3("there is/are ", number.as_str(), " element(s) in [");
                message.append(joined.as_str());
                message.append("]");
                proof {
                    reveal_strlit("there is/are ");
                    assert(message@[0] == 't');
                    assert(!is_white(message@[0]));
                }
                let e = SimpleConditionEvent::new(CorrespondingObject::Count(size), satisfied, message);
                proof {
                    assert(e.event_view() == count_event(*p, sc));
                    lemma_added_one(old(events)@, e.event_view());
                }
                events.add(e);
            },
            ConditionLogic::Never(c) => {
                let mut sub = ConditionEvents::new();
                c.finish_in(scope, &mut sub);
                proof {
                    lemma_added_all_information(EventsView::empty(), c.finish_events(sc));
                }
                events.add_all_inverted(sub);
            },
            ConditionLogic::Join(_, cs) => {
                let ghost start = old(events)@;
                let mut i: usize = 0;
                while i < cs.len()
                    invariant
                        i <= cs@.len(),
                        self.logic is Join,
                        self.logic->Join_1 == *cs,
                        conditions_wf(cs@),
                        sc == views(scope@),
                        events@ == start.added_all(finish_of(cs@.take(i as int), sc)),
                    decreases cs@.len() - i,
                {
                    proof {
                        lemma_conditions_wf(cs@, i as int);
                        assert(decreases_to!(*self => self.logic));
                        assert(decreases_to!(self.logic => self.logic->Join_1));
                        assert(decreases_to!(*cs => cs@));
                        assert(decreases_to!(cs@ => cs@[i as int]));
                        assert(cs@.take(i + 1).drop_last() =~= cs@.take(i as int));
                        lemma_added_all_concat(start, finish_of(cs@.take(i as int), sc), cs@[i as int].finish_events(sc));
                    }
                    cs[i].finish_in(scope, events);
                    i += 1;
                }
                proof {
                    assert(cs@.take(cs@.len() as int) =~= cs@);
                }
            },
            _ => {
                proof {
                    assert(self.finish_events(sc) =~= Seq::<EventView>::empty());
                }
            },
        }
    }

    /// Initializes a copy of the scope, checks all objects, one after the other, and finishes
    /// (`evaluate(..)`), into new events.
    pub fn evaluate_all(&self, all_objects: &Vec<RustItem>, items: &RustItems) -> (r: ConditionEvents)
        requires
            self.wf(),
            items_described(all_objects@),
            items_described(items.items@),
        ensures
            r@ == EventsView::empty().added_all(evaluated_events(*self, all_objects@, items.items@)),
    {
        let scope = full_names(all_objects);
        let ghost sc = views(scope@);
        let mut events = ConditionEvents::new();
        let mut i: usize = 0;
        while i < all_objects.len()
            invariant
                i <= all_objects@.len(),
                self.wf(),
                items_described(all_objects@),
                items_described(items.items@),
                sc == views(scope@),
                sc == names_of(all_objects@),
                events@ == EventsView::empty().added_all(events_of_all(*self, all_objects@.take(i as int), items.items@, sc)),
            decreases all_objects@.len() - i,
        {
            proof {
                assert(item_described(all_objects@[i as int]));
                assert(all_objects@.take(i + 1).drop_last() =~= all_objects@.take(i as int));
                lemma_added_all_concat(
                    EventsView::empty(),
                    events_of_all(*self, all_objects@.take(i as int), items.items@, sc),
                    self.events_of(all_objects@[i as int], items.items@, sc),
                );
            }
            self.check_in(&all_objects[i], items, &scope, &mut events);
            i += 1;
        }
        proof {
            assert(all_objects@.take(all_objects@.len() as int) =~= all_objects@);
            lemma_added_all_concat(
                EventsView::empty(),
                events_of_all(*self, all_objects@, items.items@, sc),
                self.finish_events(sc),
            );
        }
        self.finish_in(&scope, &mut events);
        events
    }
}

impl ArchCondition {
    /// Both conditions (`and(..)`); described as `<a> and <b>`.
    pub fn and(self, other: ArchCondition) -> (r: ArchCondition)
        requires
            self.wf(),
            other.wf(),
        ensures
            r.wf(),
            r.description@ == self.description@ + " and "@ + other.description@,
            r.logic matches ConditionLogic::Join(is_and, cs) && is_and && cs@ == seq![self, other],
    {
        let description = crate::text::cat3(self.description.as_str(), " and ", other.description.as_str());
        let mut cs: Vec<ArchCondition> = Vec::new();
        cs.push(self);
        cs.push(other);
        proof {
            assert(cs@ =~= seq![self, other]);
            assert(cs@.drop_last().drop_last() =~= Seq::<ArchCondition>::empty());
            assert(cs@.drop_last() =~= seq![self]);
            assert(conditions_wf(cs@.drop_last().drop_last()));
            assert(conditions_wf(cs@.drop_last()));
            assert(conditions_wf(cs@));
        }
        ArchCondition { description, logic: ConditionLogic::Join(true, cs), scope: Vec::new() }
    }

    /// One of the conditions (`or(..)`); described as `<a> or <b>`.
    pub fn or(self, other: ArchCondition) -> (r: ArchCondition)
        requires
            self.wf(),
            other.wf(),
        ensures
            r.wf(),
            r.description@ == self.description@ + " or "@ + other.description@,
            r.logic matches ConditionLogic::Join(is_and, cs) && !is_and && cs@ == seq![self, other],
    {
        let description = crate::text::cat3(self.description.as_str(), " or ", other.description.as_str());
        let mut cs: Vec<ArchCondition> = Vec::new();
        cs.push(self);
        cs.push(other);
        proof {
            assert(cs@ =~= seq![self, other]);
            assert(cs@.drop_last().drop_last() =~= Seq::<ArchCondition>::empty());
            assert(cs@.drop_last() =~= seq![self]);
            assert(conditions_wf(cs@.drop_last().drop_last()));
            assert(conditions_wf(cs@.drop_last()));
            assert(conditions_wf(cs@));
        }
        ArchCondition { description, logic: ConditionLogic::Join(false, cs), scope: Vec::new() }
    }

    /// Every event of `condition` inverted (`never(..)`); described as `never <description>`.
    pub fn never(condition: ArchCondition) -> (r: ArchCondition)
        ensures
            condition.wf() ==> r.wf(),
            r.description@ == "never "@ + condition.description@,
            r.logic == ConditionLogic::Never(Box::new(condition)),
    {
        let description = cat("never ", condition.description.as_str());
        ArchCondition { description, logic: ConditionLogic::Never(Box::new(condition)), scope: Vec::new() }
    }

    /// Every event of `condition` inverted (`not(..)`); described as `not <description>`.
    pub fn not(condition: ArchCondition) -> (r: ArchCondition)
        ensures
            condition.wf() ==> r.wf(),
            r.description@ == "not "@ + condition.description@,
            r.logic == ConditionLogic::Never(Box::new(condition)),
    {
        let description = cat("not ", condition.description.as_str());
        ArchCondition { description, logic: ConditionLogic::Never(Box::new(condition)), scope: Vec::new() }
    }
}

/// `never` of a predicate condition gives one event per item, a violation exactly where the
/// predicate holds.
pub proof fn lemma_never_inverts_predicate(
    c: ConditionByPredicate,
    inner: ArchCondition,
    n: ArchCondition,
    item: RustItem,
    items: Seq<RustItem>,
    scope: Seq<Seq<char>>,
)
    requires
        inner.logic == ConditionLogic::ByPredicate(c),
        n.logic == ConditionLogic::Never(Box::new(inner)),
    ensures
        n.events_of(item, items, scope).len() == 1,
        n.events_of(item, items, scope)[0].face.violation == c.predicate.holds(item@),
        inner.events_of(item, items, scope)[0].face.violation == !c.predicate.holds(item@),
{
    let e = predicate_event(c, item);
    assert(inner.events_of(item, items, scope) == seq![e]);
    lemma_added_one(EventsView::empty(), e);
    let v = EventsView::empty().added(e);
    assert(v.all() =~= seq![e]);
    assert(inverted_all(seq![e]) =~= seq![e.inverted()]);
    assert(n.events_of(item, items, scope) == inverted_all(v.all()));
}


/// Events sorted into their two sides keep the order within each side: the allowed ones are
/// those of `evs` without a violation, the violating ones those with one.
proof fn lemma_sorted_sides(evs: Seq<EventView>)
    ensures
        EventsView::empty().added_all(evs).allowed == evs.filter(|e: EventView| !e.face.violation),
        EventsView::empty().added_all(evs).violating == evs.filter(|e: EventView| e.face.violation),
        EventsView::empty().added_all(evs).information == None::<Seq<char>>,
    decreases evs.len(),
{
    if evs.len() > 0 {
        lemma_sorted_sides(evs.drop_last());
        assert(evs == evs.drop_last().push(evs.last()));
        evs.drop_last().lemma_filter_push(evs.last(), |e: EventView| !e.face.violation);
        evs.drop_last().lemma_filter_push(evs.last(), |e: EventView| e.face.violation);
    } else {
        assert(evs.filter(|e: EventView| !e.face.violation) =~= Seq::<EventView>::empty());
        assert(evs.filter(|e: EventView| e.face.violation) =~= Seq::<EventView>::empty());
    }
}

/// How often an event occurs among those of `evs` that meet `p`.
proof fn lemma_filter_count(evs: Seq<EventView>, p: spec_fn(EventView) -> bool, a: EventView)
    ensures
        evs.filter(p).to_multiset().count(a) == if p(a) { evs.to_multiset().count(a) } else { 0 },
    decreases evs.len(),
{
    broadcast use vstd::seq_lib::group_to_multiset_ensures;
    if evs.len() > 0 {
        lemma_filter_count(evs.drop_last(), p, a);
        assert(evs == evs.drop_last().push(evs.last()));
        evs.drop_last().lemma_filter_push(evs.last(), p);
    } else {
        assert(evs.filter(p) =~= Seq::<EventView>::empty());
    }
}

/// Two sequences holding the same events have the same events meeting `p`.
proof fn lemma_filter_same_events(x: Seq<EventView>, y: Seq<EventView>, p: spec_fn(EventView) -> bool)
    requires
        x.to_multiset() == y.to_multiset(),
    ensures
        x.filter(p).to_multiset() == y.filter(p).to_multiset(),
{
    assert forall|a: EventView| #[trigger] x.filter(p).to_multiset().count(a) == y.filter(p).to_multiset().count(a) by {
        lemma_filter_count(x, p, a);
        lemma_filter_count(y, p, a);
    }
    assert(x.filter(p).to_multiset() =~= y.filter(p).to_multiset());
}

/// Sorting events into their two sides loses and adds none.
proof fn lemma_sorted_same_events(evs: Seq<EventView>)
    ensures
        EventsView::empty().added_all(evs).all().to_multiset() == evs.to_multiset(),
{
    broadcast use vstd::seq_lib::group_to_multiset_ensures;
    lemma_sorted_sides(evs);
    let v = EventsView::empty().added_all(evs);
    vstd::seq_lib::lemma_multiset_commutative(v.allowed, v.violating);
    assert forall|a: EventView| #[trigger] v.all().to_multiset().count(a) == evs.to_multiset().count(a) by {
        lemma_filter_count(evs, |e: EventView| !e.face.violation, a);
        lemma_filter_count(evs, |e: EventView| e.face.violation, a);
    }
    assert(v.all().to_multiset() =~= evs.to_multiset());
}

/// An event occurs among the inverted events as often as its inversion among the events.
proof fn lemma_inverted_count(evs: Seq<EventView>, a: EventView)
    ensures
        inverted_all(evs).to_multiset().count(a) == evs.to_multiset().count(a.inverted()),
    decreases evs.len(),
{
    broadcast use vstd::seq_lib::group_to_multiset_ensures;
    if evs.len() > 0 {
        lemma_inverted_count(evs.drop_last(), a);
        assert(evs == evs.drop_last().push(evs.last()));
        assert(inverted_all(evs) =~= inverted_all(evs.drop_last()).push(evs.last().inverted()));
        assert(a.inverted().inverted() == a);
        assert(evs.last().inverted().inverted() == evs.last());
    } else {
        assert(inverted_all(evs) =~= Seq::<EventView>::empty());
    }
}

/// Inverting the events of a condition twice, with the sorting into sides between, gives the
/// same events in another order.
proof fn lemma_twice_inverted_same_events(evs: Seq<EventView>)
    ensures
        inverted_all(EventsView::empty().added_all(inverted_all(EventsView::empty().added_all(evs).all())).all()).to_multiset()
            == evs.to_multiset(),
{
    let s1 = EventsView::empty().added_all(evs).all();
    let w = inverted_all(s1);
    let s2 = EventsView::empty().added_all(w).all();
    lemma_sorted_same_events(evs);
    lemma_sorted_same_events(w);
    assert forall|a: EventView| #[trigger] inverted_all(s2).to_multiset().count(a) == evs.to_multiset().count(a) by {
        lemma_inverted_count(s2, a);
        lemma_inverted_count(s1, a.inverted());
        assert(a.inverted().inverted() == a);
    }
    assert(inverted_all(s2).to_multiset() =~= evs.to_multiset());
}

/// Checking each object in turn gives the same events for a condition negated twice as for
/// the condition itself, in another order.
proof fn lemma_twice_negated_all_events(n: ArchCondition, m: ArchCondition, c: ArchCondition, objects: Seq<RustItem>, items: Seq<RustItem>, scope: Seq<Seq<char>>)
    requires
        n.logic == ConditionLogic::Never(Box::new(m)),
        m.logic == ConditionLogic::Never(Box::new(c)),
    ensures
        events_of_all(n, objects, items, scope).to_multiset() == events_of_all(c, objects, items, scope).to_multiset(),
    decreases objects.len(),
{
    if objects.len() > 0 {
        lemma_twice_negated_all_events(n, m, c, objects.drop_last(), items, scope);
        let e = c.events_of(objects.last(), items, scope);
        assert(m.events_of(objects.last(), items, scope) == inverted_all(EventsView::empty().added_all(e).all()));
        assert(n.events_of(objects.last(), items, scope) == inverted_all(EventsView::empty().added_all(m.events_of(objects.last(), items, scope)).all()));
        lemma_twice_inverted_same_events(e);
        vstd::seq_lib::lemma_multiset_commutative(
            events_of_all(n, objects.drop_last(), items, scope),
            n.events_of(objects.last(), items, scope),
        );
        vstd::seq_lib::lemma_multiset_commutative(
            events_of_all(c, objects.drop_last(), items, scope),
            c.events_of(objects.last(), items, scope),
        );
    }
}

/// Negating a condition twice (`not(not(c))`, `never(never(c))`) gives, evaluated on any
/// objects, the same violating events and the same allowed events as the condition itself,
/// so the same violation lines; only the order of the events within one object's check may
/// differ.
pub proof fn lemma_double_negation(n: ArchCondition, m: ArchCondition, c: ArchCondition, objects: Seq<RustItem>, items: Seq<RustItem>)
    requires
        n.logic == ConditionLogic::Never(Box::new(m)),
        m.logic == ConditionLogic::Never(Box::new(c)),
    ensures
        EventsView::empty().added_all(evaluated_events(n, objects, items)).violating.to_multiset()
            == EventsView::empty().added_all(evaluated_events(c, objects, items)).violating.to_multiset(),
        EventsView::empty().added_all(evaluated_events(n, objects, items)).allowed.to_multiset()
            == EventsView::empty().added_all(evaluated_events(c, objects, items)).allowed.to_multiset(),
        EventsView::empty().added_all(evaluated_events(n, objects, items)).information
            == EventsView::empty().added_all(evaluated_events(c, objects, items)).information,
{
    let scope = names_of(objects);
    let x = evaluated_events(n, objects, items);
    let y = evaluated_events(c, objects, items);
    lemma_twice_negated_all_events(n, m, c, objects, items, scope);
    lemma_twice_inverted_same_events(c.finish_events(scope));
    assert(m.finish_events(scope) == inverted_all(EventsView::empty().added_all(c.finish_events(scope)).all()));
    assert(n.finish_events(scope) == inverted_all(EventsView::empty().added_all(m.finish_events(scope)).all()));
    vstd::seq_lib::lemma_multiset_commutative(events_of_all(n, objects, items, scope), n.finish_events(scope));
    vstd::seq_lib::lemma_multiset_commutative(events_of_all(c, objects, items, scope), c.finish_events(scope));
    assert(x.to_multiset() == y.to_multiset());
    lemma_sorted_sides(x);
    lemma_sorted_sides(y);
    lemma_filter_same_events(x, y, |e: EventView| !e.face.violation);
    lemma_filter_same_events(x, y, |e: EventView| e.face.violation);
}

} // verus!
