//! The dependencies of slices and the rules on them: `not depend on each other` and
//! `be free of cycles` (`SlicesRuleDefinition`).

use crate::lang::configuration::ArchConfiguration;
use vstd::prelude::*;
use vstd::string::*;

use super::cycles::{cycle_results, free_of_cycles};
use super::{
    item_views, opt_text, slice_views, slices_of, Slice, SliceAssignment, SliceView, Slices,
    SlicesTransformer,
};
use crate::base::dependency_predicates::{DependencyPredicate, DependencyTest};
use crate::domain::{dependencies_to, find_item, resolve, Dependency, ItemRef, RustItem, RustItems};
use crate::lang::condition::{considered, considered_dependencies};
use crate::lang::evaluation::{EvaluationResult, ResultView};
use crate::lang::events::{single_event, ConditionEvent, CorrespondingObject, EventView, SimpleConditionEvent};
use crate::lang::rule::{assert_no_violation, assertion_outcome, because_text, create_because_description, empty_should_message, empty_should_text, outcome_view, Priority};
use crate::lang::transitive::{outside_targets, outside_targets_of};
use crate::text::{cat, cat3, join, join_seq, str_eq, views};

verus! {

/// The dependencies of `deps` whose targets belong to another slice than `parts`.
pub open spec fn leaving(a: SliceAssignment, all: Seq<RustItem>, parts: Seq<Seq<char>>, deps: Seq<Dependency>) -> Seq<Dependency>
    decreases deps.len(),
{
    if deps.len() == 0 {
        Seq::empty()
    } else {
        leaving(a, all, parts, deps.drop_last()) + if a.parts_for(resolve(all, deps.last().target)) != parts {
            seq![deps.last()]
        } else {
            Seq::empty()
        }
    }
}

/// The dependencies of `deps` whose origins belong to another slice than `parts`.
pub open spec fn entering(a: SliceAssignment, all: Seq<RustItem>, parts: Seq<Seq<char>>, deps: Seq<Dependency>) -> Seq<Dependency>
    decreases deps.len(),
{
    if deps.len() == 0 {
        Seq::empty()
    } else {
        entering(a, all, parts, deps.drop_last()) + if a.parts_for(resolve(all, deps.last().origin)) != parts {
            seq![deps.last()]
        } else {
            Seq::empty()
        }
    }
}

/// The dependencies of the members (as items of `all`) on items of other slices, in the
/// order of the members and their dependencies.
pub open spec fn outgoing(a: SliceAssignment, all: Seq<RustItem>, parts: Seq<Seq<char>>, members: Seq<Seq<char>>) -> Seq<Dependency>
    decreases members.len(),
{
    if members.len() == 0 {
        Seq::empty()
    } else {
        outgoing(a, all, parts, members.drop_last()) + match find_item(all, members.last(), 0) {
            Some(k) => leaving(a, all, parts, all[k].dependencies@),
            None => Seq::empty(),
        }
    }
}

/// The dependencies of items of other slices on the members, in the order of the members and
/// of the items of `all`.
pub open spec fn incoming(a: SliceAssignment, all: Seq<RustItem>, parts: Seq<Seq<char>>, members: Seq<Seq<char>>) -> Seq<Dependency>
    decreases members.len(),
{
    if members.len() == 0 {
        Seq::empty()
    } else {
        incoming(a, all, parts, members.drop_last()) + entering(a, all, parts, dependencies_to(all, members.last()))
    }
}

/// Whether two lists of texts are equal.
fn texts_equal(a: &Vec<String>, b: &Vec<String>) -> (r: bool)
    ensures
        r == (views(a@) == views(b@)),
{
    if a.len() != b.len() {
        proof {
            assert(views(a@).len() != views(b@).len());
        }
        return false;
    }
    let mut i: usize = 0;
    while i < a.len()
        invariant
            a@.len() == b@.len(),
            i <= a@.len(),
            forall|j: int| 0 <= j < i ==> a@[j]@ == b@[j]@,
        decreases a@.len() - i,
    {
        if !str_eq(a[i].as_str(), b[i].as_str()) {
            proof {
                assert(views(a@)[i as int] != views(b@)[i as int]);
            }
            return false;
        }
        i += 1;
    }
    proof {
        assert(views(a@) =~= views(b@));
    }
    true
}

/// The dependencies of `deps` whose targets (`outgoing`) or origins belong to another slice.
fn crossing(a: &SliceAssignment, all: &RustItems, parts: &Vec<String>, deps: &Vec<Dependency>, outgoing: bool) -> (r: Vec<Dependency>)
    requires
        a.wf(),
    ensures
        outgoing ==> r@ == leaving(*a, all.items@, views(parts@), deps@),
        !outgoing ==> r@ == entering(*a, all.items@, views(parts@), deps@),
{
    let mut r: Vec<Dependency> = Vec::new();
    let mut i: usize = 0;
    while i < deps.len()
        invariant
            a.wf(),
            i <= deps@.len(),
            outgoing ==> r@ == leaving(*a, all.items@, views(parts@), deps@.take(i as int)),
            !outgoing ==> r@ == entering(*a, all.items@, views(parts@), deps@.take(i as int)),
        decreases deps@.len() - i,
    {
        proof {
            assert(deps@.take(i + 1).drop_last() =~= deps@.take(i as int));
            assert(deps@.take(i + 1).last() == deps@[i as int]);
        }
        let end = if outgoing {
            all.resolve(&deps[i].target)
        } else {
            all.resolve(&deps[i].origin)
        };
        let id = a.identifier_of(&end);
        if !texts_equal(&id.parts, parts) {
            r.push(deps[i].copy());
        } else {
            proof {
                assert(r@ =~= r@ + Seq::<Dependency>::empty());
            }
        }
        i += 1;
    }
    proof {
        assert(deps@.take(deps@.len() as int) =~= deps@);
    }
    r
}

impl Slice {
    /// The dependencies of the members on items of other slices,
    /// in the order of the members and their dependencies.
    pub fn dependencies_from_self(&self, assignment: &SliceAssignment, all: &RustItems) -> (r: Vec<Dependency>)
        requires
            assignment.wf(),
        ensures
            r@ == outgoing(*assignment, all.items@, self@.parts, self@.members),
    {
        let mut r: Vec<Dependency> = Vec::new();
        let mut i: usize = 0;
        while i < self.members.len()
            invariant
                assignment.wf(),
                i <= self.members@.len(),
                r@ == outgoing(*assignment, all.items@, self@.parts, self@.members.take(i as int)),
            decreases self.members@.len() - i,
        {
            proof {
                assert(self@.members.take(i + 1).drop_last() =~= self@.members.take(i as int));
                assert(self@.members.take(i + 1).last() == self.members@[i as int]@);
            }
            match all.position(self.members[i].as_str()) {
                Some(k) => {
                    let mut more = crossing(assignment, all, &self.identifier.parts, &all.items[k].dependencies, true);
                    r.append(&mut more);
                },
                None => {
                    proof {
                        assert(r@ =~= r@ + Seq::<Dependency>::empty());
                    }
                },
            }
            i += 1;
        }
        proof {
            assert(self@.members.take(self@.members.len() as int) =~= self@.members);
        }
        r
    }

    /// The dependencies of items of other slices on the members,
    /// in the order of the members and of the items.
    pub fn dependencies_to_self(&self, assignment: &SliceAssignment, all: &RustItems) -> (r: Vec<Dependency>)
        requires
            assignment.wf(),
        ensures
            r@ == incoming(*assignment, all.items@, self@.parts, self@.members),
    {
        let mut r: Vec<Dependency> = Vec::new();
        let mut i: usize = 0;
        while i < self.members.len()
            invariant
                assignment.wf(),
                i <= self.members@.len(),
                r@ == incoming(*assignment, all.items@, self@.parts, self@.members.take(i as int)),
            decreases self.members@.len() - i,
        {
            proof {
                assert(self@.members.take(i + 1).drop_last() =~= self@.members.take(i as int));
                assert(self@.members.take(i + 1).last() == self.members@[i as int]@);
            }
            let on = all.dependencies_to(self.members[i].as_str());
            let mut more = crossing(assignment, all, &self.identifier.parts, &on, false);
            r.append(&mut more);
            i += 1;
        }
        proof {
            assert(self@.members.take(self@.members.len() as int) =~= self@.members);
        }
        r
    }
}

/// The items the targets of `deps` stand for, one per name, ordered by name.
pub open spec fn target_views(deps: Seq<Dependency>, all: Seq<RustItem>) -> Seq<crate::domain::ItemView> {
    outside_targets(deps, Seq::empty()).map_values(|r: ItemRef| resolve(all, r))
}

impl SlicesTransformer {
    /// The slices the targets of `deps` belong to (`transform(dependencies)`).
    pub fn of_dependencies(&self, deps: &Vec<Dependency>, all: &RustItems) -> (r: Slices)
        requires
            self.wf(),
        ensures
            slice_views(r.slices@) == slices_of(self.assignment, target_views(deps@, all.items@), opt_text(self.naming_pattern)),
            r.description == self.description,
    {
        let none: Vec<String> = Vec::new();
        proof {
            assert(views(none@) =~= Seq::<Seq<char>>::empty());
        }
        let targets = outside_targets_of(deps, &none);
        let mut xs: Vec<RustItem> = Vec::new();
        let mut i: usize = 0;
        while i < targets.len()
            invariant
                i <= targets@.len(),
                targets@ == outside_targets(deps@, Seq::empty()),
                item_views(xs@) == target_views(deps@, all.items@).take(i as int),
            decreases targets@.len() - i,
        {
            let x = all.resolve(&targets[i]);
            let ghost before = xs@;
            xs.push(x);
            proof {
                assert(item_views(xs@) =~= item_views(before).push(x@));
                assert(target_views(deps@, all.items@).take(i + 1) =~= target_views(deps@, all.items@).take(i as int).push(x@));
            }
            i += 1;
        }
        proof {
            assert(target_views(deps@, all.items@).take(targets@.len() as int) =~= target_views(deps@, all.items@));
        }
        self.transform(&xs)
    }
}

/// The descriptions of dependencies.
pub open spec fn descriptions(deps: Seq<Dependency>) -> Seq<Seq<char>> {
    deps.map_values(|d: Dependency| d.description@)
}

/// The dependencies of `deps` on members of `t`.
pub open spec fn into_slice(t: SliceView, deps: Seq<Dependency>) -> Seq<Dependency>
    decreases deps.len(),
{
    if deps.len() == 0 {
        Seq::empty()
    } else {
        into_slice(t, deps.drop_last()) + if t.members.contains(deps.last().target.full_name@) {
            seq![deps.last()]
        } else {
            Seq::empty()
        }
    }
}

/// `<origin> depends on <target>:` followed by one line per dependency.
pub open spec fn dependency_text(origin: SliceView, target: SliceView, deps: Seq<Dependency>) -> Seq<char> {
    origin.description() + " depends on "@ + target.description() + ":\n"@ + join_seq(descriptions(deps), "\n"@)
}

/// A dependency between two slices with the dependencies of items that cause it
/// (`SliceDependency`).
#[derive(Debug)]
pub struct SliceDependency {
    /// The depending slice.
    pub origin: Slice,
    /// The slice depended on.
    pub target: Slice,
    /// The dependencies from members of the origin on members of the target.
    pub relevant_dependencies: Vec<Dependency>,
}

impl SliceDependency {
    /// The dependency from `origin` to `target` through those of `deps` on members of
    /// `target`.
    pub fn of(origin: &Slice, deps: &Vec<Dependency>, target: &Slice) -> (r: SliceDependency)
        ensures
            r.origin@ == origin@,
            r.target@ == target@,
            r.relevant_dependencies@ == into_slice(target@, deps@),
            forall|k: int| 0 <= k < r.relevant_dependencies@.len()
                ==> target@.members.contains((#[trigger] r.relevant_dependencies@[k]).target.full_name@),
    {
        proof {
            lemma_slice_dependency_into_target(target@, deps@);
        }
        let mut relevant: Vec<Dependency> = Vec::new();
        let mut i: usize = 0;
        while i < deps.len()
            invariant
                i <= deps@.len(),
                relevant@ == into_slice(target@, deps@.take(i as int)),
            decreases deps@.len() - i,
        {
            proof {
                assert(deps@.take(i + 1).drop_last() =~= deps@.take(i as int));
                assert(deps@.take(i + 1).last() == deps@[i as int]);
            }
            if target.contains(deps[i].target.full_name.as_str()) {
                relevant.push(deps[i].copy());
            } else {
                proof {
                    assert(relevant@ =~= relevant@ + Seq::<Dependency>::empty());
                }
            }
            i += 1;
        }
        proof {
            assert(deps@.take(deps@.len() as int) =~= deps@);
        }
        SliceDependency { origin: origin.copy(), target: target.copy(), relevant_dependencies: relevant }
    }

    /// The depending slice.
    pub fn origin(&self) -> (r: &Slice)
        ensures
            *r == self.origin,
    {
        &self.origin
    }

    /// The slice depended on.
    pub fn target(&self) -> (r: &Slice)
        ensures
            *r == self.target,
    {
        &self.target
    }

    /// The dependencies of items that cause it.
    pub fn dependencies(&self) -> (r: &[Dependency])
        ensures
            r@ == self.relevant_dependencies@,
    {
        self.relevant_dependencies.as_slice()
    }

    /// `<origin> depends on <target>:` followed by one line per dependency.
    pub fn description(&self) -> (r: String)
        ensures
            r@ == dependency_text(self.origin@, self.target@, self.relevant_dependencies@),
    {
        let mut lines: Vec<String> = Vec::new();
        let mut i: usize = 0;
        while i < self.relevant_dependencies.len()
            invariant
                i <= self.relevant_dependencies@.len(),
                views(lines@) == descriptions(self.relevant_dependencies@.take(i as int)),
            decreases self.relevant_dependencies@.len() - i,
        {
            let ghost before = lines@;
            lines.push(self.relevant_dependencies[i].description.clone());
            proof {
                assert(views(lines@) =~= views(before).push(self.relevant_dependencies@[i as int].description@));
                assert(descriptions(self.relevant_dependencies@.take(i + 1)) =~= descriptions(self.relevant_dependencies@.take(i as int)).push(self.relevant_dependencies@[i as int].description@));
            }
            i += 1;
        }
        proof {
            assert(self.relevant_dependencies@.take(self.relevant_dependencies@.len() as int) =~= self.relevant_dependencies@);
        }
        let joined = join(&lines, "\n");
        let head = cat3(self.origin.description().as_str(), " depends on ", self.target.description().as_str());
        let mut r = cat(head.as_str(), ":\n");
        r.append(joined.as_str());
        r
    }
}

/// The relevant dependencies of a slice: its outgoing ones not ignored.
pub open spec fn relevant_of(a: SliceAssignment, ignore: DependencyPredicate, all: Seq<RustItem>, s: SliceView) -> Seq<Dependency> {
    considered(outgoing(a, all, s.parts, s.members), ignore, all)
}

/// The violations `not depend on each other` finds for `s`: one per slice its relevant
/// dependencies lead to.
pub open spec fn slice_dependency_texts(a: SliceAssignment, pattern: Option<Seq<char>>, ignore: DependencyPredicate, all: Seq<RustItem>, s: SliceView) -> Seq<Seq<char>> {
    let rel = relevant_of(a, ignore, all, s);
    slices_of(a, target_views(rel, all), pattern).map_values(|t: SliceView| dependency_text(s, t, into_slice(t, rel)))
}

/// The violations of `not depend on each other` for each slice, one slice after the other.
pub open spec fn not_depend_texts(a: SliceAssignment, pattern: Option<Seq<char>>, ignore: DependencyPredicate, all: Seq<RustItem>, ss: Seq<SliceView>) -> Seq<Seq<char>>
    decreases ss.len(),
{
    if ss.len() == 0 {
        Seq::empty()
    } else {
        not_depend_texts(a, pattern, ignore, all, ss.drop_last()) + slice_dependency_texts(a, pattern, ignore, all, ss.last())
    }
}

/// The lines of the violations.
pub open spec fn violation_lines(evs: Seq<EventView>) -> Seq<Seq<Seq<char>>> {
    evs.map_values(|e: EventView| e.face.lines)
}

/// Each text as the lines of one violation.
pub open spec fn as_lines(texts: Seq<Seq<char>>) -> Seq<Seq<Seq<char>>> {
    texts.map_values(|t: Seq<char>| seq![t])
}

/// All events are violations.
pub open spec fn all_violations(evs: Seq<EventView>) -> bool {
    forall|i: int| 0 <= i < evs.len() ==> (#[trigger] evs[i]).face.violation
}

/// A violation with the text `text`, about an object described by the same text.
fn violation(text: String) -> (r: ConditionEvent)
    requires
        !crate::lang::events::is_blank(text@),
    ensures
        r@.face.violation,
        r@.face.lines == seq![text@],
{
    let object = CorrespondingObject::Other(text.clone());
    SimpleConditionEvent::violated(object, text).into_event()
}

/// The text of a dependency between slices is never blank: `depends` is in it.
proof fn lemma_dependency_text_not_blank(origin: SliceView, target: SliceView, deps: Seq<Dependency>)
    ensures
        !crate::lang::events::is_blank(dependency_text(origin, target, deps)),
{
    reveal_strlit(" depends on ");
    let d = origin.description();
    let t = dependency_text(origin, target, deps);
    assert(t[d.len() + 1int] == 'd');
    assert(!crate::lang::events::is_white(t[d.len() + 1int]));
}

/// The violations of `not depend on each other`, one slice after the other.
fn not_depend_violations(
    transformer: &SlicesTransformer,
    ignore: &DependencyPredicate,
    all: &RustItems,
    ss: &Vec<Slice>,
) -> (r: Vec<ConditionEvent>)
    requires
        transformer.wf(),
        ignore.wf(),
    ensures
        all_violations(crate::lang::events::event_views(r@)),
        violation_lines(crate::lang::events::event_views(r@))
            == as_lines(not_depend_texts(transformer.assignment, opt_text(transformer.naming_pattern), *ignore, all.items@, slice_views(ss@))),
{
    let ghost a = transformer.assignment;
    let ghost pattern = opt_text(transformer.naming_pattern);
    let mut r: Vec<ConditionEvent> = Vec::new();
    let mut i: usize = 0;
    while i < ss.len()
        invariant
            transformer.wf(),
            ignore.wf(),
            a == transformer.assignment,
            pattern == opt_text(transformer.naming_pattern),
            i <= ss@.len(),
            all_violations(crate::lang::events::event_views(r@)),
            violation_lines(crate::lang::events::event_views(r@)) == as_lines(not_depend_texts(a, pattern, *ignore, all.items@, slice_views(ss@).take(i as int))),
        decreases ss@.len() - i,
    {
        let s = &ss[i];
        let outgoing = s.dependencies_from_self(&transformer.assignment, all);
        let rel = considered_dependencies(&outgoing, ignore, all);
        let targets = transformer.of_dependencies(&rel, all);
        let ghost texts = slice_dependency_texts(a, pattern, *ignore, all.items@, s@);
        let ghost start = r@;
        let mut t: usize = 0;
        while t < targets.slices.len()
            invariant
                t <= targets.slices@.len(),
                rel@ == relevant_of(a, *ignore, all.items@, s@),
                slice_views(targets.slices@) == slices_of(a, target_views(rel@, all.items@), pattern),
                texts == slice_dependency_texts(a, pattern, *ignore, all.items@, s@),
                texts.len() == targets.slices@.len(),
                all_violations(crate::lang::events::event_views(r@)),
                violation_lines(crate::lang::events::event_views(r@)) == violation_lines(crate::lang::events::event_views(start)) + as_lines(texts.take(t as int)),
            decreases targets.slices@.len() - t,
        {
            let dependency = SliceDependency::of(s, &rel, &targets.slices[t]);
            let text = dependency.description();
            proof {
                assert(slice_views(targets.slices@)[t as int] == targets.slices@[t as int]@);
                assert(text@ == texts[t as int]);
                lemma_dependency_text_not_blank(s@, targets.slices@[t as int]@, dependency.relevant_dependencies@);
            }
            let e = violation(text);
            let ghost before = r@;
            r.push(e);
            proof {
                assert(crate::lang::events::event_views(r@) =~= crate::lang::events::event_views(before).push(e@));
                assert(texts.take(t + 1) =~= texts.take(t as int).push(texts[t as int]));
                assert(violation_lines(crate::lang::events::event_views(r@)) =~= violation_lines(crate::lang::events::event_views(before)).push(e@.face.lines));
                assert(as_lines(texts.take(t + 1)) =~= as_lines(texts.take(t as int)).push(seq![texts[t as int]]));
            }
            t += 1;
        }
        proof {
            assert(texts.take(texts.len() as int) =~= texts);
            assert(slice_views(ss@).take(i + 1).drop_last() =~= slice_views(ss@).take(i as int));
            assert(slice_views(ss@).take(i + 1).last() == s@);
            assert(as_lines(not_depend_texts(a, pattern, *ignore, all.items@, slice_views(ss@).take(i + 1)))
                =~= as_lines(not_depend_texts(a, pattern, *ignore, all.items@, slice_views(ss@).take(i as int))) + as_lines(texts));
        }
        i += 1;
    }
    proof {
        assert(slice_views(ss@).take(ss@.len() as int) =~= slice_views(ss@));
    }
    r
}

/// What a slice rule checks.
#[derive(Debug, Clone, Copy, PartialEq, Eq, Structural)]
pub enum SliceCondition {
    /// No slice depends on another one.
    NotDependOnEachOther,
    /// The dependencies between slices form no cycle.
    FreeOfCycles,
}

/// How a slice condition reads.
pub open spec fn condition_text(c: SliceCondition) -> Seq<char> {
    match c {
        SliceCondition::NotDependOnEachOther => "not depend on each other"@,
        SliceCondition::FreeOfCycles => "be free of cycles"@,
    }
}

/// A change of a rule's description.
#[derive(Debug)]
pub enum Transformation {
    /// The description is replaced (`as(..)`).
    As(String),
    /// `, because <reason>` is appended (`because(..)`).
    Because(String),
}

/// `d` changed by `ts`, one after the other.
pub open spec fn transformed(d: Seq<char>, ts: Seq<Transformation>) -> Seq<char>
    decreases ts.len(),
{
    if ts.len() == 0 {
        d
    } else {
        match ts.last() {
            Transformation::As(x) => x@,
            Transformation::Because(reason) => because_text(transformed(d, ts.drop_last()), reason@),
        }
    }
}

/// A rule about slices (`SliceRule`).
#[derive(Debug)]
pub struct SliceRule {
    /// The slices.
    pub transformer: SlicesTransformer,
    /// The priority.
    pub priority: Priority,
    /// The changes of the description, in order.
    pub transformations: Vec<Transformation>,
    /// The dependencies that do not count.
    pub ignore: DependencyPredicate,
    /// What it checks.
    pub condition: SliceCondition,
    /// Whether the rule may find no slices.
    pub allow_empty_should: Option<bool>,
    /// The settings it reads: whether finding no slices fails where the rule does not say,
    /// and the limits of the search for cycles.
    pub configuration: ArchConfiguration,
}

impl SliceRule {
    /// Whether the rule may find no slices: as it says itself, or else as configured.
    pub open spec fn allows_empty(&self) -> bool {
        match self.allow_empty_should {
            Some(b) => b,
            None => !self.configuration.fail_on_empty_should,
        }
    }

    /// The transformer and the ignored dependencies are well formed.
    pub open spec fn wf(&self) -> bool {
        self.transformer.wf() && self.ignore.wf()
    }

    /// The description: `<slices> should <condition>`, changed by the transformations.
    pub open spec fn description_text(&self) -> Seq<char> {
        transformed(self.transformer.description@ + " should "@ + condition_text(self.condition), self.transformations@)
    }

    /// `r` is what evaluating the rule on `items` gives: the failure of a rule without slices,
    /// unless allowed, or else the violations of its condition on the slices.
    pub open spec fn evaluates_to(&self, items: Seq<RustItem>, r: Result<ResultView, Seq<char>>) -> bool {
        let a = self.transformer.assignment;
        let ss = slices_of(a, item_views(items), opt_text(self.transformer.naming_pattern));
        if ss.len() == 0 && !self.allows_empty() {
            r == Err::<ResultView, Seq<char>>(empty_should_text(self.description_text()))
        } else {
            &&& r is Ok
            &&& r->Ok_0.rule_description == self.description_text()
            &&& r->Ok_0.priority == self.priority
            &&& all_violations(r->Ok_0.violations)
            &&& match self.condition {
                SliceCondition::NotDependOnEachOther => {
                    &&& violation_lines(r->Ok_0.violations) == as_lines(
                        not_depend_texts(a, opt_text(self.transformer.naming_pattern), self.ignore, items, ss),
                    )
                    &&& r->Ok_0.information is None
                },
                SliceCondition::FreeOfCycles => cycle_results(
                    a,
                    self.ignore,
                    items,
                    ss,
                    violation_lines(r->Ok_0.violations),
                    r->Ok_0.information,
                    self.configuration.max_number_of_cycles_to_detect as nat,
                    self.configuration.max_number_of_dependencies_per_edge as nat,
                ),
            }
        }
    }

    /// A rule on the slices of `transformer` that checks `condition`, ignoring no dependency.
    pub fn new(transformer: SlicesTransformer, priority: Priority, condition: SliceCondition) -> (r: SliceRule)
        requires
            transformer.wf(),
        ensures
            r.wf(),
            r.transformer == transformer,
            r.priority == priority,
            r.condition == condition,
            r.transformations@.len() == 0,
            r.ignore.test is AlwaysFalse,
            r.allow_empty_should is None,
            r.configuration.fail_on_empty_should,
            r.configuration.max_number_of_cycles_to_detect == 100,
            r.configuration.max_number_of_dependencies_per_edge == 20,
    {
        SliceRule {
            transformer,
            priority,
            transformations: Vec::new(),
            ignore: DependencyPredicate::always_false(),
            condition,
            allow_empty_should: None,
            configuration: ArchConfiguration::defaults(),
        }
    }

    /// The rule reading `configuration`.
    pub fn configured(self, configuration: &ArchConfiguration) -> (r: SliceRule)
        ensures
            r == (SliceRule { configuration: *configuration, ..self }),
    {
        SliceRule { configuration: *configuration, ..self }
    }

    /// The same rule under another description (`as(..)`).
    pub fn as_(self, description: &str) -> (r: SliceRule)
        ensures
            r.description_text() == description@,
            r.wf() == self.wf(),
    {
        let mut s = self;
        let text = String::from_str(description);
        let ghost tv = text;
        s.transformations.push(Transformation::As(text));
        proof {
            assert(s.transformations@.last() == Transformation::As(tv));
        }
        s
    }

    /// The same rule with `, because <reason>` appended to the description (`because(..)`).
    pub fn because(self, reason: &str) -> (r: SliceRule)
        ensures
            r.description_text() == because_text(self.description_text(), reason@),
            r.wf() == self.wf(),
    {
        let mut s = self;
        let ghost before = s.transformations@;
        s.transformations.push(Transformation::Because(String::from_str(reason)));
        proof {
            assert(s.transformations@.drop_last() =~= before);
        }
        s
    }

    /// Whether the rule may find no slices.
    pub fn allow_empty_should(self, allow_empty_should: bool) -> (r: SliceRule)
        ensures
            r == (SliceRule { allow_empty_should: Some(allow_empty_should), ..self }),
    {
        SliceRule { allow_empty_should: Some(allow_empty_should), ..self }
    }

    /// Ignores dependencies matching `predicate` as well.
    pub fn ignore_dependency_where(self, predicate: DependencyPredicate) -> (r: SliceRule)
        ensures
            r.ignore.test == DependencyTest::Or(Box::new(self.ignore), Box::new(predicate)),
            r.wf() == (self.wf() && predicate.wf()),
            forall|d: Dependency, items: Seq<RustItem>| #[trigger] r.ignore.holds(d, items) == (self.ignore.holds(d, items) || predicate.holds(d, items)),
            r.transformer == self.transformer,
            r.condition == self.condition,
            r.transformations == self.transformations,
            r.priority == self.priority,
            r.allow_empty_should == self.allow_empty_should,
            r.configuration == self.configuration,
    {
        let SliceRule { transformer, priority, transformations, ignore, condition, allow_empty_should, configuration } = self;
        SliceRule { transformer, priority, transformations, ignore: ignore.or(predicate), condition, allow_empty_should, configuration }
    }

    /// Ignores dependencies from the item named `origin` on the item named `target` as well.
    pub fn ignore_dependency(self, origin: &str, target: &str) -> (r: SliceRule)
        ensures
            r.wf() == self.wf(),
            forall|d: Dependency, items: Seq<RustItem>| #[trigger] r.ignore.holds(d, items) == (self.ignore.holds(d, items)
                || (resolve(items, d.origin).full_name == origin@ && resolve(items, d.target).full_name == target@)),
            r.transformer == self.transformer,
            r.condition == self.condition,
            r.transformations == self.transformations,
            r.priority == self.priority,
            r.allow_empty_should == self.allow_empty_should,
    {
        let predicate = crate::base::dependency_predicates::dependency(
            crate::base::predicates::full_name(origin),
            crate::base::predicates::full_name(target),
        );
        self.ignore_dependency_where(predicate)
    }

    /// The description.
    pub fn description(&self) -> (r: String)
        ensures
            r@ == self.description_text(),
    {
        let condition = match self.condition {
            SliceCondition::NotDependOnEachOther => "not depend on each other",
            SliceCondition::FreeOfCycles => "be free of cycles",
        };
        let mut d = cat3(self.transformer.description.as_str(), " should ", condition);
        let mut i: usize = 0;
        while i < self.transformations.len()
            invariant
                i <= self.transformations@.len(),
                d@ == transformed(self.transformer.description@ + " should "@ + condition_text(self.condition), self.transformations@.take(i as int)),
            decreases self.transformations@.len() - i,
        {
            proof {
                assert(self.transformations@.take(i + 1).drop_last() =~= self.transformations@.take(i as int));
                assert(self.transformations@.take(i + 1).last() == self.transformations@[i as int]);
            }
            d = match &self.transformations[i] {
                Transformation::As(x) => x.clone(),
                Transformation::Because(reason) => create_because_description(d.as_str(), reason.as_str()),
            };
            i += 1;
        }
        proof {
            assert(self.transformations@.take(self.transformations@.len() as int) =~= self.transformations@);
        }
        d
    }

    /// Evaluates the rule (`evaluate(..)`); a rule that finds no slices fails unless it is
    /// allowed to.
    pub fn evaluate(&self, items: &RustItems) -> (r: Result<EvaluationResult, String>)
        requires
            self.wf(),
        ensures
            self.evaluates_to(items.items@, match r {
                Ok(v) => Ok(v@),
                Err(e) => Err(e@),
            }),
    {
        let description = self.description();
        let slices = self.transformer.of(items);
        let allowed = match self.allow_empty_should {
            Some(b) => b,
            None => !self.configuration.fail_on_empty_should,
        };
        if slices.slices.len() == 0 && !allowed {
            return Err(empty_should_message(description.as_str()));
        }
        match self.condition {
            SliceCondition::NotDependOnEachOther => {
                let violations = not_depend_violations(&self.transformer, &self.ignore, items, &slices.slices);
                Ok(EvaluationResult { rule_description: description, violations, information: None, priority: self.priority })
            },
            SliceCondition::FreeOfCycles => {
                let (violations, information) = free_of_cycles(
                    &self.transformer.assignment,
                    &self.ignore,
                    items,
                    &slices.slices,
                    self.configuration.max_number_of_cycles_to_detect,
                    self.configuration.max_number_of_dependencies_per_edge,
                );
                Ok(EvaluationResult { rule_description: description, violations, information, priority: self.priority })
            },
        }
    }

    /// Evaluates the rule and fails with its report if it is violated, or with the failure of
    /// a rule that finds no slices (`check(..)`).
    pub fn check(&self, items: &RustItems) -> (r: Result<(), String>)
        requires
            self.wf(),
        ensures
            exists|v: Result<ResultView, Seq<char>>| #[trigger] self.evaluates_to(items.items@, v) && match v {
                Ok(result) => assertion_outcome(result, outcome_view(r)),
                Err(e) => r is Err && r->Err_0@ == e,
            },
    {
        let evaluated = self.evaluate(items);
        let ghost v = match &evaluated {
            Ok(x) => Ok(x@),
            Err(e) => Err(e@),
        };
        let r = match evaluated {
            Ok(result) => assert_no_violation(&result),
            Err(e) => Err(e),
        };
        proof {
            assert(self.evaluates_to(items.items@, v));
        }
        r
    }
}

/// Entry point for slice rules (`SlicesRuleDefinition`).
#[derive(Debug, Clone, Copy)]
pub struct SlicesRuleDefinition;

/// `SlicesRuleDefinition.Creator`.
#[derive(Debug, Clone, Copy)]
pub struct SlicesCreator;

impl SlicesRuleDefinition {
    /// The start of a rule about slices.
    pub fn slices() -> (r: SlicesCreator) {
        SlicesCreator
    }
}

/// The start of a rule about slices.
pub fn slices() -> (r: SlicesCreator) {
    SlicesCreator
}

/// Slices chosen, with the priority of the rule to come (`GivenSlices`).
#[derive(Debug)]
pub struct GivenSlices {
    /// The priority.
    pub priority: Priority,
    /// The slices.
    pub transformer: SlicesTransformer,
}

impl SlicesCreator {
    /// Slices by the capture groups of a package identifier (`matching(..)`), priority
    /// `MEDIUM`.
    pub fn matching(self, package_identifier: &str) -> (r: GivenSlices)
        ensures
            r.transformer.wf(),
            r.priority == Priority::Medium,
            r.transformer.assignment matches SliceAssignment::Matching(m) && m.identifier@ == package_identifier@,
            r.transformer.description@ == "slices matching "@ + crate::text::single_quoted(package_identifier@),
            r.transformer.naming_pattern is None,
    {
        self.matching_with_priority(package_identifier, Priority::Medium)
    }

    /// `matching(packageIdentifier, priority)`.
    pub fn matching_with_priority(self, package_identifier: &str, priority: Priority) -> (r: GivenSlices)
        ensures
            r.transformer.wf(),
            r.priority == priority,
            r.transformer.assignment matches SliceAssignment::Matching(m) && m.identifier@ == package_identifier@,
            r.transformer.description@ == "slices matching "@ + crate::text::single_quoted(package_identifier@),
            r.transformer.naming_pattern is None,
    {
        GivenSlices { priority, transformer: Slices::matching(package_identifier) }
    }

    /// Slices by an assignment, priority `MEDIUM`.
    pub fn assigned_from(self, assignment: SliceAssignment) -> (r: GivenSlices)
        requires
            assignment.wf(),
        ensures
            r.transformer.wf(),
            r.priority == Priority::Medium,
            r.transformer.assignment == assignment,
            r.transformer.description@ == "slices assigned from "@ + assignment.description_text(),
            r.transformer.naming_pattern is None,
    {
        self.assigned_from_with_priority(assignment, Priority::Medium)
    }

    /// Slices by `assignment`, with `priority`.
    pub fn assigned_from_with_priority(self, assignment: SliceAssignment, priority: Priority) -> (r: GivenSlices)
        requires
            assignment.wf(),
        ensures
            r.transformer.wf(),
            r.priority == priority,
            r.transformer.assignment == assignment,
            r.transformer.description@ == "slices assigned from "@ + assignment.description_text(),
            r.transformer.naming_pattern is None,
    {
        GivenSlices { priority, transformer: Slices::assigned_from(assignment) }
    }
}

impl GivenSlices {
    /// Describes the slices by `pattern`, e.g. `Layer $1`.
    pub fn naming_slices(self, pattern: &str) -> (r: GivenSlices)
        ensures
            r.priority == self.priority,
            r.transformer.assignment == self.transformer.assignment,
            r.transformer.description == self.transformer.description,
            opt_text(r.transformer.naming_pattern) == Some(pattern@),
    {
        GivenSlices { priority: self.priority, transformer: self.transformer.naming_slices(pattern) }
    }

    /// Overrides the description of the slices (`as(..)`).
    pub fn as_(self, description: &str) -> (r: GivenSlices)
        ensures
            r.priority == self.priority,
            r.transformer.assignment == self.transformer.assignment,
            r.transformer.description@ == description@,
            r.transformer.naming_pattern == self.transformer.naming_pattern,
    {
        GivenSlices { priority: self.priority, transformer: self.transformer.as_(description) }
    }

    /// `should()`.
    pub fn should(self) -> (r: SlicesShould)
        ensures
            r.priority == self.priority,
            r.transformer == self.transformer,
    {
        SlicesShould { priority: self.priority, transformer: self.transformer }
    }

    /// The slices of `items`.
    pub fn transform(&self, items: &RustItems) -> (r: Slices)
        requires
            self.transformer.wf(),
        ensures
            slice_views(r.slices@) == slices_of(self.transformer.assignment, item_views(items.items@), opt_text(self.transformer.naming_pattern)),
            r.description == self.transformer.description,
    {
        self.transformer.of(items)
    }
}

/// `SlicesShould`.
#[derive(Debug)]
pub struct SlicesShould {
    /// The priority.
    pub priority: Priority,
    /// The slices.
    pub transformer: SlicesTransformer,
}

impl SlicesShould {
    /// `be free of cycles`.
    pub fn be_free_of_cycles(self) -> (r: SliceRule)
        requires
            self.transformer.wf(),
        ensures
            r.wf(),
            r == (SliceRule {
                transformer: self.transformer,
                priority: self.priority,
                transformations: r.transformations,
                ignore: r.ignore,
                condition: SliceCondition::FreeOfCycles,
                allow_empty_should: None,
                configuration: r.configuration,
            }),
            r.configuration.is_default(),
            r.transformations@.len() == 0,
            r.ignore.test is AlwaysFalse,
    {
        SliceRule::new(self.transformer, self.priority, SliceCondition::FreeOfCycles)
    }

    /// `not depend on each other`.
    pub fn not_depend_on_each_other(self) -> (r: SliceRule)
        requires
            self.transformer.wf(),
        ensures
            r.wf(),
            r == (SliceRule {
                transformer: self.transformer,
                priority: self.priority,
                transformations: r.transformations,
                ignore: r.ignore,
                condition: SliceCondition::NotDependOnEachOther,
                allow_empty_should: None,
                configuration: r.configuration,
            }),
            r.configuration.is_default(),
            r.transformations@.len() == 0,
            r.ignore.test is AlwaysFalse,
    {
        SliceRule::new(self.transformer, self.priority, SliceCondition::NotDependOnEachOther)
    }
}


/// A slice dependency lists exactly the dependencies into the target slice: each listed
/// dependency is one of the given ones and has its target among the members of the target
/// slice, and each given dependency whose target is such a member is listed.
pub proof fn lemma_slice_dependency_into_target(t: SliceView, deps: Seq<Dependency>)
    ensures
        forall|k: int| 0 <= k < into_slice(t, deps).len()
            ==> t.members.contains((#[trigger] into_slice(t, deps)[k]).target.full_name@) && deps.contains(into_slice(t, deps)[k]),
        forall|j: int| 0 <= j < deps.len() && t.members.contains((#[trigger] deps[j]).target.full_name@)
            ==> into_slice(t, deps).contains(deps[j]),
        into_slice(t, deps).len() <= deps.len(),
    decreases deps.len(),
{
    if deps.len() > 0 {
        let rest = deps.drop_last();
        lemma_slice_dependency_into_target(t, rest);
        let r = into_slice(t, deps);
        let a = into_slice(t, rest);
        assert forall|k: int| 0 <= k < r.len() implies t.members.contains((#[trigger] r[k]).target.full_name@) && deps.contains(r[k]) by {
            if k < a.len() {
                assert(r[k] == a[k]);
                let j = choose|j: int| 0 <= j < rest.len() && rest[j] == a[k];
                assert(deps[j] == rest[j]);
            } else {
                assert(r[k] == deps.last());
                assert(deps[deps.len() - 1] == deps.last());
            }
        }
        assert forall|j: int| 0 <= j < deps.len() && t.members.contains((#[trigger] deps[j]).target.full_name@) implies r.contains(deps[j]) by {
            if j < rest.len() {
                assert(rest[j] == deps[j]);
                let k = choose|k: int| 0 <= k < a.len() && a[k] == rest[j];
                assert(r[k] == a[k]);
            } else {
                assert(deps[j] == deps.last());
                assert(r[r.len() - 1] == deps.last());
            }
        }
    }
}

} // verus!

