//! Architecture rules (`ArchRule`): what items a rule is about, the condition they should
//! satisfy, and the evaluation into a result.

use vstd::prelude::*;
use vstd::string::*;

use super::condition::{events_of_all, evaluated_events, items_described, names_of, ArchCondition};
use super::configuration::ArchConfiguration;
use super::evaluation::{failure_text, number_text, reports, EvaluationResult, ResultView};
use super::events::{face_lines, EventView, EventsView};
use crate::base::predicates::ItemPredicate;
use crate::domain::{same_item, ItemView, RustItem, RustItems};
use crate::order::sorted;
use crate::text::{cat3, views};

verus! {

/// The priority reported in the failure headline (`Priority`).
#[derive(Debug, Clone, Copy, PartialEq, Eq, Structural)]
pub enum Priority {
    /// `HIGH`
    High,
    /// `MEDIUM`, the default.
    Medium,
    /// `LOW`
    Low,
}

/// `HIGH`, `MEDIUM` or `LOW`.
pub open spec fn priority_text(p: Priority) -> Seq<char> {
    match p {
        Priority::High => "HIGH"@,
        Priority::Medium => "MEDIUM"@,
        Priority::Low => "LOW"@,
    }
}

impl Priority {
    /// `HIGH`, `MEDIUM` or `LOW`.
    pub fn as_string(self) -> (r: &'static str)
        ensures
            r@ == priority_text(self),
    {
        proof {
            reveal_strlit("HIGH");
            reveal_strlit("MEDIUM");
            reveal_strlit("LOW");
        }
        match self {
            Priority::High => "HIGH",
            Priority::Medium => "MEDIUM",
            Priority::Low => "LOW",
        }
    }
}

impl Default for Priority {
    /// `MEDIUM`.
    fn default() -> (r: Priority)
        ensures
            r == Priority::Medium,
    {
        Priority::Medium
    }
}

/// The items among `items` that satisfy `filter`, in order.
pub open spec fn selected(items: Seq<RustItem>, filter: ItemPredicate) -> Seq<RustItem>
    decreases items.len(),
{
    if items.len() == 0 {
        Seq::empty()
    } else {
        selected(items.drop_last(), filter) + if filter.holds(items.last()@) {
            seq![items.last()]
        } else {
            Seq::empty()
        }
    }
}

/// The items among `items` whose views satisfy `holds`, in order.
pub open spec fn selected_where(items: Seq<RustItem>, holds: spec_fn(ItemView) -> bool) -> Seq<RustItem>
    decreases items.len(),
{
    if items.len() == 0 {
        Seq::empty()
    } else {
        selected_where(items.drop_last(), holds) + if holds(items.last()@) {
            seq![items.last()]
        } else {
            Seq::empty()
        }
    }
}

/// The imported items a rule is about (`ClassesTransformer`): those satisfying a filter.
#[derive(Debug)]
pub struct ClassesTransformer {
    /// The description, e.g. `classes`.
    pub description: String,
    /// What an item must satisfy to be checked.
    pub filter: ItemPredicate,
}

impl ClassesTransformer {
    /// The items satisfying `filter`, described as `description`.
    pub fn new(description: &str, filter: ItemPredicate) -> (r: ClassesTransformer)
        ensures
            r.description@ == description@,
            r.filter == filter,
    {
        ClassesTransformer { description: String::from_str(description), filter }
    }

    /// The items the rule is about (`transform(..)`).
    pub fn transform(&self, items: &RustItems) -> (r: Vec<RustItem>)
        requires
            self.filter.wf(),
        ensures
            r@.len() == selected_where(items.items@, |x: ItemView| self.filter.holds(x)).len(),
            forall|i: int| 0 <= i < r@.len() ==> same_item(#[trigger] r@[i], selected_where(items.items@, |x: ItemView| self.filter.holds(x))[i]),
    {
        let ghost f = |x: ItemView| self.filter.holds(x);
        let mut r: Vec<RustItem> = Vec::new();
        let mut i: usize = 0;
        while i < items.items.len()
            invariant
                i <= items.items@.len(),
                self.filter.wf(),
                f == (|x: ItemView| self.filter.holds(x)),
                r@.len() == selected_where(items.items@.take(i as int), f).len(),
                forall|j: int| 0 <= j < r@.len() ==> same_item(#[trigger] r@[j], selected_where(items.items@.take(i as int), f)[j]),
            decreases items.items@.len() - i,
        {
            proof {
                assert(items.items@.take(i + 1).drop_last() =~= items.items@.take(i as int));
            }
            if self.filter.test(&items.items[i]) {
                r.push(items.items[i].copy());
            }
            i += 1;
        }
        proof {
            assert(items.items@.take(items.items@.len() as int) =~= items.items@);
        }
        r
    }

    /// The description.
    pub fn description(&self) -> (r: &str)
        ensures
            r@ == self.description@,
    {
        self.description.as_str()
    }

    /// Only the items that also satisfy `predicate`; described as `<description> that
    /// <predicate>`.
    pub fn that(&self, predicate: ItemPredicate) -> (r: ClassesTransformer)
        ensures
            r.description@ == self.description@ + " that "@ + predicate.description@,
            self.filter.wf() && predicate.wf() ==> r.filter.wf(),
            forall|x: ItemView| #[trigger] r.filter.holds(x) == (self.filter.holds(x) && predicate.holds(x)),
    {
        let description = cat3(self.description.as_str(), " that ", predicate.description.as_str());
        let c = self.filter.copy();
        let ghost p = predicate;
        let filter = c.and(predicate);
        proof {
            assert forall|x: ItemView| #[trigger] filter.holds(x) == (self.filter.holds(x) && p.holds(x)) by {
                assert(filter.holds(x) == (c.holds(x) && p.holds(x)));
            }
        }
        ClassesTransformer { description, filter }
    }

    /// The same items under another description (`as(..)`).
    pub fn as_(&self, description: &str) -> (r: ClassesTransformer)
        ensures
            r.description@ == description@,
            self.filter.wf() ==> r.filter.wf(),
            forall|x: ItemView| #[trigger] r.filter.holds(x) == self.filter.holds(x),
    {
        ClassesTransformer { description: String::from_str(description), filter: self.filter.copy() }
    }
}

/// `<description>, because <reason>`.
pub open spec fn because_text(description: Seq<char>, reason: Seq<char>) -> Seq<char> {
    description + ", because "@ + reason
}

/// `<description>, because <reason>`.
pub fn create_because_description(description: &str, reason: &str) -> (r: String)
    ensures
        r@ == because_text(description@, reason@),
{
    cat3(description, ", because ", reason)
}

/// What a rule that checked no items at all fails with.
pub open spec fn empty_should_text(description: Seq<char>) -> Seq<char> {
    "Rule '"@ + description + "' failed to check any classes. This means either that no classes have been passed to the rule at all, or that no classes passed to the rule matched the `that()` clause. To allow rules being evaluated without checking any classes you can either use `ArchRule::allow_empty_should(true)` on a single rule or set the configuration property `archRule.failOnEmptyShould = false` to change the behavior globally."@
}

pub(crate) fn empty_should_message(description: &str) -> (r: String)
    ensures
        r@ == empty_should_text(description@),
{
    cat3("Rule '", description, "' failed to check any classes. This means either that no classes have been passed to the rule at all, or that no classes passed to the rule matched the `that()` clause. To allow rules being evaluated without checking any classes you can either use `ArchRule::allow_empty_should(true)` on a single rule or set the configuration property `archRule.failOnEmptyShould = false` to change the behavior globally.")
}

/// The rule made of a transformer, a condition and a priority (`SimpleArchRule`).
#[derive(Debug)]
pub struct SimpleArchRule {
    /// The priority.
    pub priority: Priority,
    /// The items the rule is about.
    pub transformer: ClassesTransformer,
    /// What they should satisfy.
    pub condition: ArchCondition,
    /// A description that replaces the generated one.
    pub overridden_description: Option<String>,
    /// Whether the rule may check no items at all; by default it may not.
    pub allow_empty_should: Option<bool>,
    /// Whether the rule fails on checking no item where it does not say otherwise (the
    /// configured `fail_on_empty_should`, by default `true`).
    pub fail_on_empty_should: bool,
}

impl SimpleArchRule {
    /// Whether the rule may check no item: as it says itself, or else as configured.
    pub open spec fn allows_empty(&self) -> bool {
        match self.allow_empty_should {
            Some(b) => b,
            None => !self.fail_on_empty_should,
        }
    }

    /// The rule's description: the overriding one, or `<items> should <condition>`.
    pub open spec fn description_text(&self) -> Seq<char> {
        match self.overridden_description {
            Some(d) => d@,
            None => self.transformer.description@ + " should "@ + self.condition.description@,
        }
    }

    /// The transformer and condition are well formed.
    pub open spec fn wf(&self) -> bool {
        self.transformer.filter.wf() && self.condition.wf()
    }

    /// What evaluating the rule gives: the violations of the condition on the selected items,
    /// or the failure of a rule that checked no item without being allowed to.
    pub open spec fn evaluation(&self, items: Seq<RustItem>) -> Result<ResultView, Seq<char>> {
        let objects = selected(items, self.transformer.filter);
        if objects.len() == 0 && !self.allows_empty() {
            Err(empty_should_text(self.description_text()))
        } else {
            let events = EventsView::empty().added_all(evaluated_events(self.condition, objects, items));
            Ok(ResultView {
                rule_description: self.description_text(),
                violations: events.violating,
                information: events.information,
                priority: self.priority,
            })
        }
    }

    /// The rule checking that the items of `transformer` satisfy `condition`
    /// (`ArchRule.Factory.create(..)`).
    pub fn create(transformer: ClassesTransformer, condition: ArchCondition, priority: Priority) -> (r: SimpleArchRule)
        ensures
            r.transformer == transformer,
            r.condition == condition,
            r.priority == priority,
            r.overridden_description is None,
            r.allow_empty_should is None,
            r.fail_on_empty_should,
    {
        SimpleArchRule { priority, transformer, condition, overridden_description: None, allow_empty_should: None, fail_on_empty_should: true }
    }

    /// The rule reading `configuration`: whether it fails on checking no item, where it does
    /// not say so itself.
    pub fn configured(self, configuration: &ArchConfiguration) -> (r: SimpleArchRule)
        ensures
            r == (SimpleArchRule { fail_on_empty_should: configuration.fail_on_empty_should, ..self }),
    {
        SimpleArchRule { fail_on_empty_should: configuration.fail_on_empty_should, ..self }
    }

    /// The same rule under another description (`as(..)`).
    pub fn as_(self, description: &str) -> (r: SimpleArchRule)
        ensures
            r.description_text() == description@,
            r.wf() == self.wf(),
            r == (SimpleArchRule { overridden_description: r.overridden_description, ..self }),
    {
        SimpleArchRule { overridden_description: Some(String::from_str(description)), ..self }
    }

    /// The same rule with `, because <reason>` appended to the description (`because(..)`).
    pub fn because(self, reason: &str) -> (r: SimpleArchRule)
        ensures
            r.description_text() == because_text(self.description_text(), reason@),
            r.wf() == self.wf(),
            r == (SimpleArchRule { overridden_description: r.overridden_description, ..self }),
    {
        let description = create_because_description(self.description().as_str(), reason);
        self.as_(description.as_str())
    }

    /// Whether the rule may check no items at all.
    pub fn allow_empty_should(self, allow_empty_should: bool) -> (r: SimpleArchRule)
        ensures
            r == (SimpleArchRule { allow_empty_should: Some(allow_empty_should), ..self }),
    {
        SimpleArchRule { allow_empty_should: Some(allow_empty_should), ..self }
    }

    /// The rule's description.
    pub fn description(&self) -> (r: String)
        ensures
            r@ == self.description_text(),
    {
        match &self.overridden_description {
            Some(d) => d.clone(),
            None => cat3(self.transformer.description.as_str(), " should ", self.condition.description.as_str()),
        }
    }

    /// The priority.
    pub fn priority(&self) -> (r: Priority)
        ensures
            r == self.priority,
    {
        self.priority
    }

    /// Evaluates the rule (`evaluate(..)`); a rule that checked no item fails unless it is
    /// allowed to.
    pub fn evaluate(&self, items: &RustItems) -> (r: Result<EvaluationResult, String>)
        requires
            self.wf(),
            items_described(items.items@),
        ensures
            match (r, self.evaluation(items.items@)) {
                (Ok(v), Ok(w)) => v@ == w,
                (Err(e), Err(f)) => e@ == f,
                _ => false,
            },
    {
        let description = self.description();
        let mut scope: Vec<String> = Vec::new();
        let mut i: usize = 0;
        while i < items.items.len()
            invariant
                i <= items.items@.len(),
                self.wf(),
                views(scope@) == names_of(selected(items.items@.take(i as int), self.transformer.filter)),
            decreases items.items@.len() - i,
        {
            proof {
                assert(items.items@.take(i + 1).drop_last() =~= items.items@.take(i as int));
            }
            if self.transformer.filter.test(&items.items[i]) {
                let ghost before = scope@;
                scope.push(items.items[i].full_name.clone());
                proof {
                    let sel = selected(items.items@.take(i as int), self.transformer.filter);
                    assert(selected(items.items@.take(i + 1), self.transformer.filter) == sel.push(items.items@[i as int]));
                    assert(views(scope@) =~= views(before).push(items.items@[i as int].full_name@));
                    assert(names_of(sel.push(items.items@[i as int])) =~= names_of(sel).push(items.items@[i as int].full_name@));
                }
            } else {
                proof {
                    assert(selected(items.items@.take(i + 1), self.transformer.filter) =~= selected(items.items@.take(i as int), self.transformer.filter));
                }
            }
            i += 1;
        }
        proof {
            assert(items.items@.take(items.items@.len() as int) =~= items.items@);
        }
        let ghost sc = views(scope@);
        let ghost all = selected(items.items@, self.transformer.filter);
        let mut events = super::events::ConditionEvents::new();
        let mut count: usize = 0;
        let mut i: usize = 0;
        while i < items.items.len()
            invariant
                i <= items.items@.len(),
                count <= i,
                self.wf(),
                items_described(items.items@),
                sc == views(scope@),
                sc == names_of(all),
                all == selected(items.items@, self.transformer.filter),
                count == selected(items.items@.take(i as int), self.transformer.filter).len(),
                events@ == EventsView::empty().added_all(events_of_all(self.condition, selected(items.items@.take(i as int), self.transformer.filter), items.items@, sc)),
            decreases items.items@.len() - i,
        {
            proof {
                assert(items.items@.take(i + 1).drop_last() =~= items.items@.take(i as int));
            }
            if self.transformer.filter.test(&items.items[i]) {
                let ghost before = selected(items.items@.take(i as int), self.transformer.filter);
                proof {
                    assert(crate::lang::condition::item_described(items.items@[i as int]));
                    assert(selected(items.items@.take(i + 1), self.transformer.filter) == before.push(items.items@[i as int]));
                    assert(before.push(items.items@[i as int]).drop_last() =~= before);
                    crate::lang::condition::lemma_added_all_concat(
                        EventsView::empty(),
                        events_of_all(self.condition, before, items.items@, sc),
                        self.condition.events_of(items.items@[i as int], items.items@, sc),
                    );
                }
                self.condition.check_in(&items.items[i], items, &scope, &mut events);
                count = count + 1;
            } else {
                proof {
                    assert(selected(items.items@.take(i + 1), self.transformer.filter) =~= selected(items.items@.take(i as int), self.transformer.filter));
                }
            }
            i += 1;
        }
        proof {
            assert(items.items@.take(items.items@.len() as int) =~= items.items@);
            crate::lang::condition::lemma_added_all_concat(
                EventsView::empty(),
                events_of_all(self.condition, all, items.items@, sc),
                self.condition.finish_events(sc),
            );
        }
        self.condition.finish_in(&scope, &mut events);
        let allowed = match self.allow_empty_should {
            Some(b) => b,
            None => !self.fail_on_empty_should,
        };
        if count == 0 && !allowed {
            return Err(empty_should_message(description.as_str()));
        }
        let no_patterns: Vec<String> = Vec::new();
        proof {
            assert(views(no_patterns@) =~= Seq::<Seq<char>>::empty());
        }
        Ok(EvaluationResult::new(description.as_str(), events, self.priority, &no_patterns))
    }
}

/// An architecture rule (`ArchRule`).
#[derive(Debug)]
pub enum ArchRule {
    /// Items of a transformer that should satisfy a condition.
    Simple(SimpleArchRule),
    /// Several rules evaluated together.
    Composite(CompositeArchRule),
    /// A rule under another description.
    Described(Box<ArchRule>, String),
}

/// Several rules evaluated together; violations are reported under a joined description
/// (`CompositeArchRule`).
#[derive(Debug)]
pub struct CompositeArchRule {
    /// The priority of the joint result.
    pub priority: Priority,
    /// The rules, in order.
    pub rules: Vec<ArchRule>,
    /// The description.
    pub description: String,
}

/// All rules are well formed.
pub open spec fn rules_wf(rules: Seq<ArchRule>) -> bool
    decreases rules,
{
    if rules.len() == 0 {
        true
    } else {
        rules_wf(rules.drop_last()) && rules.last().wf()
    }
}

/// The results of `rules` added one after the other to `start`; the first failure stops.
pub open spec fn joint_evaluation(rules: Seq<ArchRule>, items: Seq<RustItem>, start: ResultView) -> Result<ResultView, Seq<char>>
    decreases rules,
{
    if rules.len() == 0 {
        Ok(start)
    } else {
        match joint_evaluation(rules.drop_last(), items, start) {
            Ok(v) => match rules.last().evaluation(items) {
                Ok(w) => Ok(ResultView { violations: v.violations + w.violations, ..v }),
                Err(e) => Err(e),
            },
            Err(e) => Err(e),
        }
    }
}

/// `new` is `old` with `allow_empty_should(b)` applied to every simple rule inside it; all
/// else stays.
pub open spec fn allows_empty_as(new: ArchRule, old: ArchRule, b: bool) -> bool
    decreases old,
{
    match old {
        ArchRule::Simple(o) => new == ArchRule::Simple(SimpleArchRule { allow_empty_should: Some(b), ..o }),
        ArchRule::Composite(o) => match new {
            ArchRule::Composite(n) => n.priority == o.priority && n.description == o.description
                && rules_allow_empty_as(n.rules@, o.rules@, b),
            _ => false,
        },
        ArchRule::Described(inner, d) => match new {
            ArchRule::Described(n_inner, e) => e == d && allows_empty_as(*n_inner, *inner, b),
            _ => false,
        },
    }
}

/// `new` is `old` with every simple rule inside it reading the fail-on-empty setting `f`;
/// all else stays.
pub open spec fn configured_as(new: ArchRule, old: ArchRule, f: bool) -> bool
    decreases old,
{
    match old {
        ArchRule::Simple(o) => new == ArchRule::Simple(SimpleArchRule { fail_on_empty_should: f, ..o }),
        ArchRule::Composite(o) => match new {
            ArchRule::Composite(n) => n.priority == o.priority && n.description == o.description
                && rules_configured_as(n.rules@, o.rules@, f),
            _ => false,
        },
        ArchRule::Described(inner, d) => match new {
            ArchRule::Described(n_inner, e) => e == d && configured_as(*n_inner, *inner, f),
            _ => false,
        },
    }
}

/// `new` holds the rules of `old`, one for one, each reading the fail-on-empty setting `f`.
pub open spec fn rules_configured_as(new: Seq<ArchRule>, old: Seq<ArchRule>, f: bool) -> bool
    decreases old,
{
    if old.len() == 0 {
        new.len() == 0
    } else {
        &&& new.len() == old.len()
        &&& rules_configured_as(new.drop_last(), old.drop_last(), f)
        &&& configured_as(new.last(), old.last(), f)
    }
}

/// Rules each configured with `f` at the same positions are so configured alike.
proof fn lemma_rules_configured_pointwise(a: Seq<ArchRule>, b: Seq<ArchRule>, f: bool)
    requires
        a.len() == b.len(),
        forall|j: int| 0 <= j < a.len() ==> configured_as(#[trigger] a[j], b[j], f),
    ensures
        rules_configured_as(a, b, f),
    decreases a.len(),
{
    if a.len() > 0 {
        lemma_rules_configured_pointwise(a.drop_last(), b.drop_last(), f);
        assert(configured_as(a[a.len() - 1], b[b.len() - 1], f));
    }
}

/// `new` holds the rules of `old`, one for one, each with `allow_empty_should(b)` applied.
pub open spec fn rules_allow_empty_as(new: Seq<ArchRule>, old: Seq<ArchRule>, b: bool) -> bool
    decreases old,
{
    if old.len() == 0 {
        new.len() == 0
    } else {
        &&& new.len() == old.len()
        &&& rules_allow_empty_as(new.drop_last(), old.drop_last(), b)
        &&& allows_empty_as(new.last(), old.last(), b)
    }
}

impl ArchRule {
    /// Every part is well formed.
    pub open spec fn wf(self) -> bool
        decreases self,
    {
        match self {
            ArchRule::Simple(r) => r.wf(),
            ArchRule::Composite(c) => rules_wf(c.rules@),
            ArchRule::Described(inner, _) => inner.wf(),
        }
    }

    /// The description of the rule.
    pub open spec fn description_text(self) -> Seq<char> {
        match self {
            ArchRule::Simple(r) => r.description_text(),
            ArchRule::Composite(c) => c.description@,
            ArchRule::Described(_, d) => d@,
        }
    }

    /// What evaluating the rule gives.
    pub open spec fn evaluation(self, items: Seq<RustItem>) -> Result<ResultView, Seq<char>>
        decreases self,
    {
        match self {
            ArchRule::Simple(r) => r.evaluation(items),
            ArchRule::Composite(c) => joint_evaluation(
                c.rules@,
                items,
                ResultView { rule_description: c.description@, violations: Seq::empty(), information: None, priority: c.priority },
            ),
            ArchRule::Described(inner, d) => match inner.evaluation(items) {
                Ok(v) => Ok(ResultView { rule_description: d@, violations: v.violations, information: None, priority: v.priority }),
                Err(e) => Err(e),
            },
        }
    }

    /// The description.
    pub fn description(&self) -> (r: String)
        ensures
            r@ == self.description_text(),
    {
        match self {
            ArchRule::Simple(r) => r.description(),
            ArchRule::Composite(c) => c.description.clone(),
            ArchRule::Described(_, d) => d.clone(),
        }
    }

    /// The rule with `, because <reason>` appended to its description (`because(..)`).
    pub fn because(self, reason: &str) -> (r: ArchRule)
        ensures
            r == ArchRule::Described(Box::new(self), r->Described_1),
            r.description_text() == because_text(self.description_text(), reason@),
            r.wf() == self.wf(),
    {
        let description = create_because_description(self.description().as_str(), reason);
        ArchRule::Described(Box::new(self), description)
    }

    /// The rule under another description (`as(..)`).
    pub fn as_(self, description: &str) -> (r: ArchRule)
        ensures
            r == ArchRule::Described(Box::new(self), r->Described_1),
            r.description_text() == description@,
            r.wf() == self.wf(),
    {
        ArchRule::Described(Box::new(self), String::from_str(description))
    }

    /// Whether the rule, or each rule inside, may check no items at all.
    pub fn allow_empty_should(self, allow_empty_should: bool) -> (r: ArchRule)
        ensures
            allows_empty_as(r, self, allow_empty_should),
            r.wf() == self.wf(),
            r.description_text() == self.description_text(),
        decreases self,
    {
        match self {
            ArchRule::Simple(r) => ArchRule::Simple(r.allow_empty_should(allow_empty_should)),
            ArchRule::Composite(c) => ArchRule::Composite(c.allow_empty_should(allow_empty_should)),
            ArchRule::Described(inner, d) => ArchRule::Described(Box::new(inner.allow_empty_should(allow_empty_should)), d),
        }
    }

    /// The rule, or each rule inside, reading `configuration`.
    pub fn configured(self, configuration: &ArchConfiguration) -> (r: ArchRule)
        ensures
            configured_as(r, self, configuration.fail_on_empty_should),
            r.wf() == self.wf(),
            r.description_text() == self.description_text(),
        decreases self,
    {
        match self {
            ArchRule::Simple(r) => ArchRule::Simple(r.configured(configuration)),
            ArchRule::Composite(c) => ArchRule::Composite(c.configured(configuration)),
            ArchRule::Described(inner, d) => ArchRule::Described(Box::new(inner.configured(configuration)), d),
        }
    }

    /// Evaluates the rule (`evaluate(..)`).
    pub fn evaluate(&self, items: &RustItems) -> (r: Result<EvaluationResult, String>)
        requires
            self.wf(),
            items_described(items.items@),
        ensures
            match (r, self.evaluation(items.items@)) {
                (Ok(v), Ok(w)) => v@ == w,
                (Err(e), Err(f)) => e@ == f,
                _ => false,
            },
        decreases self,
    {
        match self {
            ArchRule::Simple(r) => r.evaluate(items),
            ArchRule::Composite(c) => {
                let mut result = EvaluationResult::empty(c.description.as_str(), c.priority);
                let ghost start = result@;
                let mut i: usize = 0;
                while i < c.rules.len()
                    invariant
                        i <= c.rules@.len(),
                        *self is Composite,
                        self->Composite_0 == *c,
                        start == (ResultView { rule_description: c.description@, violations: Seq::empty(), information: None, priority: c.priority }),
                        rules_wf(c.rules@),
                        items_described(items.items@),
                        joint_evaluation(c.rules@.take(i as int), items.items@, start) == Ok::<ResultView, Seq<char>>(result@),
                    decreases c.rules@.len() - i,
                {
                    proof {
                        lemma_rules_wf(c.rules@, i as int);
                        assert(c.rules@.take(i + 1).drop_last() =~= c.rules@.take(i as int));
                        assert(decreases_to!(*self => self->Composite_0));
                        assert(decreases_to!(*c => c.rules));
                        assert(decreases_to!(c.rules => c.rules@));
                        assert(decreases_to!(c.rules@ => c.rules@[i as int]));
                    }
                    match c.rules[i].evaluate(items) {
                        Ok(part) => {
                            result.add(part);
                        },
                        Err(e) => {
                            proof {
                                lemma_joint_evaluation_fails(c.rules@, i as int, items.items@, start);
                            }
                            return Err(e);
                        },
                    }
                    i += 1;
                }
                proof {
                    assert(c.rules@.take(c.rules@.len() as int) =~= c.rules@);
                }
                Ok(result)
            },
            ArchRule::Described(inner, d) => {
                match inner.evaluate(items) {
                    Ok(part) => {
                        let mut result = EvaluationResult::empty(d.as_str(), part.priority);
                        result.add(part);
                        Ok(result)
                    },
                    Err(e) => Err(e),
                }
            },
        }
    }
}

proof fn lemma_rules_wf(rules: Seq<ArchRule>, i: int)
    requires
        rules_wf(rules),
        0 <= i < rules.len(),
    ensures
        rules[i].wf(),
    decreases rules.len(),
{
    if i < rules.len() - 1 {
        lemma_rules_wf(rules.drop_last(), i);
    }
}

/// Once a rule fails, the joint evaluation of all rules fails the same way.
proof fn lemma_joint_evaluation_fails(rules: Seq<ArchRule>, i: int, items: Seq<RustItem>, start: ResultView)
    requires
        0 <= i < rules.len(),
        joint_evaluation(rules.take(i), items, start) is Ok,
        rules[i].evaluation(items) is Err,
    ensures
        joint_evaluation(rules, items, start) == Err::<ResultView, Seq<char>>(rules[i].evaluation(items)->Err_0),
    decreases rules.len(),
{
    if i == rules.len() - 1 {
        assert(rules.drop_last() =~= rules.take(i));
    } else {
        assert(rules.drop_last().take(i) =~= rules.take(i));
        lemma_joint_evaluation_fails(rules.drop_last(), i, items, start);
    }
}

impl CompositeArchRule {
    /// The composite of `rule` alone, with medium priority.
    pub fn of(rule: ArchRule) -> (r: CompositeArchRule)
        ensures
            r.priority == Priority::Medium,
            r.rules@ == seq![rule],
            r.description@ == rule.description_text(),
    {
        CompositeArchRule::priority(Priority::Medium).of(rule)
    }

    /// The composite of `rules`: the rules in order, described as their descriptions
    /// joined by ` and `.
    pub fn of_all(rules: Vec<ArchRule>) -> (r: CompositeArchRule)
        requires
            rules@.len() > 0,
        ensures
            r.priority == Priority::Medium,
            r.rules@ == rules@,
            r.description@ == crate::text::join_seq(rules@.map_values(|x: ArchRule| x.description_text()), " and "@),
    {
        let mut rules = rules;
        let ghost all = rules@;
        let mut rest = rules.split_off(1);
        let ghost tail = rest@;
        let count = rest.len();
        assert(tail.len() == count);
        let first = rules.pop().unwrap();
        proof {
            assert(all =~= seq![first] + tail);
        }
        let mut composite = CompositeArchRule::of(first);
        let mut k: usize = 0;
        let ghost texts = all.map_values(|x: ArchRule| x.description_text());
        proof {
            assert(composite.description@ == crate::text::join_seq(texts.take(1), " and "@)) by {
                assert(texts.take(1) =~= seq![first.description_text()]);
            }
            assert(composite.rules@ =~= all.take(1));
        }
        while rest.len() > 0
            invariant
                tail.len() <= usize::MAX,
                k + rest@.len() == tail.len(),
                rest@ == tail.skip(k as int),
                composite.priority == Priority::Medium,
                composite.rules@ == all.take(k + 1),
                composite.description@ == crate::text::join_seq(texts.take(k + 1), " and "@),
                texts == all.map_values(|x: ArchRule| x.description_text()),
                all == seq![first] + tail,
            decreases rest@.len(),
        {
            let rule = rest.remove(0);
            proof {
                assert(rule == tail[k as int]);
                assert(rule == all[k + 1]);
                assert(texts.take(k + 2).drop_last() =~= texts.take(k + 1));
                assert(all.take(k + 2) =~= all.take(k + 1).push(rule));
            }
            composite = composite.and(rule);
            k += 1;
            proof {
                assert(rest@ =~= tail.skip(k as int));
            }
        }
        proof {
            assert(all.take(all.len() as int) =~= all);
            assert(texts.take(texts.len() as int) =~= texts);
        }
        composite
    }

    /// A creator of composite rules with that priority.
    pub fn priority(priority: Priority) -> (r: CompositeCreator)
        ensures
            r.priority == priority,
    {
        CompositeCreator { priority }
    }

    /// Adds a rule; the description becomes `<a> and <b>` (`and(..)`).
    pub fn and(self, rule: ArchRule) -> (r: CompositeArchRule)
        ensures
            r.priority == self.priority,
            r.rules@ == self.rules@.push(rule),
            r.description@ == self.description@ + " and "@ + rule.description_text(),
    {
        let description = cat3(self.description.as_str(), " and ", rule.description().as_str());
        let mut rules = self.rules;
        rules.push(rule);
        CompositeArchRule { priority: self.priority, rules, description }
    }

    /// The rule with `, because <reason>` appended to its description (`because(..)`).
    pub fn because(self, reason: &str) -> (r: CompositeArchRule)
        ensures
            r.priority == self.priority,
            r.rules == self.rules,
            r.description@ == because_text(self.description@, reason@),
    {
        let description = create_because_description(self.description.as_str(), reason);
        CompositeArchRule { description, ..self }
    }

    /// The rule under another description (`as(..)`).
    pub fn as_(self, description: &str) -> (r: CompositeArchRule)
        ensures
            r.priority == self.priority,
            r.rules == self.rules,
            r.description@ == description@,
    {
        CompositeArchRule { description: String::from_str(description), ..self }
    }

    /// Applies `allow_empty_should(..)` to every contained rule.
    pub fn allow_empty_should(self, allow_empty_should: bool) -> (r: CompositeArchRule)
        ensures
            r.priority == self.priority,
            r.description == self.description,
            r.rules@.len() == self.rules@.len(),
            rules_allow_empty_as(r.rules@, self.rules@, allow_empty_should),
            rules_wf(r.rules@) == rules_wf(self.rules@),
        decreases self,
    {
        let ghost old_rules = self.rules@;
        let mut rest = self.rules;
        let mut rules: Vec<ArchRule> = Vec::new();
        while rest.len() > 0
            invariant
                old_rules == self.rules@,
                rules@.len() + rest@.len() == old_rules.len(),
                rest@ == old_rules.skip(rules@.len() as int),
                forall|j: int| 0 <= j < rules@.len() ==> (#[trigger] rules@[j]).wf() == old_rules[j].wf(),
                forall|j: int| 0 <= j < rules@.len() ==> allows_empty_as(#[trigger] rules@[j], old_rules[j], allow_empty_should),
            decreases rest@.len(),
        {
            let rule = rest.remove(0);
            proof {
                assert(rule == old_rules[rules@.len() as int]);
                assert(decreases_to!(self => self.rules));
                assert(decreases_to!(self.rules => self.rules@));
                assert(decreases_to!(self.rules@ => self.rules@[rules@.len() as int]));
            }
            rules.push(rule.allow_empty_should(allow_empty_should));
            proof {
                assert(rest@ =~= old_rules.skip(rules@.len() as int));
            }
        }
        proof {
            lemma_rules_wf_pointwise(rules@, old_rules);
            lemma_rules_allow_empty_pointwise(rules@, old_rules, allow_empty_should);
        }
        CompositeArchRule { priority: self.priority, rules, description: self.description }
    }

    /// Every contained rule reading `configuration`.
    pub fn configured(self, configuration: &ArchConfiguration) -> (r: CompositeArchRule)
        ensures
            r.priority == self.priority,
            r.description == self.description,
            r.rules@.len() == self.rules@.len(),
            rules_configured_as(r.rules@, self.rules@, configuration.fail_on_empty_should),
            rules_wf(r.rules@) == rules_wf(self.rules@),
        decreases self,
    {
        let ghost old_rules = self.rules@;
        let mut rest = self.rules;
        let mut rules: Vec<ArchRule> = Vec::new();
        while rest.len() > 0
            invariant
                old_rules == self.rules@,
                rules@.len() + rest@.len() == old_rules.len(),
                rest@ == old_rules.skip(rules@.len() as int),
                forall|j: int| 0 <= j < rules@.len() ==> (#[trigger] rules@[j]).wf() == old_rules[j].wf(),
                forall|j: int| 0 <= j < rules@.len() ==> configured_as(#[trigger] rules@[j], old_rules[j], configuration.fail_on_empty_should),
            decreases rest@.len(),
        {
            let rule = rest.remove(0);
            proof {
                assert(rule == old_rules[rules@.len() as int]);
                assert(decreases_to!(self => self.rules));
                assert(decreases_to!(self.rules => self.rules@));
                assert(decreases_to!(self.rules@ => self.rules@[rules@.len() as int]));
            }
            rules.push(rule.configured(configuration));
            proof {
                assert(rest@ =~= old_rules.skip(rules@.len() as int));
            }
        }
        proof {
            lemma_rules_wf_pointwise(rules@, old_rules);
            lemma_rules_configured_pointwise(rules@, old_rules, configuration.fail_on_empty_should);
        }
        CompositeArchRule { priority: self.priority, rules, description: self.description }
    }

    /// The description.
    pub fn description(&self) -> (r: String)
        ensures
            r@ == self.description@,
    {
        self.description.clone()
    }
}

/// Rules that are well formed at the same positions are well formed alike.
proof fn lemma_rules_wf_pointwise(a: Seq<ArchRule>, b: Seq<ArchRule>)
    requires
        a.len() == b.len(),
        forall|j: int| 0 <= j < a.len() ==> (#[trigger] a[j]).wf() == b[j].wf(),
    ensures
        rules_wf(a) == rules_wf(b),
    decreases a.len(),
{
    if a.len() > 0 {
        lemma_rules_wf_pointwise(a.drop_last(), b.drop_last());
    }
}

/// Rules each changed by `allow_empty_should(b)` at the same positions are so changed alike.
proof fn lemma_rules_allow_empty_pointwise(a: Seq<ArchRule>, b: Seq<ArchRule>, flag: bool)
    requires
        a.len() == b.len(),
        forall|j: int| 0 <= j < a.len() ==> allows_empty_as(#[trigger] a[j], b[j], flag),
    ensures
        rules_allow_empty_as(a, b, flag),
    decreases a.len(),
{
    if a.len() > 0 {
        lemma_rules_allow_empty_pointwise(a.drop_last(), b.drop_last(), flag);
        assert(allows_empty_as(a[a.len() - 1], b[b.len() - 1], flag));
    }
}

/// Creates composite rules of one priority.
#[derive(Debug, Clone, Copy)]
pub struct CompositeCreator {
    /// The priority.
    pub priority: Priority,
}

impl CompositeCreator {
    /// The composite of `rule` alone, described as it is (`of(rule)`).
    pub fn of(self, rule: ArchRule) -> (r: CompositeArchRule)
        ensures
            r.priority == self.priority,
            r.rules@ == seq![rule],
            r.description@ == rule.description_text(),
    {
        let description = rule.description();
        let mut rules: Vec<ArchRule> = Vec::new();
        rules.push(rule);
        proof {
            assert(rules@ =~= seq![rule]);
        }
        CompositeArchRule { priority: self.priority, rules, description }
    }
}

/// The outcome of checking a result: fine when the report has no lines, else the report's
/// text.
pub open spec fn assertion_outcome(result: ResultView, outcome: Result<(), Seq<char>>) -> bool {
    if face_lines(result.violations).len() == 0 {
        outcome is Ok
    } else {
        exists|lines: Seq<Seq<char>>| {
            &&& sorted(lines)
            &&& lines.to_multiset() == face_lines(result.violations).to_multiset()
            &&& outcome == Err::<(), Seq<char>>(failure_text(result.rule_description, lines, number_text(lines.len(), result.information), result.priority))
        }
    }
}

/// The view of a check's outcome.
pub open spec fn outcome_view(r: Result<(), String>) -> Result<(), Seq<char>> {
    match r {
        Ok(()) => Ok(()),
        Err(e) => Err(e@),
    }
}

/// Fails with the failure report if `result` has violation lines.
pub fn assert_no_violation(result: &EvaluationResult) -> (r: Result<(), String>)
    ensures
        assertion_outcome(result@, outcome_view(r)),
{
    let report = result.failure_report();
    if report.is_empty() {
        proof {
            vstd::seq_lib::to_multiset_len(report@.failures);
            vstd::seq_lib::to_multiset_len(face_lines(result@.violations));
        }
        Ok(())
    } else {
        let text = report.text();
        proof {
            vstd::seq_lib::to_multiset_len(report@.failures);
            vstd::seq_lib::to_multiset_len(face_lines(result@.violations));
            assert(report@.failures.len() == report.messages.failures@.len());
        }
        Err(text)
    }
}

/// Evaluates `rule` and fails with its report if it is violated, or with the failure of a
/// rule that checked no item (`ArchRule.Assertions.check(..)`).
pub fn check(rule: &ArchRule, items: &RustItems) -> (r: Result<(), String>)
    requires
        rule.wf(),
        items_described(items.items@),
    ensures
        match rule.evaluation(items.items@) {
            Ok(v) => assertion_outcome(v, outcome_view(r)),
            Err(e) => r == Err::<(), String>(r->Err_0) && r->Err_0@ == e,
        },
{
    match rule.evaluate(items) {
        Ok(result) => assert_no_violation(&result),
        Err(e) => Err(e),
    }
}

} // verus!
