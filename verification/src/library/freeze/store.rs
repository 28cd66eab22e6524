//! Stores for the violations of frozen rules, and the frozen rule itself.

use vstd::prelude::*;
use vstd::string::*;

use super::{camel_case, camel_from, categorize_from, solved_of, CategorizedViolations, LineMatcher};
use crate::lang::condition::items_described;
use crate::lang::evaluation::{filtered_violations, kept_lines, lemma_filtered_lines, number_text, EvaluationResult, LineSelection, ResultView};
use crate::lang::events::face_lines;
use crate::lang::rule::ArchRule;
use crate::domain::RustItems;
use crate::order::sorted;
use crate::text::{cat3, ensure_unix_line_breaks, str_eq, trim_str, trimmed, unix_line_breaks, views};

verus! {

/// What can go wrong with a violation store (`FreezeError`).
#[derive(Debug)]
pub enum FreezeError {
    /// The store could not be set up.
    StoreInitializationFailed(String),
    /// The store could not be read.
    StoreRead(String),
    /// The store could not be updated.
    StoreUpdateFailed(String),
}

/// The violations stored last under `description`, if any.
pub open spec fn rules_lookup(rules: Seq<(String, Vec<String>)>, description: Seq<char>) -> Option<Seq<Seq<char>>>
    decreases rules.len(),
{
    if rules.len() == 0 {
        None
    } else if rules.last().0@ == description {
        Some(views(rules.last().1@))
    } else {
        rules_lookup(rules.drop_last(), description)
    }
}

/// A violation store that keeps everything in memory (`InMemoryViolationStore`).
#[derive(Debug)]
pub struct InMemoryViolationStore {
    /// The stored violations by rule description, each description once.
    pub rules: Vec<(String, Vec<String>)>,
    /// The properties the store was initialized with.
    pub properties: Vec<(String, String)>,
}

/// The rules without those described as `description`.
proof fn lemma_lookup_without(rules: Seq<(String, Vec<String>)>, kept: Seq<(String, Vec<String>)>, description: Seq<char>)
    requires
        kept == without(rules, description),
    ensures
        forall|k: Seq<char>| #[trigger] rules_lookup(kept, k) == if k == description { None } else { rules_lookup(rules, k) },
    decreases rules.len(),
{
    if rules.len() > 0 {
        let rest = without(rules.drop_last(), description);
        lemma_lookup_without(rules.drop_last(), rest, description);
        assert forall|k: Seq<char>| #[trigger] rules_lookup(kept, k) == if k == description { None } else { rules_lookup(rules, k) } by {
            if rules.last().0@ == description {
                assert(kept =~= rest);
            } else {
                assert(kept.drop_last() =~= rest);
                assert(kept.last() == rules.last());
            }
        }
    } else {
        assert(kept =~= Seq::<(String, Vec<String>)>::empty());
    }
}

/// The rules not described as `description`, in order.
pub open spec fn without(rules: Seq<(String, Vec<String>)>, description: Seq<char>) -> Seq<(String, Vec<String>)>
    decreases rules.len(),
{
    if rules.len() == 0 {
        Seq::empty()
    } else {
        without(rules.drop_last(), description) + if rules.last().0@ == description { Seq::empty() } else { seq![rules.last()] }
    }
}

impl InMemoryViolationStore {
    /// An empty store.
    pub fn new() -> (r: InMemoryViolationStore)
        ensures
            r.rules@.len() == 0,
            r.properties@.len() == 0,
    {
        InMemoryViolationStore { rules: Vec::new(), properties: Vec::new() }
    }

    /// The properties the store was initialized with.
    pub fn properties(&self) -> (r: &Vec<(String, String)>)
        ensures
            r@ == self.properties@,
    {
        &self.properties
    }

    /// The stored violations by rule description.
    pub fn stored_rules(&self) -> (r: &Vec<(String, Vec<String>)>)
        ensures
            r@ == self.rules@,
    {
        &self.rules
    }

    /// Takes over `properties` (`initialize(..)`).
    pub fn initialize(&mut self, properties: Vec<(String, String)>) -> (r: Result<(), FreezeError>)
        ensures
            r is Ok,
            final(self).properties@ == properties@,
            final(self).rules == old(self).rules,
    {
        self.properties = properties;
        Ok(())
    }

    /// Whether violations are stored for the rule described as `description`.
    pub fn contains(&self, description: &str) -> (r: bool)
        ensures
            r == (rules_lookup(self.rules@, description@) is Some),
    {
        let mut i: usize = self.rules.len();
        proof {
            assert(self.rules@.take(i as int) =~= self.rules@);
        }
        while i > 0
            invariant
                i <= self.rules@.len(),
                rules_lookup(self.rules@, description@) == rules_lookup(self.rules@.take(i as int), description@),
            decreases i,
        {
            proof {
                assert(self.rules@.take(i - 1) =~= self.rules@.take(i as int).drop_last());
            }
            if str_eq(self.rules[i - 1].0.as_str(), description) {
                return true;
            }
            i -= 1;
        }
        proof {
            assert(self.rules@.take(0).len() == 0);
        }
        false
    }

    /// Stores `violations` for the rule described as `description`, replacing what was
    /// stored for it (`save(..)`).
    pub fn save(&mut self, description: &str, violations: Vec<String>) -> (r: Result<(), FreezeError>)
        ensures
            r is Ok,
            forall|k: Seq<char>| #[trigger] rules_lookup(final(self).rules@, k) == if k == description@ {
                Some(views(violations@))
            } else {
                rules_lookup(old(self).rules@, k)
            },
            final(self).properties == old(self).properties,
    {
        let mut kept: Vec<(String, Vec<String>)> = Vec::new();
        let mut old_rules: Vec<(String, Vec<String>)> = Vec::new();
        std::mem::swap(&mut old_rules, &mut self.rules);
        let ghost all = old_rules@;
        let count = old_rules.len();
        let mut i: usize = 0;
        proof {
            assert(kept@ =~= without(all.take(0), description@));
        }
        while old_rules.len() > 0
            invariant
                all.len() == count,
                i <= all.len(),
                i + old_rules@.len() == all.len(),
                old_rules@ == all.skip(i as int),
                kept@ == without(all.take(i as int), description@),
            decreases old_rules@.len(),
        {
            let entry = old_rules.remove(0);
            proof {
                assert(entry == all[i as int]);
                assert(all.take(i + 1).drop_last() =~= all.take(i as int));
                assert(all.take(i + 1).last() == all[i as int]);
            }
            if !str_eq(entry.0.as_str(), description) {
                kept.push(entry);
            } else {
                proof {
                    assert(kept@ =~= kept@ + Seq::<(String, Vec<String>)>::empty());
                }
            }
            i += 1;
            proof {
                assert(old_rules@ =~= all.skip(i as int));
            }
        }
        proof {
            assert(all.take(i as int) =~= all);
            lemma_lookup_without(all, kept@, description@);
        }
        let ghost before = kept@;
        let ghost vs = violations@;
        kept.push((String::from_str(description), violations));
        proof {
            assert(kept@.drop_last() =~= before);
            assert forall|k: Seq<char>| #[trigger] rules_lookup(kept@, k) == if k == description@ {
                Some(views(vs))
            } else {
                rules_lookup(all, k)
            } by {
                assert(kept@.last().0@ == description@);
                assert(rules_lookup(before, k) == if k == description@ { None } else { rules_lookup(all, k) });
            }
        }
        self.rules = kept;
        Ok(())
    }

    /// The violations stored for the rule described as `description`, or an error if there
    /// are none (`violations(..)`).
    pub fn violations(&self, description: &str) -> (r: Result<Vec<String>, FreezeError>)
        ensures
            match rules_lookup(self.rules@, description@) {
                Some(v) => r matches Ok(w) && views(w@) == v,
                None => r matches Err(FreezeError::StoreRead(m)) && m@ == "No rule stored with description '"@ + description@ + "'"@,
            },
    {
        let mut i: usize = self.rules.len();
        proof {
            assert(self.rules@.take(i as int) =~= self.rules@);
        }
        while i > 0
            invariant
                i <= self.rules@.len(),
                rules_lookup(self.rules@, description@) == rules_lookup(self.rules@.take(i as int), description@),
            decreases i,
        {
            proof {
                assert(self.rules@.take(i - 1) =~= self.rules@.take(i as int).drop_last());
                assert(self.rules@.take(i as int).last() == self.rules@[i - 1]);
            }
            if str_eq(self.rules[i - 1].0.as_str(), description) {
                return Ok(self.rules[i - 1].1.clone());
            }
            i -= 1;
        }
        proof {
            assert(self.rules@.take(0).len() == 0);
        }
        Err(FreezeError::StoreRead(cat3("No rule stored with description '", description, "'")))
    }
}

/// The lines with `\\n` line breaks.
pub open spec fn unix_all(lines: Seq<Seq<char>>) -> Seq<Seq<char>> {
    lines.map_values(|l: Seq<char>| unix_line_breaks(l))
}

fn unix_lines(lines: &Vec<String>) -> (r: Vec<String>)
    ensures
        views(r@) == unix_all(views(lines@)),
{
    let mut r: Vec<String> = Vec::new();
    let mut i: usize = 0;
    while i < lines.len()
        invariant
            i <= lines@.len(),
            views(r@) == unix_all(views(lines@.take(i as int))),
        decreases lines@.len() - i,
    {
        let ghost before = views(r@);
        r.push(ensure_unix_line_breaks(lines[i].as_str()));
        proof {
            assert(views(r@) =~= before.push(unix_line_breaks(lines@[i as int]@)));
            assert(unix_all(views(lines@.take(i + 1))) =~= unix_all(views(lines@.take(i as int))).push(unix_line_breaks(lines@[i as int]@)));
        }
        i += 1;
    }
    proof {
        assert(lines@.take(lines@.len() as int) =~= lines@);
    }
    r
}

/// A rule that fails only on violations not recorded before (`FreezingArchRule`): the
/// first evaluation records the violations; later ones report only new violations and
/// forget recorded ones that are gone.
#[derive(Debug)]
pub struct FreezingArchRule {
    /// The frozen rule.
    pub delegate: ArchRule,
    /// Where violations are recorded.
    pub store: InMemoryViolationStore,
    /// How current lines are associated with recorded ones.
    pub matcher: LineMatcher,
    /// Whether to record the current violations again, whatever was recorded
    /// (`freeze.refreeze`).
    pub refreeze: bool,
    /// The properties the store is initialized with before each evaluation (the
    /// `freeze.store.*` properties, keys without that prefix).
    pub store_properties: Vec<(String, String)>,
}

/// A copy of `properties`.
fn copy_properties(properties: &Vec<(String, String)>) -> (r: Vec<(String, String)>)
    ensures
        r@.len() == properties@.len(),
        forall|i: int| 0 <= i < r@.len() ==> (#[trigger] r@[i]).0@ == properties@[i].0@ && r@[i].1@ == properties@[i].1@,
{
    let mut r: Vec<(String, String)> = Vec::new();
    let mut i: usize = 0;
    while i < properties.len()
        invariant
            i <= properties@.len(),
            r@.len() == i,
            forall|j: int| 0 <= j < i ==> (#[trigger] r@[j]).0@ == properties@[j].0@ && r@[j].1@ == properties@[j].1@,
        decreases properties@.len() - i,
    {
        let (k, v) = &properties[i];
        r.push((k.clone(), v.clone()));
        i += 1;
    }
    r
}

/// Freezes `rule` in a new in-memory store, matching lines fuzzily.
pub fn freeze(rule: ArchRule) -> (r: FreezingArchRule)
    ensures
        r.delegate == rule,
        r.store.rules@.len() == 0,
        r.matcher == LineMatcher::Fuzzy,
        !r.refreeze,
        r.store_properties@.len() == 0,
{
    FreezingArchRule::freeze(rule)
}

/// What evaluating a frozen rule gives and records: the evaluation of the delegate, or its
/// failure; on first evaluation (or refreezing) an empty result with the current lines
/// recorded; later, only the violations whose lines are not associated with recorded ones,
/// the recorded lines that are gone being dropped from the store.
pub open spec fn frozen_outcome(
    rule: FreezingArchRule,
    items: Seq<crate::domain::RustItem>,
    result: Result<ResultView, Seq<char>>,
    stored_after: spec_fn(Seq<char>) -> Option<Seq<Seq<char>>>,
) -> bool {
    let description = rule.delegate.description_text();
    match rule.delegate.evaluation(items) {
        Err(e) => result == Err::<ResultView, Seq<char>>(e) && forall|k: Seq<char>| #[trigger] stored_after(k) == rules_lookup(rule.store.rules@, k),
        Ok(v) => exists|lines: Seq<Seq<char>>| {
            &&& sorted(lines)
            &&& lines.to_multiset() == face_lines(v.violations).to_multiset()
            &&& if rules_lookup(rule.store.rules@, description) is None || rule.refreeze {
                &&& result == Ok::<ResultView, Seq<char>>(ResultView { rule_description: description, violations: Seq::empty(), information: None, priority: v.priority })
                &&& forall|k: Seq<char>| #[trigger] stored_after(k) == if k == description { Some(unix_all(lines)) } else { rules_lookup(rule.store.rules@, k) }
            } else {
                let known = unix_all(rules_lookup(rule.store.rules@, description)->Some_0);
                let c = categorize_from(rule.matcher, unix_all(lines), 0, known, Seq::empty(), Seq::empty());
                &&& result == Ok::<ResultView, Seq<char>>(ResultView { violations: filtered_violations(v.violations, LineSelection::NotAmong(c.1)), information: None, ..v })
                &&& forall|k: Seq<char>| #[trigger] stored_after(k) == if k == description && solved_of(known, c.2).len() > 0 { Some(c.2) } else { rules_lookup(rule.store.rules@, k) }
            }
        },
    }
}

/// The view of an evaluation's outcome.
pub open spec fn evaluation_view(r: Result<EvaluationResult, String>) -> Result<ResultView, Seq<char>> {
    match r {
        Ok(v) => Ok(v@),
        Err(e) => Err(e@),
    }
}

/// What checking a frozen rule gives: the outcome of its evaluation, failed with the failure
/// report where violations remain, and the store as that evaluation leaves it.
pub open spec fn frozen_check_outcome(
    rule: FreezingArchRule,
    items: Seq<crate::domain::RustItem>,
    outcome: Result<(), Seq<char>>,
    stored_after: spec_fn(Seq<char>) -> Option<Seq<Seq<char>>>,
) -> bool {
    exists|o: Result<ResultView, Seq<char>>| {
        &&& #[trigger] frozen_outcome(rule, items, o, stored_after)
        &&& match o {
            Ok(v) => crate::lang::rule::assertion_outcome(v, outcome),
            Err(e) => outcome == Err::<(), Seq<char>>(e),
        }
    }
}

/// The first evaluation of a frozen rule (nothing recorded under its description yet), or one
/// that refreezes, reports no violation under the rule's description and records the lines of
/// the delegate's report, in the report's order with `\n` line breaks; nothing else recorded
/// changes.
pub proof fn lemma_frozen_first_evaluation(
    rule: FreezingArchRule,
    items: Seq<crate::domain::RustItem>,
    result: Result<ResultView, Seq<char>>,
    stored_after: spec_fn(Seq<char>) -> Option<Seq<Seq<char>>>,
)
    requires
        frozen_outcome(rule, items, result, stored_after),
        rule.delegate.evaluation(items) is Ok,
        rules_lookup(rule.store.rules@, rule.delegate.description_text()) is None || rule.refreeze,
    ensures
        ({
            let d = rule.delegate.description_text();
            let v = rule.delegate.evaluation(items)->Ok_0;
            &&& result == Ok::<ResultView, Seq<char>>(ResultView { rule_description: d, violations: Seq::empty(), information: None, priority: v.priority })
            &&& exists|lines: Seq<Seq<char>>| #[trigger] sorted(lines) && lines.to_multiset() == face_lines(v.violations).to_multiset()
                && stored_after(d) == Some(unix_all(lines))
            &&& forall|k: Seq<char>| k != d ==> #[trigger] stored_after(k) == rules_lookup(rule.store.rules@, k)
        }),
{
    let d = rule.delegate.description_text();
    let v = rule.delegate.evaluation(items)->Ok_0;
    let lines = choose|lines: Seq<Seq<char>>| {
        &&& sorted(lines)
        &&& lines.to_multiset() == face_lines(v.violations).to_multiset()
        &&& result == Ok::<ResultView, Seq<char>>(ResultView { rule_description: d, violations: Seq::empty(), information: None, priority: v.priority })
        &&& forall|k: Seq<char>| #[trigger] stored_after(k) == if k == d { Some(unix_all(lines)) } else { rules_lookup(rule.store.rules@, k) }
    };
    assert(stored_after(d) == Some(unix_all(lines)));
}

/// Checking a frozen rule whose violations were recorded before, without refreezing: each
/// current line (of the delegate's report, with `\n` line breaks) is paired with the first
/// recorded line left that the matcher associates with it. The check fails exactly when some
/// violation line is not paired, and then reports those lines (sorted) as the violations; the
/// recorded lines are replaced by the paired ones exactly when some recorded line found no
/// partner, and nothing else recorded changes.
pub proof fn lemma_frozen_check(
    rule: FreezingArchRule,
    items: Seq<crate::domain::RustItem>,
    outcome: Result<(), Seq<char>>,
    stored_after: spec_fn(Seq<char>) -> Option<Seq<Seq<char>>>,
)
    requires
        frozen_check_outcome(rule, items, outcome, stored_after),
        rule.delegate.evaluation(items) is Ok,
        forall|i: int| 0 <= i < rule.delegate.evaluation(items)->Ok_0.violations.len()
            ==> (#[trigger] rule.delegate.evaluation(items)->Ok_0.violations[i]).face.violation,
        rules_lookup(rule.store.rules@, rule.delegate.description_text()) is Some,
        !rule.refreeze,
    ensures
        ({
            let d = rule.delegate.description_text();
            let v = rule.delegate.evaluation(items)->Ok_0;
            let known = unix_all(rules_lookup(rule.store.rules@, d)->Some_0);
            exists|lines: Seq<Seq<char>>| {
                let c = categorize_from(rule.matcher, unix_all(lines), 0, known, Seq::empty(), Seq::empty());
                let new_lines = kept_lines(face_lines(v.violations), LineSelection::NotAmong(c.1));
                &&& #[trigger] sorted(lines)
                &&& lines.to_multiset() == face_lines(v.violations).to_multiset()
                &&& (outcome is Ok <==> new_lines.len() == 0)
                &&& new_lines.len() > 0 ==> exists|report: Seq<Seq<char>>| {
                    &&& #[trigger] sorted(report)
                    &&& report.to_multiset() == new_lines.to_multiset()
                    &&& outcome == Err::<(), Seq<char>>(crate::lang::evaluation::failure_text(v.rule_description, report, number_text(report.len(), None), v.priority))
                }
                &&& forall|k: Seq<char>| #[trigger] stored_after(k) == if k == d && solved_of(known, c.2).len() > 0 { Some(c.2) } else { rules_lookup(rule.store.rules@, k) }
            }
        }),
{
    let d = rule.delegate.description_text();
    let v = rule.delegate.evaluation(items)->Ok_0;
    let known = unix_all(rules_lookup(rule.store.rules@, d)->Some_0);
    let o = choose|o: Result<ResultView, Seq<char>>| {
        &&& #[trigger] frozen_outcome(rule, items, o, stored_after)
        &&& match o {
            Ok(w) => crate::lang::rule::assertion_outcome(w, outcome),
            Err(e) => outcome == Err::<(), Seq<char>>(e),
        }
    };
    let lines = choose|lines: Seq<Seq<char>>| {
        let c = categorize_from(rule.matcher, unix_all(lines), 0, known, Seq::empty(), Seq::empty());
        &&& #[trigger] sorted(lines)
        &&& lines.to_multiset() == face_lines(v.violations).to_multiset()
        &&& o == Ok::<ResultView, Seq<char>>(ResultView { violations: filtered_violations(v.violations, LineSelection::NotAmong(c.1)), information: None, ..v })
        &&& forall|k: Seq<char>| #[trigger] stored_after(k) == if k == d && solved_of(known, c.2).len() > 0 { Some(c.2) } else { rules_lookup(rule.store.rules@, k) }
    };
    let c = categorize_from(rule.matcher, unix_all(lines), 0, known, Seq::empty(), Seq::empty());
    lemma_filtered_lines(v.violations, LineSelection::NotAmong(c.1));
    let w = o->Ok_0;
    assert(face_lines(w.violations) == kept_lines(face_lines(v.violations), LineSelection::NotAmong(c.1)));
}

/// The lines in an optional list.
pub open spec fn opt_lines(o: Option<Vec<String>>) -> Option<Seq<Seq<char>>> {
    match o {
        Some(v) => Some(views(v@)),
        None => None,
    }
}

/// One step of a frozen rule with the delegate's report lines `lines` (sorted): with nothing
/// `stored` (nothing recorded, or refreezing), an empty result and the current lines, with
/// `\n` line breaks, to record; else only the violations whose lines are not associated with
/// stored ones, and the stored lines still violated to record where some stored line is gone.
pub open spec fn step_with(
    v: ResultView,
    description: Seq<char>,
    stored: Option<Seq<Seq<char>>>,
    matcher: LineMatcher,
    result: ResultView,
    save: Option<Seq<Seq<char>>>,
    lines: Seq<Seq<char>>,
) -> bool {
    &&& lines.to_multiset() == face_lines(v.violations).to_multiset()
    &&& match stored {
        None => result == (ResultView { rule_description: description, violations: Seq::empty(), information: None, priority: v.priority })
            && save == Some(unix_all(lines)),
        Some(st) => {
            let known = unix_all(st);
            let c = categorize_from(matcher, unix_all(lines), 0, known, Seq::empty(), Seq::empty());
            &&& result == (ResultView { violations: filtered_violations(v.violations, LineSelection::NotAmong(c.1)), information: None, ..v })
            &&& save == if solved_of(known, c.2).len() > 0 { Some(c.2) } else { None }
        },
    }
}

/// What a frozen rule reports and records, given the evaluation `result` of its delegate
/// described as `description` and the lines `stored` for it (`None` where nothing was
/// recorded or the rule refreezes): the result to report, and the lines to record, if any.
pub fn frozen_step(result: &EvaluationResult, description: &str, stored: Option<Vec<String>>, matcher: LineMatcher) -> (r: (EvaluationResult, Option<Vec<String>>))
    ensures
        exists|lines: Seq<Seq<char>>| #[trigger] sorted(lines) && step_with(result@, description@, opt_lines(stored), matcher, r.0@, opt_lines(r.1), lines),
{
    let report = result.failure_report();
    let actual = unix_lines(&report.messages.failures);
    let ghost lines = report@.failures;
    match stored {
        None => {
            let empty = EvaluationResult::empty(description, result.priority);
            let r = (empty, Some(actual));
            proof {
                assert(sorted(lines) && step_with(result@, description@, opt_lines(stored), matcher, r.0@, opt_lines(r.1), lines));
            }
            r
        },
        Some(st) => {
            let known = unix_lines(&st);
            let categorized = CategorizedViolations::new(matcher, &actual, &known);
            let filtered = result.filter_descriptions_matching(&categorized.known_actual);
            let save = if categorized.stored_solved.len() > 0 { Some(categorized.stored_unsolved) } else { None };
            let r = (filtered, save);
            proof {
                assert(sorted(lines) && step_with(result@, description@, opt_lines(stored), matcher, r.0@, opt_lines(r.1), lines));
            }
            r
        },
    }
}

impl FreezingArchRule {
    /// Freezes `rule` in a new in-memory store, matching lines fuzzily (`freeze(..)`).
    pub fn freeze(rule: ArchRule) -> (r: FreezingArchRule)
        ensures
            r.delegate == rule,
            r.store.rules@.len() == 0,
            r.matcher == LineMatcher::Fuzzy,
            !r.refreeze,
            r.store_properties@.len() == 0,
    {
        FreezingArchRule { delegate: rule, store: InMemoryViolationStore::new(), matcher: LineMatcher::Fuzzy, refreeze: false, store_properties: Vec::new() }
    }

    /// The frozen rule reading the configured values: the `freeze.store.*` properties (keys
    /// without that prefix) that the store is initialized with, and the value of
    /// `freeze.refreeze`, which refreezes where it reads `true` once trimmed.
    pub fn configured(self, store_properties: Vec<(String, String)>, refreeze: &str) -> (r: FreezingArchRule)
        ensures
            r == (FreezingArchRule { store_properties, refreeze: trimmed(refreeze@) == "true"@, ..self }),
    {
        let t = trim_str(refreeze);
        let refreeze = str_eq(t.as_str(), "true");
        proof {
            reveal_strlit("true");
        }
        FreezingArchRule { store_properties, refreeze, ..self }
    }

    /// Records violations in `store`.
    pub fn persist_in(self, store: InMemoryViolationStore) -> (r: FreezingArchRule)
        ensures
            r == (FreezingArchRule { store, ..self }),
    {
        FreezingArchRule { store, ..self }
    }

    /// Associates lines with `matcher`.
    pub fn associate_violation_lines_via(self, matcher: LineMatcher) -> (r: FreezingArchRule)
        ensures
            r == (FreezingArchRule { matcher, ..self }),
    {
        FreezingArchRule { matcher, ..self }
    }

    /// The frozen rule with `, because <reason>` appended to its description.
    pub fn because(self, reason: &str) -> (r: FreezingArchRule)
        ensures
            r.delegate.description_text() == crate::lang::rule::because_text(self.delegate.description_text(), reason@),
            r.delegate.wf() == self.delegate.wf(),
            r.store == self.store,
            r.matcher == self.matcher,
            r.refreeze == self.refreeze,
    {
        FreezingArchRule { delegate: self.delegate.because(reason), ..self }
    }

    /// The frozen rule under another description.
    pub fn as_(self, description: &str) -> (r: FreezingArchRule)
        ensures
            r.delegate.description_text() == description@,
            r.delegate.wf() == self.delegate.wf(),
            r.store == self.store,
            r.matcher == self.matcher,
            r.refreeze == self.refreeze,
    {
        FreezingArchRule { delegate: self.delegate.as_(description), ..self }
    }

    /// Whether the frozen rule may check no items at all.
    pub fn allow_empty_should(self, allow_empty_should: bool) -> (r: FreezingArchRule)
        ensures
            r.delegate.description_text() == self.delegate.description_text(),
            r.delegate.wf() == self.delegate.wf(),
            r.store == self.store,
            r.matcher == self.matcher,
            r.refreeze == self.refreeze,
    {
        FreezingArchRule { delegate: self.delegate.allow_empty_should(allow_empty_should), ..self }
    }

    /// The description of the frozen rule.
    pub fn description(&self) -> (r: String)
        ensures
            r@ == self.delegate.description_text(),
    {
        self.delegate.description()
    }

    /// Evaluates the frozen rule, recording or forgetting violations (`evaluate(..)`).
    pub fn evaluate(&mut self, items: &RustItems) -> (r: Result<EvaluationResult, String>)
        requires
            old(self).delegate.wf(),
            items_described(items.items@),
        ensures
            frozen_outcome(
                *old(self),
                items.items@,
                match r {
                    Ok(v) => Ok(v@),
                    Err(e) => Err(e@),
                },
                |k: Seq<char>| rules_lookup(final(self).store.rules@, k),
            ),
            final(self).delegate == old(self).delegate,
            final(self).store.properties@.len() == old(self).store_properties@.len(),
            forall|i: int| 0 <= i < old(self).store_properties@.len()
                ==> (#[trigger] final(self).store.properties@[i]).0@ == old(self).store_properties@[i].0@
                && final(self).store.properties@[i].1@ == old(self).store_properties@[i].1@,
    {
        let properties = copy_properties(&self.store_properties);
        let _ = self.store.initialize(properties);
        let description = self.delegate.description();
        let result = match self.delegate.evaluate(items) {
            Ok(v) => v,
            Err(e) => {
                proof {
                    assert((|k: Seq<char>| rules_lookup(self.store.rules@, k)) =~= (|k: Seq<char>| rules_lookup(old(self).store.rules@, k)));
                }
                return Err(e);
            },
        };
        let stored = if !self.store.contains(description.as_str()) || self.refreeze {
            None
        } else {
            match self.store.violations(description.as_str()) {
                Ok(v) => Some(v),
                Err(_) => Some(Vec::new()),
            }
        };
        let ghost d = description@;
        let ghost v = result@;
        let ghost known_before = opt_lines(stored);
        assert(known_before == if rules_lookup(old(self).store.rules@, d) is None || old(self).refreeze { None } else { rules_lookup(old(self).store.rules@, d) });
        let (reported, save) = frozen_step(&result, description.as_str(), stored, self.matcher);
        let ghost before = self.store.rules@;
        let ghost saved = opt_lines(save);
        match save {
            Some(lines) => {
                let _ = self.store.save(description.as_str(), lines);
            },
            None => {},
        }
        proof {
            assert((|k: Seq<char>| rules_lookup(self.store.rules@, k)) =~= (|k: Seq<char>| if k == d && saved is Some { saved } else { rules_lookup(before, k) }));
            let lines = choose|lines: Seq<Seq<char>>| #[trigger] sorted(lines) && step_with(v, d, known_before, self.matcher, reported@, saved, lines);
            assert(sorted(lines) && step_with(v, d, known_before, self.matcher, reported@, saved, lines));
            assert(old(self).delegate.evaluation(items.items@) == Ok::<ResultView, Seq<char>>(v));
            assert(d == old(self).delegate.description_text());
            if known_before is Some {
                let known = unix_all(rules_lookup(old(self).store.rules@, d)->Some_0);
                let c = categorize_from(self.matcher, unix_all(lines), 0, known, Seq::empty(), Seq::empty());
                assert((|k: Seq<char>| rules_lookup(self.store.rules@, k)) == (|k: Seq<char>| if k == d && solved_of(known, c.2).len() > 0 { Some(c.2) } else { rules_lookup(old(self).store.rules@, k) }));
            } else {
                assert((|k: Seq<char>| rules_lookup(self.store.rules@, k)) == (|k: Seq<char>| if k == d { Some(unix_all(lines)) } else { rules_lookup(old(self).store.rules@, k) }));
            }
        }
        Ok(reported)
    }

    /// Evaluates the frozen rule and fails with the report of new violations (`check(..)`).
    pub fn check(&mut self, items: &RustItems) -> (r: Result<(), String>)
        requires
            old(self).delegate.wf(),
            items_described(items.items@),
        ensures
            frozen_check_outcome(
                *old(self),
                items.items@,
                crate::lang::rule::outcome_view(r),
                |k: Seq<char>| rules_lookup(final(self).store.rules@, k),
            ),
            final(self).delegate == old(self).delegate,
    {
        let ghost start = *self;
        let evaluated = self.evaluate(items);
        let ghost o = evaluation_view(evaluated);
        let r = match evaluated {
            Ok(result) => crate::lang::rule::assert_no_violation(&result),
            Err(e) => Err(e),
        };
        proof {
            assert(frozen_outcome(start, items.items@, o, |k: Seq<char>| rules_lookup(self.store.rules@, k)));
        }
        r
    }
}

// ---- settings of text-file stores -----------------------------------------------------------

/// The value of the first property with the key `key`.
pub open spec fn property_value(props: Seq<(String, String)>, key: Seq<char>) -> Option<Seq<char>>
    decreases props.len(),
{
    if props.len() == 0 {
        None
    } else if props[0].0@ == key {
        Some(props[0].1@)
    } else {
        property_value(props.drop_first(), key)
    }
}

/// The store property `name`, or else the one under its camel-case spelling.
pub open spec fn store_property(props: Seq<(String, String)>, name: Seq<char>) -> Option<Seq<char>> {
    match property_value(props, name) {
        Some(v) => Some(v),
        None => property_value(props, camel_from(name, 0, false, Seq::empty())),
    }
}

/// A property value reads as `true` (white space around it ignored).
pub open spec fn is_true(v: Seq<char>) -> bool {
    trimmed(v) == "true"@
}

/// How a store that keeps its violations in text files is set up.
#[derive(Debug)]
pub struct StoreSettings {
    /// Whether a missing store may be created (`default.allow_store_creation`, off unless
    /// `true`).
    pub creation_allowed: bool,
    /// Whether stored violations may be replaced (`default.allow_store_update`, on unless set
    /// to something other than `true`).
    pub update_allowed: bool,
    /// The folder of the store (`default.path`, else `archunit_store`).
    pub folder: String,
}

/// The value of the first property with the key `key`.
pub fn property_of(props: &Vec<(String, String)>, key: &str) -> (r: Option<String>)
    ensures
        r.deep_view() == property_value(props@, key@),
{
    let mut i: usize = 0;
    proof {
        assert(props@.skip(0) =~= props@);
    }
    while i < props.len()
        invariant
            i <= props@.len(),
            property_value(props@, key@) == property_value(props@.skip(i as int), key@),
        decreases props@.len() - i,
    {
        proof {
            assert(props@.skip(i as int)[0] == props@[i as int]);
            assert(props@.skip(i as int).drop_first() =~= props@.skip(i + 1));
        }
        if str_eq(props[i].0.as_str(), key) {
            return Some(props[i].1.clone());
        }
        i += 1;
    }
    proof {
        assert(props@.skip(i as int).len() == 0);
    }
    None
}

/// The store property `name`, or else the one under its camel-case spelling.
fn store_property_of(props: &Vec<(String, String)>, name: &str) -> (r: Option<String>)
    ensures
        r.deep_view() == store_property(props@, name@),
{
    match property_of(props, name) {
        Some(v) => Some(v),
        None => {
            let camel = camel_case(name);
            property_of(props, camel.as_str())
        },
    }
}

/// Whether the value reads as `true`.
fn true_text(v: &str) -> (r: bool)
    ensures
        r == is_true(v@),
{
    let t = trim_str(v);
    proof {
        reveal_strlit("true");
    }
    str_eq(t.as_str(), "true")
}

/// The settings the store properties (keys without the `freeze.store.` prefix) give.
pub fn store_settings(properties: &Vec<(String, String)>) -> (r: StoreSettings)
    ensures
        r.creation_allowed == match store_property(properties@, "default.allow_store_creation"@) {
            Some(v) => is_true(v),
            None => false,
        },
        r.update_allowed == match store_property(properties@, "default.allow_store_update"@) {
            Some(v) => is_true(v),
            None => true,
        },
        r.folder@ == match store_property(properties@, "default.path"@) {
            Some(v) => v,
            None => "archunit_store"@,
        },
{
    let creation_allowed = match store_property_of(properties, "default.allow_store_creation") {
        Some(v) => true_text(v.as_str()),
        None => false,
    };
    let update_allowed = match store_property_of(properties, "default.allow_store_update") {
        Some(v) => true_text(v.as_str()),
        None => true,
    };
    let folder = match store_property_of(properties, "default.path") {
        Some(v) => v,
        None => String::from_str("archunit_store"),
    };
    StoreSettings { creation_allowed, update_allowed, folder }
}

/// Why a store with these settings cannot be set up, if it cannot: its rules file does not
/// exist and creating it is not allowed.
pub fn initialization_problem(settings: &StoreSettings, rules_file_exists: bool) -> (r: Option<FreezeError>)
    ensures
        r is None <==> (rules_file_exists || settings.creation_allowed),
        r matches Some(e) ==> e matches FreezeError::StoreInitializationFailed(m)
            && m@ == "Creating new violation store is disabled (enable by configuration freeze.store.default.allow_store_creation=true)"@,
{
    if rules_file_exists || settings.creation_allowed {
        None
    } else {
        Some(FreezeError::StoreInitializationFailed(String::from_str(
            "Creating new violation store is disabled (enable by configuration freeze.store.default.allow_store_creation=true)",
        )))
    }
}

/// Why a store with these settings cannot replace stored violations, if it cannot.
pub fn update_problem(settings: &StoreSettings) -> (r: Option<FreezeError>)
    ensures
        r is None <==> settings.update_allowed,
        r matches Some(e) ==> e matches FreezeError::StoreUpdateFailed(m)
            && m@ == "Updating frozen violations is disabled (enable by configuration freeze.store.default.allow_store_update=true)"@,
{
    if settings.update_allowed {
        None
    } else {
        Some(FreezeError::StoreUpdateFailed(String::from_str(
            "Updating frozen violations is disabled (enable by configuration freeze.store.default.allow_store_update=true)",
        )))
    }
}

} // verus!
