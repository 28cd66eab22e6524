//! A modular monolith: business modules that may only depend on each other along declared
//! edges, through the items they expose, and without cycles.
//!
//! Only dependencies between items of different modules are checked; dependencies on items
//! outside every module do not count.

use crate::lang::configuration::ArchConfiguration;
use vstd::prelude::*;
use vstd::string::*;

use crate::base::dependency_predicates::DependencyPredicate;
use crate::base::package_matcher::{spec_match, PackageMatcher};
use crate::base::predicates::{self, ItemPredicate};
use crate::domain::{dependencies_to, resolve, Dependency, ItemView, RustItem, RustItems};
use crate::lang::condition::{deps_described, item_described, items_described, lemma_dependencies_to_described, objects_of};
use crate::lang::evaluation::{EvaluationResult, ResultView};
use crate::lang::events::{event_views, face_lines, ConditionEvent, CorrespondingObject, SimpleConditionEvent};
use crate::library::architectures::{distinct_texts, restriction_text};
use crate::lang::rule::{assert_no_violation, assertion_outcome, because_text, create_because_description, outcome_view, Priority};
use crate::library::architectures::onion::opt_dep_holds;
use crate::library::dependencies::cycles::cycle_results;
use crate::library::dependencies::rules::{all_violations, descriptions, violation_lines, SliceCondition, SliceRule};
use crate::library::dependencies::{described, entry_parts, fill_placeholders, item_views, opt_text, slice_assignment, slices_of, SliceAssignment, SliceEntry, SliceIdentifier, Slices};
use crate::text::{cat, cat3, join, join_quoted, join_seq, join_single_quoted, str_eq, views};

verus! {

/// A module: its name, whether it may be empty, and the items it holds.
#[derive(Debug)]
pub struct ModuleData {
    /// The name.
    pub name: String,
    /// Whether the module may be empty.
    pub optional: bool,
    /// Which items it holds.
    pub contains: ItemPredicate,
}

/// Which end of a dependency a constraint on a module restricts.
#[derive(Debug, Clone, Copy, PartialEq, Eq, Structural)]
pub enum ModuleConstraint {
    /// What the module may depend on.
    Target,
    /// Who may depend on the module.
    Origin,
}

/// A constraint on a module: the modules allowed at the other end of its dependencies.
#[derive(Debug)]
pub struct ModuleSpecification {
    /// The constrained module.
    pub module_name: String,
    /// The modules allowed at the other end, besides the module itself.
    pub allowed: Vec<String>,
    /// Which end is restricted.
    pub constraint: ModuleConstraint,
    /// How the constraint reads after `where module '<name>' `.
    pub description_suffix: String,
}

/// A modular monolith rule (`modular_monolith()`).
#[derive(Debug)]
pub struct ModularMonolithArchitecture {
    /// The modules defined one by one, in order.
    pub definitions: Vec<ModuleData>,
    /// The package identifier whose capture groups name further modules.
    pub pattern: Option<PackageMatcher>,
    /// How modules of the pattern are named, with `$1`, `$2`, .. for the groups.
    pub naming_pattern: Option<String>,
    /// The constraints, in the order they were given.
    pub specifications: Vec<ModuleSpecification>,
    /// The items of other modules a module may depend on, if restricted.
    pub through_items: Option<ItemPredicate>,
    /// Whether modules must not form cycles.
    pub free_of_cycles: bool,
    /// Dependencies that do not count.
    pub irrelevant: Option<DependencyPredicate>,
    /// A description in place of the generated one.
    pub overridden_description: Option<String>,
    /// Whether all modules may be empty.
    pub optional_modules: bool,
    /// Where items must all belong to a module: those it tolerates outside.
    pub all_items_contained_check: Option<ItemPredicate>,
    /// The settings it reads: the limits of the search for cycles between modules.
    pub configuration: ArchConfiguration,
}

/// The position of the first definition that holds `x`, from `from` on.
pub open spec fn definition_index(defs: Seq<ModuleData>, x: ItemView, from: int) -> Option<int>
    decreases defs.len() - from,
{
    if from < 0 || from >= defs.len() {
        None
    } else if defs[from].contains.holds(x) {
        Some(from)
    } else {
        definition_index(defs, x, from + 1)
    }
}

/// The name of the module of the capture groups `groups`: the naming pattern with the groups
/// in place of `$1`, `$2`, .., or the groups joined by `-`.
pub open spec fn group_name(naming: Option<Seq<char>>, groups: Seq<Seq<char>>) -> Seq<char> {
    match naming {
        Some(p) => described(p, groups, groups.len()),
        None => join_seq(groups, seq!['-']),
    }
}

impl ModularMonolithArchitecture {
    /// Every predicate and matcher inside is well formed.
    pub open spec fn wf(&self) -> bool {
        &&& forall|i: int| 0 <= i < self.definitions@.len() ==> (#[trigger] self.definitions@[i]).contains.wf()
        &&& match self.pattern {
            Some(m) => m.wf(),
            None => true,
        }
        &&& match self.through_items {
            Some(p) => p.wf(),
            None => true,
        }
        &&& match self.irrelevant {
            Some(p) => p.wf(),
            None => true,
        }
        &&& match self.all_items_contained_check {
            Some(p) => p.wf(),
            None => true,
        }
    }

    /// The module `x` belongs to: that of the first definition that holds it, else the one
    /// the package identifier captures, if any.
    pub open spec fn module_of(&self, x: ItemView) -> Option<Seq<char>> {
        match definition_index(self.definitions@, x, 0) {
            Some(i) => Some(self.definitions@[i].name@),
            None => match self.pattern {
                Some(m) => match spec_match(m.identifier@, x.package_name) {
                    Some(groups) => if groups.len() > 0 {
                        Some(group_name(opt_text(self.naming_pattern), groups))
                    } else {
                        None
                    },
                    None => None,
                },
                None => None,
            },
        }
    }

    /// The origin or the target belongs to no module.
    pub open spec fn outside(&self, d: Dependency, items: Seq<RustItem>) -> bool {
        self.module_of(resolve(items, d.origin)) is None || self.module_of(resolve(items, d.target)) is None
    }

    /// Under constraint `s`, the dependency is fine: its other end is in an allowed module or
    /// the module itself, or it does not count.
    pub open spec fn allowed(&self, s: ModuleSpecification, d: Dependency, items: Seq<RustItem>) -> bool {
        let end = match s.constraint {
            ModuleConstraint::Target => resolve(items, d.target),
            ModuleConstraint::Origin => resolve(items, d.origin),
        };
        ||| (self.module_of(end) matches Some(m) && views(s.allowed@).push(s.module_name@).contains(m))
        ||| self.outside(d, items)
        ||| opt_dep_holds(self.irrelevant, d, items)
    }

    /// The dependencies of `deps` that are not fine under `s`.
    pub open spec fn failing(&self, s: ModuleSpecification, items: Seq<RustItem>, deps: Seq<Dependency>) -> Seq<Dependency>
        decreases deps.len(),
    {
        if deps.len() == 0 {
            Seq::empty()
        } else {
            self.failing(s, items, deps.drop_last()) + if self.allowed(s, deps.last(), items) {
                Seq::empty()
            } else {
                seq![deps.last()]
            }
        }
    }

    /// The violations of constraint `s` among `xs`: for each item of its module with a
    /// dependency that is not fine, the descriptions of those dependencies.
    pub open spec fn constraint_lines(&self, s: ModuleSpecification, items: Seq<RustItem>, xs: Seq<RustItem>) -> Seq<Seq<Seq<char>>>
        decreases xs.len(),
    {
        if xs.len() == 0 {
            Seq::empty()
        } else {
            let x = xs.last();
            let deps = match s.constraint {
                ModuleConstraint::Origin => dependencies_to(items, x.full_name@),
                ModuleConstraint::Target => x.dependencies@,
            };
            self.constraint_lines(s, items, xs.drop_last()) + if self.module_of(x@) == Some(s.module_name@)
                && self.failing(s, items, deps).len() > 0 {
                seq![descriptions(self.failing(s, items, deps))]
            } else {
                Seq::empty()
            }
        }
    }

    /// The violations of the constraints, one constraint after the other.
    pub open spec fn constraints_lines(&self, specs: Seq<ModuleSpecification>, items: Seq<RustItem>) -> Seq<Seq<Seq<char>>>
        decreases specs.len(),
    {
        if specs.len() == 0 {
            Seq::empty()
        } else {
            self.constraints_lines(specs.drop_last(), items) + self.constraint_lines(specs.last(), items, items)
        }
    }

    /// Through `through`, the dependency is fine: both ends in the same module, the target
    /// exposed, or it does not count.
    pub open spec fn passes(&self, through: ItemPredicate, d: Dependency, items: Seq<RustItem>) -> bool {
        ||| self.module_of(resolve(items, d.origin)) == self.module_of(resolve(items, d.target))
        ||| through.holds(resolve(items, d.target))
        ||| self.outside(d, items)
        ||| opt_dep_holds(self.irrelevant, d, items)
    }

    /// The dependencies of `deps` that do not pass through `through`.
    pub open spec fn not_passing(&self, through: ItemPredicate, items: Seq<RustItem>, deps: Seq<Dependency>) -> Seq<Dependency>
        decreases deps.len(),
    {
        if deps.len() == 0 {
            Seq::empty()
        } else {
            self.not_passing(through, items, deps.drop_last()) + if self.passes(through, deps.last(), items) {
                Seq::empty()
            } else {
                seq![deps.last()]
            }
        }
    }

    /// The violations of the restriction to exposed items among `xs`.
    pub open spec fn through_lines(&self, items: Seq<RustItem>, xs: Seq<RustItem>) -> Seq<Seq<Seq<char>>>
        decreases xs.len(),
    {
        if xs.len() == 0 {
            Seq::empty()
        } else {
            let x = xs.last();
            self.through_lines(items, xs.drop_last()) + match self.through_items {
                Some(t) => if self.module_of(x@) is Some && self.not_passing(t, items, x.dependencies@).len() > 0 {
                    seq![descriptions(self.not_passing(t, items, x.dependencies@))]
                } else {
                    Seq::empty()
                },
                None => Seq::empty(),
            }
        }
    }

    /// `Module '<name>' is empty` for each module among `ds` that must not be empty and holds
    /// no item.
    pub open spec fn empty_module_lines(&self, ds: Seq<ModuleData>, items: Seq<RustItem>) -> Seq<Seq<Seq<char>>>
        decreases ds.len(),
    {
        if ds.len() == 0 {
            Seq::empty()
        } else {
            let d = ds.last();
            self.empty_module_lines(ds.drop_last(), items) + if !self.optional_modules && !d.optional
                && !(exists|k: int| 0 <= k < items.len() && self.module_of(#[trigger] items[k]@) == Some(d.name@)) {
                seq![seq!["Module '"@ + d.name@ + "' is empty"@]]
            } else {
                Seq::empty()
            }
        }
    }

    /// `Item <name> is not contained in architecture` for each item of `xs` in no module and
    /// not tolerated, where that is checked.
    pub open spec fn uncontained_lines(&self, xs: Seq<RustItem>) -> Seq<Seq<Seq<char>>>
        decreases xs.len(),
    {
        if xs.len() == 0 {
            Seq::empty()
        } else {
            let x = xs.last();
            self.uncontained_lines(xs.drop_last()) + match self.all_items_contained_check {
                Some(ignore) => if !ignore.holds(x@) && self.module_of(x@) is None {
                    seq![seq!["Item <"@ + x.full_name@ + "> is not contained in architecture"@]]
                } else {
                    Seq::empty()
                },
                None => Seq::empty(),
            }
        }
    }

    /// The module parts of the first item of `xs` named `name` that belongs to a module.
    pub open spec fn module_parts(&self, xs: Seq<RustItem>, name: Seq<char>) -> Seq<Seq<char>>
        decreases xs.len(),
    {
        if xs.len() == 0 {
            Seq::empty()
        } else {
            let before = self.module_parts(xs.drop_last(), name);
            if before.len() > 0 {
                before
            } else if xs.last().full_name@ == name && self.module_of(xs.last()@) is Some {
                seq![self.module_of(xs.last()@).unwrap()]
            } else {
                Seq::empty()
            }
        }
    }

    /// The cycle check of the modules finds violations with the lines `lines`: the slices of
    /// the items by their modules, named `Module '$1'`, are free of cycles except for these.
    pub open spec fn cycle_lines(&self, items: Seq<RustItem>, lines: Seq<Seq<Seq<char>>>) -> bool {
        if !self.free_of_cycles {
            lines.len() == 0
        } else {
            exists|a: SliceAssignment, ignore: DependencyPredicate, info: Option<Seq<char>>|
                #![trigger cycle_results(a, ignore, items, slices_of(a, item_views(items), Some("Module '$1'"@)), lines, info, self.configuration.max_number_of_cycles_to_detect as nat, self.configuration.max_number_of_dependencies_per_edge as nat)]
                (forall|x: ItemView| #[trigger] a.parts_for(x) == self.module_parts(items, x.full_name))
                && (forall|d: Dependency, its: Seq<RustItem>| #[trigger] ignore.holds(d, its) == opt_dep_holds(self.irrelevant, d, its))
                && cycle_results(
                    a,
                    ignore,
                    items,
                    slices_of(a, item_views(items), Some("Module '$1'"@)),
                    lines,
                    info,
                    self.configuration.max_number_of_cycles_to_detect as nat,
                    self.configuration.max_number_of_dependencies_per_edge as nat,
                )
        }
    }

    /// The lines of all violations on `items`: empty modules, items in no module, the
    /// constraints, the restriction to exposed items, and then `cycles`.
    pub open spec fn violation_lines_on(&self, items: Seq<RustItem>, cycles: Seq<Seq<Seq<char>>>) -> Seq<Seq<Seq<char>>> {
        self.empty_module_lines(self.definitions@, items) + self.uncontained_lines(items)
            + self.constraints_lines(self.specifications@, items) + self.through_lines(items, items) + cycles
    }
}

/// The parts the entries give for `name`, after adding `e`: those of an earlier entry for it,
/// else those of `e` where `e` is for it.
proof fn lemma_entry_parts_push(es: Seq<SliceEntry>, e: SliceEntry, name: Seq<char>, from: int)
    requires
        0 <= from <= es.len(),
        forall|j: int| 0 <= j < es.len() ==> views((#[trigger] es[j]).identifier.parts@).len() > 0,
    ensures
        entry_parts(es.push(e), name, from) == if entry_parts(es, name, from).len() > 0 {
            entry_parts(es, name, from)
        } else if e.full_name@ == name {
            views(e.identifier.parts@)
        } else {
            Seq::empty()
        },
    decreases es.len() - from,
{
    let s = es.push(e);
    if from < es.len() {
        assert(s[from] == es[from]);
        assert(views(es[from].identifier.parts@).len() > 0);
        if es[from].full_name@ != name {
            lemma_entry_parts_push(es, e, name, from + 1);
        }
    } else {
        assert(s[from] == e);
        assert(entry_parts(es, name, from) == Seq::<Seq<char>>::empty());
        assert(entry_parts(s, name, from + 1) == Seq::<Seq<char>>::empty());
    }
}

impl ModularMonolithArchitecture {
    /// The module `x` belongs to (see [`module_of`](Self::module_of)).
    pub fn module_of_item(&self, x: &RustItem) -> (r: Option<String>)
        requires
            self.wf(),
        ensures
            opt_text(r) == self.module_of(x@),
    {
        let mut i: usize = 0;
        while i < self.definitions.len()
            invariant
                self.wf(),
                i <= self.definitions@.len(),
                definition_index(self.definitions@, x@, 0) == definition_index(self.definitions@, x@, i as int),
            decreases self.definitions@.len() - i,
        {
            if self.definitions[i].contains.test(x) {
                return Some(self.definitions[i].name.clone());
            }
            i += 1;
        }
        match &self.pattern {
            Some(m) => match m.match_(x.package_name.as_str()) {
                Some(result) => {
                    let groups = result.groups;
                    if groups.len() == 0 {
                        return None;
                    }
                    match &self.naming_pattern {
                        Some(naming) => Some(fill_placeholders(naming.as_str(), &groups)),
                        None => {
                            let r = join(&groups, "-");
                            proof {
                                reveal_strlit("-");
                                assert("-"@ =~= seq!['-']);
                            }
                            Some(r)
                        },
                    }
                },
                None => None,
            },
            None => None,
        }
    }

    /// Whether `x` belongs to the module named `name`.
    fn in_module(&self, x: &RustItem, name: &String) -> (r: bool)
        requires
            self.wf(),
        ensures
            r == (self.module_of(x@) == Some(name@)),
    {
        match self.module_of_item(x) {
            Some(m) => str_eq(m.as_str(), name.as_str()),
            None => false,
        }
    }

    /// Whether the origin or the target belongs to no module.
    fn outside_test(&self, d: &Dependency, items: &RustItems) -> (r: bool)
        requires
            self.wf(),
        ensures
            r == self.outside(*d, items.items@),
    {
        self.module_of_item(&items.resolve(&d.origin)).is_none() || self.module_of_item(&items.resolve(&d.target)).is_none()
    }

    /// Whether the dependency is fine under constraint `s`.
    fn allowed_test(&self, s: &ModuleSpecification, d: &Dependency, items: &RustItems) -> (r: bool)
        requires
            self.wf(),
        ensures
            r == self.allowed(*s, *d, items.items@),
    {
        let end = match s.constraint {
            ModuleConstraint::Target => items.resolve(&d.target),
            ModuleConstraint::Origin => items.resolve(&d.origin),
        };
        let mut names = crate::text::clone_strings(&s.allowed);
        names.push(s.module_name.clone());
        proof {
            assert(views(names@) =~= views(s.allowed@).push(s.module_name@));
        }
        let in_allowed = match self.module_of_item(&end) {
            Some(m) => {
                proof {
                    predicates::lemma_has_string_contains(names@, m@);
                }
                crate::domain::contains_string(&names, m.as_str())
            },
            None => false,
        };
        if in_allowed {
            return true;
        }
        if self.outside_test(d, items) {
            return true;
        }
        match &self.irrelevant {
            Some(p) => p.test(d, items),
            None => false,
        }
    }

    /// Whether the dependency passes through `through`.
    fn passes_test(&self, through: &ItemPredicate, d: &Dependency, items: &RustItems) -> (r: bool)
        requires
            self.wf(),
            through.wf(),
        ensures
            r == self.passes(*through, *d, items.items@),
    {
        let origin = self.module_of_item(&items.resolve(&d.origin));
        let target_item = items.resolve(&d.target);
        let target = self.module_of_item(&target_item);
        let same = match (&origin, &target) {
            (Some(a), Some(b)) => str_eq(a.as_str(), b.as_str()),
            (None, None) => true,
            _ => false,
        };
        if same || through.test(&target_item) || self.outside_test(d, items) {
            return true;
        }
        match &self.irrelevant {
            Some(p) => p.test(d, items),
            None => false,
        }
    }

    /// The violation the dependencies `deps` give: those that `fine` rejects, if any.
    fn deps_violation(&self, s: Option<&ModuleSpecification>, through: Option<&ItemPredicate>, deps: &Vec<Dependency>, items: &RustItems) -> (r: Option<ConditionEvent>)
        requires
            self.wf(),
            deps_described(deps@),
            s is Some != through is Some,
            through matches Some(t) ==> t.wf(),
        ensures
            s matches Some(sp) ==> (r is Some <==> self.failing(*sp, items.items@, deps@).len() > 0)
                && (r matches Some(e) ==> e@.face.violation && e@.face.lines == descriptions(self.failing(*sp, items.items@, deps@))),
            through matches Some(t) ==> (r is Some <==> self.not_passing(*t, items.items@, deps@).len() > 0)
                && (r matches Some(e) ==> e@.face.violation && e@.face.lines == descriptions(self.not_passing(*t, items.items@, deps@))),
    {
        let ghost bad = match s {
            Some(sp) => self.failing(*sp, items.items@, deps@),
            None => self.not_passing(*through.unwrap(), items.items@, deps@),
        };
        let mut allowed: Vec<ConditionEvent> = Vec::new();
        let mut violating: Vec<ConditionEvent> = Vec::new();
        let mut j: usize = 0;
        while j < deps.len()
            invariant
                self.wf(),
                deps_described(deps@),
                s is Some != through is Some,
                through matches Some(t) ==> t.wf(),
                j <= deps@.len(),
                s matches Some(sp) ==> violating@.len() == self.failing(*sp, items.items@, deps@.take(j as int)).len()
                    && face_lines(event_views(violating@)) == descriptions(self.failing(*sp, items.items@, deps@.take(j as int))),
                through matches Some(t) ==> violating@.len() == self.not_passing(*t, items.items@, deps@.take(j as int)).len()
                    && face_lines(event_views(violating@)) == descriptions(self.not_passing(*t, items.items@, deps@.take(j as int))),
            decreases deps@.len() - j,
        {
            proof {
                assert(deps@.take(j + 1).drop_last() =~= deps@.take(j as int));
                assert(deps@.take(j + 1).last() == deps@[j as int]);
                assert(!crate::lang::events::is_blank(deps@[j as int].description@));
            }
            let ok = match s {
                Some(sp) => self.allowed_test(sp, &deps[j], items),
                None => self.passes_test(through.unwrap(), &deps[j], items),
            };
            let e = SimpleConditionEvent::new(CorrespondingObject::Dependency(deps[j].copy()), ok, deps[j].description.clone()).into_event();
            if ok {
                allowed.push(e);
            } else {
                let ghost before = event_views(violating@);
                violating.push(e);
                proof {
                    assert(event_views(violating@) =~= before.push(e@));
                    assert(event_views(violating@).drop_last() =~= before);
                    match s {
                        Some(sp) => {
                            let fb = self.failing(*sp, items.items@, deps@.take(j as int));
                            assert(descriptions(fb.push(deps@[j as int])) =~= descriptions(fb) + seq![deps@[j as int].description@]);
                        },
                        None => {
                            let fb = self.not_passing(*through.unwrap(), items.items@, deps@.take(j as int));
                            assert(descriptions(fb.push(deps@[j as int])) =~= descriptions(fb) + seq![deps@[j as int].description@]);
                        },
                    }
                }
            }
            j += 1;
        }
        proof {
            assert(deps@.take(deps@.len() as int) =~= deps@);
        }
        if violating.len() == 0 {
            return None;
        }
        let objects = objects_of(deps);
        Some(ConditionEvent::only(objects, allowed, violating))
    }

    /// The violations of empty modules.
    fn empty_module_violations(&self, items: &RustItems) -> (r: Vec<ConditionEvent>)
        requires
            self.wf(),
        ensures
            all_violations(event_views(r@)),
            violation_lines(event_views(r@)) == self.empty_module_lines(self.definitions@, items.items@),
    {
        let mut r: Vec<ConditionEvent> = Vec::new();
        let mut i: usize = 0;
        while i < self.definitions.len()
            invariant
                self.wf(),
                i <= self.definitions@.len(),
                all_violations(event_views(r@)),
                violation_lines(event_views(r@)) == self.empty_module_lines(self.definitions@.take(i as int), items.items@),
            decreases self.definitions@.len() - i,
        {
            let d = &self.definitions[i];
            proof {
                assert(self.definitions@.take(i + 1).drop_last() =~= self.definitions@.take(i as int));
                assert(self.definitions@.take(i + 1).last() == *d);
            }
            let mut violated = false;
            if !self.optional_modules && !d.optional {
                let mut found = false;
                let mut k: usize = 0;
                while k < items.items.len()
                    invariant
                        self.wf(),
                        k <= items.items@.len(),
                        found == exists|q: int| 0 <= q < k && self.module_of(#[trigger] items.items@[q]@) == Some(d.name@),
                    decreases items.items@.len() - k,
                {
                    if self.in_module(&items.items[k], &d.name) {
                        found = true;
                    }
                    k += 1;
                }
                violated = !found;
            }
            if violated {
                let text = cat3("Module '", d.name.as_str(), "' is empty");
                proof {
                    reveal_strlit("Module '");
                    assert(text@[0] == 'M');
                    assert(!crate::lang::events::is_white(text@[0]));
                }
                let e = SimpleConditionEvent::violated(CorrespondingObject::Other(d.name.clone()), text).into_event();
                let ghost before = event_views(r@);
                r.push(e);
                proof {
                    assert(event_views(r@) =~= before.push(e@));
                    assert(violation_lines(event_views(r@)) =~= violation_lines(before).push(e@.face.lines));
                }
            } else {
                proof {
                    assert(violation_lines(event_views(r@)) =~= violation_lines(event_views(r@)) + Seq::<Seq<Seq<char>>>::empty());
                }
            }
            i += 1;
        }
        proof {
            assert(self.definitions@.take(self.definitions@.len() as int) =~= self.definitions@);
        }
        r
    }

    /// The violations of items in no module.
    fn uncontained_violations(&self, items: &RustItems) -> (r: Vec<ConditionEvent>)
        requires
            self.wf(),
        ensures
            all_violations(event_views(r@)),
            violation_lines(event_views(r@)) == self.uncontained_lines(items.items@),
    {
        let mut r: Vec<ConditionEvent> = Vec::new();
        let mut i: usize = 0;
        while i < items.items.len()
            invariant
                self.wf(),
                i <= items.items@.len(),
                all_violations(event_views(r@)),
                violation_lines(event_views(r@)) == self.uncontained_lines(items.items@.take(i as int)),
            decreases items.items@.len() - i,
        {
            let x = &items.items[i];
            proof {
                assert(items.items@.take(i + 1).drop_last() =~= items.items@.take(i as int));
                assert(items.items@.take(i + 1).last() == *x);
            }
            let violated = match &self.all_items_contained_check {
                Some(ignore) => !ignore.test(x) && self.module_of_item(x).is_none(),
                None => false,
            };
            if violated {
                let text = cat3("Item <", x.full_name.as_str(), "> is not contained in architecture");
                proof {
                    reveal_strlit("Item <");
                    assert(text@[0] == 'I');
                    assert(!crate::lang::events::is_white(text@[0]));
                }
                let e = SimpleConditionEvent::violated(CorrespondingObject::Item(x.reference()), text).into_event();
                let ghost before = event_views(r@);
                r.push(e);
                proof {
                    assert(event_views(r@) =~= before.push(e@));
                    assert(violation_lines(event_views(r@)) =~= violation_lines(before).push(e@.face.lines));
                }
            } else {
                proof {
                    assert(violation_lines(event_views(r@)) =~= violation_lines(event_views(r@)) + Seq::<Seq<Seq<char>>>::empty());
                }
            }
            i += 1;
        }
        proof {
            assert(items.items@.take(items.items@.len() as int) =~= items.items@);
        }
        r
    }

    /// The violations of constraint `s`.
    fn constraint_violations(&self, s: &ModuleSpecification, items: &RustItems) -> (r: Vec<ConditionEvent>)
        requires
            self.wf(),
            items_described(items.items@),
        ensures
            all_violations(event_views(r@)),
            violation_lines(event_views(r@)) == self.constraint_lines(*s, items.items@, items.items@),
    {
        let mut r: Vec<ConditionEvent> = Vec::new();
        let mut i: usize = 0;
        while i < items.items.len()
            invariant
                self.wf(),
                items_described(items.items@),
                i <= items.items@.len(),
                all_violations(event_views(r@)),
                violation_lines(event_views(r@)) == self.constraint_lines(*s, items.items@, items.items@.take(i as int)),
            decreases items.items@.len() - i,
        {
            let x = &items.items[i];
            proof {
                assert(items.items@.take(i + 1).drop_last() =~= items.items@.take(i as int));
                assert(items.items@.take(i + 1).last() == *x);
                assert(item_described(items.items@[i as int]));
            }
            let mut hit: Option<ConditionEvent> = None;
            if self.in_module(x, &s.module_name) {
                let deps = match s.constraint {
                    ModuleConstraint::Origin => {
                        proof {
                            lemma_dependencies_to_described(items.items@, x.full_name@);
                        }
                        items.dependencies_to(x.full_name.as_str())
                    },
                    ModuleConstraint::Target => crate::domain::copy_dependencies(&x.dependencies),
                };
                hit = self.deps_violation(Some(s), None, &deps, items);
            }
            match hit {
                Some(e) => {
                    let ghost before = event_views(r@);
                    r.push(e);
                    proof {
                        assert(event_views(r@) =~= before.push(e@));
                        assert(violation_lines(event_views(r@)) =~= violation_lines(before).push(e@.face.lines));
                    }
                },
                None => {
                    proof {
                        assert(violation_lines(event_views(r@)) =~= violation_lines(event_views(r@)) + Seq::<Seq<Seq<char>>>::empty());
                    }
                },
            }
            i += 1;
        }
        proof {
            assert(items.items@.take(items.items@.len() as int) =~= items.items@);
        }
        r
    }

    /// The violations of the restriction to exposed items.
    fn through_violations(&self, items: &RustItems) -> (r: Vec<ConditionEvent>)
        requires
            self.wf(),
            items_described(items.items@),
        ensures
            all_violations(event_views(r@)),
            violation_lines(event_views(r@)) == self.through_lines(items.items@, items.items@),
    {
        let mut r: Vec<ConditionEvent> = Vec::new();
        let mut i: usize = 0;
        while i < items.items.len()
            invariant
                self.wf(),
                items_described(items.items@),
                i <= items.items@.len(),
                all_violations(event_views(r@)),
                violation_lines(event_views(r@)) == self.through_lines(items.items@, items.items@.take(i as int)),
            decreases items.items@.len() - i,
        {
            let x = &items.items[i];
            proof {
                assert(items.items@.take(i + 1).drop_last() =~= items.items@.take(i as int));
                assert(items.items@.take(i + 1).last() == *x);
                assert(item_described(items.items@[i as int]));
            }
            let mut hit: Option<ConditionEvent> = None;
            match &self.through_items {
                Some(t) => {
                    if self.module_of_item(x).is_some() {
                        let deps = crate::domain::copy_dependencies(&x.dependencies);
                        hit = self.deps_violation(None, Some(t), &deps, items);
                    }
                },
                None => {},
            }
            match hit {
                Some(e) => {
                    let ghost before = event_views(r@);
                    r.push(e);
                    proof {
                        assert(event_views(r@) =~= before.push(e@));
                        assert(violation_lines(event_views(r@)) =~= violation_lines(before).push(e@.face.lines));
                    }
                },
                None => {
                    proof {
                        assert(violation_lines(event_views(r@)) =~= violation_lines(event_views(r@)) + Seq::<Seq<Seq<char>>>::empty());
                    }
                },
            }
            i += 1;
        }
        proof {
            assert(items.items@.take(items.items@.len() as int) =~= items.items@);
        }
        r
    }

    /// The violations of the cycle check of the modules.
    fn cycle_violations(&self, items: &RustItems) -> (r: Vec<ConditionEvent>)
        requires
            self.wf(),
        ensures
            all_violations(event_views(r@)),
            self.cycle_lines(items.items@, violation_lines(event_views(r@))),
    {
        if !self.free_of_cycles {
            let r: Vec<ConditionEvent> = Vec::new();
            proof {
                assert(violation_lines(event_views(r@)) =~= Seq::<Seq<Seq<char>>>::empty());
            }
            return r;
        }
        let mut entries: Vec<SliceEntry> = Vec::new();
        let mut i: usize = 0;
        while i < items.items.len()
            invariant
                self.wf(),
                i <= items.items@.len(),
                forall|j: int| 0 <= j < entries@.len() ==> views((#[trigger] entries@[j]).identifier.parts@).len() > 0,
                forall|n: Seq<char>| #[trigger] entry_parts(entries@, n, 0) == self.module_parts(items.items@.take(i as int), n),
            decreases items.items@.len() - i,
        {
            let x = &items.items[i];
            proof {
                assert(items.items@.take(i + 1).drop_last() =~= items.items@.take(i as int));
                assert(items.items@.take(i + 1).last() == *x);
            }
            match self.module_of_item(x) {
                Some(m) => {
                    let mut parts: Vec<String> = Vec::new();
                    parts.push(m);
                    let e = SliceEntry { full_name: x.full_name.clone(), identifier: SliceIdentifier { parts } };
                    let ghost before = entries@;
                    entries.push(e);
                    proof {
                        assert(views(e.identifier.parts@) =~= seq![self.module_of(x@).unwrap()]);
                        assert forall|n: Seq<char>| #[trigger] entry_parts(entries@, n, 0) == self.module_parts(items.items@.take(i + 1), n) by {
                            lemma_entry_parts_push(before, e, n, 0);
                        }
                    }
                },
                None => {},
            }
            i += 1;
        }
        proof {
            assert(items.items@.take(items.items@.len() as int) =~= items.items@);
        }
        let assignment = slice_assignment("modules", entries);
        let transformer = Slices::assigned_from(assignment).naming_slices("Module '$1'");
        let rule = SliceRule::new(transformer, Priority::Medium, SliceCondition::FreeOfCycles).allow_empty_should(true).configured(&self.configuration);
        let rule = match &self.irrelevant {
            Some(p) => rule.ignore_dependency_where(p.copy()),
            None => rule,
        };
        proof {
            assert forall|x: ItemView| #[trigger] rule.transformer.assignment.parts_for(x) == self.module_parts(items.items@, x.full_name) by {
                assert(rule.transformer.assignment.parts_for(x) == entry_parts(entries@, x.full_name, 0));
            }
        }
        match rule.evaluate(items) {
            Ok(result) => {
                proof {
                    assert(self.cycle_lines(items.items@, violation_lines(result@.violations)));
                }
                result.violations
            },
            Err(_) => {
                proof {
                    assert(false);
                }
                Vec::new()
            },
        }
    }
}

/// How the modules of the package identifier read, where there is one.
pub open spec fn pattern_lines(pattern: Option<PackageMatcher>, naming: Option<String>) -> Seq<Seq<char>> {
    match pattern {
        Some(m) => match naming {
            Some(n) => seq!["modules defined by packages '"@ + m.identifier@ + "' named '"@ + n@ + "'"@],
            None => seq!["modules defined by packages '"@ + m.identifier@ + "'"@],
        },
        None => Seq::empty(),
    }
}

/// How a module reads: `[optional ]module '<name>' (<predicate>)`.
pub open spec fn module_text(d: ModuleData) -> Seq<char> {
    (if d.optional { "optional "@ } else { Seq::empty() }) + "module '"@ + d.name@ + "' ("@ + d.contains.description@ + ")"@
}

impl ModularMonolithArchitecture {
    /// The description: the overriding one, or one line for the heading, each module, the
    /// modules of the package identifier, each constraint, the restriction to exposed items and
    /// the cycle check.
    pub open spec fn description_text(&self) -> Seq<char> {
        match self.overridden_description {
            Some(d) => d@,
            None => join_seq(
                seq!["Modular monolith consisting of"@ + if self.optional_modules { " (optional)"@ } else { Seq::empty() }]
                    + self.definitions@.map_values(|d: ModuleData| module_text(d))
                    + pattern_lines(self.pattern, self.naming_pattern)
                    + self.specifications@.map_values(|s: ModuleSpecification| "where module '"@ + s.module_name@ + "' "@ + s.description_suffix@)
                    + match self.through_items {
                        Some(p) => seq!["where modules may only depend on each other through items that "@ + p.description@],
                        None => Seq::empty(),
                    }
                    + if self.free_of_cycles { seq!["where modules should be free of cycles"@] } else { Seq::empty() },
                "\n"@,
            ),
        }
    }

    /// The description.
    pub fn description(&self) -> (r: String)
        ensures
            r@ == self.description_text(),
    {
        match &self.overridden_description {
            Some(d) => d.clone(),
            None => {
                let mut lines: Vec<String> = Vec::new();
                let head = if self.optional_modules {
                    String::from_str("Modular monolith consisting of (optional)")
                } else {
                    String::from_str("Modular monolith consisting of")
                };
                proof {
                    reveal_strlit("Modular monolith consisting of (optional)");
                    reveal_strlit("Modular monolith consisting of");
                    reveal_strlit(" (optional)");
                    assert(head@ =~= "Modular monolith consisting of"@ + if self.optional_modules { " (optional)"@ } else { Seq::empty() });
                }
                let ghost heading = head@;
                lines.push(head);
                let ghost l0 = views(lines@);
                proof {
                    assert(l0 =~= seq![heading]);
                }
                let mut i: usize = 0;
                while i < self.definitions.len()
                    invariant
                        i <= self.definitions@.len(),
                        views(lines@) == l0 + self.definitions@.take(i as int).map_values(|d: ModuleData| module_text(d)),
                    decreases self.definitions@.len() - i,
                {
                    let d = &self.definitions[i];
                    let prefix = if d.optional { String::from_str("optional ") } else { String::new() };
                    let mut text = cat3(prefix.as_str(), "module '", d.name.as_str());
                    text.append("' (");
                    text.append(d.contains.description.as_str());
                    text.append(")");
                    let ghost before = views(lines@);
                    lines.push(text);
                    proof {
                        assert(views(lines@) =~= before.push(module_text(*d)));
                        assert(self.definitions@.take(i + 1).map_values(|d: ModuleData| module_text(d))
                            =~= self.definitions@.take(i as int).map_values(|d: ModuleData| module_text(d)).push(module_text(*d)));
                    }
                    i += 1;
                }
                proof {
                    assert(self.definitions@.take(self.definitions@.len() as int) =~= self.definitions@);
                }
                let ghost l1 = views(lines@);
                match &self.pattern {
                    Some(m) => {
                        let text = match &self.naming_pattern {
                            Some(n) => {
                                let mut t = cat3("modules defined by packages '", m.identifier.as_str(), "' named '");
                                t.append(n.as_str());
                                t.append("'");
                                t
                            },
                            None => cat3("modules defined by packages '", m.identifier.as_str(), "'"),
                        };
                        lines.push(text);
                    },
                    None => {},
                }
                proof {
                    assert(views(lines@) =~= l1 + pattern_lines(self.pattern, self.naming_pattern));
                }
                let ghost l2 = views(lines@);
                let mut j: usize = 0;
                while j < self.specifications.len()
                    invariant
                        j <= self.specifications@.len(),
                        views(lines@) == l2 + self.specifications@.take(j as int).map_values(|s: ModuleSpecification| "where module '"@ + s.module_name@ + "' "@ + s.description_suffix@),
                    decreases self.specifications@.len() - j,
                {
                    let sp = &self.specifications[j];
                    let mut text = cat3("where module '", sp.module_name.as_str(), "' ");
                    text.append(sp.description_suffix.as_str());
                    let ghost before = views(lines@);
                    lines.push(text);
                    proof {
                        assert(views(lines@) =~= before.push("where module '"@ + sp.module_name@ + "' "@ + sp.description_suffix@));
                        assert(self.specifications@.take(j + 1).map_values(|s: ModuleSpecification| "where module '"@ + s.module_name@ + "' "@ + s.description_suffix@)
                            =~= self.specifications@.take(j as int).map_values(|s: ModuleSpecification| "where module '"@ + s.module_name@ + "' "@ + s.description_suffix@)
                                .push("where module '"@ + sp.module_name@ + "' "@ + sp.description_suffix@));
                    }
                    j += 1;
                }
                proof {
                    assert(self.specifications@.take(self.specifications@.len() as int) =~= self.specifications@);
                }
                let ghost l3 = views(lines@);
                match &self.through_items {
                    Some(p) => {
                        lines.push(cat("where modules may only depend on each other through items that ", p.description.as_str()));
                    },
                    None => {},
                }
                let ghost l4 = views(lines@);
                proof {
                    assert(l4 =~= l3 + match self.through_items {
                        Some(p) => seq!["where modules may only depend on each other through items that "@ + p.description@],
                        None => Seq::<Seq<char>>::empty(),
                    });
                }
                if self.free_of_cycles {
                    lines.push(String::from_str("where modules should be free of cycles"));
                }
                proof {
                    assert(views(lines@) =~= l4 + if self.free_of_cycles { seq!["where modules should be free of cycles"@] } else { Seq::<Seq<char>>::empty() });
                    assert(views(lines@) =~= seq![heading]
                        + self.definitions@.map_values(|d: ModuleData| module_text(d))
                        + pattern_lines(self.pattern, self.naming_pattern)
                        + self.specifications@.map_values(|s: ModuleSpecification| "where module '"@ + s.module_name@ + "' "@ + s.description_suffix@)
                        + match self.through_items {
                            Some(p) => seq!["where modules may only depend on each other through items that "@ + p.description@],
                            None => Seq::<Seq<char>>::empty(),
                        }
                        + if self.free_of_cycles { seq!["where modules should be free of cycles"@] } else { Seq::<Seq<char>>::empty() });
                }
                join(&lines, "\n")
            },
        }
    }

    /// Evaluates the architecture (`evaluate(..)`): empty modules, items in no module, the
    /// constraints, the restriction to exposed items and the cycle check, in that order.
    pub fn evaluate(&self, items: &RustItems) -> (r: EvaluationResult)
        requires
            self.wf(),
            items_described(items.items@),
        ensures
            r@.rule_description == self.description_text(),
            r@.priority == Priority::Medium,
            r@.information is None,
            all_violations(r@.violations),
            exists|cycles: Seq<Seq<Seq<char>>>| #[trigger] self.cycle_lines(items.items@, cycles)
                && violation_lines(r@.violations) == self.violation_lines_on(items.items@, cycles),
    {
        let mut violations = self.empty_module_violations(items);
        let mut more = self.uncontained_violations(items);
        let ghost a = event_views(violations@);
        let ghost b = event_views(more@);
        violations.append(&mut more);
        proof {
            assert(event_views(violations@) =~= a + b);
            assert(violation_lines(a + b) =~= violation_lines(a) + violation_lines(b));
        }
        let mut i: usize = 0;
        while i < self.specifications.len()
            invariant
                self.wf(),
                items_described(items.items@),
                i <= self.specifications@.len(),
                all_violations(event_views(violations@)),
                violation_lines(event_views(violations@)) == self.empty_module_lines(self.definitions@, items.items@) + self.uncontained_lines(items.items@)
                    + self.constraints_lines(self.specifications@.take(i as int), items.items@),
            decreases self.specifications@.len() - i,
        {
            let mut part = self.constraint_violations(&self.specifications[i], items);
            let ghost a = event_views(violations@);
            let ghost b = event_views(part@);
            violations.append(&mut part);
            proof {
                assert(event_views(violations@) =~= a + b);
                assert(violation_lines(a + b) =~= violation_lines(a) + violation_lines(b));
                assert(self.specifications@.take(i + 1).drop_last() =~= self.specifications@.take(i as int));
                assert(self.specifications@.take(i + 1).last() == self.specifications@[i as int]);
            }
            i += 1;
        }
        proof {
            assert(self.specifications@.take(self.specifications@.len() as int) =~= self.specifications@);
        }
        let mut through = self.through_violations(items);
        let ghost a = event_views(violations@);
        let ghost b = event_views(through@);
        violations.append(&mut through);
        proof {
            assert(event_views(violations@) =~= a + b);
            assert(violation_lines(a + b) =~= violation_lines(a) + violation_lines(b));
        }
        let mut cycles = self.cycle_violations(items);
        let ghost a = event_views(violations@);
        let ghost b = event_views(cycles@);
        violations.append(&mut cycles);
        proof {
            assert(event_views(violations@) =~= a + b);
            assert(violation_lines(a + b) =~= violation_lines(a) + violation_lines(b));
            assert(self.cycle_lines(items.items@, violation_lines(b)));
        }
        EvaluationResult { rule_description: self.description(), violations, information: None, priority: Priority::Medium }
    }

    /// Evaluates the architecture and fails with its report if it is violated (`check(..)`).
    pub fn check(&self, items: &RustItems) -> (r: Result<(), String>)
        requires
            self.wf(),
            items_described(items.items@),
        ensures
            exists|v: ResultView, cycles: Seq<Seq<Seq<char>>>| #![trigger self.cycle_lines(items.items@, cycles), v.rule_description]
                self.cycle_lines(items.items@, cycles)
                && violation_lines(v.violations) == self.violation_lines_on(items.items@, cycles)
                && all_violations(v.violations)
                && v.rule_description == self.description_text()
                && v.information is None
                && v.priority == Priority::Medium
                && assertion_outcome(v, outcome_view(r)),
    {
        let result = self.evaluate(items);
        let r = assert_no_violation(&result);
        r
    }
}

/// The position of the first module named `name`, from `from` on.
pub open spec fn module_index(ds: Seq<ModuleData>, name: Seq<char>, from: int) -> Option<int>
    decreases ds.len() - from,
{
    if from < 0 || from >= ds.len() {
        None
    } else if ds[from].name@ == name {
        Some(from)
    } else {
        module_index(ds, name, from + 1)
    }
}

/// `ds` with `d` in place of the module of its name, or added at the end.
pub open spec fn with_module(ds: Seq<ModuleData>, d: ModuleData) -> Seq<ModuleData> {
    match module_index(ds, d.name@, 0) {
        Some(i) => ds.update(i, d),
        None => ds.push(d),
    }
}

/// The position of the first constraint on module `name` of kind `c`, from `from` on.
pub open spec fn module_specification_index(ss: Seq<ModuleSpecification>, name: Seq<char>, c: ModuleConstraint, from: int) -> Option<int>
    decreases ss.len() - from,
{
    if from < 0 || from >= ss.len() {
        None
    } else if ss[from].module_name@ == name && ss[from].constraint == c {
        Some(from)
    } else {
        module_specification_index(ss, name, c, from + 1)
    }
}

/// `ss` with `s` in place of the constraint of the same module and kind, or added at the end.
pub open spec fn with_module_specification(ss: Seq<ModuleSpecification>, s: ModuleSpecification) -> Seq<ModuleSpecification> {
    match module_specification_index(ss, s.module_name@, s.constraint, 0) {
        Some(i) => ss.update(i, s),
        None => ss.push(s),
    }
}

proof fn lemma_module_index(ds: Seq<ModuleData>, name: Seq<char>, from: int)
    ensures
        module_index(ds, name, from) matches Some(i) ==> from <= i < ds.len(),
    decreases ds.len() - from,
{
    if 0 <= from < ds.len() && ds[from].name@ != name {
        lemma_module_index(ds, name, from + 1);
    }
}

proof fn lemma_module_specification_index(ss: Seq<ModuleSpecification>, name: Seq<char>, c: ModuleConstraint, from: int)
    ensures
        module_specification_index(ss, name, c, from) matches Some(i) ==> from <= i < ss.len(),
    decreases ss.len() - from,
{
    if 0 <= from < ss.len() && !(ss[from].module_name@ == name && ss[from].constraint == c) {
        lemma_module_specification_index(ss, name, c, from + 1);
    }
}

/// `modular_monolith()`: an architecture without modules yet.
pub fn modular_monolith() -> (r: ModularMonolithArchitecture)
    ensures
        r.wf(),
        r.definitions@.len() == 0,
        r.pattern is None,
        r.naming_pattern is None,
        r.specifications@.len() == 0,
        r.through_items is None,
        !r.free_of_cycles,
        r.irrelevant is None,
        r.overridden_description is None,
        !r.optional_modules,
        r.all_items_contained_check is None,
{
    ModularMonolithArchitecture::new()
}

/// The `defined_by` step of `module(name)`.
#[derive(Debug)]
pub struct ModuleDefinition {
    /// The architecture so far.
    pub architecture: ModularMonolithArchitecture,
    /// The name of the module.
    pub name: String,
    /// Whether it may be empty.
    pub optional: bool,
}

/// The constraint step of `where_module(name)`.
#[derive(Debug)]
pub struct ModuleDependencySpecification {
    /// The architecture so far.
    pub architecture: ModularMonolithArchitecture,
    /// The constrained module.
    pub module_name: String,
}

/// `r` is `a` with a constraint on `module` of kind `c` that allows the modules `allowed` and
/// reads `suffix`.
pub open spec fn constrained(a: ModularMonolithArchitecture, r: ModularMonolithArchitecture, module: String, c: ModuleConstraint, allowed: Seq<Seq<char>>, suffix: Seq<char>) -> bool {
    &&& r.wf()
    &&& r == (ModularMonolithArchitecture { specifications: r.specifications, ..a })
    &&& exists|s: ModuleSpecification| #[trigger] with_module_specification(a.specifications@, s) == r.specifications@
        && s.module_name == module && s.constraint == c && views(s.allowed@) == allowed && s.description_suffix@ == suffix
}

impl ModularMonolithArchitecture {
    /// An architecture without modules yet.
    pub fn new() -> (r: ModularMonolithArchitecture)
        ensures
            r.wf(),
            r.definitions@.len() == 0,
            r.pattern is None,
            r.naming_pattern is None,
            r.specifications@.len() == 0,
            r.through_items is None,
            !r.free_of_cycles,
            r.irrelevant is None,
            r.overridden_description is None,
            !r.optional_modules,
            r.all_items_contained_check is None,
            r.configuration.max_number_of_cycles_to_detect == 100,
            r.configuration.max_number_of_dependencies_per_edge == 20,
    {
        ModularMonolithArchitecture {
            definitions: Vec::new(),
            pattern: None,
            naming_pattern: None,
            specifications: Vec::new(),
            through_items: None,
            free_of_cycles: false,
            irrelevant: None,
            overridden_description: None,
            optional_modules: false,
            all_items_contained_check: None,
            configuration: ArchConfiguration::defaults(),
        }
    }

    /// The architecture reading `configuration`: the limits of the search for cycles.
    pub fn configured(self, configuration: &ArchConfiguration) -> (r: ModularMonolithArchitecture)
        ensures
            r == (ModularMonolithArchitecture { configuration: *configuration, ..self }),
    {
        ModularMonolithArchitecture { configuration: *configuration, ..self }
    }

    /// Starts defining a module (`module(name)`).
    pub fn module(self, name: &str) -> (r: ModuleDefinition)
        requires
            name@.len() > 0,
        ensures
            r.architecture == self,
            r.name@ == name@,
            !r.optional,
    {
        ModuleDefinition { architecture: self, name: String::from_str(name), optional: false }
    }

    /// Starts defining a module that may be empty (`optional_module(name)`).
    pub fn optional_module(self, name: &str) -> (r: ModuleDefinition)
        requires
            name@.len() > 0,
        ensures
            r.architecture == self,
            r.name@ == name@,
            r.optional,
    {
        ModuleDefinition { architecture: self, name: String::from_str(name), optional: true }
    }

    /// One module per capture group of a package identifier; items of an explicit module keep
    /// it (`modules_defined_by_packages(..)`).
    pub fn modules_defined_by_packages(self, package_identifier: &str) -> (r: ModularMonolithArchitecture)
        requires
            crate::base::package_matcher::identifier_problem(package_identifier@) is None,
        ensures
            r.pattern matches Some(m) && m.wf() && m.identifier@ == package_identifier@,
            r == (ModularMonolithArchitecture { pattern: r.pattern, ..self }),
    {
        ModularMonolithArchitecture { pattern: Some(PackageMatcher::of(package_identifier)), ..self }
    }

    /// Names the modules of the package identifier by `pattern`, with `$1`, `$2`, .. for the
    /// groups (`naming_modules(..)`).
    pub fn naming_modules(self, pattern: &str) -> (r: ModularMonolithArchitecture)
        ensures
            opt_text(r.naming_pattern) == Some(pattern@),
            r == (ModularMonolithArchitecture { naming_pattern: r.naming_pattern, ..self }),
    {
        ModularMonolithArchitecture { naming_pattern: Some(String::from_str(pattern)), ..self }
    }

    /// Starts a constraint on the module named `name` (`where_module(name)`).
    pub fn where_module(self, name: &str) -> (r: ModuleDependencySpecification)
        requires
            self.pattern is Some || exists|i: int| 0 <= i < self.definitions@.len() && (#[trigger] self.definitions@[i]).name@ == name@,
        ensures
            r.architecture == self,
            r.module_name@ == name@,
    {
        ModuleDependencySpecification { architecture: self, module_name: String::from_str(name) }
    }

    /// Modules may depend on items of other modules only where those satisfy `predicate`
    /// (`modules_may_only_depend_on_each_other_through_items_that(..)`).
    pub fn modules_may_only_depend_on_each_other_through_items_that(self, predicate: ItemPredicate) -> (r: ModularMonolithArchitecture)
        ensures
            r == (ModularMonolithArchitecture { through_items: Some(predicate), ..self }),
    {
        ModularMonolithArchitecture { through_items: Some(predicate), ..self }
    }

    /// Modules may depend on items of other modules only in the packages
    /// (`modules_may_only_depend_on_each_other_through_packages(..)`).
    pub fn modules_may_only_depend_on_each_other_through_packages(self, package_identifiers: &Vec<String>) -> (r: ModularMonolithArchitecture)
        ensures
            r.through_items matches Some(p) && p.wf()
                && p.description@ == "reside in any package "@ + predicates::quoted_list(views(package_identifiers@))
                && forall|x: ItemView| #[trigger] p.holds(x) <==> predicates::some_identifier_matches(package_identifiers@, x.package_name),
            r == (ModularMonolithArchitecture { through_items: r.through_items, ..self }),
    {
        self.modules_may_only_depend_on_each_other_through_items_that(predicates::reside_in_any_package(package_identifiers))
    }

    /// The modules must not form cycles (`modules_should_be_free_of_cycles()`).
    pub fn modules_should_be_free_of_cycles(self) -> (r: ModularMonolithArchitecture)
        ensures
            r == (ModularMonolithArchitecture { free_of_cycles: true, ..self }),
    {
        ModularMonolithArchitecture { free_of_cycles: true, ..self }
    }

    /// Ignores dependencies matching `predicate` as well (`ignore_dependency(..)`).
    pub fn ignore_dependency_where(self, predicate: DependencyPredicate) -> (r: ModularMonolithArchitecture)
        requires
            self.wf(),
            predicate.wf(),
        ensures
            r.wf(),
            forall|d: Dependency, items: Seq<RustItem>| #[trigger] opt_dep_holds(r.irrelevant, d, items)
                == (predicate.holds(d, items) || opt_dep_holds(self.irrelevant, d, items)),
            r == (ModularMonolithArchitecture { irrelevant: r.irrelevant, ..self }),
    {
        let ModularMonolithArchitecture {
            definitions,
            pattern,
            naming_pattern,
            specifications,
            through_items,
            free_of_cycles,
            irrelevant,
            overridden_description,
            optional_modules,
            all_items_contained_check,
            configuration,
        } = self;
        let joined = match irrelevant {
            Some(existing) => existing.or(predicate),
            None => predicate,
        };
        ModularMonolithArchitecture {
            definitions,
            pattern,
            naming_pattern,
            specifications,
            through_items,
            free_of_cycles,
            irrelevant: Some(joined),
            overridden_description,
            optional_modules,
            all_items_contained_check,
            configuration,
        }
    }

    /// Ignores dependencies from the item named `origin` on the item named `target` as well
    /// (`ignore_dependency(..)`).
    pub fn ignore_dependency(self, origin: &str, target: &str) -> (r: ModularMonolithArchitecture)
        requires
            self.wf(),
        ensures
            r.wf(),
            forall|d: Dependency, items: Seq<RustItem>| #[trigger] opt_dep_holds(r.irrelevant, d, items)
                == ((resolve(items, d.origin).full_name == origin@ && resolve(items, d.target).full_name == target@)
                    || opt_dep_holds(self.irrelevant, d, items)),
            r == (ModularMonolithArchitecture { irrelevant: r.irrelevant, ..self }),
    {
        let predicate = crate::base::dependency_predicates::dependency(predicates::full_name(origin), predicates::full_name(target));
        self.ignore_dependency_where(predicate)
    }

    /// Whether all modules may be empty (`with_optional_modules(..)`).
    pub fn with_optional_modules(self, optional_modules: bool) -> (r: ModularMonolithArchitecture)
        ensures
            r == (ModularMonolithArchitecture { optional_modules, ..self }),
    {
        ModularMonolithArchitecture { optional_modules, ..self }
    }

    /// Same as [`with_optional_modules`](Self::with_optional_modules) (`allow_empty_should(..)`).
    pub fn allow_empty_should(self, allow_empty_should: bool) -> (r: ModularMonolithArchitecture)
        ensures
            r == (ModularMonolithArchitecture { optional_modules: allow_empty_should, ..self }),
    {
        self.with_optional_modules(allow_empty_should)
    }

    /// Items in no module are violations (`ensure_all_classes_are_contained_in_architecture()`).
    pub fn ensure_all_classes_are_contained_in_architecture(self) -> (r: ModularMonolithArchitecture)
        ensures
            r.all_items_contained_check matches Some(p) && p.test is AlwaysFalse && p.wf(),
            r == (ModularMonolithArchitecture { all_items_contained_check: r.all_items_contained_check, ..self }),
    {
        ModularMonolithArchitecture { all_items_contained_check: Some(predicates::always_false()), ..self }
    }

    /// Like [`ensure_all_classes_are_contained_in_architecture`](Self::ensure_all_classes_are_contained_in_architecture)
    /// but tolerates items in the packages.
    pub fn ensure_all_classes_are_contained_in_architecture_ignoring(self, package_identifiers: &Vec<String>) -> (r: ModularMonolithArchitecture)
        ensures
            r.all_items_contained_check matches Some(p) && p.wf()
                && forall|x: ItemView| #[trigger] p.holds(x) <==> predicates::some_identifier_matches(package_identifiers@, x.package_name),
            r == (ModularMonolithArchitecture { all_items_contained_check: r.all_items_contained_check, ..self }),
    {
        ModularMonolithArchitecture { all_items_contained_check: Some(predicates::reside_in_any_package(package_identifiers)), ..self }
    }

    /// Like [`ensure_all_classes_are_contained_in_architecture`](Self::ensure_all_classes_are_contained_in_architecture)
    /// but tolerates items matching `predicate`.
    pub fn ensure_all_classes_are_contained_in_architecture_ignoring_with(self, predicate: ItemPredicate) -> (r: ModularMonolithArchitecture)
        ensures
            r == (ModularMonolithArchitecture { all_items_contained_check: Some(predicate), ..self }),
    {
        ModularMonolithArchitecture { all_items_contained_check: Some(predicate), ..self }
    }

    /// The same architecture under another description (`as_(..)`).
    pub fn as_(self, description: &str) -> (r: ModularMonolithArchitecture)
        ensures
            r.description_text() == description@,
            r == (ModularMonolithArchitecture { overridden_description: r.overridden_description, ..self }),
    {
        ModularMonolithArchitecture { overridden_description: Some(String::from_str(description)), ..self }
    }

    /// The same architecture with `, because <reason>` appended to the description
    /// (`because(..)`).
    pub fn because(self, reason: &str) -> (r: ModularMonolithArchitecture)
        ensures
            r.description_text() == because_text(self.description_text(), reason@),
            r == (ModularMonolithArchitecture { overridden_description: r.overridden_description, ..self }),
    {
        let description = create_because_description(self.description().as_str(), reason);
        ModularMonolithArchitecture { overridden_description: Some(description), ..self }
    }

    /// Adds constraint `s`, in place of one of the same module and kind.
    fn add_specification(self, s: ModuleSpecification) -> (r: ModularMonolithArchitecture)
        requires
            self.wf(),
        ensures
            r.wf(),
            r.specifications@ == with_module_specification(self.specifications@, s),
            r == (ModularMonolithArchitecture { specifications: r.specifications, ..self }),
    {
        let ModularMonolithArchitecture {
            definitions,
            pattern,
            naming_pattern,
            specifications,
            through_items,
            free_of_cycles,
            irrelevant,
            overridden_description,
            optional_modules,
            all_items_contained_check,
            configuration,
        } = self;
        let mut specifications = specifications;
        let ghost before = specifications@;
        let mut i: usize = 0;
        let mut found: Option<usize> = None;
        while i < specifications.len()
            invariant
                specifications@ == before,
                i <= specifications@.len(),
                found is None ==> module_specification_index(before, s.module_name@, s.constraint, 0)
                    == module_specification_index(before, s.module_name@, s.constraint, i as int),
                found matches Some(k) ==> module_specification_index(before, s.module_name@, s.constraint, 0) == Some(k as int),
            decreases specifications@.len() - i,
        {
            if found.is_none() && str_eq(specifications[i].module_name.as_str(), s.module_name.as_str())
                && specifications[i].constraint == s.constraint {
                found = Some(i);
            }
            i += 1;
        }
        proof {
            lemma_module_specification_index(before, s.module_name@, s.constraint, 0);
        }
        match found {
            Some(k) => {
                specifications.set(k, s);
            },
            None => {
                specifications.push(s);
            },
        }
        proof {
            assert(specifications@ =~= with_module_specification(before, s));
        }
        ModularMonolithArchitecture {
            definitions,
            pattern,
            naming_pattern,
            specifications,
            through_items,
            free_of_cycles,
            irrelevant,
            overridden_description,
            optional_modules,
            all_items_contained_check,
            configuration,
        }
    }
}

impl ModuleDefinition {
    /// The module holds the items matching `predicate`, in place of a module of that name
    /// (`defined_by_with(..)`).
    pub fn defined_by_with(self, predicate: ItemPredicate) -> (r: ModularMonolithArchitecture)
        requires
            self.architecture.wf(),
            predicate.wf(),
        ensures
            r.wf(),
            r.definitions@ == with_module(self.architecture.definitions@, ModuleData { name: self.name, optional: self.optional, contains: predicate }),
            r == (ModularMonolithArchitecture { definitions: r.definitions, ..self.architecture }),
    {
        let d = ModuleData { name: self.name, optional: self.optional, contains: predicate };
        let ModularMonolithArchitecture {
            definitions,
            pattern,
            naming_pattern,
            specifications,
            through_items,
            free_of_cycles,
            irrelevant,
            overridden_description,
            optional_modules,
            all_items_contained_check,
            configuration,
        } = self.architecture;
        let mut definitions = definitions;
        let ghost before = definitions@;
        let mut i: usize = 0;
        let mut found: Option<usize> = None;
        while i < definitions.len()
            invariant
                definitions@ == before,
                i <= definitions@.len(),
                found is None ==> module_index(before, d.name@, 0) == module_index(before, d.name@, i as int),
                found matches Some(k) ==> module_index(before, d.name@, 0) == Some(k as int),
            decreases definitions@.len() - i,
        {
            if found.is_none() && str_eq(definitions[i].name.as_str(), d.name.as_str()) {
                found = Some(i);
            }
            i += 1;
        }
        proof {
            lemma_module_index(before, d.name@, 0);
        }
        match found {
            Some(k) => {
                definitions.set(k, d);
            },
            None => {
                definitions.push(d);
            },
        }
        proof {
            assert(definitions@ =~= with_module(before, d));
        }
        ModularMonolithArchitecture {
            definitions,
            pattern,
            naming_pattern,
            specifications,
            through_items,
            free_of_cycles,
            irrelevant,
            overridden_description,
            optional_modules,
            all_items_contained_check,
            configuration,
        }
    }

    /// The module holds the items in any of the packages, described by the quoted identifiers
    /// (`defined_by(..)`).
    pub fn defined_by(self, package_identifiers: &Vec<String>) -> (r: ModularMonolithArchitecture)
        requires
            self.architecture.wf(),
        ensures
            r.wf(),
            exists|p: ItemPredicate| #[trigger] with_module(self.architecture.definitions@, ModuleData { name: self.name, optional: self.optional, contains: p }) == r.definitions@
                && p.description@ == join_single_quoted(views(package_identifiers@))
                && forall|x: ItemView| #[trigger] p.holds(x) <==> predicates::some_identifier_matches(package_identifiers@, x.package_name),
            r == (ModularMonolithArchitecture { definitions: r.definitions, ..self.architecture }),
    {
        let p = predicates::reside_in_any_package(package_identifiers).as_(join_quoted(package_identifiers).as_str());
        let ghost g = p;
        let r = self.defined_by_with(p);
        proof {
            assert(with_module(self.architecture.definitions@, ModuleData { name: self.name, optional: self.optional, contains: g }) == r.definitions@);
        }
        r
    }
}

impl ModuleDependencySpecification {
    fn deny(self, constraint: ModuleConstraint, description: &str) -> (r: ModularMonolithArchitecture)
        requires
            self.architecture.wf(),
        ensures
            constrained(self.architecture, r, self.module_name, constraint, Seq::empty(), description@),
    {
        let s = ModuleSpecification {
            module_name: self.module_name,
            allowed: Vec::new(),
            constraint,
            description_suffix: String::from_str(description),
        };
        let ghost g = s;
        proof {
            assert(views(s.allowed@) =~= Seq::<Seq<char>>::empty());
        }
        let r = self.architecture.add_specification(s);
        proof {
            assert(with_module_specification(self.architecture.specifications@, g) == r.specifications@);
        }
        r
    }

    fn restrict(self, constraint: ModuleConstraint, names: &Vec<String>, description: &str) -> (r: ModularMonolithArchitecture)
        requires
            self.architecture.wf(),
        ensures
            constrained(self.architecture, r, self.module_name, constraint, distinct_texts(views(names@)), restriction_text(description@, views(names@))),
    {
        let mut allowed: Vec<String> = Vec::new();
        let mut i: usize = 0;
        while i < names.len()
            invariant
                i <= names@.len(),
                views(allowed@) == distinct_texts(views(names@).take(i as int)),
            decreases names@.len() - i,
        {
            proof {
                assert(views(names@).take(i + 1).drop_last() =~= views(names@).take(i as int));
                assert(views(names@).take(i + 1).last() == names@[i as int]@);
                predicates::lemma_has_string_contains(allowed@, names@[i as int]@);
            }
            if !crate::domain::contains_string(&allowed, names[i].as_str()) {
                let ghost before = allowed@;
                allowed.push(names[i].clone());
                proof {
                    assert(views(allowed@) =~= views(before).push(names@[i as int]@));
                }
            }
            i += 1;
        }
        proof {
            assert(views(names@).take(names@.len() as int) =~= views(names@));
        }
        let mut suffix = cat3(description, " [", join_quoted(names).as_str());
        suffix.append("]");
        let s = ModuleSpecification { module_name: self.module_name, allowed, constraint, description_suffix: suffix };
        let ghost g = s;
        let r = self.architecture.add_specification(s);
        proof {
            assert(with_module_specification(self.architecture.specifications@, g) == r.specifications@);
        }
        r
    }

    /// The module may depend only on the named modules (`may_only_depend_on_modules(..)`).
    pub fn may_only_depend_on_modules(self, module_names: &Vec<String>) -> (r: ModularMonolithArchitecture)
        requires
            self.architecture.wf(),
            module_names@.len() > 0,
            self.architecture.pattern is None ==> forall|i: int| 0 <= i < module_names@.len() ==> exists|j: int|
                0 <= j < self.architecture.definitions@.len() && (#[trigger] self.architecture.definitions@[j]).name@ == (#[trigger] module_names@[i])@,
        ensures
            constrained(self.architecture, r, self.module_name, ModuleConstraint::Target, distinct_texts(views(module_names@)),
                restriction_text("may only depend on modules"@, views(module_names@))),
    {
        self.restrict(ModuleConstraint::Target, module_names, "may only depend on modules")
    }

    /// The module may depend on no module (`may_not_depend_on_any_module()`).
    pub fn may_not_depend_on_any_module(self) -> (r: ModularMonolithArchitecture)
        requires
            self.architecture.wf(),
        ensures
            constrained(self.architecture, r, self.module_name, ModuleConstraint::Target, Seq::empty(), "may not depend on any module"@),
    {
        self.deny(ModuleConstraint::Target, "may not depend on any module")
    }

    /// Only the named modules may depend on this one (`may_only_be_depended_on_by_modules(..)`).
    pub fn may_only_be_depended_on_by_modules(self, module_names: &Vec<String>) -> (r: ModularMonolithArchitecture)
        requires
            self.architecture.wf(),
            module_names@.len() > 0,
            self.architecture.pattern is None ==> forall|i: int| 0 <= i < module_names@.len() ==> exists|j: int|
                0 <= j < self.architecture.definitions@.len() && (#[trigger] self.architecture.definitions@[j]).name@ == (#[trigger] module_names@[i])@,
        ensures
            constrained(self.architecture, r, self.module_name, ModuleConstraint::Origin, distinct_texts(views(module_names@)),
                restriction_text("may only be depended on by modules"@, views(module_names@))),
    {
        self.restrict(ModuleConstraint::Origin, module_names, "may only be depended on by modules")
    }

    /// No module may depend on this one (`may_not_be_depended_on_by_any_module()`).
    pub fn may_not_be_depended_on_by_any_module(self) -> (r: ModularMonolithArchitecture)
        requires
            self.architecture.wf(),
        ensures
            constrained(self.architecture, r, self.module_name, ModuleConstraint::Origin, Seq::empty(), "may not be depended on by any module"@),
    {
        self.deny(ModuleConstraint::Origin, "may not be depended on by any module")
    }
}


/// A dependency reported under a module constraint is one that the constraint does not allow.
proof fn lemma_failing_not_allowed(arch: ModularMonolithArchitecture, s: ModuleSpecification, items: Seq<RustItem>, deps: Seq<Dependency>, k: int)
    requires
        0 <= k < arch.failing(s, items, deps).len(),
    ensures
        !arch.allowed(s, arch.failing(s, items, deps)[k], items),
    decreases deps.len(),
{
    if deps.len() > 0 {
        let rest = arch.failing(s, items, deps.drop_last());
        if k < rest.len() {
            lemma_failing_not_allowed(arch, s, items, deps.drop_last(), k);
        }
    }
}

/// A module may always depend on itself: under any constraint on a module, a dependency whose
/// origin and target both belong to that module is never reported.
pub proof fn lemma_module_may_depend_on_itself(arch: ModularMonolithArchitecture, s: ModuleSpecification, items: Seq<RustItem>, deps: Seq<Dependency>, d: Dependency)
    requires
        arch.module_of(resolve(items, d.origin)) == Some(s.module_name@),
        arch.module_of(resolve(items, d.target)) == Some(s.module_name@),
    ensures
        arch.allowed(s, d, items),
        !arch.failing(s, items, deps).contains(d),
{
    let names = views(s.allowed@).push(s.module_name@);
    assert(names[names.len() - 1] == s.module_name@);
    assert(names.contains(s.module_name@));
    if arch.failing(s, items, deps).contains(d) {
        let k = choose|k: int| 0 <= k < arch.failing(s, items, deps).len() && arch.failing(s, items, deps)[k] == d;
        lemma_failing_not_allowed(arch, s, items, deps, k);
    }
}


/// Dependencies that all stay inside the constrained module are never reported under it.
proof fn lemma_internal_dependencies_not_failing(arch: ModularMonolithArchitecture, s: ModuleSpecification, items: Seq<RustItem>, deps: Seq<Dependency>)
    requires
        forall|j: int| 0 <= j < deps.len() ==> arch.module_of(resolve(items, (#[trigger] deps[j]).origin)) == Some(s.module_name@)
            && arch.module_of(resolve(items, deps[j].target)) == Some(s.module_name@),
    ensures
        arch.failing(s, items, deps).len() == 0,
    decreases deps.len(),
{
    if deps.len() > 0 {
        let rest = deps.drop_last();
        assert forall|j: int| 0 <= j < rest.len() implies arch.module_of(resolve(items, (#[trigger] rest[j]).origin)) == Some(s.module_name@)
            && arch.module_of(resolve(items, rest[j].target)) == Some(s.module_name@) by {
            assert(rest[j] == deps[j]);
        }
        lemma_internal_dependencies_not_failing(arch, s, items, rest);
        assert(deps.last() == deps[deps.len() - 1]);
        lemma_module_may_depend_on_itself(arch, s, items, deps, deps.last());
    }
}

/// Where every dependency among the items stays inside one module, no constraint on that
/// module reports a violation.
pub proof fn lemma_module_internal_items_pass(arch: ModularMonolithArchitecture, s: ModuleSpecification, items: Seq<RustItem>, xs: Seq<RustItem>)
    requires
        forall|i: int, j: int| 0 <= i < items.len() && 0 <= j < items[i].dependencies@.len()
            ==> arch.module_of(resolve(items, (#[trigger] items[i].dependencies@[j]).origin)) == Some(s.module_name@)
            && arch.module_of(resolve(items, items[i].dependencies@[j].target)) == Some(s.module_name@),
        forall|i: int| 0 <= i < xs.len() ==> items.contains(#[trigger] xs[i]),
    ensures
        arch.constraint_lines(s, items, xs).len() == 0,
    decreases xs.len(),
{
    if xs.len() > 0 {
        let rest = xs.drop_last();
        assert forall|i: int| 0 <= i < rest.len() implies items.contains(#[trigger] rest[i]) by {
            assert(rest[i] == xs[i]);
        }
        lemma_module_internal_items_pass(arch, s, items, rest);
        let x = xs.last();
        assert(x == xs[xs.len() - 1]);
        let p = |d: Dependency| arch.module_of(resolve(items, d.origin)) == Some(s.module_name@)
            && arch.module_of(resolve(items, d.target)) == Some(s.module_name@);
        match s.constraint {
            ModuleConstraint::Origin => {
                crate::domain::lemma_dependencies_to_among(items, x.full_name@, p);
                lemma_internal_dependencies_not_failing(arch, s, items, dependencies_to(items, x.full_name@));
            },
            ModuleConstraint::Target => {
                let i = choose|i: int| 0 <= i < items.len() && items[i] == x;
                assert forall|j: int| 0 <= j < x.dependencies@.len() implies arch.module_of(resolve(items, (#[trigger] x.dependencies@[j]).origin)) == Some(s.module_name@)
                    && arch.module_of(resolve(items, x.dependencies@[j].target)) == Some(s.module_name@) by {
                    assert(items[i].dependencies@[j] == x.dependencies@[j]);
                }
                lemma_internal_dependencies_not_failing(arch, s, items, x.dependencies@);
            },
        }
    }
}


/// A dependency that a module constraint does not allow is reported among those it is checked
/// on.
proof fn lemma_not_allowed_failing(arch: ModularMonolithArchitecture, s: ModuleSpecification, items: Seq<RustItem>, deps: Seq<Dependency>, k: int)
    requires
        0 <= k < deps.len(),
        !arch.allowed(s, deps[k], items),
    ensures
        arch.failing(s, items, deps).contains(deps[k]),
    decreases deps.len(),
{
    let f = arch.failing(s, items, deps);
    if k < deps.len() - 1 {
        let rest = deps.drop_last();
        assert(rest[k] == deps[k]);
        lemma_not_allowed_failing(arch, s, items, rest, k);
        let a = arch.failing(s, items, rest);
        let j = choose|j: int| 0 <= j < a.len() && a[j] == deps[k];
        assert(f[j] == a[j]);
    } else {
        assert(f[f.len() - 1] == deps.last());
    }
}

/// Where no dependency is declared irrelevant, a dependency between two modules whose
/// restricted end (its target for `may only depend on`, its origin for `may only be
/// accessed by`) belongs to a module that is neither the constrained one nor one it allows is
/// reported under the constraint.
pub proof fn lemma_other_modules_reported(arch: ModularMonolithArchitecture, s: ModuleSpecification, items: Seq<RustItem>, deps: Seq<Dependency>, k: int, m: Seq<char>)
    requires
        0 <= k < deps.len(),
        arch.irrelevant is None,
        arch.module_of(resolve(items, deps[k].origin)) is Some,
        arch.module_of(resolve(items, deps[k].target)) is Some,
        arch.module_of(match s.constraint {
            ModuleConstraint::Target => resolve(items, deps[k].target),
            ModuleConstraint::Origin => resolve(items, deps[k].origin),
        }) == Some(m),
        m != s.module_name@,
        !views(s.allowed@).contains(m),
    ensures
        arch.failing(s, items, deps).contains(deps[k]),
{
    let names = views(s.allowed@).push(s.module_name@);
    if names.contains(m) {
        let q = choose|q: int| 0 <= q < names.len() && names[q] == m;
        if q < names.len() - 1 {
            assert(views(s.allowed@)[q] == names[q]);
        }
    }
    lemma_not_allowed_failing(arch, s, items, deps, k);
}


/// A dependency reported as not passing through the exposed items is one that does not pass.
proof fn lemma_not_passing_fails(arch: ModularMonolithArchitecture, through: ItemPredicate, items: Seq<RustItem>, deps: Seq<Dependency>, k: int)
    requires
        0 <= k < arch.not_passing(through, items, deps).len(),
    ensures
        !arch.passes(through, arch.not_passing(through, items, deps)[k], items),
    decreases deps.len(),
{
    if deps.len() > 0 {
        let rest = arch.not_passing(through, items, deps.drop_last());
        if k < rest.len() {
            lemma_not_passing_fails(arch, through, items, deps.drop_last(), k);
        }
    }
}

/// A dependency that does not pass is reported among those it is checked on.
proof fn lemma_failing_not_passing(arch: ModularMonolithArchitecture, through: ItemPredicate, items: Seq<RustItem>, deps: Seq<Dependency>, k: int)
    requires
        0 <= k < deps.len(),
        !arch.passes(through, deps[k], items),
    ensures
        arch.not_passing(through, items, deps).contains(deps[k]),
    decreases deps.len(),
{
    let f = arch.not_passing(through, items, deps);
    if k < deps.len() - 1 {
        let rest = deps.drop_last();
        assert(rest[k] == deps[k]);
        lemma_failing_not_passing(arch, through, items, rest, k);
        let a = arch.not_passing(through, items, rest);
        let j = choose|j: int| 0 <= j < a.len() && a[j] == deps[k];
        assert(f[j] == a[j]);
    } else {
        assert(f[f.len() - 1] == deps.last());
    }
}

/// Only dependencies between modules must go through exposed items: a dependency whose origin
/// and target belong to the same module is never reported as not passing through them; where
/// no dependency is declared irrelevant, a dependency from one module into another whose
/// target is not exposed is reported.
pub proof fn lemma_exposure_between_modules(arch: ModularMonolithArchitecture, through: ItemPredicate, items: Seq<RustItem>, deps: Seq<Dependency>, k: int)
    requires
        0 <= k < deps.len(),
    ensures
        arch.module_of(resolve(items, deps[k].origin)) == arch.module_of(resolve(items, deps[k].target))
            ==> !arch.not_passing(through, items, deps).contains(deps[k]),
        arch.irrelevant is None && arch.module_of(resolve(items, deps[k].origin)) is Some
            && arch.module_of(resolve(items, deps[k].target)) is Some
            && arch.module_of(resolve(items, deps[k].origin)) != arch.module_of(resolve(items, deps[k].target))
            && !through.holds(resolve(items, deps[k].target))
            ==> arch.not_passing(through, items, deps).contains(deps[k]),
{
    let d = deps[k];
    if arch.module_of(resolve(items, d.origin)) == arch.module_of(resolve(items, d.target)) {
        if arch.not_passing(through, items, deps).contains(d) {
            let j = choose|j: int| 0 <= j < arch.not_passing(through, items, deps).len() && arch.not_passing(through, items, deps)[j] == d;
            lemma_not_passing_fails(arch, through, items, deps, j);
        }
    }
    if arch.irrelevant is None && arch.module_of(resolve(items, d.origin)) is Some
        && arch.module_of(resolve(items, d.target)) is Some
        && arch.module_of(resolve(items, d.origin)) != arch.module_of(resolve(items, d.target))
        && !through.holds(resolve(items, d.target)) {
        lemma_failing_not_passing(arch, through, items, deps, k);
    }
}

} // verus!



