//! Layered architectures: layers of items, which layers
//! may depend on which, and the violations of a crate against them.

pub mod onion;

use vstd::prelude::*;
use vstd::string::*;

use crate::base::dependency_predicates::DependencyPredicate;
use crate::base::predicates::{self, ItemPredicate};
use crate::domain::{dependencies_to, resolve, Dependency, ItemView, RustItem, RustItems};
use crate::lang::condition::{deps_described, item_described, items_described, lemma_dependencies_to_described, objects_of};
use crate::lang::evaluation::{EvaluationResult, ResultView};
use crate::lang::events::{event_views, face_lines, is_white, ConditionEvent, CorrespondingObject, EventView, SimpleConditionEvent};
use crate::lang::rule::{assert_no_violation, assertion_outcome, because_text, create_because_description, outcome_view, Priority};
use crate::library::dependencies::rules::{all_violations, descriptions, violation_lines};
use crate::text::{cat, cat3, join, join_quoted, join_seq, join_single_quoted, str_eq, views};



verus! {

/// A layer: its name, whether it may be empty, and the items it holds.
#[derive(Debug)]
pub struct LayerData {
    /// The name.
    pub name: String,
    /// Whether the layer may be empty.
    pub optional: bool,
    /// Which items it holds.
    pub contains: ItemPredicate,
}

/// Which end of a dependency a constraint on a layer restricts.
#[derive(Debug, Clone, Copy, PartialEq, Eq, Structural)]
pub enum LayerConstraint {
    /// Who may depend on the layer.
    Origin,
    /// What the layer may depend on.
    Target,
}

/// A constraint on a layer: the layers allowed at the other end of its dependencies.
#[derive(Debug)]
pub struct LayerSpecification {
    /// The constrained layer.
    pub layer_name: String,
    /// The layers allowed at the other end, besides the layer itself.
    pub allowed_layers: Vec<String>,
    /// Which end is restricted.
    pub constraint: LayerConstraint,
    /// How the constraint reads after `where layer '<name>' `.
    pub description_suffix: String,
}

/// Which dependencies count (`DependencySettings`).
#[derive(Debug)]
pub enum DependencyScope {
    /// Every dependency.
    All,
    /// Only those whose origin and target do not satisfy the predicate (items outside the
    /// packages).
    InAnyPackage(ItemPredicate),
    /// Only those between items of the layers.
    InLayers,
}

/// A layered architecture rule.
#[derive(Debug)]
pub struct LayeredArchitecture {
    /// The layers, in the order they were defined.
    pub layers: Vec<LayerData>,
    /// The constraints, in the order they were given.
    pub specifications: Vec<LayerSpecification>,
    /// Which dependencies count.
    pub scope: DependencyScope,
    /// How the scope reads, e.g. `considering all dependencies`.
    pub scope_description: String,
    /// Dependencies that do not count.
    pub irrelevant: Option<DependencyPredicate>,
    /// A description in place of the generated one.
    pub overridden_description: Option<String>,
    /// Whether all layers may be empty.
    pub optional_layers: bool,
    /// Where items must all belong to a layer: those it tolerates outside.
    pub all_items_contained_check: Option<ItemPredicate>,
}

/// Some layer named in `names` holds `x`.
pub open spec fn layer_holds(layers: Seq<LayerData>, names: Seq<Seq<char>>, x: ItemView) -> bool {
    exists|i: int| 0 <= i < layers.len() && names.contains(layers[i].name@) && #[trigger] layers[i].contains.holds(x)
}

/// The names of the layers.
pub open spec fn layer_names(layers: Seq<LayerData>) -> Seq<Seq<char>> {
    layers.map_values(|l: LayerData| l.name@)
}

impl LayeredArchitecture {
    /// Every predicate inside is well formed and layer names are unique.
    pub open spec fn wf(&self) -> bool {
        &&& forall|i: int| 0 <= i < self.layers@.len() ==> (#[trigger] self.layers@[i]).contains.wf()
        &&& match self.scope {
            DependencyScope::InAnyPackage(p) => p.wf(),
            _ => true,
        }
        &&& match self.irrelevant {
            Some(p) => p.wf(),
            None => true,
        }
        &&& match self.all_items_contained_check {
            Some(p) => p.wf(),
            None => true,
        }
    }

    /// The dependency does not count for the scope.
    pub open spec fn excluded(&self, d: Dependency, items: Seq<RustItem>) -> bool {
        match self.scope {
            DependencyScope::All => false,
            DependencyScope::InAnyPackage(outside) => outside.holds(resolve(items, d.origin)) || outside.holds(resolve(items, d.target)),
            DependencyScope::InLayers => !layer_holds(self.layers@, layer_names(self.layers@), resolve(items, d.origin))
                || !layer_holds(self.layers@, layer_names(self.layers@), resolve(items, d.target)),
        }
    }

    /// Under constraint `s`, the dependency is fine: its other end is in an allowed layer or
    /// the layer itself, or it does not count.
    pub open spec fn allowed(&self, s: LayerSpecification, d: Dependency, items: Seq<RustItem>) -> bool {
        let end = match s.constraint {
            LayerConstraint::Origin => resolve(items, d.origin),
            LayerConstraint::Target => resolve(items, d.target),
        };
        ||| layer_holds(self.layers@, views(s.allowed_layers@).push(s.layer_name@), end)
        ||| self.excluded(d, items)
        ||| (self.irrelevant matches Some(p) && p.holds(d, items))
    }

    /// The dependencies of `deps` that are not fine under `s`.
    pub open spec fn failing(&self, s: LayerSpecification, items: Seq<RustItem>, deps: Seq<Dependency>) -> Seq<Dependency>
        decreases deps.len(),
    {
        if deps.len() == 0 {
            Seq::empty()
        } else {
            self.failing(s, items, deps.drop_last()) + if self.allowed(s, deps.last(), items) {
                Seq::empty()
            } else {
                seq![deps.last()]
            }
        }
    }

    /// The violations of constraint `s` among `xs`: for each item of its layer with a
    /// dependency that is not fine, the descriptions of those dependencies.
    pub open spec fn constraint_lines(&self, s: LayerSpecification, items: Seq<RustItem>, xs: Seq<RustItem>) -> Seq<Seq<Seq<char>>>
        decreases xs.len(),
    {
        if xs.len() == 0 {
            Seq::empty()
        } else {
            let x = xs.last();
            let deps = match s.constraint {
                LayerConstraint::Origin => dependencies_to(items, x.full_name@),
                LayerConstraint::Target => x.dependencies@,
            };
            self.constraint_lines(s, items, xs.drop_last()) + if layer_holds(self.layers@, seq![s.layer_name@], x@)
                && self.failing(s, items, deps).len() > 0 {
                seq![descriptions(self.failing(s, items, deps))]
            } else {
                Seq::empty()
            }
        }
    }

    /// The violations of the constraints, one constraint after the other.
    pub open spec fn constraints_lines(&self, specs: Seq<LayerSpecification>, items: Seq<RustItem>) -> Seq<Seq<Seq<char>>>
        decreases specs.len(),
    {
        if specs.len() == 0 {
            Seq::empty()
        } else {
            self.constraints_lines(specs.drop_last(), items) + self.constraint_lines(specs.last(), items, items)
        }
    }

    /// `Layer '<name>' is empty` for each layer among `ls` that must not be empty and holds no
    /// item.
    pub open spec fn empty_layer_lines(&self, ls: Seq<LayerData>, items: Seq<RustItem>) -> Seq<Seq<Seq<char>>>
        decreases ls.len(),
    {
        if ls.len() == 0 {
            Seq::empty()
        } else {
            let l = ls.last();
            self.empty_layer_lines(ls.drop_last(), items) + if !self.optional_layers && !l.optional
                && !(exists|k: int| 0 <= k < items.len() && layer_holds(self.layers@, seq![l.name@], #[trigger] items[k]@)) {
                seq![seq!["Layer '"@ + l.name@ + "' is empty"@]]
            } else {
                Seq::empty()
            }
        }
    }

    /// `Item <name> is not contained in architecture` for each item of `xs` in no layer and not
    /// tolerated, where that is checked.
    pub open spec fn uncontained_lines(&self, xs: Seq<RustItem>) -> Seq<Seq<Seq<char>>>
        decreases xs.len(),
    {
        if xs.len() == 0 {
            Seq::empty()
        } else {
            let x = xs.last();
            self.uncontained_lines(xs.drop_last()) + match self.all_items_contained_check {
                Some(ignore) => if !ignore.holds(x@) && !layer_holds(self.layers@, layer_names(self.layers@), x@) {
                    seq![seq!["Item <"@ + x.full_name@ + "> is not contained in architecture"@]]
                } else {
                    Seq::empty()
                },
                None => Seq::empty(),
            }
        }
    }

    /// The lines of all violations of the architecture on `items`: empty layers, items in no
    /// layer, then the violations of each constraint.
    pub open spec fn violation_lines_on(&self, items: Seq<RustItem>) -> Seq<Seq<Seq<char>>> {
        self.empty_layer_lines(self.layers@, items) + self.uncontained_lines(items)
            + self.constraints_lines(self.specifications@, items)
    }

    /// How a layer reads: `[optional ]layer '<name>' (<predicate>)`.
    pub open spec fn layer_text(l: LayerData) -> Seq<char> {
        (if l.optional { "optional "@ } else { Seq::empty() }) + "layer '"@ + l.name@ + "' ("@ + l.contains.description@ + ")"@
    }

    /// The description: the overriding one, or one line for the scope, each layer and each
    /// constraint.
    pub open spec fn description_text(&self) -> Seq<char> {
        match self.overridden_description {
            Some(d) => d@,
            None => join_seq(
                seq!["Layered architecture "@ + self.scope_description@ + ", consisting of"@ + if self.optional_layers {
                    " (optional)"@
                } else {
                    Seq::empty()
                }]
                    + self.layers@.map_values(|l: LayerData| Self::layer_text(l))
                    + self.specifications@.map_values(|s: LayerSpecification| "where layer '"@ + s.layer_name@ + "' "@ + s.description_suffix@),
                "\n"@,
            ),
        }
    }
}

/// Whether some layer named in `names` holds `x`.
fn layer_test(layers: &Vec<LayerData>, names: &Vec<String>, x: &RustItem) -> (r: bool)
    requires
        forall|i: int| 0 <= i < layers@.len() ==> (#[trigger] layers@[i]).contains.wf(),
    ensures
        r == layer_holds(layers@, views(names@), x@),
{
    let mut i: usize = 0;
    while i < layers.len()
        invariant
            i <= layers@.len(),
            forall|k: int| 0 <= k < layers@.len() ==> (#[trigger] layers@[k]).contains.wf(),
            forall|k: int| 0 <= k < i ==> !(views(names@).contains(layers@[k].name@) && (#[trigger] layers@[k]).contains.holds(x@)),
        decreases layers@.len() - i,
    {
        proof {
            predicates::lemma_has_string_contains(names@, layers@[i as int].name@);
        }
        if crate::domain::contains_string(names, layers[i].name.as_str()) && layers[i].contains.test(x) {
            return true;
        }
        i += 1;
    }
    false
}

/// Whether the layer named `name` holds `x`.
fn in_layer(layers: &Vec<LayerData>, name: &String, x: &RustItem) -> (r: bool)
    requires
        forall|i: int| 0 <= i < layers@.len() ==> (#[trigger] layers@[i]).contains.wf(),
    ensures
        r == layer_holds(layers@, seq![name@], x@),
{
    let mut names: Vec<String> = Vec::new();
    names.push(name.clone());
    proof {
        assert(views(names@) =~= seq![name@]);
    }
    layer_test(layers, &names, x)
}

/// The names of the layers.
fn names_of_layers(layers: &Vec<LayerData>) -> (r: Vec<String>)
    ensures
        views(r@) == layer_names(layers@),
{
    let mut r: Vec<String> = Vec::new();
    let mut i: usize = 0;
    while i < layers.len()
        invariant
            i <= layers@.len(),
            views(r@) == layer_names(layers@.take(i as int)),
        decreases layers@.len() - i,
    {
        let ghost before = r@;
        r.push(layers[i].name.clone());
        proof {
            assert(views(r@) =~= views(before).push(layers@[i as int].name@));
            assert(layer_names(layers@.take(i + 1)) =~= layer_names(layers@.take(i as int)).push(layers@[i as int].name@));
        }
        i += 1;
    }
    proof {
        assert(layers@.take(layers@.len() as int) =~= layers@);
    }
    r
}

/// A violation of one line, `text`, about `object`.
fn one_line_violation(object: CorrespondingObject, text: String) -> (r: ConditionEvent)
    requires
        text@.len() > 0,
        !is_white(text@[0]),
    ensures
        r@.face.violation,
        r@.face.lines == seq![text@],
{
    SimpleConditionEvent::violated(object, text).into_event()
}

impl LayeredArchitecture {
    /// Whether the dependency does not count for the scope.
    fn excluded_test(&self, d: &Dependency, items: &RustItems, all_names: &Vec<String>) -> (r: bool)
        requires
            self.wf(),
            views(all_names@) == layer_names(self.layers@),
        ensures
            r == self.excluded(*d, items.items@),
    {
        match &self.scope {
            DependencyScope::All => false,
            DependencyScope::InAnyPackage(outside) => {
                outside.test(&items.resolve(&d.origin)) || outside.test(&items.resolve(&d.target))
            },
            DependencyScope::InLayers => {
                !layer_test(&self.layers, all_names, &items.resolve(&d.origin))
                    || !layer_test(&self.layers, all_names, &items.resolve(&d.target))
            },
        }
    }

    /// Whether the dependency is fine under constraint `s`.
    fn allowed_test(&self, s: &LayerSpecification, d: &Dependency, items: &RustItems, all_names: &Vec<String>) -> (r: bool)
        requires
            self.wf(),
            views(all_names@) == layer_names(self.layers@),
        ensures
            r == self.allowed(*s, *d, items.items@),
    {
        let end = match s.constraint {
            LayerConstraint::Origin => items.resolve(&d.origin),
            LayerConstraint::Target => items.resolve(&d.target),
        };
        let mut names = crate::text::clone_strings(&s.allowed_layers);
        let ghost before = names@;
        names.push(s.layer_name.clone());
        proof {
            assert(views(names@) =~= views(s.allowed_layers@).push(s.layer_name@));
        }
        if layer_test(&self.layers, &names, &end) {
            return true;
        }
        if self.excluded_test(d, items, all_names) {
            return true;
        }
        match &self.irrelevant {
            Some(p) => p.test(d, items),
            None => false,
        }
    }

    /// The violations of empty layers among `self.layers`.
    fn empty_layer_violations(&self, items: &RustItems) -> (r: Vec<ConditionEvent>)
        requires
            self.wf(),
        ensures
            all_violations(event_views(r@)),
            violation_lines(event_views(r@)) == self.empty_layer_lines(self.layers@, items.items@),
    {
        let mut r: Vec<ConditionEvent> = Vec::new();
        let mut i: usize = 0;
        while i < self.layers.len()
            invariant
                self.wf(),
                i <= self.layers@.len(),
                all_violations(event_views(r@)),
                violation_lines(event_views(r@)) == self.empty_layer_lines(self.layers@.take(i as int), items.items@),
            decreases self.layers@.len() - i,
        {
            let l = &self.layers[i];
            proof {
                assert(self.layers@.take(i + 1).drop_last() =~= self.layers@.take(i as int));
                assert(self.layers@.take(i + 1).last() == *l);
            }
            if !self.optional_layers && !l.optional {
                let mut found = false;
                let mut k: usize = 0;
                while k < items.items.len()
                    invariant
                        self.wf(),
                        k <= items.items@.len(),
                        found == exists|q: int| 0 <= q < k && layer_holds(self.layers@, seq![l.name@], #[trigger] items.items@[q]@),
                    decreases items.items@.len() - k,
                {
                    if in_layer(&self.layers, &l.name, &items.items[k]) {
                        found = true;
                    }
                    k += 1;
                }
                if !found {
                    let text = cat3("Layer '", l.name.as_str(), "' is empty");
                    proof {
                        reveal_strlit("Layer '");
                        assert(text@[0] == 'L');
                    }
                    let e = one_line_violation(CorrespondingObject::Other(l.name.clone()), text);
                    let ghost before = event_views(r@);
                    r.push(e);
                    proof {
                        assert(event_views(r@) =~= before.push(e@));
                        assert(violation_lines(event_views(r@)) =~= violation_lines(before).push(e@.face.lines));
                    }
                } else {
                    proof {
                        assert(violation_lines(event_views(r@)) =~= violation_lines(event_views(r@)) + Seq::<Seq<Seq<char>>>::empty());
                    }
                }
            } else {
                proof {
                    assert(violation_lines(event_views(r@)) =~= violation_lines(event_views(r@)) + Seq::<Seq<Seq<char>>>::empty());
                }
            }
            i += 1;
        }
        proof {
            assert(self.layers@.take(self.layers@.len() as int) =~= self.layers@);
        }
        r
    }

    /// The violations of items in no layer.
    fn uncontained_violations(&self, items: &RustItems, all_names: &Vec<String>) -> (r: Vec<ConditionEvent>)
        requires
            self.wf(),
            views(all_names@) == layer_names(self.layers@),
        ensures
            all_violations(event_views(r@)),
            violation_lines(event_views(r@)) == self.uncontained_lines(items.items@),
    {
        let mut r: Vec<ConditionEvent> = Vec::new();
        let mut i: usize = 0;
        while i < items.items.len()
            invariant
                self.wf(),
                views(all_names@) == layer_names(self.layers@),
                i <= items.items@.len(),
                all_violations(event_views(r@)),
                violation_lines(event_views(r@)) == self.uncontained_lines(items.items@.take(i as int)),
            decreases items.items@.len() - i,
        {
            let x = &items.items[i];
            proof {
                assert(items.items@.take(i + 1).drop_last() =~= items.items@.take(i as int));
                assert(items.items@.take(i + 1).last() == *x);
            }
            let violated = match &self.all_items_contained_check {
                Some(ignore) => !ignore.test(x) && !layer_test(&self.layers, all_names, x),
                None => false,
            };
            if violated {
                let text = cat3("Item <", x.full_name.as_str(), "> is not contained in architecture");
                proof {
                    reveal_strlit("Item <");
                    assert(text@[0] == 'I');
                }
                let e = one_line_violation(CorrespondingObject::Item(x.reference()), text);
                let ghost before = event_views(r@);
                r.push(e);
                proof {
                    assert(event_views(r@) =~= before.push(e@));
                    assert(violation_lines(event_views(r@)) =~= violation_lines(before).push(e@.face.lines));
                }
            } else {
                proof {
                    assert(violation_lines(event_views(r@)) =~= violation_lines(event_views(r@)) + Seq::<Seq<Seq<char>>>::empty());
                }
            }
            i += 1;
        }
        proof {
            assert(items.items@.take(items.items@.len() as int) =~= items.items@);
        }
        r
    }

    /// The violation of constraint `s` by the dependencies `deps` of an item, if any.
    fn dependency_violation(&self, s: &LayerSpecification, deps: &Vec<Dependency>, items: &RustItems, all_names: &Vec<String>) -> (r: Option<ConditionEvent>)
        requires
            self.wf(),
            views(all_names@) == layer_names(self.layers@),
            deps_described(deps@),
        ensures
            r is Some <==> self.failing(*s, items.items@, deps@).len() > 0,
            r matches Some(e) ==> e@.face.violation && e@.face.lines == descriptions(self.failing(*s, items.items@, deps@)),
    {
        let mut allowed: Vec<ConditionEvent> = Vec::new();
        let mut violating: Vec<ConditionEvent> = Vec::new();
        let mut j: usize = 0;
        while j < deps.len()
            invariant
                self.wf(),
                views(all_names@) == layer_names(self.layers@),
                deps_described(deps@),
                j <= deps@.len(),
                violating@.len() == self.failing(*s, items.items@, deps@.take(j as int)).len(),
                face_lines(event_views(violating@)) == descriptions(self.failing(*s, items.items@, deps@.take(j as int))),
            decreases deps@.len() - j,
        {
            proof {
                assert(deps@.take(j + 1).drop_last() =~= deps@.take(j as int));
                assert(deps@.take(j + 1).last() == deps@[j as int]);
                assert(!crate::lang::events::is_blank(deps@[j as int].description@));
            }
            let ok = self.allowed_test(s, &deps[j], items, all_names);
            let e = SimpleConditionEvent::new(CorrespondingObject::Dependency(deps[j].copy()), ok, deps[j].description.clone()).into_event();
            if ok {
                allowed.push(e);
                proof {
                    assert(self.failing(*s, items.items@, deps@.take(j + 1)) =~= self.failing(*s, items.items@, deps@.take(j as int)));
                }
            } else {
                let ghost before = event_views(violating@);
                let ghost fb = self.failing(*s, items.items@, deps@.take(j as int));
                violating.push(e);
                proof {
                    assert(event_views(violating@) =~= before.push(e@));
                    assert(event_views(violating@).drop_last() =~= before);
                    assert(self.failing(*s, items.items@, deps@.take(j + 1)) == fb.push(deps@[j as int]));
                    assert(descriptions(fb.push(deps@[j as int])) =~= descriptions(fb) + seq![deps@[j as int].description@]);
                }
            }
            j += 1;
        }
        proof {
            assert(deps@.take(deps@.len() as int) =~= deps@);
        }
        if violating.len() == 0 {
            return None;
        }
        let objects = objects_of(deps);
        Some(ConditionEvent::only(objects, allowed, violating))
    }

    /// The violations of constraint `s`.
    fn constraint_violations(&self, s: &LayerSpecification, items: &RustItems, all_names: &Vec<String>) -> (r: Vec<ConditionEvent>)
        requires
            self.wf(),
            views(all_names@) == layer_names(self.layers@),
            items_described(items.items@),
        ensures
            all_violations(event_views(r@)),
            violation_lines(event_views(r@)) == self.constraint_lines(*s, items.items@, items.items@),
    {
        let mut r: Vec<ConditionEvent> = Vec::new();
        let mut i: usize = 0;
        while i < items.items.len()
            invariant
                self.wf(),
                views(all_names@) == layer_names(self.layers@),
                items_described(items.items@),
                i <= items.items@.len(),
                all_violations(event_views(r@)),
                violation_lines(event_views(r@)) == self.constraint_lines(*s, items.items@, items.items@.take(i as int)),
            decreases items.items@.len() - i,
        {
            let x = &items.items[i];
            proof {
                assert(items.items@.take(i + 1).drop_last() =~= items.items@.take(i as int));
                assert(items.items@.take(i + 1).last() == *x);
                assert(item_described(items.items@[i as int]));
            }
            let mut hit: Option<ConditionEvent> = None;
            if in_layer(&self.layers, &s.layer_name, x) {
                let deps = match s.constraint {
                    LayerConstraint::Origin => {
                        proof {
                            lemma_dependencies_to_described(items.items@, x.full_name@);
                        }
                        items.dependencies_to(x.full_name.as_str())
                    },
                    LayerConstraint::Target => crate::domain::copy_dependencies(&x.dependencies),
                };
                hit = self.dependency_violation(s, &deps, items, all_names);
            }
            match hit {
                Some(e) => {
                    let ghost before = event_views(r@);
                    r.push(e);
                    proof {
                        assert(event_views(r@) =~= before.push(e@));
                        assert(violation_lines(event_views(r@)) =~= violation_lines(before).push(e@.face.lines));
                    }
                },
                None => {
                    proof {
                        assert(violation_lines(event_views(r@)) =~= violation_lines(event_views(r@)) + Seq::<Seq<Seq<char>>>::empty());
                    }
                },
            }
            i += 1;
        }
        proof {
            assert(items.items@.take(items.items@.len() as int) =~= items.items@);
        }
        r
    }

    /// The description.
    pub fn description(&self) -> (r: String)
        ensures
            r@ == self.description_text(),
    {
        match &self.overridden_description {
            Some(d) => d.clone(),
            None => {
                let mut lines: Vec<String> = Vec::new();
                let head = cat3("Layered architecture ", self.scope_description.as_str(), ", consisting of");
                let first = if self.optional_layers { cat(head.as_str(), " (optional)") } else { head };
                let ghost heading = "Layered architecture "@ + self.scope_description@ + ", consisting of"@ + if self.optional_layers {
                    " (optional)"@
                } else {
                    Seq::empty()
                };
                proof {
                    assert(first@ =~= heading);
                }
                lines.push(first);
                let ghost head_lines = views(lines@);
                let mut i: usize = 0;
                while i < self.layers.len()
                    invariant
                        i <= self.layers@.len(),
                        views(lines@) == head_lines + self.layers@.take(i as int).map_values(|l: LayerData| Self::layer_text(l)),
                    decreases self.layers@.len() - i,
                {
                    let l = &self.layers[i];
                    let prefix = if l.optional { String::from_str("optional ") } else { String::new() };
                    let mut text = cat3(prefix.as_str(), "layer '", l.name.as_str());
                    text.append("' (");
                    text.append(l.contains.description.as_str());
                    text.append(")");
                    let ghost before = views(lines@);
                    lines.push(text);
                    proof {
                        assert(views(lines@) =~= before.push(Self::layer_text(*l)));
                        assert(self.layers@.take(i + 1).map_values(|l: LayerData| Self::layer_text(l))
                            =~= self.layers@.take(i as int).map_values(|l: LayerData| Self::layer_text(l)).push(Self::layer_text(*l)));
                    }
                    i += 1;
                }
                proof {
                    assert(self.layers@.take(self.layers@.len() as int) =~= self.layers@);
                }
                let ghost layer_lines = views(lines@);
                let mut j: usize = 0;
                while j < self.specifications.len()
                    invariant
                        j <= self.specifications@.len(),
                        views(lines@) == layer_lines + self.specifications@.take(j as int).map_values(|s: LayerSpecification| "where layer '"@ + s.layer_name@ + "' "@ + s.description_suffix@),
                    decreases self.specifications@.len() - j,
                {
                    let sp = &self.specifications[j];
                    let mut text = cat3("where layer '", sp.layer_name.as_str(), "' ");
                    text.append(sp.description_suffix.as_str());
                    let ghost before = views(lines@);
                    lines.push(text);
                    proof {
                        assert(views(lines@) =~= before.push("where layer '"@ + sp.layer_name@ + "' "@ + sp.description_suffix@));
                        assert(self.specifications@.take(j + 1).map_values(|s: LayerSpecification| "where layer '"@ + s.layer_name@ + "' "@ + s.description_suffix@)
                            =~= self.specifications@.take(j as int).map_values(|s: LayerSpecification| "where layer '"@ + s.layer_name@ + "' "@ + s.description_suffix@).push("where layer '"@ + sp.layer_name@ + "' "@ + sp.description_suffix@));
                    }
                    j += 1;
                }
                proof {
                    assert(self.specifications@.take(self.specifications@.len() as int) =~= self.specifications@);
                    assert(head_lines =~= seq![heading]);
                }
                join(&lines, "\n")
            },
        }
    }

    /// Evaluates the architecture (`evaluate(..)`): empty layers, items in no layer, and the
    /// violations of each constraint, in that order, under the architecture's description.
    pub fn evaluate(&self, items: &RustItems) -> (r: EvaluationResult)
        requires
            self.wf(),
            items_described(items.items@),
        ensures
            r@.rule_description == self.description_text(),
            r@.priority == Priority::Medium,
            r@.information is None,
            all_violations(r@.violations),
            violation_lines(r@.violations) == self.violation_lines_on(items.items@),
    {
        let all_names = names_of_layers(&self.layers);
        let mut violations = self.empty_layer_violations(items);
        let mut more = self.uncontained_violations(items, &all_names);
        let ghost a = event_views(violations@);
        let ghost b = event_views(more@);
        violations.append(&mut more);
        proof {
            assert(event_views(violations@) =~= a + b);
            assert(violation_lines(a + b) =~= violation_lines(a) + violation_lines(b));
        }
        let mut i: usize = 0;
        while i < self.specifications.len()
            invariant
                self.wf(),
                views(all_names@) == layer_names(self.layers@),
                items_described(items.items@),
                i <= self.specifications@.len(),
                all_violations(event_views(violations@)),
                violation_lines(event_views(violations@)) == self.empty_layer_lines(self.layers@, items.items@) + self.uncontained_lines(items.items@)
                    + self.constraints_lines(self.specifications@.take(i as int), items.items@),
            decreases self.specifications@.len() - i,
        {
            let mut part = self.constraint_violations(&self.specifications[i], items, &all_names);
            let ghost a = event_views(violations@);
            let ghost b = event_views(part@);
            violations.append(&mut part);
            proof {
                assert(event_views(violations@) =~= a + b);
                assert(violation_lines(a + b) =~= violation_lines(a) + violation_lines(b));
                assert(self.specifications@.take(i + 1).drop_last() =~= self.specifications@.take(i as int));
                assert(self.specifications@.take(i + 1).last() == self.specifications@[i as int]);
            }
            i += 1;
        }
        proof {
            assert(self.specifications@.take(self.specifications@.len() as int) =~= self.specifications@);
        }
        EvaluationResult { rule_description: self.description(), violations, information: None, priority: Priority::Medium }
    }

    /// Evaluates the architecture and fails with its report if it is violated (`check(..)`).
    pub fn check(&self, items: &RustItems) -> (r: Result<(), String>)
        requires
            self.wf(),
            items_described(items.items@),
        ensures
            exists|v: ResultView| #[trigger] violation_lines(v.violations) == self.violation_lines_on(items.items@)
                && all_violations(v.violations)
                && v.rule_description == self.description_text()
                && v.information is None
                && v.priority == Priority::Medium
                && assertion_outcome(v, outcome_view(r)),
    {
        let result = self.evaluate(items);
        let r = assert_no_violation(&result);
        proof {
            assert(violation_lines(result@.violations) == self.violation_lines_on(items.items@));
        }
        r
    }
}

/// The position of the first layer named `name`, from `from` on.
pub open spec fn layer_index(ls: Seq<LayerData>, name: Seq<char>, from: int) -> Option<int>
    decreases ls.len() - from,
{
    if from < 0 || from >= ls.len() {
        None
    } else if ls[from].name@ == name {
        Some(from)
    } else {
        layer_index(ls, name, from + 1)
    }
}

/// `ls` with `l` in place of the layer of its name, or added at the end.
pub open spec fn with_layer(ls: Seq<LayerData>, l: LayerData) -> Seq<LayerData> {
    match layer_index(ls, l.name@, 0) {
        Some(i) => ls.update(i, l),
        None => ls.push(l),
    }
}

/// The position of the first constraint on layer `name` of kind `c`, from `from` on.
pub open spec fn specification_index(ss: Seq<LayerSpecification>, name: Seq<char>, c: LayerConstraint, from: int) -> Option<int>
    decreases ss.len() - from,
{
    if from < 0 || from >= ss.len() {
        None
    } else if ss[from].layer_name@ == name && ss[from].constraint == c {
        Some(from)
    } else {
        specification_index(ss, name, c, from + 1)
    }
}

/// `ss` with `s` in place of the constraint of the same layer and kind, or added at the end.
pub open spec fn with_specification(ss: Seq<LayerSpecification>, s: LayerSpecification) -> Seq<LayerSpecification> {
    match specification_index(ss, s.layer_name@, s.constraint, 0) {
        Some(i) => ss.update(i, s),
        None => ss.push(s),
    }
}

/// The texts of `s` without repetitions, each where it first occurs.
pub open spec fn distinct_texts(s: Seq<Seq<char>>) -> Seq<Seq<char>>
    decreases s.len(),
{
    if s.len() == 0 {
        Seq::empty()
    } else {
        let d = distinct_texts(s.drop_last());
        if d.contains(s.last()) {
            d
        } else {
            d.push(s.last())
        }
    }
}

proof fn lemma_layer_index(ls: Seq<LayerData>, name: Seq<char>, from: int)
    requires
        0 <= from,
    ensures
        layer_index(ls, name, from) matches Some(i) ==> from <= i < ls.len() && ls[i].name@ == name,
        layer_index(ls, name, from) is None ==> forall|j: int| from <= j < ls.len() ==> #[trigger] ls[j].name@ != name,
    decreases ls.len() - from,
{
    if 0 <= from < ls.len() && ls[from].name@ != name {
        lemma_layer_index(ls, name, from + 1);
    }
}

proof fn lemma_specification_index(ss: Seq<LayerSpecification>, name: Seq<char>, c: LayerConstraint, from: int)
    ensures
        specification_index(ss, name, c, from) matches Some(i) ==> from <= i < ss.len(),
    decreases ss.len() - from,
{
    if 0 <= from < ss.len() && !(ss[from].layer_name@ == name && ss[from].constraint == c) {
        lemma_specification_index(ss, name, c, from + 1);
    }
}

/// Entry points for architecture rules (`Architectures`).
#[derive(Debug, Clone, Copy)]
pub struct Architectures;

/// The first step of a layered architecture: which dependencies count.
#[derive(Debug, Clone, Copy)]
pub struct DependencySettings;

impl Architectures {
    /// A layered architecture without layers yet.
    pub fn layered_architecture() -> (r: DependencySettings) {
        DependencySettings
    }
}

/// A layered architecture without layers yet.
pub fn layered_architecture() -> (r: DependencySettings) {
    DependencySettings
}

/// A layered architecture without layers or constraints.
fn fresh(scope: DependencyScope, scope_description: String) -> (r: LayeredArchitecture)
    requires
        match scope {
            DependencyScope::InAnyPackage(p) => p.wf(),
            _ => true,
        },
    ensures
        r.wf(),
        r.layers@.len() == 0,
        r.specifications@.len() == 0,
        r.scope == scope,
        r.scope_description == scope_description,
        r.irrelevant is None,
        r.overridden_description is None,
        !r.optional_layers,
        r.all_items_contained_check is None,
{
    LayeredArchitecture {
        layers: Vec::new(),
        specifications: Vec::new(),
        scope,
        scope_description,
        irrelevant: None,
        overridden_description: None,
        optional_layers: false,
        all_items_contained_check: None,
    }
}

impl DependencySettings {
    /// Every dependency counts.
    pub fn considering_all_dependencies(self) -> (r: LayeredArchitecture)
        ensures
            r.wf(),
            r.layers@.len() == 0,
            r.specifications@.len() == 0,
            r.scope is All,
            r.scope_description@ == "considering all dependencies"@,
            r.irrelevant is None,
            r.overridden_description is None,
            !r.optional_layers,
            r.all_items_contained_check is None,
    {
        fresh(DependencyScope::All, String::from_str("considering all dependencies"))
    }

    /// Only dependencies whose origin and target reside in one of the packages count.
    pub fn considering_only_dependencies_in_any_package(self, package_identifiers: &Vec<String>) -> (r: LayeredArchitecture)
        requires
            package_identifiers@.len() > 0,
        ensures
            r.wf(),
            r.layers@.len() == 0,
            r.specifications@.len() == 0,
            r.scope matches DependencyScope::InAnyPackage(p)
                && forall|x: ItemView| #[trigger] p.holds(x) <==> !predicates::some_identifier_matches(package_identifiers@, x.package_name),
            r.scope_description@ == "considering only dependencies in any package "@ + predicates::quoted_list(views(package_identifiers@)),
            r.irrelevant is None,
            r.overridden_description is None,
            !r.optional_layers,
            r.all_items_contained_check is None,
    {
        let outside = predicates::reside_outside_of_packages(package_identifiers);
        let description = cat3("considering only dependencies in any package [", join_quoted(package_identifiers).as_str(), "]");
        proof {
            reveal_strlit("considering only dependencies in any package [");
            reveal_strlit("considering only dependencies in any package ");
            reveal_strlit("[");
            assert("considering only dependencies in any package ["@ =~= "considering only dependencies in any package "@ + "["@);
        }
        fresh(DependencyScope::InAnyPackage(outside), description)
    }

    /// Only dependencies between items of the layers count.
    pub fn considering_only_dependencies_in_layers(self) -> (r: LayeredArchitecture)
        ensures
            r.wf(),
            r.layers@.len() == 0,
            r.specifications@.len() == 0,
            r.scope is InLayers,
            r.scope_description@ == "considering only dependencies in layers"@,
            r.irrelevant is None,
            r.overridden_description is None,
            !r.optional_layers,
            r.all_items_contained_check is None,
    {
        fresh(DependencyScope::InLayers, String::from_str("considering only dependencies in layers"))
    }
}

/// The `defined_by` step of `layer(name)`.
#[derive(Debug)]
pub struct LayerDefinition {
    /// The architecture so far.
    pub architecture: LayeredArchitecture,
    /// The name of the layer.
    pub name: String,
    /// Whether it may be empty.
    pub optional: bool,
}

/// The constraint step of `where_layer(name)`.
#[derive(Debug)]
pub struct LayerDependencySpecification {
    /// The architecture so far.
    pub architecture: LayeredArchitecture,
    /// The constrained layer.
    pub layer_name: String,
}

impl LayeredArchitecture {
    /// Whether all layers may be empty.
    pub fn with_optional_layers(self, optional_layers: bool) -> (r: LayeredArchitecture)
        ensures
            r == (LayeredArchitecture { optional_layers, ..self }),
    {
        LayeredArchitecture { optional_layers, ..self }
    }

    /// Starts defining a layer (`layer(name)`).
    pub fn layer(self, name: &str) -> (r: LayerDefinition)
        requires
            name@.len() > 0,
        ensures
            r.architecture == self,
            r.name@ == name@,
            !r.optional,
    {
        LayerDefinition { architecture: self, name: String::from_str(name), optional: false }
    }

    /// Starts defining a layer that may be empty.
    pub fn optional_layer(self, name: &str) -> (r: LayerDefinition)
        requires
            name@.len() > 0,
        ensures
            r.architecture == self,
            r.name@ == name@,
            r.optional,
    {
        LayerDefinition { architecture: self, name: String::from_str(name), optional: true }
    }

    /// Starts a constraint on the layer named `name`.
    pub fn where_layer(self, name: &str) -> (r: LayerDependencySpecification)
        requires
            layer_names(self.layers@).contains(name@),
        ensures
            r.architecture == self,
            r.layer_name@ == name@,
    {
        LayerDependencySpecification { architecture: self, layer_name: String::from_str(name) }
    }

    /// Ignores dependencies matching `predicate` as well.
    pub fn ignore_dependency_where(self, predicate: DependencyPredicate) -> (r: LayeredArchitecture)
        requires
            self.wf(),
            predicate.wf(),
        ensures
            r.wf(),
            r.irrelevant matches Some(p) && forall|d: Dependency, items: Seq<RustItem>| #[trigger] p.holds(d, items)
                == (predicate.holds(d, items) || (self.irrelevant matches Some(q) && q.holds(d, items))),
            r == (LayeredArchitecture { irrelevant: r.irrelevant, ..self }),
    {
        let LayeredArchitecture {
            layers,
            specifications,
            scope,
            scope_description,
            irrelevant,
            overridden_description,
            optional_layers,
            all_items_contained_check,
        } = self;
        let joined = match irrelevant {
            Some(existing) => existing.or(predicate),
            None => predicate,
        };
        LayeredArchitecture {
            layers,
            specifications,
            scope,
            scope_description,
            irrelevant: Some(joined),
            overridden_description,
            optional_layers,
            all_items_contained_check,
        }
    }

    /// Ignores dependencies from the item named `origin` on the item named `target` as well.
    pub fn ignore_dependency(self, origin: &str, target: &str) -> (r: LayeredArchitecture)
        requires
            self.wf(),
        ensures
            r.wf(),
            r.irrelevant matches Some(p) && forall|d: Dependency, items: Seq<RustItem>| #[trigger] p.holds(d, items)
                == ((resolve(items, d.origin).full_name == origin@ && resolve(items, d.target).full_name == target@)
                    || (self.irrelevant matches Some(q) && q.holds(d, items))),
            r == (LayeredArchitecture { irrelevant: r.irrelevant, ..self }),
    {
        let predicate = crate::base::dependency_predicates::dependency(predicates::full_name(origin), predicates::full_name(target));
        self.ignore_dependency_where(predicate)
    }

    /// Items that belong to no layer are violations.
    pub fn ensure_all_classes_are_contained_in_architecture(self) -> (r: LayeredArchitecture)
        ensures
            r.all_items_contained_check matches Some(p) && p.test is AlwaysFalse && p.wf(),
            r == (LayeredArchitecture { all_items_contained_check: r.all_items_contained_check, ..self }),
    {
        LayeredArchitecture { all_items_contained_check: Some(predicates::always_false()), ..self }
    }

    /// Like [`ensure_all_classes_are_contained_in_architecture`](Self::ensure_all_classes_are_contained_in_architecture)
    /// but tolerates items in the packages.
    pub fn ensure_all_classes_are_contained_in_architecture_ignoring(self, package_identifiers: &Vec<String>) -> (r: LayeredArchitecture)
        ensures
            r.all_items_contained_check matches Some(p) && p.wf()
                && forall|x: ItemView| #[trigger] p.holds(x) <==> predicates::some_identifier_matches(package_identifiers@, x.package_name),
            r == (LayeredArchitecture { all_items_contained_check: r.all_items_contained_check, ..self }),
    {
        LayeredArchitecture { all_items_contained_check: Some(predicates::reside_in_any_package(package_identifiers)), ..self }
    }

    /// Like [`ensure_all_classes_are_contained_in_architecture`](Self::ensure_all_classes_are_contained_in_architecture)
    /// but tolerates items matching `predicate`.
    pub fn ensure_all_classes_are_contained_in_architecture_ignoring_with(self, predicate: ItemPredicate) -> (r: LayeredArchitecture)
        ensures
            r == (LayeredArchitecture { all_items_contained_check: Some(predicate), ..self }),
    {
        LayeredArchitecture { all_items_contained_check: Some(predicate), ..self }
    }

    /// The same architecture under another description (`as(..)`).
    pub fn as_(self, description: &str) -> (r: LayeredArchitecture)
        ensures
            r.description_text() == description@,
            r == (LayeredArchitecture { overridden_description: r.overridden_description, ..self }),
    {
        LayeredArchitecture { overridden_description: Some(String::from_str(description)), ..self }
    }

    /// The same architecture with `, because <reason>` appended to the description
    /// (`because(..)`).
    pub fn because(self, reason: &str) -> (r: LayeredArchitecture)
        ensures
            r.description_text() == because_text(self.description_text(), reason@),
            r == (LayeredArchitecture { overridden_description: r.overridden_description, ..self }),
    {
        let description = create_because_description(self.description().as_str(), reason);
        LayeredArchitecture { overridden_description: Some(description), ..self }
    }

    /// Same as [`with_optional_layers`](Self::with_optional_layers).
    pub fn allow_empty_should(self, allow_empty_should: bool) -> (r: LayeredArchitecture)
        ensures
            r == (LayeredArchitecture { optional_layers: allow_empty_should, ..self }),
    {
        self.with_optional_layers(allow_empty_should)
    }

    /// Adds layer `l`, in place of a layer of the same name.
    fn add_layer(self, l: LayerData) -> (r: LayeredArchitecture)
        requires
            self.wf(),
            l.contains.wf(),
        ensures
            r.wf(),
            r.layers@ == with_layer(self.layers@, l),
            r == (LayeredArchitecture { layers: r.layers, ..self }),
    {
        let LayeredArchitecture {
            layers,
            specifications,
            scope,
            scope_description,
            irrelevant,
            overridden_description,
            optional_layers,
            all_items_contained_check,
        } = self;
        let mut layers = layers;
        let ghost before = layers@;
        let mut i: usize = 0;
        let mut found: Option<usize> = None;
        while i < layers.len()
            invariant
                layers@ == before,
                i <= layers@.len(),
                found is None ==> layer_index(before, l.name@, 0) == layer_index(before, l.name@, i as int),
                found matches Some(k) ==> layer_index(before, l.name@, 0) == Some(k as int),
            decreases layers@.len() - i,
        {
            if found.is_none() && str_eq(layers[i].name.as_str(), l.name.as_str()) {
                found = Some(i);
            }
            i += 1;
        }
        proof {
            lemma_layer_index(before, l.name@, 0);
        }
        match found {
            Some(k) => {
                layers.set(k, l);
            },
            None => {
                layers.push(l);
            },
        }
        proof {
            assert(layers@ =~= with_layer(before, l));
        }
        LayeredArchitecture {
            layers,
            specifications,
            scope,
            scope_description,
            irrelevant,
            overridden_description,
            optional_layers,
            all_items_contained_check,
        }
    }

    /// Adds constraint `s`, in place of one of the same layer and kind.
    fn add_specification(self, s: LayerSpecification) -> (r: LayeredArchitecture)
        requires
            self.wf(),
        ensures
            r.wf(),
            r.specifications@ == with_specification(self.specifications@, s),
            r == (LayeredArchitecture { specifications: r.specifications, ..self }),
    {
        let LayeredArchitecture {
            layers,
            specifications,
            scope,
            scope_description,
            irrelevant,
            overridden_description,
            optional_layers,
            all_items_contained_check,
        } = self;
        let mut specifications = specifications;
        let ghost before = specifications@;
        let mut i: usize = 0;
        let mut found: Option<usize> = None;
        while i < specifications.len()
            invariant
                specifications@ == before,
                i <= specifications@.len(),
                found is None ==> specification_index(before, s.layer_name@, s.constraint, 0)
                    == specification_index(before, s.layer_name@, s.constraint, i as int),
                found matches Some(k) ==> specification_index(before, s.layer_name@, s.constraint, 0) == Some(k as int),
            decreases specifications@.len() - i,
        {
            if found.is_none() && str_eq(specifications[i].layer_name.as_str(), s.layer_name.as_str())
                && specifications[i].constraint == s.constraint {
                found = Some(i);
            }
            i += 1;
        }
        proof {
            lemma_specification_index(before, s.layer_name@, s.constraint, 0);
        }
        match found {
            Some(k) => {
                specifications.set(k, s);
            },
            None => {
                specifications.push(s);
            },
        }
        proof {
            assert(specifications@ =~= with_specification(before, s));
        }
        LayeredArchitecture {
            layers,
            specifications,
            scope,
            scope_description,
            irrelevant,
            overridden_description,
            optional_layers,
            all_items_contained_check,
        }
    }
}

impl LayerDefinition {
    /// The layer holds the items matching `predicate`.
    pub fn defined_by_with(self, predicate: ItemPredicate) -> (r: LayeredArchitecture)
        requires
            self.architecture.wf(),
            predicate.wf(),
        ensures
            r.wf(),
            r.layers@ == with_layer(self.architecture.layers@, LayerData { name: self.name, optional: self.optional, contains: predicate }),
            r == (LayeredArchitecture { layers: r.layers, ..self.architecture }),
    {
        let l = LayerData { name: self.name, optional: self.optional, contains: predicate };
        self.architecture.add_layer(l)
    }

    /// The layer holds the items in any of the packages, described by the quoted identifiers.
    pub fn defined_by(self, package_identifiers: &Vec<String>) -> (r: LayeredArchitecture)
        requires
            self.architecture.wf(),
        ensures
            r.wf(),
            exists|p: ItemPredicate| #[trigger] with_layer(self.architecture.layers@, LayerData { name: self.name, optional: self.optional, contains: p }) == r.layers@
                && p.description@ == crate::text::join_single_quoted(views(package_identifiers@))
                && forall|x: ItemView| #[trigger] p.holds(x) <==> predicates::some_identifier_matches(package_identifiers@, x.package_name),
            r == (LayeredArchitecture { layers: r.layers, ..self.architecture }),
    {
        let p = predicates::reside_in_any_package(package_identifiers).as_(join_quoted(package_identifiers).as_str());
        let ghost g = p;
        let name = self.name;
        let optional = self.optional;
        let r = LayerDefinition { architecture: self.architecture, name, optional }.defined_by_with(p);
        proof {
            assert(with_layer(self.architecture.layers@, LayerData { name: self.name, optional: self.optional, contains: g }) == r.layers@);
        }
        r
    }
}

/// `<words> [<names quoted>]`.
pub open spec fn restriction_text(words: Seq<char>, names: Seq<Seq<char>>) -> Seq<char> {
    words + " ["@ + join_single_quoted(names) + "]"@
}

/// `r` is `arch` with a constraint on `layer` of kind `c` that allows the layers `allowed`
/// and reads `suffix`.
pub open spec fn constrained(arch: LayeredArchitecture, r: LayeredArchitecture, layer: String, c: LayerConstraint, allowed: Seq<Seq<char>>, suffix: Seq<char>) -> bool {
    &&& r.wf()
    &&& r == (LayeredArchitecture { specifications: r.specifications, ..arch })
    &&& exists|s: LayerSpecification| #[trigger] with_specification(arch.specifications@, s) == r.specifications@
        && s.layer_name == layer && s.constraint == c && views(s.allowed_layers@) == allowed && s.description_suffix@ == suffix
}

impl LayerDependencySpecification {
    fn deny(self, constraint: LayerConstraint, description: &str) -> (r: LayeredArchitecture)
        requires
            self.architecture.wf(),
        ensures
            constrained(self.architecture, r, self.layer_name, constraint, Seq::empty(), description@),
    {
        let s = LayerSpecification {
            layer_name: self.layer_name,
            allowed_layers: Vec::new(),
            constraint,
            description_suffix: String::from_str(description),
        };
        let ghost g = s;
        proof {
            assert(views(s.allowed_layers@) =~= Seq::<Seq<char>>::empty());
        }
        let r = self.architecture.add_specification(s);
        proof {
            assert(with_specification(self.architecture.specifications@, g) == r.specifications@);
        }
        r
    }

    fn restrict(self, constraint: LayerConstraint, names: &Vec<String>, description: &str) -> (r: LayeredArchitecture)
        requires
            self.architecture.wf(),
        ensures
            constrained(self.architecture, r, self.layer_name, constraint, distinct_texts(views(names@)), restriction_text(description@, views(names@))),
    {
        let mut allowed: Vec<String> = Vec::new();
        let mut i: usize = 0;
        while i < names.len()
            invariant
                i <= names@.len(),
                views(allowed@) == distinct_texts(views(names@).take(i as int)),
            decreases names@.len() - i,
        {
            proof {
                assert(views(names@).take(i + 1).drop_last() =~= views(names@).take(i as int));
                assert(views(names@).take(i + 1).last() == names@[i as int]@);
                predicates::lemma_has_string_contains(allowed@, names@[i as int]@);
            }
            if !crate::domain::contains_string(&allowed, names[i].as_str()) {
                let ghost before = allowed@;
                allowed.push(names[i].clone());
                proof {
                    assert(views(allowed@) =~= views(before).push(names@[i as int]@));
                }
            }
            i += 1;
        }
        proof {
            assert(views(names@).take(names@.len() as int) =~= views(names@));
        }
        let suffix = cat3(description, " [", join_quoted(names).as_str());
        let mut suffix = suffix;
        suffix.append("]");
        let s = LayerSpecification { layer_name: self.layer_name, allowed_layers: allowed, constraint, description_suffix: suffix };
        let ghost g = s;
        let r = self.architecture.add_specification(s);
        proof {
            assert(with_specification(self.architecture.specifications@, g) == r.specifications@);
        }
        r
    }

    /// No layer may depend on this one.
    pub fn may_not_be_accessed_by_any_layer(self) -> (r: LayeredArchitecture)
        requires
            self.architecture.wf(),
        ensures
            constrained(self.architecture, r, self.layer_name, LayerConstraint::Origin, Seq::empty(), "may not be accessed by any layer"@),
    {
        self.deny(LayerConstraint::Origin, "may not be accessed by any layer")
    }

    /// Only the named layers may depend on this one.
    pub fn may_only_be_accessed_by_layers(self, layer_names: &Vec<String>) -> (r: LayeredArchitecture)
        requires
            self.architecture.wf(),
            layer_names@.len() > 0,
            forall|i: int| 0 <= i < layer_names@.len() ==> #[trigger] self::layer_names(self.architecture.layers@).contains(layer_names@[i]@),
        ensures
            constrained(self.architecture, r, self.layer_name, LayerConstraint::Origin, distinct_texts(views(layer_names@)),
                restriction_text("may only be accessed by layers"@, views(layer_names@))),
    {
        self.restrict(LayerConstraint::Origin, layer_names, "may only be accessed by layers")
    }

    /// This layer may depend on no layer.
    pub fn may_not_access_any_layer(self) -> (r: LayeredArchitecture)
        requires
            self.architecture.wf(),
        ensures
            constrained(self.architecture, r, self.layer_name, LayerConstraint::Target, Seq::empty(), "may not access any layer"@),
    {
        self.deny(LayerConstraint::Target, "may not access any layer")
    }

    /// This layer may depend only on the named layers.
    pub fn may_only_access_layers(self, layer_names: &Vec<String>) -> (r: LayeredArchitecture)
        requires
            self.architecture.wf(),
            layer_names@.len() > 0,
            forall|i: int| 0 <= i < layer_names@.len() ==> #[trigger] self::layer_names(self.architecture.layers@).contains(layer_names@[i]@),
        ensures
            constrained(self.architecture, r, self.layer_name, LayerConstraint::Target, distinct_texts(views(layer_names@)),
                restriction_text("may only access layers"@, views(layer_names@))),
    {
        self.restrict(LayerConstraint::Target, layer_names, "may only access layers")
    }
}


/// A dependency reported under a constraint is one that the constraint does not allow.
proof fn lemma_failing_not_allowed(arch: LayeredArchitecture, s: LayerSpecification, items: Seq<RustItem>, deps: Seq<Dependency>, k: int)
    requires
        0 <= k < arch.failing(s, items, deps).len(),
    ensures
        !arch.allowed(s, arch.failing(s, items, deps)[k], items),
    decreases deps.len(),
{
    if deps.len() > 0 {
        let rest = arch.failing(s, items, deps.drop_last());
        if k < rest.len() {
            lemma_failing_not_allowed(arch, s, items, deps.drop_last(), k);
        }
    }
}

/// A layer may always access itself: under any constraint on a layer, a dependency whose
/// origin and target both lie in that layer is never reported, so no violation of a layered
/// architecture is a dependency between two items of the constrained layer.
pub proof fn lemma_layer_may_access_itself(arch: LayeredArchitecture, s: LayerSpecification, items: Seq<RustItem>, deps: Seq<Dependency>, d: Dependency)
    requires
        layer_holds(arch.layers@, seq![s.layer_name@], resolve(items, d.origin)),
        layer_holds(arch.layers@, seq![s.layer_name@], resolve(items, d.target)),
    ensures
        arch.allowed(s, d, items),
        !arch.failing(s, items, deps).contains(d),
{
    let names = views(s.allowed_layers@).push(s.layer_name@);
    assert(names[names.len() - 1] == s.layer_name@);
    assert(names.contains(s.layer_name@));
    let end = match s.constraint {
        LayerConstraint::Origin => resolve(items, d.origin),
        LayerConstraint::Target => resolve(items, d.target),
    };
    let i = choose|i: int| 0 <= i < arch.layers@.len() && seq![s.layer_name@].contains(arch.layers@[i].name@) && #[trigger] arch.layers@[i].contains.holds(end);
    assert(seq![s.layer_name@][0] == s.layer_name@);
    assert(arch.layers@[i].name@ == s.layer_name@);
    assert(layer_holds(arch.layers@, names, end));
    if arch.failing(s, items, deps).contains(d) {
        let k = choose|k: int| 0 <= k < arch.failing(s, items, deps).len() && arch.failing(s, items, deps)[k] == d;
        lemma_failing_not_allowed(arch, s, items, deps, k);
    }
}


/// Dependencies that all stay inside the constrained layer are never reported under it.
proof fn lemma_internal_dependencies_not_failing(arch: LayeredArchitecture, s: LayerSpecification, items: Seq<RustItem>, deps: Seq<Dependency>)
    requires
        forall|j: int| 0 <= j < deps.len() ==> layer_holds(arch.layers@, seq![s.layer_name@], resolve(items, (#[trigger] deps[j]).origin))
            && layer_holds(arch.layers@, seq![s.layer_name@], resolve(items, deps[j].target)),
    ensures
        arch.failing(s, items, deps).len() == 0,
    decreases deps.len(),
{
    if deps.len() > 0 {
        let rest = deps.drop_last();
        assert forall|j: int| 0 <= j < rest.len() implies layer_holds(arch.layers@, seq![s.layer_name@], resolve(items, (#[trigger] rest[j]).origin))
            && layer_holds(arch.layers@, seq![s.layer_name@], resolve(items, rest[j].target)) by {
            assert(rest[j] == deps[j]);
        }
        lemma_internal_dependencies_not_failing(arch, s, items, rest);
        assert(deps.last() == deps[deps.len() - 1]);
        lemma_layer_may_access_itself(arch, s, items, deps, deps.last());
    }
}

/// Where every dependency among the items stays inside one layer, no constraint on that layer
/// reports a violation.
pub proof fn lemma_layer_internal_items_pass(arch: LayeredArchitecture, s: LayerSpecification, items: Seq<RustItem>, xs: Seq<RustItem>)
    requires
        forall|i: int, j: int| 0 <= i < items.len() && 0 <= j < items[i].dependencies@.len()
            ==> layer_holds(arch.layers@, seq![s.layer_name@], resolve(items, (#[trigger] items[i].dependencies@[j]).origin))
            && layer_holds(arch.layers@, seq![s.layer_name@], resolve(items, items[i].dependencies@[j].target)),
        forall|i: int| 0 <= i < xs.len() ==> items.contains(#[trigger] xs[i]),
    ensures
        arch.constraint_lines(s, items, xs).len() == 0,
    decreases xs.len(),
{
    if xs.len() > 0 {
        let rest = xs.drop_last();
        assert forall|i: int| 0 <= i < rest.len() implies items.contains(#[trigger] rest[i]) by {
            assert(rest[i] == xs[i]);
        }
        lemma_layer_internal_items_pass(arch, s, items, rest);
        let x = xs.last();
        assert(x == xs[xs.len() - 1]);
        let p = |d: Dependency| layer_holds(arch.layers@, seq![s.layer_name@], resolve(items, d.origin))
            && layer_holds(arch.layers@, seq![s.layer_name@], resolve(items, d.target));
        match s.constraint {
            LayerConstraint::Origin => {
                crate::domain::lemma_dependencies_to_among(items, x.full_name@, p);
                lemma_internal_dependencies_not_failing(arch, s, items, dependencies_to(items, x.full_name@));
            },
            LayerConstraint::Target => {
                let i = choose|i: int| 0 <= i < items.len() && items[i] == x;
                assert forall|j: int| 0 <= j < x.dependencies@.len() implies layer_holds(arch.layers@, seq![s.layer_name@], resolve(items, (#[trigger] x.dependencies@[j]).origin))
                    && layer_holds(arch.layers@, seq![s.layer_name@], resolve(items, x.dependencies@[j].target)) by {
                    assert(items[i].dependencies@[j] == x.dependencies@[j]);
                }
                lemma_internal_dependencies_not_failing(arch, s, items, x.dependencies@);
            },
        }
    }
}


/// A dependency that a constraint does not allow is reported among those it is checked on.
proof fn lemma_not_allowed_failing(arch: LayeredArchitecture, s: LayerSpecification, items: Seq<RustItem>, deps: Seq<Dependency>, k: int)
    requires
        0 <= k < deps.len(),
        !arch.allowed(s, deps[k], items),
    ensures
        arch.failing(s, items, deps).contains(deps[k]),
    decreases deps.len(),
{
    let f = arch.failing(s, items, deps);
    if k < deps.len() - 1 {
        let rest = deps.drop_last();
        assert(rest[k] == deps[k]);
        lemma_not_allowed_failing(arch, s, items, rest, k);
        let a = arch.failing(s, items, rest);
        let j = choose|j: int| 0 <= j < a.len() && a[j] == deps[k];
        assert(f[j] == a[j]);
    } else {
        assert(f[f.len() - 1] == deps.last());
    }
}

/// Where all dependencies count, a dependency whose restricted end (its origin for
/// `may only be accessed by`, its target for `may only access`) lies only in layers that are
/// neither the constrained layer nor one of those it allows is reported under the
/// constraint.
pub proof fn lemma_other_layers_reported(arch: LayeredArchitecture, s: LayerSpecification, items: Seq<RustItem>, deps: Seq<Dependency>, k: int)
    requires
        0 <= k < deps.len(),
        arch.scope == DependencyScope::All,
        arch.irrelevant is None,
        forall|i: int| 0 <= i < arch.layers@.len() && (#[trigger] arch.layers@[i]).contains.holds(match s.constraint {
            LayerConstraint::Origin => resolve(items, deps[k].origin),
            LayerConstraint::Target => resolve(items, deps[k].target),
        }) ==> arch.layers@[i].name@ != s.layer_name@ && !views(s.allowed_layers@).contains(arch.layers@[i].name@),
    ensures
        arch.failing(s, items, deps).contains(deps[k]),
{
    let names = views(s.allowed_layers@).push(s.layer_name@);
    let end = match s.constraint {
        LayerConstraint::Origin => resolve(items, deps[k].origin),
        LayerConstraint::Target => resolve(items, deps[k].target),
    };
    if layer_holds(arch.layers@, names, end) {
        let i = choose|i: int| 0 <= i < arch.layers@.len() && names.contains(arch.layers@[i].name@) && #[trigger] arch.layers@[i].contains.holds(end);
        let q = choose|q: int| 0 <= q < names.len() && names[q] == arch.layers@[i].name@;
        if q < names.len() - 1 {
            assert(views(s.allowed_layers@)[q] == names[q]);
        }
    }
    lemma_not_allowed_failing(arch, s, items, deps, k);
}

} // verus!


