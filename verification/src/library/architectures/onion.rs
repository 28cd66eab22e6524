//! Onion architectures: domain models, domain services and
//! application services as rings around each other, and adapters outside them, evaluated as a
//! layered architecture.

use vstd::prelude::*;
use vstd::string::*;

use super::{
    layer_names, DependencyScope, LayerConstraint, LayerData, LayerSpecification, LayeredArchitecture,
};
use crate::base::dependency_predicates::DependencyPredicate;
use crate::base::predicates::{self, ItemPredicate};
use crate::domain::{resolve, Dependency, ItemView, RustItem, RustItems};
use crate::lang::condition::items_described;
use crate::lang::evaluation::{EvaluationResult, ResultView};
use crate::lang::rule::{assert_no_violation, assertion_outcome, because_text, create_because_description, outcome_view, Priority};
use crate::library::dependencies::rules::{all_violations, violation_lines};
use crate::text::{cat, cat3, join, join_quoted, join_seq, join_single_quoted, str_eq, views};

verus! {

/// An adapter: its name and the items it holds.
#[derive(Debug)]
pub struct AdapterData {
    /// The name.
    pub name: String,
    /// Which items it holds.
    pub predicate: ItemPredicate,
}

/// An onion architecture rule.
#[derive(Debug)]
pub struct OnionArchitecture {
    /// The domain models, if defined.
    pub domain_models: Option<ItemPredicate>,
    /// The domain services, if defined.
    pub domain_services: Option<ItemPredicate>,
    /// The application services, if defined.
    pub application_services: Option<ItemPredicate>,
    /// The adapters, in the order they were defined.
    pub adapters: Vec<AdapterData>,
    /// Whether the rings and adapters may be empty.
    pub optional_layers: bool,
    /// Dependencies that do not count.
    pub ignored_dependencies: Vec<DependencyPredicate>,
    /// A description in place of the generated one.
    pub overridden_description: Option<String>,
    /// Where items must all belong to a ring or adapter: those it tolerates outside.
    pub all_items_contained_check: Option<ItemPredicate>,
}

/// The predicate holds, where there is one.
pub open spec fn opt_holds(p: Option<ItemPredicate>, x: ItemView) -> bool {
    p matches Some(q) && q.holds(x)
}

/// The dependency predicate holds, where there is one.
pub open spec fn opt_dep_holds(p: Option<DependencyPredicate>, d: Dependency, items: Seq<RustItem>) -> bool {
    p matches Some(q) && q.holds(d, items)
}

/// The predicate is well formed, where there is one.
pub open spec fn opt_wf(p: Option<ItemPredicate>) -> bool {
    match p {
        Some(q) => q.wf(),
        None => true,
    }
}

/// How a ring reads: `<words> (<predicate>)`, where it is defined.
pub open spec fn ring_lines(words: Seq<char>, p: Option<ItemPredicate>) -> Seq<Seq<char>> {
    match p {
        Some(q) => seq![words + " ("@ + q.description@ + ")"@],
        None => Seq::empty(),
    }
}

/// The items in a ring or adapter of `layers` that are named in `names`.
pub open spec fn adapter_layer_name(name: Seq<char>) -> Seq<char> {
    name + " adapter"@
}

/// `Onion architecture` followed by one line per ring and adapter.
pub open spec fn onion_description(o: OnionArchitecture) -> Seq<char> {
    match o.overridden_description {
        Some(d) => d@,
        None => join_seq(
            seq!["Onion architecture consisting of"@ + if o.optional_layers { " (optional)"@ } else { Seq::empty() }]
                + ring_lines("domain models"@, o.domain_models)
                + ring_lines("domain services"@, o.domain_services)
                + ring_lines("application services"@, o.application_services)
                + o.adapters@.map_values(|a: AdapterData| "adapter '"@ + a.name@ + "' ("@ + a.predicate.description@ + ")"@),
            "\n"@,
        ),
    }
}

/// The texts `domain model`, `domain service`, `application service`, `adapter`.
pub open spec fn ring_names() -> Seq<Seq<char>> {
    seq!["domain model"@, "domain service"@, "application service"@, "adapter"@]
}

/// `d` is the layered architecture an onion architecture `o` is evaluated as: the three rings
/// and all adapters as layers, each ring accessed only from outside it, each adapter from no
/// other layer, and what `o` ignores and checks.
pub open spec fn delegates_to(o: OnionArchitecture, d: LayeredArchitecture) -> bool {
    let n = o.adapters@.len();
    &&& d.wf()
    &&& d.scope is All
    &&& d.optional_layers == o.optional_layers
    &&& d.overridden_description matches Some(t) && t@ == onion_description(o)
    &&& layer_names(d.layers@) == ring_names() + o.adapters@.map_values(|a: AdapterData| adapter_layer_name(a.name@))
    &&& forall|i: int| 0 <= i < d.layers@.len() ==> !(#[trigger] d.layers@[i]).optional
    &&& forall|x: ItemView| #[trigger] d.layers@[0].contains.holds(x) == opt_holds(o.domain_models, x)
    &&& forall|x: ItemView| #[trigger] d.layers@[1].contains.holds(x) == opt_holds(o.domain_services, x)
    &&& forall|x: ItemView| #[trigger] d.layers@[2].contains.holds(x) == opt_holds(o.application_services, x)
    &&& forall|x: ItemView| #[trigger] d.layers@[3].contains.holds(x) == exists|i: int| 0 <= i < n && #[trigger] o.adapters@[i].predicate.holds(x)
    &&& forall|i: int, x: ItemView| 0 <= i < n ==> #[trigger] d.layers@[4 + i].contains.holds(x) == o.adapters@[i].predicate.holds(x)
    &&& d.specifications@.len() == 3 + n
    &&& forall|i: int| 0 <= i < d.specifications@.len() ==> (#[trigger] d.specifications@[i]).constraint == LayerConstraint::Origin
    &&& d.specifications@[0].layer_name@ == "domain model"@
    &&& views(d.specifications@[0].allowed_layers@) == seq!["domain service"@, "application service"@, "adapter"@]
    &&& d.specifications@[1].layer_name@ == "domain service"@
    &&& views(d.specifications@[1].allowed_layers@) == seq!["application service"@, "adapter"@]
    &&& d.specifications@[2].layer_name@ == "application service"@
    &&& views(d.specifications@[2].allowed_layers@) == seq!["adapter"@]
    &&& forall|i: int| 0 <= i < n ==> (#[trigger] d.specifications@[3 + i]).layer_name@ == adapter_layer_name(o.adapters@[i].name@)
        && d.specifications@[3 + i].allowed_layers@.len() == 0
    &&& forall|dep: Dependency, items: Seq<RustItem>| #[trigger] opt_dep_holds(d.irrelevant, dep, items)
        == exists|i: int| 0 <= i < o.ignored_dependencies@.len() && #[trigger] o.ignored_dependencies@[i].holds(dep, items)
    &&& match o.all_items_contained_check {
        Some(p) => d.all_items_contained_check matches Some(q) && forall|x: ItemView| #[trigger] q.holds(x) == p.holds(x),
        None => d.all_items_contained_check is None,
    }
}

impl OnionArchitecture {
    /// Every predicate inside is well formed.
    pub open spec fn wf(&self) -> bool {
        &&& opt_wf(self.domain_models)
        &&& opt_wf(self.domain_services)
        &&& opt_wf(self.application_services)
        &&& forall|i: int| 0 <= i < self.adapters@.len() ==> (#[trigger] self.adapters@[i]).predicate.wf()
        &&& forall|i: int| 0 <= i < self.ignored_dependencies@.len() ==> (#[trigger] self.ignored_dependencies@[i]).wf()
        &&& opt_wf(self.all_items_contained_check)
    }

    /// An onion architecture without rings or adapters.
    pub fn new() -> (r: OnionArchitecture)
        ensures
            r.wf(),
            r.domain_models is None,
            r.domain_services is None,
            r.application_services is None,
            r.adapters@.len() == 0,
            !r.optional_layers,
            r.ignored_dependencies@.len() == 0,
            r.overridden_description is None,
            r.all_items_contained_check is None,
    {
        OnionArchitecture {
            domain_models: None,
            domain_services: None,
            application_services: None,
            adapters: Vec::new(),
            optional_layers: false,
            ignored_dependencies: Vec::new(),
            overridden_description: None,
            all_items_contained_check: None,
        }
    }
}

/// The position of the first adapter named `name`, from `from` on.
pub open spec fn adapter_index(v: Seq<AdapterData>, name: Seq<char>, from: int) -> Option<int>
    decreases v.len() - from,
{
    if from < 0 || from >= v.len() {
        None
    } else if v[from].name@ == name {
        Some(from)
    } else {
        adapter_index(v, name, from + 1)
    }
}

/// `v` with `a` in place of the adapter of its name, or added at the end.
pub open spec fn with_adapter(v: Seq<AdapterData>, a: AdapterData) -> Seq<AdapterData> {
    match adapter_index(v, a.name@, 0) {
        Some(i) => v.update(i, a),
        None => v.push(a),
    }
}

proof fn lemma_adapter_index(v: Seq<AdapterData>, name: Seq<char>, from: int)
    ensures
        adapter_index(v, name, from) matches Some(i) ==> from <= i < v.len(),
    decreases v.len() - from,
{
    if 0 <= from < v.len() && v[from].name@ != name {
        lemma_adapter_index(v, name, from + 1);
    }
}

/// The items in any of the packages, described by the quoted identifiers.
fn by_packages(package_identifiers: &Vec<String>) -> (r: ItemPredicate)
    ensures
        r.wf(),
        r.description@ == join_single_quoted(views(package_identifiers@)),
        forall|x: ItemView| #[trigger] r.holds(x) <==> predicates::some_identifier_matches(package_identifiers@, x.package_name),
{
    predicates::reside_in_any_package(package_identifiers).as_(join_quoted(package_identifiers).as_str())
}

/// A copy of an optional predicate, or `always false`.
fn or_false(p: &Option<ItemPredicate>) -> (r: ItemPredicate)
    requires
        opt_wf(*p),
    ensures
        r.wf(),
        forall|x: ItemView| #[trigger] r.holds(x) == opt_holds(*p, x),
{
    match p {
        Some(q) => q.copy(),
        None => predicates::always_false(),
    }
}

/// A layer that must not be empty.
fn layer_of(name: &str, contains: ItemPredicate) -> (r: LayerData)
    ensures
        r.name@ == name@,
        !r.optional,
        r.contains == contains,
{
    LayerData { name: String::from_str(name), optional: false, contains }
}

/// A constraint that only `allowed` may depend on layer `name`.
fn accessed_only_by(name: &str, allowed: &[&str], suffix: String) -> (r: LayerSpecification)
    ensures
        r.layer_name@ == name@,
        r.constraint == LayerConstraint::Origin,
        views(r.allowed_layers@) == allowed@.map_values(|a: &str| a@),
        r.description_suffix == suffix,
{
    let names = crate::text::owned_strings(allowed);
    proof {
        assert(views(names@) =~= allowed@.map_values(|a: &str| a@));
    }
    LayerSpecification { layer_name: String::from_str(name), allowed_layers: names, constraint: LayerConstraint::Origin, description_suffix: suffix }
}

impl OnionArchitecture {
    /// The domain models hold the items matching `predicate`.
    pub fn domain_models_with(self, predicate: ItemPredicate) -> (r: OnionArchitecture)
        ensures
            r == (OnionArchitecture { domain_models: Some(predicate), ..self }),
    {
        OnionArchitecture { domain_models: Some(predicate), ..self }
    }

    /// The domain models hold the items in the packages.
    pub fn domain_models(self, package_identifiers: &Vec<String>) -> (r: OnionArchitecture)
        ensures
            r.domain_models matches Some(p) && p.wf() && p.description@ == join_single_quoted(views(package_identifiers@))
                && forall|x: ItemView| #[trigger] p.holds(x) <==> predicates::some_identifier_matches(package_identifiers@, x.package_name),
            r == (OnionArchitecture { domain_models: r.domain_models, ..self }),
    {
        self.domain_models_with(by_packages(package_identifiers))
    }

    /// The domain services hold the items matching `predicate`.
    pub fn domain_services_with(self, predicate: ItemPredicate) -> (r: OnionArchitecture)
        ensures
            r == (OnionArchitecture { domain_services: Some(predicate), ..self }),
    {
        OnionArchitecture { domain_services: Some(predicate), ..self }
    }

    /// The domain services hold the items in the packages.
    pub fn domain_services(self, package_identifiers: &Vec<String>) -> (r: OnionArchitecture)
        ensures
            r.domain_services matches Some(p) && p.wf() && p.description@ == join_single_quoted(views(package_identifiers@))
                && forall|x: ItemView| #[trigger] p.holds(x) <==> predicates::some_identifier_matches(package_identifiers@, x.package_name),
            r == (OnionArchitecture { domain_services: r.domain_services, ..self }),
    {
        self.domain_services_with(by_packages(package_identifiers))
    }

    /// The application services hold the items matching `predicate`.
    pub fn application_services_with(self, predicate: ItemPredicate) -> (r: OnionArchitecture)
        ensures
            r == (OnionArchitecture { application_services: Some(predicate), ..self }),
    {
        OnionArchitecture { application_services: Some(predicate), ..self }
    }

    /// The application services hold the items in the packages.
    pub fn application_services(self, package_identifiers: &Vec<String>) -> (r: OnionArchitecture)
        ensures
            r.application_services matches Some(p) && p.wf() && p.description@ == join_single_quoted(views(package_identifiers@))
                && forall|x: ItemView| #[trigger] p.holds(x) <==> predicates::some_identifier_matches(package_identifiers@, x.package_name),
            r == (OnionArchitecture { application_services: r.application_services, ..self }),
    {
        self.application_services_with(by_packages(package_identifiers))
    }

    /// The adapter `name` holds the items matching `predicate`, in place of an adapter of that
    /// name (`adapter(name, DescribedPredicate)`).
    pub fn adapter_with(self, name: &str, predicate: ItemPredicate) -> (r: OnionArchitecture)
        ensures
            exists|a: AdapterData| #[trigger] with_adapter(self.adapters@, a) == r.adapters@ && a.name@ == name@ && a.predicate == predicate,
            r == (OnionArchitecture { adapters: r.adapters, ..self }),
    {
        let a = AdapterData { name: String::from_str(name), predicate };
        let ghost g = a;
        let OnionArchitecture {
            domain_models,
            domain_services,
            application_services,
            adapters,
            optional_layers,
            ignored_dependencies,
            overridden_description,
            all_items_contained_check,
        } = self;
        let mut adapters = adapters;
        let ghost before = adapters@;
        let mut i: usize = 0;
        let mut found: Option<usize> = None;
        while i < adapters.len()
            invariant
                adapters@ == before,
                g.name@ == name@,
                i <= adapters@.len(),
                found is None ==> adapter_index(before, g.name@, 0) == adapter_index(before, g.name@, i as int),
                found matches Some(k) ==> adapter_index(before, g.name@, 0) == Some(k as int),
            decreases adapters@.len() - i,
        {
            if found.is_none() && str_eq(adapters[i].name.as_str(), name) {
                found = Some(i);
            }
            i += 1;
        }
        proof {
            lemma_adapter_index(before, g.name@, 0);
        }
        match found {
            Some(k) => {
                adapters.set(k, a);
            },
            None => {
                adapters.push(a);
            },
        }
        proof {
            assert(adapters@ =~= with_adapter(before, g));
        }
        OnionArchitecture {
            domain_models,
            domain_services,
            application_services,
            adapters,
            optional_layers,
            ignored_dependencies,
            overridden_description,
            all_items_contained_check,
        }
    }

    /// The adapter `name` holds the items in the packages (`adapter(name, String...)`).
    pub fn adapter(self, name: &str, package_identifiers: &Vec<String>) -> (r: OnionArchitecture)
        ensures
            exists|a: AdapterData| #[trigger] with_adapter(self.adapters@, a) == r.adapters@ && a.name@ == name@
                && a.predicate.wf() && a.predicate.description@ == join_single_quoted(views(package_identifiers@))
                && forall|x: ItemView| #[trigger] a.predicate.holds(x) <==> predicates::some_identifier_matches(package_identifiers@, x.package_name),
            r == (OnionArchitecture { adapters: r.adapters, ..self }),
    {
        self.adapter_with(name, by_packages(package_identifiers))
    }

    /// Whether the rings and adapters may be empty.
    pub fn with_optional_layers(self, optional_layers: bool) -> (r: OnionArchitecture)
        ensures
            r == (OnionArchitecture { optional_layers, ..self }),
    {
        OnionArchitecture { optional_layers, ..self }
    }

    /// Same as [`with_optional_layers`](Self::with_optional_layers).
    pub fn allow_empty_should(self, allow_empty_should: bool) -> (r: OnionArchitecture)
        ensures
            r == (OnionArchitecture { optional_layers: allow_empty_should, ..self }),
    {
        self.with_optional_layers(allow_empty_should)
    }

    /// Ignores dependencies matching `predicate` as well.
    pub fn ignore_dependency_where(self, predicate: DependencyPredicate) -> (r: OnionArchitecture)
        ensures
            r.ignored_dependencies@ == self.ignored_dependencies@.push(predicate),
            r == (OnionArchitecture { ignored_dependencies: r.ignored_dependencies, ..self }),
    {
        let mut s = self;
        s.ignored_dependencies.push(predicate);
        s
    }

    /// Ignores dependencies from the item named `origin` on the item named `target` as well.
    pub fn ignore_dependency(self, origin: &str, target: &str) -> (r: OnionArchitecture)
        ensures
            r.ignored_dependencies@.len() == self.ignored_dependencies@.len() + 1,
            r.ignored_dependencies@.drop_last() == self.ignored_dependencies@,
            r.ignored_dependencies@.last().wf(),
            forall|d: Dependency, items: Seq<RustItem>| #[trigger] r.ignored_dependencies@.last().holds(d, items)
                == (resolve(items, d.origin).full_name == origin@ && resolve(items, d.target).full_name == target@),
            r == (OnionArchitecture { ignored_dependencies: r.ignored_dependencies, ..self }),
    {
        let predicate = crate::base::dependency_predicates::dependency(predicates::full_name(origin), predicates::full_name(target));
        let ghost before = self.ignored_dependencies@;
        let r = self.ignore_dependency_where(predicate);
        proof {
            assert(r.ignored_dependencies@.drop_last() =~= before);
        }
        r
    }

    /// Items in no ring or adapter are violations.
    pub fn ensure_all_classes_are_contained_in_architecture(self) -> (r: OnionArchitecture)
        ensures
            r.all_items_contained_check matches Some(p) && p.test is AlwaysFalse && p.wf(),
            r == (OnionArchitecture { all_items_contained_check: r.all_items_contained_check, ..self }),
    {
        OnionArchitecture { all_items_contained_check: Some(predicates::always_false()), ..self }
    }

    /// Like [`ensure_all_classes_are_contained_in_architecture`](Self::ensure_all_classes_are_contained_in_architecture)
    /// but tolerates items in the packages.
    pub fn ensure_all_classes_are_contained_in_architecture_ignoring(self, package_identifiers: &Vec<String>) -> (r: OnionArchitecture)
        ensures
            r.all_items_contained_check matches Some(p) && p.wf()
                && forall|x: ItemView| #[trigger] p.holds(x) <==> predicates::some_identifier_matches(package_identifiers@, x.package_name),
            r == (OnionArchitecture { all_items_contained_check: r.all_items_contained_check, ..self }),
    {
        OnionArchitecture { all_items_contained_check: Some(predicates::reside_in_any_package(package_identifiers)), ..self }
    }

    /// Like [`ensure_all_classes_are_contained_in_architecture`](Self::ensure_all_classes_are_contained_in_architecture)
    /// but tolerates items matching `predicate`.
    pub fn ensure_all_classes_are_contained_in_architecture_ignoring_with(self, predicate: ItemPredicate) -> (r: OnionArchitecture)
        ensures
            r == (OnionArchitecture { all_items_contained_check: Some(predicate), ..self }),
    {
        OnionArchitecture { all_items_contained_check: Some(predicate), ..self }
    }

    /// The same architecture under another description (`as(..)`).
    pub fn as_(self, description: &str) -> (r: OnionArchitecture)
        ensures
            onion_description(r) == description@,
            r == (OnionArchitecture { overridden_description: r.overridden_description, ..self }),
    {
        OnionArchitecture { overridden_description: Some(String::from_str(description)), ..self }
    }

    /// The same architecture with `, because <reason>` appended to the description
    /// (`because(..)`).
    pub fn because(self, reason: &str) -> (r: OnionArchitecture)
        ensures
            onion_description(r) == because_text(onion_description(self), reason@),
            r == (OnionArchitecture { overridden_description: r.overridden_description, ..self }),
    {
        let description = create_because_description(self.description().as_str(), reason);
        OnionArchitecture { overridden_description: Some(description), ..self }
    }

    /// The description, one line per ring and adapter.
    pub fn description(&self) -> (r: String)
        ensures
            r@ == onion_description(*self),
    {
        match &self.overridden_description {
            Some(d) => d.clone(),
            None => {
                let mut lines: Vec<String> = Vec::new();
                let head = if self.optional_layers {
                    String::from_str("Onion architecture consisting of (optional)")
                } else {
                    String::from_str("Onion architecture consisting of")
                };
                let ghost heading = "Onion architecture consisting of"@ + if self.optional_layers { " (optional)"@ } else { Seq::empty() };
                proof {
                    reveal_strlit("Onion architecture consisting of (optional)");
                    reveal_strlit("Onion architecture consisting of");
                    reveal_strlit(" (optional)");
                    assert(head@ =~= heading);
                }
                lines.push(head);
                let ghost l0 = views(lines@);
                proof {
                    assert(l0 =~= seq![heading]);
                }
                self.push_ring(&mut lines, "domain models", &self.domain_models);
                let ghost l1 = views(lines@);
                self.push_ring(&mut lines, "domain services", &self.domain_services);
                let ghost l2 = views(lines@);
                self.push_ring(&mut lines, "application services", &self.application_services);
                let ghost l3 = views(lines@);
                let mut i: usize = 0;
                while i < self.adapters.len()
                    invariant
                        i <= self.adapters@.len(),
                        views(lines@) == l3 + self.adapters@.take(i as int).map_values(|a: AdapterData| "adapter '"@ + a.name@ + "' ("@ + a.predicate.description@ + ")"@),
                    decreases self.adapters@.len() - i,
                {
                    let a = &self.adapters[i];
                    let mut text = cat3("adapter '", a.name.as_str(), "' (");
                    text.append(a.predicate.description.as_str());
                    text.append(")");
                    let ghost before = views(lines@);
                    lines.push(text);
                    proof {
                        assert(views(lines@) =~= before.push("adapter '"@ + a.name@ + "' ("@ + a.predicate.description@ + ")"@));
                        assert(self.adapters@.take(i + 1).map_values(|a: AdapterData| "adapter '"@ + a.name@ + "' ("@ + a.predicate.description@ + ")"@)
                            =~= self.adapters@.take(i as int).map_values(|a: AdapterData| "adapter '"@ + a.name@ + "' ("@ + a.predicate.description@ + ")"@)
                                .push("adapter '"@ + a.name@ + "' ("@ + a.predicate.description@ + ")"@));
                    }
                    i += 1;
                }
                proof {
                    assert(self.adapters@.take(self.adapters@.len() as int) =~= self.adapters@);
                }
                join(&lines, "\n")
            },
        }
    }

    /// Adds `<words> (<predicate>)` where the ring is defined.
    fn push_ring(&self, lines: &mut Vec<String>, words: &str, p: &Option<ItemPredicate>)
        ensures
            views(final(lines)@) == views(old(lines)@) + ring_lines(words@, *p),
    {
        let ghost before = views(lines@);
        match p {
            Some(q) => {
                let text = cat3(words, " (", q.description.as_str());
                let text = cat(text.as_str(), ")");
                lines.push(text);
                proof {
                    assert(views(lines@) =~= before + seq![words@ + " ("@ + q.description@ + ")"@]);
                }
            },
            None => {
                proof {
                    assert(views(lines@) =~= before + Seq::<Seq<char>>::empty());
                }
            },
        }
    }
}

impl OnionArchitecture {
    /// The layered architecture this one is evaluated as (see [`delegates_to`]).
    pub fn layered_architecture_delegate(&self) -> (r: LayeredArchitecture)
        requires
            self.wf(),
        ensures
            delegates_to(*self, r),
    {
        let n = self.adapters.len();
        let mut layers: Vec<LayerData> = Vec::new();
        layers.push(layer_of("domain model", or_false(&self.domain_models)));
        layers.push(layer_of("domain service", or_false(&self.domain_services)));
        layers.push(layer_of("application service", or_false(&self.application_services)));
        let mut any = predicates::always_false();
        let mut i: usize = 0;
        while i < n
            invariant
                self.wf(),
                n == self.adapters@.len(),
                i <= n,
                any.wf(),
                forall|x: ItemView| #[trigger] any.holds(x) == exists|j: int| 0 <= j < i && #[trigger] self.adapters@[j].predicate.holds(x),
            decreases n - i,
        {
            let ghost before = any;
            let c = self.adapters[i].predicate.copy();
            let ghost gc = c;
            any = any.or(c);
            proof {
                assert forall|x: ItemView| #[trigger] any.holds(x) == exists|j: int| 0 <= j < i + 1 && #[trigger] self.adapters@[j].predicate.holds(x) by {
                    assert(any.holds(x) == (before.holds(x) || gc.holds(x)));
                    assert(gc.holds(x) == self.adapters@[i as int].predicate.holds(x));
                    if self.adapters@[i as int].predicate.holds(x) {
                        assert(0 <= i < i + 1 && self.adapters@[i as int].predicate.holds(x));
                    }
                    if exists|j: int| 0 <= j < i + 1 && #[trigger] self.adapters@[j].predicate.holds(x) {
                        let j = choose|j: int| 0 <= j < i + 1 && #[trigger] self.adapters@[j].predicate.holds(x);
                        if j < i {
                            assert(before.holds(x));
                        }
                    }
                }
            }
            i += 1;
        }
        layers.push(layer_of("adapter", any));
        let ghost base = layers@;
        proof {
            reveal_strlit("domain model");
            reveal_strlit("domain service");
            reveal_strlit("application service");
            reveal_strlit("adapter");
            assert(layer_names(base) =~= ring_names());
        }
        let mut i: usize = 0;
        while i < n
            invariant
                self.wf(),
                n == self.adapters@.len(),
                i <= n,
                layers@.len() == 4 + i,
                layers@.take(4) == base,
                layer_names(layers@) == ring_names() + self.adapters@.take(i as int).map_values(|a: AdapterData| adapter_layer_name(a.name@)),
                forall|k: int| 0 <= k < layers@.len() ==> !(#[trigger] layers@[k]).optional,
                forall|k: int| 0 <= k < layers@.len() ==> (#[trigger] layers@[k]).contains.wf(),
                forall|k: int, x: ItemView| 0 <= k < i ==> #[trigger] layers@[4 + k].contains.holds(x) == self.adapters@[k].predicate.holds(x),
            decreases n - i,
        {
            let a = &self.adapters[i];
            let l = LayerData { name: cat(a.name.as_str(), " adapter"), optional: false, contains: a.predicate.copy() };
            let ghost before = layers@;
            layers.push(l);
            proof {
                assert(layers@.take(4) =~= before.take(4));
                assert(layer_names(layers@) =~= layer_names(before).push(adapter_layer_name(a.name@)));
                assert(self.adapters@.take(i + 1).map_values(|a: AdapterData| adapter_layer_name(a.name@))
                    =~= self.adapters@.take(i as int).map_values(|a: AdapterData| adapter_layer_name(a.name@)).push(adapter_layer_name(a.name@)));
                assert forall|k: int, x: ItemView| 0 <= k < i + 1 implies #[trigger] layers@[4 + k].contains.holds(x) == self.adapters@[k].predicate.holds(x) by {
                    if k < i {
                        assert(layers@[4 + k] == before[4 + k]);
                    }
                }
            }
            i += 1;
        }
        proof {
            assert(self.adapters@.take(n as int) =~= self.adapters@);
            assert(layers@[0] == base[0]);
            assert(layers@[1] == base[1]);
            assert(layers@[2] == base[2]);
            assert(layers@[3] == base[3]);
        }
        let mut specifications: Vec<LayerSpecification> = Vec::new();
        specifications.push(accessed_only_by(
            "domain model",
            &["domain service", "application service", "adapter"],
            String::from_str("may only be accessed by layers ['domain service', 'application service', 'adapter']"),
        ));
        specifications.push(accessed_only_by(
            "domain service",
            &["application service", "adapter"],
            String::from_str("may only be accessed by layers ['application service', 'adapter']"),
        ));
        specifications.push(accessed_only_by(
            "application service",
            &["adapter"],
            String::from_str("may only be accessed by layers ['adapter']"),
        ));
        let ghost fixed = specifications@;
        let mut i: usize = 0;
        while i < n
            invariant
                n == self.adapters@.len(),
                i <= n,
                specifications@.len() == 3 + i,
                specifications@.take(3) == fixed,
                forall|k: int| 0 <= k < specifications@.len() ==> (#[trigger] specifications@[k]).constraint == LayerConstraint::Origin,
                forall|k: int| 0 <= k < i ==> (#[trigger] specifications@[3 + k]).layer_name@ == adapter_layer_name(self.adapters@[k].name@)
                    && specifications@[3 + k].allowed_layers@.len() == 0,
            decreases n - i,
        {
            let s = LayerSpecification {
                layer_name: cat(self.adapters[i].name.as_str(), " adapter"),
                allowed_layers: Vec::new(),
                constraint: LayerConstraint::Origin,
                description_suffix: String::from_str("may not be accessed by any layer"),
            };
            let ghost before = specifications@;
            specifications.push(s);
            proof {
                assert(specifications@.take(3) =~= before.take(3));
                assert forall|k: int| 0 <= k < i + 1 implies (#[trigger] specifications@[3 + k]).layer_name@ == adapter_layer_name(self.adapters@[k].name@)
                    && specifications@[3 + k].allowed_layers@.len() == 0 by {
                    if k < i {
                        assert(specifications@[3 + k] == before[3 + k]);
                    }
                }
            }
            i += 1;
        }
        proof {
            assert(specifications@[0] == fixed[0]);
            assert(specifications@[1] == fixed[1]);
            assert(specifications@[2] == fixed[2]);
            reveal_strlit("domain service");
            reveal_strlit("application service");
            reveal_strlit("adapter");
            assert(views(specifications@[0].allowed_layers@) =~= seq!["domain service"@, "application service"@, "adapter"@]);
            assert(views(specifications@[1].allowed_layers@) =~= seq!["application service"@, "adapter"@]);
            assert(views(specifications@[2].allowed_layers@) =~= seq!["adapter"@]);
        }
        let m = self.ignored_dependencies.len();
        let mut irrelevant: Option<DependencyPredicate> = None;
        let mut i: usize = 0;
        while i < m
            invariant
                self.wf(),
                m == self.ignored_dependencies@.len(),
                i <= m,
                match irrelevant {
                    Some(p) => p.wf(),
                    None => true,
                },
                forall|d: Dependency, items: Seq<RustItem>| #[trigger] opt_dep_holds(irrelevant, d, items)
                    == exists|j: int| 0 <= j < i && #[trigger] self.ignored_dependencies@[j].holds(d, items),
            decreases m - i,
        {
            let ghost before = irrelevant;
            let p = self.ignored_dependencies[i].copy();
            let ghost gp = p;
            irrelevant = Some(match irrelevant {
                Some(e) => e.or(p),
                None => p,
            });
            proof {
                assert forall|d: Dependency, items: Seq<RustItem>| #[trigger] opt_dep_holds(irrelevant, d, items)
                    == exists|j: int| 0 <= j < i + 1 && #[trigger] self.ignored_dependencies@[j].holds(d, items) by {
                    assert(gp.holds(d, items) == self.ignored_dependencies@[i as int].holds(d, items));
                    assert(opt_dep_holds(irrelevant, d, items) == (opt_dep_holds(before, d, items) || gp.holds(d, items)));
                    if self.ignored_dependencies@[i as int].holds(d, items) {
                        assert(0 <= i < i + 1 && self.ignored_dependencies@[i as int].holds(d, items));
                    }
                    if exists|j: int| 0 <= j < i + 1 && #[trigger] self.ignored_dependencies@[j].holds(d, items) {
                        let j = choose|j: int| 0 <= j < i + 1 && #[trigger] self.ignored_dependencies@[j].holds(d, items);
                        if j < i {
                            assert(opt_dep_holds(before, d, items));
                        }
                    }
                }
            }
            i += 1;
        }
        let contained = match &self.all_items_contained_check {
            Some(p) => Some(p.copy()),
            None => None,
        };
        LayeredArchitecture {
            layers,
            specifications,
            scope: DependencyScope::All,
            scope_description: String::from_str("considering all dependencies"),
            irrelevant,
            overridden_description: Some(self.description()),
            optional_layers: self.optional_layers,
            all_items_contained_check: contained,
        }
    }

    /// Evaluates the architecture as its layered delegate (`evaluate(..)`).
    pub fn evaluate(&self, items: &RustItems) -> (r: EvaluationResult)
        requires
            self.wf(),
            items_described(items.items@),
        ensures
            exists|d: LayeredArchitecture| #[trigger] delegates_to(*self, d)
                && violation_lines(r@.violations) == d.violation_lines_on(items.items@)
                && all_violations(r@.violations)
                && r@.rule_description == onion_description(*self)
                && r@.information is None
                && r@.priority == Priority::Medium,
    {
        let d = self.layered_architecture_delegate();
        let r = d.evaluate(items);
        proof {
            assert(delegates_to(*self, d));
        }
        r
    }

    /// Evaluates the architecture and fails with its report if it is violated (`check(..)`).
    pub fn check(&self, items: &RustItems) -> (r: Result<(), String>)
        requires
            self.wf(),
            items_described(items.items@),
        ensures
            exists|d: LayeredArchitecture, v: ResultView| #![trigger delegates_to(*self, d), violation_lines(v.violations)]
                delegates_to(*self, d)
                && violation_lines(v.violations) == d.violation_lines_on(items.items@)
                && all_violations(v.violations)
                && v.rule_description == onion_description(*self)
                && v.information is None
                && v.priority == Priority::Medium
                && assertion_outcome(v, outcome_view(r)),
    {
        let d = self.layered_architecture_delegate();
        let result = d.evaluate(items);
        let r = assert_no_violation(&result);
        proof {
            assert(delegates_to(*self, d));
            assert(violation_lines(result@.violations) == d.violation_lines_on(items.items@));
        }
        r
    }
}

impl super::Architectures {
    /// An onion architecture without rings yet.
    pub fn onion_architecture() -> (r: OnionArchitecture)
        ensures
            r.wf(),
            r.domain_models is None,
            r.domain_services is None,
            r.application_services is None,
            r.adapters@.len() == 0,
            !r.optional_layers,
            r.ignored_dependencies@.len() == 0,
            r.overridden_description is None,
            r.all_items_contained_check is None,
    {
        OnionArchitecture::new()
    }
}

/// An onion architecture without rings yet.
pub fn onion_architecture() -> (r: OnionArchitecture)
    ensures
        r.wf(),
        r.domain_models is None,
        r.domain_services is None,
        r.application_services is None,
        r.adapters@.len() == 0,
        !r.optional_layers,
        r.ignored_dependencies@.len() == 0,
        r.overridden_description is None,
        r.all_items_contained_check is None,
{
    OnionArchitecture::new()
}

} // verus!


