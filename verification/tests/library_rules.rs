use archunit::base::count_predicates::{
    equal_to, greater_than, greater_than_or_equal_to, less_than, less_than_or_equal_to,
};
use archunit::base::predicates::{do_not, name_matching, not, reside_in_a_package, simple_name};
use archunit::domain::{Dependency, ItemKind, ItemRef, RustItem, RustItems};
use archunit::lang::syntax::classes;
use archunit::library::architectures::layered_architecture;
use archunit::library::architectures::onion::onion_architecture;
use archunit::library::dependencies::rules::slices;
use archunit::library::dependency_rules::no_classes_should_depend_upper_packages;
use archunit::lang::events::ViolationHandler;
use archunit::library::freeze::FuzzyViolationLineMatcher;

struct Collected(Vec<(Vec<String>, String)>);

impl ViolationHandler<Dependency> for Collected {
    fn handle(&mut self, violating_objects: Vec<Dependency>, message: &str) {
        let texts = violating_objects.iter().map(|d| d.description.clone()).collect();
        self.0.push((texts, message.to_owned()));
    }
}

impl ViolationHandler<ItemRef> for Collected {
    fn handle(&mut self, violating_objects: Vec<ItemRef>, message: &str) {
        let texts = violating_objects.iter().map(|i| i.full_name.clone()).collect();
        self.0.push((texts, message.to_owned()));
    }
}

fn ids(v: &[&str]) -> Vec<String> {
    v.iter().map(|s| (*s).to_owned()).collect()
}

fn item(package: &str, name: &str, targets: &[(&str, &str)]) -> RustItem {
    let mut item = RustItem::new(package, name, ItemKind::Struct);
    for (p, n) in targets {
        let origin = item.reference();
        let target = ItemRef::new(p, n);
        let description = format!("Item <{}> depends on <{}::{}>", item.full_name, p, n);
        item.dependencies.push(Dependency::new(origin, target, &description));
    }
    item
}

fn layered_items() -> RustItems {
    RustItems::of(vec![
        item("app::controller", "Api", &[("app::service", "Logic")]),
        item("app::service", "Logic", &[("app::persistence", "Repo"), ("app::controller", "Api")]),
        item("app::persistence", "Repo", &[("app::service", "Logic")]),
    ])
}

#[test]
fn layered_architecture_describes_layers_and_constraints() {
    let architecture = layered_architecture()
        .considering_all_dependencies()
        .layer("Controller")
        .defined_by(&ids(&["..controller.."]))
        .layer("Service")
        .defined_by(&ids(&["..service.."]))
        .where_layer("Controller")
        .may_not_be_accessed_by_any_layer()
        .where_layer("Service")
        .may_only_be_accessed_by_layers(&ids(&["Controller"]));
    assert_eq!(
        architecture.description(),
        "Layered architecture considering all dependencies, consisting of\n\
         layer 'Controller' ('..controller..')\n\
         layer 'Service' ('..service..')\n\
         where layer 'Controller' may not be accessed by any layer\n\
         where layer 'Service' may only be accessed by layers ['Controller']"
    );
}

#[test]
fn layered_architecture_reports_forbidden_accesses() {
    let architecture = layered_architecture()
        .considering_all_dependencies()
        .layer("Controller")
        .defined_by(&ids(&["..controller.."]))
        .layer("Service")
        .defined_by(&ids(&["..service.."]))
        .layer("Persistence")
        .defined_by(&ids(&["..persistence.."]))
        .where_layer("Controller")
        .may_not_be_accessed_by_any_layer()
        .where_layer("Service")
        .may_only_be_accessed_by_layers(&ids(&["Controller"]))
        .where_layer("Persistence")
        .may_only_be_accessed_by_layers(&ids(&["Service"]));
    let result = architecture.evaluate(&layered_items());
    assert!(result.has_violation());
    assert_eq!(
        result.failure_report().details(),
        vec![
            "Item <app::persistence::Repo> depends on <app::service::Logic>".to_owned(),
            "Item <app::service::Logic> depends on <app::controller::Api>".to_owned(),
        ]
    );
    assert!(architecture.check(&layered_items()).is_err());
}

#[test]
fn layered_architecture_reports_empty_layers_and_items_outside() {
    let items = RustItems::of(vec![item("app::controller", "Api", &[]), item("app::other", "Stray", &[])]);
    let architecture = layered_architecture()
        .considering_all_dependencies()
        .layer("Controller")
        .defined_by(&ids(&["..controller.."]))
        .layer("Empty")
        .defined_by(&ids(&["..nothing.."]))
        .ensure_all_classes_are_contained_in_architecture();
    let details = architecture.evaluate(&items).failure_report().details();
    assert_eq!(
        details,
        vec![
            "Item <app::other::Stray> is not contained in architecture".to_owned(),
            "Layer 'Empty' is empty".to_owned(),
        ]
    );
    let tolerant = layered_architecture()
        .considering_all_dependencies()
        .layer("Controller")
        .defined_by(&ids(&["..controller.."]))
        .optional_layer("Empty")
        .defined_by(&ids(&["..nothing.."]));
    assert!(!tolerant.evaluate(&items).has_violation());
    assert!(tolerant.check(&items).is_ok());
}

#[test]
fn onion_architecture_forbids_inner_rings_to_reach_outwards() {
    let items = RustItems::of(vec![
        item("app::domain::model", "Order", &[("app::domain::service", "Pricing")]),
        item("app::domain::service", "Pricing", &[("app::domain::model", "Order")]),
        item("app::application", "Checkout", &[("app::domain::service", "Pricing")]),
        item("app::adapter::web", "Controller", &[("app::application", "Checkout")]),
    ]);
    let architecture = onion_architecture()
        .domain_models(&ids(&["..domain::model.."]))
        .domain_services(&ids(&["..domain::service.."]))
        .application_services(&ids(&["..application.."]))
        .adapter("web", &ids(&["..adapter::web.."]));
    let result = architecture.evaluate(&items);
    assert_eq!(
        result.failure_report().details(),
        vec!["Item <app::domain::model::Order> depends on <app::domain::service::Pricing>".to_owned()]
    );
}

#[test]
fn slices_should_not_depend_on_each_other() {
    let items = RustItems::of(vec![
        item("app::a", "A", &[("app::b", "B")]),
        item("app::b", "B", &[("app::a", "A")]),
        item("app::c", "C", &[("app::c", "D")]),
        item("app::c", "D", &[]),
    ]);
    let rule = slices().matching("app::(*)..").should().not_depend_on_each_other();
    assert_eq!(rule.description(), "slices matching 'app::(*)..' should not depend on each other");
    let result = rule.evaluate(&items).unwrap();
    assert_eq!(
        result.failure_report().details(),
        vec![
            "Slice a depends on Slice b:\nItem <app::a::A> depends on <app::b::B>".to_owned(),
            "Slice b depends on Slice a:\nItem <app::b::B> depends on <app::a::A>".to_owned(),
        ]
    );
}

#[test]
fn slices_report_cycles_from_the_smallest_slice() {
    let items = RustItems::of(vec![
        item("app::b", "B", &[("app::a", "A")]),
        item("app::a", "A", &[("app::b", "B")]),
        item("app::c", "C", &[("app::a", "A")]),
    ]);
    let rule = slices().matching("app::(*)..").should().be_free_of_cycles();
    let result = rule.evaluate(&items).unwrap();
    assert_eq!(
        result.failure_report().details(),
        vec![
            "Cycle detected: Slice a -> \n                Slice b -> \n                Slice a\n  1. Dependencies of Slice a\n    - Item <app::a::A> depends on <app::b::B>\n  2. Dependencies of Slice b\n    - Item <app::b::B> depends on <app::a::A>"
                .to_owned(),
        ]
    );
    let acyclic = RustItems::of(vec![item("app::a", "A", &[("app::b", "B")]), item("app::b", "B", &[])]);
    assert!(!rule.evaluate(&acyclic).unwrap().has_violation());
}

#[test]
fn rules_without_slices_fail_unless_allowed() {
    let items = RustItems::of(vec![item("other", "X", &[])]);
    let rule = slices().matching("app::(*)..").should().not_depend_on_each_other();
    assert!(rule.evaluate(&items).is_err());
    let allowed = slices().matching("app::(*)..").should().not_depend_on_each_other().allow_empty_should(true);
    assert!(!allowed.evaluate(&items).unwrap().has_violation());
}

#[test]
fn transitive_dependencies_are_followed_through_other_items() {
    let items = RustItems::of(vec![
        item("app::web", "Page", &[("app::util", "Helper")]),
        item("app::util", "Helper", &[("app::db", "Store")]),
        item("app::db", "Store", &[]),
        item("app::web", "Static", &[]),
    ]);
    let rule = classes()
        .that()
        .reside_in_a_package("..web..")
        .should()
        .transitively_depend_on_classes_that(reside_in_a_package("..db.."))
        .into_rule();
    let result = rule.evaluate(&items).unwrap();
    assert_eq!(
        result.failure_report().details(),
        vec!["Item <app::web::Static> does not transitively depend on any matching class in ".to_owned()]
    );
    let never = classes()
        .that()
        .reside_in_a_package("..web..")
        .should()
        .transitively_depend_on_classes_that(simple_name("Nothing"))
        .into_rule();
    assert_eq!(never.evaluate(&items).unwrap().failure_report().details().len(), 2);
}

#[test]
fn counting_elements_checks_the_number_of_distinct_items() {
    let items = RustItems::of(vec![item("app::service", "A", &[]), item("app::service", "B", &[]), item("app::web", "C", &[])]);
    assert_eq!(equal_to(5).description(), "equal to '5'");
    assert_eq!(less_than(3).description(), "less than '3'");
    let ok = classes()
        .that()
        .reside_in_a_package("..service..")
        .should()
        .contain_number_of_elements(equal_to(2))
        .into_rule();
    assert!(!ok.evaluate(&items).unwrap().has_violation());
    let too_few = classes()
        .that()
        .reside_in_a_package("..service..")
        .should()
        .contain_number_of_elements(greater_than(2))
        .into_rule();
    assert_eq!(
        too_few.evaluate(&items).unwrap().failure_report().details(),
        vec!["there is/are 2 element(s) in [app::service::A, app::service::B]".to_owned()]
    );
}

#[test]
fn upper_packages_may_not_be_depended_on() {
    let items = RustItems::of(vec![
        item("app::service::internal", "Worker", &[("app::service", "Facade"), ("app::util", "Helper")]),
        item("app::service", "Facade", &[]),
        item("app::util", "Helper", &[]),
    ]);
    let rule = no_classes_should_depend_upper_packages();
    let result = rule.evaluate(&items).unwrap();
    assert_eq!(
        result.failure_report().details(),
        vec!["Item <app::service::internal::Worker> depends on <app::service::Facade>".to_owned()]
    );
    let mut dependencies = Collected(Vec::new());
    result.handle_violations::<Dependency, _>(&mut dependencies);
    let line = "Item <app::service::internal::Worker> depends on <app::service::Facade>".to_owned();
    assert_eq!(dependencies.0, vec![(vec![line.clone()], line)]);
    let mut items_only = Collected(Vec::new());
    result.handle_violations::<ItemRef, _>(&mut items_only);
    assert!(items_only.0.is_empty());
}

#[test]
fn fuzzy_matching_ignores_line_numbers_and_generated_names() {
    let m = FuzzyViolationLineMatcher;
    assert!(m.matches("Method <a.B.c()> calls x in (B.java:12)", "Method <a.B.c()> calls x in (B.java:345)"));
    assert!(m.matches("Class <a.B$1> is bad", "Class <a.B$2> is bad"));
    assert!(!m.matches("Class <a.B> is bad", "Class <a.C> is bad"));
    assert!(m.matches("same", "same"));
}

#[test]
fn names_match_regular_expressions_as_a_whole() {
    let api = item("app::controller", "Api", &[]);
    assert!(name_matching("app::.*Api").test(&api));
    assert!(!name_matching("controller").test(&api));
    assert!(!name_matching("(").test(&api));
    assert_eq!(name_matching("app::.*").description(), "name matching 'app::.*'");
}

#[test]
fn count_predicates_describe_their_bounds() {
    assert_eq!(equal_to(5).description(), "equal to '5'");
    assert!(equal_to(5).test(5));
    assert_eq!(less_than(5).description(), "less than '5'");
    assert_eq!(greater_than(5).description(), "greater than '5'");
    assert_eq!(less_than_or_equal_to(5).description(), "less than or equal to '5'");
    assert_eq!(greater_than_or_equal_to(5).description(), "greater than or equal to '5'");
    assert!(greater_than_or_equal_to(5).test(5));
    assert!(!greater_than(5).test(5));
    assert!(less_than_or_equal_to(5).test(5));
}

#[test]
fn item_predicates_compose_descriptions() {
    let api = item("app::web", "Api", &[]);
    let web = reside_in_a_package("..web..");
    let named = simple_name("Api");
    let both = web.and(named);
    assert_eq!(both.description(), "reside in a package '..web..' and simple name 'Api'");
    assert!(both.test(&api));
    let either = reside_in_a_package("..db..").or(simple_name("Other"));
    assert_eq!(either.description(), "reside in a package '..db..' or simple name 'Other'");
    assert!(!either.test(&api));
    assert_eq!(not(simple_name("Api")).description(), "not simple name 'Api'");
    assert_eq!(do_not(simple_name("Api")).description(), "do not simple name 'Api'");
    assert!(!do_not(simple_name("Api")).test(&api));
    assert_eq!(simple_name("Api").as_("custom").description(), "custom");
}
