use archunit::domain::{Dependency, ItemKind, ItemRef, RustItem, RustItems};
use archunit::lang::configuration::ArchConfiguration;
use archunit::lang::syntax::classes;
use archunit::library::dependencies::rules::slices;

fn item(package: &str, name: &str, targets: &[(&str, &str)]) -> RustItem {
    let mut item = RustItem::new(package, name, ItemKind::Struct);
    for (p, n) in targets {
        let origin = item.reference();
        let target = ItemRef::new(p, n);
        let description = format!("Item <{}> depends on <{}::{}>", item.full_name, p, n);
        item.dependencies.push(Dependency::new(origin, target, &description));
    }
    item
}

fn lenient() -> ArchConfiguration {
    ArchConfiguration { fail_on_empty_should: false, ..ArchConfiguration::defaults() }
}

fn nowhere_rule() -> archunit::lang::rule::SimpleArchRule {
    classes().that().reside_in_a_package("..nowhere..").should().have_only_private_constructors().into_rule()
}

#[test]
fn default_configuration_values() {
    let c = ArchConfiguration::defaults();
    assert!(c.fail_on_empty_should);
    assert_eq!(c.max_number_of_cycles_to_detect, 100);
    assert_eq!(c.max_number_of_dependencies_per_edge, 20);
}

#[test]
fn rules_that_check_nothing_fail_by_default() {
    let items = RustItems::of(vec![item("app", "A", &[])]);
    let rule = nowhere_rule();
    let e = rule.evaluate(&items).unwrap_err();
    assert!(e.starts_with(&format!("Rule '{}' failed to check any classes", rule.description())));
}

#[test]
fn a_configuration_may_let_rules_check_nothing() {
    let items = RustItems::of(vec![item("app", "A", &[])]);
    let configured = nowhere_rule().configured(&lenient());
    assert!(!configured.evaluate(&items).unwrap().has_violation());
    let explicit = nowhere_rule().allow_empty_should(false).configured(&lenient());
    assert!(explicit.evaluate(&items).is_err());
}

#[test]
fn a_configuration_may_let_slice_rules_check_nothing() {
    let items = RustItems::of(vec![item("other", "X", &[])]);
    let rule = slices().matching("app::(*)..").should().not_depend_on_each_other();
    assert!(rule.evaluate(&items).is_err());
    let configured = slices().matching("app::(*)..").should().not_depend_on_each_other().configured(&lenient());
    assert!(!configured.evaluate(&items).unwrap().has_violation());
}

#[test]
fn the_configured_cycle_limit_cuts_the_search() {
    let items = RustItems::of(vec![
        item("app::a", "A", &[("app::b", "B")]),
        item("app::b", "B", &[("app::a", "A"), ("app::c", "C")]),
        item("app::c", "C", &[("app::b", "B")]),
    ]);
    let rule = slices().matching("app::(*)..").should().be_free_of_cycles();
    let all = rule.evaluate(&items).unwrap();
    assert_eq!(all.failure_report().details().len(), 2);
    assert_eq!(all.failure_report().failure_messages().information_about_number_of_violations(), "2 times");
    let one = ArchConfiguration { max_number_of_cycles_to_detect: 1, ..ArchConfiguration::defaults() };
    let cut = slices().matching("app::(*)..").should().be_free_of_cycles().configured(&one).evaluate(&items).unwrap();
    assert_eq!(cut.failure_report().details().len(), 1);
    assert_eq!(
        cut.failure_report().failure_messages().information_about_number_of_violations(),
        " >= 1 times - the maximum number of cycles to detect has been reached; this limit can be adapted using the `archunit.toml` value `cycles.max_number_to_detect = xxx`"
    );
    let two = ArchConfiguration { max_number_of_cycles_to_detect: 2, ..ArchConfiguration::defaults() };
    let exact = slices().matching("app::(*)..").should().be_free_of_cycles().configured(&two).evaluate(&items).unwrap();
    assert_eq!(exact.failure_report().details().len(), 2);
    assert_eq!(exact.failure_report().failure_messages().information_about_number_of_violations(), "2 times");
}

#[test]
fn the_configured_dependency_limit_shortens_cycle_details() {
    let items = RustItems::of(vec![
        item("app::a", "A", &[("app::b", "B"), ("app::b", "C")]),
        item("app::b", "B", &[("app::a", "A")]),
        item("app::b", "C", &[]),
    ]);
    let one = ArchConfiguration { max_number_of_dependencies_per_edge: 1, ..ArchConfiguration::defaults() };
    let rule = slices().matching("app::(*)..").should().be_free_of_cycles().configured(&one);
    let details = rule.evaluate(&items).unwrap().failure_report().details();
    assert_eq!(details.len(), 1);
    let full = slices().matching("app::(*)..").should().be_free_of_cycles().evaluate(&items).unwrap().failure_report().details();
    assert!(full[0].contains("Item <app::a::A> depends on <app::b::C>"));
    assert!(!details[0].contains("Item <app::a::A> depends on <app::b::C>"));
}
