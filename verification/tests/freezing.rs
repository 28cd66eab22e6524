use archunit::domain::{ItemKind, Member, RustItem, RustItems, RustModifier};
use archunit::lang::rule::ArchRule;
use archunit::lang::syntax::classes;
use archunit::library::freeze::store::{freeze, frozen_step, property_of};
use archunit::library::freeze::LineMatcher;
use archunit::library::freeze::uuid_from_bits;

fn item_with(name: &str, constructor_private: bool) -> RustItem {
    let mut item = RustItem::new("app", name, ItemKind::Struct);
    let modifier = if constructor_private { RustModifier::Private } else { RustModifier::Pub };
    item.constructors.push(Member::new(&format!("app::{}::new", name), vec![modifier]));
    item.fields.push(Member::new(&format!("app::{}::state", name), vec![RustModifier::Private]));
    item
}

fn rule() -> ArchRule {
    ArchRule::Simple(classes().should().have_only_private_constructors().into_rule())
}

#[test]
fn first_evaluation_records_and_reports_nothing() {
    let items = RustItems::of(vec![item_with("Open", false), item_with("Sealed", true)]);
    let mut frozen = freeze(rule());
    let result = frozen.evaluate(&items).unwrap();
    assert!(!result.has_violation());
    assert_eq!(result.rule_description(), "classes should have only private constructors");
    let stored = frozen.store.stored_rules();
    assert_eq!(stored.len(), 1);
    assert_eq!(stored[0].0, "classes should have only private constructors");
    assert_eq!(stored[0].1, vec!["Constructor <app::Open::new> is not private".to_owned()]);
    assert!(frozen.check(&items).is_ok());
}

#[test]
fn only_new_violations_fail_a_frozen_rule() {
    let before = RustItems::of(vec![item_with("Open", false)]);
    let after = RustItems::of(vec![item_with("Open", false), item_with("Later", false)]);
    let mut frozen = freeze(rule());
    assert!(frozen.check(&before).is_ok());
    let result = frozen.evaluate(&after).unwrap();
    assert_eq!(result.failure_report().details(), vec!["Constructor <app::Later::new> is not private".to_owned()]);
    let e = frozen.check(&after).unwrap_err();
    assert!(e.contains("Constructor <app::Later::new> is not private"));
    assert!(!e.contains("Constructor <app::Open::new> is not private"));
}

#[test]
fn solved_violations_are_forgotten() {
    let before = RustItems::of(vec![item_with("Open", false), item_with("Other", false)]);
    let after = RustItems::of(vec![item_with("Open", false), item_with("Other", true)]);
    let mut frozen = freeze(rule());
    assert!(frozen.check(&before).is_ok());
    assert_eq!(frozen.store.stored_rules()[0].1.len(), 2);
    assert!(frozen.check(&after).is_ok());
    assert_eq!(frozen.store.stored_rules()[0].1, vec!["Constructor <app::Open::new> is not private".to_owned()]);
    let back = frozen.check(&before).unwrap_err();
    assert!(back.contains("Constructor <app::Other::new> is not private"));
}

#[test]
fn configured_refreeze_records_current_violations_again() {
    let before = RustItems::of(vec![item_with("Open", false)]);
    let after = RustItems::of(vec![item_with("Open", false), item_with("Later", false)]);
    let mut frozen = freeze(rule());
    assert!(frozen.check(&before).is_ok());
    let props = vec![("default.path".to_owned(), "store".to_owned())];
    let mut refrozen = frozen.configured(props, " true ");
    assert!(refrozen.refreeze);
    assert!(refrozen.check(&after).is_ok());
    assert_eq!(refrozen.store.properties(), &vec![("default.path".to_owned(), "store".to_owned())]);
    assert_eq!(refrozen.store.stored_rules()[0].1.len(), 2);
    let kept = freeze(rule()).configured(Vec::new(), "yes");
    assert!(!kept.refreeze);
}

#[test]
fn rule_file_names_have_the_layout_of_random_uuids() {
    assert_eq!(uuid_from_bits(0x0123_4567_89ab_cdef, 0xfedc_ba98_7654_3210), "01234567-89ab-4def-bedc-ba9876543210");
    assert_eq!(uuid_from_bits(0, 0), "00000000-0000-4000-8000-000000000000");
    assert_eq!(uuid_from_bits(u64::MAX, u64::MAX), "ffffffff-ffff-4fff-bfff-ffffffffffff");
}

#[test]
fn stored_rule_files_are_found_by_description() {
    let rules = vec![("rule a".to_owned(), "file-a".to_owned()), ("rule b".to_owned(), "file-b".to_owned())];
    assert_eq!(property_of(&rules, "rule b"), Some("file-b".to_owned()));
    assert_eq!(property_of(&rules, "rule c"), None);
}

#[test]
fn a_frozen_step_decides_what_to_report_and_record() {
    let items = RustItems::of(vec![item_with("Open", false), item_with("Later", false)]);
    let result = match rule() {
        ArchRule::Simple(r) => r.evaluate(&items).unwrap(),
        _ => unreachable!(),
    };
    let d = "classes should have only private constructors";
    let (first, save) = frozen_step(&result, d, None, LineMatcher::Fuzzy);
    assert!(!first.has_violation());
    assert_eq!(
        save,
        Some(vec!["Constructor <app::Later::new> is not private".to_owned(), "Constructor <app::Open::new> is not private".to_owned()])
    );
    let stored = vec!["Constructor <app::Open::new> is not private".to_owned(), "Constructor <app::Gone::new> is not private".to_owned()];
    let (later, save) = frozen_step(&result, d, Some(stored), LineMatcher::Exact);
    assert_eq!(later.failure_report().details(), vec!["Constructor <app::Later::new> is not private".to_owned()]);
    assert_eq!(save, Some(vec!["Constructor <app::Open::new> is not private".to_owned()]));
    let (_, unchanged) = frozen_step(&result, d, Some(vec!["Constructor <app::Open::new> is not private".to_owned()]), LineMatcher::Exact);
    assert_eq!(unchanged, None);
}
