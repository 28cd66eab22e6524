use archunit::domain::{ItemKind, RustItem, RustItems};
use archunit::lang::condition::ArchCondition;
use archunit::lang::conditions::{and, have_simple_name, have_simple_name_starting_with};
use archunit::lang::events::ConditionEvents;
use archunit::lang::syntax::{classes, no_classes};

fn items() -> Vec<RustItem> {
    vec![
        RustItem::new("app", "Service", ItemKind::Struct),
        RustItem::new("app", "ServiceImpl", ItemKind::Struct),
        RustItem::new("app", "Repo", ItemKind::Struct),
    ]
}

fn lines(events: &ConditionEvents) -> (Vec<String>, Vec<String>) {
    let mut violating: Vec<String> = events.violating().iter().flat_map(|e| e.description_lines()).collect();
    let mut allowed: Vec<String> = events.allowed().iter().flat_map(|e| e.description_lines()).collect();
    violating.sort();
    allowed.sort();
    (violating, allowed)
}

fn condition() -> ArchCondition {
    and(have_simple_name_starting_with("Serv"), have_simple_name("Service"))
}

#[test]
fn negating_twice_gives_the_same_lines() {
    let objects = items();
    let all = RustItems::of(items());
    let plain = condition().evaluate_all(&objects, &all);
    let twice = ArchCondition::not(ArchCondition::not(condition())).evaluate_all(&objects, &all);
    assert_eq!(lines(&twice), lines(&plain));
    assert!(!lines(&plain).0.is_empty());
    assert_eq!(twice.allowed().len(), plain.allowed().len());
    assert_eq!(plain.allowed().len(), 1);
    assert_eq!(ArchCondition::not(condition()).description(), format!("not {}", condition().description()));
    let never_twice = ArchCondition::never(ArchCondition::never(condition())).evaluate_all(&objects, &all);
    assert_eq!(lines(&never_twice), lines(&plain));
}

#[test]
fn no_classes_reports_what_never_reports() {
    let all = RustItems::of(items());
    let rule = no_classes().should_with(have_simple_name("Repo")).into_rule();
    assert_eq!(rule.description(), "no classes should have simple name 'Repo'");
    let result = rule.evaluate(&all).unwrap();
    let never = ArchCondition::never(have_simple_name("Repo")).evaluate_all(&items(), &all);
    let expected: Vec<String> = never.violating().iter().flat_map(|e| e.description_lines()).collect();
    assert_eq!(result.failure_report().details(), expected);
    assert_eq!(expected.len(), 1);
    let positive = classes().should_with(have_simple_name("Repo")).into_rule().evaluate(&all).unwrap();
    assert_eq!(positive.failure_report().details().len(), 2);
}
