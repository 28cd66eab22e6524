use archunit::domain::{Dependency, ItemKind, ItemRef, RustItem, RustItems};
use archunit::lang::evaluation::{apply_ignore_patterns, parse_ignore_patterns, space_line_breaks};
use archunit::library::dependencies::rules::slices;

fn item(package: &str, name: &str, targets: &[(&str, &str)]) -> RustItem {
    let mut item = RustItem::new(package, name, ItemKind::Struct);
    for (p, n) in targets {
        let origin = item.reference();
        let target = ItemRef::new(p, n);
        let description = format!("Item <{}> depends on <{}::{}>", item.full_name, p, n);
        item.dependencies.push(Dependency::new(origin, target, &description));
    }
    item
}

fn two_way() -> RustItems {
    RustItems::of(vec![
        item("app::a", "A", &[("app::b", "B")]),
        item("app::b", "B", &[("app::a", "A")]),
    ])
}

fn patterns(v: &[&str]) -> Vec<String> {
    v.iter().map(|s| s.to_string()).collect()
}

#[test]
fn line_breaks_become_spaces_before_matching() {
    assert_eq!(space_line_breaks("a\r\nb\nc\rd"), "a b c\rd");
}

#[test]
fn ignore_patterns_drop_the_lines_they_match() {
    let rule = slices().matching("app::(*)..").should().not_depend_on_each_other();
    let result = rule.evaluate(&two_way()).unwrap();
    assert_eq!(result.failure_report().details().len(), 2);
    // the pattern sees the line break as a space
    let filtered = result.without_ignored(&patterns(&["Slice a depends on Slice b: Item <app::a::A>.*"]));
    assert_eq!(
        filtered.failure_report().details(),
        vec!["Slice b depends on Slice a:\nItem <app::b::B> depends on <app::a::A>".to_owned()]
    );
    assert!(filtered.has_violation());
}

#[test]
fn without_patterns_every_violation_stays() {
    let rule = slices().matching("app::(*)..").should().not_depend_on_each_other();
    let result = rule.evaluate(&two_way()).unwrap();
    let events = result.violations.len();
    let kept = apply_ignore_patterns(result.violations, &Vec::new());
    assert_eq!(kept.len(), events);
}

#[test]
fn a_pattern_that_does_not_compile_ignores_nothing_and_all_matching_ignores_all() {
    let rule = slices().matching("app::(*)..").should().not_depend_on_each_other();
    let broken = rule.evaluate(&two_way()).unwrap().without_ignored(&patterns(&["("]));
    assert_eq!(broken.failure_report().details().len(), 2);
    let all = rule.evaluate(&two_way()).unwrap().without_ignored(&patterns(&["Slice"]));
    assert!(!all.has_violation());
    assert!(all.failure_report().details().is_empty());
}

#[test]
fn ignore_pattern_files_hold_one_pattern_per_line() {
    let text = "# generated code\n.*Generated.*\r\n\n   \n  .*depends on <app::b::B>  \n#.*skip.*\nlast";
    assert_eq!(
        parse_ignore_patterns(text),
        vec![".*Generated.*".to_owned(), ".*depends on <app::b::B>".to_owned(), "last".to_owned()]
    );
    assert!(parse_ignore_patterns("").is_empty());
    assert!(parse_ignore_patterns("\n# only a comment\n").is_empty());
}
