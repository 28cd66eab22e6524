use archunit::domain::{ItemKind, Member, RustItem, RustItems, RustModifier};
use archunit::lang::syntax::classes;

fn item_with(name: &str, constructor_private: bool, field_private: bool) -> RustItem {
    let mut item = RustItem::new("app", name, ItemKind::Struct);
    let modifier = if constructor_private { RustModifier::Private } else { RustModifier::Pub };
    item.constructors.push(Member::new(&format!("app::{}::new", name), vec![modifier]));
    let field = if field_private { RustModifier::Private } else { RustModifier::Pub };
    item.fields.push(Member::new(&format!("app::{}::state", name), vec![field]));
    item
}

#[test]
fn only_private_constructors_and_sealed_structs_pass() {
    let items = RustItems::of(vec![item_with("Sealed", true, true), item_with("Open", false, false)]);
    let rule = classes().should().have_only_private_constructors().into_rule();
    assert_eq!(rule.description(), "classes should have only private constructors");
    let result = rule.evaluate(&items).unwrap();
    assert_eq!(
        result.failure_report().details(),
        vec![
            "Constructor <app::Open::new> is not private".to_owned(),
            "Item <app::Open> can be constructed with a struct literal outside its module in ".to_owned(),
        ]
    );
}

#[test]
fn non_exhaustive_structs_cannot_be_built_from_outside() {
    let mut item = item_with("Marked", true, false);
    item.modifiers.push(RustModifier::NonExhaustive);
    let items = RustItems::of(vec![item]);
    let rule = classes().should().have_only_private_constructors().into_rule();
    assert!(!rule.evaluate(&items).unwrap().has_violation());
}
