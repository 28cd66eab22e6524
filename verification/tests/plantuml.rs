use archunit::domain::{Dependency, ItemKind, RustItem, RustItems};
use archunit::lang::syntax::classes;
use archunit::library::plantuml::{
    adhere_to_plant_uml_diagram_from_str, component_from, dependencies_from, Configuration, PlantUmlDiagram,
    PlantUmlError,
};

const DIAGRAM: &str = "@startuml\n\
[Controller] <<..controller..>>\n\
component [Service] <<..service..>> as svc\n\
[Persistence] <<..persistence..>> #lightblue\n\
' [Ghost] <<..ghost..>>\n\
[Controller] --> svc\n\
svc -left-> [Persistence] : stores\n\
[Persistence] <-- [Controller]\n\
@enduml\n";

fn item(package: &str, name: &str, targets: &[(&str, &str)]) -> RustItem {
    let mut item = RustItem::new(package, name, ItemKind::Struct);
    for (p, n) in targets {
        let origin = item.reference();
        let target = archunit::domain::ItemRef::new(p, n);
        let description = format!("Item <{}> depends on <{}::{}>", item.full_name, p, n);
        item.dependencies.push(Dependency::new(origin, target, &description));
    }
    item
}

#[test]
fn parses_components_aliases_and_arrows() {
    let diagram = PlantUmlDiagram::parse(DIAGRAM).unwrap();
    let names: Vec<&str> = diagram.components().iter().map(|c| c.name()).collect();
    assert_eq!(names, vec!["Controller", "Service", "Persistence"]);
    assert_eq!(diagram.components()[1].alias(), Some("svc"));
    assert_eq!(diagram.components()[0].stereotypes(), &vec!["..controller..".to_owned()]);
    let aliased: Vec<&str> = diagram.components_with_alias().iter().map(|c| c.name()).collect();
    assert_eq!(aliased, vec!["Service"]);
    let from_controller: Vec<&str> = diagram.dependencies_of(&diagram.components()[0]).iter().map(|c| c.name()).collect();
    assert_eq!(from_controller, vec!["Service", "Persistence"]);
    let from_service: Vec<&str> = diagram.dependencies_of(&diagram.components()[1]).iter().map(|c| c.name()).collect();
    assert_eq!(from_service, vec!["Persistence"]);
    assert!(diagram.dependencies_of(&diagram.components()[2]).is_empty());
}

#[test]
fn rejects_components_without_stereotype() {
    let err = PlantUmlDiagram::parse("[Lonely]\n").unwrap_err();
    assert_eq!(
        err,
        PlantUmlError::IllegalDiagram(
            "Components must include at least one stereotype specifying the package identifier(<<..>>), but component 'Lonely' does not"
                .to_owned()
        )
    );
}

#[test]
fn rejects_repeated_stereotypes_and_empty_diagrams() {
    let err = adhere_to_plant_uml_diagram_from_str(
        "twice.puml",
        "[A] <<..x..>>\n[B] <<..x..>>\n",
        Configuration::considering_all_dependencies(),
    )
    .unwrap_err();
    assert_eq!(err, PlantUmlError::IllegalDiagram("Stereotype '..x..' should be unique".to_owned()));
    let err = adhere_to_plant_uml_diagram_from_str("empty.puml", "@startuml\n@enduml\n", Configuration::considering_all_dependencies())
        .unwrap_err();
    assert_eq!(err, PlantUmlError::IllegalDiagram("No components defined in diagram <empty.puml>".to_owned()));
}

#[test]
fn component_from_reads_groups_and_stereotypes() {
    let captures = Some(vec![Some("[A] <<x>> as \"a]\"".to_owned()), Some("A".to_owned()), Some("a]".to_owned())]);
    let err = component_from(captures, vec![vec![Some("<<x>>".to_owned()), Some("x".to_owned())]]).unwrap_err();
    assert_eq!(err, PlantUmlError::IllegalDiagram("Alias 'a]' should not contain character(s): '[' or ']' or '\"'".to_owned()));
    let captures = Some(vec![Some("[A]".to_owned()), Some("A".to_owned()), None]);
    let stereotypes = vec![
        vec![Some("<<x>>".to_owned()), Some("x".to_owned())],
        vec![Some("<<y>>".to_owned()), Some("y".to_owned())],
        vec![Some("<<x>>".to_owned()), Some("x".to_owned())],
    ];
    let component = component_from(captures, stereotypes).unwrap().unwrap();
    assert_eq!(component.name(), "A");
    assert_eq!(component.stereotypes(), &vec!["x".to_owned(), "y".to_owned()]);
    assert_eq!(component.alias(), None);
    assert!(component_from(None, Vec::new()).unwrap().is_none());
}

#[test]
fn dependencies_from_trims_and_swaps_left_arrows() {
    let pairs = dependencies_from(
        Some((" [A] ".to_owned(), " b ".to_owned())),
        Some(("c".to_owned(), "  d".to_owned())),
    );
    assert_eq!(pairs, vec![("[A]".to_owned(), "b".to_owned()), ("d".to_owned(), "c".to_owned())]);
    assert!(dependencies_from(None, None).is_empty());
}

#[test]
fn items_may_only_depend_on_components_they_have_arrows_to() {
    let items = RustItems::of(vec![
        item("app::controller", "Api", &[("app::service", "Logic")]),
        item("app::service", "Logic", &[("app::persistence", "Repo")]),
        item("app::persistence", "Repo", &[("app::controller", "Api")]),
        item("app::other", "Stray", &[("app::service", "Logic")]),
    ]);
    let condition = adhere_to_plant_uml_diagram_from_str("arch.puml", DIAGRAM, Configuration::considering_all_dependencies())
        .unwrap();
    assert_eq!(condition.description(), "adhere to PlantUML diagram <arch.puml>");
    let result = classes().should_with(condition.into_condition()).into_rule().evaluate(&items).unwrap();
    assert!(result.has_violation());
    let details = result.failure_report().details();
    assert_eq!(
        details,
        vec![
            "Item <app::persistence::Repo> depends on <app::controller::Api>".to_owned(),
            "Item app::other::Stray is not contained in any component".to_owned(),
        ]
    );
}

#[test]
fn ignored_dependencies_are_not_checked() {
    let items = RustItems::of(vec![
        item("app::persistence", "Repo", &[("app::controller", "Api"), ("std::vec", "Vec")]),
        item("app::controller", "Api", &[("std::vec", "Vec")]),
    ]);
    let condition = adhere_to_plant_uml_diagram_from_str(
        "arch.puml",
        DIAGRAM,
        Configuration::considering_only_dependencies_in_diagram(),
    )
    .unwrap()
    .ignore_dependencies("app::persistence::Repo", "app::controller::Api");
    assert_eq!(
        condition.description(),
        "adhere to PlantUML diagram <arch.puml> while ignoring dependencies not contained in the diagram, ignoring dependencies from app::persistence::Repo to app::controller::Api"
    );
    let result = classes().should_with(condition.into_condition()).into_rule().evaluate(&items).unwrap();
    assert!(!result.has_violation());
}

#[test]
fn items_in_several_components_are_named_in_order() {
    let diagram = "[Zeta] <<app..>>\n[Alpha] <<..core..>>\n";
    let items = RustItems::of(vec![item("app::core", "Thing", &[("std::vec", "Vec")])]);
    let condition = adhere_to_plant_uml_diagram_from_str(
        "multi.puml",
        diagram,
        Configuration::considering_only_dependencies_in_any_package(&vec!["app..".to_owned()]),
    )
    .unwrap();
    assert_eq!(
        condition.description(),
        "adhere to PlantUML diagram <multi.puml> while ignoring dependencies outside of packages ['app..']"
    );
    let result = classes().should_with(condition.into_condition()).into_rule().evaluate(&items).unwrap();
    assert!(!result.has_violation());
    let items = RustItems::of(vec![item("app::core", "Thing", &[("app::core", "Other")])]);
    let condition = adhere_to_plant_uml_diagram_from_str("multi.puml", diagram, Configuration::considering_all_dependencies()).unwrap();
    let result = classes().should_with(condition.into_condition()).into_rule().evaluate(&items).unwrap();
    assert_eq!(
        result.failure_report().details(),
        vec!["Item app::core::Thing may not be contained in more than one component, but is contained in [Alpha, Zeta]".to_owned()]
    );
}
