use archunit::library::freeze::store::{initialization_problem, store_settings, update_problem, FreezeError};
use archunit::text::trim_str;

fn props(pairs: &[(&str, &str)]) -> Vec<(String, String)> {
    pairs.iter().map(|(k, v)| ((*k).to_owned(), (*v).to_owned())).collect()
}

#[test]
fn store_settings_default_when_nothing_is_configured() {
    let settings = store_settings(&Vec::new());
    assert!(!settings.creation_allowed);
    assert!(settings.update_allowed);
    assert_eq!(settings.folder, "archunit_store");
}

#[test]
fn store_settings_read_snake_and_camel_case_keys() {
    let settings = store_settings(&props(&[
        ("default.allowStoreCreation", " true "),
        ("default.allow_store_update", "false"),
        ("default.path", "build/store"),
    ]));
    assert!(settings.creation_allowed);
    assert!(!settings.update_allowed);
    assert_eq!(settings.folder, "build/store");
    let settings = store_settings(&props(&[("default.allow_store_creation", "yes")]));
    assert!(!settings.creation_allowed);
}

#[test]
fn store_problems_name_the_property_to_set() {
    let settings = store_settings(&props(&[("default.allow_store_update", "no")]));
    match initialization_problem(&settings, false) {
        Some(FreezeError::StoreInitializationFailed(m)) => assert_eq!(
            m,
            "Creating new violation store is disabled (enable by configuration freeze.store.default.allow_store_creation=true)"
        ),
        other => panic!("unexpected {other:?}"),
    }
    assert!(initialization_problem(&settings, true).is_none());
    match update_problem(&settings) {
        Some(FreezeError::StoreUpdateFailed(m)) => assert_eq!(
            m,
            "Updating frozen violations is disabled (enable by configuration freeze.store.default.allow_store_update=true)"
        ),
        other => panic!("unexpected {other:?}"),
    }
    assert!(update_problem(&store_settings(&Vec::new())).is_none());
}

#[test]
fn trimming_removes_unicode_white_space_at_both_ends() {
    assert_eq!(trim_str("\u{3000} a b\t\n"), "a b");
    assert_eq!(trim_str("   "), "");
    assert_eq!(trim_str("x"), "x");
}

