use archunit::base::package_matcher::PackageMatcher;
use archunit::base::predicates::PackageMatchers;

#[test]
fn package_matcher_matches_like_archunit() {
    let cases = [
        ("some..", "some", true),
        ("*..some", "some", false),
        ("some..*", "some", false),
        ("..some", "asome", false),
        ("some..", "somea", false),
        ("*::*::*", "wrong::arbitrary::pkg", true),
        ("*::*::*", "wrong::arbitrary::pkg::toomuch", false),
        ("some::arbi*::pk*..", "some::arbitrary::pkg::whatever", true),
        ("some::arbi*..", "some::brbitrary::pkg", false),
        ("some::*rary::*kg..", "some::arbitrary::pkg::whatever", true),
        ("some::*rary..", "some::arbitrarz::pkg", false),
        ("some::pkg", "someepkg", false),
        ("..pkg..", "some::random::pkg::maybe::anywhere", true),
        ("..p..", "s::r::p::m::a", true),
        ("*..pkg..*", "some::random::pkg::maybe::anywhere", true),
        ("*..p..*", "s::r::p::m::a", true),
        ("..[a|b|c]::pk*..", "some::a::pkg::whatever", true),
        ("..[b|c]::pk*..", "some::a::pkg::whatever", false),
        ("..[a|b*]::pk*..", "some::bitrary::pkg::whatever", true),
        ("..[a|b*]::pk*..", "some::a::pkg::whatever", true),
        ("..[a|b*]::pk*..", "some::arbitrary::pkg::whatever", false),
        (
            "..[*c*|*d*]::pk*..",
            "some::anydinside::pkg::whatever",
            true,
        ),
        ("..[*c*|*d*]::pk*..", "some::nofit::pkg::whatever", false),
        ("..service..", "my_app::service", true),
        ("..service..", "my_app::service::internal", true),
        ("..service", "my_app::service::internal", false),
        ("my_app::*", "my_app::service", true),
        ("my_app::*", "my_app::service::internal", false),
        ("crate::service..", "my_app::service::internal", true),
        ("crate::service..", "other::service::internal", true),
        ("crate", "my_app", true),
    ];
    for (matcher, target, expected) in cases {
        assert_eq!(
            PackageMatcher::of(matcher).matches(target),
            expected,
            "'{matcher}' matching '{target}'"
        );
    }
}

#[test]
fn package_matcher_capture_groups_like_archunit() {
    let cases: [(&str, &str, Option<&str>); 20] = [
        ("some::(*)::pkg", "some::arbitrary::pkg", Some("arbitrary")),
        ("some::arb(*)ry::pkg", "some::arbitrary::pkg", Some("itra")),
        ("some::arb(*)ry::pkg", "some::arbit::rary::pkg", None),
        (
            "some::(*)::matches::(*)::pkg",
            "some::first::matches::second::pkg",
            Some("first second"),
        ),
        (
            "(*)::matches::(*)",
            "start::matches::end",
            Some("start end"),
        ),
        ("(*)::(*)::(*)::(*)", "a::b::c::d", Some("a b c d")),
        ("(*)", "some", Some("some")),
        ("some::(*)::pkg", "some::in::between::pkg", None),
        (
            "some::(**)::pkg",
            "some::in::between::pkg",
            Some("in::between"),
        ),
        (
            "some::(**)::pkg::(*)",
            "some::in::between::pkg::addon",
            Some("in::between addon"),
        ),
        (
            "some(**)pkg",
            "somerandom::in::between::longpkg",
            Some("random::in::between::long"),
        ),
        ("some::(**)::pkg", "somer::in::between::pkg", None),
        ("some::(**)::pkg", "some::in::between::gpkg", None),
        ("so(**)me", "some", None),
        ("so(*)me", "some", None),
        ("(**)so", "awe::some::aso", Some("awe::some::a")),
        (
            "..(a|b)::pk*::(c|d)..",
            "some::a::pkg::d::whatever",
            Some("a d"),
        ),
        (
            "..[a|b|c]::pk*::(c|d)..",
            "some::c::pkg::d::whatever",
            Some("d"),
        ),
        (
            "..(a|b*|cd)::pk*::(**)::end",
            "some::bitrary::pkg::in::between::end",
            Some("bitrary in::between"),
        ),
        (
            "..[application|domain::*|infrastructure]::(*)..",
            "com::example::domain::api::a",
            Some("a"),
        ),
    ];
    for (matcher, target, groups) in cases {
        let result = PackageMatcher::of(matcher).match_(target);
        assert_eq!(
            result.is_some(),
            groups.is_some(),
            "'{matcher}' matching '{target}'"
        );
        if let (Some(result), Some(groups)) = (result, groups) {
            let expected: Vec<&str> = groups.split(' ').collect();
            assert_eq!(
                result.number_of_groups(),
                expected.len(),
                "'{matcher}' matching '{target}'"
            );
            for (i, expected) in expected.iter().enumerate() {
                assert_eq!(
                    result.group(i + 1),
                    *expected,
                    "group {} of '{matcher}' on '{target}'",
                    i + 1
                );
            }
        }
    }
}

#[test]
fn package_matcher_rejects_illegal_identifiers() {
    for illegal in [
        "some...pkg",
        "some**package",
        "some::(..)::package",
        "some::[nonalternating]::package",
        "some::pkg|other::pkg",
    ] {
        assert!(
            PackageMatcher::try_of(illegal).is_err(),
            "{illegal} should be rejected"
        );
    }
}

#[test]
fn package_matchers_of_describes_and_matches_any() {
    let predicate = PackageMatchers::of(&vec!["..service..".to_owned(), "..dao..".to_owned()]);
    assert_eq!(
        predicate.description(),
        "matches any of ['..service..', '..dao..']"
    );
    assert!(predicate.test(&"a::service::b".to_owned()));
    assert!(predicate.test(&"a::dao".to_owned()));
    assert!(!predicate.test(&"a::controller".to_owned()));
}
