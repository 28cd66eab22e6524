//! Described predicates on items and on dependencies: a test that can
//! be evaluated and a description that reads naturally in rule texts.

use vstd::prelude::*;
use vstd::string::*;

use super::package_matcher::{spec_match, PackageMatcher};
use super::regex_match::{anchor, anchored, regex_is_match, regex_match};
use crate::domain::{
    find_item, resolve, Dependency, ItemKind, ItemView, Nesting, RustItem, RustItems, RustModifier,
};
use crate::text::{
    cat, cat3, contains_infix, contains_str, ends_with, join_quoted, join_single_quoted, quote,
    single_quoted, starts_with, str_eq, views,
};

verus! {

/// What an item predicate tests.
#[derive(Debug)]
pub enum ItemTest {
    /// Every item.
    AlwaysTrue,
    /// No item.
    AlwaysFalse,
    /// The full name equals the text.
    FullName(String),
    /// The simple name equals the text.
    SimpleName(String),
    /// The simple name starts with the text.
    SimpleNameStartingWith(String),
    /// The simple name contains the text.
    SimpleNameContaining(String),
    /// The simple name ends with the text.
    SimpleNameEndingWith(String),
    /// The full name starts with the text.
    NameStartingWith(String),
    /// The full name contains the text.
    NameContaining(String),
    /// The full name ends with the text.
    NameEndingWith(String),
    /// The full name matches the regular expression as a whole.
    NameMatching(String),
    /// The module matches one of the identifiers.
    ResideInAnyPackage(Vec<PackageMatcher>),
    /// The module is the crate or lies in it.
    ResideInCrate(String),
    /// The item has the modifier.
    HasModifier(RustModifier),
    /// The item carries the attribute or derive.
    AnnotatedWith(String),
    /// The item is of the kind.
    KindIs(ItemKind),
    /// The item is declared there.
    NestingIs(Nesting),
    /// The item implements the trait of that full name.
    Implements(String),
    /// The item implements the trait of that full name or is that item.
    AssignableTo(String),
    /// The negation.
    Not(Box<ItemPredicate>),
    /// Both hold.
    And(Box<ItemPredicate>, Box<ItemPredicate>),
    /// One of them holds.
    Or(Box<ItemPredicate>, Box<ItemPredicate>),
}

/// A described predicate on items.
#[derive(Debug)]
pub struct ItemPredicate {
    /// How the predicate reads in rule texts.
    pub description: String,
    /// What it tests.
    pub test: ItemTest,
}

/// The module `package` is the crate `krate` or lies in it.
pub open spec fn in_crate(package: Seq<char>, krate: Seq<char>) -> bool {
    package == krate || (krate + seq![':', ':']).is_prefix_of(package)
}

/// Some matcher of `ms` matches `package`.
pub open spec fn any_matches(ms: Seq<PackageMatcher>, package: Seq<char>) -> bool {
    exists|i: int| 0 <= i < ms.len() && spec_match(#[trigger] ms[i].identifier@, package) is Some
}

/// All matchers are well formed.
pub open spec fn all_wf(ms: Seq<PackageMatcher>) -> bool {
    forall|i: int| 0 <= i < ms.len() ==> (#[trigger] ms[i]).wf()
}

impl ItemPredicate {
    /// Every package matcher inside is well formed.
    pub open spec fn wf(&self) -> bool
        decreases self,
    {
        match &self.test {
            ItemTest::ResideInAnyPackage(ms) => all_wf(ms@),
            ItemTest::Not(p) => p.wf(),
            ItemTest::And(a, b) => a.wf() && b.wf(),
            ItemTest::Or(a, b) => a.wf() && b.wf(),
            _ => true,
        }
    }

    /// Whether the predicate holds for `item`.
    pub open spec fn holds(&self, item: ItemView) -> bool
        decreases self,
    {
        match &self.test {
            ItemTest::AlwaysTrue => true,
            ItemTest::AlwaysFalse => false,
            ItemTest::FullName(n) => item.full_name == n@,
            ItemTest::SimpleName(n) => item.simple_name == n@,
            ItemTest::SimpleNameStartingWith(n) => n@.is_prefix_of(item.simple_name),
            ItemTest::SimpleNameContaining(n) => contains_infix(item.simple_name, n@),
            ItemTest::SimpleNameEndingWith(n) => n@.is_suffix_of(item.simple_name),
            ItemTest::NameStartingWith(n) => n@.is_prefix_of(item.full_name),
            ItemTest::NameContaining(n) => contains_infix(item.full_name, n@),
            ItemTest::NameEndingWith(n) => n@.is_suffix_of(item.full_name),
            ItemTest::NameMatching(n) => regex_is_match(anchored(n@), item.full_name) == Some(true),
            ItemTest::ResideInAnyPackage(ms) => any_matches(ms@, item.package_name),
            ItemTest::ResideInCrate(c) => in_crate(item.package_name, c@),
            ItemTest::HasModifier(m) => item.modifiers.contains(*m),
            ItemTest::AnnotatedWith(a) => item.annotations.contains(a@),
            ItemTest::KindIs(k) => item.kind == *k,
            ItemTest::NestingIs(n) => item.nesting == *n,
            ItemTest::Implements(t) => item.implemented.contains(t@),
            ItemTest::AssignableTo(t) => item.full_name == t@ || item.implemented.contains(t@),
            ItemTest::Not(p) => !p.holds(item),
            ItemTest::And(a, b) => a.holds(item) && b.holds(item),
            ItemTest::Or(a, b) => a.holds(item) || b.holds(item),
        }
    }

    /// Evaluates the predicate for `item` (`test(..)`).
    pub fn test(&self, item: &RustItem) -> (r: bool)
        requires
            self.wf(),
        ensures
            r == self.holds(item@),
        decreases self,
    {
        match &self.test {
            ItemTest::AlwaysTrue => true,
            ItemTest::AlwaysFalse => false,
            ItemTest::FullName(n) => str_eq(item.full_name.as_str(), n.as_str()),
            ItemTest::SimpleName(n) => str_eq(item.simple_name.as_str(), n.as_str()),
            ItemTest::SimpleNameStartingWith(n) => starts_with(item.simple_name.as_str(), n.as_str()),
            ItemTest::SimpleNameContaining(n) => contains_str(item.simple_name.as_str(), n.as_str()),
            ItemTest::SimpleNameEndingWith(n) => ends_with(item.simple_name.as_str(), n.as_str()),
            ItemTest::NameStartingWith(n) => starts_with(item.full_name.as_str(), n.as_str()),
            ItemTest::NameContaining(n) => contains_str(item.full_name.as_str(), n.as_str()),
            ItemTest::NameEndingWith(n) => ends_with(item.full_name.as_str(), n.as_str()),
            ItemTest::NameMatching(n) => {
                let pattern = anchor(n.as_str());
                match regex_match(pattern.as_str(), item.full_name.as_str()) {
                    Some(b) => b,
                    None => false,
                }
            },
            ItemTest::ResideInAnyPackage(ms) => matches_any(ms, item.package_name.as_str()),
            ItemTest::ResideInCrate(c) => {
                if str_eq(item.package_name.as_str(), c.as_str()) {
                    true
                } else {
                    let prefix = cat(c.as_str(), "::");
                    proof {
                        reveal_strlit("::");
                        assert("::"@ =~= seq![':', ':']);
                    }
                    starts_with(item.package_name.as_str(), prefix.as_str())
                }
            },
            ItemTest::HasModifier(m) => item.has_modifier(*m),
            ItemTest::AnnotatedWith(a) => {
                let r = item.is_annotated_with(a.as_str());
                proof {
                    lemma_has_string_contains(item.annotations@, a@);
                }
                r
            },
            ItemTest::KindIs(k) => item.kind == *k,
            ItemTest::NestingIs(n) => item.nesting == *n,
            ItemTest::Implements(t) => {
                let r = item.implements(t.as_str());
                proof {
                    lemma_has_string_contains(item.implemented@, t@);
                }
                r
            },
            ItemTest::AssignableTo(t) => {
                let r = str_eq(item.full_name.as_str(), t.as_str()) || item.implements(t.as_str());
                proof {
                    lemma_has_string_contains(item.implemented@, t@);
                }
                r
            },
            ItemTest::Not(p) => !p.test(item),
            ItemTest::And(a, b) => a.test(item) && b.test(item),
            ItemTest::Or(a, b) => a.test(item) || b.test(item),
        }
    }

    /// The description.
    pub fn description(&self) -> (r: &str)
        ensures
            r@ == self.description@,
    {
        self.description.as_str()
    }

    /// The same test under another description (`as(..)`).
    pub fn as_(self, description: &str) -> (r: ItemPredicate)
        ensures
            r.description@ == description@,
            r.test == self.test,
            r.wf() == self.wf(),
            forall|x: ItemView| #[trigger] r.holds(x) == self.holds(x),
    {
        ItemPredicate { description: String::from_str(description), test: self.test }
    }

    /// Both predicates; described as `<a> and <b>` (`and(..)`).
    pub fn and(self, other: ItemPredicate) -> (r: ItemPredicate)
        ensures
            r.description@ == self.description@ + " and "@ + other.description@,
            r.test == ItemTest::And(Box::new(self), Box::new(other)),
    {
        let description = cat3(self.description.as_str(), " and ", other.description.as_str());
        ItemPredicate { description, test: ItemTest::And(Box::new(self), Box::new(other)) }
    }

    /// One of the predicates; described as `<a> or <b>` (`or(..)`).
    pub fn or(self, other: ItemPredicate) -> (r: ItemPredicate)
        ensures
            r.description@ == self.description@ + " or "@ + other.description@,
            r.test == ItemTest::Or(Box::new(self), Box::new(other)),
    {
        let description = cat3(self.description.as_str(), " or ", other.description.as_str());
        ItemPredicate { description, test: ItemTest::Or(Box::new(self), Box::new(other)) }
    }

    /// A copy.
    pub fn copy(&self) -> (r: ItemPredicate)
        ensures
            r.description@ == self.description@,
            self.wf() ==> r.wf(),
            forall|x: ItemView| #[trigger] r.holds(x) == self.holds(x),
        decreases self,
    {
        let test = match &self.test {
            ItemTest::AlwaysTrue => ItemTest::AlwaysTrue,
            ItemTest::AlwaysFalse => ItemTest::AlwaysFalse,
            ItemTest::FullName(n) => ItemTest::FullName(n.clone()),
            ItemTest::SimpleName(n) => ItemTest::SimpleName(n.clone()),
            ItemTest::SimpleNameStartingWith(n) => ItemTest::SimpleNameStartingWith(n.clone()),
            ItemTest::SimpleNameContaining(n) => ItemTest::SimpleNameContaining(n.clone()),
            ItemTest::SimpleNameEndingWith(n) => ItemTest::SimpleNameEndingWith(n.clone()),
            ItemTest::NameStartingWith(n) => ItemTest::NameStartingWith(n.clone()),
            ItemTest::NameContaining(n) => ItemTest::NameContaining(n.clone()),
            ItemTest::NameEndingWith(n) => ItemTest::NameEndingWith(n.clone()),
            ItemTest::NameMatching(n) => ItemTest::NameMatching(n.clone()),
            ItemTest::ResideInAnyPackage(ms) => ItemTest::ResideInAnyPackage(copy_matchers(ms)),
            ItemTest::ResideInCrate(c) => ItemTest::ResideInCrate(c.clone()),
            ItemTest::HasModifier(m) => ItemTest::HasModifier(*m),
            ItemTest::AnnotatedWith(a) => ItemTest::AnnotatedWith(a.clone()),
            ItemTest::KindIs(k) => ItemTest::KindIs(*k),
            ItemTest::NestingIs(n) => ItemTest::NestingIs(*n),
            ItemTest::Implements(t) => ItemTest::Implements(t.clone()),
            ItemTest::AssignableTo(t) => ItemTest::AssignableTo(t.clone()),
            ItemTest::Not(p) => ItemTest::Not(Box::new(p.copy())),
            ItemTest::And(a, b) => ItemTest::And(Box::new(a.copy()), Box::new(b.copy())),
            ItemTest::Or(a, b) => ItemTest::Or(Box::new(a.copy()), Box::new(b.copy())),
        };
        let r = ItemPredicate { description: self.description.clone(), test };
        proof {
            assert forall|x: ItemView| #[trigger] r.holds(x) == self.holds(x) by {
                match &self.test {
                    ItemTest::Not(p) => {
                        assert(r.test matches ItemTest::Not(q) && q.holds(x) == p.holds(x));
                    },
                    ItemTest::And(a, b) => {
                        assert(r.test matches ItemTest::And(c, d) && c.holds(x) == a.holds(x) && d.holds(x) == b.holds(x));
                    },
                    ItemTest::Or(a, b) => {
                        assert(r.test matches ItemTest::Or(c, d) && c.holds(x) == a.holds(x) && d.holds(x) == b.holds(x));
                    },
                    ItemTest::ResideInAnyPackage(ms) => {
                        if let ItemTest::ResideInAnyPackage(ns) = &r.test {
                            if any_matches(ms@, x.package_name) {
                                let i = choose|i: int| 0 <= i < ms@.len() && spec_match(#[trigger] ms@[i].identifier@, x.package_name) is Some;
                                assert(ns@[i].identifier@ == ms@[i].identifier@);
                            }
                            if any_matches(ns@, x.package_name) {
                                let i = choose|i: int| 0 <= i < ns@.len() && spec_match(#[trigger] ns@[i].identifier@, x.package_name) is Some;
                                assert(ns@[i].identifier@ == ms@[i].identifier@);
                            }
                        }
                    },
                    _ => {},
                }
            }
        }
        r
    }
}

/// `has_string` agrees with containment of the view.
pub(crate) proof fn lemma_has_string_contains(v: Seq<String>, s: Seq<char>)
    ensures
        crate::domain::has_string(v, s) == views(v).contains(s),
{
    if crate::domain::has_string(v, s) {
        let i = choose|i: int| 0 <= i < v.len() && v[i]@ == s;
        assert(views(v)[i] == s);
    }
    if views(v).contains(s) {
        let i = choose|i: int| 0 <= i < views(v).len() && views(v)[i] == s;
        assert(v[i]@ == s);
    }
}

/// Whether some matcher matches `package`.
pub fn matches_any(ms: &Vec<PackageMatcher>, package: &str) -> (r: bool)
    requires
        all_wf(ms@),
    ensures
        r == any_matches(ms@, package@),
{
    let mut i: usize = 0;
    while i < ms.len()
        invariant
            i <= ms@.len(),
            all_wf(ms@),
            forall|j: int| 0 <= j < i ==> spec_match(#[trigger] ms@[j].identifier@, package@) is None,
        decreases ms@.len() - i,
    {
        if ms[i].matches(package) {
            return true;
        }
        i += 1;
    }
    false
}

/// Copies of the matchers.
pub fn copy_matchers(ms: &Vec<PackageMatcher>) -> (r: Vec<PackageMatcher>)
    ensures
        r@.len() == ms@.len(),
        forall|i: int| 0 <= i < ms@.len() ==> (#[trigger] r@[i]).identifier@ == ms@[i].identifier@ && (ms@[i].wf() ==> r@[i].wf()),
{
    let mut r: Vec<PackageMatcher> = Vec::new();
    let mut i: usize = 0;
    while i < ms.len()
        invariant
            i <= ms@.len(),
            r@.len() == i,
            forall|j: int| 0 <= j < i ==> (#[trigger] r@[j]).identifier@ == ms@[j].identifier@ && (ms@[j].wf() ==> r@[j].wf()),
        decreases ms@.len() - i,
    {
        r.push(ms[i].copy());
        i += 1;
    }
    r
}

/// Matchers for each identifier.
pub fn matchers_of(identifiers: &Vec<String>) -> (r: Vec<PackageMatcher>)
    ensures
        all_wf(r@),
        r@.len() == identifiers@.len(),
        forall|i: int| 0 <= i < r@.len() ==> (#[trigger] r@[i]).identifier@ == identifiers@[i]@,
{
    let mut r: Vec<PackageMatcher> = Vec::new();
    let mut i: usize = 0;
    while i < identifiers.len()
        invariant
            i <= identifiers@.len(),
            r@.len() == i,
            all_wf(r@),
            forall|j: int| 0 <= j < i ==> (#[trigger] r@[j]).identifier@ == identifiers@[j]@,
        decreases identifiers@.len() - i,
    {
        r.push(PackageMatcher::of(identifiers[i].as_str()));
        i += 1;
    }
    r
}


/// Package identifiers matched together (`PackageMatchers`).
#[derive(Debug)]
pub struct PackageMatchers {
    /// The identifiers as written.
    pub identifiers: Vec<String>,
    /// Their matchers, in the same order.
    pub matchers: Vec<PackageMatcher>,
}

impl PackageMatchers {
    /// Each matcher is the parse of the identifier at its place.
    pub open spec fn wf(&self) -> bool {
        &&& all_wf(self.matchers@)
        &&& self.matchers@.len() == self.identifiers@.len()
        &&& forall|i: int| 0 <= i < self.matchers@.len() ==> (#[trigger] self.matchers@[i]).identifier@ == self.identifiers@[i]@
    }

    /// Matchers for the identifiers.
    pub fn of(package_identifiers: &Vec<String>) -> (r: PackageMatchers)
        ensures
            r.wf(),
            r.identifiers@ == package_identifiers@,
    {
        PackageMatchers { identifiers: crate::text::clone_strings(package_identifiers), matchers: matchers_of(package_identifiers) }
    }

    /// `matches any of ['a', 'b']`.
    pub fn description(&self) -> (r: String)
        ensures
            r@ == "matches any of ["@ + join_single_quoted(views(self.identifiers@)) + "]"@,
    {
        cat3("matches any of [", join_quoted(&self.identifiers).as_str(), "]")
    }

    /// Whether one of the identifiers matches the module `package`.
    pub fn test(&self, package: &String) -> (r: bool)
        requires
            self.wf(),
        ensures
            r == some_identifier_matches(self.identifiers@, package@),
    {
        let r = matches_any(&self.matchers, package.as_str());
        proof {
            if r {
                let i = choose|i: int| 0 <= i < self.matchers@.len() && spec_match(#[trigger] self.matchers@[i].identifier@, package@) is Some;
                assert(spec_match(self.identifiers@[i]@, package@) is Some);
            }
            if some_identifier_matches(self.identifiers@, package@) {
                let i = choose|i: int| 0 <= i < self.identifiers@.len() && spec_match(#[trigger] self.identifiers@[i]@, package@) is Some;
                assert(spec_match(self.matchers@[i].identifier@, package@) is Some);
            }
        }
        r
    }
}

/// The described predicate `test` under `description`.
pub fn described(description: String, test: ItemTest) -> (r: ItemPredicate)
    ensures
        r.description == description,
        r.test == test,
{
    ItemPredicate { description, test }
}

/// Every item; described as `always true`.
pub fn always_true() -> (r: ItemPredicate)
    ensures
        r.description@ == "always true"@,
        r.test == ItemTest::AlwaysTrue,
{
    described(String::from_str("always true"), ItemTest::AlwaysTrue)
}

/// No item; described as `always false`.
pub fn always_false() -> (r: ItemPredicate)
    ensures
        r.description@ == "always false"@,
        r.test == ItemTest::AlwaysFalse,
{
    described(String::from_str("always false"), ItemTest::AlwaysFalse)
}

/// The negation; described as `not <description>` (`not(..)`).
pub fn not(predicate: ItemPredicate) -> (r: ItemPredicate)
    ensures
        r.description@ == "not "@ + predicate.description@,
        r.test == ItemTest::Not(Box::new(predicate)),
{
    let description = cat("not ", predicate.description.as_str());
    described(description, ItemTest::Not(Box::new(predicate)))
}

/// The negation; described as `do not <description>`.
pub fn do_not(predicate: ItemPredicate) -> (r: ItemPredicate)
    ensures
        r.description@ == "do not "@ + predicate.description@,
        r.test == ItemTest::Not(Box::new(predicate)),
{
    let description = cat("do not ", predicate.description.as_str());
    described(description, ItemTest::Not(Box::new(predicate)))
}


/// Items whose full name is `<name>`; described as `full name '<name>'`.
pub fn full_name(name: &str) -> (r: ItemPredicate)
    ensures
        r.wf(),
        r.description@ == "full name "@ + single_quoted(name@),
        forall|x: ItemView| #[trigger] r.holds(x) <==> x.full_name == name@,
{
    let description = cat("full name ", quote(name).as_str());
    described(description, ItemTest::FullName(String::from_str(name)))
}

/// Items whose name is `<name>`; described as `name '<name>'`.
pub fn name(n: &str) -> (r: ItemPredicate)
    ensures
        r.wf(),
        r.description@ == "name "@ + single_quoted(n@),
        forall|x: ItemView| #[trigger] r.holds(x) <==> x.full_name == n@,
{
    let description = cat("name ", quote(n).as_str());
    described(description, ItemTest::FullName(String::from_str(n)))
}

/// Items whose simple name is `<name>`; described as `simple name '<name>'`.
pub fn simple_name(name: &str) -> (r: ItemPredicate)
    ensures
        r.wf(),
        r.description@ == "simple name "@ + single_quoted(name@),
        forall|x: ItemView| #[trigger] r.holds(x) <==> x.simple_name == name@,
{
    let description = cat("simple name ", quote(name).as_str());
    described(description, ItemTest::SimpleName(String::from_str(name)))
}

/// Items whose simple name starts with `<prefix>`; described as `simple name starting with '<prefix>'`.
pub fn simple_name_starting_with(prefix: &str) -> (r: ItemPredicate)
    ensures
        r.wf(),
        r.description@ == "simple name starting with "@ + single_quoted(prefix@),
        forall|x: ItemView| #[trigger] r.holds(x) <==> prefix@.is_prefix_of(x.simple_name),
{
    let description = cat("simple name starting with ", quote(prefix).as_str());
    described(description, ItemTest::SimpleNameStartingWith(String::from_str(prefix)))
}

/// Items whose simple name contains `<infix>`; described as `simple name containing '<infix>'`.
pub fn simple_name_containing(infix: &str) -> (r: ItemPredicate)
    ensures
        r.wf(),
        r.description@ == "simple name containing "@ + single_quoted(infix@),
        forall|x: ItemView| #[trigger] r.holds(x) <==> contains_infix(x.simple_name, infix@),
{
    let description = cat("simple name containing ", quote(infix).as_str());
    described(description, ItemTest::SimpleNameContaining(String::from_str(infix)))
}

/// Items whose simple name ends with `<suffix>`; described as `simple name ending with '<suffix>'`.
pub fn simple_name_ending_with(suffix: &str) -> (r: ItemPredicate)
    ensures
        r.wf(),
        r.description@ == "simple name ending with "@ + single_quoted(suffix@),
        forall|x: ItemView| #[trigger] r.holds(x) <==> suffix@.is_suffix_of(x.simple_name),
{
    let description = cat("simple name ending with ", quote(suffix).as_str());
    described(description, ItemTest::SimpleNameEndingWith(String::from_str(suffix)))
}

/// Items whose full name starts with `<prefix>`; described as `name starting with '<prefix>'`.
pub fn name_starting_with(prefix: &str) -> (r: ItemPredicate)
    ensures
        r.wf(),
        r.description@ == "name starting with "@ + single_quoted(prefix@),
        forall|x: ItemView| #[trigger] r.holds(x) <==> prefix@.is_prefix_of(x.full_name),
{
    let description = cat("name starting with ", quote(prefix).as_str());
    described(description, ItemTest::NameStartingWith(String::from_str(prefix)))
}

/// Items whose full name contains `<infix>`; described as `name containing '<infix>'`.
pub fn name_containing(infix: &str) -> (r: ItemPredicate)
    ensures
        r.wf(),
        r.description@ == "name containing "@ + single_quoted(infix@),
        forall|x: ItemView| #[trigger] r.holds(x) <==> contains_infix(x.full_name, infix@),
{
    let description = cat("name containing ", quote(infix).as_str());
    described(description, ItemTest::NameContaining(String::from_str(infix)))
}

/// Items whose full name ends with `<suffix>`; described as `name ending with '<suffix>'`.
pub fn name_ending_with(suffix: &str) -> (r: ItemPredicate)
    ensures
        r.wf(),
        r.description@ == "name ending with "@ + single_quoted(suffix@),
        forall|x: ItemView| #[trigger] r.holds(x) <==> suffix@.is_suffix_of(x.full_name),
{
    let description = cat("name ending with ", quote(suffix).as_str());
    described(description, ItemTest::NameEndingWith(String::from_str(suffix)))
}

/// Items whose full name matches the regular expression `regex` as a whole; described as
/// `name matching '<regex>'`. A pattern that does not compile matches no name.
pub fn name_matching(regex: &str) -> (r: ItemPredicate)
    ensures
        r.wf(),
        r.description@ == "name matching "@ + single_quoted(regex@),
        forall|x: ItemView| #[trigger] r.holds(x) <==> regex_is_match(anchored(regex@), x.full_name) == Some(true),
{
    let description = cat("name matching ", quote(regex).as_str());
    described(description, ItemTest::NameMatching(String::from_str(regex)))
}

/// Items whose full name matches the regular expression `regex` as a whole; described as
/// `full name matching '<regex>'`.
pub fn full_name_matching(regex: &str) -> (r: ItemPredicate)
    ensures
        r.wf(),
        r.description@ == "full name matching "@ + single_quoted(regex@),
        forall|x: ItemView| #[trigger] r.holds(x) <==> regex_is_match(anchored(regex@), x.full_name) == Some(true),
{
    let description = cat("full name matching ", quote(regex).as_str());
    described(description, ItemTest::NameMatching(String::from_str(regex)))
}

/// Items in the crate `<crate_name>`; described as `reside in crate '<crate_name>'`.
pub fn reside_in_crate(crate_name: &str) -> (r: ItemPredicate)
    ensures
        r.wf(),
        r.description@ == "reside in crate "@ + single_quoted(crate_name@),
        forall|x: ItemView| #[trigger] r.holds(x) <==> in_crate(x.package_name, crate_name@),
{
    let description = cat("reside in crate ", quote(crate_name).as_str());
    described(description, ItemTest::ResideInCrate(String::from_str(crate_name)))
}

/// Whether some identifier of `identifiers` matches `package`.
pub open spec fn some_identifier_matches(identifiers: Seq<String>, package: Seq<char>) -> bool {
    exists|i: int| 0 <= i < identifiers.len() && spec_match(#[trigger] identifiers[i]@, package) is Some
}

/// Items whose module matches one of the package identifiers.
fn package_test(identifiers: &Vec<String>) -> (r: ItemTest)
    ensures
        r matches ItemTest::ResideInAnyPackage(ms) && all_wf(ms@) && forall|p: Seq<char>|
            #[trigger] any_matches(ms@, p) <==> some_identifier_matches(identifiers@, p),
{
    let ms = matchers_of(identifiers);
    proof {
        assert forall|p: Seq<char>| #[trigger] any_matches(ms@, p) <==> some_identifier_matches(identifiers@, p) by {
            if any_matches(ms@, p) {
                let i = choose|i: int| 0 <= i < ms@.len() && spec_match(#[trigger] ms@[i].identifier@, p) is Some;
                assert(spec_match(identifiers@[i]@, p) is Some);
            }
            if some_identifier_matches(identifiers@, p) {
                let i = choose|i: int| 0 <= i < identifiers@.len() && spec_match(#[trigger] identifiers@[i]@, p) is Some;
                assert(spec_match(ms@[i].identifier@, p) is Some);
            }
        }
    }
    ItemTest::ResideInAnyPackage(ms)
}

/// Items in a module matching `package_identifier`; described as
/// `reside in a package '<identifier>'`.
pub fn reside_in_a_package(package_identifier: &str) -> (r: ItemPredicate)
    ensures
        r.wf(),
        r.description@ == "reside in a package "@ + single_quoted(package_identifier@),
        forall|x: ItemView| #[trigger] r.holds(x) <==> spec_match(package_identifier@, x.package_name) is Some,
{
    let mut ids: Vec<String> = Vec::new();
    ids.push(String::from_str(package_identifier));
    let test = package_test(&ids);
    let description = cat("reside in a package ", quote(package_identifier).as_str());
    let r = described(description, test);
    proof {
        assert forall|x: ItemView| #[trigger] r.holds(x) <==> spec_match(package_identifier@, x.package_name) is Some by {
            assert(any_matches(r.test->ResideInAnyPackage_0@, x.package_name) == some_identifier_matches(ids@, x.package_name));
            if spec_match(package_identifier@, x.package_name) is Some {
                assert(spec_match(ids@[0]@, x.package_name) is Some);
            }
        }
    }
    r
}

/// `[` + the identifiers in single quotes + `]`.
pub open spec fn quoted_list(identifiers: Seq<Seq<char>>) -> Seq<char> {
    "["@ + join_single_quoted(identifiers) + "]"@
}

/// Items in a module matching one of `package_identifiers`; described as
/// `reside in any package ['a', 'b']`.
pub fn reside_in_any_package(package_identifiers: &Vec<String>) -> (r: ItemPredicate)
    ensures
        r.wf(),
        r.description@ == "reside in any package "@ + quoted_list(views(package_identifiers@)),
        forall|x: ItemView| #[trigger] r.holds(x) <==> some_identifier_matches(package_identifiers@, x.package_name),
{
    let test = package_test(package_identifiers);
    let description = cat3("reside in any package [", join_quoted(package_identifiers).as_str(), "]");
    proof {
        reveal_strlit("reside in any package [");
        reveal_strlit("reside in any package ");
        reveal_strlit("[");
        assert("reside in any package ["@ =~= "reside in any package "@ + "["@);
    }
    let r = described(description, test);
    proof {
        assert forall|x: ItemView| #[trigger] r.holds(x) <==> some_identifier_matches(package_identifiers@, x.package_name) by {
            assert(any_matches(r.test->ResideInAnyPackage_0@, x.package_name) == some_identifier_matches(package_identifiers@, x.package_name));
        }
    }
    r
}

/// Items in no module matching `package_identifier`; described as
/// `reside outside of package '<identifier>'`.
pub fn reside_outside_of_package(package_identifier: &str) -> (r: ItemPredicate)
    ensures
        r.wf(),
        r.description@ == "reside outside of package "@ + single_quoted(package_identifier@),
        forall|x: ItemView| #[trigger] r.holds(x) <==> spec_match(package_identifier@, x.package_name) is None,
{
    let inner = reside_in_a_package(package_identifier);
    let description = cat("reside outside of package ", quote(package_identifier).as_str());
    let r = described(description, ItemTest::Not(Box::new(inner)));
    proof {
        assert forall|x: ItemView| #[trigger] r.holds(x) <==> spec_match(package_identifier@, x.package_name) is None by {
            assert(inner.holds(x) <==> spec_match(package_identifier@, x.package_name) is Some);
        }
    }
    r
}

/// Items in no module matching any of `package_identifiers`; described as
/// `reside outside of packages ['a', 'b']`.
pub fn reside_outside_of_packages(package_identifiers: &Vec<String>) -> (r: ItemPredicate)
    ensures
        r.wf(),
        r.description@ == "reside outside of packages "@ + quoted_list(views(package_identifiers@)),
        forall|x: ItemView| #[trigger] r.holds(x) <==> !some_identifier_matches(package_identifiers@, x.package_name),
{
    let inner = reside_in_any_package(package_identifiers);
    let description = cat3("reside outside of packages [", join_quoted(package_identifiers).as_str(), "]");
    proof {
        reveal_strlit("reside outside of packages [");
        reveal_strlit("reside outside of packages ");
        reveal_strlit("[");
        assert("reside outside of packages ["@ =~= "reside outside of packages "@ + "["@);
    }
    let r = described(description, ItemTest::Not(Box::new(inner)));
    proof {
        assert forall|x: ItemView| #[trigger] r.holds(x) <==> !some_identifier_matches(package_identifiers@, x.package_name) by {
            assert(inner.holds(x) <==> some_identifier_matches(package_identifiers@, x.package_name));
        }
    }
    r
}

/// The text of a modifier, as in `modifier pub`.
pub open spec fn modifier_text(m: RustModifier) -> Seq<char> {
    match m {
        RustModifier::Pub => "pub"@,
        RustModifier::PubRestricted => "pub(restricted)"@,
        RustModifier::Private => "private"@,
        RustModifier::Static => "static"@,
        RustModifier::Final => "final"@,
        RustModifier::Unsafe => "unsafe"@,
        RustModifier::Async => "async"@,
        RustModifier::PubCrate => "pub(crate)"@,
        RustModifier::NonExhaustive => "non_exhaustive"@,
    }
}

/// The text of a modifier.
pub fn modifier_name(m: RustModifier) -> (r: &'static str)
    ensures
        r@ == modifier_text(m),
{
    match m {
        RustModifier::Pub => "pub",
        RustModifier::PubRestricted => "pub(restricted)",
        RustModifier::Private => "private",
        RustModifier::Static => "static",
        RustModifier::Final => "final",
        RustModifier::Unsafe => "unsafe",
        RustModifier::Async => "async",
        RustModifier::PubCrate => "pub(crate)",
        RustModifier::NonExhaustive => "non_exhaustive",
    }
}

/// Items with `modifier`; described as `modifier <modifier>`.
pub fn modifier(m: RustModifier) -> (r: ItemPredicate)
    ensures
        r.wf(),
        r.description@ == "modifier "@ + modifier_text(m),
        forall|x: ItemView| #[trigger] r.holds(x) <==> x.modifiers.contains(m),
{
    described(cat("modifier ", modifier_name(m)), ItemTest::HasModifier(m))
}

/// Items carrying the attribute or derive `annotation`; described as
/// `annotated with @<annotation>`.
pub fn annotated_with(annotation: &str) -> (r: ItemPredicate)
    ensures
        r.wf(),
        r.description@ == "annotated with @"@ + annotation@,
        forall|x: ItemView| #[trigger] r.holds(x) <==> x.annotations.contains(annotation@),
{
    described(cat("annotated with @", annotation), ItemTest::AnnotatedWith(String::from_str(annotation)))
}

/// Items of kind `kind`, described as `description`.
pub fn kind_is(kind: ItemKind, description: &str) -> (r: ItemPredicate)
    ensures
        r.wf(),
        r.description@ == description@,
        forall|x: ItemView| #[trigger] r.holds(x) <==> x.kind == kind,
{
    described(String::from_str(description), ItemTest::KindIs(kind))
}

/// Items declared at `nesting`, described as `description`.
pub fn nesting_is(nesting: Nesting, description: &str) -> (r: ItemPredicate)
    ensures
        r.wf(),
        r.description@ == description@,
        forall|x: ItemView| #[trigger] r.holds(x) <==> x.nesting == nesting,
{
    described(String::from_str(description), ItemTest::NestingIs(nesting))
}

/// Items implementing the trait `trait_name`; described as `implement <trait>`.
pub fn implement(trait_name: &str) -> (r: ItemPredicate)
    ensures
        r.wf(),
        r.description@ == "implement "@ + trait_name@,
        forall|x: ItemView| #[trigger] r.holds(x) <==> x.implemented.contains(trait_name@),
{
    described(cat("implement ", trait_name), ItemTest::Implements(String::from_str(trait_name)))
}

/// Items that are or implement `target_name`; described as `assignable to <type>`.
pub fn assignable_to(target_name: &str) -> (r: ItemPredicate)
    ensures
        r.wf(),
        r.description@ == "assignable to "@ + target_name@,
        forall|x: ItemView| #[trigger] r.holds(x) <==> x.full_name == target_name@ || x.implemented.contains(target_name@),
{
    described(cat("assignable to ", target_name), ItemTest::AssignableTo(String::from_str(target_name)))
}

/// The same predicate, described as `is <description>`.
pub fn is(predicate: ItemPredicate) -> (r: ItemPredicate)
    ensures
        r.description@ == "is "@ + predicate.description@,
        r.wf() == predicate.wf(),
        forall|x: ItemView| #[trigger] r.holds(x) == predicate.holds(x),
{
    let description = cat("is ", predicate.description.as_str());
    predicate.as_(description.as_str())
}

/// The same predicate, described as `are <description>`.
pub fn are(predicate: ItemPredicate) -> (r: ItemPredicate)
    ensures
        r.description@ == "are "@ + predicate.description@,
        r.wf() == predicate.wf(),
        forall|x: ItemView| #[trigger] r.holds(x) == predicate.holds(x),
{
    let description = cat("are ", predicate.description.as_str());
    predicate.as_(description.as_str())
}

/// The same predicate, described as `has <description>`.
pub fn has(predicate: ItemPredicate) -> (r: ItemPredicate)
    ensures
        r.description@ == "has "@ + predicate.description@,
        r.wf() == predicate.wf(),
        forall|x: ItemView| #[trigger] r.holds(x) == predicate.holds(x),
{
    let description = cat("has ", predicate.description.as_str());
    predicate.as_(description.as_str())
}

/// The same predicate, described as `have <description>`.
pub fn have(predicate: ItemPredicate) -> (r: ItemPredicate)
    ensures
        r.description@ == "have "@ + predicate.description@,
        r.wf() == predicate.wf(),
        forall|x: ItemView| #[trigger] r.holds(x) == predicate.holds(x),
{
    let description = cat("have ", predicate.description.as_str());
    predicate.as_(description.as_str())
}

/// The same predicate, described as `be <description>`.
pub fn be(predicate: ItemPredicate) -> (r: ItemPredicate)
    ensures
        r.description@ == "be "@ + predicate.description@,
        r.wf() == predicate.wf(),
        forall|x: ItemView| #[trigger] r.holds(x) == predicate.holds(x),
{
    let description = cat("be ", predicate.description.as_str());
    predicate.as_(description.as_str())
}

} // verus!
