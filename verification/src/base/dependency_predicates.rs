//! Described predicates on dependencies, reading the
//! items at either end as the imported items resolve them.

use vstd::prelude::*;
use vstd::string::*;

use super::predicates::ItemPredicate;
use crate::domain::{resolve, AccessKind, Dependency, RustItem, RustItems};
use crate::text::{cat, str_eq};

verus! {

/// What a dependency predicate tests.
#[derive(Debug)]
pub enum DependencyTest {
    /// Every dependency.
    AlwaysTrue,
    /// No dependency.
    AlwaysFalse,
    /// The depending item satisfies the predicate.
    Origin(ItemPredicate),
    /// The item depended on satisfies the predicate.
    Target(ItemPredicate),
    /// The depending item satisfies the first predicate, the item depended on the second.
    OriginAndTarget(ItemPredicate, ItemPredicate),
    /// An access of that kind.
    KindIs(AccessKind),
    /// Any access (no plain dependency).
    IsAccess,
    /// A read or write of a field.
    IsFieldAccess,
    /// A call of a method or constructor.
    IsCodeUnitCall,
    /// The accessed member has that name.
    MemberIs(String),
    /// The called code unit has those parameter types, as written and joined by `, `.
    ParametersAre(String),
    /// The negation.
    Not(Box<DependencyPredicate>),
    /// Both hold.
    And(Box<DependencyPredicate>, Box<DependencyPredicate>),
    /// One of them holds.
    Or(Box<DependencyPredicate>, Box<DependencyPredicate>),
}

/// A described predicate on dependencies.
#[derive(Debug)]
pub struct DependencyPredicate {
    /// How the predicate reads in rule texts.
    pub description: String,
    /// What it tests.
    pub test: DependencyTest,
}

impl DependencyPredicate {
    /// Every item predicate inside is well formed.
    pub open spec fn wf(&self) -> bool
        decreases self,
    {
        match &self.test {
            DependencyTest::Origin(p) => p.wf(),
            DependencyTest::Target(p) => p.wf(),
            DependencyTest::OriginAndTarget(o, t) => o.wf() && t.wf(),
            DependencyTest::Not(p) => p.wf(),
            DependencyTest::And(a, b) => a.wf() && b.wf(),
            DependencyTest::Or(a, b) => a.wf() && b.wf(),
            _ => true,
        }
    }

    /// Whether the predicate holds for `d`, its ends resolved among `items`.
    pub open spec fn holds(&self, d: Dependency, items: Seq<RustItem>) -> bool
        decreases self,
    {
        match &self.test {
            DependencyTest::AlwaysTrue => true,
            DependencyTest::AlwaysFalse => false,
            DependencyTest::Origin(p) => p.holds(resolve(items, d.origin)),
            DependencyTest::Target(p) => p.holds(resolve(items, d.target)),
            DependencyTest::OriginAndTarget(o, t) => o.holds(resolve(items, d.origin)) && t.holds(resolve(items, d.target)),
            DependencyTest::KindIs(k) => d.kind == *k,
            DependencyTest::IsAccess => d.kind != AccessKind::Other,
            DependencyTest::IsFieldAccess => d.kind == AccessKind::GetField || d.kind == AccessKind::SetField,
            DependencyTest::IsCodeUnitCall => d.kind == AccessKind::MethodCall || d.kind == AccessKind::ConstructorCall,
            DependencyTest::MemberIs(m) => d.member@ == m@,
            DependencyTest::ParametersAre(p) => d.parameters@ == p@,
            DependencyTest::Not(p) => !p.holds(d, items),
            DependencyTest::And(a, b) => a.holds(d, items) && b.holds(d, items),
            DependencyTest::Or(a, b) => a.holds(d, items) || b.holds(d, items),
        }
    }

    /// Evaluates the predicate for `d` (`test(..)`).
    pub fn test(&self, d: &Dependency, items: &RustItems) -> (r: bool)
        requires
            self.wf(),
        ensures
            r == self.holds(*d, items.items@),
        decreases self,
    {
        match &self.test {
            DependencyTest::AlwaysTrue => true,
            DependencyTest::AlwaysFalse => false,
            DependencyTest::Origin(p) => p.test(&items.resolve(&d.origin)),
            DependencyTest::Target(p) => p.test(&items.resolve(&d.target)),
            DependencyTest::OriginAndTarget(o, t) => o.test(&items.resolve(&d.origin)) && t.test(&items.resolve(&d.target)),
            DependencyTest::KindIs(k) => d.kind == *k,
            DependencyTest::IsAccess => d.kind != AccessKind::Other,
            DependencyTest::IsFieldAccess => d.kind == AccessKind::GetField || d.kind == AccessKind::SetField,
            DependencyTest::IsCodeUnitCall => d.kind == AccessKind::MethodCall || d.kind == AccessKind::ConstructorCall,
            DependencyTest::MemberIs(m) => str_eq(d.member.as_str(), m.as_str()),
            DependencyTest::ParametersAre(p) => str_eq(d.parameters.as_str(), p.as_str()),
            DependencyTest::Not(p) => !p.test(d, items),
            DependencyTest::And(a, b) => a.test(d, items) && b.test(d, items),
            DependencyTest::Or(a, b) => a.test(d, items) || b.test(d, items),
        }
    }

    /// The description.
    pub fn description(&self) -> (r: &str)
        ensures
            r@ == self.description@,
    {
        self.description.as_str()
    }

    /// The same test under another description (`as(..)`).
    pub fn as_(self, description: &str) -> (r: DependencyPredicate)
        ensures
            r.description@ == description@,
            r.test == self.test,
            r.wf() == self.wf(),
            forall|d: Dependency, items: Seq<RustItem>| #[trigger] r.holds(d, items) == self.holds(d, items),
    {
        DependencyPredicate { description: String::from_str(description), test: self.test }
    }

    /// Both hold; described as `<a> and <b>`.
    pub fn and(self, other: DependencyPredicate) -> (r: DependencyPredicate)
        ensures
            r.description@ == self.description@ + " and "@ + other.description@,
            r.test == DependencyTest::And(Box::new(self), Box::new(other)),
            r.wf() == (self.wf() && other.wf()),
            forall|d: Dependency, items: Seq<RustItem>| #[trigger] r.holds(d, items) == (self.holds(d, items) && other.holds(d, items)),
    {
        let mut description = self.description.clone();
        description.append(" and ");
        description.append(other.description.as_str());
        DependencyPredicate { description, test: DependencyTest::And(Box::new(self), Box::new(other)) }
    }

    /// One of them holds; described as `<a> or <b>`.
    pub fn or(self, other: DependencyPredicate) -> (r: DependencyPredicate)
        ensures
            r.description@ == self.description@ + " or "@ + other.description@,
            r.test == DependencyTest::Or(Box::new(self), Box::new(other)),
            r.wf() == (self.wf() && other.wf()),
            forall|d: Dependency, items: Seq<RustItem>| #[trigger] r.holds(d, items) == (self.holds(d, items) || other.holds(d, items)),
    {
        let mut description = self.description.clone();
        description.append(" or ");
        description.append(other.description.as_str());
        DependencyPredicate { description, test: DependencyTest::Or(Box::new(self), Box::new(other)) }
    }

    /// A copy.
    pub fn copy(&self) -> (r: DependencyPredicate)
        ensures
            r.description@ == self.description@,
            self.wf() ==> r.wf(),
            forall|d: Dependency, items: Seq<RustItem>| #[trigger] r.holds(d, items) == self.holds(d, items),
        decreases self,
    {
        let test = match &self.test {
            DependencyTest::AlwaysTrue => DependencyTest::AlwaysTrue,
            DependencyTest::AlwaysFalse => DependencyTest::AlwaysFalse,
            DependencyTest::Origin(p) => DependencyTest::Origin(p.copy()),
            DependencyTest::Target(p) => DependencyTest::Target(p.copy()),
            DependencyTest::OriginAndTarget(o, t) => DependencyTest::OriginAndTarget(o.copy(), t.copy()),
            DependencyTest::KindIs(k) => DependencyTest::KindIs(*k),
            DependencyTest::IsAccess => DependencyTest::IsAccess,
            DependencyTest::IsFieldAccess => DependencyTest::IsFieldAccess,
            DependencyTest::IsCodeUnitCall => DependencyTest::IsCodeUnitCall,
            DependencyTest::MemberIs(m) => DependencyTest::MemberIs(m.clone()),
            DependencyTest::ParametersAre(m) => DependencyTest::ParametersAre(m.clone()),
            DependencyTest::Not(p) => DependencyTest::Not(Box::new(p.copy())),
            DependencyTest::And(a, b) => DependencyTest::And(Box::new(a.copy()), Box::new(b.copy())),
            DependencyTest::Or(a, b) => DependencyTest::Or(Box::new(a.copy()), Box::new(b.copy())),
        };
        let r = DependencyPredicate { description: self.description.clone(), test };
        proof {
            assert forall|d: Dependency, items: Seq<RustItem>| #[trigger] r.holds(d, items) == self.holds(d, items) by {
                match &self.test {
                    DependencyTest::Not(p) => {
                        assert(r.test matches DependencyTest::Not(q) && q.holds(d, items) == p.holds(d, items));
                    },
                    DependencyTest::And(a, b) => {
                        assert(r.test matches DependencyTest::And(c, e) && c.holds(d, items) == a.holds(d, items) && e.holds(d, items) == b.holds(d, items));
                    },
                    DependencyTest::Or(a, b) => {
                        assert(r.test matches DependencyTest::Or(c, e) && c.holds(d, items) == a.holds(d, items) && e.holds(d, items) == b.holds(d, items));
                    },
                    _ => {},
                }
            }
        }
        r
    }

    /// Every dependency; described as `always true`.
    pub fn always_true() -> (r: DependencyPredicate)
        ensures
            r.description@ == "always true"@,
            r.test == DependencyTest::AlwaysTrue,
    {
        DependencyPredicate { description: String::from_str("always true"), test: DependencyTest::AlwaysTrue }
    }

    /// No dependency; described as `always false`.
    pub fn always_false() -> (r: DependencyPredicate)
        ensures
            r.description@ == "always false"@,
            r.test == DependencyTest::AlwaysFalse,
    {
        DependencyPredicate { description: String::from_str("always false"), test: DependencyTest::AlwaysFalse }
    }

    /// The negation; described as `not <description>`.
    pub fn not(self) -> (r: DependencyPredicate)
        ensures
            r.description@ == "not "@ + self.description@,
            r.test == DependencyTest::Not(Box::new(self)),
            r.wf() == self.wf(),
            forall|d: Dependency, items: Seq<RustItem>| #[trigger] r.holds(d, items) == !self.holds(d, items),
    {
        let description = cat("not ", self.description.as_str());
        DependencyPredicate { description, test: DependencyTest::Not(Box::new(self)) }
    }
}

/// Dependencies whose origin satisfies `predicate`; described as `origin <predicate>`.
pub fn dependency_origin(predicate: ItemPredicate) -> (r: DependencyPredicate)
    ensures
        r.description@ == "origin "@ + predicate.description@,
        r.test == DependencyTest::Origin(predicate),
        r.wf() == predicate.wf(),
        forall|d: Dependency, items: Seq<RustItem>| #[trigger] r.holds(d, items) == predicate.holds(resolve(items, d.origin)),
{
    let description = cat("origin ", predicate.description.as_str());
    DependencyPredicate { description, test: DependencyTest::Origin(predicate) }
}

/// Dependencies whose target satisfies `predicate`; described as `target <predicate>`.
pub fn dependency_target(predicate: ItemPredicate) -> (r: DependencyPredicate)
    ensures
        r.description@ == "target "@ + predicate.description@,
        r.test == DependencyTest::Target(predicate),
        r.wf() == predicate.wf(),
        forall|d: Dependency, items: Seq<RustItem>| #[trigger] r.holds(d, items) == predicate.holds(resolve(items, d.target)),
{
    let description = cat("target ", predicate.description.as_str());
    DependencyPredicate { description, test: DependencyTest::Target(predicate) }
}

/// Dependencies from an item satisfying `origin` to one satisfying `target`; described as
/// `dependency <origin> -> <target>`.
pub fn dependency(origin: ItemPredicate, target: ItemPredicate) -> (r: DependencyPredicate)
    ensures
        r.description@ == "dependency "@ + origin.description@ + " -> "@ + target.description@,
        r.test == DependencyTest::OriginAndTarget(origin, target),
        r.wf() == (origin.wf() && target.wf()),
        forall|d: Dependency, items: Seq<RustItem>| #[trigger] r.holds(d, items) == (origin.holds(resolve(items, d.origin)) && target.holds(resolve(items, d.target))),
{
    let mut description = cat("dependency ", origin.description.as_str());
    description.append(" -> ");
    description.append(target.description.as_str());
    DependencyPredicate { description, test: DependencyTest::OriginAndTarget(origin, target) }
}

/// What a test on the kind, member or parameters of a dependency says of `d`.
pub open spec fn kind_test_holds(test: DependencyTest, d: Dependency) -> bool {
    match test {
        DependencyTest::KindIs(k) => d.kind == k,
        DependencyTest::IsAccess => d.kind != AccessKind::Other,
        DependencyTest::IsFieldAccess => d.kind == AccessKind::GetField || d.kind == AccessKind::SetField,
        DependencyTest::IsCodeUnitCall => d.kind == AccessKind::MethodCall || d.kind == AccessKind::ConstructorCall,
        DependencyTest::MemberIs(m) => d.member@ == m@,
        DependencyTest::ParametersAre(p) => d.parameters@ == p@,
        _ => true,
    }
}

/// Described as `description`, testing `test`.
pub fn described_dependency(description: String, test: DependencyTest) -> (r: DependencyPredicate)
    ensures
        r.description == description,
        r.test == test,
        test is KindIs || test is IsAccess || test is IsFieldAccess || test is IsCodeUnitCall || test is MemberIs || test is ParametersAre ==> r.wf(),
        forall|d: Dependency, items: Seq<RustItem>| #[trigger] r.holds(d, items) == kind_test_holds(test, d) || !(test is KindIs || test is IsAccess || test is IsFieldAccess || test is IsCodeUnitCall || test is MemberIs || test is ParametersAre),
{
    DependencyPredicate { description, test }
}

} // verus!
