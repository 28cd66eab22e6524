//! Described predicates on counts, as a rule on the number of
//! checked items uses them: `equal to '5'`, `less than '3'`, ...

use vstd::prelude::*;
use vstd::string::*;

use crate::text::{cat, decimal, decimal_string, quote, single_quoted};

verus! {

/// How a count is compared with a bound.
#[derive(Debug, Clone, Copy, PartialEq, Eq, Structural)]
pub enum CountTest {
    /// The count equals the bound.
    EqualTo(usize),
    /// The count is below the bound.
    LessThan(usize),
    /// The count is above the bound.
    GreaterThan(usize),
    /// The count is at most the bound.
    LessThanOrEqualTo(usize),
    /// The count is at least the bound.
    GreaterThanOrEqualTo(usize),
}

/// A described predicate on counts.
#[derive(Debug)]
pub struct CountPredicate {
    /// How the predicate reads in rule texts.
    pub description: String,
    /// What it tests.
    pub test: CountTest,
}

impl CountTest {
    /// Whether `n` passes the test.
    pub open spec fn holds(self, n: nat) -> bool {
        match self {
            CountTest::EqualTo(b) => n == b,
            CountTest::LessThan(b) => n < b,
            CountTest::GreaterThan(b) => n > b,
            CountTest::LessThanOrEqualTo(b) => n <= b,
            CountTest::GreaterThanOrEqualTo(b) => n >= b,
        }
    }
}

/// `<words> '<bound>'`.
pub open spec fn bound_text(words: Seq<char>, bound: usize) -> Seq<char> {
    words + single_quoted(decimal(bound as nat))
}

fn described(words: &str, bound: usize, test: CountTest) -> (r: CountPredicate)
    ensures
        r.description@ == bound_text(words@, bound),
        r.test == test,
{
    let number = decimal_string(bound as u64);
    let quoted = quote(number.as_str());
    CountPredicate { description: cat(words, quoted.as_str()), test }
}

impl CountPredicate {
    /// Whether the predicate holds for the count `n`.
    pub open spec fn holds(&self, n: nat) -> bool {
        self.test.holds(n)
    }

    /// Tests the count `n`.
    pub fn test(&self, n: usize) -> (r: bool)
        ensures
            r == self.holds(n as nat),
    {
        match self.test {
            CountTest::EqualTo(b) => n == b,
            CountTest::LessThan(b) => n < b,
            CountTest::GreaterThan(b) => n > b,
            CountTest::LessThanOrEqualTo(b) => n <= b,
            CountTest::GreaterThanOrEqualTo(b) => n >= b,
        }
    }

    /// The description.
    pub fn description(&self) -> (r: &str)
        ensures
            r@ == self.description@,
    {
        self.description.as_str()
    }

    /// The same predicate under another description (`as(..)`).
    pub fn as_(self, description: &str) -> (r: CountPredicate)
        ensures
            r.description@ == description@,
            r.test == self.test,
    {
        CountPredicate { description: String::from_str(description), test: self.test }
    }
}

/// `equal to '<bound>'`.
pub fn equal_to(bound: usize) -> (r: CountPredicate)
    ensures
        r.description@ == bound_text("equal to "@, bound),
        forall|n: nat| r.holds(n) <==> n == bound,
{
    described("equal to ", bound, CountTest::EqualTo(bound))
}

/// `less than '<bound>'`.
pub fn less_than(bound: usize) -> (r: CountPredicate)
    ensures
        r.description@ == bound_text("less than "@, bound),
        forall|n: nat| r.holds(n) <==> n < bound,
{
    described("less than ", bound, CountTest::LessThan(bound))
}

/// `greater than '<bound>'`.
pub fn greater_than(bound: usize) -> (r: CountPredicate)
    ensures
        r.description@ == bound_text("greater than "@, bound),
        forall|n: nat| r.holds(n) <==> n > bound,
{
    described("greater than ", bound, CountTest::GreaterThan(bound))
}

/// `less than or equal to '<bound>'`.
pub fn less_than_or_equal_to(bound: usize) -> (r: CountPredicate)
    ensures
        r.description@ == bound_text("less than or equal to "@, bound),
        forall|n: nat| r.holds(n) <==> n <= bound,
{
    described("less than or equal to ", bound, CountTest::LessThanOrEqualTo(bound))
}

/// `greater than or equal to '<bound>'`.
pub fn greater_than_or_equal_to(bound: usize) -> (r: CountPredicate)
    ensures
        r.description@ == bound_text("greater than or equal to "@, bound),
        forall|n: nat| r.holds(n) <==> n >= bound,
{
    described("greater than or equal to ", bound, CountTest::GreaterThanOrEqualTo(bound))
}

} // verus!
