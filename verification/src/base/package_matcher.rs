//! Package identifiers such as `..service..`, `my_app::*`, `..(*)..` or `..[a|b]::(**)`,
//! matched against module paths such as `my_app::service::internal`.
//!
//! `..` stands for any number of modules (also none), `*` for the characters of one module
//! name, a part in round brackets is captured, `(**)` captures one or more modules, `[a|b]`
//! and `(a|b)` offer alternatives, and a leading `crate` stands for any crate. An identifier
//! becomes a regular expression that must match the whole module path; the `regex` crate
//! matches it. Identifiers with more than two dots in a row, `**` outside `(**)`, `(..)`, or
//! brackets that are unbalanced, nested or (for `[..]`) without `|`, or a `|` outside
//! brackets, are illegal and match nothing.

use vstd::prelude::*;
use vstd::string::*;

use super::regex_match::{anchored, regex_captures, regex_captures_of};
use crate::text::{cat3, chars_of, contains_infix, contains_str, join_single_quoted, string_of, views};

verus! {

// ---- the syntax -----------------------------------------------------------------------------

/// `..`: any number of modules before, between or after.
pub open spec fn any_modules_regex() -> Seq<char> {
    "(?:(?:^\\w*)?::(?:\\w+::)*(?:\\w*$)?)?"@
}

/// `(**)`: one or more modules, captured.
pub open spec fn modules_capture_regex() -> Seq<char> {
    "(\\w+(?:::\\w+)*)"@
}

/// `*`: the characters of one module name.
pub open spec fn name_regex() -> Seq<char> {
    "\\w+"@
}

/// The identifier with a leading `crate` read as `*`.
pub open spec fn crate_as_any(s: Seq<char>) -> Seq<char> {
    if s == "crate"@ || (s.len() >= 7 && s.take(7) == "crate::"@) { seq!['*'] + s.skip(5) } else { s }
}

/// The regular expression for the identifier `s` from position `i` on.
pub open spec fn regex_from(s: Seq<char>, i: int) -> Seq<char>
    decreases s.len() - i,
{
    if i < 0 || i >= s.len() {
        Seq::empty()
    } else if i + 4 <= s.len() && s.subrange(i, i + 4) == "(**)"@ {
        modules_capture_regex() + regex_from(s, i + 4)
    } else if i + 2 <= s.len() && s[i] == '.' && s[i + 1] == '.' {
        any_modules_regex() + regex_from(s, i + 2)
    } else if s[i] == '*' {
        name_regex() + regex_from(s, i + 1)
    } else if s[i] == '[' {
        "(?:"@ + regex_from(s, i + 1)
    } else if s[i] == ']' {
        ")"@ + regex_from(s, i + 1)
    } else if s[i] == '.' {
        "\\."@ + regex_from(s, i + 1)
    } else {
        seq![s[i]] + regex_from(s, i + 1)
    }
}

/// The regular expression that must match a whole module path.
pub open spec fn identifier_regex(identifier: Seq<char>) -> Seq<char> {
    anchored(regex_from(crate_as_any(identifier), 0))
}

/// `**` occurs other than as part of `(**)`.
pub open spec fn stray_double_star(s: Seq<char>) -> bool {
    exists|i: int| #![trigger s[i], s[i + 1]]
        0 <= i && i + 1 < s.len() && s[i] == '*' && s[i + 1] == '*'
            && !(1 <= i && i + 2 < s.len() && s[i - 1] == '(' && s[i + 2] == ')')
}

/// The brackets from position `i` on close properly: no nesting, `|` only inside brackets,
/// each `[..]` with at least one `|`; `in_square`, `bar` and `in_round` describe what is open.
pub open spec fn brackets_ok(s: Seq<char>, i: int, in_square: bool, bar: bool, in_round: bool) -> bool
    decreases s.len() - i,
{
    if i < 0 || i >= s.len() {
        !in_square && !in_round
    } else {
        let c = s[i];
        if c == '[' {
            !in_square && !in_round && brackets_ok(s, i + 1, true, false, false)
        } else if c == ']' {
            in_square && bar && brackets_ok(s, i + 1, false, false, false)
        } else if c == '(' {
            !in_square && !in_round && brackets_ok(s, i + 1, false, false, true)
        } else if c == ')' {
            in_round && brackets_ok(s, i + 1, false, false, false)
        } else if c == '|' {
            (in_square || in_round) && brackets_ok(s, i + 1, in_square, in_square, in_round)
        } else {
            brackets_ok(s, i + 1, in_square, bar, in_round)
        }
    }
}

/// Why the identifier is illegal, if it is.
pub open spec fn identifier_problem(s: Seq<char>) -> Option<Seq<char>> {
    if contains_infix(s, "..."@) {
        Some("Package identifier may not contain more than two '.' in a row"@)
    } else if stray_double_star(s) {
        Some("Package identifier may not contain more than one '*' in a row"@)
    } else if contains_infix(s, "(..)"@) {
        Some("Package identifier does not support capturing via (..), use (**) instead"@)
    } else if !brackets_ok(s, 0, false, false, false) {
        Some("Package identifier may only use '|' inside '[..]' or '(..)', each '[..]' with a '|', without nesting"@)
    } else {
        None
    }
}

/// The texts of the capture groups of a match, a group that took no part as empty text.
pub open spec fn captured(groups: Seq<Option<Seq<char>>>) -> Seq<Seq<char>> {
    if groups.len() == 0 {
        Seq::empty()
    } else {
        groups.drop_first().map_values(|g: Option<Seq<char>>| match g {
            Some(t) => t,
            None => Seq::empty(),
        })
    }
}

/// The modules a package identifier captures in `package`, or `None` if the identifier is
/// illegal or does not match.
pub open spec fn spec_match(identifier: Seq<char>, package: Seq<char>) -> Option<Seq<Seq<char>>> {
    if identifier_problem(identifier) is Some {
        None
    } else {
        match regex_captures_of(identifier_regex(identifier), package) {
            None => None,
            Some(groups) => Some(captured(groups)),
        }
    }
}

// ---- reading identifiers --------------------------------------------------------------------

fn push_str(out: &mut Vec<char>, s: &str)
    ensures
        final(out)@ == old(out)@ + s@,
{
    let t = chars_of(s);
    let mut k: usize = 0;
    let ghost start = out@;
    while k < t.len()
        invariant
            k <= t@.len(),
            out@ == start + t@.take(k as int),
        decreases t@.len() - k,
    {
        out.push(t[k]);
        proof {
            assert(t@.take(k + 1) =~= t@.take(k as int).push(t@[k as int]));
        }
        k += 1;
    }
    proof {
        assert(t@.take(t@.len() as int) =~= t@);
    }
}

/// The identifier with a leading `crate` read as `*`.
fn crate_as_any_of(s: &Vec<char>) -> (r: Vec<char>)
    ensures
        r@ == crate_as_any(s@),
{
    let is_crate = s.len() >= 5 && s[0] == 'c' && s[1] == 'r' && s[2] == 'a' && s[3] == 't' && s[4] == 'e'
        && (s.len() == 5 || (s.len() >= 7 && s[5] == ':' && s[6] == ':'));
    proof {
        reveal_strlit("crate");
        reveal_strlit("crate::");
        if s@ == "crate"@ {
            assert(s@[0] == 'c' && s@[4] == 'e');
        }
        if s@.len() >= 7 && s@.take(7) == "crate::"@ {
            assert(s@.take(7)[5] == ':');
            assert(s@.take(7)[0] == 'c');
        }
        if is_crate {
            if s@.len() == 5 {
                assert(s@ =~= "crate"@);
            } else {
                assert(s@.take(7) =~= "crate::"@);
            }
        }
    }
    if !is_crate {
        let mut r: Vec<char> = Vec::new();
        let mut i: usize = 0;
        while i < s.len()
            invariant
                i <= s@.len(),
                r@ == s@.take(i as int),
            decreases s@.len() - i,
        {
            r.push(s[i]);
            proof {
                assert(s@.take(i + 1) =~= s@.take(i as int).push(s@[i as int]));
            }
            i += 1;
        }
        proof {
            assert(s@.take(s@.len() as int) =~= s@);
        }
        return r;
    }
    let mut r: Vec<char> = Vec::new();
    r.push('*');
    let mut i: usize = 5;
    while i < s.len()
        invariant
            5 <= i <= s@.len(),
            r@ == seq!['*'] + s@.subrange(5, i as int),
        decreases s@.len() - i,
    {
        r.push(s[i]);
        proof {
            assert(s@.subrange(5, i + 1) =~= s@.subrange(5, i as int).push(s@[i as int]));
        }
        i += 1;
    }
    proof {
        assert(s@.subrange(5, s@.len() as int) =~= s@.skip(5));
    }
    r
}

/// The regular expression for the identifier `s` from position `i` on, appended to `out`.
fn regex_of(s: &Vec<char>) -> (r: Vec<char>)
    ensures
        r@ == regex_from(s@, 0),
{
    let mut out: Vec<char> = Vec::new();
    let mut i: usize = 0;
    proof {
        assert(out@ + regex_from(s@, 0) =~= regex_from(s@, 0));
    }
    while i < s.len()
        invariant
            i <= s@.len(),
            regex_from(s@, 0) == out@ + regex_from(s@, i as int),
        decreases s@.len() - i,
    {
        let ghost before = out@;
        let ghost old_i = i as int;
        let capture = s.len() - i >= 4 && s[i] == '(' && s[i + 1] == '*' && s[i + 2] == '*' && s[i + 3] == ')';
        proof {
            reveal_strlit("(**)");
            if i + 4 <= s@.len() {
                let w = s@.subrange(i as int, i + 4);
                if w == "(**)"@ {
                    assert(w[0] == s@[i as int] && w[1] == s@[i + 1] && w[2] == s@[i + 2] && w[3] == s@[i + 3]);
                }
                if capture {
                    assert(w =~= "(**)"@);
                }
            }
        }
        if capture {
            push_str(&mut out, "(\\w+(?:::\\w+)*)");
            i += 4;
        } else if s.len() - i >= 2 && s[i] == '.' && s[i + 1] == '.' {
            push_str(&mut out, "(?:(?:^\\w*)?::(?:\\w+::)*(?:\\w*$)?)?");
            i += 2;
        } else if s[i] == '*' {
            push_str(&mut out, "\\w+");
            i += 1;
        } else if s[i] == '[' {
            push_str(&mut out, "(?:");
            i += 1;
        } else if s[i] == ']' {
            push_str(&mut out, ")");
            i += 1;
        } else if s[i] == '.' {
            push_str(&mut out, "\\.");
            i += 1;
        } else {
            out.push(s[i]);
            proof {
                assert(out@ == before + seq![s@[old_i]]);
            }
            i += 1;
        }
        proof {
            let piece = out@.skip(before.len() as int);
            assert(out@ =~= before + piece);
            assert(regex_from(s@, old_i) == piece + regex_from(s@, i as int));
            assert(before + (piece + regex_from(s@, i as int)) =~= out@ + regex_from(s@, i as int));
        }
    }
    proof {
        assert(out@ + regex_from(s@, i as int) =~= out@);
    }
    out
}

/// Whether `**` occurs other than as part of `(**)`.
fn stray_double_star_of(s: &Vec<char>) -> (r: bool)
    ensures
        r == stray_double_star(s@),
{
    let mut i: usize = 0;
    while i < s.len() && s.len() - i > 1
        invariant
            forall|j: int| #![trigger s@[j], s@[j + 1]] 0 <= j < i && j + 1 < s@.len() ==> !(s@[j] == '*' && s@[j + 1] == '*'
                && !(1 <= j && j + 2 < s@.len() && s@[j - 1] == '(' && s@[j + 2] == ')')),
        decreases s@.len() - i,
    {
        if s[i] == '*' && s[i + 1] == '*' && !(1 <= i && i + 2 < s.len() && s[i - 1] == '(' && s[i + 2] == ')') {
            proof {
                assert(s@[i as int] == '*' && s@[i + 1] == '*');
            }
            return true;
        }
        i += 1;
    }
    proof {
        assert forall|j: int| #![trigger s@[j], s@[j + 1]] 0 <= j && j + 1 < s@.len() implies !(s@[j] == '*' && s@[j + 1] == '*'
            && !(1 <= j && j + 2 < s@.len() && s@[j - 1] == '(' && s@[j + 2] == ')')) by {
            assert(j < i);
        }
    }
    false
}

/// Whether the brackets of `s` close properly.
fn brackets_ok_of(s: &Vec<char>) -> (r: bool)
    ensures
        r == brackets_ok(s@, 0, false, false, false),
{
    let mut in_square = false;
    let mut bar = false;
    let mut in_round = false;
    let mut i: usize = 0;
    while i < s.len()
        invariant
            i <= s@.len(),
            brackets_ok(s@, 0, false, false, false) == brackets_ok(s@, i as int, in_square, bar, in_round),
        decreases s@.len() - i,
    {
        let c = s[i];
        if c == '[' {
            if in_square || in_round {
                return false;
            }
            in_square = true;
            bar = false;
        } else if c == ']' {
            if !(in_square && bar) {
                return false;
            }
            in_square = false;
            bar = false;
            in_round = false;
        } else if c == '(' {
            if in_square || in_round {
                return false;
            }
            in_square = false;
            bar = false;
            in_round = true;
        } else if c == ')' {
            if !in_round {
                return false;
            }
            in_square = false;
            bar = false;
            in_round = false;
        } else if c == '|' {
            if !(in_square || in_round) {
                return false;
            }
            bar = in_square;
        }
        i += 1;
    }
    !in_square && !in_round
}

/// Why the identifier is illegal, if it is.
pub(crate) fn problem_of(identifier: &str) -> (r: Option<String>)
    ensures
        r.deep_view() == identifier_problem(identifier@),
{
    let s = chars_of(identifier);
    if contains_str(identifier, "...") {
        return Some(String::from_str("Package identifier may not contain more than two '.' in a row"));
    }
    if stray_double_star_of(&s) {
        return Some(String::from_str("Package identifier may not contain more than one '*' in a row"));
    }
    if contains_str(identifier, "(..)") {
        return Some(String::from_str("Package identifier does not support capturing via (..), use (**) instead"));
    }
    if !brackets_ok_of(&s) {
        return Some(String::from_str(
            "Package identifier may only use '|' inside '[..]' or '(..)', each '[..]' with a '|', without nesting",
        ));
    }
    None
}

// ---- matchers -------------------------------------------------------------------------------

/// A parsed package identifier (`PackageMatcher`).
#[derive(Debug)]
pub struct PackageMatcher {
    /// The identifier as written.
    pub identifier: String,
    /// The regular expression it stands for.
    pub pattern: String,
    /// Whether the identifier is legal.
    pub legal: bool,
}

/// The groups a match captured.
#[derive(Debug)]
pub struct PackageMatchResult {
    /// The captured texts, group 1 first.
    pub groups: Vec<String>,
}

impl PackageMatchResult {
    /// The number of captured groups.
    pub fn number_of_groups(&self) -> (r: usize)
        ensures
            r == self.groups@.len(),
    {
        self.groups.len()
    }

    /// The text of group `i`, counting from 1.
    pub fn group(&self, i: usize) -> (r: &str)
        requires
            1 <= i <= self.groups@.len(),
        ensures
            r@ == self.groups@[i - 1]@,
    {
        self.groups[i - 1].as_str()
    }
}

/// The texts of the capture groups, group 0 left out and a group without text as empty.
fn captured_of(groups: &Vec<Option<String>>) -> (r: Vec<String>)
    ensures
        views(r@) == captured(groups.deep_view()),
{
    let mut r: Vec<String> = Vec::new();
    if groups.len() == 0 {
        proof {
            assert(views(r@) =~= captured(groups.deep_view()));
        }
        return r;
    }
    let ghost g = groups.deep_view();
    let mut i: usize = 1;
    while i < groups.len()
        invariant
            1 <= i <= groups@.len(),
            g == groups.deep_view(),
            views(r@) =~= captured(g).take(i - 1),
        decreases groups@.len() - i,
    {
        let t = match &groups[i] {
            Some(x) => x.clone(),
            None => String::new(),
        };
        let ghost before = r@;
        r.push(t);
        proof {
            assert(g[i as int] == groups@[i as int].deep_view());
            assert(views(r@) =~= views(before).push(t@));
            assert(captured(g).take(i as int) =~= captured(g).take(i - 1).push(captured(g)[i - 1]));
        }
        i += 1;
    }
    proof {
        assert(captured(g).take(groups@.len() - 1) =~= captured(g));
    }
    r
}

impl PackageMatcher {
    /// The matcher holds the identifier's legality and regular expression.
    pub open spec fn wf(&self) -> bool {
        &&& self.legal == (identifier_problem(self.identifier@) is None)
        &&& self.pattern@ == identifier_regex(self.identifier@)
    }

    /// Parses `identifier`; an illegal identifier gives a matcher
    /// that matches nothing.
    pub fn of(identifier: &str) -> (r: PackageMatcher)
        ensures
            r.wf(),
            r.identifier@ == identifier@,
    {
        let legal = problem_of(identifier).is_none();
        let s = chars_of(identifier);
        let body = regex_of(&crate_as_any_of(&s));
        let pattern = cat3("^(?:", string_of(&body).as_str(), ")$");
        proof {
            reveal_strlit("^(?:");
            reveal_strlit(")$");
        }
        PackageMatcher { identifier: String::from_str(identifier), pattern, legal }
    }

    /// Parses `identifier`, or tells why it is illegal.
    pub fn try_of(identifier: &str) -> (r: Result<PackageMatcher, String>)
        ensures
            match identifier_problem(identifier@) {
                Some(m) => r matches Err(e) && e@ == m,
                None => r matches Ok(p) && p.wf() && p.identifier@ == identifier@,
            },
    {
        match problem_of(identifier) {
            Some(m) => Err(m),
            None => Ok(Self::of(identifier)),
        }
    }

    /// Whether `package` matches (`matches(..)`).
    pub fn matches(&self, package: &str) -> (r: bool)
        requires
            self.wf(),
        ensures
            r == spec_match(self.identifier@, package@) is Some,
    {
        self.match_(package).is_some()
    }

    /// The modules captured in `package`, or `None` if it does not match (`match(..)`).
    pub fn match_(&self, package: &str) -> (r: Option<PackageMatchResult>)
        requires
            self.wf(),
        ensures
            r is Some == spec_match(self.identifier@, package@) is Some,
            r matches Some(m) ==> Some(views(m.groups@)) == spec_match(self.identifier@, package@),
    {
        if !self.legal {
            return None;
        }
        match regex_captures(self.pattern.as_str(), package) {
            None => None,
            Some(groups) => Some(PackageMatchResult { groups: captured_of(&groups) }),
        }
    }

    /// A copy.
    pub fn copy(&self) -> (r: PackageMatcher)
        ensures
            r.identifier@ == self.identifier@,
            self.wf() ==> r.wf(),
    {
        PackageMatcher { identifier: self.identifier.clone(), pattern: self.pattern.clone(), legal: self.legal }
    }
}

} // verus!
