//! Freezing rules: record the current violations of a rule and fail only on new ones, so an
//! architecture can be tightened over time.

pub mod properties;
pub mod round_trip;
pub mod store;

use vstd::prelude::*;
use vstd::string::*;

use crate::lang::evaluation::{EvaluationResult, ResultView};
use crate::lang::events::{ConditionEvent, EventFace, EventView, FaceView, Handled, HandledView, event_views, handled_views};
use crate::text::{chars_of, ensure_unix_line_breaks, str_eq, string_of, unix_line_breaks, views};

verus! {

/// The lines of a violation file from position `i` on: a `\n` ends a line unless a
/// backslash precedes it, in which case both stand for a `\n` inside the line; empty lines
/// are dropped.
pub open spec fn unescaped_lines_from(s: Seq<char>, i: int, current: Seq<char>, acc: Seq<Seq<char>>) -> Seq<Seq<char>>
    decreases s.len() - i,
{
    if i < 0 || i >= s.len() {
        if current.len() > 0 { acc.push(current) } else { acc }
    } else if s[i] == '\\' && i + 1 < s.len() && s[i + 1] == '\n' {
        unescaped_lines_from(s, i + 2, current.push('\n'), acc)
    } else if s[i] == '\n' {
        unescaped_lines_from(s, i + 1, Seq::empty(), if current.len() > 0 { acc.push(current) } else { acc })
    } else {
        unescaped_lines_from(s, i + 1, current.push(s[i]), acc)
    }
}

/// The violations written in a violation file.
pub fn split_unescaped_lines(text: &str) -> (r: Vec<String>)
    ensures
        views(r@) == unescaped_lines_from(text@, 0, Seq::empty(), Seq::empty()),
{
    let s = chars_of(text);
    let mut out: Vec<String> = Vec::new();
    let mut current: Vec<char> = Vec::new();
    let mut i: usize = 0;
    proof {
        assert(views(out@) =~= Seq::<Seq<char>>::empty());
    }
    while i < s.len()
        invariant
            s@ == text@,
            i <= s@.len(),
            unescaped_lines_from(text@, 0, Seq::empty(), Seq::empty()) == unescaped_lines_from(s@, i as int, current@, views(out@)),
        decreases s@.len() - i,
    {
        if s[i] == '\\' && i + 1 < s.len() && s[i + 1] == '\n' {
            current.push('\n');
            i += 2;
        } else if s[i] == '\n' {
            if current.len() > 0 {
                let ghost before = views(out@);
                out.push(string_of(&current));
                proof {
                    assert(views(out@) =~= before.push(current@));
                }
            }
            current = Vec::new();
            proof {
                assert(current@ =~= Seq::<char>::empty());
            }
            i += 1;
        } else {
            current.push(s[i]);
            i += 1;
        }
    }
    if current.len() > 0 {
        let ghost before = views(out@);
        out.push(string_of(&current));
        proof {
            assert(views(out@) =~= before.push(current@));
        }
    }
    out
}

/// The violations written as a violation file: one per line, a `\n` inside a violation
/// written as a backslash and a `\n`.
pub open spec fn violations_file_text(violations: Seq<Seq<char>>) -> Seq<char>
    decreases violations.len(),
{
    if violations.len() == 0 {
        Seq::empty()
    } else {
        violations_file_text(violations.drop_last()) + escape_breaks(violations.last()) + seq!['\n']
    }
}

/// `s` with each `\n` written as a backslash and a `\n`.
pub open spec fn escape_breaks(s: Seq<char>) -> Seq<char>
    decreases s.len(),
{
    if s.len() == 0 {
        Seq::empty()
    } else {
        escape_breaks(s.drop_last()) + if s.last() == '\n' { seq!['\\', '\n'] } else { seq![s.last()] }
    }
}

/// The text of a violation file holding `violations`.
pub fn violations_file(violations: &Vec<String>) -> (r: String)
    ensures
        r@ == violations_file_text(views(violations@)),
{
    let mut out: Vec<char> = Vec::new();
    let mut i: usize = 0;
    while i < violations.len()
        invariant
            i <= violations@.len(),
            out@ == violations_file_text(views(violations@.take(i as int))),
        decreases violations@.len() - i,
    {
        let v = chars_of(violations[i].as_str());
        let ghost start = out@;
        let mut j: usize = 0;
        while j < v.len()
            invariant
                j <= v@.len(),
                out@ == start + escape_breaks(v@.take(j as int)),
            decreases v@.len() - j,
        {
            proof {
                assert(v@.take(j + 1).drop_last() =~= v@.take(j as int));
            }
            if v[j] == '\n' {
                out.push('\\');
                out.push('\n');
            } else {
                out.push(v[j]);
            }
            proof {
                assert(out@ =~= start + escape_breaks(v@.take(j + 1)));
            }
            j += 1;
        }
        out.push('\n');
        proof {
            assert(v@.take(v@.len() as int) =~= v@);
            assert(views(violations@.take(i + 1)).drop_last() =~= views(violations@.take(i as int)));
            assert(views(violations@.take(i + 1)).last() == violations@[i as int]@);
            assert(out@ =~= violations_file_text(views(violations@.take(i + 1))));
        }
        i += 1;
    }
    proof {
        assert(violations@.take(violations@.len() as int) =~= violations@);
    }
    string_of(&out)
}

/// `name` in camel case: each `_` dropped and the letter after it in upper case (for the
/// camel-case spelling of configuration keys). Only ASCII letters change case.
pub open spec fn camel_from(s: Seq<char>, i: int, upper_next: bool, acc: Seq<char>) -> Seq<char>
    decreases s.len() - i,
{
    if i < 0 || i >= s.len() {
        acc
    } else if s[i] == '_' {
        camel_from(s, i + 1, true, acc)
    } else if upper_next {
        camel_from(s, i + 1, false, acc.push(ascii_upper(s[i])))
    } else {
        camel_from(s, i + 1, false, acc.push(s[i]))
    }
}

/// The upper case of an ASCII letter; other characters unchanged.
pub open spec fn ascii_upper(c: char) -> char {
    if 'a' <= c && c <= 'z' { ((c as u32) - 32) as char } else { c }
}

fn ascii_upper_of(c: char) -> (r: char)
    ensures
        r == ascii_upper(c),
{
    if 'a' <= c && c <= 'z' {
        let v: u32 = (c as u32) - 32;
        proof {
            assert(v as char == ((c as u32) - 32) as char);
        }
        char_of_ascii(v)
    } else {
        c
    }
}

fn char_of_ascii(v: u32) -> (r: char)
    requires
        65 <= v <= 90,
    ensures
        r == v as char,
{
    let letters: Vec<char> = vec!['A', 'B', 'C', 'D', 'E', 'F', 'G', 'H', 'I', 'J', 'K', 'L', 'M', 'N', 'O', 'P', 'Q', 'R', 'S', 'T', 'U', 'V', 'W', 'X', 'Y', 'Z'];
    let c = letters[(v - 65) as usize];
    proof {
        assert(letters@[(v - 65) as int] as u32 == v);
    }
    c
}

/// `name` in camel case, e.g. `allow_store_creation` becomes `allowStoreCreation`.
pub fn camel_case(name: &str) -> (r: String)
    ensures
        r@ == camel_from(name@, 0, false, Seq::empty()),
{
    let s = chars_of(name);
    let mut out: Vec<char> = Vec::new();
    let mut upper_next = false;
    let mut i: usize = 0;
    while i < s.len()
        invariant
            s@ == name@,
            i <= s@.len(),
            camel_from(name@, 0, false, Seq::empty()) == camel_from(s@, i as int, upper_next, out@),
        decreases s@.len() - i,
    {
        if s[i] == '_' {
            upper_next = true;
        } else if upper_next {
            out.push(ascii_upper_of(s[i]));
            upper_next = false;
        } else {
            out.push(s[i]);
        }
        i += 1;
    }
    string_of(&out)
}

// ---- matching violation lines ---------------------------------------------------------------

/// The number of ASCII digits `s` starts with from position `i` on.
pub open spec fn digits_from(s: Seq<char>, i: int) -> nat
    decreases s.len() - i,
{
    if 0 <= i < s.len() && '0' <= s[i] && s[i] <= '9' { 1 + digits_from(s, i + 1) } else { 0 }
}

/// A run of digits stays inside the text.
pub proof fn lemma_digits_bound(s: Seq<char>, i: int)
    ensures
        0 <= i <= s.len() ==> i + digits_from(s, i) <= s.len(),
    decreases s.len() - i,
{
    if 0 <= i < s.len() && '0' <= s[i] && s[i] <= '9' {
        lemma_digits_bound(s, i + 1);
    }
}

/// The first position from `i` on holding `:` or `$`.
pub open spec fn mark_from(s: Seq<char>, i: int) -> Option<int>
    decreases s.len() - i,
{
    if i < 0 || i >= s.len() {
        None
    } else if s[i] == ':' || s[i] == '$' {
        Some(i)
    } else {
        mark_from(s, i + 1)
    }
}

/// The parts of a violation line from position `p` on that must agree for two lines to
/// match: each part runs to the next `:` or `$` (included); a line number `<digits>)` after a
/// `:`, and the digits after a `$` (of a generated name), are skipped.
pub open spec fn parts_from(s: Seq<char>, p: int) -> Seq<Seq<char>>
    decreases s.len() - p,
{
    if p < 0 || p >= s.len() {
        Seq::empty()
    } else {
        let end = match mark_from(s, p) {
            Some(m) if p <= m < s.len() => m + 1,
            _ => s.len() as int,
        };
        let part = s.subrange(p, end);
        let digits = digits_from(s, end);
        proof {
            lemma_digits_bound(s, end);
        }
        let skipped: int = if part.last() == ':' {
            if digits > 0 && end + digits < s.len() && s[end + digits] == ')' { (digits + 1) as int } else { 0int }
        } else if part.last() == '$' {
            digits as int
        } else {
            0
        };
        seq![part] + parts_from(s, end + skipped)
    }
}

/// Two violation lines match when their relevant parts agree.
pub open spec fn fuzzy_match(a: Seq<char>, b: Seq<char>) -> bool {
    parts_from(a, 0) == parts_from(b, 0)
}

fn mark_of(s: &Vec<char>, i: usize) -> (r: Option<usize>)
    requires
        i <= s@.len(),
    ensures
        match mark_from(s@, i as int) {
            Some(m) => r == Some(m as usize) && i <= m < s@.len(),
            None => r is None,
        },
{
    let mut j = i;
    while j < s.len()
        invariant
            i <= j <= s@.len(),
            mark_from(s@, i as int) == mark_from(s@, j as int),
        decreases s@.len() - j,
    {
        if s[j] == ':' || s[j] == '$' {
            return Some(j);
        }
        j += 1;
    }
    None
}

fn digits_of(s: &Vec<char>, i: usize) -> (r: usize)
    requires
        i <= s@.len(),
    ensures
        r == digits_from(s@, i as int),
        i + r <= s@.len(),
{
    let mut j: usize = i;
    while j < s.len() && '0' <= s[j] && s[j] <= '9'
        invariant
            i <= j <= s@.len(),
            digits_from(s@, i as int) == (j - i) + digits_from(s@, j as int),
        decreases s@.len() - j,
    {
        j += 1;
    }
    j - i
}

/// The relevant parts of a violation line.
pub fn relevant_parts(line: &str) -> (r: Vec<Vec<char>>)
    ensures
        crate::text::char_views(r@) == parts_from(line@, 0),
{
    let s = chars_of(line);
    let mut out: Vec<Vec<char>> = Vec::new();
    let mut p: usize = 0;
    proof {
        assert(crate::text::char_views(out@) + parts_from(s@, 0) =~= parts_from(s@, 0));
    }
    while p < s.len()
        invariant
            s@ == line@,
            p <= s@.len(),
            parts_from(line@, 0) == crate::text::char_views(out@) + parts_from(s@, p as int),
        decreases s@.len() - p,
    {
        let end = match mark_of(&s, p) {
            Some(m) => m + 1,
            None => s.len(),
        };
        let part = crate::text::slice_chars(&s, p, end);
        let digits = digits_of(&s, end);
        let skipped: usize = if part[part.len() - 1] == ':' {
            if digits > 0 && end + digits < s.len() && s[end + digits] == ')' { digits + 1 } else { 0 }
        } else if part[part.len() - 1] == '$' {
            digits
        } else {
            0
        };
        let ghost before = crate::text::char_views(out@);
        out.push(part);
        proof {
            assert(crate::text::char_views(out@) =~= before.push(part@));
            assert(part@ == s@.subrange(p as int, end as int));
            assert(parts_from(s@, p as int) == seq![part@] + parts_from(s@, (end + skipped) as int));
            assert(before.push(part@) + parts_from(s@, (end + skipped) as int) =~= before + (seq![part@] + parts_from(s@, (end + skipped) as int)));
        }
        p = end + skipped;
    }
    proof {
        assert(crate::text::char_views(out@) + parts_from(s@, p as int) =~= crate::text::char_views(out@));
    }
    out
}

/// Associates violation lines that differ only in line numbers and generated names
/// (`FuzzyViolationLineMatcher`).
#[derive(Debug, Clone, Copy)]
pub struct FuzzyViolationLineMatcher;

impl FuzzyViolationLineMatcher {
    /// Whether the two lines match.
    pub fn matches(&self, line_from_first_violation: &str, line_from_second_violation: &str) -> (r: bool)
        ensures
            r == fuzzy_match(line_from_first_violation@, line_from_second_violation@),
    {
        let a = relevant_parts(line_from_first_violation);
        let b = relevant_parts(line_from_second_violation);
        if a.len() != b.len() {
            proof {
                assert(crate::text::char_views(a@).len() != crate::text::char_views(b@).len());
            }
            return false;
        }
        let mut i: usize = 0;
        while i < a.len()
            invariant
                a@.len() == b@.len(),
                crate::text::char_views(a@) == parts_from(line_from_first_violation@, 0),
                crate::text::char_views(b@) == parts_from(line_from_second_violation@, 0),
                i <= a@.len(),
                forall|j: int| 0 <= j < i ==> (#[trigger] a@[j])@ == b@[j]@,
            decreases a@.len() - i,
        {
            if !crate::text::chars_eq(&a[i], &b[i]) {
                proof {
                    assert(crate::text::char_views(a@)[i as int] != crate::text::char_views(b@)[i as int]);
                }
                return false;
            }
            i += 1;
        }
        proof {
            assert(crate::text::char_views(a@) =~= crate::text::char_views(b@));
        }
        true
    }
}

/// Every line matches itself.
pub proof fn lemma_fuzzy_reflexive(a: Seq<char>)
    ensures
        fuzzy_match(a, a),
{
}

/// Matching does not depend on the order of the lines.
pub proof fn lemma_fuzzy_symmetric(a: Seq<char>, b: Seq<char>)
    ensures
        fuzzy_match(a, b) == fuzzy_match(b, a),
{
}

/// Lines matching a common line match each other.
pub proof fn lemma_fuzzy_transitive(a: Seq<char>, b: Seq<char>, c: Seq<char>)
    requires
        fuzzy_match(a, b),
        fuzzy_match(b, c),
    ensures
        fuzzy_match(a, c),
{
}

/// How violation lines of the current evaluation are associated with stored ones.
#[derive(Debug, Clone, Copy, PartialEq, Eq, Structural)]
pub enum LineMatcher {
    /// [`FuzzyViolationLineMatcher`].
    Fuzzy,
    /// Equal lines only.
    Exact,
}

/// Whether `m` associates the two lines.
pub open spec fn line_matches(m: LineMatcher, a: Seq<char>, b: Seq<char>) -> bool {
    match m {
        LineMatcher::Fuzzy => fuzzy_match(a, b),
        LineMatcher::Exact => a == b,
    }
}

fn matches_with(m: LineMatcher, a: &str, b: &str) -> (r: bool)
    ensures
        r == line_matches(m, a@, b@),
{
    match m {
        LineMatcher::Fuzzy => FuzzyViolationLineMatcher.matches(a, b),
        LineMatcher::Exact => str_eq(a, b),
    }
}

// ---- categorizing violations ----------------------------------------------------------------

/// The first position of a stored line associated with `a`.
pub open spec fn first_match(m: LineMatcher, a: Seq<char>, stored: Seq<Seq<char>>, from: int) -> Option<int>
    decreases stored.len() - from,
{
    if from < 0 || from >= stored.len() {
        None
    } else if line_matches(m, a, stored[from]) {
        Some(from)
    } else {
        first_match(m, a, stored, from + 1)
    }
}

/// The state after associating the actual lines from position `i` on: the stored lines
/// left, the actual lines that were known, and the stored lines still violated. Each actual
/// line takes the first stored line left that it matches.
pub open spec fn categorize_from(
    m: LineMatcher,
    actual: Seq<Seq<char>>,
    i: int,
    left: Seq<Seq<char>>,
    known: Seq<Seq<char>>,
    unsolved: Seq<Seq<char>>,
) -> (Seq<Seq<char>>, Seq<Seq<char>>, Seq<Seq<char>>)
    decreases actual.len() - i,
{
    if i < 0 || i >= actual.len() {
        (left, known, unsolved)
    } else {
        match first_match(m, actual[i], left, 0) {
            Some(k) => categorize_from(m, actual, i + 1, left.remove(k), known.push(actual[i]), unsolved.push(left[k])),
            None => categorize_from(m, actual, i + 1, left, known, unsolved),
        }
    }
}

/// The stored lines not among `unsolved`, in order.
pub open spec fn solved_of(stored: Seq<Seq<char>>, unsolved: Seq<Seq<char>>) -> Seq<Seq<char>>
    decreases stored.len(),
{
    if stored.len() == 0 {
        Seq::empty()
    } else {
        solved_of(stored.drop_last(), unsolved) + if unsolved.contains(stored.last()) {
            Seq::empty()
        } else {
            seq![stored.last()]
        }
    }
}

/// Violations of the current evaluation sorted against the stored ones
/// (`CategorizedViolations`).
#[derive(Debug)]
pub struct CategorizedViolations {
    /// The actual lines that were stored before.
    pub known_actual: Vec<String>,
    /// The stored lines no longer violated.
    pub stored_solved: Vec<String>,
    /// The stored lines still violated.
    pub stored_unsolved: Vec<String>,
}

fn contains_text(v: &Vec<String>, s: &str) -> (r: bool)
    ensures
        r == views(v@).contains(s@),
{
    let mut i: usize = 0;
    while i < v.len()
        invariant
            i <= v@.len(),
            forall|j: int| 0 <= j < i ==> v@[j]@ != s@,
        decreases v@.len() - i,
    {
        if str_eq(v[i].as_str(), s) {
            proof {
                assert(views(v@)[i as int] == s@);
            }
            return true;
        }
        i += 1;
    }
    proof {
        if views(v@).contains(s@) {
            let j = choose|j: int| 0 <= j < views(v@).len() && views(v@)[j] == s@;
            assert(v@[j]@ == s@);
        }
    }
    false
}

impl CategorizedViolations {
    /// Associates each actual line with the first stored line left that matches it.
    pub fn new(matcher: LineMatcher, actual: &Vec<String>, stored: &Vec<String>) -> (r: CategorizedViolations)
        ensures
            ({
                let c = categorize_from(matcher, views(actual@), 0, views(stored@), Seq::empty(), Seq::empty());
                &&& views(r.known_actual@) == c.1
                &&& views(r.stored_unsolved@) == c.2
                &&& views(r.stored_solved@) == solved_of(views(stored@), c.2)
            }),
            views(r.stored_unsolved@).to_multiset().subset_of(views(stored@).to_multiset()),
            r.known_actual@.len() == r.stored_unsolved@.len(),
            r.known_actual@.len() <= stored@.len(),
    {
        proof {
            lemma_stored_lines_used_once(matcher, views(actual@), views(stored@));
        }
        let mut left: Vec<String> = stored.clone();
        let mut known: Vec<String> = Vec::new();
        let mut unsolved: Vec<String> = Vec::new();
        let mut i: usize = 0;
        proof {
            assert(views(known@) =~= Seq::<Seq<char>>::empty());
            assert(views(unsolved@) =~= Seq::<Seq<char>>::empty());
        }
        while i < actual.len()
            invariant
                i <= actual@.len(),
                categorize_from(matcher, views(actual@), 0, views(stored@), Seq::empty(), Seq::empty())
                    == categorize_from(matcher, views(actual@), i as int, views(left@), views(known@), views(unsolved@)),
            decreases actual@.len() - i,
        {
            let mut k: usize = 0;
            let mut found = false;
            while !found && k < left.len()
                invariant
                    i < actual@.len(),
                    k <= left@.len(),
                    !found ==> first_match(matcher, actual@[i as int]@, views(left@), 0) == first_match(matcher, actual@[i as int]@, views(left@), k as int),
                    found ==> first_match(matcher, actual@[i as int]@, views(left@), 0) == Some(k as int) && k < left@.len(),
                decreases left@.len() - k + (if found { 0int } else { 1int }),
            {
                if matches_with(matcher, actual[i].as_str(), left[k].as_str()) {
                    found = true;
                } else {
                    k += 1;
                }
            }
            proof {
                assert(views(actual@)[i as int] == actual@[i as int]@);
            }
            if found {
                let ghost l = views(left@);
                let matched = left.remove(k);
                let ghost kn = views(known@);
                let ghost un = views(unsolved@);
                known.push(actual[i].clone());
                unsolved.push(matched);
                proof {
                    assert(views(left@) =~= l.remove(k as int));
                    assert(views(known@) =~= kn.push(actual@[i as int]@));
                    assert(views(unsolved@) =~= un.push(l[k as int]));
                }
            }
            i += 1;
        }
        let mut solved: Vec<String> = Vec::new();
        let mut j: usize = 0;
        proof {
            assert(views(solved@) =~= Seq::<Seq<char>>::empty());
        }
        while j < stored.len()
            invariant
                j <= stored@.len(),
                views(solved@) == solved_of(views(stored@.take(j as int)), views(unsolved@)),
            decreases stored@.len() - j,
        {
            proof {
                assert(views(stored@.take(j + 1)).drop_last() =~= views(stored@.take(j as int)));
                assert(views(stored@.take(j + 1)).last() == stored@[j as int]@);
            }
            if !contains_text(&unsolved, stored[j].as_str()) {
                let ghost before = views(solved@);
                solved.push(stored[j].clone());
                proof {
                    assert(views(solved@) =~= before + seq![stored@[j as int]@]);
                }
            } else {
                proof {
                    assert(views(solved@) =~= views(solved@) + Seq::<Seq<char>>::empty());
                }
            }
            j += 1;
        }
        proof {
            assert(stored@.take(stored@.len() as int) =~= stored@);
        }
        CategorizedViolations { known_actual: known, stored_solved: solved, stored_unsolved: unsolved }
    }
}


// ---- names of rule files --------------------------------------------------------------------

/// The lower-case hexadecimal digit of `d`.
pub open spec fn lower_hex_digit(d: nat) -> char {
    seq!['0', '1', '2', '3', '4', '5', '6', '7', '8', '9', 'a', 'b', 'c', 'd', 'e', 'f'][d as int]
}

/// The last `width` lower-case hexadecimal digits of `v`, so `v` zero-padded to `width`
/// digits where it has no more.
pub open spec fn hex_padded(v: nat, width: nat) -> Seq<char>
    decreases width,
{
    if width == 0 {
        Seq::empty()
    } else {
        hex_padded(v / 16, (width - 1) as nat).push(lower_hex_digit(v % 16))
    }
}

/// The name in the layout of a version 4 UUID made from the 128 bits `a` and `b`:
/// `xxxxxxxx-xxxx-4xxx-yxxx-xxxxxxxxxxxx`, from the high 32 bits of `a`, its next 16 bits, its
/// low 12 bits, 14 bits of `b` below its top 16 with the variant bit set above them, and the
/// low 48 bits of `b`.
pub open spec fn uuid_text(a: nat, b: nat) -> Seq<char> {
    hex_padded(a / 0x1_0000_0000, 8) + seq!['-'] + hex_padded((a / 0x1_0000) % 0x1_0000, 4) + seq!['-', '4']
        + hex_padded(a % 0x1000, 3) + seq!['-'] + hex_padded((b / 0x1_0000_0000_0000) % 0x4000 + 0x8000, 4)
        + seq!['-'] + hex_padded(b % 0x1_0000_0000_0000, 12)
}

fn lower_hex_char(d: u64) -> (r: char)
    requires
        d < 16,
    ensures
        r == lower_hex_digit(d as nat),
{
    if d < 8 {
        if d < 4 {
            if d == 0 { '0' } else if d == 1 { '1' } else if d == 2 { '2' } else { '3' }
        } else {
            if d == 4 { '4' } else if d == 5 { '5' } else if d == 6 { '6' } else { '7' }
        }
    } else {
        if d < 12 {
            if d == 8 { '8' } else if d == 9 { '9' } else if d == 10 { 'a' } else { 'b' }
        } else {
            if d == 12 { 'c' } else if d == 13 { 'd' } else if d == 14 { 'e' } else { 'f' }
        }
    }
}

/// Appends the last `width` hexadecimal digits of `v` to `out`.
fn push_hex_padded(v: u64, width: usize, out: &mut Vec<char>)
    ensures
        final(out)@ == old(out)@ + hex_padded(v as nat, width as nat),
    decreases width,
{
    if width > 0 {
        push_hex_padded(v / 16, width - 1, out);
        out.push(lower_hex_char(v % 16));
    } else {
        proof {
            assert(old(out)@ + hex_padded(v as nat, 0) =~= old(out)@);
        }
    }
}

/// The name of a rule file made from the random bits `a` and `b`, in the layout of a version
/// 4 UUID.
pub fn uuid_from_bits(a: u64, b: u64) -> (r: String)
    ensures
        r@ == uuid_text(a as nat, b as nat),
{
    let mut out: Vec<char> = Vec::new();
    push_hex_padded(a / 0x1_0000_0000, 8, &mut out);
    out.push('-');
    push_hex_padded((a / 0x1_0000) % 0x1_0000, 4, &mut out);
    out.push('-');
    out.push('4');
    push_hex_padded(a % 0x1000, 3, &mut out);
    out.push('-');
    push_hex_padded((b / 0x1_0000_0000_0000) % 0x4000 + 0x8000, 4, &mut out);
    out.push('-');
    push_hex_padded(b % 0x1_0000_0000_0000, 12, &mut out);
    proof {
        assert(out@ =~= uuid_text(a as nat, b as nat));
    }
    string_of(&out)
}


/// Where a stored line matches, it is one at or after `from`.
proof fn lemma_first_match_range(m: LineMatcher, a: Seq<char>, stored: Seq<Seq<char>>, from: int)
    requires
        0 <= from,
    ensures
        first_match(m, a, stored, from) matches Some(k) ==> from <= k < stored.len() && line_matches(m, a, stored[k]),
    decreases stored.len() - from,
{
    if from < stored.len() && !line_matches(m, a, stored[from]) {
        lemma_first_match_range(m, a, stored, from + 1);
    }
}

/// From any state on, the stored lines left and those taken as still violated together are
/// the stored lines left and taken before, and each actual line taken as known takes one
/// stored line.
proof fn lemma_categorize_from_accounts(
    m: LineMatcher,
    actual: Seq<Seq<char>>,
    i: int,
    left: Seq<Seq<char>>,
    known: Seq<Seq<char>>,
    unsolved: Seq<Seq<char>>,
)
    requires
        0 <= i,
    ensures
        ({
            let r = categorize_from(m, actual, i, left, known, unsolved);
            &&& r.0.to_multiset().add(r.2.to_multiset()) == left.to_multiset().add(unsolved.to_multiset())
            &&& r.1.len() - known.len() == r.2.len() - unsolved.len()
            &&& r.1.len() >= known.len()
        }),
    decreases actual.len() - i,
{
    broadcast use vstd::seq_lib::group_to_multiset_ensures, vstd::multiset::group_multiset_axioms;
    if i < actual.len() {
        lemma_first_match_range(m, actual[i], left, 0);
        match first_match(m, actual[i], left, 0) {
            Some(k) => {
                let x = left[k];
                let left2 = left.remove(k);
                let unsolved2 = unsolved.push(x);
                lemma_categorize_from_accounts(m, actual, i + 1, left2, known.push(actual[i]), unsolved2);
                assert(left2.to_multiset() =~= left.to_multiset().remove(x));
                assert(unsolved2.to_multiset() =~= unsolved.to_multiset().insert(x));
                assert(left.to_multiset().count(x) > 0) by {
                    assert(left.contains(x));
                }
                assert(left2.to_multiset().add(unsolved2.to_multiset()) =~= left.to_multiset().add(unsolved.to_multiset()));
            },
            None => {
                lemma_categorize_from_accounts(m, actual, i + 1, left, known, unsolved);
            },
        }
    }
}

/// Each stored line is associated with at most one actual line: the stored lines still
/// violated, together with those left unpaired, are exactly the stored lines (so the lines
/// still violated are among the stored ones, each as often at most as it was stored), and
/// there are as many actual lines known as stored lines still violated, so no more than
/// there are stored lines.
pub proof fn lemma_stored_lines_used_once(m: LineMatcher, actual: Seq<Seq<char>>, stored: Seq<Seq<char>>)
    ensures
        ({
            let c = categorize_from(m, actual, 0, stored, Seq::empty(), Seq::empty());
            &&& c.0.to_multiset().add(c.2.to_multiset()) == stored.to_multiset()
            &&& c.2.to_multiset().subset_of(stored.to_multiset())
            &&& c.1.len() == c.2.len()
            &&& c.1.len() <= stored.len()
        }),
{
    broadcast use vstd::seq_lib::group_to_multiset_ensures, vstd::multiset::group_multiset_axioms;
    lemma_categorize_from_accounts(m, actual, 0, stored, Seq::empty(), Seq::empty());
    let c = categorize_from(m, actual, 0, stored, Seq::empty(), Seq::empty());
    assert(Seq::<Seq<char>>::empty().to_multiset() =~= vstd::multiset::Multiset::<Seq<char>>::empty());
    assert(stored.to_multiset().add(vstd::multiset::Multiset::empty()) =~= stored.to_multiset());
    assert(c.2.to_multiset().subset_of(stored.to_multiset()));
    assert(c.0.to_multiset().add(c.2.to_multiset()).len() == c.0.to_multiset().len() + c.2.to_multiset().len());
}


/// From any state on, each actual line taken as known is paired, at the same position, with a
/// stored line that the matcher associates with it, and is one of the actual lines.
proof fn lemma_categorize_from_pairs(
    m: LineMatcher,
    actual: Seq<Seq<char>>,
    i: int,
    left: Seq<Seq<char>>,
    known: Seq<Seq<char>>,
    unsolved: Seq<Seq<char>>,
)
    requires
        0 <= i,
        known.len() == unsolved.len(),
        forall|k: int| 0 <= k < known.len() ==> line_matches(m, #[trigger] known[k], unsolved[k]) && actual.contains(known[k]),
    ensures
        ({
            let r = categorize_from(m, actual, i, left, known, unsolved);
            &&& r.1.len() == r.2.len()
            &&& forall|k: int| 0 <= k < r.1.len() ==> line_matches(m, #[trigger] r.1[k], r.2[k]) && actual.contains(r.1[k])
        }),
    decreases actual.len() - i,
{
    if i < actual.len() {
        lemma_first_match_range(m, actual[i], left, 0);
        match first_match(m, actual[i], left, 0) {
            Some(k) => {
                let known2 = known.push(actual[i]);
                let unsolved2 = unsolved.push(left[k]);
                assert forall|q: int| 0 <= q < known2.len() implies line_matches(m, #[trigger] known2[q], unsolved2[q]) && actual.contains(known2[q]) by {
                    if q < known.len() {
                        assert(known2[q] == known[q] && unsolved2[q] == unsolved[q]);
                    } else {
                        assert(known2[q] == actual[i] && unsolved2[q] == left[k]);
                    }
                }
                lemma_categorize_from_pairs(m, actual, i + 1, left.remove(k), known2, unsolved2);
            },
            None => {
                lemma_categorize_from_pairs(m, actual, i + 1, left, known, unsolved);
            },
        }
    }
}

/// Each known actual line is one of the actual lines, paired with a stored line still violated
/// that the matcher associates with it.
pub proof fn lemma_known_lines_match_stored(m: LineMatcher, actual: Seq<Seq<char>>, stored: Seq<Seq<char>>)
    ensures
        ({
            let c = categorize_from(m, actual, 0, stored, Seq::empty(), Seq::empty());
            &&& c.1.len() == c.2.len()
            &&& forall|k: int| 0 <= k < c.1.len() ==> line_matches(m, #[trigger] c.1[k], c.2[k]) && actual.contains(c.1[k])
        }),
{
    lemma_categorize_from_pairs(m, actual, 0, stored, Seq::empty(), Seq::empty());
}

} // verus!
