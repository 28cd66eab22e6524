//! The order of `str` (character by character) and sorting of strings in that order.

use vstd::prelude::*;

use crate::text::views;

verus! {

/// `a` comes strictly before `b` in the order of `str`: at the first differing position `a`
/// has the smaller character, or `a` is a proper prefix of `b`.
pub open spec fn lex_lt(a: Seq<char>, b: Seq<char>) -> bool
    decreases a.len(),
{
    if a.len() == 0 {
        b.len() > 0
    } else if b.len() == 0 {
        false
    } else if a[0] != b[0] {
        (a[0] as u32) < (b[0] as u32)
    } else {
        lex_lt(a.drop_first(), b.drop_first())
    }
}

/// Different characters have different codes.
proof fn lemma_char_code(c: char, d: char)
    ensures
        c != d ==> (c as u32) != (d as u32),
{
}

/// No string comes before itself.
pub proof fn lemma_lex_irreflexive(a: Seq<char>)
    ensures
        !lex_lt(a, a),
    decreases a.len(),
{
    if a.len() > 0 {
        lemma_lex_irreflexive(a.drop_first());
    }
}

/// Two different strings are ordered one way or the other, never both.
pub proof fn lemma_lex_total(a: Seq<char>, b: Seq<char>)
    ensures
        a != b ==> (lex_lt(a, b) || lex_lt(b, a)),
        !(lex_lt(a, b) && lex_lt(b, a)),
    decreases a.len(),
{
    if a.len() > 0 && b.len() > 0 {
        lemma_lex_total(a.drop_first(), b.drop_first());
        if a[0] == b[0] && a != b {
            assert(a.drop_first() != b.drop_first()) by {
                if a.drop_first() == b.drop_first() {
                    assert(a =~= seq![a[0]] + a.drop_first());
                    assert(b =~= seq![b[0]] + b.drop_first());
                }
            }
        }
        if a[0] != b[0] {
            lemma_char_code(a[0], b[0]);
        }
    } else if a.len() == 0 && b.len() == 0 {
        assert(a =~= b);
    }
}

/// The order is transitive.
pub proof fn lemma_lex_transitive(a: Seq<char>, b: Seq<char>, c: Seq<char>)
    requires
        lex_lt(a, b),
        lex_lt(b, c),
    ensures
        lex_lt(a, c),
    decreases a.len(),
{
    if a.len() > 0 && b.len() > 0 && c.len() > 0 {
        if a[0] == b[0] && b[0] == c[0] {
            lemma_lex_transitive(a.drop_first(), b.drop_first(), c.drop_first());
        }
    }
}

/// Comparing strings with a common prefix comes down to comparing what follows it.
proof fn lemma_lex_skip(a: Seq<char>, b: Seq<char>, i: int)
    requires
        0 <= i <= a.len(),
        i <= b.len(),
        a.take(i) == b.take(i),
    ensures
        lex_lt(a, b) == lex_lt(a.skip(i), b.skip(i)),
    decreases i,
{
    if i > 0 {
        assert(a[0] == a.take(i)[0]);
        assert(b[0] == b.take(i)[0]);
        assert(a.drop_first().take(i - 1) =~= a.take(i).drop_first());
        assert(b.drop_first().take(i - 1) =~= b.take(i).drop_first());
        lemma_lex_skip(a.drop_first(), b.drop_first(), i - 1);
        assert(a.drop_first().skip(i - 1) =~= a.skip(i));
        assert(b.drop_first().skip(i - 1) =~= b.skip(i));
    } else {
        assert(a.skip(0) =~= a);
        assert(b.skip(0) =~= b);
    }
}

/// Whether `a` comes strictly before `b` (`a < b` on strings).
pub fn str_lt(a: &str, b: &str) -> (r: bool)
    ensures
        r == lex_lt(a@, b@),
{
    let x = crate::text::chars_of(a);
    let y = crate::text::chars_of(b);
    let mut i: usize = 0;
    while i < x.len() && i < y.len()
        invariant
            x@ == a@,
            y@ == b@,
            i <= x@.len(),
            i <= y@.len(),
            x@.take(i as int) == y@.take(i as int),
        decreases x@.len() - i,
    {
        if x[i] != y[i] {
            proof {
                lemma_lex_skip(x@, y@, i as int);
                assert(x@.skip(i as int)[0] == x@[i as int]);
                assert(y@.skip(i as int)[0] == y@[i as int]);
            }
            let cx: u32 = x[i] as u32;
            let cy: u32 = y[i] as u32;
            return cx < cy;
        }
        proof {
            assert(x@.take(i + 1) =~= x@.take(i as int).push(x@[i as int]));
            assert(y@.take(i + 1) =~= y@.take(i as int).push(y@[i as int]));
        }
        i += 1;
    }
    proof {
        lemma_lex_skip(x@, y@, i as int);
    }
    i == x.len() && i < y.len()
}

/// The texts are in non-decreasing order.
pub open spec fn sorted(s: Seq<Seq<char>>) -> bool {
    forall|i: int, j: int| 0 <= i < j < s.len() ==> !lex_lt(#[trigger] s[j], #[trigger] s[i])
}

/// The texts are in increasing order, so no text occurs twice.
pub open spec fn strictly_sorted(s: Seq<Seq<char>>) -> bool {
    forall|i: int, j: int| 0 <= i < j < s.len() ==> lex_lt(#[trigger] s[i], #[trigger] s[j])
}

/// The strings are in non-decreasing order.
spec fn strings_sorted(s: Seq<String>) -> bool {
    forall|i: int, j: int| 0 <= i < j < s.len() ==> !lex_lt(#[trigger] s[j]@, #[trigger] s[i]@)
}

/// The strings are in increasing order.
spec fn strings_strictly_sorted(s: Seq<String>) -> bool {
    forall|i: int, j: int| 0 <= i < j < s.len() ==> lex_lt(#[trigger] s[i]@, #[trigger] s[j]@)
}

/// The texts of the strings.
spec fn texts(s: Seq<String>) -> Set<Seq<char>> {
    Set::new(|t: Seq<char>| exists|i: int| 0 <= i < s.len() && s[i]@ == t)
}

/// The order and the texts of strings are those of their views.
proof fn lemma_views_order(s: Seq<String>)
    ensures
        strings_sorted(s) == sorted(views(s)),
        strings_strictly_sorted(s) == strictly_sorted(views(s)),
        texts(s) == views(s).to_set(),
{
    assert(views(s).len() == s.len());
    assert forall|i: int| 0 <= i < s.len() implies #[trigger] views(s)[i] == s[i]@ by {}
    if strings_sorted(s) {
        assert forall|i: int, j: int| 0 <= i < j < views(s).len() implies !lex_lt(#[trigger] views(s)[j], #[trigger] views(s)[i]) by {
            assert(!lex_lt(s[j]@, s[i]@));
        }
    }
    if sorted(views(s)) {
        assert forall|i: int, j: int| 0 <= i < j < s.len() implies !lex_lt(#[trigger] s[j]@, #[trigger] s[i]@) by {
            assert(!lex_lt(views(s)[j], views(s)[i]));
        }
    }
    if strings_strictly_sorted(s) {
        assert forall|i: int, j: int| 0 <= i < j < views(s).len() implies lex_lt(#[trigger] views(s)[i], #[trigger] views(s)[j]) by {
            assert(lex_lt(s[i]@, s[j]@));
        }
    }
    if strictly_sorted(views(s)) {
        assert forall|i: int, j: int| 0 <= i < j < s.len() implies lex_lt(#[trigger] s[i]@, #[trigger] s[j]@) by {
            assert(lex_lt(views(s)[i], views(s)[j]));
        }
    }
    assert forall|t: Seq<char>| #[trigger] texts(s).contains(t) == views(s).to_set().contains(t) by {
        if texts(s).contains(t) {
            let i = choose|i: int| 0 <= i < s.len() && s[i]@ == t;
            assert(views(s)[i] == t);
        }
        if views(s).contains(t) {
            let i = choose|i: int| 0 <= i < views(s).len() && views(s)[i] == t;
            assert(s[i]@ == t);
        }
    }
    assert(texts(s) =~= views(s).to_set());
}

/// The strings in the order of `str`, each kept as often as it occurs (`sort()`).
pub fn sort_strings(v: Vec<String>) -> (r: Vec<String>)
    ensures
        sorted(views(r@)),
        views(r@).to_multiset() == views(v@).to_multiset(),
{
    let mut r: Vec<String> = Vec::new();
    let mut k: usize = 0;
    proof {
        assert(views(v@.take(0)) =~= views(r@));
    }
    while k < v.len()
        invariant
            k <= v@.len(),
            strings_sorted(r@),
            views(r@).to_multiset() == views(v@.take(k as int)).to_multiset(),
        decreases v@.len() - k,
    {
        let s = v[k].clone();
        let mut i: usize = 0;
        while i < r.len() && !str_lt(s.as_str(), r[i].as_str())
            invariant
                i <= r@.len(),
                strings_sorted(r@),
                forall|j: int| 0 <= j < i ==> !lex_lt(s@, #[trigger] r@[j]@),
            decreases r@.len() - i,
        {
            i += 1;
        }
        let ghost before = r@;
        proof {
            assert forall|j: int| i <= j < before.len() implies lex_lt(s@, #[trigger] before[j]@) by {
                if j > i {
                    assert(!lex_lt(before[j]@, before[i as int]@));
                    lemma_lex_total(before[i as int]@, before[j]@);
                    if before[i as int]@ != before[j]@ {
                        lemma_lex_transitive(s@, before[i as int]@, before[j]@);
                    }
                }
            }
        }
        r.insert(i, s);
        proof {
            assert forall|a: int, b: int| 0 <= a < b < r@.len() implies !lex_lt(
                #[trigger] r@[b]@,
                #[trigger] r@[a]@,
            ) by {
                if a < i && b == i {
                    lemma_lex_total(s@, before[a]@);
                } else if a == i && b > i {
                    lemma_lex_total(s@, before[b - 1]@);
                } else if a < i && b > i {
                    assert(!lex_lt(before[b - 1]@, before[a]@));
                } else if a > i {
                    assert(!lex_lt(before[b - 1]@, before[a - 1]@));
                }
            }
            assert(views(r@) =~= views(before).insert(i as int, s@));
            vstd::seq_lib::to_multiset_insert(views(before), i as int, s@);
            vstd::seq_lib::to_multiset_build(views(v@.take(k as int)), v@[k as int]@);
            assert(views(v@.take(k + 1)) =~= views(v@.take(k as int)).push(v@[k as int]@));
        }
        k += 1;
    }
    proof {
        assert(v@.take(v@.len() as int) =~= v@);
        lemma_views_order(r@);
    }
    r
}

/// Adds `s` to the strictly sorted strings `v` unless it is there already.
fn insert_unique(v: &mut Vec<String>, s: String)
    requires
        strings_strictly_sorted(old(v)@),
    ensures
        strings_strictly_sorted(final(v)@),
        texts(final(v)@) == texts(old(v)@).insert(s@),
{
    let mut i: usize = 0;
    while i < v.len() && str_lt(v[i].as_str(), s.as_str())
        invariant
            i <= v@.len(),
            forall|j: int| 0 <= j < i ==> lex_lt(#[trigger] v@[j]@, s@),
        decreases v@.len() - i,
    {
        i += 1;
    }
    let ghost before = v@;
    if i < v.len() && !str_lt(s.as_str(), v[i].as_str()) {
        proof {
            lemma_lex_total(s@, v@[i as int]@);
            assert(texts(before) =~= texts(before).insert(s@));
        }
        return ;
    }
    proof {
        assert forall|j: int| i <= j < before.len() implies lex_lt(s@, #[trigger] before[j]@) by {
            if j > i {
                lemma_lex_transitive(s@, before[i as int]@, before[j]@);
            }
        }
    }
    v.insert(i, s);
    proof {
        assert forall|a: int, b: int| 0 <= a < b < v@.len() implies lex_lt(
            #[trigger] v@[a]@,
            #[trigger] v@[b]@,
        ) by {
            if a < i && b == i {
            } else if a == i && b > i {
                assert(v@[b] == before[b - 1]);
            } else if a < i && b > i {
                assert(v@[b] == before[b - 1]);
            } else if a > i {
                assert(v@[b] == before[b - 1]);
                assert(v@[a] == before[a - 1]);
            }
        }
        assert forall|t: Seq<char>| #[trigger] texts(v@).contains(t) == texts(before).insert(
            s@,
        ).contains(t) by {
            if texts(before).contains(t) {
                let j = choose|j: int| 0 <= j < before.len() && before[j]@ == t;
                if j < i {
                    assert(v@[j]@ == t);
                } else {
                    assert(v@[j + 1]@ == t);
                }
            }
            if t == s@ {
                assert(v@[i as int]@ == t);
            }
            if texts(v@).contains(t) {
                let j = choose|j: int| 0 <= j < v@.len() && v@[j]@ == t;
                if j < i {
                    assert(before[j]@ == t);
                } else if j > i {
                    assert(before[j - 1]@ == t);
                }
            }
        }
        assert(texts(v@) =~= texts(before).insert(s@));
    }
}

/// The distinct texts of `s` in increasing order.
pub open spec fn sort_unique(s: Seq<Seq<char>>) -> Seq<Seq<char>> {
    choose|r: Seq<Seq<char>>| strictly_sorted(r) && r.to_set() == s.to_set()
}

/// Two increasing sequences of the same texts are equal.
pub proof fn lemma_strictly_sorted_unique(a: Seq<Seq<char>>, b: Seq<Seq<char>>)
    requires
        strictly_sorted(a),
        strictly_sorted(b),
        a.to_set() == b.to_set(),
    ensures
        a == b,
    decreases a.len(),
{
    if a.len() == 0 {
        if b.len() > 0 {
            assert(b.to_set().contains(b[0]));
        }
        assert(a =~= b);
    } else {
        assert(a.to_set().contains(a[0]));
        assert(b.len() > 0);
        assert(b.to_set().contains(b[0]));
        let j = choose|j: int| 0 <= j < b.len() && b[j] == a[0];
        let i = choose|i: int| 0 <= i < a.len() && a[i] == b[0];
        if j > 0 {
            assert(lex_lt(b[0], b[j]));
            if i > 0 {
                assert(lex_lt(a[0], a[i]));
                lemma_lex_total(a[0], a[i]);
            } else {
                lemma_lex_irreflexive(a[0]);
            }
        }
        assert(a[0] == b[0]);
        let a1 = a.drop_first();
        let b1 = b.drop_first();
        assert forall|t: Seq<char>| #[trigger] a1.to_set().contains(t) == b1.to_set().contains(t) by {
            if a1.contains(t) {
                let k = choose|k: int| 0 <= k < a1.len() && a1[k] == t;
                assert(a[k + 1] == t);
                assert(lex_lt(a[0], a[k + 1]));
                assert(a.contains(t));
                assert(a.to_set().contains(t));
                assert(b.to_set().contains(t));
                assert(b.contains(t));
                let m = choose|m: int| 0 <= m < b.len() && b[m] == t;
                if m == 0 {
                    lemma_lex_irreflexive(t);
                }
                assert(b1[m - 1] == t);
            }
            if b1.contains(t) {
                let k = choose|k: int| 0 <= k < b1.len() && b1[k] == t;
                assert(b[k + 1] == t);
                assert(lex_lt(b[0], b[k + 1]));
                assert(b.contains(t));
                assert(b.to_set().contains(t));
                assert(a.to_set().contains(t));
                assert(a.contains(t));
                let m = choose|m: int| 0 <= m < a.len() && a[m] == t;
                if m == 0 {
                    lemma_lex_irreflexive(t);
                }
                assert(a1[m - 1] == t);
            }
        }
        assert(a1.to_set() =~= b1.to_set());
        lemma_strictly_sorted_unique(a1, b1);
        assert(a =~= seq![a[0]] + a1);
        assert(b =~= seq![b[0]] + b1);
    }
}

/// The distinct strings of `v` in increasing order (what a `BTreeSet` of them yields).
pub fn sorted_unique(v: &Vec<String>) -> (r: Vec<String>)
    ensures
        views(r@) == sort_unique(views(v@)),
        strictly_sorted(views(r@)),
        views(r@).to_set() == views(v@).to_set(),
{
    let mut r: Vec<String> = Vec::new();
    let mut k: usize = 0;
    proof {
        assert(texts(r@) =~= texts(v@.take(0)));
    }
    while k < v.len()
        invariant
            k <= v@.len(),
            strings_strictly_sorted(r@),
            texts(r@) == texts(v@.take(k as int)),
        decreases v@.len() - k,
    {
        insert_unique(&mut r, v[k].clone());
        proof {
            let t = v@.take(k + 1);
            assert forall|x: Seq<char>| #[trigger] texts(t).contains(x) == texts(
                v@.take(k as int),
            ).insert(v@[k as int]@).contains(x) by {
                if texts(t).contains(x) {
                    let j = choose|j: int| 0 <= j < t.len() && t[j]@ == x;
                    if j < k {
                        assert(v@.take(k as int)[j]@ == x);
                    }
                }
                if texts(v@.take(k as int)).contains(x) {
                    let j = choose|j: int| 0 <= j < k && v@.take(k as int)[j]@ == x;
                    assert(t[j]@ == x);
                }
                if x == v@[k as int]@ {
                    assert(t[k as int]@ == x);
                }
            }
            assert(texts(t) =~= texts(v@.take(k as int)).insert(v@[k as int]@));
        }
        k += 1;
    }
    proof {
        assert(v@.take(v@.len() as int) =~= v@);
        lemma_views_order(r@);
        lemma_views_order(v@);
        let w = sort_unique(views(v@));
        assert(strictly_sorted(w) && w.to_set() == views(v@).to_set());
        lemma_strictly_sorted_unique(views(r@), w);
    }
    r
}

} // verus!
