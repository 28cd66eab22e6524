//! `be free of cycles` on slices: the graph of slices whose relevant
//! dependencies lead into other slices, its elementary cycles, and how a cycle reads.

use vstd::prelude::*;
use vstd::string::*;

use super::rules::{all_violations, as_lines, descriptions, relevant_of, violation_lines};
use super::{slice_views, Slice, SliceAssignment, SliceView, SlicesTransformer};
use crate::base::dependency_predicates::DependencyPredicate;
use crate::domain::{Dependency, RustItem, RustItems};
use crate::lang::condition::considered_dependencies;
use crate::lang::events::{event_views, is_blank, is_white, ConditionEvent, CorrespondingObject, SimpleConditionEvent};
use crate::library::cycle_detection::{cycle_views, find_cycles, found_cycles, lemma_found_cycles_flag, some_cycle_left_out, has_edge, is_elementary_cycle, wf_adjacency, DEFAULT_MAX_NUMBER_OF_CYCLES_TO_DETECT};
use crate::order::{lex_lt, str_lt};
use crate::text::{cat, cat3, decimal, decimal_string, join, join_seq, views};

verus! {

/// The number of dependencies listed per edge of a cycle at most.
pub const DEFAULT_MAX_NUMBER_OF_DEPENDENCIES_PER_EDGE: usize = 20;

/// The slice an item named `name` counts to: the last one listing it.
pub open spec fn component_of(ss: Seq<SliceView>, name: Seq<char>) -> Option<int>
    decreases ss.len(),
{
    if ss.len() == 0 {
        None
    } else if ss.last().members.contains(name) {
        Some(ss.len() - 1)
    } else {
        component_of(ss.drop_last(), name)
    }
}

/// The dependencies of `deps` on items of slice `t`.
pub open spec fn leading_to(ss: Seq<SliceView>, t: int, deps: Seq<Dependency>) -> Seq<Dependency>
    decreases deps.len(),
{
    if deps.len() == 0 {
        Seq::empty()
    } else {
        leading_to(ss, t, deps.drop_last()) + if component_of(ss, deps.last().target.full_name@) == Some(t) {
            seq![deps.last()]
        } else {
            Seq::empty()
        }
    }
}

/// The relevant dependencies from slice `o` into slice `t`.
pub open spec fn edge_dependencies(a: SliceAssignment, ignore: DependencyPredicate, all: Seq<RustItem>, ss: Seq<SliceView>, o: int, t: int) -> Seq<Dependency> {
    leading_to(ss, t, relevant_of(a, ignore, all, ss[o]))
}

/// Slice `o` depends on slice `t`.
pub open spec fn slice_edge(a: SliceAssignment, ignore: DependencyPredicate, all: Seq<RustItem>, ss: Seq<SliceView>, o: int, t: int) -> bool {
    edge_dependencies(a, ignore, all, ss, o, t).len() > 0
}

/// The position of the first smallest of the first `n` texts.
pub open spec fn first_min(ds: Seq<Seq<char>>, n: int) -> int
    decreases n,
{
    if n <= 1 {
        0
    } else {
        let m = first_min(ds, n - 1);
        if lex_lt(ds[n - 1], ds[m]) {
            n - 1
        } else {
            m
        }
    }
}

/// The descriptions of the origins along cycle `c`.
pub open spec fn origin_descriptions(ss: Seq<SliceView>, c: Seq<usize>) -> Seq<Seq<char>> {
    c.map_values(|o: usize| ss[o as int].description())
}

/// Position `j` after `start` in a cycle of `k` nodes, for `j <= k`.
pub open spec fn rot(k: int, start: int, j: int) -> int {
    if start + j < k {
        start + j
    } else {
        start + j - k
    }
}

/// The `j`-th edge of `c` after rotating it to start at `start`: its origin and target.
pub open spec fn rotated(c: Seq<usize>, start: int, j: int) -> (int, int) {
    (c[rot(c.len() as int, start, j)] as int, c[rot(c.len() as int, start, j + 1)] as int)
}

/// ` -> ` and a line break indented as far as `Cycle detected: `.
pub open spec fn cycle_separator() -> Seq<char> {
    " -> \n"@ + Seq::new(16, |i: int| ' ')
}

/// The lines on one edge of a cycle: its number, its origin, and at most `max` of its
/// dependencies, followed by how many were left out.
pub open spec fn edge_lines(number: nat, origin: Seq<char>, deps: Seq<Dependency>, max: nat) -> Seq<Seq<char>> {
    let shown = if deps.len() <= max { deps } else { deps.take(max as int) };
    seq!["  "@ + decimal(number) + ". Dependencies of "@ + origin]
        + descriptions(shown).map_values(|d: Seq<char>| "    - "@ + d)
        + if deps.len() > max {
            seq!["    ("@ + decimal((deps.len() - max) as nat) + " further dependencies have been omitted...)"@]
        } else {
            Seq::empty()
        }
}

/// The lines on the first `j` edges of `c` rotated to start at `start`.
pub open spec fn detail_lines(a: SliceAssignment, ignore: DependencyPredicate, all: Seq<RustItem>, ss: Seq<SliceView>, c: Seq<usize>, start: int, j: int, max: nat) -> Seq<Seq<char>>
    decreases j,
{
    if j <= 0 {
        Seq::empty()
    } else {
        let (o, t) = rotated(c, start, j - 1);
        detail_lines(a, ignore, all, ss, c, start, j - 1, max)
            + edge_lines(j as nat, ss[o].description(), edge_dependencies(a, ignore, all, ss, o, t), max)
    }
}

/// How cycle `c` reads: `Cycle detected: ` with the slices along it, starting at the one of
/// the smallest description and back to it, followed by the dependencies of each edge.
pub open spec fn cycle_text(a: SliceAssignment, ignore: DependencyPredicate, all: Seq<RustItem>, ss: Seq<SliceView>, c: Seq<usize>, max: nat) -> Seq<char> {
    let ds = origin_descriptions(ss, c);
    let start = first_min(ds, ds.len() as int);
    let ordered = Seq::new(c.len(), |j: int| ds[rot(c.len() as int, start, j)]);
    "Cycle detected: "@ + join_seq(ordered.push(ordered[0]), cycle_separator()) + "\n"@
        + join_seq(detail_lines(a, ignore, all, ss, c, start, c.len() as int, max), "\n"@)
}

/// The text for a search that stopped at the maximum number of cycles.
pub open spec fn cycles_limit_text(n: nat) -> Seq<char> {
    " >= "@ + decimal(n)
        + " times - the maximum number of cycles to detect has been reached; this limit can be adapted using the `archunit.toml` value `cycles.max_number_to_detect = xxx`"@
}

/// The graph of slices: `adj[o]` lists, in increasing order, the slices `o` depends on.
pub open spec fn slice_graph(a: SliceAssignment, ignore: DependencyPredicate, all: Seq<RustItem>, ss: Seq<SliceView>, adj: Seq<Vec<usize>>) -> bool {
    &&& adj.len() == ss.len()
    &&& wf_adjacency(adj)
    &&& forall|o: int, t: int| 0 <= o < ss.len() && 0 <= t < ss.len() ==> (#[trigger] has_edge(adj, o, t) <==> slice_edge(a, ignore, all, ss, o, t))
}

/// What `be free of cycles` finds: violations reading as the cycles of the slice graph, each
/// elementary cycle once (up to rotation) unless more than the maximum number of them exist,
/// and then the limit text.
pub open spec fn cycle_results(
    a: SliceAssignment,
    ignore: DependencyPredicate,
    all: Seq<RustItem>,
    ss: Seq<SliceView>,
    lines: Seq<Seq<Seq<char>>>,
    information: Option<Seq<char>>,
    max_cycles: nat,
    max_dependencies: nat,
) -> bool {
    exists|adj: Seq<Vec<usize>>, cs: Seq<Seq<usize>>|
        #![trigger slice_graph(a, ignore, all, ss, adj), cs.len()]
        slice_graph(a, ignore, all, ss, adj)
        && cs.len() <= max_cycles
        && (forall|k: int| 0 <= k < cs.len() ==> is_elementary_cycle(adj, #[trigger] cs[k]))
        && found_cycles(adj, cs, max_cycles, information is Some)
        && (information is Some <==> some_cycle_left_out(adj, cs))
        && lines == as_lines(cs.map_values(|c: Seq<usize>| cycle_text(a, ignore, all, ss, c, max_dependencies)))
        && (information is Some ==> cs.len() == max_cycles && information == Some(cycles_limit_text(cs.len())))
}

/// The slice an item named `name` counts to (see [`component_of`]).
fn component_index(ss: &Vec<Slice>, name: &str) -> (r: Option<usize>)
    ensures
        match component_of(slice_views(ss@), name@) {
            Some(k) => r == Some(k as usize) && 0 <= k < ss@.len(),
            None => r is None,
        },
{
    let mut k: usize = ss.len();
    proof {
        assert(slice_views(ss@).take(ss@.len() as int) =~= slice_views(ss@));
    }
    while k > 0
        invariant
            k <= ss@.len(),
            component_of(slice_views(ss@), name@) == component_of(slice_views(ss@).take(k as int), name@),
        decreases k,
    {
        let ghost t = slice_views(ss@).take(k as int);
        proof {
            assert(t.drop_last() =~= slice_views(ss@).take(k - 1));
            assert(t.last() == ss@[k - 1]@);
        }
        if ss[k - 1].contains(name) {
            return Some(k - 1);
        }
        k -= 1;
    }
    None
}

/// The dependencies of `deps` on items of slice `t`.
fn leading_to_of(ss: &Vec<Slice>, t: usize, deps: &Vec<Dependency>) -> (r: Vec<Dependency>)
    ensures
        r@ == leading_to(slice_views(ss@), t as int, deps@),
{
    let mut r: Vec<Dependency> = Vec::new();
    let mut i: usize = 0;
    while i < deps.len()
        invariant
            i <= deps@.len(),
            r@ == leading_to(slice_views(ss@), t as int, deps@.take(i as int)),
        decreases deps@.len() - i,
    {
        proof {
            assert(deps@.take(i + 1).drop_last() =~= deps@.take(i as int));
            assert(deps@.take(i + 1).last() == deps@[i as int]);
        }
        let nm = deps[i].target.full_name.as_str();
        let c = component_index(ss, nm);
        let count = ss.len();
        proof {
            assert(nm@ == deps@[i as int].target.full_name@);
        }
        let hit = match c {
            Some(k) => k == t,
            None => false,
        };
        proof {
            let name = deps@[i as int].target.full_name@;
            match component_of(slice_views(ss@), name) {
                Some(k) => {
                    assert(c == Some(k as usize));
                    assert(0 <= k < ss@.len());
                    assert(count == ss@.len());
                    assert(hit == (k as usize == t));
                },
                None => {
                    assert(c is None);
                    assert(!hit);
                },
            }
            assert(hit == (component_of(slice_views(ss@), name) == Some(t as int)));
        }
        let ghost before = r@;
        if hit {
            r.push(deps[i].copy());
            proof {
                assert(r@ == before + seq![deps@[i as int]]);
            }
        } else {
            proof {
                assert(r@ =~= before + Seq::<Dependency>::empty());
            }
        }
        i += 1;
    }
    proof {
        assert(deps@.take(deps@.len() as int) =~= deps@);
    }
    r
}

/// `n` spaces.
fn spaces(n: usize) -> (r: String)
    ensures
        r@ == Seq::new(n as nat, |i: int| ' '),
{
    let mut r = String::new();
    let mut i: usize = 0;
    while i < n
        invariant
            i <= n,
            r@ == Seq::new(i as nat, |j: int| ' '),
        decreases n - i,
    {
        crate::text::push_char(&mut r, ' ');
        proof {
            assert(r@ =~= Seq::new((i + 1) as nat, |j: int| ' '));
        }
        i += 1;
    }
    r
}

/// The lines on one edge of a cycle (see [`edge_lines`]).
fn edge_lines_of(number: usize, origin: &str, deps: &Vec<Dependency>, max: usize, lines: &mut Vec<String>)
    ensures
        views(final(lines)@) == views(old(lines)@) + edge_lines(number as nat, origin@, deps@, max as nat),
{
    let ghost start = views(lines@);
    let head = cat3("  ", decimal_string(number as u64).as_str(), ". Dependencies of ");
    lines.push(cat(head.as_str(), origin));
    let ghost shown = if deps@.len() <= max { deps@ } else { deps@.take(max as int) };
    let count = if deps.len() <= max { deps.len() } else { max };
    proof {
        assert(views(lines@) =~= start + seq!["  "@ + decimal(number as nat) + ". Dependencies of "@ + origin@]);
        assert(shown.len() == count);
    }
    let mut i: usize = 0;
    while i < count
        invariant
            i <= count,
            count == shown.len(),
            count <= deps@.len(),
            shown == deps@.take(count as int),
            views(lines@) == start + seq!["  "@ + decimal(number as nat) + ". Dependencies of "@ + origin@]
                + descriptions(shown.take(i as int)).map_values(|d: Seq<char>| "    - "@ + d),
        decreases count - i,
    {
        let ghost before = views(lines@);
        lines.push(cat("    - ", deps[i].description.as_str()));
        proof {
            assert(shown[i as int] == deps@[i as int]);
            assert(views(lines@) =~= before.push("    - "@ + deps@[i as int].description@));
            assert(descriptions(shown.take(i + 1)).map_values(|d: Seq<char>| "    - "@ + d)
                =~= descriptions(shown.take(i as int)).map_values(|d: Seq<char>| "    - "@ + d).push("    - "@ + deps@[i as int].description@));
        }
        i += 1;
    }
    proof {
        assert(shown.take(count as int) =~= shown);
    }
    if deps.len() > max {
        let ghost before = views(lines@);
        let omitted = decimal_string((deps.len() - max) as u64);
        lines.push(cat3("    (", omitted.as_str(), " further dependencies have been omitted...)"));
        proof {
            assert(views(lines@) =~= before.push("    ("@ + decimal((deps@.len() - max) as nat) + " further dependencies have been omitted...)"@));
        }
    }
    proof {
        assert(views(lines@) =~= start + edge_lines(number as nat, origin@, deps@, max as nat));
    }
}

/// Whether `deps` has a dependency into each slice, one flag per slice.
fn marks_of(ss: &Vec<Slice>, deps: &Vec<Dependency>) -> (r: Vec<bool>)
    ensures
        r@.len() == ss@.len(),
        forall|t: int| 0 <= t < ss@.len() ==> (#[trigger] r@[t] <==> leading_to(slice_views(ss@), t, deps@).len() > 0),
{
    let n = ss.len();
    let mut marks: Vec<bool> = Vec::new();
    let mut t: usize = 0;
    while t < n
        invariant
            n == ss@.len(),
            t <= n,
            marks@.len() == t,
            forall|x: int| 0 <= x < t ==> !(#[trigger] marks@[x]),
        decreases n - t,
    {
        marks.push(false);
        t += 1;
    }
    let mut i: usize = 0;
    while i < deps.len()
        invariant
            n == ss@.len(),
            marks@.len() == n,
            i <= deps@.len(),
            forall|x: int| 0 <= x < n ==> (#[trigger] marks@[x] <==> leading_to(slice_views(ss@), x, deps@.take(i as int)).len() > 0),
        decreases deps@.len() - i,
    {
        proof {
            assert(deps@.take(i + 1).drop_last() =~= deps@.take(i as int));
            assert(deps@.take(i + 1).last() == deps@[i as int]);
        }
        let nm = deps[i].target.full_name.as_str();
        let c = component_index(ss, nm);
        proof {
            assert(nm@ == deps@[i as int].target.full_name@);
        }
        match c {
            Some(k) => {
                marks.set(k, true);
            },
            None => {},
        }
        i += 1;
    }
    proof {
        assert(deps@.take(deps@.len() as int) =~= deps@);
    }
    marks
}

/// The positions of the set flags, in increasing order.
fn set_positions(marks: &Vec<bool>) -> (r: Vec<usize>)
    ensures
        forall|j: int| 0 <= j < r@.len() ==> #[trigger] r@[j] < marks@.len(),
        forall|x: usize| #[trigger] r@.contains(x) <==> (x < marks@.len() && marks@[x as int]),
{
    let mut r: Vec<usize> = Vec::new();
    let mut t: usize = 0;
    while t < marks.len()
        invariant
            t <= marks@.len(),
            forall|j: int| 0 <= j < r@.len() ==> #[trigger] r@[j] < t,
            forall|x: usize| #[trigger] r@.contains(x) <==> (x < t && marks@[x as int]),
        decreases marks@.len() - t,
    {
        let ghost before = r@;
        if marks[t] {
            r.push(t);
            proof {
                assert forall|x: usize| #[trigger] r@.contains(x) <==> (x < t + 1 && marks@[x as int]) by {
                    if r@.contains(x) {
                        let j = choose|j: int| 0 <= j < r@.len() && r@[j] == x;
                        if j < before.len() {
                            assert(before.contains(x));
                        }
                    }
                    if x < t + 1 && marks@[x as int] {
                        if x < t {
                            assert(before.contains(x));
                            let j = choose|j: int| 0 <= j < before.len() && before[j] == x;
                            assert(r@[j] == x);
                        } else {
                            assert(r@[before.len() as int] == x);
                        }
                    }
                }
            }
        } else {
            proof {
                assert forall|x: usize| #[trigger] r@.contains(x) <==> (x < t + 1 && marks@[x as int]) by {
                    if r@.contains(x) {
                        let j = choose|j: int| 0 <= j < r@.len() && r@[j] == x;
                        assert(r@[j] < t);
                    }
                }
            }
        }
        t += 1;
    }
    r
}

/// The relevant dependencies of each slice and the graph of slices.
fn slice_graph_of(
    assignment: &SliceAssignment,
    ignore: &DependencyPredicate,
    all: &RustItems,
    ss: &Vec<Slice>,
) -> (r: (Vec<Vec<Dependency>>, Vec<Vec<usize>>))
    requires
        assignment.wf(),
        ignore.wf(),
    ensures
        r.0@.len() == ss@.len(),
        forall|o: int| 0 <= o < ss@.len() ==> (#[trigger] r.0@[o])@ == relevant_of(*assignment, *ignore, all.items@, ss@[o]@),
        slice_graph(*assignment, *ignore, all.items@, slice_views(ss@), r.1@),
{
    let ghost sv = slice_views(ss@);
    let mut rel: Vec<Vec<Dependency>> = Vec::new();
    let mut adj: Vec<Vec<usize>> = Vec::new();
    let mut o: usize = 0;
    while o < ss.len()
        invariant
            assignment.wf(),
            ignore.wf(),
            sv == slice_views(ss@),
            o <= ss@.len(),
            rel@.len() == o,
            adj@.len() == o,
            forall|x: int| 0 <= x < o ==> (#[trigger] rel@[x])@ == relevant_of(*assignment, *ignore, all.items@, ss@[x]@),
            forall|x: int, j: int| 0 <= x < o && 0 <= j < adj@[x]@.len() ==> #[trigger] adj@[x]@[j] < ss@.len(),
            forall|x: int, t: int| 0 <= x < o && 0 <= t < ss@.len() ==> ((#[trigger] adj@[x]@.contains(t as usize)) <==> slice_edge(*assignment, *ignore, all.items@, sv, x, t)),
        decreases ss@.len() - o,
    {
        let outgoing = ss[o].dependencies_from_self(assignment, all);
        let relevant = considered_dependencies(&outgoing, ignore, all);
        let marks = marks_of(ss, &relevant);
        let targets = set_positions(&marks);
        proof {
            assert(sv[o as int] == ss@[o as int]@);
            assert forall|t: int| 0 <= t < ss@.len() implies (#[trigger] targets@.contains(t as usize)) <==> slice_edge(*assignment, *ignore, all.items@, sv, o as int, t) by {
                assert(marks@[t] <==> leading_to(sv, t, relevant@).len() > 0);
            }
        }
        rel.push(relevant);
        adj.push(targets);
        o += 1;
    }
    proof {
        assert(wf_adjacency(adj@)) by {
            assert forall|i: int, j: int| 0 <= i < adj@.len() && 0 <= j < adj@[i]@.len() implies adj@[i]@[j] < adj@.len() by {
                assert(adj@[i]@[j] < ss@.len());
            }
        }
        assert forall|x: int, t: int| 0 <= x < sv.len() && 0 <= t < sv.len() implies (#[trigger] has_edge(adj@, x, t) <==> slice_edge(*assignment, *ignore, all.items@, sv, x, t)) by {
            assert(adj@[x]@.contains(t as usize) <==> slice_edge(*assignment, *ignore, all.items@, sv, x, t));
        }
    }
    (rel, adj)
}

/// The position of the first smallest text.
fn first_min_of(ds: &Vec<String>) -> (r: usize)
    requires
        ds@.len() > 0,
    ensures
        r == first_min(views(ds@), ds@.len() as int),
        r < ds@.len(),
{
    let mut m: usize = 0;
    let mut i: usize = 1;
    while i < ds.len()
        invariant
            1 <= i <= ds@.len(),
            m < i,
            m == first_min(views(ds@), i as int),
        decreases ds@.len() - i,
    {
        if str_lt(ds[i].as_str(), ds[m].as_str()) {
            m = i;
        }
        i += 1;
    }
    m
}

/// How cycle `c` reads (see [`cycle_text`]), from the relevant dependencies `rel` and the
/// descriptions `descs` of the slices.
fn cycle_text_of(
    assignment: &SliceAssignment,
    ignore: &DependencyPredicate,
    all: &RustItems,
    ss: &Vec<Slice>,
    rel: &Vec<Vec<Dependency>>,
    descs: &Vec<String>,
    c: &Vec<usize>,
    max_dependencies: usize,
) -> (r: String)
    requires
        c@.len() > 0,
        forall|i: int| 0 <= i < c@.len() ==> #[trigger] c@[i] < ss@.len(),
        rel@.len() == ss@.len(),
        forall|o: int| 0 <= o < ss@.len() ==> (#[trigger] rel@[o])@ == relevant_of(*assignment, *ignore, all.items@, ss@[o]@),
        descs@.len() == ss@.len(),
        forall|o: int| 0 <= o < ss@.len() ==> (#[trigger] descs@[o])@ == ss@[o]@.description(),
    ensures
        r@ == cycle_text(*assignment, *ignore, all.items@, slice_views(ss@), c@, max_dependencies as nat),
{
    let ghost sv = slice_views(ss@);
    let k = c.len();
    let mut ds: Vec<String> = Vec::new();
    let mut j: usize = 0;
    while j < k
        invariant
            k == c@.len(),
            j <= k,
            forall|i: int| 0 <= i < c@.len() ==> #[trigger] c@[i] < ss@.len(),
            descs@.len() == ss@.len(),
            forall|o: int| 0 <= o < ss@.len() ==> (#[trigger] descs@[o])@ == ss@[o]@.description(),
            sv == slice_views(ss@),
            views(ds@) == origin_descriptions(sv, c@).take(j as int),
        decreases k - j,
    {
        let ghost before = ds@;
        ds.push(descs[c[j]].clone());
        proof {
            assert(sv[c@[j as int] as int] == ss@[c@[j as int] as int]@);
            assert(views(ds@) =~= views(before).push(origin_descriptions(sv, c@)[j as int]));
            assert(origin_descriptions(sv, c@).take(j + 1) =~= origin_descriptions(sv, c@).take(j as int).push(origin_descriptions(sv, c@)[j as int]));
        }
        j += 1;
    }
    proof {
        assert(origin_descriptions(sv, c@).take(k as int) =~= origin_descriptions(sv, c@));
    }
    let ghost dv = origin_descriptions(sv, c@);
    let start = first_min_of(&ds);
    let ghost ordered_view = Seq::new(k as nat, |q: int| dv[rot(k as int, start as int, q)]);
    let mut ordered: Vec<String> = Vec::new();
    let mut j: usize = 0;
    while j < k
        invariant
            k == c@.len(),
            k == ds@.len(),
            start < k,
            j <= k,
            views(ds@) == dv,
            ordered_view == Seq::new(k as nat, |q: int| dv[rot(k as int, start as int, q)]),
            views(ordered@) == ordered_view.take(j as int),
        decreases k - j,
    {
        let idx = if j < k - start { start + j } else { j - (k - start) };
        let ghost before = ordered@;
        ordered.push(ds[idx].clone());
        proof {
            assert(idx as int == rot(k as int, start as int, j as int));
            assert(views(ordered@) =~= views(before).push(dv[idx as int]));
            assert(ordered_view.take(j + 1) =~= ordered_view.take(j as int).push(ordered_view[j as int]));
        }
        j += 1;
    }
    proof {
        assert(ordered_view.take(k as int) =~= ordered_view);
    }
    let first = ordered[0].clone();
    let ghost full = views(ordered@);
    ordered.push(first);
    proof {
        assert(views(ordered@) =~= full.push(full[0]));
    }
    let separator = cat(" -> \n", spaces(16).as_str());
    proof {
        assert(separator@ == cycle_separator());
    }
    let headline = join(&ordered, separator.as_str());
    let mut lines: Vec<String> = Vec::new();
    let mut j: usize = 0;
    proof {
        assert(views(lines@) =~= Seq::<Seq<char>>::empty());
    }
    while j < k
        invariant
            k == c@.len(),
            start < k,
            j <= k,
            forall|i: int| 0 <= i < c@.len() ==> #[trigger] c@[i] < ss@.len(),
            rel@.len() == ss@.len(),
            forall|o: int| 0 <= o < ss@.len() ==> (#[trigger] rel@[o])@ == relevant_of(*assignment, *ignore, all.items@, ss@[o]@),
            descs@.len() == ss@.len(),
            forall|o: int| 0 <= o < ss@.len() ==> (#[trigger] descs@[o])@ == ss@[o]@.description(),
            sv == slice_views(ss@),
            views(lines@) == detail_lines(*assignment, *ignore, all.items@, sv, c@, start as int, j as int, max_dependencies as nat),
        decreases k - j,
    {
        let idx = if j < k - start { start + j } else { j - (k - start) };
        let nxt = if idx + 1 < k { idx + 1 } else { 0 };
        proof {
            assert(idx as int == rot(k as int, start as int, j as int));
            assert(nxt as int == rot(k as int, start as int, j + 1));
        }
        let o = c[idx];
        let t = c[nxt];
        let deps = leading_to_of(ss, t, &rel[o]);
        proof {
            assert(sv[o as int] == ss@[o as int]@);
            assert(deps@ == edge_dependencies(*assignment, *ignore, all.items@, sv, o as int, t as int));
        }
        edge_lines_of(j + 1, descs[o].as_str(), &deps, max_dependencies, &mut lines);
        j += 1;
    }
    let details = join(&lines, "\n");
    let mut text = cat3("Cycle detected: ", headline.as_str(), "\n");
    text.append(details.as_str());
    text
}

/// The violations `be free of cycles` finds among the slices `ss`, and the text for a search
/// that stopped at the maximum number of cycles.
pub fn free_of_cycles(
    assignment: &SliceAssignment,
    ignore: &DependencyPredicate,
    all: &RustItems,
    ss: &Vec<Slice>,
    max_cycles: usize,
    max_dependencies: usize,
) -> (r: (Vec<ConditionEvent>, Option<String>))
    requires
        assignment.wf(),
        ignore.wf(),
    ensures
        all_violations(event_views(r.0@)),
        cycle_results(*assignment, *ignore, all.items@, slice_views(ss@), violation_lines(event_views(r.0@)), crate::lang::evaluation::opt_view(r.1), max_cycles as nat, max_dependencies as nat),
{
    let ghost sv = slice_views(ss@);
    let (rel, adj) = slice_graph_of(assignment, ignore, all, ss);
    let mut descs: Vec<String> = Vec::new();
    let mut o: usize = 0;
    while o < ss.len()
        invariant
            o <= ss@.len(),
            descs@.len() == o,
            forall|x: int| 0 <= x < o ==> (#[trigger] descs@[x])@ == ss@[x]@.description(),
        decreases ss@.len() - o,
    {
        descs.push(ss[o].description());
        o += 1;
    }
    let (cycles, reached) = find_cycles(&adj, max_cycles);
    let ghost cs = cycles@.map_values(|v: Vec<usize>| v@);
    let ghost max = max_dependencies as nat;
    let mut events: Vec<ConditionEvent> = Vec::new();
    let mut i: usize = 0;
    while i < cycles.len()
        invariant
            assignment.wf(),
            ignore.wf(),
            i <= cycles@.len(),
            sv == slice_views(ss@),
            max == max_dependencies as nat,
            cs == cycles@.map_values(|v: Vec<usize>| v@),
            slice_graph(*assignment, *ignore, all.items@, sv, adj@),
            forall|x: int| 0 <= x < cycles@.len() ==> is_elementary_cycle(adj@, #[trigger] cycles@[x]@),
            rel@.len() == ss@.len(),
            forall|x: int| 0 <= x < ss@.len() ==> (#[trigger] rel@[x])@ == relevant_of(*assignment, *ignore, all.items@, ss@[x]@),
            descs@.len() == ss@.len(),
            forall|x: int| 0 <= x < ss@.len() ==> (#[trigger] descs@[x])@ == ss@[x]@.description(),
            all_violations(event_views(events@)),
            violation_lines(event_views(events@)) == as_lines(cs.take(i as int).map_values(|c: Seq<usize>| cycle_text(*assignment, *ignore, all.items@, sv, c, max))),
        decreases cycles@.len() - i,
    {
        let c = &cycles[i];
        proof {
            assert(is_elementary_cycle(adj@, c@));
            assert forall|q: int| 0 <= q < c@.len() implies #[trigger] c@[q] < ss@.len() by {
                assert(c@[q] < adj@.len());
            }
        }
        let text = cycle_text_of(assignment, ignore, all, ss, &rel, &descs, c, max_dependencies);
        let ghost tv = text@;
        proof {
            assert(tv == cycle_text(*assignment, *ignore, all.items@, sv, c@, max));
            reveal_strlit("Cycle detected: ");
            assert(text@[0] == 'C');
            assert(!is_white(text@[0]));
        }
        let object = CorrespondingObject::Other(text.clone());
        let e = SimpleConditionEvent::violated(object, text).into_event();
        let ghost before = events@;
        events.push(e);
        proof {
            assert(event_views(events@) =~= event_views(before).push(e@));
            assert(cs.take(i + 1) =~= cs.take(i as int).push(cs[i as int]));
            assert(cs[i as int] == c@);
            assert(violation_lines(event_views(events@)) =~= violation_lines(event_views(before)).push(e@.face.lines));
            assert(cs.take(i + 1).map_values(|c: Seq<usize>| cycle_text(*assignment, *ignore, all.items@, sv, c, max))
                =~= cs.take(i as int).map_values(|c: Seq<usize>| cycle_text(*assignment, *ignore, all.items@, sv, c, max)).push(cycle_text(*assignment, *ignore, all.items@, sv, c@, max)));
            let prev = cs.take(i as int).map_values(|c: Seq<usize>| cycle_text(*assignment, *ignore, all.items@, sv, c, max));
            assert(e@.face.lines == seq![tv]);
            assert(as_lines(prev.push(cycle_text(*assignment, *ignore, all.items@, sv, c@, max))) =~= as_lines(prev).push(seq![cycle_text(*assignment, *ignore, all.items@, sv, c@, max)]));
        }
        i += 1;
    }
    proof {
        assert(cs.take(cycles@.len() as int) =~= cs);
    }
    let information = if reached {
        let count = decimal_string(cycles.len() as u64);
        Some(cat3(" >= ", count.as_str(), " times - the maximum number of cycles to detect has been reached; this limit can be adapted using the `archunit.toml` value `cycles.max_number_to_detect = xxx`"))
    } else {
        None
    };
    proof {
        assert(cs == cycle_views(cycles@));
        assert(found_cycles(adj@, cs, max_cycles as nat, information is Some));
        lemma_found_cycles_flag(adj@, cs, max_cycles as nat, information is Some);
        assert(slice_graph(*assignment, *ignore, all.items@, sv, adj@) && cs.len() == cs.len());
        assert forall|k: int| 0 <= k < cs.len() implies is_elementary_cycle(adj@, #[trigger] cs[k]) by {
            assert(cs[k] == cycles@[k]@);
        }
    }
    (events, information)
}

} // verus!


