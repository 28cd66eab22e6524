//! Cycle detection on directed graphs: every elementary cycle, each once, rotated to start at
//! its smallest node, found from the smallest first node on and depth first along the
//! adjacency lists, up to a maximum number of cycles.

mod counting;
mod search;

use vstd::prelude::*;

use crate::text::{str_eq, views};
use search::{copy_indexes, CycleSearch};

pub use search::{
    all_cycles_among, cycle_views, found_cycles, found_in, lemma_found_cycles_flag, lemma_found_cycles_parts, some_cycle_left_out, has_edge, is_elementary_cycle, is_path, is_rotation_of,
    lemma_minimum_rotation_unique, lemma_rotation_elementary, lemma_rotation_to_minimum, rotation, starts_at_minimum,
    wf_adjacency,
};

verus! {

/// The number of cycles searched for at most, unless configured otherwise.
pub const DEFAULT_MAX_NUMBER_OF_CYCLES_TO_DETECT: usize = 100;

/// Graphs with the same edges have the same elementary cycles.
proof fn lemma_same_edges(a: Seq<Vec<usize>>, b: Seq<Vec<usize>>, c: Seq<usize>)
    requires
        a.len() == b.len(),
        forall|x: int, y: int| #![trigger has_edge(a, x, y)] #![trigger has_edge(b, x, y)] has_edge(a, x, y) == has_edge(b, x, y),
    ensures
        is_elementary_cycle(a, c) == is_elementary_cycle(b, c),
{
    assert(is_path(a, c) == is_path(b, c)) by {
        if is_path(a, c) {
            assert forall|i: int| 0 <= i < c.len() - 1 implies #[trigger] has_edge(b, c[i] as int, c[i + 1] as int) by {
                assert(has_edge(a, c[i] as int, c[i + 1] as int));
            }
        }
        if is_path(b, c) {
            assert forall|i: int| 0 <= i < c.len() - 1 implies #[trigger] has_edge(a, c[i] as int, c[i + 1] as int) by {
                assert(has_edge(b, c[i] as int, c[i + 1] as int));
            }
        }
    }
    if c.len() > 0 {
        assert(has_edge(a, c.last() as int, c[0] as int) == has_edge(b, c.last() as int, c[0] as int));
    }
}

/// Whether `v` holds `x`.
fn holds(v: &Vec<usize>, x: usize) -> (r: bool)
    ensures
        r == v@.contains(x),
{
    let mut i: usize = 0;
    while i < v.len()
        invariant
            i <= v@.len(),
            forall|j: int| 0 <= j < i ==> v@[j] != x,
        decreases v@.len() - i,
    {
        if v[i] == x {
            assert(v@[i as int] == x);
            return true;
        }
        i += 1;
    }
    false
}

/// The entries of `v`, each once, in the order of their first occurrence.
fn without_repeats(v: &Vec<usize>) -> (r: Vec<usize>)
    ensures
        r@.no_duplicates(),
        forall|x: usize| r@.contains(x) <==> v@.contains(x),
{
    let mut r: Vec<usize> = Vec::new();
    let mut j: usize = 0;
    while j < v.len()
        invariant
            j <= v@.len(),
            r@.no_duplicates(),
            forall|x: usize| r@.contains(x) <==> v@.take(j as int).contains(x),
        decreases v@.len() - j,
    {
        let x = v[j];
        let ghost before = r@;
        proof {
            assert forall|y: usize| v@.take(j + 1).contains(y) <==> (v@.take(j as int).contains(y) || y == x) by {
                if v@.take(j + 1).contains(y) {
                    let k = choose|k: int| 0 <= k < j + 1 && #[trigger] v@.take(j + 1)[k] == y;
                    if k < j {
                        assert(v@.take(j as int)[k] == y);
                    }
                }
                if v@.take(j as int).contains(y) {
                    let k = choose|k: int| 0 <= k < j && #[trigger] v@.take(j as int)[k] == y;
                    assert(v@.take(j + 1)[k] == y);
                }
                assert(v@.take(j + 1)[j as int] == x);
            }
        }
        if !holds(&r, x) {
            r.push(x);
            proof {
                assert forall|y: usize| r@.contains(y) <==> (before.contains(y) || y == x) by {
                    if r@.contains(y) {
                        let k = choose|k: int| 0 <= k < r@.len() && r@[k] == y;
                        if k < before.len() {
                            assert(before[k] == y);
                        }
                    }
                    if before.contains(y) {
                        let k = choose|k: int| 0 <= k < before.len() && before[k] == y;
                        assert(r@[k] == y);
                    }
                    assert(r@[before.len() as int] == x);
                }
                assert forall|a: int, b: int| 0 <= a < r@.len() && 0 <= b < r@.len() && a != b implies r@[a] != r@[b] by {
                    if a < before.len() && b < before.len() {
                    } else if a < before.len() {
                        assert(before.contains(r@[a]));
                    } else {
                        assert(before.contains(r@[b]));
                    }
                }
                assert forall|y: usize| r@.contains(y) <==> v@.take(j + 1).contains(y) by {
                    assert(before.contains(y) <==> v@.take(j as int).contains(y));
                    assert(v@.take(j + 1).contains(y) <==> (v@.take(j as int).contains(y) || y == x));
                }
            }
        } else {
            proof {
                assert(r@.contains(x));
                assert forall|y: usize| r@.contains(y) <==> v@.take(j + 1).contains(y) by {
                    assert(r@.contains(y) <==> v@.take(j as int).contains(y));
                    assert(v@.take(j + 1).contains(y) <==> (v@.take(j as int).contains(y) || y == x));
                }
            }
        }
        j += 1;
    }
    proof {
        assert(v@.take(v@.len() as int) =~= v@);
    }
    r
}

/// The graph with each adjacency list without repeated entries.
fn without_repeated_edges(adj: &Vec<Vec<usize>>) -> (r: Vec<Vec<usize>>)
    requires
        wf_adjacency(adj@),
    ensures
        r@.len() == adj@.len(),
        wf_adjacency(r@),
        forall|i: int| 0 <= i < r@.len() ==> (#[trigger] r@[i])@.no_duplicates(),
        forall|x: int, y: int| #![trigger has_edge(r@, x, y)] #![trigger has_edge(adj@, x, y)] has_edge(r@, x, y) == has_edge(adj@, x, y),
{
    let mut r: Vec<Vec<usize>> = Vec::new();
    let mut i: usize = 0;
    while i < adj.len()
        invariant
            i <= adj@.len(),
            r@.len() == i,
            forall|k: int| 0 <= k < i ==> (#[trigger] r@[k])@.no_duplicates(),
            forall|k: int, x: usize| 0 <= k < i ==> (#[trigger] r@[k]@.contains(x) <==> adj@[k]@.contains(x)),
        decreases adj@.len() - i,
    {
        let list = without_repeats(&adj[i]);
        r.push(list);
        i += 1;
    }
    proof {
        assert forall|a: int, j: int| 0 <= a < r@.len() && 0 <= j < r@[a]@.len() implies r@[a]@[j] < r@.len() by {
            assert(r@[a]@.contains(r@[a]@[j]));
            assert(adj@[a]@.contains(r@[a]@[j]));
            let q = choose|q: int| 0 <= q < adj@[a]@.len() && adj@[a]@[q] == r@[a]@[j];
        }
        assert forall|x: int, y: int| #![trigger has_edge(r@, x, y)] #![trigger has_edge(adj@, x, y)] has_edge(r@, x, y) == has_edge(adj@, x, y) by {
            if 0 <= x < r@.len() && 0 <= y < r@.len() {
                assert(r@[x]@.contains(y as usize) == adj@[x]@.contains(y as usize));
            }
        }
    }
    r
}

/// Finds the elementary cycles of the graph given by `adjacency`, at most `max_cycles` of
/// them, each once, rotated to start at its smallest node, from the smallest first node on;
/// the flag tells whether there were more than that maximum, which were not recorded.
pub fn find_cycles(adjacency: &Vec<Vec<usize>>, max_cycles: usize) -> (r: (Vec<Vec<usize>>, bool))
    requires
        wf_adjacency(adjacency@),
    ensures
        found_cycles(adjacency@, cycle_views(r.0@), max_cycles as nat, r.1),
        r.0@.len() <= max_cycles,
        r.1 ==> r.0@.len() == max_cycles,
        r.0@.len() < max_cycles ==> !r.1,
        forall|k: int| 0 <= k < r.0@.len() ==> is_elementary_cycle(adjacency@, #[trigger] r.0@[k]@),
{
    let adj = without_repeated_edges(adjacency);
    let n = adj.len();
    let mut search = CycleSearch {
        max_cycles,
        cycles: Vec::new(),
        max_reached: false,
        path: Vec::new(),
        on_path: bool_vec(n, false),
    };
    let mut s: usize = 0;
    while s < n
        invariant
            n == adj@.len(),
            s <= n,
            search.inv(adj@),
            search.path@.len() == 0,
            forall|x: int| 0 <= x < n ==> !search.on_path@[x],
            search.max_cycles == max_cycles,
            forall|k: int| 0 <= k < search.cycles@.len() ==> (#[trigger] cycle_views(search.cycles@)[k])[0] < s,
            forall|a: int, b: int| 0 <= a < search.cycles@.len() && 0 <= b < search.cycles@.len() && a != b
                ==> #[trigger] cycle_views(search.cycles@)[a] != #[trigger] cycle_views(search.cycles@)[b],
            !search.max_reached ==> forall|c: Seq<usize>| #[trigger] is_elementary_cycle(adj@, c) && starts_at_minimum(c) && c[0] < s
                ==> found_in(cycle_views(search.cycles@), c),
            search.max_reached ==> search::missing_canonical(adj@, cycle_views(search.cycles@)),
            forall|a: int, b: int| 0 <= a < b < search.cycles@.len()
                ==> (#[trigger] cycle_views(search.cycles@)[a])[0] <= (#[trigger] cycle_views(search.cycles@)[b])[0],
        decreases n - s,
    {
        let ghost before = search.cycles@;
        let ghost before_max = search.max_reached;
        search.path.push(s);
        search.on_path.set(s, true);
        proof {
            assert(search.path@ =~= seq![s]);
            assert forall|x: int| 0 <= x < n implies (search.on_path@[x] <==> search.path@.contains(x as usize)) by {
                assert(adj@.len() == adj.len());
                if x == s as int {
                    assert(search.path@[0] == s);
                } else {
                    if search.path@.contains(x as usize) {
                        assert(search.path@[0] == x as usize);
                    }
                }
            }
            assert(search.path_ok(adj@));
            assert forall|k: int| 0 <= k < search.cycles@.len() implies !search::extends_path(#[trigger] cycle_views(search.cycles@)[k], search.path@) by {
                let v = cycle_views(search.cycles@)[k];
                if search::extends_path(v, search.path@) {
                    assert(v.take(1)[0] == v[0]);
                }
            }
        }
        let ghost on_before = search.on_path@;
        search.extend(&adj);
        search.path.pop();
        search.on_path.set(s, false);
        proof {
            let vs = cycle_views(search.cycles@);
            let vb = cycle_views(before);
            assert(search.path@ =~= Seq::<usize>::empty());
            assert forall|k: int| 0 <= k < before.len() implies #[trigger] vs[k] == vb[k] by {
                assert(search.cycles@[k] == before[k]);
            }
            assert forall|k: int| before.len() <= k < search.cycles@.len() implies vs[k][0] == s by {
                assert(search::extends_path(vs[k], seq![s]));
                assert(vs[k].take(1)[0] == vs[k][0]);
            }
            assert forall|k: int| 0 <= k < search.cycles@.len() implies (#[trigger] cycle_views(search.cycles@)[k])[0] < s + 1 by {
                if k < before.len() {
                    assert(vs[k] == vb[k]);
                } else {
                    assert(vs[k][0] == s);
                }
            }
            assert forall|a: int, b: int| 0 <= a < search.cycles@.len() && 0 <= b < search.cycles@.len() && a != b
                implies #[trigger] cycle_views(search.cycles@)[a] != #[trigger] cycle_views(search.cycles@)[b] by {
                if a < before.len() && b < before.len() {
                    assert(vs[a] == vb[a]);
                    assert(vs[b] == vb[b]);
                } else if a < before.len() {
                    assert(vs[a] == vb[a]);
                    assert(vs[b][0] == s);
                } else if b < before.len() {
                    assert(vs[b] == vb[b]);
                    assert(vs[a][0] == s);
                }
            }
            assert forall|a: int, b: int| 0 <= a < b < search.cycles@.len()
                implies (#[trigger] cycle_views(search.cycles@)[a])[0] <= (#[trigger] cycle_views(search.cycles@)[b])[0] by {
                if b < before.len() {
                    assert(vs[a] == vb[a]);
                    assert(vs[b] == vb[b]);
                } else if a < before.len() {
                    assert(vs[a] == vb[a]);
                    assert(vs[b][0] == s);
                } else {
                    assert(vs[a][0] == s);
                    assert(vs[b][0] == s);
                }
            }
            if search.max_reached && before_max {
                assert(search.cycles@ == before);
                assert(vs =~= vb);
            }
            if !search.max_reached {
                assert(!before_max);
                assert forall|c: Seq<usize>| #[trigger] is_elementary_cycle(adj@, c) && starts_at_minimum(c) && c[0] < s + 1
                    implies found_in(cycle_views(search.cycles@), c) by {
                    if c[0] == s {
                        let ext = c.skip(1);
                        assert(seq![s] + ext =~= c);
                        assert(search::completes(adj@, seq![s], ext));
                    } else {
                        let k = choose|k: int| 0 <= k < vb.len() && #[trigger] vb[k] == c;
                        assert(vs[k] == vb[k]);
                    }
                }
            }
        }
        s += 1;
    }
    let ghost cs = cycle_views(search.cycles@);
    proof {
        reveal(found_cycles);
        assert forall|c: Seq<usize>| is_elementary_cycle(adjacency@, c) == is_elementary_cycle(adj@, c) by {
            lemma_same_edges(adjacency@, adj@, c);
        }
        assert forall|a: int, b: int| 0 <= a < cs.len() && 0 <= b < cs.len() && a != b implies !is_rotation_of(#[trigger] cs[a], #[trigger] cs[b]) by {
            if is_rotation_of(cs[a], cs[b]) {
                lemma_minimum_rotation_unique(cs[a], cs[b]);
            }
        }
        if search.max_reached {
            let c = choose|c: Seq<usize>| #[trigger] is_elementary_cycle(adj@, c) && starts_at_minimum(c) && !found_in(cs, c);
            assert(is_elementary_cycle(adjacency@, c));
            assert forall|k: int| 0 <= k < cs.len() implies !is_rotation_of(#[trigger] cs[k], c) by {
                if is_rotation_of(cs[k], c) {
                    lemma_minimum_rotation_unique(cs[k], c);
                    assert(found_in(cs, c));
                }
            }
            assert(search::some_cycle_left_out(adjacency@, cs));
        } else {
            if search::some_cycle_left_out(adjacency@, cs) {
                let c = choose|c: Seq<usize>| #[trigger] is_elementary_cycle(adjacency@, c)
                    && forall|k: int| 0 <= k < cs.len() ==> !is_rotation_of(#[trigger] cs[k], c);
                let m = lemma_rotation_to_minimum(adj@, c);
                let k = choose|k: int| 0 <= k < cs.len() && #[trigger] cs[k] == rotation(c, m);
                assert(is_rotation_of(cs[k], c));
            }
        }
        if !search.max_reached {
            assert forall|c: Seq<usize>| #[trigger] is_elementary_cycle(adjacency@, c)
                implies exists|k: int| 0 <= k < cs.len() && is_rotation_of(#[trigger] cs[k], c) by {
                let m = lemma_rotation_to_minimum(adj@, c);
                let canonical = rotation(c, m);
                assert(canonical[0] < n) by {
                    assert(canonical.len() > 0);
                }
                let k = choose|k: int| 0 <= k < cs.len() && #[trigger] cs[k] == canonical;
                assert(is_rotation_of(cs[k], c));
            }
        }
        assert forall|k: int| 0 <= k < search.cycles@.len() implies is_elementary_cycle(adjacency@, #[trigger] search.cycles@[k]@) by {
            assert(cs[k] == search.cycles@[k]@);
        }
    }
    (search.cycles, search.max_reached)
}

/// `n` copies of `value`.
fn bool_vec(n: usize, value: bool) -> (r: Vec<bool>)
    ensures
        r@.len() == n,
        forall|i: int| 0 <= i < n ==> r@[i] == value,
{
    let mut r: Vec<bool> = Vec::new();
    let mut i: usize = 0;
    while i < n
        invariant
            i <= n,
            r@.len() == i,
            forall|j: int| 0 <= j < i ==> r@[j] == value,
        decreases n - i,
    {
        r.push(value);
        i += 1;
    }
    r
}

/// `n` empty lists.
fn empty_lists(n: usize) -> (r: Vec<Vec<usize>>)
    ensures
        r@.len() == n,
        forall|i: int| 0 <= i < n ==> r@[i]@.len() == 0,
{
    let mut r: Vec<Vec<usize>> = Vec::new();
    let mut i: usize = 0;
    while i < n
        invariant
            i <= n,
            r@.len() == i,
            forall|j: int| 0 <= j < i ==> r@[j]@.len() == 0,
        decreases n - i,
    {
        r.push(Vec::new());
        i += 1;
    }
    r
}

/// A directed edge between two named nodes.
#[derive(Debug)]
pub struct SimpleEdge {
    pub origin: String,
    pub target: String,
}

impl SimpleEdge {
    /// Creates an edge.
    pub fn new(origin: &str, target: &str) -> (r: SimpleEdge)
        ensures
            r.origin@ == origin@,
            r.target@ == target@,
    {
        SimpleEdge { origin: String::from_str(origin), target: String::from_str(target) }
    }

    /// A copy of this edge.
    pub fn copy(&self) -> (r: SimpleEdge)
        ensures
            r == *self,
    {
        SimpleEdge { origin: self.origin.clone(), target: self.target.clone() }
    }
}

/// A cycle: a closed path of edges (`Cycle<EDGE>`).
#[derive(Debug)]
pub struct Cycle {
    pub edges: Vec<SimpleEdge>,
}

impl Cycle {
    /// The edges in order; the last edge's target is the first edge's origin.
    pub fn edges(&self) -> (r: &[SimpleEdge])
        ensures
            r@ == self.edges@,
    {
        self.edges.as_slice()
    }
}

/// The cycles found in a graph (`Cycles<EDGE>`).
#[derive(Debug)]
pub struct Cycles {
    pub cycles: Vec<Cycle>,
    pub max_number_of_cycles_reached: bool,
}

impl Cycles {
    /// The cycles, in the order they were found.
    pub fn iter(&self) -> (r: &[Cycle])
        ensures
            r@ == self.cycles@,
    {
        self.cycles.as_slice()
    }

    /// The number of cycles found.
    pub fn len(&self) -> (r: usize)
        ensures
            r == self.cycles@.len(),
    {
        self.cycles.len()
    }

    /// Whether no cycle was found.
    pub fn is_empty(&self) -> (r: bool)
        ensures
            r == (self.cycles@.len() == 0),
    {
        self.cycles.len() == 0
    }

    /// Whether the search stopped because the maximum number of cycles was reached.
    pub fn max_number_of_cycles_reached(&self) -> (r: bool)
        ensures
            r == self.max_number_of_cycles_reached,
    {
        self.max_number_of_cycles_reached
    }
}

/// `c` is a cycle through the graph: every edge is one of `edges`, each edge ends where the
/// next one starts, the last one ends where the first one starts, and no node is left twice.
pub open spec fn is_cycle_of(edges: Seq<SimpleEdge>, c: Seq<SimpleEdge>) -> bool {
    &&& c.len() > 0
    &&& forall|i: int| 0 <= i < c.len() ==> edges.contains(#[trigger] c[i])
    &&& forall|i: int| 0 <= i < c.len() - 1 ==> (#[trigger] c[i]).target@ == c[i + 1].origin@
    &&& c.last().target@ == c[0].origin@
    &&& forall|i: int, j: int| 0 <= i < c.len() && 0 <= j < c.len() && i != j ==> c[i].origin@ != c[j].origin@
}

/// Every edge connects two of the nodes.
pub open spec fn edges_within(nodes: Seq<String>, edges: Seq<SimpleEdge>) -> bool {
    forall|i: int| 0 <= i < edges.len() ==> (exists|a: int| 0 <= a < nodes.len() && nodes[a]@ == (#[trigger] edges[i]).origin@)
        && (exists|b: int| 0 <= b < nodes.len() && nodes[b]@ == edges[i].target@)
}

/// Some string of `v` has the view `name`.
pub open spec fn has_name(v: Seq<String>, name: Seq<char>) -> bool {
    exists|a: int| 0 <= a < v.len() && v[a]@ == name
}

/// The position of the first node named `name`.
fn position_of(nodes: &Vec<String>, name: &str) -> (r: Option<usize>)
    ensures
        r matches Some(i) ==> i < nodes@.len() && nodes@[i as int]@ == name@
            && forall|j: int| 0 <= j < i ==> nodes@[j]@ != name@,
        r is None ==> forall|j: int| 0 <= j < nodes@.len() ==> nodes@[j]@ != name@,
{
    let mut i: usize = 0;
    while i < nodes.len()
        invariant
            i <= nodes@.len(),
            forall|j: int| 0 <= j < i ==> nodes@[j]@ != name@,
        decreases nodes@.len() - i,
    {
        if str_eq(nodes[i].as_str(), name) {
            return Some(i);
        }
        i += 1;
    }
    None
}

/// The edges of `c` as pairs of origin and target names.
pub open spec fn edge_views(c: Seq<SimpleEdge>) -> Seq<(Seq<char>, Seq<char>)> {
    c.map_values(|e: SimpleEdge| (e.origin@, e.target@))
}

/// Every cycle through `edges` is, up to rotation, one of `cycles`.
pub open spec fn finds_all_cycles(edges: Seq<SimpleEdge>, cycles: Seq<Cycle>) -> bool {
    forall|ec: Seq<SimpleEdge>| #[trigger] is_cycle_of(edges, ec)
        ==> exists|k: int| 0 <= k < cycles.len() && is_rotation_of(edge_views(#[trigger] cycles[k].edges@), edge_views(ec))
}

/// No two of `cycles` are rotations of each other.
pub open spec fn no_rotated_repeats(cycles: Seq<Cycle>) -> bool {
    forall|a: int, b: int| 0 <= a < cycles.len() && 0 <= b < cycles.len() && a != b
        ==> !is_rotation_of(edge_views(#[trigger] cycles[a].edges@), edge_views(#[trigger] cycles[b].edges@))
}

/// The position after `x` in a cycle of `n`.
pub open spec fn next_position(x: int, n: int) -> int {
    if x + 1 < n { x + 1 } else { 0 }
}

/// The edges `ce` run along the nodes `raw`, named by `names`, and back to the first.
pub open spec fn edges_follow(ce: Seq<SimpleEdge>, raw: Seq<usize>, names: Seq<String>) -> bool {
    &&& ce.len() == raw.len()
    &&& forall|p: int| 0 <= p < ce.len() ==> (#[trigger] ce[p]).origin@ == names[raw[p] as int]@
        && ce[p].target@ == names[raw[next_position(p, ce.len() as int)] as int]@
}

/// Distinct positions of `names` hold distinct names.
pub open spec fn unique_names(names: Seq<String>) -> bool {
    forall|a: int, b: int| 0 <= a < b < names.len() ==> names[a]@ != names[b]@
}

/// `index` gives, for each edge, the positions of its origin and target among `names`, and
/// the graph `adj` has the edge between them.
pub open spec fn indexed_edges(edges: Seq<SimpleEdge>, names: Seq<String>, index: Seq<(usize, usize)>, adj: Seq<Vec<usize>>) -> bool {
    &&& index.len() == edges.len()
    &&& forall|e: int| 0 <= e < edges.len() ==> (#[trigger] index[e]).0 < names.len() && index[e].1 < names.len()
        && names[index[e].0 as int]@ == edges[e].origin@ && names[index[e].1 as int]@ == edges[e].target@
        && has_edge(adj, index[e].0 as int, index[e].1 as int)
}

/// The position in `names` of the name `name`.
spec fn position_of_name(names: Seq<String>, name: Seq<char>) -> int {
    choose|a: int| 0 <= a < names.len() && names[a]@ == name
}

/// A cycle through the edges is an elementary cycle of the graph, along the positions of its
/// origins.
proof fn lemma_node_cycle(edges: Seq<SimpleEdge>, names: Seq<String>, index: Seq<(usize, usize)>, adj: Seq<Vec<usize>>, ec: Seq<SimpleEdge>) -> (c: Seq<usize>)
    requires
        indexed_edges(edges, names, index, adj),
        unique_names(names),
        names.len() == adj.len(),
        names.len() <= usize::MAX,
        is_cycle_of(edges, ec),
    ensures
        is_elementary_cycle(adj, c),
        c.len() == ec.len(),
        forall|i: int| 0 <= i < c.len() ==> names[#[trigger] c[i] as int]@ == ec[i].origin@,
{
    let n = ec.len() as int;
    assert forall|i: int| 0 <= i < n implies exists|a: int| 0 <= a < names.len() && names[a]@ == (#[trigger] ec[i]).origin@ by {
        assert(edges.contains(ec[i]));
        let e = choose|e: int| 0 <= e < edges.len() && edges[e] == ec[i];
        assert(index[e].0 < names.len());
    }
    let c = Seq::new(n as nat, |i: int| position_of_name(names, ec[i].origin@) as usize);
    assert forall|i: int| 0 <= i < n implies names[#[trigger] c[i] as int]@ == ec[i].origin@ && c[i] < adj.len() by {
        assert(exists|a: int| 0 <= a < names.len() && names[a]@ == ec[i].origin@);
        let a = position_of_name(names, ec[i].origin@);
        assert(0 <= a < names.len() && names[a]@ == ec[i].origin@);
        assert(c[i] == a as usize);
        assert(a as usize as int == a);
    }
    // the edge from position `i` of the cycle to position `j`
    assert forall|i: int| 0 <= i < n implies #[trigger] has_edge(adj, c[i] as int, c[next_position(i, n)] as int) by {
        let j = next_position(i, n);
        assert(edges.contains(ec[i]));
        let e = choose|e: int| 0 <= e < edges.len() && edges[e] == ec[i];
        assert(names[index[e].0 as int]@ == names[c[i] as int]@);
        assert(names[index[e].1 as int]@ == ec[i].target@);
        if i + 1 < n {
            assert(ec[i].target@ == ec[i + 1].origin@);
        }
        assert(ec[i].target@ == ec[j].origin@);
        assert(names[index[e].1 as int]@ == names[c[j] as int]@);
        if index[e].0 != c[i] {
            if index[e].0 < c[i] {
                assert(names[index[e].0 as int]@ != names[c[i] as int]@);
            } else {
                assert(names[c[i] as int]@ != names[index[e].0 as int]@);
            }
        }
        if index[e].1 != c[j] {
            if index[e].1 < c[j] {
                assert(names[index[e].1 as int]@ != names[c[j] as int]@);
            } else {
                assert(names[c[j] as int]@ != names[index[e].1 as int]@);
            }
        }
    }
    assert forall|i: int| 0 <= i < c.len() - 1 implies #[trigger] has_edge(adj, c[i] as int, c[i + 1] as int) by {
        assert(has_edge(adj, c[i] as int, c[next_position(i, n)] as int));
    }
    assert(has_edge(adj, c[n - 1] as int, c[next_position(n - 1, n)] as int));
    assert forall|a: int, b: int| 0 <= a < n && 0 <= b < n && a != b implies c[a] != c[b] by {
        assert(ec[a].origin@ != ec[b].origin@);
    }
    c
}

/// Edges that follow a rotation of the node cycle of `ec` are that rotation of `ec`.
proof fn lemma_edges_rotate(ec: Seq<SimpleEdge>, c: Seq<usize>, raw: Seq<usize>, ce: Seq<SimpleEdge>, names: Seq<String>, j: int)
    requires
        ec.len() > 0,
        c.len() == ec.len(),
        forall|i: int| 0 <= i < c.len() ==> names[#[trigger] c[i] as int]@ == ec[i].origin@,
        forall|i: int| 0 <= i < ec.len() - 1 ==> (#[trigger] ec[i]).target@ == ec[i + 1].origin@,
        ec.last().target@ == ec[0].origin@,
        0 <= j < c.len(),
        raw == rotation(c, j),
        edges_follow(ce, raw, names),
    ensures
        edge_views(ce) == rotation(edge_views(ec), j),
{
    let n = c.len() as int;
    let ev = edge_views(ec);
    assert forall|q: int| 0 <= q < n implies #[trigger] edge_views(ce)[q] == rotation(ev, j)[q] by {
        let x = if q < n - j { q + j } else { q - (n - j) };
        assert(raw[q] == c[x]);
        assert(rotation(ev, j)[q] == ev[x]);
        let y = next_position(x, n);
        let qn = next_position(q, n);
        let z = if qn < n - j { qn + j } else { qn - (n - j) };
        assert(z == y);
        assert(raw[qn] == c[y]);
        assert(ce[q].origin@ == ec[x].origin@);
        if x + 1 < n {
            assert(ec[x].target@ == ec[x + 1].origin@);
        }
        assert(ce[q].target@ == ec[x].target@);
    }
    assert(edge_views(ce) =~= rotation(ev, j));
}

/// Edge cycles that follow node cycles are rotations of each other only when the node cycles
/// are.
proof fn lemma_rotation_of_nodes(ca: Seq<SimpleEdge>, ra: Seq<usize>, cb: Seq<SimpleEdge>, rb: Seq<usize>, names: Seq<String>)
    requires
        edges_follow(ca, ra, names),
        edges_follow(cb, rb, names),
        unique_names(names),
        forall|i: int| 0 <= i < ra.len() ==> #[trigger] ra[i] < names.len(),
        forall|i: int| 0 <= i < rb.len() ==> #[trigger] rb[i] < names.len(),
        is_rotation_of(edge_views(ca), edge_views(cb)),
    ensures
        is_rotation_of(ra, rb),
{
    let t = choose|t: int| 0 <= t < edge_views(cb).len() && edge_views(ca) == #[trigger] rotation(edge_views(cb), t);
    let n = rb.len() as int;
    assert(edge_views(ca).len() == ca.len());
    assert(edge_views(cb).len() == cb.len());
    assert(rotation(edge_views(cb), t).len() == cb.len());
    assert(ca.len() == n);
    assert forall|q: int| 0 <= q < n implies #[trigger] ra[q] == rotation(rb, t)[q] by {
        let x = if q < n - t { q + t } else { q - (n - t) };
        assert(edge_views(ca)[q] == rotation(edge_views(cb), t)[q]);
        assert(rotation(edge_views(cb), t)[q] == edge_views(cb)[x]);
        assert(ca[q].origin@ == cb[x].origin@);
        assert(names[ra[q] as int]@ == names[rb[x] as int]@);
        assert(rotation(rb, t)[q] == rb[x]);
        if ra[q] != rb[x] {
            if ra[q] < rb[x] {
                assert(names[ra[q] as int]@ != names[rb[x] as int]@);
            } else {
                assert(names[rb[x] as int]@ != names[ra[q] as int]@);
            }
        }
    }
    assert(ra =~= rotation(rb, t));
}

/// The names of `s`, each once, in the order of their first occurrence.
pub open spec fn first_seen(s: Seq<Seq<char>>) -> Seq<Seq<char>>
    decreases s.len(),
{
    if s.len() == 0 {
        Seq::empty()
    } else {
        let d = first_seen(s.drop_last());
        if d.contains(s.last()) {
            d
        } else {
            d.push(s.last())
        }
    }
}

/// The position of `name` in `order`.
pub open spec fn rank(order: Seq<Seq<char>>, name: Seq<char>) -> int {
    choose|i: int| 0 <= i < order.len() && order[i] == name
}

/// The first edge of `ce` leaves the node of `ce` that comes first in `order`.
pub open spec fn starts_at_first_node(order: Seq<Seq<char>>, ce: Seq<SimpleEdge>) -> bool {
    &&& ce.len() > 0
    &&& forall|p: int| 1 <= p < ce.len() ==> rank(order, ce[0].origin@) < rank(order, (#[trigger] ce[p]).origin@)
}

/// Some cycle through `edges` is, in none of its rotations, among `cycles`.
pub open spec fn cycle_left_out(edges: Seq<SimpleEdge>, cycles: Seq<Cycle>) -> bool {
    exists|ec: Seq<SimpleEdge>| #[trigger] is_cycle_of(edges, ec)
        && forall|k: int| 0 <= k < cycles.len() ==> !is_rotation_of(edge_views(#[trigger] cycles[k].edges@), edge_views(ec))
}

/// What the detector finds among `nodes` and `edges` with at most `max` cycles: cycles through
/// the edges, no two of them rotations of each other, each starting with the edge that leaves
/// its node named first among the nodes, ordered by that node; the flag is set exactly when
/// some cycle was left out, and then `max` were found; where it is not set, every cycle is
/// among them.
pub open spec fn detected(nodes: Seq<String>, edges: Seq<SimpleEdge>, cycles: Seq<Cycle>, max: nat, reached: bool) -> bool {
    let order = first_seen(views(nodes));
    &&& cycles.len() <= max
    &&& reached ==> cycles.len() == max
    &&& reached <==> cycle_left_out(edges, cycles)
    &&& !reached ==> finds_all_cycles(edges, cycles)
    &&& no_rotated_repeats(cycles)
    &&& forall|k: int| 0 <= k < cycles.len() ==> is_cycle_of(edges, (#[trigger] cycles[k]).edges@)
        && starts_at_first_node(order, cycles[k].edges@)
    &&& forall|a: int, b: int| 0 <= a < b < cycles.len()
        ==> rank(order, (#[trigger] cycles[a]).edges@[0].origin@) <= rank(order, (#[trigger] cycles[b]).edges@[0].origin@)
}

/// In a sequence without repeats, the rank of an entry is its position.
proof fn lemma_rank_of_unique(order: Seq<Seq<char>>, i: int)
    requires
        0 <= i < order.len(),
        forall|a: int, b: int| 0 <= a < b < order.len() ==> order[a] != order[b],
    ensures
        rank(order, order[i]) == i,
{
    let r = rank(order, order[i]);
    assert(0 <= r < order.len() && order[r] == order[i]);
    if r < i {
        assert(order[r] != order[i]);
    } else if r > i {
        assert(order[i] != order[r]);
    }
}

/// What holds of the detector's graph, names, edge positions and node cycles.
pub open spec fn detection_facts(nodes: Seq<String>, edges: Seq<SimpleEdge>, names: Seq<String>, index: Seq<(usize, usize)>, adj: Seq<Vec<usize>>, raws: Seq<Seq<usize>>, cycles: Seq<Cycle>) -> bool {
    &&& views(names) == first_seen(views(nodes))
    &&& unique_names(names)
    &&& names.len() == adj.len()
    &&& names.len() <= usize::MAX
    &&& indexed_edges(edges, names, index, adj)
    &&& forall|a: int, b: int| has_edge(adj, a, b) ==> exists|e: int| 0 <= e < edges.len() && #[trigger] index[e] == (a as usize, b as usize)
    &&& cycles.len() == raws.len()
    &&& forall|q: int| 0 <= q < cycles.len() ==> edges_follow((#[trigger] cycles[q]).edges@, raws[q], names)
    &&& forall|q: int| 0 <= q < cycles.len() ==> is_cycle_of(edges, (#[trigger] cycles[q]).edges@)
}

/// An edge from the node at position `a` to the one at position `b`.
spec fn edge_at(edges: Seq<SimpleEdge>, index: Seq<(usize, usize)>, a: usize, b: usize) -> SimpleEdge {
    edges[choose|e: int| 0 <= e < edges.len() && #[trigger] index[e] == (a, b)]
}

/// The edge from `a` to `b`, where there is one, is an edge named after its ends.
proof fn lemma_edge_at(edges: Seq<SimpleEdge>, names: Seq<String>, index: Seq<(usize, usize)>, adj: Seq<Vec<usize>>, a: usize, b: usize)
    requires
        indexed_edges(edges, names, index, adj),
        exists|e: int| 0 <= e < edges.len() && #[trigger] index[e] == (a, b),
    ensures
        edges.contains(edge_at(edges, index, a, b)),
        edge_at(edges, index, a, b).origin@ == names[a as int]@,
        edge_at(edges, index, a, b).target@ == names[b as int]@,
{
    let e = choose|e: int| 0 <= e < edges.len() && #[trigger] index[e] == (a, b);
    assert(index[e].0 < names.len());
}

/// The edge cycle along a node cycle, through the first edge between each two nodes.
#[verifier::rlimit(40)]
proof fn lemma_edge_cycle(edges: Seq<SimpleEdge>, names: Seq<String>, index: Seq<(usize, usize)>, adj: Seq<Vec<usize>>, c: Seq<usize>) -> (ec: Seq<SimpleEdge>)
    requires
        unique_names(names),
        names.len() == adj.len(),
        indexed_edges(edges, names, index, adj),
        forall|a: int, b: int| has_edge(adj, a, b) ==> exists|e: int| 0 <= e < edges.len() && #[trigger] index[e] == (a as usize, b as usize),
        is_elementary_cycle(adj, c),
    ensures
        is_cycle_of(edges, ec),
        edges_follow(ec, c, names),
{
    let n = c.len() as int;
    let ec = Seq::new(n as nat, |i: int| edge_at(edges, index, c[i], c[next_position(i, n)]));
    assert forall|i: int| 0 <= i < n implies edges.contains(#[trigger] ec[i]) && ec[i].origin@ == names[c[i] as int]@
        && ec[i].target@ == names[c[next_position(i, n)] as int]@ by {
        let j = next_position(i, n);
        if i + 1 < n {
            assert(has_edge(adj, c[i] as int, c[i + 1] as int));
        }
        assert(has_edge(adj, c[i] as int, c[j] as int));
        assert(c[i] as int as usize == c[i] && c[j] as int as usize == c[j]);
        lemma_edge_at(edges, names, index, adj, c[i], c[j]);
    }
    assert forall|i: int| 0 <= i < ec.len() - 1 implies (#[trigger] ec[i]).target@ == ec[i + 1].origin@ by {
        assert(next_position(i, n) == i + 1);
        assert(edges.contains(ec[i]));
        assert(edges.contains(ec[i + 1]));
    }
    assert(ec.last().target@ == ec[0].origin@) by {
        assert(next_position(n - 1, n) == 0);
        assert(edges.contains(ec[n - 1]));
        assert(edges.contains(ec[0]));
    }
    assert forall|i: int, j: int| 0 <= i < ec.len() && 0 <= j < ec.len() && i != j implies ec[i].origin@ != ec[j].origin@ by {
        assert(edges.contains(ec[i]));
        assert(edges.contains(ec[j]));
        assert(c[i] != c[j]);
        assert(c[i] < names.len() && c[j] < names.len());
        if c[i] < c[j] {
            assert(names[c[i] as int]@ != names[c[j] as int]@);
        } else {
            assert(names[c[j] as int]@ != names[c[i] as int]@);
        }
    }
    assert forall|i: int| 0 <= i < ec.len() implies edges.contains(#[trigger] ec[i]) by {}
    assert forall|p: int| 0 <= p < ec.len() implies (#[trigger] ec[p]).origin@ == names[c[p] as int]@
        && ec[p].target@ == names[c[next_position(p, ec.len() as int)] as int]@ by {
        assert(edges.contains(ec[p]));
    }
    ec
}

/// Where the search left a node cycle out, a cycle through the edges was left out.
proof fn lemma_flag_forward(edges: Seq<SimpleEdge>, names: Seq<String>, index: Seq<(usize, usize)>, adj: Seq<Vec<usize>>, raws: Seq<Seq<usize>>, cycles: Seq<Cycle>)
    requires
        unique_names(names),
        names.len() == adj.len(),
        indexed_edges(edges, names, index, adj),
        forall|a: int, b: int| has_edge(adj, a, b) ==> exists|e: int| 0 <= e < edges.len() && #[trigger] index[e] == (a as usize, b as usize),
        cycles.len() == raws.len(),
        forall|q: int| 0 <= q < cycles.len() ==> edges_follow((#[trigger] cycles[q]).edges@, raws[q], names),
        forall|q: int| 0 <= q < raws.len() ==> is_elementary_cycle(adj, #[trigger] raws[q]),
        search::some_cycle_left_out(adj, raws),
    ensures
        cycle_left_out(edges, cycles),
{
    let c = choose|c: Seq<usize>| #[trigger] is_elementary_cycle(adj, c)
        && forall|k: int| 0 <= k < raws.len() ==> !is_rotation_of(#[trigger] raws[k], c);
    let ec = lemma_edge_cycle(edges, names, index, adj, c);
    assert forall|k: int| 0 <= k < cycles.len() implies !is_rotation_of(edge_views(#[trigger] cycles[k].edges@), edge_views(ec)) by {
        if is_rotation_of(edge_views(cycles[k].edges@), edge_views(ec)) {
            assert(edges_follow(cycles[k].edges@, raws[k], names));
            assert(is_elementary_cycle(adj, raws[k]));
            assert(forall|i: int| 0 <= i < raws[k].len() ==> #[trigger] raws[k][i] < names.len());
            assert(forall|i: int| 0 <= i < c.len() ==> #[trigger] c[i] < names.len());
            lemma_rotation_of_nodes(cycles[k].edges@, raws[k], ec, c, names);
            assert(!is_rotation_of(raws[k], c));
        }
    }
    assert(is_cycle_of(edges, ec));
}

/// Where every node cycle was found, every cycle through the edges was.
proof fn lemma_flag_backward(edges: Seq<SimpleEdge>, names: Seq<String>, index: Seq<(usize, usize)>, adj: Seq<Vec<usize>>, raws: Seq<Seq<usize>>, cycles: Seq<Cycle>)
    requires
        unique_names(names),
        names.len() == adj.len(),
        names.len() <= usize::MAX,
        indexed_edges(edges, names, index, adj),
        cycles.len() == raws.len(),
        forall|q: int| 0 <= q < cycles.len() ==> edges_follow((#[trigger] cycles[q]).edges@, raws[q], names),
        all_cycles_among(adj, raws),
    ensures
        finds_all_cycles(edges, cycles),
        !cycle_left_out(edges, cycles),
{
    assert forall|ec: Seq<SimpleEdge>| #[trigger] is_cycle_of(edges, ec)
        implies exists|k: int| 0 <= k < cycles.len() && is_rotation_of(edge_views(#[trigger] cycles[k].edges@), edge_views(ec)) by {
        let nc = lemma_node_cycle(edges, names, index, adj, ec);
        assert(is_elementary_cycle(adj, nc));
        let k = choose|k: int| 0 <= k < raws.len() && is_rotation_of(#[trigger] raws[k], nc);
        let j = choose|j: int| 0 <= j < nc.len() && raws[k] == #[trigger] rotation(nc, j);
        assert(edges_follow(cycles[k].edges@, raws[k], names));
        lemma_edges_rotate(ec, nc, raws[k], cycles[k].edges@, names, j);
        assert(edge_views(ec).len() == ec.len());
        assert(is_rotation_of(edge_views(cycles[k].edges@), edge_views(ec)));
    }
    if cycle_left_out(edges, cycles) {
        let ec = choose|ec: Seq<SimpleEdge>| #[trigger] is_cycle_of(edges, ec)
            && forall|k: int| 0 <= k < cycles.len() ==> !is_rotation_of(edge_views(#[trigger] cycles[k].edges@), edge_views(ec));
        assert(is_cycle_of(edges, ec));
    }
}

/// The flag of the search reads, on the edges, as whether a cycle was left out.
proof fn lemma_detected_flag(nodes: Seq<String>, edges: Seq<SimpleEdge>, names: Seq<String>, index: Seq<(usize, usize)>, adj: Seq<Vec<usize>>, raws: Seq<Seq<usize>>, cycles: Seq<Cycle>, max: nat, reached: bool)
    requires
        detection_facts(nodes, edges, names, index, adj, raws, cycles),
        found_cycles(adj, raws, max, reached),
    ensures
        reached <==> cycle_left_out(edges, cycles),
        !reached ==> finds_all_cycles(edges, cycles),
{
    lemma_found_cycles_parts(adj, raws, max, reached);
    if reached {
        lemma_flag_forward(edges, names, index, adj, raws, cycles);
    } else {
        lemma_flag_backward(edges, names, index, adj, raws, cycles);
    }
}

/// The found cycles start with the edge leaving their first-named node and come ordered by it,
/// and no two are rotations of each other.
proof fn lemma_detected_order(nodes: Seq<String>, edges: Seq<SimpleEdge>, names: Seq<String>, index: Seq<(usize, usize)>, adj: Seq<Vec<usize>>, raws: Seq<Seq<usize>>, cycles: Seq<Cycle>, max: nat, reached: bool)
    requires
        detection_facts(nodes, edges, names, index, adj, raws, cycles),
        found_cycles(adj, raws, max, reached),
    ensures
        no_rotated_repeats(cycles),
        forall|k: int| 0 <= k < cycles.len() ==> starts_at_first_node(first_seen(views(nodes)), (#[trigger] cycles[k]).edges@),
        forall|a: int, b: int| 0 <= a < b < cycles.len()
            ==> rank(first_seen(views(nodes)), (#[trigger] cycles[a]).edges@[0].origin@) <= rank(first_seen(views(nodes)), (#[trigger] cycles[b]).edges@[0].origin@),
{
    lemma_found_cycles_parts(adj, raws, max, reached);
    let order = first_seen(views(nodes));
    assert forall|a: int, b: int| 0 <= a < b < order.len() implies order[a] != order[b] by {
        assert(order[a] == names[a]@);
        assert(order[b] == names[b]@);
    }
    assert forall|q: int, p: int| 0 <= q < cycles.len() && 0 <= p < raws[q].len()
        implies #[trigger] rank(order, cycles[q].edges@[p].origin@) == raws[q][p] by {
        assert(edges_follow(cycles[q].edges@, raws[q], names));
        assert(is_elementary_cycle(adj, raws[q]));
        assert(raws[q][p] < names.len());
        assert(order[raws[q][p] as int] == names[raws[q][p] as int]@);
        assert(cycles[q].edges@[p].origin@ == order[raws[q][p] as int]);
        lemma_rank_of_unique(order, raws[q][p] as int);
    }
    assert forall|k: int| 0 <= k < cycles.len() implies starts_at_first_node(order, (#[trigger] cycles[k]).edges@) by {
        assert(edges_follow(cycles[k].edges@, raws[k], names));
        assert(is_elementary_cycle(adj, raws[k]) && starts_at_minimum(raws[k]));
        assert forall|p: int| 1 <= p < cycles[k].edges@.len() implies rank(order, cycles[k].edges@[0].origin@) < rank(order, (#[trigger] cycles[k].edges@[p]).origin@) by {
            assert(rank(order, cycles[k].edges@[0].origin@) == raws[k][0]);
            assert(rank(order, cycles[k].edges@[p].origin@) == raws[k][p]);
        }
    }
    assert forall|a: int, b: int| 0 <= a < b < cycles.len()
        implies rank(order, (#[trigger] cycles[a]).edges@[0].origin@) <= rank(order, (#[trigger] cycles[b]).edges@[0].origin@) by {
        assert(is_elementary_cycle(adj, raws[a]) && is_elementary_cycle(adj, raws[b]));
        assert(edges_follow(cycles[a].edges@, raws[a], names));
        assert(edges_follow(cycles[b].edges@, raws[b], names));
        assert(rank(order, cycles[a].edges@[0].origin@) == raws[a][0]);
        assert(rank(order, cycles[b].edges@[0].origin@) == raws[b][0]);
        assert(raws[a][0] <= raws[b][0]);
    }
    assert forall|a: int, b: int| 0 <= a < cycles.len() && 0 <= b < cycles.len() && a != b
        implies !is_rotation_of(edge_views(#[trigger] cycles[a].edges@), edge_views(#[trigger] cycles[b].edges@)) by {
        if is_rotation_of(edge_views(cycles[a].edges@), edge_views(cycles[b].edges@)) {
            assert(edges_follow(cycles[a].edges@, raws[a], names));
            assert(edges_follow(cycles[b].edges@, raws[b], names));
            assert(is_elementary_cycle(adj, raws[a]) && is_elementary_cycle(adj, raws[b]));
            assert(forall|i: int| 0 <= i < raws[a].len() ==> #[trigger] raws[a][i] < names.len());
            assert(forall|i: int| 0 <= i < raws[b].len() ==> #[trigger] raws[b][i] < names.len());
            lemma_rotation_of_nodes(cycles[a].edges@, raws[a], cycles[b].edges@, raws[b], names);
            assert(!is_rotation_of(raws[a], raws[b]));
        }
    }
}

/// Finds cycles in a graph (`CycleDetector`).
#[derive(Debug)]
pub struct CycleDetector;

impl CycleDetector {
    /// Finds the elementary cycles among `nodes` connected by `edges`, at most
    /// [`DEFAULT_MAX_NUMBER_OF_CYCLES_TO_DETECT`] of them.
    pub fn detect_cycles(nodes: &Vec<String>, edges: &Vec<SimpleEdge>) -> (r: Cycles)
        requires
            edges_within(nodes@, edges@),
        ensures
            r.cycles@.len() <= DEFAULT_MAX_NUMBER_OF_CYCLES_TO_DETECT,
            r.max_number_of_cycles_reached ==> r.cycles@.len() == DEFAULT_MAX_NUMBER_OF_CYCLES_TO_DETECT,
            r.cycles@.len() < DEFAULT_MAX_NUMBER_OF_CYCLES_TO_DETECT ==> !r.max_number_of_cycles_reached,
            !r.max_number_of_cycles_reached ==> finds_all_cycles(edges@, r.cycles@),
            no_rotated_repeats(r.cycles@),
            detected(nodes@, edges@, r.cycles@, DEFAULT_MAX_NUMBER_OF_CYCLES_TO_DETECT as nat, r.max_number_of_cycles_reached),
            forall|k: int| 0 <= k < r.cycles@.len() ==> is_cycle_of(edges@, (#[trigger] r.cycles@[k]).edges@),
    {
        Self::detect_cycles_with_limit(nodes, edges, DEFAULT_MAX_NUMBER_OF_CYCLES_TO_DETECT)
    }

    /// Like [`detect_cycles`](Self::detect_cycles) with an explicit maximum number of cycles.
    pub fn detect_cycles_with_limit(nodes: &Vec<String>, edges: &Vec<SimpleEdge>, max_cycles: usize) -> (r: Cycles)
        requires
            edges_within(nodes@, edges@),
        ensures
            r.cycles@.len() <= max_cycles,
            r.max_number_of_cycles_reached ==> r.cycles@.len() == max_cycles,
            r.cycles@.len() < max_cycles ==> !r.max_number_of_cycles_reached,
            !r.max_number_of_cycles_reached ==> finds_all_cycles(edges@, r.cycles@),
            no_rotated_repeats(r.cycles@),
            detected(nodes@, edges@, r.cycles@, max_cycles as nat, r.max_number_of_cycles_reached),
            forall|k: int| 0 <= k < r.cycles@.len() ==> is_cycle_of(edges@, (#[trigger] r.cycles@[k]).edges@),
    {
        // the distinct node names, in the order of their first occurrence
        let mut distinct: Vec<String> = Vec::new();
        let mut i: usize = 0;
        while i < nodes.len()
            invariant
                i <= nodes@.len(),
                forall|a: int, b: int| 0 <= a < b < distinct@.len() ==> distinct@[a]@ != distinct@[b]@,
                forall|j: int| 0 <= j < i ==> has_name(distinct@, (#[trigger] nodes@[j])@),
                views(distinct@) == first_seen(views(nodes@).take(i as int)),
            decreases nodes@.len() - i,
        {
            let ghost before = distinct@;
            proof {
                assert(views(nodes@).take(i + 1).drop_last() =~= views(nodes@).take(i as int));
                assert(views(nodes@).take(i + 1).last() == nodes@[i as int]@);
            }
            match position_of(&distinct, nodes[i].as_str()) {
                None => {
                    proof {
                        if views(before).contains(nodes@[i as int]@) {
                            let w = choose|w: int| 0 <= w < views(before).len() && views(before)[w] == nodes@[i as int]@;
                            assert(before[w]@ == nodes@[i as int]@);
                        }
                    }
                    distinct.push(nodes[i].clone());
                    proof {
                        assert(views(distinct@) =~= views(before).push(nodes@[i as int]@));
                        let a = distinct@.len() - 1;
                        assert(distinct@[a]@ == nodes@[i as int]@);
                        assert forall|j: int| 0 <= j < i + 1 implies has_name(distinct@, (#[trigger] nodes@[j])@) by {
                            if j < i {
                                assert(has_name(before, nodes@[j]@));
                                let w = choose|w: int| 0 <= w < before.len() && before[w]@ == nodes@[j]@;
                                assert(distinct@[w] == before[w]);
                            } else {
                                assert(distinct@[a]@ == nodes@[j]@);
                            }
                        }
                    }
                },
                Some(pos) => {
                    proof {
                        assert(distinct@[pos as int]@ == nodes@[i as int]@);
                        assert(views(distinct@)[pos as int] == nodes@[i as int]@);
                        assert(views(distinct@).contains(nodes@[i as int]@));
                    }
                },
            }
            i += 1;
        }
        proof {
            assert(views(nodes@).take(nodes@.len() as int) =~= views(nodes@));
        }
        let n = distinct.len();
        let mut adjacency: Vec<Vec<usize>> = empty_lists(n);
        // `edge_index[k]` is `(origin, target)` of `edges[k]` as node positions
        let mut edge_index: Vec<(usize, usize)> = Vec::new();
        let mut k: usize = 0;
        while k < edges.len()
            invariant
                edges_within(nodes@, edges@),
                forall|j: int| 0 <= j < nodes@.len() ==> has_name(distinct@, (#[trigger] nodes@[j])@),
                n == distinct@.len(),
                k <= edges@.len(),
                adjacency@.len() == n,
                wf_adjacency(adjacency@),
                edge_index@.len() == k,
                forall|e: int| 0 <= e < k ==> (#[trigger] edge_index@[e]).0 < n && edge_index@[e].1 < n,
                forall|e: int| 0 <= e < k ==> distinct@[edge_index@[e].0 as int]@ == (#[trigger] edges@[e]).origin@
                    && distinct@[edge_index@[e].1 as int]@ == edges@[e].target@,
                forall|a: int, b: int| has_edge(adjacency@, a, b) ==> exists|e: int| 0 <= e < k && #[trigger] edge_index@[e] == (a as usize, b as usize),
                forall|e: int| 0 <= e < k ==> has_edge(adjacency@, (#[trigger] edge_index@[e]).0 as int, edge_index@[e].1 as int),
                forall|a: int, b: int| 0 <= a < b < distinct@.len() ==> distinct@[a]@ != distinct@[b]@,
                views(distinct@) == first_seen(views(nodes@)),
            decreases edges@.len() - k,
        {
            let edge = &edges[k];
            proof {
                let a = choose|a: int| 0 <= a < nodes@.len() && nodes@[a]@ == edges@[k as int].origin@;
                let b = choose|b: int| 0 <= b < nodes@.len() && nodes@[b]@ == edges@[k as int].target@;
                assert(has_name(distinct@, nodes@[a]@));
                assert(has_name(distinct@, nodes@[b]@));
            }
            let origin = position_of(&distinct, edge.origin.as_str()).unwrap();
            let target = position_of(&distinct, edge.target.as_str()).unwrap();
            assert(origin < n && target < n);
            let ghost before_adj = adjacency@;
            let ghost before_index = edge_index@;
            edge_index.push((origin, target));
            let mut present = false;
            let mut t: usize = 0;
            while t < adjacency[origin].len()
                invariant
                    origin < adjacency@.len(),
                    t <= adjacency@[origin as int]@.len(),
                    present <==> exists|q: int| 0 <= q < t && adjacency@[origin as int]@[q] == target,
                decreases adjacency@[origin as int]@.len() - t,
            {
                if adjacency[origin][t] == target {
                    present = true;
                }
                t += 1;
            }
            if !present {
                let mut list = copy_indexes(&adjacency[origin]);
                list.push(target);
                adjacency.set(origin, list);
                proof {
                    assert(adjacency@[origin as int]@ == before_adj[origin as int]@.push(target));
                }
            } else {
                proof {
                    let q = choose|q: int| 0 <= q < before_adj[origin as int]@.len() && before_adj[origin as int]@[q] == target;
                    assert(adjacency@[origin as int]@.contains(target));
                }
            }
            proof {
                assert(edge_index@[k as int] == (origin, target));
                assert(distinct@[origin as int]@ == edges@[k as int].origin@);
                assert(distinct@[target as int]@ == edges@[k as int].target@);
                assert forall|a: int, b: int| has_edge(adjacency@, a, b) implies exists|e: int| 0 <= e < k + 1 && #[trigger] edge_index@[e] == (a as usize, b as usize) by {
                    if a == origin as int && b == target as int {
                        assert(edge_index@[k as int] == (a as usize, b as usize));
                    } else if a == origin as int {
                        assert(adjacency@[a]@.contains(b as usize));
                        if !present {
                            let x = choose|x: int| 0 <= x < adjacency@[a]@.len() && adjacency@[a]@[x] == b as usize;
                            assert(x < before_adj[a]@.len());
                            assert(before_adj[a]@[x] == b as usize);
                        }
                        assert(has_edge(before_adj, a, b));
                        let e = choose|e: int| 0 <= e < k && before_index[e] == (a as usize, b as usize);
                        assert(edge_index@[e] == before_index[e]);
                    } else {
                        assert(adjacency@[a] == before_adj[a]);
                        assert(has_edge(before_adj, a, b));
                        let e = choose|e: int| 0 <= e < k && before_index[e] == (a as usize, b as usize);
                        assert(edge_index@[e] == before_index[e]);
                    }
                }
                assert forall|i: int, j: int| 0 <= i < adjacency@.len() && 0 <= j < adjacency@[i]@.len() implies adjacency@[i]@[j] < adjacency@.len() by {
                    if i == origin as int && !present {
                        if j < before_adj[i]@.len() {
                            assert(adjacency@[i]@[j] == before_adj[i]@[j]);
                        }
                    } else {
                        assert(adjacency@[i] == before_adj[i]);
                    }
                }
                assert forall|e: int| 0 <= e < k + 1 implies (#[trigger] edge_index@[e]).0 < n && edge_index@[e].1 < n by {
                    if e < k {
                        assert(edge_index@[e] == before_index[e]);
                    }
                }
                assert forall|e: int| 0 <= e < k + 1 implies has_edge(adjacency@, (#[trigger] edge_index@[e]).0 as int, edge_index@[e].1 as int) by {
                    if e < k {
                        assert(edge_index@[e] == before_index[e]);
                        let (a, b) = (edge_index@[e].0 as int, edge_index@[e].1 as int);
                        assert(has_edge(before_adj, a, b));
                        if a == origin as int && !present {
                            let x = choose|x: int| 0 <= x < before_adj[a]@.len() && before_adj[a]@[x] == b as usize;
                            assert(adjacency@[a]@[x] == b as usize);
                        } else {
                            assert(adjacency@[a] == before_adj[a]);
                        }
                    } else {
                        if !present {
                            let l = adjacency@[origin as int]@;
                            assert(l[l.len() - 1] == target);
                        }
                        assert(adjacency@[origin as int]@.contains(target));
                    }
                }
                assert forall|e: int| 0 <= e < k + 1 implies distinct@[edge_index@[e].0 as int]@ == (#[trigger] edges@[e]).origin@
                    && distinct@[edge_index@[e].1 as int]@ == edges@[e].target@ by {
                    if e < k {
                        assert(edge_index@[e] == before_index[e]);
                    }
                }
            }
            k += 1;
        }
        let (raw_cycles, max_reached) = find_cycles(&adjacency, max_cycles);
        let mut cycles: Vec<Cycle> = Vec::new();
        let mut c: usize = 0;
        while c < raw_cycles.len()
            invariant
                c <= raw_cycles@.len(),
                cycles@.len() == c,
                n == distinct@.len(),
                adjacency@.len() == n,
                edge_index@.len() == edges@.len(),
                forall|a: int, b: int| 0 <= a < b < distinct@.len() ==> distinct@[a]@ != distinct@[b]@,
                forall|e: int| 0 <= e < edges@.len() ==> (#[trigger] edge_index@[e]).0 < n && edge_index@[e].1 < n,
                forall|e: int| 0 <= e < edges@.len() ==> distinct@[edge_index@[e].0 as int]@ == (#[trigger] edges@[e]).origin@
                    && distinct@[edge_index@[e].1 as int]@ == edges@[e].target@,
                forall|a: int, b: int| has_edge(adjacency@, a, b) ==> exists|e: int| 0 <= e < edges@.len() && #[trigger] edge_index@[e] == (a as usize, b as usize),
                forall|q: int| 0 <= q < raw_cycles@.len() ==> is_elementary_cycle(adjacency@, #[trigger] raw_cycles@[q]@),
                forall|q: int| 0 <= q < c ==> is_cycle_of(edges@, (#[trigger] cycles@[q]).edges@),
                forall|q: int| 0 <= q < c ==> edges_follow((#[trigger] cycles@[q]).edges@, raw_cycles@[q]@, distinct@),
                views(distinct@) == first_seen(views(nodes@)),
                forall|e: int| 0 <= e < edges@.len() ==> has_edge(adjacency@, (#[trigger] edge_index@[e]).0 as int, edge_index@[e].1 as int),
                found_cycles(adjacency@, cycle_views(raw_cycles@), max_cycles as nat, max_reached),
            decreases raw_cycles@.len() - c,
        {
            let raw = &raw_cycles[c];
            proof {
                assert(is_elementary_cycle(adjacency@, raw_cycles@[c as int]@));
            }
            let mut cycle_edges: Vec<SimpleEdge> = Vec::new();
            let mut p: usize = 0;
            while p < raw.len()
                invariant
                    raw@ == raw_cycles@[c as int]@,
                    is_elementary_cycle(adjacency@, raw@),
                    p <= raw@.len(),
                    cycle_edges@.len() == p,
                    n == distinct@.len(),
                    edge_index@.len() == edges@.len(),
                    forall|e: int| 0 <= e < edges@.len() ==> (#[trigger] edge_index@[e]).0 < n && edge_index@[e].1 < n,
                    forall|e: int| 0 <= e < edges@.len() ==> distinct@[edge_index@[e].0 as int]@ == (#[trigger] edges@[e]).origin@
                        && distinct@[edge_index@[e].1 as int]@ == edges@[e].target@,
                    forall|a: int, b: int| has_edge(adjacency@, a, b) ==> exists|e: int| 0 <= e < edges@.len() && #[trigger] edge_index@[e] == (a as usize, b as usize),
                    forall|q: int| 0 <= q < p ==> edges@.contains(#[trigger] cycle_edges@[q])
                        && cycle_edges@[q].origin@ == distinct@[raw@[q] as int]@
                        && cycle_edges@[q].target@ == distinct@[(if q + 1 < raw@.len() { raw@[q + 1] } else { raw@[0] }) as int]@,
                decreases raw@.len() - p,
            {
                let from = raw[p];
                let to = if p + 1 < raw.len() { raw[p + 1] } else { raw[0] };
                proof {
                    if p + 1 < raw@.len() {
                        assert(has_edge(adjacency@, raw@[p as int] as int, raw@[p + 1] as int));
                    }
                    assert(has_edge(adjacency@, from as int, to as int));
                }
                let e = first_edge_index(&edge_index, from, to);
                let ghost before = cycle_edges@;
                cycle_edges.push(edges[e].copy());
                proof {
                    assert(edges@.contains(edges@[e as int]));
                    assert forall|q: int| 0 <= q < p + 1 implies edges@.contains(#[trigger] cycle_edges@[q])
                        && cycle_edges@[q].origin@ == distinct@[raw@[q] as int]@
                        && cycle_edges@[q].target@ == distinct@[(if q + 1 < raw@.len() { raw@[q + 1] } else { raw@[0] }) as int]@ by {
                        if q < p {
                            assert(cycle_edges@[q] == before[q]);
                        } else {
                            assert(edge_index@[e as int] == (from, to));
                            assert(edges@[e as int].origin@ == distinct@[from as int]@);
                        }
                    }
                }
                p += 1;
            }
            proof {
                let ce = cycle_edges@;
                let len = raw@.len() as int;
                assert forall|i: int| 0 <= i < ce.len() - 1 implies (#[trigger] ce[i]).target@ == ce[i + 1].origin@ by {
                }
                assert forall|i: int, j: int| 0 <= i < ce.len() && 0 <= j < ce.len() && i != j implies ce[i].origin@ != ce[j].origin@ by {
                    assert(raw@[i] != raw@[j]);
                    assert(raw@[i] < n && raw@[j] < n);
                    if raw@[i] < raw@[j] {
                    } else {
                    }
                }
            }
            cycles.push(Cycle { edges: cycle_edges });
            proof {
                assert forall|q: int| 0 <= q < c + 1 implies is_cycle_of(edges@, (#[trigger] cycles@[q]).edges@) by {}
                let ce = cycles@[c as int].edges@;
                assert forall|p: int| 0 <= p < ce.len() implies (#[trigger] ce[p]).origin@ == distinct@[raw@[p] as int]@
                    && ce[p].target@ == distinct@[raw@[next_position(p, ce.len() as int)] as int]@ by {}
                assert forall|q: int| 0 <= q < c + 1 implies edges_follow((#[trigger] cycles@[q]).edges@, raw_cycles@[q]@, distinct@) by {}
            }
            c += 1;
        }
        proof {
            let raws = cycle_views(raw_cycles@);
            assert(distinct@.len() == distinct.len());
            assert forall|q: int| 0 <= q < cycles@.len() implies edges_follow((#[trigger] cycles@[q]).edges@, raws[q], distinct@) by {
                assert(raws[q] == raw_cycles@[q]@);
            }
            assert(detection_facts(nodes@, edges@, distinct@, edge_index@, adjacency@, raws, cycles@));
            lemma_detected_flag(nodes@, edges@, distinct@, edge_index@, adjacency@, raws, cycles@, max_cycles as nat, max_reached);
            lemma_detected_order(nodes@, edges@, distinct@, edge_index@, adjacency@, raws, cycles@, max_cycles as nat, max_reached);
        }
        Cycles { cycles, max_number_of_cycles_reached: max_reached }
    }
}

/// The first position `e` with `index[e] == (from, to)`; one must exist.
fn first_edge_index(index: &Vec<(usize, usize)>, from: usize, to: usize) -> (r: usize)
    requires
        exists|e: int| 0 <= e < index@.len() && #[trigger] index@[e] == (from, to),
    ensures
        r < index@.len(),
        index@[r as int] == (from, to),
{
    let mut e: usize = 0;
    while e < index.len()
        invariant
            e <= index@.len(),
            forall|j: int| 0 <= j < e ==> index@[j] != (from, to),
            exists|x: int| 0 <= x < index@.len() && #[trigger] index@[x] == (from, to),
        decreases index@.len() - e,
    {
        if index[e].0 == from && index[e].1 == to {
            return e;
        }
        e += 1;
    }
    proof {
        let x = choose|x: int| 0 <= x < index@.len() && index@[x] == (from, to);
        assert(index@[x] != (from, to));
    }
    0
}

} // verus!
