//! The search for elementary cycles: from each node in turn, depth first along edges in the
//! order of the adjacency lists, through nodes above the start only, recording each path that
//! has an edge back to the start. Each elementary cycle is so found exactly once, rotated to
//! start at its smallest node.

use vstd::prelude::*;

use super::counting::{count_false, lemma_count_false_update};

verus! {

/// Every adjacency entry names a node of the graph.
pub open spec fn wf_adjacency(adj: Seq<Vec<usize>>) -> bool {
    forall|i: int, j: int| 0 <= i < adj.len() && 0 <= j < adj[i]@.len() ==> adj[i]@[j] < adj.len()
}

/// There is an edge from `a` to `b`.
pub open spec fn has_edge(adj: Seq<Vec<usize>>, a: int, b: int) -> bool {
    0 <= a < adj.len() && 0 <= b < adj.len() && adj[a]@.contains(b as usize)
}

/// Consecutive nodes of `p` are connected by edges.
pub open spec fn is_path(adj: Seq<Vec<usize>>, p: Seq<usize>) -> bool {
    forall|i: int| 0 <= i < p.len() - 1 ==> #[trigger] has_edge(adj, p[i] as int, p[i + 1] as int)
}

/// `c` is an elementary cycle: a path of distinct nodes whose last node has an edge back to
/// the first one.
pub open spec fn is_elementary_cycle(adj: Seq<Vec<usize>>, c: Seq<usize>) -> bool {
    &&& c.len() > 0
    &&& forall|i: int| 0 <= i < c.len() ==> c[i] < adj.len()
    &&& c.no_duplicates()
    &&& is_path(adj, c)
    &&& has_edge(adj, c.last() as int, c[0] as int)
}

/// `c` read from position `k` on, wrapping around to its start.
pub open spec fn rotation<A>(c: Seq<A>, k: int) -> Seq<A> {
    c.skip(k) + c.take(k)
}

/// `a` is `b` read from one of its positions on, wrapping around.
pub open spec fn is_rotation_of<A>(a: Seq<A>, b: Seq<A>) -> bool {
    exists|k: int| 0 <= k < b.len() && a == #[trigger] rotation(b, k)
}

/// `c` starts at its smallest node, and no other node is as small.
pub open spec fn starts_at_minimum(c: Seq<usize>) -> bool {
    &&& c.len() > 0
    &&& forall|i: int| 1 <= i < c.len() ==> c[0] < #[trigger] c[i]
}

/// The node lists of the recorded cycles.
pub open spec fn cycle_views(cycles: Seq<Vec<usize>>) -> Seq<Seq<usize>> {
    cycles.map_values(|c: Vec<usize>| c@)
}

/// `c` is one of `cs`.
pub open spec fn found_in(cs: Seq<Seq<usize>>, c: Seq<usize>) -> bool {
    exists|k: int| 0 <= k < cs.len() && #[trigger] cs[k] == c
}

/// Every elementary cycle of the graph is, up to rotation, one of `cs`.
pub open spec fn all_cycles_among(adj: Seq<Vec<usize>>, cs: Seq<Seq<usize>>) -> bool {
    forall|c: Seq<usize>| #[trigger] is_elementary_cycle(adj, c)
        ==> exists|k: int| 0 <= k < cs.len() && is_rotation_of(#[trigger] cs[k], c)
}

/// What the search finds, with at most `max` cycles: elementary cycles, each starting at its
/// smallest node, no two of them rotations of each other, ordered by their first node; the
/// flag is set exactly when some elementary cycle was left out, and then `max` cycles were
/// found.
#[verifier::opaque]
pub open spec fn found_cycles(adj: Seq<Vec<usize>>, cs: Seq<Seq<usize>>, max: nat, reached: bool) -> bool {
    &&& cs.len() <= max
    &&& reached ==> cs.len() == max
    &&& forall|k: int| 0 <= k < cs.len() ==> is_elementary_cycle(adj, #[trigger] cs[k]) && starts_at_minimum(cs[k])
    &&& forall|a: int, b: int| 0 <= a < cs.len() && 0 <= b < cs.len() && a != b ==> !is_rotation_of(#[trigger] cs[a], #[trigger] cs[b])
    &&& !reached ==> all_cycles_among(adj, cs)
    &&& reached <==> some_cycle_left_out(adj, cs)
    &&& forall|a: int, b: int| 0 <= a < b < cs.len() ==> (#[trigger] cs[a])[0] <= (#[trigger] cs[b])[0]
}

/// What [`found_cycles`] says, clause by clause.
pub proof fn lemma_found_cycles_parts(adj: Seq<Vec<usize>>, cs: Seq<Seq<usize>>, max: nat, reached: bool)
    requires
        found_cycles(adj, cs, max, reached),
    ensures
        cs.len() <= max,
        reached ==> cs.len() == max,
        forall|k: int| 0 <= k < cs.len() ==> is_elementary_cycle(adj, #[trigger] cs[k]) && starts_at_minimum(cs[k]),
        forall|a: int, b: int| 0 <= a < cs.len() && 0 <= b < cs.len() && a != b ==> !is_rotation_of(#[trigger] cs[a], #[trigger] cs[b]),
        !reached ==> all_cycles_among(adj, cs),
        reached <==> some_cycle_left_out(adj, cs),
        forall|a: int, b: int| 0 <= a < b < cs.len() ==> (#[trigger] cs[a])[0] <= (#[trigger] cs[b])[0],
{
    reveal(found_cycles);
}

/// The flag of [`found_cycles`] is set exactly when some elementary cycle was left out.
pub proof fn lemma_found_cycles_flag(adj: Seq<Vec<usize>>, cs: Seq<Seq<usize>>, max: nat, reached: bool)
    requires
        found_cycles(adj, cs, max, reached),
    ensures
        reached <==> some_cycle_left_out(adj, cs),
{
    reveal(found_cycles);
}

/// Some elementary cycle of the graph is, in none of its rotations, among `cs`.
pub open spec fn some_cycle_left_out(adj: Seq<Vec<usize>>, cs: Seq<Seq<usize>>) -> bool {
    exists|c: Seq<usize>| #[trigger] is_elementary_cycle(adj, c)
        && forall|k: int| 0 <= k < cs.len() ==> !is_rotation_of(#[trigger] cs[k], c)
}

/// The entry of `c` at position `i` of its rotation from `k`.
proof fn lemma_rotation_index<A>(c: Seq<A>, k: int, i: int)
    requires
        0 <= k < c.len(),
        0 <= i < c.len(),
    ensures
        rotation(c, k).len() == c.len(),
        rotation(c, k)[i] == if i < c.len() - k { c[i + k] } else { c[i - (c.len() - k)] },
{
}

/// A rotation of an elementary cycle is one.
pub proof fn lemma_rotation_elementary(adj: Seq<Vec<usize>>, c: Seq<usize>, k: int)
    requires
        is_elementary_cycle(adj, c),
        0 <= k < c.len(),
    ensures
        is_elementary_cycle(adj, rotation(c, k)),
{
    let r = rotation(c, k);
    let n = c.len() as int;
    assert forall|i: int| 0 <= i < n implies r[i] < adj.len() by {
        lemma_rotation_index(c, k, i);
    }
    assert forall|i: int, j: int| 0 <= i < n && 0 <= j < n && i != j implies r[i] != r[j] by {
        lemma_rotation_index(c, k, i);
        lemma_rotation_index(c, k, j);
    }
    assert forall|i: int| 0 <= i < r.len() - 1 implies #[trigger] has_edge(adj, r[i] as int, r[i + 1] as int) by {
        lemma_rotation_index(c, k, i);
        lemma_rotation_index(c, k, i + 1);
        if i < n - k - 1 {
            assert(has_edge(adj, c[i + k] as int, c[i + k + 1] as int));
        } else if i == n - k - 1 {
        } else {
            let j = i - (n - k);
            assert(has_edge(adj, c[j] as int, c[j + 1] as int));
        }
    }
    lemma_rotation_index(c, k, 0);
    lemma_rotation_index(c, k, n - 1);
    if k > 0 {
        let j = k - 1;
        assert(has_edge(adj, c[j] as int, c[j + 1] as int));
    }
}

/// A position of a smallest entry among the first `len` entries.
proof fn lemma_min_position(c: Seq<usize>, len: int) -> (m: int)
    requires
        1 <= len <= c.len(),
    ensures
        0 <= m < len,
        forall|j: int| 0 <= j < len ==> c[m] <= c[j],
    decreases len,
{
    if len == 1 {
        0
    } else {
        let m0 = lemma_min_position(c, len - 1);
        if c[len - 1] < c[m0] {
            len - 1
        } else {
            m0
        }
    }
}

/// An elementary cycle rotated to start at its smallest node starts there.
pub proof fn lemma_rotation_to_minimum(adj: Seq<Vec<usize>>, c: Seq<usize>) -> (m: int)
    requires
        is_elementary_cycle(adj, c),
    ensures
        0 <= m < c.len(),
        starts_at_minimum(rotation(c, m)),
        is_elementary_cycle(adj, rotation(c, m)),
{
    let m = lemma_min_position(c, c.len() as int);
    lemma_rotation_elementary(adj, c, m);
    let r = rotation(c, m);
    lemma_rotation_index(c, m, 0);
    assert forall|j: int| 1 <= j < r.len() implies r[0] < #[trigger] r[j] by {
        lemma_rotation_index(c, m, j);
        assert(r[0] != r[j]);
    }
    m
}

/// Two cycles that start at their smallest node are rotations of each other only when equal.
pub proof fn lemma_minimum_rotation_unique(a: Seq<usize>, b: Seq<usize>)
    requires
        starts_at_minimum(a),
        starts_at_minimum(b),
        is_rotation_of(a, b),
    ensures
        a == b,
{
    let k = choose|k: int| 0 <= k < b.len() && a == #[trigger] rotation(b, k);
    let n = b.len() as int;
    if k > 0 {
        lemma_rotation_index(b, k, 0);
        lemma_rotation_index(b, k, n - k);
        assert(a[0] == b[k]);
        assert(a[n - k] == b[0]);
        assert(b[0] < b[k]);
        assert(a[0] < a[n - k]);
    } else {
        assert(rotation(b, 0) =~= b);
    }
}

/// Some elementary cycle that starts at its smallest node is not among `cs`.
pub open spec fn missing_canonical(adj: Seq<Vec<usize>>, cs: Seq<Seq<usize>>) -> bool {
    exists|c: Seq<usize>| #[trigger] is_elementary_cycle(adj, c) && starts_at_minimum(c) && !found_in(cs, c)
}

/// `v` begins with `p`.
pub open spec fn extends_path(v: Seq<usize>, p: Seq<usize>) -> bool {
    v.len() >= p.len() && v.take(p.len() as int) == p
}

/// `ext` continues `path` to an elementary cycle back to the path's first node, through nodes
/// above that node only.
pub open spec fn completes(adj: Seq<Vec<usize>>, path: Seq<usize>, ext: Seq<usize>) -> bool {
    let c = path + ext;
    &&& c.no_duplicates()
    &&& is_path(adj, c)
    &&& has_edge(adj, c.last() as int, c[0] as int)
    &&& forall|i: int| path.len() <= i < c.len() ==> c[0] < #[trigger] c[i]
}

/// A cycle recorded while following the first `i` targets from the end of `p`: `p` itself,
/// closed by an edge back, or a longer path through one of those targets.
pub open spec fn placed(v: Seq<usize>, p: Seq<usize>, ts: Seq<usize>, i: int) -> bool {
    ||| v == p && ts.take(i).contains(p[0])
    ||| v.len() > p.len() && v.take(p.len() as int) == p && ts.take(i).contains(v[p.len() as int])
}

/// The continuation `ext` of `p` begins with one of the first `i` targets (or, when empty,
/// closes with one).
pub open spec fn covered(ext: Seq<usize>, p: Seq<usize>, ts: Seq<usize>, i: int) -> bool {
    if ext.len() == 0 {
        ts.take(i).contains(p[0])
    } else {
        ts.take(i).contains(ext[0])
    }
}

/// How taking one more entry changes what a prefix contains.
proof fn lemma_take_one_more(ts: Seq<usize>, i: int)
    requires
        0 <= i < ts.len(),
    ensures
        ts.take(i + 1).contains(ts[i]),
        forall|x: usize| ts.take(i).contains(x) ==> ts.take(i + 1).contains(x),
        forall|x: usize| ts.take(i + 1).contains(x) ==> ts.take(i).contains(x) || x == ts[i],
        ts.no_duplicates() ==> !ts.take(i).contains(ts[i]),
{
    assert(ts.take(i + 1)[i] == ts[i]);
    assert forall|x: usize| ts.take(i).contains(x) implies ts.take(i + 1).contains(x) by {
        let j = choose|j: int| 0 <= j < i && #[trigger] ts.take(i)[j] == x;
        assert(ts.take(i + 1)[j] == x);
    }
    assert forall|x: usize| ts.take(i + 1).contains(x) implies ts.take(i).contains(x) || x == ts[i] by {
        let j = choose|j: int| 0 <= j < i + 1 && #[trigger] ts.take(i + 1)[j] == x;
        if j < i {
            assert(ts.take(i)[j] == x);
        }
    }
    if ts.no_duplicates() && ts.take(i).contains(ts[i]) {
        let j = choose|j: int| 0 <= j < i && #[trigger] ts.take(i)[j] == ts[i];
        assert(ts[j] == ts[i]);
    }
}

/// A copy of `v`.
pub fn copy_indexes(v: &Vec<usize>) -> (r: Vec<usize>)
    ensures
        r@ == v@,
{
    let mut r: Vec<usize> = Vec::new();
    let mut i: usize = 0;
    while i < v.len()
        invariant
            i <= v.len(),
            r@ == v@.take(i as int),
        decreases v.len() - i,
    {
        r.push(v[i]);
        proof {
            assert(v@.take(i + 1) == v@.take(i as int).push(v@[i as int]));
        }
        i += 1;
    }
    proof {
        assert(v@.take(v.len() as int) =~= v@);
    }
    r
}

/// The state of the search.
pub(crate) struct CycleSearch {
    pub(crate) max_cycles: usize,
    pub(crate) cycles: Vec<Vec<usize>>,
    pub(crate) max_reached: bool,
    pub(crate) path: Vec<usize>,
    pub(crate) on_path: Vec<bool>,
}

impl CycleSearch {
    /// The bookkeeping is consistent and every recorded cycle is elementary and starts at its
    /// smallest node.
    pub(crate) open spec fn inv(&self, adj: Seq<Vec<usize>>) -> bool {
        let n = adj.len();
        &&& wf_adjacency(adj)
        &&& forall|i: int| 0 <= i < n ==> (#[trigger] adj[i])@.no_duplicates()
        &&& self.on_path@.len() == n
        &&& forall|x: int| 0 <= x < n ==> (self.on_path@[x] <==> self.path@.contains(x as usize))
        &&& self.cycles@.len() <= self.max_cycles
        &&& self.max_reached ==> self.cycles@.len() == self.max_cycles
        &&& forall|k: int| 0 <= k < self.cycles@.len() ==> is_elementary_cycle(adj, #[trigger] cycle_views(self.cycles@)[k])
            && starts_at_minimum(cycle_views(self.cycles@)[k])
    }

    /// The current path is a path of distinct nodes above its first one.
    pub(crate) open spec fn path_ok(&self, adj: Seq<Vec<usize>>) -> bool {
        let p = self.path@;
        &&& p.len() > 0
        &&& p.no_duplicates()
        &&& forall|i: int| 0 <= i < p.len() ==> #[trigger] p[i] < adj.len()
        &&& forall|i: int| 1 <= i < p.len() ==> p[0] < #[trigger] p[i]
        &&& is_path(adj, p)
    }

    /// Records the current path as a cycle, unless the maximum was reached; finding one more
    /// cycle than the maximum sets the flag.
    fn record(&mut self, Ghost(adj): Ghost<Seq<Vec<usize>>>)
        requires
            old(self).inv(adj),
            old(self).path_ok(adj),
            has_edge(adj, old(self).path@.last() as int, old(self).path@[0] as int),
        ensures
            final(self).inv(adj),
            final(self).path@ == old(self).path@,
            final(self).on_path@ == old(self).on_path@,
            final(self).max_cycles == old(self).max_cycles,
            old(self).max_reached || old(self).cycles@.len() >= old(self).max_cycles ==> {
                &&& final(self).cycles@ == old(self).cycles@
                &&& final(self).max_reached
            },
            !old(self).max_reached && old(self).cycles@.len() < old(self).max_cycles ==> {
                &&& cycle_views(final(self).cycles@) == cycle_views(old(self).cycles@).push(old(self).path@)
                &&& final(self).cycles@.len() == old(self).cycles@.len() + 1
                &&& final(self).cycles@.drop_last() == old(self).cycles@
                &&& !final(self).max_reached
            },
    {
        if self.max_reached {
            return;
        }
        if self.cycles.len() >= self.max_cycles {
            self.max_reached = true;
            return;
        }
        let cycle = copy_indexes(&self.path);
        self.cycles.push(cycle);
        proof {
            assert(self.cycles@.drop_last() =~= old(self).cycles@);
            assert(cycle_views(self.cycles@) =~= cycle_views(old(self).cycles@).push(old(self).path@));
            assert forall|k: int| 0 <= k < self.cycles@.len() implies is_elementary_cycle(adj, #[trigger] cycle_views(self.cycles@)[k])
                && starts_at_minimum(cycle_views(self.cycles@)[k]) by {
                if k < self.cycles@.len() - 1 {
                    assert(cycle_views(self.cycles@)[k] == cycle_views(old(self).cycles@)[k]);
                }
            }
        }
    }

    /// Follows every path from the end of the current one through nodes above its start that
    /// are not on it yet, depth first in the order of the adjacency lists, recording each path
    /// with an edge back to the start.
    pub(crate) fn extend(&mut self, adj: &Vec<Vec<usize>>)
        requires
            old(self).inv(adj@),
            old(self).path_ok(adj@),
            forall|k: int| 0 <= k < old(self).cycles@.len() ==> !extends_path(#[trigger] cycle_views(old(self).cycles@)[k], old(self).path@),
        ensures
            final(self).inv(adj@),
            final(self).path@ == old(self).path@,
            final(self).on_path@ == old(self).on_path@,
            final(self).max_cycles == old(self).max_cycles,
            old(self).max_reached ==> final(self).max_reached,
            old(self).max_reached ==> final(self).cycles@ == old(self).cycles@,
            final(self).max_reached && !old(self).max_reached ==> missing_canonical(adj@, cycle_views(final(self).cycles@)),
            final(self).cycles@.len() >= old(self).cycles@.len(),
            forall|k: int| 0 <= k < old(self).cycles@.len() ==> #[trigger] final(self).cycles@[k] == old(self).cycles@[k],
            forall|k: int| old(self).cycles@.len() <= k < final(self).cycles@.len()
                ==> extends_path(#[trigger] cycle_views(final(self).cycles@)[k], old(self).path@),
            forall|a: int, b: int| old(self).cycles@.len() <= a < final(self).cycles@.len()
                && old(self).cycles@.len() <= b < final(self).cycles@.len() && a != b
                ==> #[trigger] cycle_views(final(self).cycles@)[a] != #[trigger] cycle_views(final(self).cycles@)[b],
            !final(self).max_reached ==> forall|ext: Seq<usize>| #[trigger] completes(adj@, old(self).path@, ext)
                ==> found_in(cycle_views(final(self).cycles@), old(self).path@ + ext),
        decreases count_false(old(self).on_path@),
    {
        if self.max_reached {
            return;
        }
        let ghost p = self.path@;
        let ghost entry = self.cycles@;
        let last = self.path[self.path.len() - 1];
        let start = self.path[0];
        let targets = &adj[last];
        proof {
            assert(adj@[last as int]@.no_duplicates());
        }
        let mut i: usize = 0;
        while i < targets.len()
            invariant
                self.inv(adj@),
                old(self).path_ok(adj@),
                p == old(self).path@,
                self.path@ == p,
                self.on_path@ == old(self).on_path@,
                self.max_cycles == old(self).max_cycles,
                !old(self).max_reached,
                entry == old(self).cycles@,
                last == p.last(),
                start == p[0],
                last < adj@.len(),
                targets@ == adj@[last as int]@,
                targets@.no_duplicates(),
                i <= targets@.len(),
                self.cycles@.len() >= entry.len(),
                forall|k: int| 0 <= k < entry.len() ==> #[trigger] self.cycles@[k] == entry[k],
                forall|k: int| entry.len() <= k < self.cycles@.len()
                    ==> placed(#[trigger] cycle_views(self.cycles@)[k], p, targets@, i as int),
                forall|a: int, b: int| entry.len() <= a < self.cycles@.len() && entry.len() <= b < self.cycles@.len() && a != b
                    ==> #[trigger] cycle_views(self.cycles@)[a] != #[trigger] cycle_views(self.cycles@)[b],
                !self.max_reached ==> forall|ext: Seq<usize>| #[trigger] completes(adj@, p, ext) && covered(ext, p, targets@, i as int)
                    ==> found_in(cycle_views(self.cycles@), p + ext),
                forall|k: int| 0 <= k < entry.len() ==> !extends_path(#[trigger] cycle_views(entry)[k], p),
                self.max_reached ==> missing_canonical(adj@, cycle_views(self.cycles@)),
            decreases targets@.len() - i,
        {
            let w = targets[i];
            proof {
                lemma_take_one_more(targets@, i as int);
                assert(adj@[last as int]@.contains(w));
                assert(w < adj@.len());
            }
            let ghost before = self.cycles@;
            let ghost before_max = self.max_reached;
            if w == start {
                self.record(Ghost(adj@));
                proof {
                    let vs = cycle_views(self.cycles@);
                    let vb = cycle_views(before);
                    if self.max_reached && !before_max {
                        assert(self.cycles@ == before);
                        assert(has_edge(adj@, last as int, start as int));
                        assert forall|k: int| 0 <= k < vs.len() implies #[trigger] vs[k] != p by {
                            if k < entry.len() {
                                assert(vs[k] == cycle_views(entry)[k]);
                                assert(!extends_path(cycle_views(entry)[k], p));
                                assert(p.take(p.len() as int) =~= p);
                            } else {
                                assert(placed(vb[k], p, targets@, i as int));
                            }
                        }
                        assert(is_elementary_cycle(adj@, p));
                        assert(starts_at_minimum(p));
                        assert(!found_in(vs, p));
                    }
                    assert forall|k: int| 0 <= k < entry.len() implies #[trigger] self.cycles@[k] == entry[k] by {
                        if self.cycles@.len() > before.len() {
                            assert(self.cycles@.drop_last()[k] == before[k]);
                        }
                    }
                    assert forall|k: int| 0 <= k < before.len() implies #[trigger] vs[k] == vb[k] by {
                        if self.cycles@.len() > before.len() {
                            assert(self.cycles@.drop_last()[k] == before[k]);
                        }
                    }
                    assert forall|k: int| entry.len() <= k < self.cycles@.len()
                        implies placed(#[trigger] cycle_views(self.cycles@)[k], p, targets@, i + 1) by {
                        if k < before.len() {
                            assert(vs[k] == vb[k]);
                            assert(placed(vb[k], p, targets@, i as int));
                        } else {
                            assert(vs[k] == p);
                        }
                    }
                    assert forall|a: int, b: int| entry.len() <= a < self.cycles@.len() && entry.len() <= b < self.cycles@.len() && a != b
                        implies #[trigger] cycle_views(self.cycles@)[a] != #[trigger] cycle_views(self.cycles@)[b] by {
                        if a < before.len() && b < before.len() {
                            assert(vs[a] == vb[a]);
                            assert(vs[b] == vb[b]);
                            assert(vb[a] != vb[b]);
                        } else if a < before.len() {
                            assert(vs[a] == vb[a]);
                            assert(vs[b] == p);
                            assert(placed(vb[a], p, targets@, i as int));
                        } else {
                            assert(vs[b] == vb[b]);
                            assert(vs[a] == p);
                            assert(placed(vb[b], p, targets@, i as int));
                        }
                    }
                    if !self.max_reached {
                        assert(!before_max);
                        assert forall|ext: Seq<usize>| #[trigger] completes(adj@, p, ext) && covered(ext, p, targets@, i + 1)
                            implies found_in(cycle_views(self.cycles@), p + ext) by {
                            if ext.len() == 0 {
                                assert(p + ext =~= p);
                                assert(vs[vs.len() - 1] == p);
                            } else {
                                let c = p + ext;
                                assert(c[p.len() as int] == ext[0]);
                                assert(ext[0] != start);
                                assert(covered(ext, p, targets@, i as int));
                                let k = choose|k: int| 0 <= k < vb.len() && #[trigger] vb[k] == p + ext;
                                assert(vs[k] == vb[k]);
                            }
                        }
                    }
                }
            } else if start < w && !self.on_path[w] {
                proof {
                    lemma_count_false_update(self.on_path@, w as int, true);
                }
                let ghost onb = self.on_path@;
                proof {
                    assert(forall|x: int| 0 <= x < adj@.len() ==> (onb[x] <==> p.contains(x as usize)));
                }
                self.path.push(w);
                self.on_path.set(w, true);
                proof {
                    let q = self.path@;
                    assert(q == p.push(w));
                    assert(!p.contains(w));
                    assert forall|x: int| 0 <= x < adj@.len() implies (self.on_path@[x] <==> self.path@.contains(x as usize)) by {
                        if x == w as int {
                            assert(q[q.len() - 1] == w);
                            assert(self.path@.contains(w));
                            assert(x as usize == w);
                            assert(self.on_path@[x]);
                        } else {
                            assert(self.on_path@[x] == onb[x]);
                            assert(onb[x] <==> p.contains(x as usize));
                            if q.contains(x as usize) {
                                let j = choose|j: int| 0 <= j < q.len() && q[j] == x as usize;
                                assert(adj@.len() == adj.len());
                                assert(x as usize as int == x);
                                if j < p.len() {
                                    assert(p[j] == q[j]);
                                    assert(p.contains(x as usize));
                                } else {
                                    assert(q[j] == w);
                                    assert(false);
                                }
                            }
                            if p.contains(x as usize) {
                                let j = choose|j: int| 0 <= j < p.len() && p[j] == x as usize;
                                assert(q[j] == x as usize);
                                assert(self.path@.contains(x as usize));
                            }
                        }
                    }
                    assert forall|a: int| 0 <= a < q.len() - 1 implies #[trigger] has_edge(adj@, q[a] as int, q[a + 1] as int) by {
                        if a < p.len() - 1 {
                            assert(has_edge(adj@, p[a] as int, p[a + 1] as int));
                        }
                    }
                    assert forall|a: int, b: int| 0 <= a < q.len() && 0 <= b < q.len() && a != b implies q[a] != q[b] by {
                        if a < p.len() && b < p.len() {
                        } else if a < p.len() {
                            assert(p.contains(q[a]));
                        } else {
                            assert(p.contains(q[b]));
                        }
                    }
                    assert(self.path_ok(adj@));
                }
                proof {
                    let q = p.push(w);
                    let vb = cycle_views(before);
                    assert forall|k: int| 0 <= k < self.cycles@.len() implies !extends_path(#[trigger] cycle_views(self.cycles@)[k], self.path@) by {
                        assert(self.path@ == q);
                        let v = vb[k];
                        if extends_path(v, q) {
                            assert(v.take(p.len() as int) =~= v.take(q.len() as int).take(p.len() as int));
                            assert(q.take(p.len() as int) =~= p);
                            assert(v[p.len() as int] == v.take(q.len() as int)[p.len() as int]);
                            if k < entry.len() {
                                assert(vb[k] == cycle_views(entry)[k]);
                                assert(!extends_path(cycle_views(entry)[k], p));
                            } else {
                                assert(placed(v, p, targets@, i as int));
                            }
                        }
                    }
                }
                let ghost mid = self.cycles@;
                self.extend(adj);
                self.path.pop();
                self.on_path.set(w, false);
                proof {
                    assert(self.path@ =~= p);
                    assert(self.on_path@ =~= old(self).on_path@);
                    let q = p.push(w);
                    let vs = cycle_views(self.cycles@);
                    let vb = cycle_views(before);
                    assert(mid == before);
                    assert forall|k: int| 0 <= k < before.len() implies #[trigger] vs[k] == vb[k] by {
                        assert(self.cycles@[k] == before[k]);
                    }
                    assert forall|k: int| before.len() <= k < self.cycles@.len() implies vs[k].len() > p.len()
                        && vs[k].take(p.len() as int) == p && vs[k][p.len() as int] == w by {
                        assert(extends_path(vs[k], q));
                        assert(vs[k].take(q.len() as int)[p.len() as int] == w);
                        assert(vs[k].take(p.len() as int) =~= vs[k].take(q.len() as int).take(p.len() as int));
                    }
                    assert forall|k: int| entry.len() <= k < self.cycles@.len()
                        implies placed(#[trigger] cycle_views(self.cycles@)[k], p, targets@, i + 1) by {
                        if k < before.len() {
                            assert(vs[k] == vb[k]);
                            assert(placed(vb[k], p, targets@, i as int));
                        } else {
                            assert(vs[k][p.len() as int] == w);
                        }
                    }
                    assert forall|a: int, b: int| entry.len() <= a < self.cycles@.len() && entry.len() <= b < self.cycles@.len() && a != b
                        implies #[trigger] cycle_views(self.cycles@)[a] != #[trigger] cycle_views(self.cycles@)[b] by {
                        if a < before.len() && b < before.len() {
                            assert(vs[a] == vb[a]);
                            assert(vs[b] == vb[b]);
                            assert(vb[a] != vb[b]);
                        } else if a < before.len() {
                            assert(vs[a] == vb[a]);
                            assert(placed(vb[a], p, targets@, i as int));
                            assert(vs[b][p.len() as int] == w);
                            if vb[a] != p {
                                assert(vb[a][p.len() as int] != w);
                            }
                        } else if b < before.len() {
                            assert(vs[b] == vb[b]);
                            assert(placed(vb[b], p, targets@, i as int));
                            assert(vs[a][p.len() as int] == w);
                            if vb[b] != p {
                                assert(vb[b][p.len() as int] != w);
                            }
                        }
                    }
                    if !self.max_reached {
                        assert(!before_max);
                        assert forall|ext: Seq<usize>| #[trigger] completes(adj@, p, ext) && covered(ext, p, targets@, i + 1)
                            implies found_in(cycle_views(self.cycles@), p + ext) by {
                            if ext.len() > 0 && ext[0] == w {
                                let rest = ext.skip(1);
                                assert(q + rest =~= p + ext);
                                assert(completes(adj@, q, rest));
                            } else {
                                assert(covered(ext, p, targets@, i as int));
                                let k = choose|k: int| 0 <= k < vb.len() && #[trigger] vb[k] == p + ext;
                                assert(vs[k] == vb[k]);
                            }
                        }
                    }
                }
            } else {
                proof {
                    if !self.max_reached {
                        assert forall|ext: Seq<usize>| #[trigger] completes(adj@, p, ext) && covered(ext, p, targets@, i + 1)
                            implies found_in(cycle_views(self.cycles@), p + ext) by {
                            if ext.len() > 0 && ext[0] == w {
                                let c = p + ext;
                                assert(c[p.len() as int] == w);
                                if self.on_path@[w as int] {
                                    assert(p.contains(w));
                                    let j = choose|j: int| 0 <= j < p.len() && p[j] == w;
                                    assert(c[j] == w);
                                }
                            } else {
                                assert(covered(ext, p, targets@, i as int));
                            }
                        }
                    }
                    assert forall|k: int| entry.len() <= k < self.cycles@.len()
                        implies placed(#[trigger] cycle_views(self.cycles@)[k], p, targets@, i + 1) by {
                        assert(placed(cycle_views(self.cycles@)[k], p, targets@, i as int));
                    }
                }
            }
            i += 1;
        }
        proof {
            assert(targets@.take(targets@.len() as int) =~= targets@);
            let vs = cycle_views(self.cycles@);
            assert forall|k: int| entry.len() <= k < self.cycles@.len() implies extends_path(#[trigger] cycle_views(self.cycles@)[k], p) by {
                assert(placed(vs[k], p, targets@, targets@.len() as int));
                if vs[k] == p {
                    assert(p.take(p.len() as int) =~= p);
                }
            }
            if !self.max_reached {
                assert forall|ext: Seq<usize>| #[trigger] completes(adj@, p, ext) implies found_in(cycle_views(self.cycles@), p + ext) by {
                    let c = p + ext;
                    if ext.len() == 0 {
                        assert(c =~= p);
                        assert(has_edge(adj@, last as int, start as int));
                    } else {
                        assert(c[p.len() - 1] == last);
                        assert(c[p.len() as int] == ext[0]);
                        let j = p.len() - 1;
                        assert(has_edge(adj@, c[j] as int, c[j + 1] as int));
                    }
                    assert(covered(ext, p, targets@, targets@.len() as int));
                }
            }
        }
    }
}

} // verus!
