//! The search behind `transitively depend on classes that ..`: from the targets of an item's
//! dependencies, depth first along dependencies on items outside the checked ones, to an item
//! that matches a predicate.

use vstd::prelude::*;
use vstd::set_lib::*;
use vstd::string::*;

use super::condition::reference_of;
use super::events::{
    is_blank, message_text, single_event, ConditionEvents, CorrespondingObject, EventView,
    EventsView, SimpleConditionEvent, create_message,
};
use crate::base::predicates::{lemma_has_string_contains, ItemPredicate};
use crate::domain::{contains_string, find_item, resolve, Dependency, ItemRef, RustItem, RustItems};
use crate::order::{sort_unique, sorted_unique};
use crate::text::{cat3, join, join_seq, views};

verus! {

/// The names of the targets of `deps` that are not in `scope`, in order.
pub open spec fn names_outside(deps: Seq<Dependency>, scope: Seq<Seq<char>>) -> Seq<Seq<char>>
    decreases deps.len(),
{
    if deps.len() == 0 {
        Seq::empty()
    } else {
        names_outside(deps.drop_last(), scope) + if scope.contains(deps.last().target.full_name@) {
            Seq::empty()
        } else {
            seq![deps.last().target.full_name@]
        }
    }
}

/// The position of the first dependency of `deps`, from `from` on, whose target is named
/// `name`.
pub open spec fn first_targeting(deps: Seq<Dependency>, name: Seq<char>, from: int) -> Option<int>
    decreases deps.len() - from,
{
    if from < 0 || from >= deps.len() {
        None
    } else if deps[from].target.full_name@ == name {
        Some(from)
    } else {
        first_targeting(deps, name, from + 1)
    }
}

/// The target named `name` of the first dependency on it.
pub open spec fn target_named(deps: Seq<Dependency>, name: Seq<char>) -> ItemRef {
    deps[first_targeting(deps, name, 0).unwrap()].target
}

/// The targets of `deps` outside `scope`, one per name, ordered by name.
pub open spec fn outside_targets(deps: Seq<Dependency>, scope: Seq<Seq<char>>) -> Seq<ItemRef> {
    sort_unique(names_outside(deps, scope)).map_values(|n: Seq<char>| target_named(deps, n))
}

/// The positions of the items whose names are not in `analyzed`.
pub open spec fn unanalyzed(items: Seq<RustItem>, analyzed: Seq<Seq<char>>) -> Set<int> {
    Set::new(|k: int| 0 <= k < items.len() && !analyzed.contains(items[k].full_name@))
}

/// Every name of `a` is in `b`.
pub open spec fn kept(a: Seq<Seq<char>>, b: Seq<Seq<char>>) -> bool {
    forall|x: Seq<char>| #[trigger] a.contains(x) ==> b.contains(x)
}

pub proof fn lemma_unanalyzed_finite(items: Seq<RustItem>, a: Seq<Seq<char>>)
    ensures
        unanalyzed(items, a).finite(),
{
    lemma_int_range(0, items.len() as int);
    assert(unanalyzed(items, a).subset_of(set_int_range(0, items.len() as int)));
    lemma_len_subset(unanalyzed(items, a), set_int_range(0, items.len() as int));
}

/// Analyzing more leaves fewer items unanalyzed.
pub proof fn lemma_unanalyzed_kept(items: Seq<RustItem>, a: Seq<Seq<char>>, b: Seq<Seq<char>>)
    requires
        kept(a, b),
    ensures
        unanalyzed(items, b).len() <= unanalyzed(items, a).len(),
{
    lemma_unanalyzed_finite(items, a);
    assert forall|k: int| #[trigger] unanalyzed(items, b).contains(k) implies unanalyzed(items, a).contains(k) by {
        if a.contains(items[k].full_name@) {
            assert(b.contains(items[k].full_name@));
        }
    }
    lemma_len_subset(unanalyzed(items, b), unanalyzed(items, a));
}

/// Analyzing an unanalyzed item leaves fewer items unanalyzed.
pub proof fn lemma_unanalyzed_push(items: Seq<RustItem>, a: Seq<Seq<char>>, k: int)
    requires
        0 <= k < items.len(),
        !a.contains(items[k].full_name@),
    ensures
        unanalyzed(items, a.push(items[k].full_name@)).len() < unanalyzed(items, a).len(),
{
    let n = items[k].full_name@;
    let b = a.push(n);
    let s = unanalyzed(items, a);
    lemma_unanalyzed_finite(items, a);
    assert(s.contains(k));
    assert(b[a.len() as int] == n);
    assert forall|j: int| #[trigger] unanalyzed(items, b).contains(j) implies s.remove(k).contains(j) by {
        if a.contains(items[j].full_name@) {
            let i = choose|i: int| 0 <= i < a.len() && a[i] == items[j].full_name@;
            assert(b[i] == a[i]);
        }
    }
    lemma_len_subset(unanalyzed(items, b), s.remove(k));
}

/// `find_item` finds an item of that name.
pub proof fn lemma_find_item(items: Seq<RustItem>, name: Seq<char>, from: int)
    ensures
        find_item(items, name, from) matches Some(k) ==> from <= k < items.len() && items[k].full_name@ == name,
    decreases items.len() - from,
{
    if 0 <= from < items.len() && items[from].full_name@ != name {
        lemma_find_item(items, name, from + 1);
    }
}

/// The search from `node`: a path from `node` to an item that matches `p`,
/// along targets outside `scope` that were not analyzed yet, and the names analyzed after
/// it. An item outside `items` has no dependencies.
pub open spec fn path_from(
    p: ItemPredicate,
    items: Seq<RustItem>,
    scope: Seq<Seq<char>>,
    node: ItemRef,
    analyzed: Seq<Seq<char>>,
) -> (Option<Seq<ItemRef>>, Seq<Seq<char>>)
    decreases unanalyzed(items, analyzed).len(), 0int, 0int,
{
    let name = node.full_name@;
    if p.holds(resolve(items, node)) {
        (Some(seq![node]), analyzed)
    } else {
        match find_item(items, name, 0) {
            None => (None, analyzed.push(name)),
            Some(k) => {
                if analyzed.contains(name) {
                    (None, analyzed)
                } else {
                    proof {
                        lemma_find_item(items, name, 0);
                        lemma_unanalyzed_push(items, analyzed, k);
                    }
                    let (q, after) = path_through(
                        p,
                        items,
                        scope,
                        outside_targets(items[k].dependencies@, scope),
                        0,
                        analyzed.push(name),
                    );
                    match q {
                        Some(q) => (Some(seq![node] + q), after),
                        None => (None, after),
                    }
                }
            },
        }
    }
}

/// The search through `targets` from position `i` on, skipping analyzed ones; the first path
/// found ends it.
pub open spec fn path_through(
    p: ItemPredicate,
    items: Seq<RustItem>,
    scope: Seq<Seq<char>>,
    targets: Seq<ItemRef>,
    i: int,
    analyzed: Seq<Seq<char>>,
) -> (Option<Seq<ItemRef>>, Seq<Seq<char>>)
    decreases unanalyzed(items, analyzed).len(), 1int, targets.len() - i,
{
    if i < 0 || i >= targets.len() {
        (None, analyzed)
    } else if analyzed.contains(targets[i].full_name@) {
        path_through(p, items, scope, targets, i + 1, analyzed)
    } else {
        let (q, after) = path_from(p, items, scope, targets[i], analyzed);
        if q is Some {
            (q, after)
        } else if !kept(analyzed, after) {
            (None, after)
        } else {
            proof {
                lemma_unanalyzed_kept(items, analyzed, after);
            }
            path_through(p, items, scope, targets, i + 1, after)
        }
    }
}

/// The names along a path.
pub open spec fn ref_names(path: Seq<ItemRef>) -> Seq<Seq<char>> {
    path.map_values(|r: ItemRef| r.full_name@)
}

/// How a found path reads: `depends on <target>`, or, over more than one step,
/// `transitively depends on <target> by [a->b->..]`.
pub open spec fn path_message(path: Seq<ItemRef>) -> Seq<char> {
    if path.len() > 1 {
        "transitively depends on <"@ + path.last().full_name@ + "> by ["@ + join_seq(ref_names(path), "->"@) + "]"@
    } else {
        "depends on <"@ + path.last().full_name@ + ">"@
    }
}

/// The satisfied events of `item`, one per target from which a matching item is reached.
pub open spec fn found_events(
    p: ItemPredicate,
    items: Seq<RustItem>,
    scope: Seq<Seq<char>>,
    item: RustItem,
    targets: Seq<ItemRef>,
) -> Seq<EventView>
    decreases targets.len(),
{
    if targets.len() == 0 {
        Seq::empty()
    } else {
        found_events(p, items, scope, item, targets.drop_last()) + match path_from(
            p,
            items,
            scope,
            targets.last(),
            Seq::empty(),
        ).0 {
            Some(path) => seq![
                single_event(CorrespondingObject::Item(reference_of(item)), true, message_text(item, path_message(path))),
            ],
            None => Seq::empty(),
        }
    }
}

/// The events of `transitively depend on classes that <p>` for `item`: one satisfied event per
/// target outside `scope` from which a matching item is reached, or else one violation.
pub open spec fn transitive_events(p: ItemPredicate, item: RustItem, items: Seq<RustItem>, scope: Seq<Seq<char>>) -> Seq<EventView> {
    let found = found_events(p, items, scope, item, outside_targets(item.dependencies@, scope));
    if found.len() == 0 {
        seq![
            single_event(
                CorrespondingObject::Item(reference_of(item)),
                false,
                message_text(item, "does not transitively depend on any matching class"@),
            ),
        ]
    } else {
        found
    }
}

/// The first dependency from `from` on that targets `name` is found, if some dependency
/// there does.
proof fn lemma_first_targeting(deps: Seq<Dependency>, name: Seq<char>, from: int, d: int)
    requires
        0 <= from <= d < deps.len(),
        deps[d].target.full_name@ == name,
    ensures
        first_targeting(deps, name, from) matches Some(j) && from <= j < deps.len() && deps[j].target.full_name@ == name,
    decreases d - from,
{
    if deps[from].target.full_name@ != name {
        lemma_first_targeting(deps, name, from + 1, d);
    }
}

/// The names of the targets of `deps` outside `scope`, each targeted by some dependency.
fn names_outside_of(deps: &Vec<Dependency>, scope: &Vec<String>) -> (r: Vec<String>)
    ensures
        views(r@) == names_outside(deps@, views(scope@)),
        forall|j: int| 0 <= j < r@.len() ==> (#[trigger] first_targeting(deps@, r@[j]@, 0)) is Some,
{
    let mut r: Vec<String> = Vec::new();
    let mut i: usize = 0;
    while i < deps.len()
        invariant
            i <= deps@.len(),
            views(r@) == names_outside(deps@.take(i as int), views(scope@)),
            forall|j: int| 0 <= j < r@.len() ==> (#[trigger] first_targeting(deps@, r@[j]@, 0)) is Some,
        decreases deps@.len() - i,
    {
        let name = &deps[i].target.full_name;
        proof {
            assert(deps@.take(i + 1).drop_last() =~= deps@.take(i as int));
            lemma_has_string_contains(scope@, name@);
        }
        if !contains_string(scope, name.as_str()) {
            let ghost before = r@;
            r.push(name.clone());
            proof {
                assert(views(r@) =~= views(before).push(name@));
                assert forall|j: int| 0 <= j < r@.len() implies (#[trigger] first_targeting(deps@, r@[j]@, 0)) is Some by {
                    if j == before.len() {
                        lemma_first_targeting(deps@, name@, 0, i as int);
                    } else {
                        assert(r@[j] == before[j]);
                    }
                }
            }
        } else {
            proof {
                assert(views(r@) =~= views(r@) + Seq::<Seq<char>>::empty());
            }
        }
        i += 1;
    }
    proof {
        assert(deps@.take(deps@.len() as int) =~= deps@);
    }
    r
}

/// The target named `name` of the first dependency on it.
fn target_named_of(deps: &Vec<Dependency>, name: &str) -> (r: ItemRef)
    requires
        first_targeting(deps@, name@, 0) is Some,
    ensures
        r == target_named(deps@, name@),
{
    let mut j: usize = 0;
    while j < deps.len()
        invariant
            j <= deps@.len(),
            first_targeting(deps@, name@, 0) == first_targeting(deps@, name@, j as int),
        decreases deps@.len() - j,
    {
        if crate::text::str_eq(deps[j].target.full_name.as_str(), name) {
            return deps[j].target.copy();
        }
        j += 1;
    }
    proof {
        assert(first_targeting(deps@, name@, j as int) is None);
    }
    deps[0].target.copy()
}

/// The targets of `deps` outside `scope`, one per name, ordered by name.
pub fn outside_targets_of(deps: &Vec<Dependency>, scope: &Vec<String>) -> (r: Vec<ItemRef>)
    ensures
        r@ == outside_targets(deps@, views(scope@)),
{
    let names = names_outside_of(deps, scope);
    let sorted = sorted_unique(&names);
    let ghost s = views(sorted@);
    let mut r: Vec<ItemRef> = Vec::new();
    let mut m: usize = 0;
    while m < sorted.len()
        invariant
            m <= sorted@.len(),
            s == views(sorted@),
            s == sort_unique(views(names@)),
            s.to_set() == views(names@).to_set(),
            forall|j: int| 0 <= j < names@.len() ==> (#[trigger] first_targeting(deps@, names@[j]@, 0)) is Some,
            r@ == s.take(m as int).map_values(|n: Seq<char>| target_named(deps@, n)),
        decreases sorted@.len() - m,
    {
        proof {
            assert(s[m as int] == sorted@[m as int]@);
            assert(s.to_set().contains(s[m as int]));
            assert(views(names@).contains(s[m as int]));
            let j = choose|j: int| 0 <= j < views(names@).len() && views(names@)[j] == s[m as int];
            assert(names@[j]@ == s[m as int]);
        }
        let t = target_named_of(deps, sorted[m].as_str());
        r.push(t);
        proof {
            assert(s.take(m + 1) =~= s.take(m as int).push(s[m as int]));
            assert(r@ =~= s.take(m + 1).map_values(|n: Seq<char>| target_named(deps@, n)));
        }
        m += 1;
    }
    proof {
        assert(s.take(sorted@.len() as int) =~= s);
    }
    r
}

/// The view of a found path.
pub open spec fn path_view(o: Option<Vec<ItemRef>>) -> Option<Seq<ItemRef>> {
    match o {
        Some(v) => Some(v@),
        None => None,
    }
}

/// The search from `node` (see [`path_from`]).
fn path_from_of(
    p: &ItemPredicate,
    items: &RustItems,
    scope: &Vec<String>,
    node: &ItemRef,
    done: Vec<String>,
) -> (r: (Option<Vec<ItemRef>>, Vec<String>))
    requires
        p.wf(),
    ensures
        path_view(r.0) == path_from(*p, items.items@, views(scope@), *node, views(done@)).0,
        views(r.1@) == path_from(*p, items.items@, views(scope@), *node, views(done@)).1,
        kept(views(done@), views(r.1@)),
    decreases unanalyzed(items.items@, views(done@)).len(),
{
    let ghost a0 = views(done@);
    let ghost sc = views(scope@);
    let item = items.resolve(node);
    if p.test(&item) {
        let mut v: Vec<ItemRef> = Vec::new();
        v.push(node.copy());
        proof {
            assert(v@ =~= seq![*node]);
        }
        return (Some(v), done);
    }
    let mut analyzed = done;
    match items.position(node.full_name.as_str()) {
        None => {
            analyzed.push(node.full_name.clone());
            proof {
                assert(views(analyzed@) =~= a0.push(node.full_name@));
                assert forall|x: Seq<char>| #[trigger] a0.contains(x) implies views(analyzed@).contains(x) by {
                    let i = choose|i: int| 0 <= i < a0.len() && a0[i] == x;
                    assert(views(analyzed@)[i] == x);
                }
            }
            (None, analyzed)
        },
        Some(k) => {
            proof {
                lemma_has_string_contains(analyzed@, node.full_name@);
            }
            if contains_string(&analyzed, node.full_name.as_str()) {
                return (None, analyzed);
            }
            analyzed.push(node.full_name.clone());
            let ghost start = views(analyzed@);
            proof {
                lemma_find_item(items.items@, node.full_name@, 0);
                lemma_unanalyzed_push(items.items@, a0, k as int);
                assert(start =~= a0.push(node.full_name@));
                assert forall|x: Seq<char>| #[trigger] a0.contains(x) implies start.contains(x) by {
                    let i = choose|i: int| 0 <= i < a0.len() && a0[i] == x;
                    assert(start[i] == x);
                }
            }
            let targets = outside_targets_of(&items.items[k].dependencies, scope);
            let mut i: usize = 0;
            while i < targets.len()
                invariant
                    p.wf(),
                    i <= targets@.len(),
                    (k as int) < items.items@.len(),
                    find_item(items.items@, node.full_name@, 0) == Some(k as int),
                    !p.holds(resolve(items.items@, *node)),
                    !a0.contains(node.full_name@),
                    a0 == views(done@),
                    start == a0.push(node.full_name@),
                    targets@ == outside_targets(items.items@[k as int].dependencies@, sc),
                    sc == views(scope@),
                    kept(a0, start),
                    kept(start, views(analyzed@)),
                    unanalyzed(items.items@, views(analyzed@)).len() < unanalyzed(items.items@, a0).len(),
                    path_through(*p, items.items@, sc, targets@, 0, start)
                        == path_through(*p, items.items@, sc, targets@, i as int, views(analyzed@)),
                decreases targets@.len() - i,
            {
                proof {
                    lemma_has_string_contains(analyzed@, targets@[i as int].full_name@);
                }
                if !contains_string(&analyzed, targets[i].full_name.as_str()) {
                    let ghost before = views(analyzed@);
                    proof {
                        assert(unanalyzed(items.items@, before).len() < unanalyzed(items.items@, a0).len());
                    }
                    let (q, after) = path_from_of(p, items, scope, &targets[i], analyzed);
                    analyzed = after;
                    proof {
                        lemma_unanalyzed_kept(items.items@, before, views(analyzed@));
                    }
                    match q {
                        Some(q) => {
                            let mut path: Vec<ItemRef> = Vec::new();
                            path.push(node.copy());
                            let mut q = q;
                            path.append(&mut q);
                            proof {
                                assert(path_through(*p, items.items@, sc, targets@, i as int, before).0
                                    == path_from(*p, items.items@, sc, targets@[i as int], before).0);
                                assert(path@ =~= seq![*node] + path_from(*p, items.items@, sc, targets@[i as int], before).0.unwrap());
                            }
                            return (Some(path), analyzed);
                        },
                        None => {},
                    }
                }
                i += 1;
            }
            (None, analyzed)
        },
    }
}

/// `names` joined by `->`.
fn path_message_of(path: &Vec<ItemRef>) -> (r: String)
    requires
        path@.len() > 0,
    ensures
        r@ == path_message(path@),
{
    let last = &path[path.len() - 1].full_name;
    if path.len() > 1 {
        let mut names: Vec<String> = Vec::new();
        let mut i: usize = 0;
        while i < path.len()
            invariant
                i <= path@.len(),
                views(names@) == ref_names(path@.take(i as int)),
            decreases path@.len() - i,
        {
            let ghost old_names = names@;
            names.push(path[i].full_name.clone());
            proof {
                assert(views(names@) =~= views(old_names).push(path@[i as int].full_name@));
                assert(path@.take(i + 1) =~= path@.take(i as int).push(path@[i as int]));
                assert(views(names@) =~= ref_names(path@.take(i + 1)));
            }
            i += 1;
        }
        proof {
            assert(path@.take(path@.len() as int) =~= path@);
        }
        let joined = join(&names, "->");
        let head = cat3("transitively depends on <", last.as_str(), "> by [");
        let mut r = head;
        r.append(joined.as_str());
        r.append("]");
        r
    } else {
        cat3("depends on <", last.as_str(), ">")
    }
}

/// Adds the events of `transitively depend on classes that <p>` for `item`.
pub fn check_transitive(
    p: &ItemPredicate,
    item: &RustItem,
    items: &RustItems,
    scope: &Vec<String>,
    events: &mut ConditionEvents,
)
    requires
        p.wf(),
    ensures
        final(events)@ == old(events)@.added_all(transitive_events(*p, *item, items.items@, views(scope@))),
{
    let ghost sc = views(scope@);
    let ghost start = events@;
    let targets = outside_targets_of(&item.dependencies, scope);
    let mut found: usize = 0;
    let mut i: usize = 0;
    while i < targets.len()
        invariant
            p.wf(),
            i <= targets@.len(),
            sc == views(scope@),
            targets@ == outside_targets(item.dependencies@, sc),
            found <= i,
            found == found_events(*p, items.items@, sc, *item, targets@.take(i as int)).len(),
            events@ == start.added_all(found_events(*p, items.items@, sc, *item, targets@.take(i as int))),
        decreases targets@.len() - i,
    {
        let fresh: Vec<String> = Vec::new();
        proof {
            assert(views(fresh@) =~= Seq::<Seq<char>>::empty());
        }
        let (q, _analyzed) = path_from_of(p, items, scope, &targets[i], fresh);
        let ghost before = found_events(*p, items.items@, sc, *item, targets@.take(i as int));
        proof {
            assert(targets@.take(i + 1).drop_last() =~= targets@.take(i as int));
            assert(targets@.take(i + 1).last() == targets@[i as int]);
        }
        match q {
            Some(path) => {
                let message = path_message_of(&path);
                let text = create_message(item, message.as_str());
                let e = SimpleConditionEvent::new(CorrespondingObject::Item(item.reference()), true, text);
                events.add(e);
                found = found + 1;
                proof {
                    let now = found_events(*p, items.items@, sc, *item, targets@.take(i + 1));
                    assert(now == before.push(e.event_view()));
                    assert(now.drop_last() =~= before);
                }
            },
            None => {
                proof {
                    let now = found_events(*p, items.items@, sc, *item, targets@.take(i + 1));
                    assert(now =~= before);
                }
            },
        }
        i += 1;
    }
    proof {
        assert(targets@.take(targets@.len() as int) =~= targets@);
    }
    if found == 0 {
        let text = create_message(item, "does not transitively depend on any matching class");
        proof {
            super::condition::lemma_message_not_blank(*item, "does not transitively depend on any matching class"@);
        }
        let e = SimpleConditionEvent::new(CorrespondingObject::Item(item.reference()), false, text);
        events.add(e);
        proof {
            let all = found_events(*p, items.items@, sc, *item, targets@);
            assert(all =~= Seq::<EventView>::empty());
            let s = seq![e.event_view()];
            assert(s.drop_last() =~= Seq::<EventView>::empty());
        }
    }
}

} // verus!
