//! Properties of the analyses that relate several calls or hold of every graph.
use vstd::prelude::*;
use crate::model::{
    closed_walk, core_ids, dep_set, deps, edge, has_node, is_walk, keys, reachable, Entry, Id,
};

verus! {

/// An identifier without a node entry has no dependents, so a change to it
/// invalidates nothing.
pub proof fn unknown_fact_invalidates_nothing(g: Seq<Entry>, start: Id, x: Id)
    requires
        !has_node(g, start),
    ensures
        !reachable(g, start, x),
{
    if reachable(g, start, x) {
        let p = choose|p: Seq<Id>| p.len() >= 2 && p[0] == start && p.last() == x && #[trigger] is_walk(g, p);
        let z: int = 0;
        assert(edge(g, p[z], p[z + 1]));
    }
}

/// In a graph where no identifier reaches itself, the start of an
/// invalidation is never among the invalidated facts.
pub proof fn acyclic_start_not_invalidated(g: Seq<Entry>, start: Id)
    requires
        forall|y: Id| !#[trigger] reachable(g, y, y),
    ensures
        !reachable(g, start, start),
{
    assert(!reachable(g, start, start));
}

/// A closed walk, as every reported cycle is, makes its first identifier
/// reach itself; so in a graph where no identifier reaches itself no cycle
/// can be reported.
pub proof fn reported_cycle_is_cyclic(g: Seq<Entry>, c: Seq<Id>)
    requires
        closed_walk(g, c),
    ensures
        reachable(g, c[0], c[0]),
{
    let p = c.push(c[0]);
    assert forall|i: int| 0 <= i < p.len() - 1 implies #[trigger] edge(g, p[i], p[i + 1]) by {
        if i < c.len() - 1 {
            assert(edge(g, c[i], c[i + 1]));
        }
    }
    assert(is_walk(g, p));
}

/// Jaccard similarity is symmetric: swapping the two facts leaves both the
/// intersection and the union of their dependent sets unchanged.
pub proof fn jaccard_symmetric(g: Seq<Entry>, a: Id, b: Id)
    ensures
        dep_set(g, a).intersect(dep_set(g, b)).len() == dep_set(g, b).intersect(dep_set(g, a)).len(),
        dep_set(g, a).union(dep_set(g, b)).len() == dep_set(g, b).union(dep_set(g, a)).len(),
{
    assert(dep_set(g, a).intersect(dep_set(g, b)) =~= dep_set(g, b).intersect(dep_set(g, a)));
    assert(dep_set(g, a).union(dep_set(g, b)) =~= dep_set(g, b).union(dep_set(g, a)));
}

/// Two facts with the same nonempty set of dependents have similarity one:
/// intersection and union have the same, nonzero, size.
pub proof fn jaccard_identical(g: Seq<Entry>, a: Id, b: Id)
    requires
        dep_set(g, a) == dep_set(g, b),
        dep_set(g, a).len() > 0,
    ensures
        dep_set(g, a).intersect(dep_set(g, b)).len() == dep_set(g, a).union(dep_set(g, b)).len(),
        dep_set(g, a).union(dep_set(g, b)).len() > 0,
{
    assert(dep_set(g, a).intersect(dep_set(g, b)) =~= dep_set(g, a));
    assert(dep_set(g, a).union(dep_set(g, b)) =~= dep_set(g, a));
}

/// Where either fact has no dependents, or their dependent sets are
/// disjoint, the intersection is empty and the similarity is zero.
pub proof fn jaccard_zero(g: Seq<Entry>, a: Id, b: Id)
    requires
        deps(g, a).len() == 0 || deps(g, b).len() == 0 || dep_set(g, a).disjoint(dep_set(g, b)),
    ensures
        dep_set(g, a).intersect(dep_set(g, b)).len() == 0,
{
    assert(dep_set(g, a).intersect(dep_set(g, b)) =~= Set::<Id>::empty());
}

/// With threshold zero the k-core filter keeps every node identifier.
pub proof fn k_core_zero_is_all(g: Seq<Entry>)
    ensures
        core_ids(g, 0) == keys(g).to_set(),
{
    assert forall|x: Id| #[trigger] core_ids(g, 0).contains(x) <==> keys(g).to_set().contains(x) by {
        if has_node(g, x) {
            let j = choose|j: int| 0 <= j < g.len() && g[j].0 == x;
            assert(keys(g)[j] == x);
        }
        if keys(g).contains(x) {
            let j = choose|j: int| 0 <= j < keys(g).len() && keys(g)[j] == x;
            assert(g[j].0 == x);
        }
    }
    assert(core_ids(g, 0) =~= keys(g).to_set());
}

/// Raising the threshold of the k-core filter never adds identifiers, so its
/// size never grows.
pub proof fn k_core_monotone(g: Seq<Entry>, k1: nat, k2: nat)
    requires
        k1 <= k2,
    ensures
        core_ids(g, k2).subset_of(core_ids(g, k1)),
        core_ids(g, k2).len() <= core_ids(g, k1).len(),
{
    k_core_zero_is_all(g);
    assert(core_ids(g, k1).subset_of(core_ids(g, 0)));
    vstd::set_lib::lemma_len_subset(core_ids(g, k1), keys(g).to_set());
    vstd::set_lib::lemma_len_subset(core_ids(g, k2), core_ids(g, k1));
}

} // verus!
