//! Mathematical model of the node store and of reachability over it.
use vstd::prelude::*;

verus! {

/// A fact identifier, as the characters of its name.
pub type Id = Seq<char>;

/// One node entry: its identifier and its declared dependents, in order.
pub type Entry = (Seq<char>, Seq<Seq<char>>);

/// The identifiers held by a vector of strings.
pub open spec fn ids_of(v: Seq<String>) -> Seq<Id> {
    v.map_values(|s: String| s@)
}

/// The identifiers that have a node entry, in store order.
pub open spec fn keys(g: Seq<Entry>) -> Seq<Id> {
    g.map_values(|e: Entry| e.0)
}

/// Node identifiers are unique within the store.
pub open spec fn wf_model(g: Seq<Entry>) -> bool {
    keys(g).no_duplicates()
}

pub open spec fn has_node(g: Seq<Entry>, id: Id) -> bool {
    exists|i: int| 0 <= i < g.len() && g[i].0 == id
}

/// The position of the entry for `id`, where there is one.
pub open spec fn node_index(g: Seq<Entry>, id: Id) -> int {
    choose|i: int| 0 <= i < g.len() && g[i].0 == id
}

/// The dependents of `id`; empty when `id` has no node entry.
pub open spec fn deps(g: Seq<Entry>, id: Id) -> Seq<Id> {
    if has_node(g, id) {
        g[node_index(g, id)].1
    } else {
        Seq::empty()
    }
}

/// There is an edge `a -> b`: `b` is among the dependents of `a`.
pub open spec fn edge(g: Seq<Entry>, a: Id, b: Id) -> bool {
    deps(g, a).contains(b)
}

/// `p` is a walk along dependency edges.
pub open spec fn is_walk(g: Seq<Entry>, p: Seq<Id>) -> bool {
    forall|i: int| 0 <= i < p.len() - 1 ==> #[trigger] edge(g, p[i], p[i + 1])
}

/// `b` can be reached from `a` through one or more dependency edges.
pub open spec fn reachable(g: Seq<Entry>, a: Id, b: Id) -> bool {
    exists|p: Seq<Id>| p.len() >= 2 && p[0] == a && p.last() == b && #[trigger] is_walk(g, p)
}

/// The entry of `g` at index `i` has identifier `id`; in a well-formed store it
/// holds the dependents of `id`.
pub proof fn lemma_deps_at(g: Seq<Entry>, i: int)
    requires
        wf_model(g),
        0 <= i < g.len(),
    ensures
        deps(g, g[i].0) == g[i].1,
{
    let id = g[i].0;
    assert(has_node(g, id));
    let j = node_index(g, id);
    assert(keys(g)[i] == id && keys(g)[j] == id);
    assert(i == j);
}

/// A walk extended by one edge is a walk.
pub proof fn lemma_reach_step(g: Seq<Entry>, a: Id, b: Id, c: Id)
    requires
        a == b || reachable(g, a, b),
        edge(g, b, c),
    ensures
        reachable(g, a, c),
{
    if a == b {
        let p = seq![a, c];
        assert(is_walk(g, p));
    } else {
        let p = choose|p: Seq<Id>| p.len() >= 2 && p[0] == a && p.last() == b && #[trigger] is_walk(g, p);
        let q = p.push(c);
        assert forall|i: int| 0 <= i < q.len() - 1 implies #[trigger] edge(g, q[i], q[i + 1]) by {
            if i < p.len() - 1 {
                assert(edge(g, p[i], p[i + 1]));
            }
        }
        assert(is_walk(g, q));
    }
}

/// Every identifier reachable from `a` lies in any set that holds the
/// dependents of `a` and is closed under taking dependents.
pub proof fn lemma_closed_holds_reach(g: Seq<Entry>, a: Id, s: Set<Id>, b: Id)
    requires
        forall|x: Id| #[trigger] deps(g, a).contains(x) ==> s.contains(x),
        forall|y: Id, x: Id| s.contains(y) && #[trigger] deps(g, y).contains(x) ==> s.contains(x),
        reachable(g, a, b),
    ensures
        s.contains(b),
{
    let p = choose|p: Seq<Id>| p.len() >= 2 && p[0] == a && p.last() == b && #[trigger] is_walk(g, p);
    lemma_walk_in_closed(g, p, s, p.len() - 1);
}

proof fn lemma_walk_in_closed(g: Seq<Entry>, p: Seq<Id>, s: Set<Id>, k: int)
    requires
        is_walk(g, p),
        1 <= k < p.len(),
        forall|x: Id| #[trigger] deps(g, p[0]).contains(x) ==> s.contains(x),
        forall|y: Id, x: Id| s.contains(y) && #[trigger] deps(g, y).contains(x) ==> s.contains(x),
    ensures
        s.contains(p[k]),
    decreases k,
{
    let i = k - 1;
    assert(edge(g, p[i], p[i + 1]));
    if k > 1 {
        lemma_walk_in_closed(g, p, s, k - 1);
    }
}

/// Every identifier named as a dependent, entry by entry.
pub open spec fn all_deps(g: Seq<Entry>) -> Seq<Id>
    decreases g.len(),
{
    if g.len() == 0 {
        Seq::empty()
    } else {
        all_deps(g.drop_last()) + g.last().1
    }
}

/// A dependent of any identifier is among `all_deps(g)`.
pub proof fn lemma_in_all_deps(g: Seq<Entry>, y: Id, x: Id)
    requires
        deps(g, y).contains(x),
    ensures
        all_deps(g).contains(x),
{
    lemma_entry_in_all_deps(g, node_index(g, y), x);
}

proof fn lemma_entry_in_all_deps(g: Seq<Entry>, i: int, x: Id)
    requires
        0 <= i < g.len(),
        g[i].1.contains(x),
    ensures
        all_deps(g).contains(x),
    decreases g.len(),
{
    let k = choose|k: int| 0 <= k < g[i].1.len() && g[i].1[k] == x;
    let pre = all_deps(g.drop_last());
    if i == g.len() - 1 {
        assert((pre + g.last().1)[pre.len() + k] == x);
    } else {
        assert(g.drop_last()[i] == g[i]);
        lemma_entry_in_all_deps(g.drop_last(), i, x);
        let m = choose|m: int| 0 <= m < pre.len() && pre[m] == x;
        assert((pre + g.last().1)[m] == x);
    }
}

/// A sequence without duplicates whose members all occur in `b` is no longer
/// than `b`.
pub proof fn lemma_nodup_len_le(a: Seq<Id>, b: Seq<Id>)
    requires
        a.no_duplicates(),
        forall|x: Id| a.contains(x) ==> b.contains(x),
    ensures
        a.len() <= b.len(),
{
    a.unique_seq_to_set();
    b.lemma_cardinality_of_set();
    assert(a.to_set().subset_of(b.to_set()));
    vstd::set_lib::lemma_len_subset(a.to_set(), b.to_set());
}

/// Appending `y` adds exactly `y`, and keeps the sequence free of duplicates
/// when `y` was absent.
pub proof fn lemma_push_contains(a: Seq<Id>, y: Id)
    ensures
        forall|x: Id| #[trigger] a.push(y).contains(x) <==> (a.contains(x) || x == y),
        a.no_duplicates() && !a.contains(y) ==> a.push(y).no_duplicates(),
{
    assert(a.push(y)[a.len() as int] == y);
    assert forall|x: Id| #[trigger] a.push(y).contains(x) <==> (a.contains(x) || x == y) by {
        if a.push(y).contains(x) {
            let m = choose|m: int| 0 <= m < a.push(y).len() && a.push(y)[m] == x;
            if m < a.len() {
                assert(a[m] == x);
            }
        }
        if a.contains(x) {
            let m = choose|m: int| 0 <= m < a.len() && a[m] == x;
            assert(a.push(y)[m] == x);
        }
    }
    if a.no_duplicates() && !a.contains(y) {
        assert forall|i: int, j: int| 0 <= i < j < a.push(y).len() implies a.push(y)[i] != a.push(y)[j] by {
            if j == a.len() {
                assert(a[i] == a.push(y)[i]);
            }
        }
    }
}

/// The identifiers of a vector with one more string pushed.
pub proof fn lemma_ids_push(v: Seq<String>, s: String)
    ensures
        ids_of(v.push(s)) == ids_of(v).push(s@),
{
    assert(ids_of(v.push(s)) =~= ids_of(v).push(s@));
}

/// The set of dependents of `id`, duplicates dropped.
pub open spec fn dep_set(g: Seq<Entry>, id: Id) -> Set<Id> {
    deps(g, id).to_set()
}

/// The identifiers whose node entry has at least `k` dependents.
pub open spec fn core_ids(g: Seq<Entry>, k: nat) -> Set<Id> {
    Set::new(|x: Id| has_node(g, x) && deps(g, x).len() >= k)
}

/// The largest number of dependents of any entry.
pub open spec fn max_degree(g: Seq<Entry>) -> nat
    decreases g.len(),
{
    if g.len() == 0 {
        0
    } else {
        let m = max_degree(g.drop_last());
        if g.last().1.len() > m {
            g.last().1.len()
        } else {
            m
        }
    }
}

/// The sequences of `cs` one after another.
pub open spec fn concat(cs: Seq<Seq<Id>>) -> Seq<Id>
    decreases cs.len(),
{
    if cs.len() == 0 {
        Seq::empty()
    } else {
        concat(cs.drop_last()) + cs.last()
    }
}

/// The identifiers of each vector of `cs`.
pub open spec fn groups_of(cs: Seq<Vec<String>>) -> Seq<Seq<Id>> {
    cs.map_values(|c: Vec<String>| ids_of(c@))
}

/// `x` is named in the store, as a node or as a dependent.
pub open spec fn mentioned(g: Seq<Entry>, x: Id) -> bool {
    has_node(g, x) || all_deps(g).contains(x)
}

/// `c` is the forward flood from its first identifier, a node: everything
/// that identifier reaches, itself included, except what `earlier` holds.
pub open spec fn flood_from(g: Seq<Entry>, c: Seq<Id>, earlier: Seq<Id>) -> bool {
    &&& c.len() > 0
    &&& has_node(g, c[0])
    &&& forall|x: Id| #[trigger] c.contains(x) <==> ((x == c[0] || reachable(g, c[0], x)) && !earlier.contains(x))
}

pub proof fn lemma_concat_push(cs: Seq<Vec<String>>, c: Vec<String>)
    ensures
        concat(groups_of(cs.push(c))) == concat(groups_of(cs)) + ids_of(c@),
{
    assert(groups_of(cs.push(c)).drop_last() =~= groups_of(cs));
}

/// Every identifier in `all_deps(g)` is a dependent of some entry.
pub proof fn lemma_all_deps_source(g: Seq<Entry>, x: Id)
    requires
        all_deps(g).contains(x),
    ensures
        exists|i: int| 0 <= i < g.len() && #[trigger] g[i].1.contains(x),
    decreases g.len(),
{
    let pre = all_deps(g.drop_last());
    let m = choose|m: int| 0 <= m < all_deps(g).len() && all_deps(g)[m] == x;
    if m < pre.len() {
        assert(pre[m] == x);
        lemma_all_deps_source(g.drop_last(), x);
        let i = choose|i: int| 0 <= i < g.drop_last().len() && #[trigger] g.drop_last()[i].1.contains(x);
        assert(g[i] == g.drop_last()[i]);
    } else {
        assert(g.last().1[m - pre.len()] == x);
        assert(g[g.len() - 1].1.contains(x));
    }
}

/// `c` is a nonempty walk whose last identifier has an edge back to its first.
pub open spec fn closed_walk(g: Seq<Entry>, c: Seq<Id>) -> bool {
    c.len() > 0 && is_walk(g, c) && edge(g, c.last(), c[0])
}

/// All identifiers named in the store: node identifiers, then dependents.
pub open spec fn universe(g: Seq<Entry>) -> Seq<Id> {
    keys(g) + all_deps(g)
}

/// A duplicate-free sequence of named identifiers is no longer than the universe.
pub proof fn lemma_mentioned_bound(g: Seq<Entry>, v: Seq<Id>)
    requires
        v.no_duplicates(),
        forall|x: Id| #[trigger] v.contains(x) ==> mentioned(g, x),
    ensures
        v.len() <= universe(g).len(),
        forall|x: Id| v.contains(x) ==> universe(g).contains(x),
{
    assert forall|x: Id| v.contains(x) implies universe(g).contains(x) by {
        if has_node(g, x) {
            let j = choose|j: int| 0 <= j < g.len() && g[j].0 == x;
            assert(universe(g)[j] == x);
        } else {
            let m = choose|m: int| 0 <= m < all_deps(g).len() && all_deps(g)[m] == x;
            assert(universe(g)[keys(g).len() + m] == x);
        }
    }
    lemma_nodup_len_le(v, universe(g));
}

/// For two-step walks `a -> b -> c` with `c` ranging over the distinct
/// identifiers of `cs`: one for each `c` that closes a directed 3-cycle
/// (`c -> a`), one for each `c` that `a` reaches directly too. An identifier
/// listed again adds nothing.
pub open spec fn closing_count(g: Seq<Entry>, a: Id, cs: Seq<Id>) -> nat
    decreases cs.len(),
{
    if cs.len() == 0 {
        0
    } else if cs.drop_last().contains(cs.last()) {
        closing_count(g, a, cs.drop_last())
    } else {
        closing_count(g, a, cs.drop_last()) + (if deps(g, cs.last()).contains(a) { 1nat } else { 0nat }) + (if deps(g, a).contains(cs.last()) { 1nat } else { 0nat })
    }
}

/// The closing counts over each distinct `b` of `bs`, with `c` ranging over
/// the dependents of `b`.
pub open spec fn pattern_count(g: Seq<Entry>, a: Id, bs: Seq<Id>) -> nat
    decreases bs.len(),
{
    if bs.len() == 0 {
        0
    } else if bs.drop_last().contains(bs.last()) {
        pattern_count(g, a, bs.drop_last())
    } else {
        pattern_count(g, a, bs.drop_last()) + closing_count(g, a, deps(g, bs.last()))
    }
}

/// The pattern counts over the entries `es`, each as `a` with its dependents.
pub open spec fn triangle_patterns(g: Seq<Entry>, es: Seq<Entry>) -> nat
    decreases es.len(),
{
    if es.len() == 0 {
        0
    } else {
        triangle_patterns(g, es.drop_last()) + pattern_count(g, es.last().0, es.last().1)
    }
}

pub proof fn lemma_closing_prefix(g: Seq<Entry>, a: Id, cs: Seq<Id>, k: int)
    requires
        0 <= k <= cs.len(),
    ensures
        closing_count(g, a, cs.take(k)) <= closing_count(g, a, cs),
    decreases cs.len(),
{
    if k < cs.len() {
        assert(cs.drop_last().take(k) =~= cs.take(k));
        lemma_closing_prefix(g, a, cs.drop_last(), k);
    } else {
        assert(cs.take(k) =~= cs);
    }
}

pub proof fn lemma_pattern_prefix(g: Seq<Entry>, a: Id, bs: Seq<Id>, k: int)
    requires
        0 <= k <= bs.len(),
    ensures
        pattern_count(g, a, bs.take(k)) <= pattern_count(g, a, bs),
    decreases bs.len(),
{
    if k < bs.len() {
        assert(bs.drop_last().take(k) =~= bs.take(k));
        lemma_pattern_prefix(g, a, bs.drop_last(), k);
    } else {
        assert(bs.take(k) =~= bs);
    }
}

pub proof fn lemma_triangle_prefix(g: Seq<Entry>, es: Seq<Entry>, k: int)
    requires
        0 <= k <= es.len(),
    ensures
        triangle_patterns(g, es.take(k)) <= triangle_patterns(g, es),
    decreases es.len(),
{
    if k < es.len() {
        assert(es.drop_last().take(k) =~= es.take(k));
        lemma_triangle_prefix(g, es.drop_last(), k);
    } else {
        assert(es.take(k) =~= es);
    }
}

/// There is a walk of exactly `n` edges from `s` to `x`.
pub open spec fn walk_of(g: Seq<Entry>, s: Id, x: Id, n: nat) -> bool {
    exists|p: Seq<Id>| p.len() == n + 1 && p[0] == s && p.last() == x && #[trigger] is_walk(g, p)
}

/// The shortest walk from `s` to `x` has `n` edges.
pub open spec fn dist_is(g: Seq<Entry>, s: Id, x: Id, n: nat) -> bool {
    walk_of(g, s, x, n) && forall|m: nat| m < n ==> !#[trigger] walk_of(g, s, x, m)
}

pub proof fn lemma_walk_start(g: Seq<Entry>, s: Id)
    ensures
        dist_is(g, s, s, 0),
        forall|x: Id| #[trigger] walk_of(g, s, x, 0) ==> x == s,
{
    let p = seq![s];
    assert(is_walk(g, p));
}

pub proof fn lemma_walk_extend(g: Seq<Entry>, s: Id, y: Id, x: Id, n: nat)
    requires
        walk_of(g, s, y, n),
        edge(g, y, x),
    ensures
        walk_of(g, s, x, n + 1),
{
    let p = choose|p: Seq<Id>| p.len() == n + 1 && p[0] == s && p.last() == y && #[trigger] is_walk(g, p);
    let q = p.push(x);
    assert forall|i: int| 0 <= i < q.len() - 1 implies #[trigger] edge(g, q[i], q[i + 1]) by {
        if i < p.len() - 1 {
            assert(edge(g, p[i], p[i + 1]));
        }
    }
    assert(is_walk(g, q));
}

/// The identifier before the last on a shortest walk is at distance one less.
pub proof fn lemma_dist_pred(g: Seq<Entry>, s: Id, x: Id, n: nat)
    requires
        dist_is(g, s, x, n),
        n >= 1,
    ensures
        exists|y: Id| dist_is(g, s, y, (n - 1) as nat) && #[trigger] edge(g, y, x),
{
    let p = choose|p: Seq<Id>| p.len() == n + 1 && p[0] == s && p.last() == x && #[trigger] is_walk(g, p);
    let k = (n - 1) as int;
    let y = p[k];
    let q = p.take(k + 1);
    assert(is_walk(g, q)) by {
        assert forall|i: int| 0 <= i < q.len() - 1 implies #[trigger] edge(g, q[i], q[i + 1]) by {
            assert(edge(g, p[i], p[i + 1]));
        }
    }
    assert(walk_of(g, s, y, (n - 1) as nat));
    assert(edge(g, p[k], p[k + 1]));
    assert forall|m: nat| m < n - 1 implies !#[trigger] walk_of(g, s, y, m) by {
        if walk_of(g, s, y, m) {
            lemma_walk_extend(g, s, y, x, m);
            assert(!walk_of(g, s, x, m + 1));
        }
    }
}

/// A shortest walk of `n` edges passes an identifier at each smaller distance.
pub proof fn lemma_dist_down(g: Seq<Entry>, s: Id, x: Id, n: nat, k: nat)
    requires
        dist_is(g, s, x, n),
        k <= n,
    ensures
        exists|z: Id| #[trigger] dist_is(g, s, z, k),
    decreases n - k,
{
    if k < n {
        lemma_dist_pred(g, s, x, n);
        let y = choose|y: Id| dist_is(g, s, y, (n - 1) as nat) && #[trigger] edge(g, y, x);
        lemma_dist_down(g, s, y, (n - 1) as nat, k);
    }
}

/// `v` is one step farther from `s` than `u`, in shortest-walk distance.
pub open spec fn one_step_farther(g: Seq<Entry>, s: Id, u: Id, v: Id) -> bool {
    exists|n: nat| #[trigger] dist_is(g, s, u, n) && dist_is(g, s, v, n + 1)
}

/// The shortest distance is unique.
pub proof fn lemma_dist_unique(g: Seq<Entry>, s: Id, x: Id, a: nat, b: nat)
    requires
        dist_is(g, s, x, a),
        dist_is(g, s, x, b),
    ensures
        a == b,
{
    if a < b {
        assert(!walk_of(g, s, x, a));
    } else if b < a {
        assert(!walk_of(g, s, x, b));
    }
}

/// A walk of `m` edges means a shortest distance of at most `m`.
pub proof fn lemma_dist_exists(g: Seq<Entry>, s: Id, x: Id, m: nat)
    requires
        walk_of(g, s, x, m),
    ensures
        exists|d: nat| d <= m && #[trigger] dist_is(g, s, x, d),
    decreases m,
{
    if !dist_is(g, s, x, m) {
        let m2 = choose|m2: nat| m2 < m && #[trigger] walk_of(g, s, x, m2);
        lemma_dist_exists(g, s, x, m2);
    }
}

} // verus!
