//! Read-only structural analyses of the node store.
use vstd::prelude::*;
use crate::model::{
    flood_from, one_step_farther, lemma_dist_exists, lemma_dist_unique, dist_is, lemma_dist_down, lemma_dist_pred, lemma_walk_extend, lemma_walk_start, walk_of,
    closing_count, lemma_closing_prefix, lemma_pattern_prefix, lemma_triangle_prefix,
    pattern_count, triangle_patterns, lemma_closed_holds_reach, lemma_reach_step, reachable, closed_walk, edge, is_walk, lemma_mentioned_bound, universe, all_deps, concat, groups_of, lemma_all_deps_source, lemma_concat_push, lemma_in_all_deps,
    lemma_nodup_len_le, mentioned, core_ids, dep_set, deps, has_node, ids_of, keys, lemma_deps_at, lemma_ids_push,
    lemma_push_contains, max_degree, Id,
};
use crate::walker::{contains_id, GraphWalker};

verus! {

/// Appends to `acc` each identifier of `src` that it does not hold yet.
fn add_distinct(acc: &mut Vec<String>, src: &Vec<String>)
    requires
        ids_of(old(acc)@).no_duplicates(),
    ensures
        ids_of(final(acc)@).no_duplicates(),
        forall|x: Id| #[trigger] ids_of(final(acc)@).contains(x) <==> (ids_of(old(acc)@).contains(x) || ids_of(src@).contains(x)),
{
    let ghost a0 = ids_of(acc@);
    let mut i: usize = 0;
    while i < src.len()
        invariant
            i <= src.len(),
            ids_of(acc@).no_duplicates(),
            forall|x: Id| #[trigger] ids_of(acc@).contains(x) <==> (a0.contains(x) || ids_of(src@).take(i as int).contains(x)),
        decreases src.len() - i,
    {
        let ghost pre = ids_of(acc@);
        proof {
            lemma_push_contains(ids_of(src@).take(i as int), src@[i as int]@);
            assert(ids_of(src@).take(i as int).push(src@[i as int]@) =~= ids_of(src@).take(i + 1));
        }
        if !contains_id(acc, &src[i]) {
            proof {
                lemma_ids_push(acc@, src@[i as int]);
                lemma_push_contains(pre, src@[i as int]@);
            }
            acc.push(src[i].clone());
        }
        i = i + 1;
    }
    assert(ids_of(src@).take(src.len() as int) =~= ids_of(src@));
}

/// The identifiers of `a` that also occur in `b`.
fn common(a: &Vec<String>, b: &Vec<String>) -> (r: Vec<String>)
    requires
        ids_of(a@).no_duplicates(),
    ensures
        ids_of(r@).no_duplicates(),
        forall|x: Id| #[trigger] ids_of(r@).contains(x) <==> (ids_of(a@).contains(x) && ids_of(b@).contains(x)),
{
    let mut r: Vec<String> = Vec::new();
    let mut i: usize = 0;
    while i < a.len()
        invariant
            i <= a.len(),
            ids_of(a@).no_duplicates(),
            ids_of(r@).no_duplicates(),
            forall|x: Id| #[trigger] ids_of(r@).contains(x) <==> (ids_of(a@).take(i as int).contains(x) && ids_of(b@).contains(x)),
        decreases a.len() - i,
    {
        let ghost pre = ids_of(r@);
        proof {
            lemma_push_contains(ids_of(a@).take(i as int), a@[i as int]@);
            assert(ids_of(a@).take(i as int).push(a@[i as int]@) =~= ids_of(a@).take(i + 1));
            if ids_of(a@).take(i as int).contains(a@[i as int]@) {
                let m = choose|m: int| 0 <= m < i && ids_of(a@).take(i as int)[m] == a@[i as int]@;
                assert(ids_of(a@)[m] == ids_of(a@)[i as int]);
            }
        }
        if contains_id(b, &a[i]) {
            proof {
                lemma_ids_push(r@, a@[i as int]);
                lemma_push_contains(pre, a@[i as int]@);
            }
            r.push(a[i].clone());
        }
        i = i + 1;
    }
    assert(ids_of(a@).take(a.len() as int) =~= ids_of(a@));
    r
}

impl GraphWalker {
    /// Out-degree of each node, in store order: a degree-centrality stand-in
    /// for betweenness.
    pub fn calculate_betweenness(&self) -> (r: Vec<(String, usize)>)
        ensures
            r.len() == self.nodes.len(),
            forall|i: int| 0 <= i < r.len() ==> (#[trigger] r@[i]).0@ == self.model()[i].0 && r@[i].1 == self.model()[i].1.len(),
    {
        let mut r: Vec<(String, usize)> = Vec::new();
        let mut i: usize = 0;
        while i < self.nodes.len()
            invariant
                i <= self.nodes.len(),
                r.len() == i,
                forall|j: int| 0 <= j < i ==> (#[trigger] r@[j]).0@ == self.model()[j].0 && r@[j].1 == self.model()[j].1.len(),
            decreases self.nodes.len() - i,
        {
            r.push((self.nodes[i].id.clone(), self.nodes[i].dependents.len()));
            i = i + 1;
        }
        r
    }

    /// The identifiers whose out-degree is at least `k`, in store order: a
    /// single-pass stand-in for the k-core.
    pub fn k_core_decomposition(&self, k: usize) -> (r: Vec<String>)
        requires
            self.wf(),
        ensures
            ids_of(r@).no_duplicates(),
            ids_of(r@).to_set() == core_ids(self.model(), k as nat),
    {
        let ghost g = self.model();
        let mut r: Vec<String> = Vec::new();
        let mut i: usize = 0;
        while i < self.nodes.len()
            invariant
                i <= self.nodes.len(),
                self.wf(),
                g == self.model(),
                ids_of(r@).no_duplicates(),
                forall|x: Id| #[trigger] ids_of(r@).contains(x) <==> (exists|j: int| 0 <= j < i && g[j].0 == x && g[j].1.len() >= k),
            decreases self.nodes.len() - i,
        {
            if self.nodes[i].dependents.len() >= k {
                proof {
                    lemma_ids_push(r@, self.nodes@[i as int].id);
                    lemma_push_contains(ids_of(r@), g[i as int].0);
                    if ids_of(r@).contains(g[i as int].0) {
                        let j = choose|j: int| 0 <= j < i && g[j].0 == g[i as int].0 && g[j].1.len() >= k;
                        assert(keys(g)[j] == keys(g)[i as int]);
                    }
                }
                r.push(self.nodes[i].id.clone());
                proof {
                    assert forall|x: Id| #[trigger] ids_of(r@).contains(x) <==> (exists|j: int| 0 <= j < i + 1 && g[j].0 == x && g[j].1.len() >= k) by {
                        if x == g[i as int].0 {
                            assert(0 <= i < i + 1 && g[i as int].0 == x && g[i as int].1.len() >= k);
                        }
                    }
                }
            }
            i = i + 1;
        }
        proof {
            assert forall|x: Id| ids_of(r@).to_set().contains(x) <==> #[trigger] core_ids(g, k as nat).contains(x) by {
                if has_node(g, x) {
                    let j = choose|j: int| 0 <= j < g.len() && g[j].0 == x;
                    lemma_deps_at(g, j);
                }
                if ids_of(r@).contains(x) {
                    let j = choose|j: int| 0 <= j < g.len() && g[j].0 == x && g[j].1.len() >= k;
                    lemma_deps_at(g, j);
                }
            }
            assert(ids_of(r@).to_set() =~= core_ids(g, k as nat));
        }
        r
    }

    /// The largest out-degree plus one: a size estimate standing in for the
    /// largest clique.
    pub fn find_cliques(&self) -> (r: usize)
        requires
            forall|i: int| 0 <= i < self.nodes.len() ==> (#[trigger] self.nodes@[i]).dependents.len() < usize::MAX,
        ensures
            r == max_degree(self.model()) + 1,
    {
        let ghost g = self.model();
        let mut best: usize = 0;
        let mut i: usize = 0;
        while i < self.nodes.len()
            invariant
                i <= self.nodes.len(),
                g == self.model(),
                best == max_degree(g.take(i as int)),
                best < usize::MAX,
                forall|j: int| 0 <= j < self.nodes.len() ==> (#[trigger] self.nodes@[j]).dependents.len() < usize::MAX,
            decreases self.nodes.len() - i,
        {
            assert(g.take(i + 1).drop_last() =~= g.take(i as int));
            assert(self.nodes@[i as int].dependents.len() < usize::MAX);
            let d = self.nodes[i].dependents.len();
            if d > best {
                best = d;
            }
            i = i + 1;
        }
        assert(g.take(self.nodes.len() as int) =~= g);
        best + 1
    }

    /// A stand-in for a flow computation: always one, whatever the endpoints.
    pub fn max_flow(&self, _source: String, _sink: String) -> (r: i32)
        ensures
            r == 1,
    {
        1
    }

    /// Jaccard similarity of the direct dependent sets of `node_a` and
    /// `node_b`, as the pair (size of the intersection, size of the union);
    /// the similarity is their quotient, and zero when the union is empty.
    pub fn calculate_jaccard_similarity(&self, node_a: String, node_b: String) -> (r: (usize, usize))
        requires
            self.wf(),
        ensures
            r.0 == dep_set(self.model(), node_a@).intersect(dep_set(self.model(), node_b@)).len(),
            r.1 == dep_set(self.model(), node_a@).union(dep_set(self.model(), node_b@)).len(),
    {
        let ghost g = self.model();
        let da = self.dependents_of(&node_a);
        let db = self.dependents_of(&node_b);
        let mut ua: Vec<String> = Vec::new();
        assert(ids_of(ua@) =~= Seq::<Id>::empty());
        add_distinct(&mut ua, &da);
        let inter = common(&ua, &db);
        let mut un: Vec<String> = Vec::new();
        assert(ids_of(un@) =~= Seq::<Id>::empty());
        add_distinct(&mut un, &da);
        add_distinct(&mut un, &db);
        proof {
            let sa = dep_set(g, node_a@);
            let sb = dep_set(g, node_b@);
            assert(ids_of(inter@).to_set() =~= sa.intersect(sb));
            assert(ids_of(un@).to_set() =~= sa.union(sb));
            ids_of(inter@).unique_seq_to_set();
            ids_of(un@).unique_seq_to_set();
        }
        (inter.len(), un.len())
    }

    /// Connected communities: a flood fill along dependency edges from each
    /// node not yet taken, in store order. Every identifier named in the store
    /// lands in exactly one community, and no community is empty.
    pub fn detect_communities(&self) -> (r: Vec<Vec<String>>)
        requires
            self.wf(),
        ensures
            concat(groups_of(r@)).no_duplicates(),
            forall|x: Id| #[trigger] concat(groups_of(r@)).contains(x) <==> mentioned(self.model(), x),
            forall|i: int| 0 <= i < r.len() ==> (#[trigger] r@[i]).len() > 0,
            forall|i: int| 0 <= i < r.len() ==> flood_from(self.model(), #[trigger] groups_of(r@)[i], concat(groups_of(r@).take(i))),
    {
        let ghost g = self.model();
        let ghost univ = keys(g) + all_deps(g);
        let mut communities: Vec<Vec<String>> = Vec::new();
        let mut visited: Vec<String> = Vec::new();
        assert(concat(groups_of(communities@)) =~= ids_of(visited@));
        let mut i: usize = 0;
        while i < self.nodes.len()
            invariant
                i <= self.nodes.len(),
                self.wf(),
                g == self.model(),
                univ == keys(g) + all_deps(g),
                ids_of(visited@) == concat(groups_of(communities@)),
                ids_of(visited@).no_duplicates(),
                forall|x: Id| #[trigger] ids_of(visited@).contains(x) ==> mentioned(g, x),
                forall|j: int| 0 <= j < i ==> ids_of(visited@).contains(#[trigger] keys(g)[j]),
                forall|y: Id, x: Id| ids_of(visited@).contains(y) && #[trigger] deps(g, y).contains(x) ==> ids_of(visited@).contains(x),
                forall|j: int| 0 <= j < communities.len() ==> (#[trigger] communities@[j]).len() > 0,
                forall|j: int| 0 <= j < communities.len() ==> flood_from(g, #[trigger] groups_of(communities@)[j], concat(groups_of(communities@).take(j))),
            decreases self.nodes.len() - i,
        {
            assert(keys(g)[i as int] == self.nodes@[i as int].id@);
            if !contains_id(&visited, &self.nodes[i].id) {
                let ghost key = keys(g)[i as int];
                let ghost v0 = ids_of(visited@);
                let mut community: Vec<String> = Vec::new();
                let mut stack: Vec<String> = Vec::new();
                stack.push(self.nodes[i].id.clone());
                assert(has_node(g, keys(g)[i as int]));
                proof {
                    lemma_ids_push(Seq::<String>::empty(), self.nodes@[i as int].id);
                    assert(Seq::<String>::empty().push(self.nodes@[i as int].id) == stack@);
                    lemma_push_contains(Seq::<Id>::empty(), keys(g)[i as int]);
                    assert(ids_of(Seq::<String>::empty()) =~= Seq::<Id>::empty());
                    assert(ids_of(community@) =~= Seq::<Id>::empty());
                    assert(ids_of(visited@) + ids_of(community@) =~= ids_of(visited@));
                }
                while stack.len() > 0
                    invariant
                        i < self.nodes.len(),
                        keys(g).len() == self.nodes.len(),
                        self.wf(),
                        g == self.model(),
                        univ == keys(g) + all_deps(g),
                        ids_of(visited@) == concat(groups_of(communities@)) + ids_of(community@),
                        ids_of(visited@).no_duplicates(),
                        forall|x: Id| #[trigger] ids_of(visited@).contains(x) ==> mentioned(g, x),
                        forall|x: Id| #[trigger] ids_of(stack@).contains(x) ==> mentioned(g, x),
                        forall|j: int| 0 <= j < i ==> ids_of(visited@).contains(#[trigger] keys(g)[j]),
                        ids_of(visited@).contains(keys(g)[i as int]) || ids_of(stack@).contains(keys(g)[i as int]),
                        community.len() > 0 || (stack.len() == 1 && stack@[0]@ == keys(g)[i as int]
                            && !ids_of(visited@).contains(keys(g)[i as int])),
                        forall|y: Id, x: Id| ids_of(visited@).contains(y) && #[trigger] deps(g, y).contains(x)
                            ==> ids_of(visited@).contains(x) || ids_of(stack@).contains(x),
                        key == keys(g)[i as int],
                        v0 == concat(groups_of(communities@)),
                        forall|x: Id| #[trigger] ids_of(stack@).contains(x) ==> x == key || reachable(g, key, x),
                        forall|x: Id| #[trigger] ids_of(community@).contains(x) ==> x == key || reachable(g, key, x),
                        community.len() > 0 ==> ids_of(community@)[0] == key,
                    decreases univ.len() - visited.len(), stack.len(),
                {
                    let ghost st0 = ids_of(stack@);
                    let cur = stack.pop().unwrap();
                    proof {
                        assert(st0 =~= ids_of(stack@).push(cur@));
                        lemma_push_contains(ids_of(stack@), cur@);
                        assert(st0.contains(cur@));
                        assert(mentioned(g, cur@));
                        assert forall|x: Id| #[trigger] ids_of(stack@).contains(x) implies mentioned(g, x) by {
                            assert(st0.contains(x));
                        }
                        assert(cur@ == key || reachable(g, key, cur@));
                        assert forall|x: Id| #[trigger] ids_of(stack@).contains(x) implies x == key || reachable(g, key, x) by {
                            assert(st0.contains(x));
                        }
                        if community.len() == 0 {
                            assert(st0[0] == key);
                        }
                    }
                    if !contains_id(&visited, &cur) {
                        let ghost v0 = ids_of(visited@);
                        let ghost c0 = ids_of(community@);
                        proof {
                            lemma_ids_push(visited@, cur);
                            lemma_push_contains(v0, cur@);
                            lemma_ids_push(community@, cur);
                            lemma_push_contains(c0, cur@);
                            assert(v0.push(cur@) =~= concat(groups_of(communities@)) + c0.push(cur@));
                        }
                        visited.push(cur.clone());
                        community.push(cur.clone());
                        let ds = self.dependents_of(&cur);
                        let mut k: usize = 0;
                        let ghost s1 = ids_of(stack@);
                        while k < ds.len()
                            invariant
                                k <= ds.len(),
                                ids_of(stack@) == s1 + ids_of(ds@).take(k as int),
                            decreases ds.len() - k,
                        {
                            proof {
                                lemma_ids_push(stack@, ds@[k as int]);
                                assert(s1 + ids_of(ds@).take(k + 1) =~= (s1 + ids_of(ds@).take(k as int)).push(ds@[k as int]@));
                            }
                            stack.push(ds[k].clone());
                            k = k + 1;
                        }
                        proof {
                            assert(ids_of(ds@).take(ds.len() as int) =~= ids_of(ds@));
                            assert forall|x: Id| #[trigger] ids_of(stack@).contains(x) <==> (s1.contains(x) || deps(g, cur@).contains(x)) by {
                                if ids_of(stack@).contains(x) {
                                    let m = choose|m: int| 0 <= m < ids_of(stack@).len() && ids_of(stack@)[m] == x;
                                    if m < s1.len() {
                                        assert(s1[m] == x);
                                    } else {
                                        assert(ids_of(ds@)[m - s1.len()] == x);
                                    }
                                }
                                if s1.contains(x) {
                                    let m = choose|m: int| 0 <= m < s1.len() && s1[m] == x;
                                    assert(ids_of(stack@)[m] == x);
                                }
                                if deps(g, cur@).contains(x) {
                                    let m = choose|m: int| 0 <= m < ids_of(ds@).len() && ids_of(ds@)[m] == x;
                                    assert(ids_of(stack@)[s1.len() + m] == x);
                                }
                            }
                            assert forall|x: Id| #[trigger] ids_of(stack@).contains(x) implies mentioned(g, x) by {
                                if !s1.contains(x) {
                                    lemma_in_all_deps(g, cur@, x);
                                }
                            }
                            assert forall|x: Id| #[trigger] ids_of(stack@).contains(x) implies x == key || reachable(g, key, x) by {
                                if !s1.contains(x) {
                                    lemma_reach_step(g, key, cur@, x);
                                }
                            }
                            assert(ids_of(community@)[0] == key);
                        }
                    }
                    proof {
                        assert forall|x: Id| ids_of(visited@).contains(x) implies univ.contains(x) by {
                            if has_node(g, x) {
                                let j = choose|j: int| 0 <= j < g.len() && g[j].0 == x;
                                assert(univ[j] == x);
                            } else {
                                let m = choose|m: int| 0 <= m < all_deps(g).len() && all_deps(g)[m] == x;
                                assert(univ[keys(g).len() + m] == x);
                            }
                        }
                        lemma_nodup_len_le(ids_of(visited@), univ);
                    }
                }
                proof {
                    lemma_concat_push(communities@, community);
                    let c = ids_of(community@);
                    let vis = ids_of(visited@);
                    let st = Set::new(|x: Id| vis.contains(x));
                    assert(vis.contains(key));
                    assert(!v0.contains(key));
                    assert forall|x: Id| #[trigger] c.contains(x) <==> ((x == c[0] || reachable(g, c[0], x)) && !v0.contains(x)) by {
                        assert(vis == v0 + c);
                        if vis.contains(x) {
                            let m = choose|m: int| 0 <= m < vis.len() && vis[m] == x;
                            if m < v0.len() {
                                assert(v0[m] == x);
                            } else {
                                assert(c[m - v0.len()] == x);
                            }
                        }
                        if v0.contains(x) {
                            let m0 = choose|m0: int| 0 <= m0 < v0.len() && v0[m0] == x;
                            assert(vis[m0] == x);
                        }
                        if x == key || reachable(g, key, x) {
                            if x != key {
                                lemma_closed_holds_reach(g, key, st, x);
                            }
                        }
                        if c.contains(x) {
                            let m = choose|m: int| 0 <= m < c.len() && c[m] == x;
                            assert(vis[v0.len() + m] == x);
                            if v0.contains(x) {
                                let m0 = choose|m0: int| 0 <= m0 < v0.len() && v0[m0] == x;
                                assert(vis[m0] == x);
                            }
                        }
                    }
                    assert(flood_from(g, c, v0));
                }
                let ghost cs0 = communities@;
                communities.push(community);
                assert(communities@[communities.len() - 1] == community);
                proof {
                    assert forall|j: int| 0 <= j < communities.len() implies flood_from(g, #[trigger] groups_of(communities@)[j], concat(groups_of(communities@).take(j))) by {
                        if j < cs0.len() {
                            assert(groups_of(communities@).take(j) =~= groups_of(cs0).take(j));
                            assert(groups_of(communities@)[j] == groups_of(cs0)[j]);
                        } else {
                            assert(groups_of(communities@).take(j) =~= groups_of(cs0));
                        }
                    }
                }
            }
            i = i + 1;
        }
        proof {
            let v = ids_of(visited@);
            assert forall|x: Id| #[trigger] v.contains(x) <==> mentioned(g, x) by {
                if has_node(g, x) {
                    let j = choose|j: int| 0 <= j < g.len() && g[j].0 == x;
                    assert(keys(g)[j] == x);
                }
                if all_deps(g).contains(x) {
                    lemma_all_deps_source(g, x);
                    let j = choose|j: int| 0 <= j < g.len() && #[trigger] g[j].1.contains(x);
                    lemma_deps_at(g, j);
                    assert(keys(g)[j] == g[j].0);
                    assert(v.contains(g[j].0));
                }
            }
        }
        communities
    }
}

/// Whether the identifier at position `k` of `v` occurs earlier in `v`.
fn occurs_before(v: &Vec<String>, k: usize) -> (r: bool)
    requires
        k < v.len(),
    ensures
        r == ids_of(v@).take(k as int).contains(v@[k as int]@),
{
    let mut i: usize = 0;
    while i < k
        invariant
            k < v.len(),
            i <= k,
            forall|j: int| 0 <= j < i ==> v@[j]@ != v@[k as int]@,
        decreases k - i,
    {
        if v[i] == v[k] {
            assert(ids_of(v@).take(k as int)[i as int] == v@[k as int]@);
            return true;
        }
        i = i + 1;
    }
    proof {
        if ids_of(v@).take(k as int).contains(v@[k as int]@) {
            let m = choose|m: int| 0 <= m < k && ids_of(v@).take(k as int)[m] == v@[k as int]@;
            assert(v@[m]@ == v@[k as int]@);
        }
    }
    false
}

/// The position of the first occurrence of `x` in `v`, which holds it.
fn position_of(v: &Vec<String>, x: &String) -> (r: usize)
    requires
        ids_of(v@).contains(x@),
    ensures
        r < v.len(),
        v@[r as int]@ == x@,
{
    let mut i: usize = 0;
    while i < v.len()
        invariant
            i <= v.len(),
            ids_of(v@).contains(x@),
            forall|j: int| 0 <= j < i ==> v@[j]@ != x@,
        decreases v.len() - i,
    {
        if v[i] == *x {
            return i;
        }
        i = i + 1;
    }
    proof {
        let m = choose|m: int| 0 <= m < ids_of(v@).len() && ids_of(v@)[m] == x@;
        assert(v@[m]@ == x@);
    }
    0
}

/// The strings of `v` from position `from` on.
fn suffix_from(v: &Vec<String>, from: usize) -> (r: Vec<String>)
    requires
        from <= v.len(),
    ensures
        ids_of(r@) == ids_of(v@).subrange(from as int, v.len() as int),
{
    let mut r: Vec<String> = Vec::new();
    let mut i: usize = from;
    while i < v.len()
        invariant
            from <= i <= v.len(),
            ids_of(r@) == ids_of(v@).subrange(from as int, i as int),
        decreases v.len() - i,
    {
        proof {
            lemma_ids_push(r@, v@[i as int]);
            assert(ids_of(v@).subrange(from as int, i + 1) =~= ids_of(v@).subrange(from as int, i as int).push(v@[i as int]@));
        }
        r.push(v[i].clone());
        i = i + 1;
    }
    r
}

/// A part of a walk is a walk.
proof fn lemma_subwalk(g: Seq<crate::model::Entry>, p: Seq<Id>, a: int, b: int)
    requires
        is_walk(g, p),
        0 <= a <= b <= p.len(),
    ensures
        is_walk(g, p.subrange(a, b)),
{
    let q = p.subrange(a, b);
    assert forall|i: int| 0 <= i < q.len() - 1 implies #[trigger] edge(g, q[i], q[i + 1]) by {
        assert(edge(g, p[a + i], p[a + i + 1]));
    }
}

/// The state of a depth-first search that has reported no cycle yet: each
/// visited identifier is either finished (in `done`, in finishing order) or on
/// the current `path`, never both; and each finished identifier's dependents
/// finished before it.
spec fn finish_ordered(g: Seq<crate::model::Entry>, done: Seq<Id>, path: Seq<Id>, visited: Seq<Id>) -> bool {
    &&& forall|x: Id| #[trigger] visited.contains(x) <==> (done.contains(x) || path.contains(x))
    &&& forall|x: Id| #[trigger] done.contains(x) ==> !path.contains(x)
    &&& done.no_duplicates()
    &&& forall|i: int, x: Id| 0 <= i < done.len() && #[trigger] deps(g, done[i]).contains(x) ==> exists|j: int| 0 <= j < i && done[j] == x
}

/// `a` is an initial part of `b`.
spec fn starts(a: Seq<Id>, b: Seq<Id>) -> bool {
    a.len() <= b.len() && forall|i: int| 0 <= i < a.len() ==> #[trigger] b[i] == a[i]
}

/// Along a walk from a finished identifier, each step goes strictly earlier
/// in the finishing order.
proof fn lemma_finish_descends(g: Seq<crate::model::Entry>, done: Seq<Id>, p: Seq<Id>, i0: int, k: int)
    requires
        is_walk(g, p),
        0 <= i0 < done.len(),
        done[i0] == p[0],
        1 <= k < p.len(),
        forall|i: int, x: Id| 0 <= i < done.len() && #[trigger] deps(g, done[i]).contains(x) ==> exists|j: int| 0 <= j < i && done[j] == x,
    ensures
        exists|j: int| 0 <= j <= i0 - k && done[j] == p[k],
    decreases k,
{
    let m = k - 1;
    assert(edge(g, p[m], p[m + 1]));
    if k == 1 {
        assert(deps(g, done[i0]).contains(p[1]));
    } else {
        lemma_finish_descends(g, done, p, i0, k - 1);
        let j1 = choose|j: int| 0 <= j <= i0 - (k - 1) && done[j] == p[k - 1];
        assert(deps(g, done[j1]).contains(p[k]));
    }
}

/// Where every node has finished and each finished identifier's dependents
/// finished before it, no identifier reaches itself.
proof fn lemma_finish_order_acyclic(g: Seq<crate::model::Entry>, done: Seq<Id>, x: Id)
    requires
        done.no_duplicates(),
        forall|y: Id| has_node(g, y) ==> #[trigger] done.contains(y),
        forall|i: int, y: Id| 0 <= i < done.len() && #[trigger] deps(g, done[i]).contains(y) ==> exists|j: int| 0 <= j < i && done[j] == y,
    ensures
        !reachable(g, x, x),
{
    if reachable(g, x, x) {
        let p = choose|p: Seq<Id>| p.len() >= 2 && p[0] == x && p.last() == x && #[trigger] is_walk(g, p);
        let z: int = 0;
        assert(edge(g, p[z], p[z + 1]));
        assert(has_node(g, x));
        assert(done.contains(x));
        let i0 = choose|i: int| 0 <= i < done.len() && done[i] == x;
        lemma_finish_descends(g, done, p, i0, p.len() - 1);
        let j = choose|j: int| 0 <= j <= i0 - (p.len() - 1) && done[j] == p[p.len() - 1];
        assert(done[j] == done[i0]);
    }
}

impl GraphWalker {
    /// Depth-first search from `current`, which has not been visited. `path`
    /// is the current recursion path, a walk that ends with an edge to
    /// `current`; each edge back to a node on the path records that part of
    /// the path as a cycle. `done` is the finishing order so far; the result
    /// extends it by what this search finishes, `current` last.
    fn dfs_cycle(
        &self,
        current: &String,
        visited: &mut Vec<String>,
        path: &mut Vec<String>,
        cycles: &mut Vec<Vec<String>>,
        done: Ghost<Seq<Id>>,
    ) -> (fin: Ghost<Seq<Id>>)
        requires
            self.wf(),
            ids_of(old(visited)@).no_duplicates(),
            forall|x: Id| #[trigger] ids_of(old(visited)@).contains(x) ==> mentioned(self.model(), x),
            mentioned(self.model(), current@),
            !ids_of(old(visited)@).contains(current@),
            is_walk(self.model(), ids_of(old(path)@)),
            ids_of(old(path)@).no_duplicates(),
            forall|x: Id| #[trigger] ids_of(old(path)@).contains(x) ==> ids_of(old(visited)@).contains(x),
            old(path).len() > 0 ==> edge(self.model(), ids_of(old(path)@).last(), current@),
            forall|i: int| 0 <= i < old(cycles).len() ==> closed_walk(self.model(), ids_of(#[trigger] old(cycles)@[i]@)),
            forall|i: int| 0 <= i < old(cycles).len() ==> ids_of(#[trigger] old(cycles)@[i]@).no_duplicates(),
            old(cycles).len() == 0 ==> finish_ordered(self.model(), done@, ids_of(old(path)@), ids_of(old(visited)@)),
        ensures
            ids_of(final(path)@) == ids_of(old(path)@),
            ids_of(final(visited)@).no_duplicates(),
            ids_of(final(visited)@).contains(current@),
            forall|x: Id| #[trigger] ids_of(final(visited)@).contains(x) ==> mentioned(self.model(), x),
            forall|x: Id| ids_of(old(visited)@).contains(x) ==> #[trigger] ids_of(final(visited)@).contains(x),
            final(visited).len() > old(visited).len(),
            old(cycles).len() <= final(cycles).len(),
            forall|i: int| 0 <= i < old(cycles).len() ==> #[trigger] final(cycles)@[i] == old(cycles)@[i],
            forall|i: int| 0 <= i < final(cycles).len() ==> closed_walk(self.model(), ids_of(#[trigger] final(cycles)@[i]@)),
            forall|i: int| 0 <= i < final(cycles).len() ==> ids_of(#[trigger] final(cycles)@[i]@).no_duplicates(),
            final(cycles).len() == 0 ==> finish_ordered(self.model(), fin@, ids_of(final(path)@), ids_of(final(visited)@)),
            final(cycles).len() == 0 ==> starts(done@, fin@) && fin@.contains(current@),
        decreases universe(self.model()).len() - old(visited).len(),
    {
        let ghost g = self.model();
        let ghost v0 = ids_of(visited@);
        let ghost path0 = ids_of(path@);
        let ghost c0 = cycles@;
        proof {
            lemma_mentioned_bound(g, v0);
            lemma_ids_push(visited@, *current);
            lemma_push_contains(v0, current@);
            lemma_ids_push(path@, *current);
            lemma_push_contains(path0, current@);
        }
        visited.push(current.clone());
        path.push(current.clone());
        proof {
            lemma_mentioned_bound(g, ids_of(visited@));
            let path1 = ids_of(path@);
            assert forall|i: int| 0 <= i < path1.len() - 1 implies #[trigger] edge(g, path1[i], path1[i + 1]) by {
                if i < path0.len() - 1 {
                    assert(edge(g, path0[i], path0[i + 1]));
                }
            }
            assert(!path0.contains(current@));
        }
        let ghost path1 = ids_of(path@);
        let ghost mut cd = done@;
        proof {
            if cycles.len() == 0 {
                assert forall|x: Id| #[trigger] ids_of(visited@).contains(x) <==> (cd.contains(x) || path1.contains(x)) by {
                    assert(v0.contains(x) <==> (cd.contains(x) || path0.contains(x)));
                }
                assert forall|x: Id| #[trigger] cd.contains(x) implies !path1.contains(x) by {
                    assert(!path0.contains(x));
                    if x == current@ {
                        assert(v0.contains(x));
                    }
                }
            }
        }
        let ds = self.dependents_of(current);
        let mut k: usize = 0;
        while k < ds.len()
            invariant
                self.wf(),
                g == self.model(),
                k <= ds.len(),
                ids_of(ds@) == deps(g, current@),
                ids_of(path@) == path1,
                path1 == path0.push(current@),
                is_walk(g, path1),
                path1.no_duplicates(),
                path1.len() > 0 && path1.last() == current@,
                forall|x: Id| #[trigger] path1.contains(x) ==> ids_of(visited@).contains(x),
                ids_of(visited@).no_duplicates(),
                forall|x: Id| #[trigger] ids_of(visited@).contains(x) ==> mentioned(g, x),
                forall|x: Id| v0.contains(x) ==> #[trigger] ids_of(visited@).contains(x),
                visited.len() > v0.len(),
                v0.len() < universe(g).len(),
                v0.len() == old(visited).len(),
                c0 == old(cycles)@,
                c0.len() <= cycles.len(),
                forall|i: int| 0 <= i < c0.len() ==> #[trigger] cycles@[i] == c0[i],
                forall|i: int| 0 <= i < cycles.len() ==> closed_walk(g, ids_of(#[trigger] cycles@[i]@)),
                forall|i: int| 0 <= i < cycles.len() ==> ids_of(#[trigger] cycles@[i]@).no_duplicates(),
                cycles.len() == 0 ==> finish_ordered(g, cd, path1, ids_of(visited@)),
                cycles.len() == 0 ==> starts(done@, cd),
                cycles.len() == 0 ==> forall|m: int| 0 <= m < k ==> cd.contains(#[trigger] ids_of(ds@)[m]),
            decreases ds.len() - k,
        {
            let nb = &ds[k];
            assert(ids_of(ds@)[k as int] == nb@);
            assert(deps(g, current@).contains(nb@));
            if !contains_id(visited, nb) {
                proof {
                    lemma_in_all_deps(g, current@, nb@);
                    lemma_push_contains(ids_of(visited@), nb@);
                    lemma_mentioned_bound(g, ids_of(visited@).push(nb@));
                    assert(visited.len() < universe(g).len());
                }
                let ghost cpre = cycles@;
                let fin1 = self.dfs_cycle(nb, visited, path, cycles, Ghost(cd));
                proof {
                    if cycles.len() == 0 {
                        assert forall|m: int| 0 <= m < k + 1 implies fin1@.contains(#[trigger] ids_of(ds@)[m]) by {
                            if m < k {
                                let j = choose|j: int| 0 <= j < cd.len() && cd[j] == ids_of(ds@)[m];
                                assert(fin1@[j] == cd[j]);
                            }
                        }
                        assert forall|i: int| 0 <= i < done@.len() implies #[trigger] fin1@[i] == done@[i] by {
                            assert(cd[i] == done@[i]);
                        }
                    }
                    assert forall|i: int| 0 <= i < c0.len() implies #[trigger] cycles@[i] == c0[i] by {
                        assert(cpre[i] == c0[i]);
                    }
                }
                proof {
                    cd = fin1@;
                }
            } else if contains_id(path, nb) {
                let pos = position_of(path, nb);
                let c = suffix_from(path, pos);
                proof {
                    lemma_subwalk(g, path1, pos as int, path1.len() as int);
                    assert(ids_of(c@)[0] == path1[pos as int]);
                    assert(ids_of(c@).last() == path1.last());
                    assert forall|a: int, b: int| 0 <= a < b < ids_of(c@).len() implies ids_of(c@)[a] != ids_of(c@)[b] by {
                        assert(ids_of(c@)[a] == path1[pos + a] && ids_of(c@)[b] == path1[pos + b]);
                    }
                }
                cycles.push(c);
                assert(cycles@[cycles.len() - 1] == c);
            } else {
                proof {
                    if cycles.len() == 0 {
                        assert(ids_of(visited@).contains(nb@));
                        assert(!path1.contains(nb@));
                        assert(cd.contains(nb@));
                    }
                }
            }
            k = k + 1;
        }
        let ghost pl = path@;
        path.pop();
        proof {
            assert(path@ =~= pl.drop_last());
            assert(ids_of(path@) =~= path1.drop_last());
            assert(ids_of(path@) =~= path0);
        }
        let ghost result = cd.push(current@);
        proof {
            assert(path1[path1.len() - 1] == current@);
            assert(path1.contains(current@));
            if cycles.len() == 0 {
                let vis = ids_of(visited@);
                lemma_push_contains(cd, current@);
                assert(path1.contains(current@));
                assert(!cd.contains(current@));
                assert forall|x: Id| #[trigger] vis.contains(x) <==> (result.contains(x) || path0.contains(x)) by {
                    assert(path1.contains(x) <==> (path0.contains(x) || x == current@));
                }
                assert forall|x: Id| #[trigger] result.contains(x) implies !path0.contains(x) by {
                    if x != current@ {
                        assert(!path1.contains(x));
                        assert(path1.contains(x) <==> (path0.contains(x) || x == current@));
                    }
                }
                assert forall|i: int, x: Id| 0 <= i < result.len() && #[trigger] deps(g, result[i]).contains(x) implies exists|j: int| 0 <= j < i && result[j] == x by {
                    if i < cd.len() {
                        assert(result[i] == cd[i]);
                        let j = choose|j: int| 0 <= j < i && cd[j] == x;
                        assert(result[j] == x);
                    } else {
                        let m = choose|m: int| 0 <= m < ids_of(ds@).len() && ids_of(ds@)[m] == x;
                        assert(cd.contains(ids_of(ds@)[m]));
                        let j = choose|j: int| 0 <= j < cd.len() && cd[j] == x;
                        assert(result[j] == x);
                    }
                }
                assert forall|i: int| 0 <= i < done@.len() implies #[trigger] result[i] == done@[i] by {
                    assert(cd[i] == done@[i]);
                }
                assert(result[cd.len() as int] == current@);
            }
        }
        Ghost(result)
    }

    /// Circular dependencies, found by depth-first search from each node not
    /// yet visited, in store order. Each reported cycle is a closed walk along
    /// dependency edges without repeated identifiers; cycles are neither
    /// deduplicated nor rotated. The result is empty exactly when no
    /// identifier reaches itself.
    pub fn detect_cycles(&self) -> (r: Vec<Vec<String>>)
        requires
            self.wf(),
        ensures
            forall|i: int| 0 <= i < r.len() ==> closed_walk(self.model(), ids_of(#[trigger] r@[i]@)),
            forall|i: int| 0 <= i < r.len() ==> ids_of(#[trigger] r@[i]@).no_duplicates(),
            (exists|x: Id| reachable(self.model(), x, x)) ==> r.len() > 0,
    {
        let ghost g = self.model();
        let mut cycles: Vec<Vec<String>> = Vec::new();
        let mut visited: Vec<String> = Vec::new();
        let mut path: Vec<String> = Vec::new();
        let ghost mut done: Seq<Id> = Seq::empty();
        assert(ids_of(visited@) =~= Seq::<Id>::empty());
        assert(ids_of(path@) =~= Seq::<Id>::empty());
        let mut i: usize = 0;
        while i < self.nodes.len()
            invariant
                i <= self.nodes.len(),
                self.wf(),
                g == self.model(),
                ids_of(path@) == Seq::<Id>::empty(),
                ids_of(visited@).no_duplicates(),
                forall|x: Id| #[trigger] ids_of(visited@).contains(x) ==> mentioned(g, x),
                forall|j: int| 0 <= j < i ==> ids_of(visited@).contains(#[trigger] g[j].0),
                forall|j: int| 0 <= j < cycles.len() ==> closed_walk(g, ids_of(#[trigger] cycles@[j]@)),
                forall|j: int| 0 <= j < cycles.len() ==> ids_of(#[trigger] cycles@[j]@).no_duplicates(),
                cycles.len() == 0 ==> finish_ordered(g, done, Seq::<Id>::empty(), ids_of(visited@)),
            decreases self.nodes.len() - i,
        {
            assert(g[i as int].0 == self.nodes@[i as int].id@);
            if !contains_id(&visited, &self.nodes[i].id) {
                assert(has_node(g, self.nodes@[i as int].id@));
                let fin = self.dfs_cycle(&self.nodes[i].id, &mut visited, &mut path, &mut cycles, Ghost(done));
                proof {
                    done = fin@;
                }
            }
            i = i + 1;
        }
        proof {
            if cycles.len() == 0 {
                assert forall|y: Id| has_node(g, y) implies #[trigger] done.contains(y) by {
                    let j = choose|j: int| 0 <= j < g.len() && g[j].0 == y;
                    assert(ids_of(visited@).contains(g[j].0));
                }
                assert forall|x: Id| !reachable(g, x, x) by {
                    lemma_finish_order_acyclic(g, done, x);
                }
            }
        }
        cycles
    }

    /// Breadth-first spanning edges from the first node of the store: each
    /// identifier reachable from it, other than itself, is the target of
    /// exactly one returned edge, whose source it was first discovered from.
    pub fn minimum_spanning_tree(&self) -> (r: Vec<(String, String)>)
        requires
            self.wf(),
        ensures
            self.nodes.len() == 0 ==> r.len() == 0,
            self.nodes.len() > 0 ==> ({
                let g = self.model();
                let s = g[0].0;
                &&& forall|i: int| 0 <= i < r.len() ==> edge(g, (#[trigger] r@[i]).0@, r@[i].1@)
                &&& forall|i: int, j: int| 0 <= i < j < r.len() ==> (#[trigger] r@[i]).1@ != (#[trigger] r@[j]).1@
                &&& forall|x: Id| (exists|i: int| 0 <= i < r.len() && (#[trigger] r@[i]).1@ == x) <==> (x != s && reachable(g, s, x))
                &&& forall|i: int| 0 <= i < r.len() ==> (#[trigger] r@[i]).0@ != r@[i].1@
                &&& forall|i: int| 0 <= i < r.len() ==> (#[trigger] r@[i]).0@ == s || exists|j: int| 0 <= j < i && r@[j].1@ == r@[i].0@
                &&& forall|i: int| 0 <= i < r.len() ==> one_step_farther(g, s, (#[trigger] r@[i]).0@, r@[i].1@)
            }),
    {
        let mut edges: Vec<(String, String)> = Vec::new();
        if self.nodes.len() == 0 {
            return edges;
        }
        let ghost g = self.model();
        let ghost s = g[0].0;
        let mut order: Vec<String> = Vec::new();
        proof {
            lemma_ids_push(order@, self.nodes@[0].id);
            lemma_push_contains(ids_of(order@), s);
            assert(ids_of(order@) =~= Seq::<Id>::empty());
        }
        order.push(self.nodes[0].id.clone());
        assert(has_node(g, s));
        let ghost mut lv: Seq<nat> = seq![0nat];
        proof {
            lemma_walk_start(g, s);
            assert forall|x: Id, n: nat| #[trigger] dist_is(g, s, x, n) && n <= lv[0] implies ids_of(order@).contains(x) by {
                assert(walk_of(g, s, x, 0));
            }
        }
        let mut head: usize = 0;
        while head < order.len()
            invariant
                self.wf(),
                g == self.model(),
                g.len() > 0,
                s == g[0].0,
                head <= order.len(),
                order.len() == edges.len() + 1,
                ids_of(order@)[0] == s,
                ids_of(order@).no_duplicates(),
                forall|x: Id| #[trigger] ids_of(order@).contains(x) ==> mentioned(g, x),
                forall|x: Id| #[trigger] ids_of(order@).contains(x) ==> x == s || reachable(g, s, x),
                forall|i: int| 0 <= i < edges.len() ==> (#[trigger] edges@[i]).1@ == ids_of(order@)[i + 1],
                forall|i: int| 0 <= i < edges.len() ==> edge(g, (#[trigger] edges@[i]).0@, edges@[i].1@),
                forall|i: int| 0 <= i < edges.len() ==> (#[trigger] edges@[i]).0@ != edges@[i].1@,
                forall|i: int| 0 <= i < edges.len() ==> exists|h: int| 0 <= h <= i && (#[trigger] edges@[i]).0@ == ids_of(order@)[h],
                forall|j: int, x: Id| 0 <= j < head && #[trigger] deps(g, ids_of(order@)[j]).contains(x) ==> ids_of(order@).contains(x),
                lv.len() == order.len(),
                forall|i: int| 0 <= i < lv.len() ==> dist_is(g, s, #[trigger] ids_of(order@)[i], lv[i]),
                forall|i: int, j: int| 0 <= i <= j < lv.len() ==> #[trigger] lv[i] <= #[trigger] lv[j],
                head < lv.len() ==> lv[lv.len() - 1] <= lv[head as int] + 1,
                head < lv.len() ==> forall|x: Id, n: nat| #[trigger] dist_is(g, s, x, n) && n <= lv[head as int] ==> ids_of(order@).contains(x),
                forall|i: int| 0 <= i < edges.len() ==> one_step_farther(g, s, (#[trigger] edges@[i]).0@, edges@[i].1@),
            decreases universe(g).len() - head,
        {
            proof {
                lemma_mentioned_bound(g, ids_of(order@));
            }
            let u = order[head].clone();
            let ghost o0 = ids_of(order@);
            let ghost lvl = lv[head as int];
            assert(o0[head as int] == u@);
            assert(o0.contains(u@));
            assert(dist_is(g, s, o0[head as int], lvl));
            assert forall|i: int| 0 <= i < lv.len() implies #[trigger] lv[i] <= lvl + 1 by {
                assert(lv[i] <= lv[lv.len() - 1]);
            }
            let ds = self.dependents_of(&u);
            let mut k: usize = 0;
            while k < ds.len()
                invariant
                    self.wf(),
                    g == self.model(),
                    s == g[0].0,
                    k <= ds.len(),
                    head < order.len(),
                    ids_of(ds@) == deps(g, u@),
                    u@ == s || reachable(g, s, u@),
                    mentioned(g, u@),
                    order.len() == edges.len() + 1,
                    o0.len() <= order.len(),
                    ids_of(order@).take(o0.len() as int) == o0,
                    ids_of(order@)[0] == s,
                    ids_of(order@).no_duplicates(),
                    forall|x: Id| #[trigger] ids_of(order@).contains(x) ==> mentioned(g, x),
                    forall|x: Id| #[trigger] ids_of(order@).contains(x) ==> x == s || reachable(g, s, x),
                    forall|i: int| 0 <= i < edges.len() ==> (#[trigger] edges@[i]).1@ == ids_of(order@)[i + 1],
                    forall|i: int| 0 <= i < edges.len() ==> edge(g, (#[trigger] edges@[i]).0@, edges@[i].1@),
                    forall|i: int| 0 <= i < edges.len() ==> (#[trigger] edges@[i]).0@ != edges@[i].1@,
                    forall|i: int| 0 <= i < edges.len() ==> exists|h: int| 0 <= h <= i && (#[trigger] edges@[i]).0@ == ids_of(order@)[h],
                    ids_of(order@)[head as int] == u@,
                    lv.len() == order.len(),
                    lvl == lv[head as int],
                    dist_is(g, s, u@, lvl),
                    forall|i: int| 0 <= i < lv.len() ==> dist_is(g, s, #[trigger] ids_of(order@)[i], lv[i]),
                    forall|i: int, j: int| 0 <= i <= j < lv.len() ==> #[trigger] lv[i] <= #[trigger] lv[j],
                    forall|i: int| 0 <= i < lv.len() ==> #[trigger] lv[i] <= lvl + 1,
                    forall|x: Id, n: nat| #[trigger] dist_is(g, s, x, n) && n <= lvl ==> ids_of(order@).contains(x),
                    forall|i: int| 0 <= i < edges.len() ==> one_step_farther(g, s, (#[trigger] edges@[i]).0@, edges@[i].1@),
                    forall|m: int| 0 <= m < k ==> ids_of(order@).contains(#[trigger] ids_of(ds@)[m]),
                decreases ds.len() - k,
            {
                let v = &ds[k];
                assert(ids_of(ds@)[k as int] == v@);
                assert(deps(g, u@).contains(v@));
                let ghost pre = ids_of(order@);
                if !contains_id(&order, v) {
                    proof {
                        lemma_ids_push(order@, *v);
                        lemma_push_contains(pre, v@);
                        lemma_in_all_deps(g, u@, v@);
                        lemma_reach_step(g, s, u@, v@);
                        assert(pre.push(v@).take(o0.len() as int) =~= pre.take(o0.len() as int));
                    }
                    let ghost e0 = edges@;
                    proof {
                        assert(pre[head as int] == u@);
                        assert(pre.contains(u@));
                        lemma_walk_extend(g, s, u@, v@, lvl);
                        assert forall|m: nat| m < lvl + 1 implies !#[trigger] walk_of(g, s, v@, m) by {
                            if walk_of(g, s, v@, m) {
                                lemma_dist_exists(g, s, v@, m);
                                let d = choose|d: nat| d <= m && #[trigger] dist_is(g, s, v@, d);
                                assert(pre.contains(v@));
                            }
                        }
                        assert(dist_is(g, s, v@, lvl + 1));
                        lv = lv.push(lvl + 1);
                    }
                    order.push(v.clone());
                    edges.push((u.clone(), v.clone()));
                    proof {
                        assert(ids_of(order@)[head as int] == u@);
                        assert forall|i: int| 0 <= i < edges.len() implies exists|h: int| 0 <= h <= i && (#[trigger] edges@[i]).0@ == ids_of(order@)[h] by {
                            if i < e0.len() {
                                assert(edges@[i] == e0[i]);
                                let h = choose|h: int| 0 <= h <= i && e0[i].0@ == pre[h];
                                assert(ids_of(order@)[h] == pre[h]);
                            } else {
                                assert(edges@[i].0@ == ids_of(order@)[head as int]);
                            }
                        }
                        assert(edges@[edges.len() - 1].1@ == v@);
                        assert(ids_of(order@)[edges.len() as int] == v@);
                        assert forall|i: int| 0 <= i < lv.len() implies dist_is(g, s, #[trigger] ids_of(order@)[i], lv[i]) by {
                            if i < pre.len() {
                                assert(ids_of(order@)[i] == pre[i]);
                            }
                        }
                        assert forall|i: int| 0 <= i < edges.len() implies one_step_farther(g, s, (#[trigger] edges@[i]).0@, edges@[i].1@) by {
                            if i < e0.len() {
                                assert(edges@[i] == e0[i]);
                            } else {
                                assert(dist_is(g, s, edges@[i].0@, lvl) && dist_is(g, s, edges@[i].1@, lvl + 1));
                                assert(one_step_farther(g, s, edges@[i].0@, edges@[i].1@));
                            }
                        }
                        assert forall|m: int| 0 <= m < k + 1 implies ids_of(order@).contains(#[trigger] ids_of(ds@)[m]) by {
                            if m < k {
                                assert(pre.contains(ids_of(ds@)[m]));
                            }
                        }
                    }
                }
                k = k + 1;
            }
            proof {
                let o1 = ids_of(order@);
                assert forall|x: Id| o0.contains(x) implies #[trigger] o1.contains(x) by {
                    let m = choose|m: int| 0 <= m < o0.len() && o0[m] == x;
                    assert(o1.take(o0.len() as int)[m] == x);
                    assert(o1[m] == x);
                }
                assert forall|j: int, x: Id| 0 <= j < head + 1 && #[trigger] deps(g, o1[j]).contains(x) implies o1.contains(x) by {
                    assert(o1[j] == o1.take(o0.len() as int)[j]);
                    if j == head {
                        let m = choose|m: int| 0 <= m < ids_of(ds@).len() && ids_of(ds@)[m] == x;
                    } else {
                        assert(o0.contains(x));
                    }
                }
            }
            proof {
                let o1 = ids_of(order@);
                let h1 = head + 1;
                if h1 < lv.len() {
                    assert(lv[head as int] <= lv[h1]);
                    assert(lv[h1] <= lvl + 1);
                    assert(lv[lv.len() - 1] <= lvl + 1);
                    assert forall|x: Id, n: nat| #[trigger] dist_is(g, s, x, n) && n <= lv[h1] implies o1.contains(x) by {
                        if n > lvl {
                            lemma_dist_pred(g, s, x, n);
                            let y = choose|y: Id| dist_is(g, s, y, (n - 1) as nat) && #[trigger] edge(g, y, x);
                            assert(o1.contains(y));
                            let iy = choose|iy: int| 0 <= iy < o1.len() && o1[iy] == y;
                            assert(dist_is(g, s, o1[iy], lv[iy]));
                            lemma_dist_unique(g, s, y, lv[iy], lvl);
                            if iy >= h1 {
                                assert(lv[h1] <= lv[iy]);
                            }
                            assert(deps(g, o1[iy]).contains(x));
                        }
                    }
                }
            }
            head = head + 1;
        }
        proof {
            let o = ids_of(order@);
            let st = Set::new(|x: Id| o.contains(x));
            assert forall|y: Id, x: Id| st.contains(y) && #[trigger] deps(g, y).contains(x) implies st.contains(x) by {
                let j = choose|j: int| 0 <= j < o.len() && o[j] == y;
            }
            assert forall|x: Id| #[trigger] deps(g, s).contains(x) implies st.contains(x) by {
                assert(o[0] == s);
            }
            assert forall|x: Id| (exists|i: int| 0 <= i < edges.len() && (#[trigger] edges@[i]).1@ == x) <==> (x != s && reachable(g, s, x)) by {
                if x != s && reachable(g, s, x) {
                    lemma_closed_holds_reach(g, s, st, x);
                    let j = choose|j: int| 0 <= j < o.len() && o[j] == x;
                    assert(j != 0);
                    assert(edges@[j - 1].1@ == x);
                }
                if exists|i: int| 0 <= i < edges.len() && (#[trigger] edges@[i]).1@ == x {
                    let i = choose|i: int| 0 <= i < edges.len() && (#[trigger] edges@[i]).1@ == x;
                    assert(o[i + 1] == x);
                    assert(o.contains(x));
                    assert(o[0] == s);
                }
            }
            assert forall|i: int, j: int| 0 <= i < j < edges.len() implies (#[trigger] edges@[i]).1@ != (#[trigger] edges@[j]).1@ by {
                assert(o[i + 1] != o[j + 1]);
            }
            assert forall|i: int| 0 <= i < edges.len() implies (#[trigger] edges@[i]).0@ == s || exists|j: int| 0 <= j < i && edges@[j].1@ == edges@[i].0@ by {
                let h = choose|h: int| 0 <= h <= i && edges@[i].0@ == o[h];
                if h > 0 {
                    assert(edges@[h - 1].1@ == o[h]);
                    if h - 1 == i {
                        assert(edges@[i].0@ == edges@[i].1@);
                    }
                }
            }
        }
        edges
    }

    /// An approximate triangle count: over every distinct two-step walk
    /// `a -> b -> c` from a node `a` (a dependent listed twice counts once),
    /// count one where `c -> a` closes a 3-cycle and one where `a -> c` is an
    /// edge as well; the total divided by three.
    pub fn count_triangles(&self) -> (r: usize)
        requires
            self.wf(),
            triangle_patterns(self.model(), self.model()) <= usize::MAX,
        ensures
            r == triangle_patterns(self.model(), self.model()) / 3,
    {
        let ghost g = self.model();
        let ghost total = triangle_patterns(g, g);
        let mut count: usize = 0;
        let mut i: usize = 0;
        while i < self.nodes.len()
            invariant
                self.wf(),
                g == self.model(),
                total == triangle_patterns(g, g),
                total <= usize::MAX,
                i <= self.nodes.len(),
                count == triangle_patterns(g, g.take(i as int)),
            decreases self.nodes.len() - i,
        {
            let node_a = &self.nodes[i];
            let ghost a = g[i as int].0;
            let ghost bs = g[i as int].1;
            proof {
                lemma_deps_at(g, i as int);
                assert(g.take(i + 1).drop_last() =~= g.take(i as int));
                lemma_triangle_prefix(g, g, i + 1);
            }
            let ghost base = count as nat;
            let mut j: usize = 0;
            while j < node_a.dependents.len()
                invariant
                    self.wf(),
                    g == self.model(),
                    i < self.nodes.len(),
                    node_a == self.nodes@[i as int],
                    a == node_a.id@,
                    bs == ids_of(node_a.dependents@),
                    deps(g, a) == bs,
                    j <= node_a.dependents.len(),
                    base + pattern_count(g, a, bs) <= usize::MAX,
                    count == base + pattern_count(g, a, bs.take(j as int)),
                decreases node_a.dependents.len() - j,
            {
                proof {
                    assert(bs.take(j + 1).drop_last() =~= bs.take(j as int));
                    assert(bs.take(j + 1).last() == bs[j as int]);
                    lemma_pattern_prefix(g, a, bs, j + 1);
                    assert(bs[j as int] == node_a.dependents@[j as int]@);
                }
                if occurs_before(&node_a.dependents, j) {
                    j = j + 1;
                    continue;
                }
                let ds = self.dependents_of(&node_a.dependents[j]);
                let ghost cs = deps(g, bs[j as int]);
                let ghost mid = count as nat;
                let mut k: usize = 0;
                while k < ds.len()
                    invariant
                        self.wf(),
                        g == self.model(),
                        node_a == self.nodes@[i as int],
                        a == node_a.id@,
                        deps(g, a) == ids_of(node_a.dependents@),
                        ids_of(ds@) == cs,
                        k <= ds.len(),
                        mid + closing_count(g, a, cs) <= usize::MAX,
                        count == mid + closing_count(g, a, cs.take(k as int)),
                    decreases ds.len() - k,
                {
                    proof {
                        assert(cs.take(k + 1).drop_last() =~= cs.take(k as int));
                        assert(cs.take(k + 1).last() == ds@[k as int]@);
                        lemma_closing_prefix(g, a, cs, k + 1);
                    }
                    if !occurs_before(&ds, k) {
                        let back = self.dependents_of(&ds[k]);
                        if contains_id(&back, &node_a.id) {
                            count = count + 1;
                        }
                        if contains_id(&node_a.dependents, &ds[k]) {
                            count = count + 1;
                        }
                    }
                    k = k + 1;
                }
                assert(cs.take(ds.len() as int) =~= cs);
                j = j + 1;
            }
            assert(bs.take(node_a.dependents.len() as int) =~= bs);
            i = i + 1;
        }
        assert(g.take(self.nodes.len() as int) =~= g);
        count / 3
    }

    /// For each node, in store order, the nodes that list it among their
    /// dependents (by position, ascending), each with its out-degree floored
    /// at one: what one PageRank iteration draws on.
    pub fn rank_sources(&self) -> (r: Vec<Vec<(usize, usize)>>)
        ensures
            r.len() == self.nodes.len(),
            forall|i: int, m: int| 0 <= i < r.len() && 0 <= m < r@[i].len() ==> {
                let j = (#[trigger] r@[i]@[m]).0 as int;
                &&& 0 <= j < self.nodes.len()
                &&& self.model()[j].1.contains(self.model()[i].0)
                &&& r@[i]@[m].1 == if self.model()[j].1.len() > 0 { self.model()[j].1.len() } else { 1 }
            },
            forall|i: int, m1: int, m2: int| 0 <= i < r.len() && 0 <= m1 < m2 < r@[i].len() ==> (#[trigger] r@[i]@[m1]).0 < (#[trigger] r@[i]@[m2]).0,
            forall|i: int, j: int| 0 <= i < r.len() && 0 <= j < self.nodes.len() && #[trigger] self.model()[j].1.contains(#[trigger] self.model()[i].0) ==>
                exists|m: int| 0 <= m < r@[i].len() && (#[trigger] r@[i]@[m]).0 == j,
    {
        let ghost g = self.model();
        let n = self.nodes.len();
        let mut r: Vec<Vec<(usize, usize)>> = Vec::new();
        let mut i: usize = 0;
        while i < n
            invariant
                n == self.nodes.len(),
                g == self.model(),
                i <= n,
                r.len() == i,
                forall|i2: int, m: int| 0 <= i2 < i && 0 <= m < r@[i2].len() ==> {
                    let j = (#[trigger] r@[i2]@[m]).0 as int;
                    &&& 0 <= j < n
                    &&& g[j].1.contains(g[i2].0)
                    &&& r@[i2]@[m].1 == if g[j].1.len() > 0 { g[j].1.len() } else { 1 }
                },
                forall|i2: int, m1: int, m2: int| 0 <= i2 < i && 0 <= m1 < m2 < r@[i2].len() ==> (#[trigger] r@[i2]@[m1]).0 < (#[trigger] r@[i2]@[m2]).0,
                forall|i2: int, j: int| 0 <= i2 < i && 0 <= j < n && #[trigger] g[j].1.contains(#[trigger] g[i2].0) ==>
                    exists|m: int| 0 <= m < r@[i2].len() && (#[trigger] r@[i2]@[m]).0 == j,
            decreases n - i,
        {
            let target = &self.nodes[i].id;
            let ghost t = g[i as int].0;
            assert(t == target@);
            let mut links: Vec<(usize, usize)> = Vec::new();
            let mut j: usize = 0;
            while j < n
                invariant
                    n == self.nodes.len(),
                    g == self.model(),
                    i < n,
                    t == g[i as int].0,
                    t == target@,
                    j <= n,
                    forall|m: int| 0 <= m < links.len() ==> {
                        let j2 = (#[trigger] links@[m]).0 as int;
                        &&& 0 <= j2 < j
                        &&& g[j2].1.contains(t)
                        &&& links@[m].1 == if g[j2].1.len() > 0 { g[j2].1.len() } else { 1 }
                    },
                    forall|m1: int, m2: int| 0 <= m1 < m2 < links.len() ==> (#[trigger] links@[m1]).0 < (#[trigger] links@[m2]).0,
                    forall|j2: int| 0 <= j2 < j && #[trigger] g[j2].1.contains(t) ==> exists|m: int| 0 <= m < links.len() && (#[trigger] links@[m]).0 == j2,
                decreases n - j,
            {
                assert(g[j as int].1 == ids_of(self.nodes@[j as int].dependents@));
                if contains_id(&self.nodes[j].dependents, target) {
                    let d = self.nodes[j].dependents.len();
                    let w = if d > 0 { d } else { 1 };
                    let ghost l0 = links@;
                    links.push((j, w));
                    proof {
                        assert forall|j2: int| 0 <= j2 < j + 1 && #[trigger] g[j2].1.contains(t) implies exists|m: int| 0 <= m < links.len() && (#[trigger] links@[m]).0 == j2 by {
                            if j2 < j {
                                let m = choose|m: int| 0 <= m < l0.len() && (#[trigger] l0[m]).0 == j2;
                                assert(links@[m] == l0[m]);
                            } else {
                                assert(links@[links.len() - 1].0 == j2);
                            }
                        }
                    }
                }
                j = j + 1;
            }
            let ghost r0 = r@;
            r.push(links);
            proof {
                assert forall|i2: int, j2: int| 0 <= i2 < i + 1 && 0 <= j2 < n && #[trigger] g[j2].1.contains(#[trigger] g[i2].0) implies
                    exists|m: int| 0 <= m < r@[i2].len() && (#[trigger] r@[i2]@[m]).0 == j2 by {
                    if i2 < i {
                        assert(r@[i2] == r0[i2]);
                        let m = choose|m: int| 0 <= m < r0[i2].len() && (#[trigger] r0[i2]@[m]).0 == j2;
                        assert(r@[i2]@[m].0 == j2);
                    } else {
                        assert(g[j2].1.contains(t));
                        let m = choose|m: int| 0 <= m < links.len() && (#[trigger] links@[m]).0 == j2;
                        assert(r@[i2]@[m].0 == j2);
                    }
                }
            }
            i = i + 1;
        }
        r
    }

    /// The largest shortest-walk distance from `s` to any identifier it
    /// reaches (zero when it reaches none), by breadth-first levels.
    fn eccentricity(&self, s: &String) -> (e: usize)
        requires
            self.wf(),
            mentioned(self.model(), s@),
        ensures
            exists|x: Id| dist_is(self.model(), s@, x, e as nat),
            forall|x: Id, n: nat| #[trigger] dist_is(self.model(), s@, x, n) ==> n <= e,
    {
        let ghost g = self.model();
        let ghost st = s@;
        let mut seen: Vec<String> = Vec::new();
        let mut frontier: Vec<String> = Vec::new();
        proof {
            lemma_ids_push(seen@, *s);
            lemma_push_contains(ids_of(seen@), st);
            assert(ids_of(seen@) =~= Seq::<Id>::empty());
            lemma_walk_start(g, st);
        }
        seen.push(s.clone());
        frontier.push(s.clone());
        assert(ids_of(frontier@) =~= ids_of(seen@));
        let mut d: usize = 0;
        loop
            invariant
                self.wf(),
                g == self.model(),
                st == s@,
                ids_of(seen@).no_duplicates(),
                forall|x: Id| #[trigger] ids_of(seen@).contains(x) ==> mentioned(g, x),
                forall|x: Id| #[trigger] ids_of(seen@).contains(x) <==> exists|m: nat| m <= d && #[trigger] walk_of(g, st, x, m),
                forall|x: Id| #[trigger] ids_of(frontier@).contains(x) <==> dist_is(g, st, x, d as nat),
                frontier.len() > 0,
                d < seen.len(),
            decreases universe(g).len() - seen.len(),
        {
            proof {
                lemma_mentioned_bound(g, ids_of(seen@));
                let f0 = frontier@[0]@;
                assert(ids_of(frontier@)[0] == f0);
                assert(ids_of(frontier@).contains(f0));
            }
            let cand = self.expand_frontier(&frontier);
            let ghost seen0 = ids_of(seen@);
            let mut next: Vec<String> = Vec::new();
            assert(ids_of(next@) =~= Seq::<Id>::empty());
            proof {
                assert forall|k: int| 0 <= k < cand.len() implies mentioned(g, #[trigger] cand@[k]@) by {
                    assert(ids_of(cand@)[k] == cand@[k]@);
                    assert(ids_of(cand@).contains(cand@[k]@));
                    let i = choose|i: int| 0 <= i < frontier.len() && #[trigger] deps(g, frontier@[i]@).contains(cand@[k]@);
                    lemma_in_all_deps(g, frontier@[i]@, cand@[k]@);
                }
            }
            let mut j: usize = 0;
            while j < cand.len()
                invariant
                    self.wf(),
                    g == self.model(),
                    j <= cand.len(),
                    ids_of(seen@).no_duplicates(),
                    forall|x: Id| seen0.contains(x) ==> mentioned(g, x),
                    forall|k: int| 0 <= k < cand.len() ==> mentioned(g, #[trigger] cand@[k]@),
                    forall|x: Id| #[trigger] ids_of(seen@).contains(x) <==> (seen0.contains(x) || exists|k: int| 0 <= k < j && cand@[k]@ == x),
                    forall|x: Id| #[trigger] ids_of(next@).contains(x) <==> (!seen0.contains(x) && ids_of(seen@).contains(x)),
                    seen.len() == seen0.len() + next.len(),
                decreases cand.len() - j,
            {
                let item = &cand[j];
                let ghost pre = ids_of(seen@);
                let ghost npre = ids_of(next@);
                let ghost it = item@;
                let ghost jj = j as int;
                if !contains_id(&seen, item) {
                    proof {
                        lemma_ids_push(seen@, *item);
                        lemma_push_contains(pre, it);
                        lemma_ids_push(next@, *item);
                        lemma_push_contains(npre, it);
                    }
                    seen.push(item.clone());
                    next.push(item.clone());
                }
                assert forall|x: Id| #[trigger] ids_of(seen@).contains(x) <==> (pre.contains(x) || x == it) by {}
                j = j + 1;
                assert forall|x: Id| #[trigger] ids_of(seen@).contains(x) <==> (seen0.contains(x) || exists|k: int| 0 <= k < j && cand@[k]@ == x) by {
                    if exists|k: int| 0 <= k < j && cand@[k]@ == x {
                        let k = choose|k: int| 0 <= k < j && cand@[k]@ == x;
                        if k < jj {
                            assert(pre.contains(x));
                        }
                    }
                    if pre.contains(x) && !seen0.contains(x) {
                        let k = choose|k: int| 0 <= k < jj && cand@[k]@ == x;
                        assert(0 <= k < j && cand@[k]@ == x);
                    }
                    if x == it {
                        assert(cand@[jj]@ == x);
                    }
                }
            }
            proof {
                let fr = ids_of(frontier@);
                assert forall|x: Id| #[trigger] ids_of(next@).contains(x) <==> dist_is(g, st, x, (d + 1) as nat) by {
                    if ids_of(next@).contains(x) {
                        let k = choose|k: int| 0 <= k < cand.len() && cand@[k]@ == x;
                        assert(ids_of(cand@)[k] == x);
                        assert(ids_of(cand@).contains(x));
                        let i = choose|i: int| 0 <= i < frontier.len() && #[trigger] deps(g, frontier@[i]@).contains(x);
                        assert(fr[i] == frontier@[i]@);
                        assert(fr.contains(frontier@[i]@));
                        lemma_walk_extend(g, st, frontier@[i]@, x, d as nat);
                        assert forall|m: nat| m < d + 1 implies !#[trigger] walk_of(g, st, x, m) by {
                            if walk_of(g, st, x, m) {
                                assert(seen0.contains(x));
                            }
                        }
                    }
                    if dist_is(g, st, x, (d + 1) as nat) {
                        lemma_dist_pred(g, st, x, (d + 1) as nat);
                        let y = choose|y: Id| dist_is(g, st, y, d as nat) && #[trigger] edge(g, y, x);
                        assert(fr.contains(y));
                        let i = choose|i: int| 0 <= i < fr.len() && fr[i] == y;
                        assert(deps(g, frontier@[i]@).contains(x));
                        assert(ids_of(cand@).contains(x));
                        let k = choose|k: int| 0 <= k < ids_of(cand@).len() && ids_of(cand@)[k] == x;
                        assert(cand@[k]@ == x);
                        if seen0.contains(x) {
                            let m = choose|m: nat| m <= d && #[trigger] walk_of(g, st, x, m);
                            assert(m < d + 1);
                        }
                    }
                }
            }
            if next.len() == 0 {
                proof {
                    let f0 = frontier@[0]@;
                    assert(ids_of(frontier@)[0] == f0);
                    assert(ids_of(frontier@).contains(f0));
                    assert(dist_is(g, st, f0, d as nat));
                    assert forall|x: Id, n: nat| #[trigger] dist_is(g, st, x, n) implies n <= d by {
                        if n > d {
                            lemma_dist_down(g, st, x, n, (d + 1) as nat);
                            let z = choose|z: Id| #[trigger] dist_is(g, st, z, (d + 1) as nat);
                            assert(ids_of(next@).contains(z));
                            let m = choose|m: int| 0 <= m < ids_of(next@).len() && ids_of(next@)[m] == z;
                        }
                    }
                }
                return d;
            }
            proof {
                assert(ids_of(next@)[0] == next@[0]@);
                assert(ids_of(next@).contains(next@[0]@));
                assert forall|x: Id| #[trigger] ids_of(seen@).contains(x) implies mentioned(g, x) by {
                    if !seen0.contains(x) {
                        let k = choose|k: int| 0 <= k < cand.len() && cand@[k]@ == x;
                    }
                }
                lemma_mentioned_bound(g, ids_of(seen@));
                assert forall|x: Id| #[trigger] ids_of(seen@).contains(x) <==> exists|m: nat| m <= d + 1 && #[trigger] walk_of(g, st, x, m) by {
                    if exists|m: nat| m <= d + 1 && #[trigger] walk_of(g, st, x, m) {
                        let m = choose|m: nat| m <= d + 1 && #[trigger] walk_of(g, st, x, m);
                        if m <= d {
                            assert(seen0.contains(x));
                        } else if !seen0.contains(x) {
                            assert forall|m2: nat| m2 < d + 1 implies !#[trigger] walk_of(g, st, x, m2) by {
                                if walk_of(g, st, x, m2) {
                                    assert(m2 <= d);
                                    assert(seen0.contains(x));
                                }
                            }
                            assert(dist_is(g, st, x, (d + 1) as nat));
                            assert(ids_of(next@).contains(x));
                        }
                    }
                    if ids_of(seen@).contains(x) {
                        if seen0.contains(x) {
                            let m = choose|m: nat| m <= d && #[trigger] walk_of(g, st, x, m);
                            assert(m <= d + 1);
                        } else {
                            assert(ids_of(next@).contains(x));
                            assert(walk_of(g, st, x, (d + 1) as nat));
                        }
                    }
                }
            }
            frontier = next;
            d = d + 1;
        }
    }

    /// The largest shortest-walk distance between a node and any identifier
    /// it reaches, over all nodes; zero for an empty store.
    pub fn find_diameter(&self) -> (r: usize)
        requires
            self.wf(),
        ensures
            forall|s: Id, x: Id, n: nat| has_node(self.model(), s) && #[trigger] dist_is(self.model(), s, x, n) ==> n <= r,
            self.nodes.len() == 0 ==> r == 0,
            self.nodes.len() > 0 ==> exists|s: Id, x: Id| has_node(self.model(), s) && #[trigger] dist_is(self.model(), s, x, r as nat),
    {
        let ghost g = self.model();
        let mut max_dist: usize = 0;
        let mut i: usize = 0;
        while i < self.nodes.len()
            invariant
                self.wf(),
                g == self.model(),
                i <= self.nodes.len(),
                forall|j: int, x: Id, n: nat| 0 <= j < i && #[trigger] dist_is(g, g[j].0, x, n) ==> n <= max_dist,
                i > 0 ==> exists|j: int, x: Id| 0 <= j < i && #[trigger] dist_is(g, g[j].0, x, max_dist as nat),
                i == 0 ==> max_dist == 0,
            decreases self.nodes.len() - i,
        {
            assert(g[i as int].0 == self.nodes@[i as int].id@);
            assert(has_node(g, g[i as int].0));
            let e = self.eccentricity(&self.nodes[i].id);
            let ghost old_max = max_dist;
            if i == 0 || e > max_dist {
                max_dist = e;
            }
            proof {
                if max_dist == e {
                    let x = choose|x: Id| dist_is(g, g[i as int].0, x, e as nat);
                    assert(0 <= i < i + 1 && dist_is(g, g[i as int].0, x, max_dist as nat));
                } else {
                    let (j, x) = choose|j: int, x: Id| 0 <= j < i && #[trigger] dist_is(g, g[j].0, x, old_max as nat);
                    assert(0 <= j < i + 1 && dist_is(g, g[j].0, x, max_dist as nat));
                }
            }
            i = i + 1;
        }
        proof {
            assert forall|s: Id, x: Id, n: nat| has_node(g, s) && #[trigger] dist_is(g, s, x, n) implies n <= max_dist by {
                let j = choose|j: int| 0 <= j < g.len() && g[j].0 == s;
            }
            if self.nodes.len() > 0 {
                let (j, x) = choose|j: int, x: Id| 0 <= j < self.nodes.len() && #[trigger] dist_is(g, g[j].0, x, max_dist as nat);
                assert(has_node(g, g[j].0));
            }
        }
        max_dist
    }
}

} // verus!
