//! The node store and invalidation propagation.
use vstd::prelude::*;
use crate::model::{
    all_deps, deps, has_node, ids_of, keys, lemma_closed_holds_reach, lemma_deps_at,
    lemma_in_all_deps, lemma_nodup_len_le, lemma_reach_step, reachable, wf_model, Entry, Id,
};
use rayon::iter::{IntoParallelRefIterator, ParallelIterator};

verus! {

/// A fact and the facts that depend on it.
pub struct CausalNode {
    pub id: String,
    pub dependents: Vec<String>,
}

impl CausalNode {
    pub open spec fn entry(&self) -> Entry {
        (self.id@, ids_of(self.dependents@))
    }
}

/// The node store: one entry per known fact, in order of first insertion.
pub struct GraphWalker {
    pub nodes: Vec<CausalNode>,
}

/// Clones a list of identifiers.
pub fn clone_ids(v: &Vec<String>) -> (r: Vec<String>)
    ensures
        ids_of(r@) == ids_of(v@),
{
    let mut r: Vec<String> = Vec::new();
    let mut i: usize = 0;
    while i < v.len()
        invariant
            i <= v.len(),
            r@.len() == i,
            forall|j: int| 0 <= j < i ==> r@[j]@ == v@[j]@,
        decreases v.len() - i,
    {
        r.push(v[i].clone());
        i = i + 1;
    }
    assert(ids_of(r@) =~= ids_of(v@));
    r
}

/// Whether `x` occurs in `v`.
pub fn contains_id(v: &Vec<String>, x: &String) -> (r: bool)
    ensures
        r == ids_of(v@).contains(x@),
{
    let mut i: usize = 0;
    while i < v.len()
        invariant
            i <= v.len(),
            forall|j: int| 0 <= j < i ==> v@[j]@ != x@,
        decreases v.len() - i,
    {
        if v[i] == *x {
            assert(ids_of(v@)[i as int] == x@);
            return true;
        }
        i = i + 1;
    }
    assert forall|j: int| 0 <= j < ids_of(v@).len() implies ids_of(v@)[j] != x@ by {
        assert(v@[j]@ != x@);
    }
    false
}

impl GraphWalker {
    /// The store as a sequence of entries.
    pub open spec fn model(&self) -> Seq<Entry> {
        self.nodes@.map_values(|n: CausalNode| n.entry())
    }

    pub open spec fn wf(&self) -> bool {
        wf_model(self.model())
    }

    /// An empty store.
    pub fn new() -> (r: Self)
        ensures
            r.wf(),
            r.model() == Seq::<Entry>::empty(),
    {
        let r = GraphWalker { nodes: Vec::new() };
        assert(r.model() =~= Seq::<Entry>::empty());
        r
    }

    /// The index of the entry for `id`, if any.
    pub fn find(&self, id: &String) -> (r: Option<usize>)
        requires
            self.wf(),
        ensures
            r.is_none() <==> !has_node(self.model(), id@),
            r.is_some() ==> r.unwrap() < self.nodes.len() && self.model()[r.unwrap() as int].0 == id@,
    {
        let mut i: usize = 0;
        while i < self.nodes.len()
            invariant
                i <= self.nodes.len(),
                forall|j: int| 0 <= j < i ==> self.model()[j].0 != id@,
            decreases self.nodes.len() - i,
        {
            if self.nodes[i].id == *id {
                assert(self.model()[i as int].0 == id@);
                return Some(i);
            }
            i = i + 1;
        }
        None
    }

    /// Inserts a node, or replaces the dependents of an existing one.
    pub fn add_node(&mut self, id: String, dependents: Vec<String>)
        requires
            old(self).wf(),
        ensures
            final(self).wf(),
            has_node(old(self).model(), id@) ==> keys(final(self).model()) == keys(old(self).model()),
            !has_node(old(self).model(), id@) ==> keys(final(self).model()) == keys(old(self).model()).push(id@),
            deps(final(self).model(), id@) == ids_of(dependents@),
            forall|x: Id| x != id@ ==> #[trigger] deps(final(self).model(), x) == deps(old(self).model(), x),
    {
        let ghost g0 = self.model();
        let found = self.find(&id);
        let ghost key = id@;
        match found {
            Some(i) => {
                let n = CausalNode { id, dependents };
                self.nodes.set(i, n);
                proof {
                    assert(self.model() =~= g0.update(i as int, (key, ids_of(dependents@))));
                    assert(keys(self.model()) =~= keys(g0));
                }
            },
            None => {
                let n = CausalNode { id, dependents };
                self.nodes.push(n);
                proof {
                    assert(self.model() =~= g0.push((key, ids_of(dependents@))));
                    assert(keys(self.model()) =~= keys(g0).push(key));
                    assert forall|a: int, b: int| 0 <= a < b < keys(self.model()).len() implies
                        keys(self.model())[a] != keys(self.model())[b] by {
                        if b == g0.len() {
                            assert(g0[a].0 == keys(g0)[a]);
                        }
                    }
                }
            },
        }
        proof {
            let g1 = self.model();
            assert(keys(g1) =~= keys(g0) || keys(g1) =~= keys(g0).push(key));
            let k = if found.is_some() { found.unwrap() as int } else { g0.len() as int };
            assert(g1[k].0 == key);
            lemma_deps_at(g1, k);
            assert forall|x: Id| x != key implies #[trigger] deps(g1, x) == deps(g0, x) by {
                if has_node(g1, x) {
                    let j = choose|j: int| 0 <= j < g1.len() && g1[j].0 == x;
                    lemma_deps_at(g1, j);
                    assert(j != k);
                    assert(g0[j] == g1[j]);
                    lemma_deps_at(g0, j);
                } else {
                    assert forall|j: int| 0 <= j < g0.len() implies g0[j].0 != x by {
                        assert(g1[j] == g0[j] || j == k);
                    }
                }
            }
        }
    }

    /// The dependents of `id`, or none where `id` has no node entry.
    pub fn dependents_of(&self, id: &String) -> (r: Vec<String>)
        requires
            self.wf(),
        ensures
            ids_of(r@) == deps(self.model(), id@),
    {
        match self.find(id) {
            Some(i) => {
                proof {
                    lemma_deps_at(self.model(), i as int);
                }
                clone_ids(&self.nodes[i].dependents)
            },
            None => {
                let r: Vec<String> = Vec::new();
                assert(ids_of(r@) =~= Seq::<Id>::empty());
                r
            },
        }
    }

    /// Relies on rayon's `par_iter`, `flat_map` and `collect`: the collected
    /// vector holds the items that the mapping gives for each frontier member.
    #[verifier::external_body]
    pub(crate) fn expand_frontier(&self, frontier: &Vec<String>) -> (r: Vec<String>)
        requires
            self.wf(),
        ensures
            forall|x: Id| #[trigger] ids_of(r@).contains(x) <==> (exists|i: int| 0 <= i < frontier.len() && #[trigger] deps(self.model(), frontier@[i]@).contains(x)),
    {
        frontier.par_iter().flat_map(|id| self.dependents_of(id)).collect()
    }

    /// The facts invalidated by a change to `start_id`: exactly those reachable
    /// from it through one or more dependency edges, each once.
    pub fn propagate_invalidation(&self, start_id: String) -> (r: Vec<String>)
        requires
            self.wf(),
        ensures
            ids_of(r@).no_duplicates(),
            forall|x: Id| #[trigger] ids_of(r@).contains(x) <==> reachable(self.model(), start_id@, x),
    {
        let ghost g = self.model();
        let ghost start = start_id@;
        let mut invalid: Vec<String> = Vec::new();
        let mut frontier: Vec<String> = Vec::new();
        frontier.push(start_id);
        assert(ids_of(frontier@)[0] == start);
        while frontier.len() > 0
            invariant
                self.wf(),
                g == self.model(),
                ids_of(invalid@).no_duplicates(),
                invalid.len() <= all_deps(g).len(),
                forall|x: Id| #[trigger] ids_of(invalid@).contains(x) ==> reachable(g, start, x),
                forall|x: Id| #[trigger] ids_of(frontier@).contains(x) ==> x == start || ids_of(invalid@).contains(x),
                forall|y: Id, x: Id|
                    (y == start || ids_of(invalid@).contains(y)) && !ids_of(frontier@).contains(y)
                        && #[trigger] deps(g, y).contains(x) ==> ids_of(invalid@).contains(x),
            decreases all_deps(g).len() - invalid.len() + if frontier.len() > 0 { 1int } else { 0int },
        {
            let next = self.expand_frontier(&frontier);
            assert forall|k: int| 0 <= k < next.len() implies reachable(g, start, #[trigger] next@[k]@) by {
                assert(ids_of(next@)[k] == next@[k]@);
                assert(ids_of(next@).contains(next@[k]@));
                let i = choose|i: int| 0 <= i < frontier.len() && #[trigger] deps(g, frontier@[i]@).contains(next@[k]@);
                assert(ids_of(frontier@)[i] == frontier@[i]@);
                assert(ids_of(frontier@).contains(frontier@[i]@));
                lemma_reach_step(g, start, frontier@[i]@, next@[k]@);
            }
            let ghost inv0 = ids_of(invalid@);
            let mut fresh: Vec<String> = Vec::new();
            let mut j: usize = 0;
            while j < next.len()
                invariant
                    j <= next.len(),
                    forall|k: int| 0 <= k < next.len() ==> reachable(g, start, #[trigger] next@[k]@),
                    ids_of(invalid@).no_duplicates(),
                    invalid.len() == inv0.len() + fresh.len(),
                    forall|x: Id| #[trigger] ids_of(invalid@).contains(x) <==>
                        (inv0.contains(x) || exists|k: int| 0 <= k < j && next@[k]@ == x),
                    forall|x: Id| #[trigger] ids_of(fresh@).contains(x) ==> !inv0.contains(x) && ids_of(invalid@).contains(x),
                    forall|x: Id| #[trigger] ids_of(invalid@).contains(x) ==> inv0.contains(x) || ids_of(fresh@).contains(x),
                decreases next.len() - j,
            {
                let item = &next[j];
                let ghost pre = ids_of(invalid@);
                let ghost it = item@;
                let ghost jj = j as int;
                if !contains_id(&invalid, item) {
                    let ghost fpre = ids_of(fresh@);
                    invalid.push(item.clone());
                    fresh.push(item.clone());
                    assert(ids_of(invalid@) =~= pre.push(it));
                    assert(ids_of(fresh@) =~= fpre.push(it));
                    assert forall|x: Id| #[trigger] ids_of(fresh@).contains(x) implies fpre.contains(x) || x == it by {
                        let m = choose|m: int| 0 <= m < ids_of(fresh@).len() && ids_of(fresh@)[m] == x;
                        if m < fpre.len() {
                            assert(fpre[m] == x);
                        }
                    }
                    assert(ids_of(fresh@)[fpre.len() as int] == it);
                    assert(ids_of(invalid@)[pre.len() as int] == it);
                    assert forall|x: Id| fpre.contains(x) implies #[trigger] ids_of(fresh@).contains(x) by {
                        let m = choose|m: int| 0 <= m < fpre.len() && fpre[m] == x;
                        assert(ids_of(fresh@)[m] == x);
                    }
                }
                assert forall|x: Id| #[trigger] ids_of(invalid@).contains(x) <==> (pre.contains(x) || x == it) by {
                    if ids_of(invalid@).contains(x) {
                        let m = choose|m: int| 0 <= m < ids_of(invalid@).len() && ids_of(invalid@)[m] == x;
                        if m < pre.len() {
                            assert(pre[m] == x);
                        }
                    }
                    if pre.contains(x) {
                        let m = choose|m: int| 0 <= m < pre.len() && pre[m] == x;
                        assert(ids_of(invalid@)[m] == x);
                    }
                }
                j = j + 1;
                assert forall|x: Id| #[trigger] ids_of(invalid@).contains(x) <==>
                    (inv0.contains(x) || exists|k: int| 0 <= k < j && next@[k]@ == x) by {
                    if exists|k: int| 0 <= k < j && next@[k]@ == x {
                        let k = choose|k: int| 0 <= k < j && next@[k]@ == x;
                        if k < jj {
                            assert(pre.contains(x));
                        }
                    }
                    if pre.contains(x) && !inv0.contains(x) {
                        let k = choose|k: int| 0 <= k < jj && next@[k]@ == x;
                        assert(0 <= k < j && next@[k]@ == x);
                    }
                    if x == it {
                        assert(next@[jj]@ == x);
                    }
                }
            }
            proof {
                let inv1 = ids_of(invalid@);
                assert forall|x: Id| #[trigger] inv1.contains(x) implies reachable(g, start, x) by {
                    if !inv0.contains(x) {
                        let k = choose|k: int| 0 <= k < next.len() && next@[k]@ == x;
                    }
                }
                assert forall|y: Id, x: Id|
                    (y == start || inv1.contains(y)) && !ids_of(fresh@).contains(y)
                        && #[trigger] deps(g, y).contains(x) implies inv1.contains(x) by {
                    if ids_of(frontier@).contains(y) {
                        let i = choose|i: int| 0 <= i < frontier.len() && ids_of(frontier@)[i] == y;
                        assert(deps(g, frontier@[i]@).contains(x));
                        assert(ids_of(next@).contains(x));
                        let k = choose|k: int| 0 <= k < next.len() && ids_of(next@)[k] == x;
                        assert(next@[k]@ == x);
                    }
                }
                assert forall|x: Id| inv1.contains(x) implies all_deps(g).contains(x) by {
                    let y = choose|y: Id| #[trigger] reachable(g, start, y) && y == x;
                    let p = choose|p: Seq<Id>| p.len() >= 2 && p[0] == start && p.last() == x && #[trigger] crate::model::is_walk(g, p);
                    let i = p.len() - 2;
                    assert(crate::model::edge(g, p[i], p[i + 1]));
                    lemma_in_all_deps(g, p[i], x);
                }
                lemma_nodup_len_le(inv1, all_deps(g));
            }
            frontier = fresh;
        }
        proof {
            let s = Set::new(|x: Id| ids_of(invalid@).contains(x));
            assert forall|x: Id| reachable(g, start, x) implies #[trigger] ids_of(invalid@).contains(x) by {
                lemma_closed_holds_reach(g, start, s, x);
            }
        }
        invalid
    }
}

} // verus!
