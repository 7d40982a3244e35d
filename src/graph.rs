//! An undirected graph over the nodes `0..n`, kept as adjacency lists, with
//! depth-first and breadth-first reachability queries.
use std::collections::{HashSet, VecDeque};
use vstd::prelude::*;
use vstd::set_lib::FiniteRange;
use vstd::std_specs::hash::group_hash_axioms;

verus! {

broadcast use group_hash_axioms;

/// An undirected graph whose nodes are `0..edges.len()`; `edges[u]` lists the
/// neighbours of `u`, once for each edge between them.
pub struct Graph {
    pub edges: Vec<Vec<usize>>,
}

impl View for Graph {
    type V = Seq<Seq<usize>>;

    open spec fn view(&self) -> Seq<Seq<usize>> {
        self.edges@.map_values(|l: Vec<usize>| l@)
    }
}

impl Graph {
    /// The number of nodes.
    pub open spec fn node_count(&self) -> nat {
        self@.len()
    }

    /// There is an edge from `u` to `v`.
    pub open spec fn adjacent(&self, u: usize, v: usize) -> bool {
        u < self@.len() && self@[u as int].contains(v)
    }

    /// Every neighbour listed is a node of the graph.
    pub open spec fn well_formed(&self) -> bool {
        forall|u: int, k: int|
            0 <= u < self@.len() && 0 <= k < self@[u].len() ==> #[trigger] self@[u][k]
                < self@.len()
    }

    /// `p` is a walk: it visits at least one node and each step follows an edge.
    pub open spec fn is_walk(&self, p: Seq<usize>) -> bool {
        &&& p.len() >= 1
        &&& forall|k: int| 0 <= k < p.len() - 1 ==> self.adjacent(#[trigger] p[k], p[k + 1])
    }

    /// Some walk leads from `start` to `target`.
    pub open spec fn reachable(&self, start: usize, target: usize) -> bool {
        exists|p: Seq<usize>| #[trigger] self.is_walk(p) && p[0] == start && p.last() == target
    }

    /// Every neighbour of a node in `c` is in `c` as well.
    pub open spec fn closed(&self, c: Set<usize>) -> bool {
        forall|u: usize, v: usize| c.contains(u) && #[trigger] self.adjacent(u, v) ==> c.contains(v)
    }

    /// A walk that starts inside a closed set never leaves it, so a node
    /// outside it cannot be reached.
    pub proof fn lemma_closed_unreachable(&self, c: Set<usize>, start: usize, target: usize)
        requires
            self.closed(c),
            c.contains(start),
            !c.contains(target),
        ensures
            !self.reachable(start, target),
    {
        if self.reachable(start, target) {
            let p = choose|p: Seq<usize>|
                #[trigger] self.is_walk(p) && p[0] == start && p.last() == target;
            assert forall|k: int| 0 <= k < p.len() implies c.contains(#[trigger] p[k]) by {
                self.lemma_walk_stays(c, p, k);
            }
            assert(c.contains(p[p.len() - 1]));
        }
    }

    proof fn lemma_walk_stays(&self, c: Set<usize>, p: Seq<usize>, k: int)
        requires
            self.closed(c),
            self.is_walk(p),
            c.contains(p[0]),
            0 <= k < p.len(),
        ensures
            c.contains(p[k]),
        decreases k,
    {
        if k > 0 {
            self.lemma_walk_stays(c, p, k - 1);
            assert(self.adjacent(p[k - 1], p[k]));
        }
    }

    /// A walk followed by a step along an edge is a walk.
    proof fn lemma_reach_then_step(&self, start: usize, u: usize, v: usize)
        requires
            self.reachable(start, u),
            self.adjacent(u, v),
        ensures
            self.reachable(start, v),
    {
        let p = choose|p: Seq<usize>|
            #[trigger] self.is_walk(p) && p[0] == start && p.last() == u;
        let q = p.push(v);
        assert forall|k: int| 0 <= k < q.len() - 1 implies self.adjacent(#[trigger] q[k], q[k + 1]) by {
            if k < p.len() - 1 {
                assert(q[k] == p[k]);
                assert(q[k + 1] == p[k + 1]);
            }
        }
        assert(self.is_walk(q));
    }

    /// A node reaches itself.
    proof fn lemma_reach_self(&self, u: usize)
        ensures
            self.reachable(u, u),
    {
        let p = seq![u];
        assert(self.is_walk(p));
    }

    /// Creates a graph with `num_nodes` nodes and no edges.
    pub fn new(num_nodes: usize) -> (g: Graph)
        ensures
            g@ == Seq::new(num_nodes as nat, |i: int| Seq::<usize>::empty()),
            g.well_formed(),
    {
        let mut edges: Vec<Vec<usize>> = Vec::new();
        let mut k: usize = 0;
        while k < num_nodes
            invariant
                k <= num_nodes,
                edges@.len() == k,
                forall|i: int| 0 <= i < k ==> (#[trigger] edges@[i])@ == Seq::<usize>::empty(),
            decreases num_nodes - k,
        {
            edges.push(Vec::new());
            k = k + 1;
        }
        let g = Graph { edges };
        assert(g@ =~= Seq::new(num_nodes as nat, |i: int| Seq::<usize>::empty()));
        g
    }

    /// Adds an undirected edge: `to` is appended to the list of `from`, then
    /// `from` to the list of `to`.
    pub fn add_edge(&mut self, from: usize, to: usize)
        requires
            from < old(self)@.len(),
            to < old(self)@.len(),
        ensures
            ({
                let mid = old(self)@.update(from as int, old(self)@[from as int].push(to));
                final(self)@ == mid.update(to as int, mid[to as int].push(from))
            }),
            old(self).well_formed() ==> final(self).well_formed(),
    {
        let ghost g0 = self@;
        self.edges[from].push(to);
        let ghost mid = g0.update(from as int, g0[from as int].push(to));
        assert(self@ =~= mid);
        self.edges[to].push(from);
        assert(self@ =~= mid.update(to as int, mid[to as int].push(from)));
    }

    /// Some walk leads from `start` to `target` whose nodes, all but the
    /// last, lie outside `v`.
    pub open spec fn reachable_avoiding(&self, start: usize, target: usize, v: Set<usize>) -> bool {
        exists|p: Seq<usize>|
            #[trigger] self.is_walk(p) && p[0] == start && p.last() == target && forall|i: int|
                0 <= i < p.len() - 1 ==> !v.contains(#[trigger] p[i])
    }

    /// Some walk leads from `start` to `w` whose nodes all lie outside `v`.
    pub open spec fn reachable_within(&self, start: usize, w: usize, v: Set<usize>) -> bool {
        exists|p: Seq<usize>|
            #[trigger] self.is_walk(p) && p[0] == start && p.last() == w && forall|i: int|
                0 <= i < p.len() ==> !v.contains(#[trigger] p[i])
    }

    /// A step from `u`, outside `v`, followed by a walk that avoids a larger
    /// set `v2`.
    proof fn lemma_step_then_avoiding(
        &self,
        u: usize,
        x: usize,
        t: usize,
        v: Set<usize>,
        v2: Set<usize>,
        within: bool,
    )
        requires
            self.adjacent(u, x),
            !v.contains(u),
            v.subset_of(v2),
            within ==> self.reachable_within(x, t, v2),
            !within ==> self.reachable_avoiding(x, t, v2),
        ensures
            within ==> self.reachable_within(u, t, v),
            !within ==> self.reachable_avoiding(u, t, v),
    {
        let p = if within {
            choose|p: Seq<usize>|
                #[trigger] self.is_walk(p) && p[0] == x && p.last() == t && forall|i: int|
                    0 <= i < p.len() ==> !v2.contains(#[trigger] p[i])
        } else {
            choose|p: Seq<usize>|
                #[trigger] self.is_walk(p) && p[0] == x && p.last() == t && forall|i: int|
                    0 <= i < p.len() - 1 ==> !v2.contains(#[trigger] p[i])
        };
        let q = seq![u] + p;
        assert forall|k: int| 0 <= k < q.len() - 1 implies self.adjacent(#[trigger] q[k], q[k + 1]) by {
            if k > 0 {
                assert(q[k] == p[k - 1]);
                assert(q[k + 1] == p[k]);
            }
        }
        assert(self.is_walk(q));
        assert(q.last() == t);
        if within {
            assert forall|i: int| 0 <= i < q.len() implies !v.contains(#[trigger] q[i]) by {
                if i > 0 {
                    assert(q[i] == p[i - 1]);
                }
            }
        } else {
            assert forall|i: int| 0 <= i < q.len() - 1 implies !v.contains(#[trigger] q[i]) by {
                if i > 0 {
                    assert(q[i] == p[i - 1]);
                }
            }
        }
    }

    /// With nothing to avoid, reaching avoiding is plain reaching.
    proof fn lemma_avoiding_nothing(&self, start: usize, target: usize)
        ensures
            self.reachable_avoiding(start, target, Set::empty()) == self.reachable(start, target),
    {
        if self.reachable(start, target) {
            let p = choose|p: Seq<usize>|
                #[trigger] self.is_walk(p) && p[0] == start && p.last() == target;
            assert(forall|i: int| 0 <= i < p.len() - 1 ==> !Set::<usize>::empty().contains(#[trigger] p[i]));
        }
    }

    /// A walk that starts in `c` and stays outside `v` until its end never
    /// leaves `c`, when each node of `c` outside `v` has its neighbours in `c`.
    proof fn lemma_walk_kept(&self, v: Set<usize>, c: Set<usize>, p: Seq<usize>, k: int)
        requires
            forall|x: usize, y: usize|
                c.contains(x) && !v.contains(x) && #[trigger] self.adjacent(x, y) ==> c.contains(y),
            self.is_walk(p),
            c.contains(p[0]),
            forall|i: int| 0 <= i < p.len() - 1 ==> !v.contains(#[trigger] p[i]),
            0 <= k < p.len(),
        ensures
            c.contains(p[k]),
        decreases k,
    {
        if k > 0 {
            self.lemma_walk_kept(v, c, p, k - 1);
            assert(self.adjacent(p[k - 1], p[k]));
            assert(!v.contains(p[k - 1]));
        }
    }

    /// Depth-first search: whether `target` can be reached from `start`.
    pub fn dfs(&self, start: usize, target: usize) -> (r: bool)
        requires
            self.well_formed(),
            start < self@.len() || start == target,
        ensures
            r == self.reachable(start, target),
    {
        let mut visited: HashSet<usize> = HashSet::new();
        let r = self.dfs_recursive(start, target, &mut visited);
        proof {
            self.lemma_avoiding_nothing(start, target);
        }
        r
    }

    /// One step of the depth-first search, from `current`: true when
    /// `current` is `target`; false when it was visited before; else it is
    /// marked visited and the search goes on from each of its neighbours in
    /// turn, stopping at the first that finds `target`.
    ///
    /// The result is whether a walk leads from `current` to `target` through
    /// nodes not visited before. The nodes it marks visited are reachable from
    /// `current` through such nodes, and never `target`; when it returns false
    /// it has marked every one of them.
    pub fn dfs_recursive(&self, current: usize, target: usize, visited: &mut HashSet<usize>) -> (r:
        bool)
        requires
            self.well_formed(),
            current < self@.len() || current == target,
            forall|v: usize| old(visited)@.contains(v) ==> v < self@.len(),
        ensures
            old(visited)@.subset_of(final(visited)@),
            forall|v: usize| final(visited)@.contains(v) ==> v < self@.len(),
            r == self.reachable_avoiding(current, target, old(visited)@),
            current == target ==> r,
            forall|w: usize|
                final(visited)@.contains(w) && !old(visited)@.contains(w) ==> w != target
                    && self.reachable_within(current, w, old(visited)@),
            !r ==> forall|w: usize|
                self.reachable_within(current, w, old(visited)@) ==> final(visited)@.contains(w),
            !r ==> final(visited)@.contains(current),
            !r ==> forall|v: usize, w: usize|
                final(visited)@.contains(v) && !old(visited)@.contains(v) && #[trigger] self.adjacent(
                    v,
                    w,
                ) ==> final(visited)@.contains(w) && w != target,
        decreases self@.len() - old(visited)@.len(),
    {
        if current == target {
            proof {
                let p = seq![current];
                assert(self.is_walk(p));
                assert(forall|i: int| 0 <= i < p.len() - 1 ==> !visited@.contains(#[trigger] p[i]));
            }
            return true;
        }
        let n: usize = self.edges.len();
        let ghost all = <usize as FiniteRange>::range_set(0, n);
        proof {
            vstd::set_lib::range_set_properties::<usize>(0, n);
            assert(visited@.subset_of(all));
            vstd::set_lib::lemma_len_subset(visited@, all);
        }
        if visited.contains(&current) {
            proof {
                assert forall|w: usize| #[trigger] self.reachable_within(current, w, visited@) implies visited@.contains(w) by {
                    let p = choose|p: Seq<usize>|
                        #[trigger] self.is_walk(p) && p[0] == current && p.last() == w && forall|i: int|
                            0 <= i < p.len() ==> !visited@.contains(#[trigger] p[i]);
                    assert(!visited@.contains(p[0]));
                }
                if self.reachable_avoiding(current, target, visited@) {
                    let p = choose|p: Seq<usize>|
                        #[trigger] self.is_walk(p) && p[0] == current && p.last() == target && forall|i: int|
                            0 <= i < p.len() - 1 ==> !visited@.contains(#[trigger] p[i]);
                    assert(p.len() > 1);
                    assert(!visited@.contains(p[0]));
                }
            }
            return false;
        }
        let ghost before = visited@;
        visited.insert(current);
        proof {
            assert(visited@.subset_of(all));
            vstd::set_lib::lemma_len_subset(visited@, all);
            let p = seq![current];
            assert(self.is_walk(p));
            assert(forall|i: int| 0 <= i < p.len() ==> !before.contains(#[trigger] p[i]));
            assert(self.reachable_within(current, current, before));
        }
        let neighbours = &self.edges[current];
        let mut k: usize = 0;
        while k < neighbours.len()
            invariant
                self.well_formed(),
                current < self@.len(),
                current != target,
                neighbours@ == self@[current as int],
                k <= neighbours@.len(),
                n == self@.len(),
                all == <usize as FiniteRange>::range_set(0, n),
                all.finite(),
                all.len() == self@.len(),
                before.len() < self@.len(),
                before.finite(),
                !before.contains(current),
                old(visited)@ == before,
                before.insert(current).subset_of(visited@),
                forall|v: usize| visited@.contains(v) ==> v < self@.len(),
                forall|i: int|
                    0 <= i < k ==> visited@.contains(#[trigger] neighbours@[i]) && neighbours@[i]
                        != target,
                forall|w: usize|
                    visited@.contains(w) && !before.contains(w) ==> w != target
                        && self.reachable_within(current, w, before),
                forall|v: usize, w: usize|
                    visited@.contains(v) && !before.contains(v) && v != current
                        && #[trigger] self.adjacent(v, w) ==> visited@.contains(w) && w != target,
            decreases neighbours@.len() - k,
        {
            let neighbour = neighbours[k];
            proof {
                assert(self@[current as int][k as int] < self@.len());
                assert(visited@.subset_of(all));
                vstd::set_lib::lemma_len_subset(visited@, all);
                vstd::set_lib::lemma_len_subset(before.insert(current), visited@);
                assert(before.insert(current).len() == before.len() + 1);
                assert(self.adjacent(current, neighbour));
            }
            let ghost mid = visited@;
            if self.dfs_recursive(neighbour, target, visited) {
                proof {
                    self.lemma_step_then_avoiding(current, neighbour, target, before, mid, false);
                    assert forall|w: usize|
                        visited@.contains(w) && !before.contains(w) implies w != target
                            && self.reachable_within(current, w, before) by {
                        if !mid.contains(w) {
                            self.lemma_step_then_avoiding(current, neighbour, w, before, mid, true);
                        }
                    }
                }
                return true;
            }
            proof {
                assert forall|w: usize|
                    visited@.contains(w) && !before.contains(w) implies w != target
                        && self.reachable_within(current, w, before) by {
                    if !mid.contains(w) {
                        self.lemma_step_then_avoiding(current, neighbour, w, before, mid, true);
                    }
                }
            }
            k = k + 1;
        }
        let ghost fin = visited@;
        proof {
            assert forall|v: usize, w: usize|
                fin.contains(v) && !before.contains(v) && #[trigger] self.adjacent(v, w) implies fin.contains(w)
                    && w != target by {
                if v == current {
                    let i = choose|i: int| 0 <= i < neighbours@.len() && neighbours@[i] == w;
                }
            }
            assert forall|w: usize| self.reachable_within(current, w, before) implies fin.contains(w) by {
                let p = choose|p: Seq<usize>|
                    #[trigger] self.is_walk(p) && p[0] == current && p.last() == w && forall|i: int|
                        0 <= i < p.len() ==> !before.contains(#[trigger] p[i]);
                self.lemma_walk_kept(before, fin, p, p.len() - 1);
            }
            if self.reachable_avoiding(current, target, before) {
                let p = choose|p: Seq<usize>|
                    #[trigger] self.is_walk(p) && p[0] == current && p.last() == target && forall|i: int|
                        0 <= i < p.len() - 1 ==> !before.contains(#[trigger] p[i]);
                assert(p.len() > 1);
                self.lemma_walk_kept(before, fin, p, p.len() - 2);
                assert(self.adjacent(p[p.len() - 2], p[p.len() - 1]));
                assert(!before.contains(p[p.len() - 2]));
            }
        }
        false
    }

    /// Breadth-first search: whether `target` can be reached from `start`.
    ///
    /// Nodes are taken from the front of a queue; each is compared with
    /// `target`, skipped if visited before, else marked visited, and all its
    /// neighbours are put at the back of the queue, visited or not.
    pub fn bfs(&self, start: usize, target: usize) -> (r: bool)
        requires
            self.well_formed(),
            start < self@.len() || start == target,
        ensures
            r == self.reachable(start, target),
    {
        let n: usize = self.edges.len();
        let ghost all = <usize as FiniteRange>::range_set(0, n);
        proof {
            vstd::set_lib::range_set_properties::<usize>(0, n);
            self.lemma_reach_self(start);
        }
        let mut visited: HashSet<usize> = HashSet::new();
        let mut queue: VecDeque<usize> = VecDeque::new();
        queue.push_back(start);
        assert(queue@[0] == start);
        loop
            invariant
                self.well_formed(),
                n == self@.len(),
                start < n || start == target,
                all == <usize as FiniteRange>::range_set(0, n),
                all.finite(),
                all.len() == n,
                visited@.subset_of(all),
                forall|i: int| 0 <= i < queue@.len() ==> #[trigger] queue@[i] < n || queue@[i] == target,
                forall|i: int|
                    0 <= i < queue@.len() ==> self.reachable(start, #[trigger] queue@[i]),
                !visited@.contains(target),
                visited@.contains(start) || queue@.contains(start),
                forall|v: usize, w: usize|
                    visited@.contains(v) && #[trigger] self.adjacent(v, w) ==> visited@.contains(w)
                        || queue@.contains(w),
            decreases n - visited@.len(), queue@.len(),
        {
            proof {
                vstd::set_lib::lemma_len_subset(visited@, all);
            }
            let ghost q0 = queue@;
            match queue.pop_front() {
                None => {
                    proof {
                        assert(self.closed(visited@));
                        self.lemma_closed_unreachable(visited@, start, target);
                    }
                    return false;
                },
                Some(current) => {
                    assert(q0[0] == current);
                    if current == target {
                        return true;
                    }
                    if visited.contains(&current) {
                        proof {
                            assert forall|w: usize| q0.contains(w) implies visited@.contains(w)
                                || queue@.contains(w) by {
                                let i = choose|i: int| 0 <= i < q0.len() && q0[i] == w;
                                if i > 0 {
                                    assert(queue@[i - 1] == w);
                                }
                            }
                        }
                        continue;
                    }
                    let ghost before = visited@;
                    visited.insert(current);
                    proof {
                        assert(visited@.subset_of(all));
                        vstd::set_lib::lemma_len_subset(visited@, all);
                        vstd::set_lib::lemma_len_subset(before, all);
                        assert(visited@.len() == before.len() + 1);
                    }
                    let ghost q1 = queue@;
                    let neighbours = &self.edges[current];
                    let mut k: usize = 0;
                    while k < neighbours.len()
                        invariant
                            self.well_formed(),
                            n == self@.len(),
                            current < n,
                            neighbours@ == self@[current as int],
                            self.reachable(start, current),
                            k <= neighbours@.len(),
                            queue@ == q1 + neighbours@.subrange(0, k as int),
                        decreases neighbours@.len() - k,
                    {
                        queue.push_back(neighbours[k]);
                        k = k + 1;
                        assert(queue@ =~= q1 + neighbours@.subrange(0, k as int));
                    }
                    proof {
                        assert(neighbours@.subrange(0, k as int) =~= neighbours@);
                        assert forall|i: int| 0 <= i < queue@.len() implies (#[trigger] queue@[i]
                            < n || queue@[i] == target) && self.reachable(start, queue@[i]) by {
                            if i < q1.len() {
                                assert(queue@[i] == q0[i + 1]);
                                assert(queue@[i] < n || queue@[i] == target);
                            } else {
                                let w = neighbours@[i - q1.len()];
                                assert(self@[current as int][i - q1.len()] < n);
                                assert(self.adjacent(current, w));
                                self.lemma_reach_then_step(start, current, w);
                            }
                        }
                        assert forall|w: usize| q0.contains(w) implies visited@.contains(w)
                            || queue@.contains(w) by {
                            let i = choose|i: int| 0 <= i < q0.len() && q0[i] == w;
                            if i > 0 {
                                assert(queue@[i - 1] == w);
                            }
                        }
                        assert forall|w: usize| #[trigger] self.adjacent(current, w) implies queue@.contains(w) by {
                            let i = choose|i: int| 0 <= i < neighbours@.len() && neighbours@[i] == w;
                            assert(queue@[q1.len() + i] == w);
                        }
                    }
                },
            }
        }
    }
}

} // verus!
