//! The graph store: a directed adjacency structure over unsigned integer
//! node identifiers, with breadth-first shortest-distance queries.

use vstd::prelude::*;

verus! {

use std::collections::HashMap;
use std::collections::VecDeque;

broadcast use {
    vstd::std_specs::hash::group_hash_axioms,
    vstd::std_specs::vecdeque::group_vec_dequeue_axioms,
    vstd::seq_lib::seq_to_set_is_finite,
};

/// True when the graph `g` has a directed edge from `a` to `b`.
pub open spec fn edge(g: Map<usize, Seq<usize>>, a: usize, b: usize) -> bool {
    g.contains_key(a) && g[a].contains(b)
}

/// The outgoing-neighbor sequence of `n` in `g`, defaulting to empty when
/// `n` has no entry.
pub open spec fn spec_neighbors(g: Map<usize, Seq<usize>>, n: usize) -> Seq<usize> {
    if g.contains_key(n) {
        g[n]
    } else {
        Seq::empty()
    }
}

/// True when `n` can be reached from `start` in `g` by a directed path of
/// at most `k` edges.
pub open spec fn reaches_within(g: Map<usize, Seq<usize>>, start: usize, n: usize, k: nat) -> bool
    decreases k,
{
    n == start || (k > 0 && exists|m: usize| reaches_within(g, start, m, (k - 1) as nat)
        && #[trigger] edge(g, m, n))
}

/// A path within `k1` edges is also a path within any larger bound.
pub proof fn lemma_reaches_monotonic(
    g: Map<usize, Seq<usize>>,
    start: usize,
    n: usize,
    k1: nat,
    k2: nat,
)
    requires
        reaches_within(g, start, n, k1),
        k1 <= k2,
    ensures
        reaches_within(g, start, n, k2),
    decreases k1,
{
    if n != start {
        let m = choose|m: usize|
            reaches_within(g, start, m, (k1 - 1) as nat) && #[trigger] edge(g, m, n);
        lemma_reaches_monotonic(g, start, m, (k1 - 1) as nat, (k2 - 1) as nat);
    }
}

/// A node has at most one exact shortest distance from `start`.
pub proof fn lemma_exact_distance_unique(
    g: Map<usize, Seq<usize>>,
    start: usize,
    n: usize,
    d1: nat,
    d2: nat,
)
    requires
        reaches_within(g, start, n, d1),
        d1 > 0 ==> !reaches_within(g, start, n, (d1 - 1) as nat),
        reaches_within(g, start, n, d2),
        d2 > 0 ==> !reaches_within(g, start, n, (d2 - 1) as nat),
    ensures
        d1 == d2,
{
    if d1 < d2 {
        lemma_reaches_monotonic(g, start, n, d1, (d2 - 1) as nat);
    }
    if d2 < d1 {
        lemma_reaches_monotonic(g, start, n, d2, (d1 - 1) as nat);
    }
}

/// Every destination of an edge leaving one of the nodes in `ns`.
spec fn targets_of(g: Map<usize, Seq<usize>>, ns: Seq<usize>) -> Set<usize>
    decreases ns.len(),
{
    if ns.len() == 0 {
        Set::empty()
    } else {
        spec_neighbors(g, ns[0]).to_set().union(targets_of(g, ns.drop_first()))
    }
}

proof fn lemma_targets_finite(g: Map<usize, Seq<usize>>, ns: Seq<usize>)
    ensures
        targets_of(g, ns).finite(),
    decreases ns.len(),
{
    if ns.len() != 0 {
        lemma_targets_finite(g, ns.drop_first());
    }
}

proof fn lemma_targets_cover(g: Map<usize, Seq<usize>>, ns: Seq<usize>, n: usize)
    requires
        ns.contains(n),
    ensures
        spec_neighbors(g, n).to_set().subset_of(targets_of(g, ns)),
    decreases ns.len(),
{
    if ns[0] != n {
        let i = choose|i: int| 0 <= i < ns.len() && ns[i] == n;
        assert(ns.drop_first()[i - 1] == n);
        lemma_targets_cover(g, ns.drop_first(), n);
    }
}

/// A finite superset with the same cardinality is the same set.
pub(crate) proof fn lemma_subset_same_len_is_equal<A>(s1: Set<A>, s2: Set<A>)
    requires
        s1.subset_of(s2),
        s2.finite(),
        s1.len() == s2.len(),
    ensures
        s1 == s2,
    decreases s2.len(),
{
    vstd::set_lib::lemma_len_subset(s1, s2);
    if s1.is_empty() {
        s2.lemma_len0_is_empty();
        assert(s1 =~= s2);
    } else {
        let a = s1.choose();
        lemma_subset_same_len_is_equal(s1.remove(a), s2.remove(a));
        assert(s1 =~= s1.remove(a).insert(a));
        assert(s2 =~= s2.remove(a).insert(a));
    }
}

/// The size of the complement of a subset of a finite set.
proof fn lemma_diff_len<A>(u: Set<A>, s: Set<A>)
    requires
        u.finite(),
        s.subset_of(u),
    ensures
        u.difference(s).len() == u.len() - s.len(),
    decreases u.len(),
{
    vstd::set_lib::lemma_len_subset(s, u);
    if s.is_empty() {
        assert(u.difference(s) =~= u);
    } else {
        let a = s.choose();
        lemma_diff_len(u.remove(a), s.remove(a));
        assert(u.difference(s) =~= u.remove(a).difference(s.remove(a)));
    }
}

/// One level of breadth-first coverage: when every node within `dd - 1`
/// hops is recorded and every recorded node nearer than `dd` has all its
/// successors recorded, every node within `dd` hops is recorded.
proof fn lemma_coverage_step(
    g: Map<usize, Seq<usize>>,
    start: usize,
    d: Map<usize, usize>,
    dd: nat,
)
    requires
        d.contains_key(start) && d[start] == 0,
        forall|n: usize, k: nat|
            #[trigger] reaches_within(g, start, n, k) && k < dd ==> d.contains_key(n) && d[n] <= k,
        forall|n: usize, m: usize|
            d.contains_key(n) && d[n] < dd && #[trigger] edge(g, n, m) ==> d.contains_key(m)
                && d[m] <= d[n] + 1,
    ensures
        forall|n: usize|
            #[trigger] reaches_within(g, start, n, dd) ==> d.contains_key(n) && d[n] <= dd,
{
    assert forall|n: usize| #[trigger]
        reaches_within(g, start, n, dd) implies d.contains_key(n) && d[n] <= dd by {
        if n != start {
            let m = choose|m: usize|
                reaches_within(g, start, m, (dd - 1) as nat) && #[trigger] edge(g, m, n);
            assert(d.contains_key(m) && d[m] <= dd - 1);
        }
    }
}

/// When every recorded node has all its successors recorded one step
/// further at most, every reachable node is recorded with a distance no
/// greater than any path bound.
proof fn lemma_full_closure(
    g: Map<usize, Seq<usize>>,
    start: usize,
    d: Map<usize, usize>,
    n: usize,
    k: nat,
)
    requires
        d.contains_key(start) && d[start] == 0,
        forall|x: usize, m: usize|
            d.contains_key(x) && #[trigger] edge(g, x, m) ==> d.contains_key(m) && d[m] <= d[x]
                + 1,
        reaches_within(g, start, n, k),
    ensures
        d.contains_key(n) && d[n] <= k,
    decreases k,
{
    if n != start {
        let m = choose|m: usize|
            reaches_within(g, start, m, (k - 1) as nat) && #[trigger] edge(g, m, n);
        lemma_full_closure(g, start, d, m, (k - 1) as nat);
    }
}

/// A directed social graph: each node identifier maps to the sequence of
/// its outgoing edge destinations, in insertion order, duplicates kept.
#[derive(Debug)]
pub struct SocialNetwork {
    /// The adjacency structure itself.
    pub adjacency_list: HashMap<usize, Vec<usize>>,
    /// The keys of `adjacency_list` in insertion order, kept so that
    /// callers can walk the node set deterministically. Mutate it only
    /// through the methods below: they preserve `wf`.
    pub nodes: Vec<usize>,
}

impl SocialNetwork {
    /// The mathematical adjacency map of this graph.
    pub open spec fn adj(self) -> Map<usize, Seq<usize>> {
        Map::new(
            |k: usize| self.adjacency_list@.contains_key(k),
            |k: usize| self.adjacency_list@[k]@,
        )
    }

    /// The node identifiers in insertion order.
    pub open spec fn node_seq(self) -> Seq<usize> {
        self.nodes@
    }

    /// Well-formedness: the node list holds exactly the adjacency keys,
    /// each once.
    pub open spec fn wf(self) -> bool {
        &&& self.nodes@.no_duplicates()
        &&& self.nodes@.to_set() == self.adjacency_list@.dom()
    }

    /// Creates an empty graph.
    pub fn new() -> (r: Self)
        ensures
            r.wf(),
            r.adj() == Map::<usize, Seq<usize>>::empty(),
            r.node_seq() == Seq::<usize>::empty(),
    {
        let r = SocialNetwork { adjacency_list: HashMap::new(), nodes: Vec::new() };
        proof {
            assert(r.nodes@.to_set() =~= r.adjacency_list@.dom());
            assert(r.adj() =~= Map::<usize, Seq<usize>>::empty());
        }
        r
    }

    /// Gives `node` an (empty) entry in the adjacency structure; a no-op
    /// when the node is already present.
    pub fn add_node(&mut self, node: usize)
        requires
            old(self).wf(),
        ensures
            final(self).wf(),
            final(self).adj() == if old(self).adj().contains_key(node) {
                old(self).adj()
            } else {
                old(self).adj().insert(node, Seq::<usize>::empty())
            },
            final(self).node_seq() == if old(self).adj().contains_key(node) {
                old(self).node_seq()
            } else {
                old(self).node_seq().push(node)
            },
    {
        if !self.adjacency_list.contains_key(&node) {
            self.adjacency_list.insert(node, Vec::new());
            self.nodes.push(node);
            proof {
                Seq::<usize>::lemma_to_set_insert_commutes(old(self).nodes@, node);
                assert(self.nodes@ =~= old(self).nodes@ + seq![node]);
                assert(self.nodes@.to_set() =~= self.adjacency_list@.dom());
                assert(self.adj() =~= old(self).adj().insert(node, Seq::<usize>::empty()));
            }
        } else {
            proof {
                assert(self.adj() =~= old(self).adj());
            }
        }
    }

    /// Appends a directed edge from `from` to `to`, creating `from`'s
    /// entry when absent. Registering `to` as a node is the caller's
    /// responsibility, as with the loader's two-sided `add_node` calls.
    pub fn connect_nodes(&mut self, from: usize, to: usize)
        requires
            old(self).wf(),
        ensures
            final(self).wf(),
            final(self).adj() == old(self).adj().insert(
                from,
                spec_neighbors(old(self).adj(), from).push(to),
            ),
            final(self).node_seq() == if old(self).adj().contains_key(from) {
                old(self).node_seq()
            } else {
                old(self).node_seq().push(from)
            },
    {
        let ghost g0 = self.adj();
        match self.adjacency_list.get(&from) {
            Some(existing) => {
                let mut list = existing.clone();
                list.push(to);
                self.adjacency_list.insert(from, list);
                proof {
                    assert(self.nodes@.to_set() =~= self.adjacency_list@.dom());
                    assert(self.adj() =~= g0.insert(from, spec_neighbors(g0, from).push(to)));
                }
            },
            None => {
                let mut list: Vec<usize> = Vec::new();
                list.push(to);
                self.adjacency_list.insert(from, list);
                self.nodes.push(from);
                proof {
                    Seq::<usize>::lemma_to_set_insert_commutes(old(self).nodes@, from);
                    assert(self.nodes@ =~= old(self).nodes@ + seq![from]);
                    assert(self.nodes@.to_set() =~= self.adjacency_list@.dom());
                    assert(spec_neighbors(g0, from).push(to) =~= seq![to]);
                    assert(self.adj() =~= g0.insert(from, spec_neighbors(g0, from).push(to)));
                }
            },
        }
    }

    /// Every identifier a breadth-first search from `start` can ever
    /// touch: the registered nodes, every edge destination, and `start`.
    spec fn bfs_universe(self, start: usize) -> Set<usize> {
        self.adj().dom().union(targets_of(self.adj(), self.nodes@)).insert(start)
    }

    /// Computes the least directed hop-count from `start` to every node
    /// reachable from it. Exactly the reachable nodes appear as keys,
    /// `start` itself at distance zero; an unreachable node is absent, not
    /// marked with a sentinel. `start` need not be a registered node: the
    /// result is then the single entry at distance zero.
    #[verifier::loop_isolation(false)]
    pub fn bfs_path_lengths(&self, start: usize) -> (r: HashMap<usize, usize>)
        requires
            self.wf(),
        ensures
            r@.contains_key(start) && r@[start] == 0,
            forall|n: usize| #[trigger]
                r@.contains_key(n) ==> reaches_within(self.adj(), start, n, r@[n] as nat),
            forall|n: usize|
                #[trigger] r@.contains_key(n) && r@[n] > 0 ==> !reaches_within(
                    self.adj(),
                    start,
                    n,
                    (r@[n] - 1) as nat,
                ),
            forall|n: usize, k: nat|
                #[trigger] reaches_within(self.adj(), start, n, k) ==> r@.contains_key(n),
    {
        let ghost g = self.adj();
        let ghost uni = self.bfs_universe(start);
        proof {
            lemma_targets_finite(g, self.nodes@);
            assert(g.dom() =~= self.adjacency_list@.dom());
            assert(uni.finite());
        }
        let mut distances: HashMap<usize, usize> = HashMap::new();
        let mut to_visit: VecDeque<usize> = VecDeque::new();
        to_visit.push_back(start);
        distances.insert(start, 0);
        proof {
            assert(distances@.dom() =~= Map::<usize, usize>::empty().insert(start, 0).dom());
            assert(reaches_within(g, start, start, 0));
            assert(to_visit@[0] == start);
        }
        while to_visit.len() != 0
            invariant
                distances@.contains_key(start) && distances@[start] == 0,
                forall|i: int|
                    0 <= i < to_visit@.len() ==> distances@.contains_key(#[trigger] to_visit@[i]),
                to_visit@.no_duplicates(),
                forall|i: int, j: int|
                    0 <= i <= j < to_visit@.len() ==> distances@[#[trigger] to_visit@[i]]
                        <= distances@[#[trigger] to_visit@[j]],
                to_visit@.len() > 0 ==> distances@[to_visit@[to_visit@.len() - 1]]
                    <= distances@[to_visit@[0]] + 1,
                forall|n: usize| #[trigger]
                    distances@.contains_key(n) ==> reaches_within(g, start, n, distances@[n] as nat),
                forall|n: usize|
                    #[trigger] distances@.contains_key(n) && distances@[n] > 0 ==> !reaches_within(
                        g,
                        start,
                        n,
                        (distances@[n] - 1) as nat,
                    ),
                forall|n: usize, m: usize|
                    distances@.contains_key(n) && !to_visit@.contains(n) && #[trigger] edge(g, n, m)
                        ==> distances@.contains_key(m) && distances@[m] <= distances@[n] + 1,
                forall|n: usize, k: nat|
                    #[trigger] reaches_within(g, start, n, k) && (to_visit@.len() == 0 || k
                        < distances@[to_visit@[0]]) ==> distances@.contains_key(n) && distances@[n]
                        <= k,
                forall|n: usize| #[trigger]
                    distances@.contains_key(n) ==> distances@[n] < distances@.dom().len(),
                distances@.dom().subset_of(uni),
            decreases uni.difference(distances@.dom()).len(), to_visit@.len(),
        {
            let ghost q_old = to_visit@;
            let ghost d0 = distances@;
            let current = to_visit.pop_front().unwrap();
            let ghost tail0 = to_visit@;
            let current_distance = *distances.get(&current).unwrap();
            let ghost dcur = current_distance;
            proof {
                assert(q_old[0] == current);
                assert forall|i: int| 0 <= i < tail0.len() implies dcur <= distances@[#[trigger] tail0[i]]
                    <= dcur + 1 by {
                    assert(tail0[i] == q_old[i + 1]);
                }
                assert(!tail0.contains(current)) by {
                    if tail0.contains(current) {
                        let i = choose|i: int| 0 <= i < tail0.len() && tail0[i] == current;
                        assert(q_old[i + 1] == q_old[0]);
                    }
                }
                assert forall|n: usize| !tail0.contains(n) && n != current implies !q_old.contains(
                    n,
                ) by {
                    if q_old.contains(n) {
                        let i = choose|i: int| 0 <= i < q_old.len() && q_old[i] == n;
                        if i > 0 {
                            assert(tail0[i - 1] == n);
                        }
                    }
                }
            }
            match self.adjacency_list.get(&current) {
                Some(neighbors) => {
                    let ghost nb = neighbors@;
                    proof {
                        assert(g.contains_key(current) && g[current] == nb);
                    }
                    for i in 0..neighbors.len()
                        invariant
                            forall|n: usize| #[trigger]
                                d0.contains_key(n) ==> distances@.contains_key(n) && distances@[n]
                                    == d0[n],
                            distances@.contains_key(start) && distances@[start] == 0,
                            forall|j: int|
                                0 <= j < to_visit@.len() ==> distances@.contains_key(
                                    #[trigger] to_visit@[j],
                                ),
                            to_visit@.no_duplicates(),
                            !to_visit@.contains(current),
                            to_visit@.len() >= tail0.len() && to_visit@.subrange(
                                0,
                                tail0.len() as int,
                            ) == tail0,
                            forall|j: int|
                                tail0.len() <= j < to_visit@.len() ==> distances@[
                                    #[trigger] to_visit@[j]] == dcur + 1,
                            forall|j: int|
                                0 <= j < to_visit@.len() ==> dcur <= distances@[
                                    #[trigger] to_visit@[j]] <= dcur + 1,
                            forall|j1: int, j2: int|
                                0 <= j1 <= j2 < to_visit@.len() ==> distances@[
                                    #[trigger] to_visit@[j1]] <= distances@[
                                    #[trigger] to_visit@[j2]],
                            forall|n: usize| #[trigger]
                                distances@.contains_key(n) ==> reaches_within(
                                    g,
                                    start,
                                    n,
                                    distances@[n] as nat,
                                ),
                            forall|n: usize|
                                #[trigger] distances@.contains_key(n) && distances@[n] > 0
                                    ==> !reaches_within(g, start, n, (distances@[n] - 1) as nat),
                            forall|n: usize, m: usize|
                                distances@.contains_key(n) && !to_visit@.contains(n) && n != current
                                    && #[trigger] edge(g, n, m) ==> distances@.contains_key(m)
                                    && distances@[m] <= distances@[n] + 1,
                            forall|j: int|
                                0 <= j < i ==> distances@.contains_key(#[trigger] nb[j])
                                    && distances@[nb[j]] <= dcur + 1,
                            forall|n: usize, k: nat|
                                #[trigger] reaches_within(g, start, n, k) && k < dcur
                                    ==> distances@.contains_key(n) && distances@[n] <= k,
                            forall|n: usize| #[trigger]
                                distances@.contains_key(n) ==> distances@[n]
                                    < distances@.dom().len(),
                            distances@.dom().subset_of(uni),
                            distances@.dom().len() - d0.dom().len() == to_visit@.len()
                                - tail0.len(),
                    {
                        let neighbor = neighbors[i];
                        proof {
                            assert(edge(g, current, neighbor));
                            assert(reaches_within(g, start, neighbor, (dcur + 1) as nat)) by {
                                assert(reaches_within(g, start, current, dcur as nat));
                            }
                        }
                        if !distances.contains_key(&neighbor) {
                            proof {
                                // The recorded distance will be exact: any path of at
                                // most `dcur` hops would have ended at an already
                                // recorded node.
                                if reaches_within(g, start, neighbor, dcur as nat) {
                                    if neighbor != start {
                                        let p = choose|p: usize|
                                            reaches_within(g, start, p, (dcur - 1) as nat)
                                                && #[trigger] edge(g, p, neighbor);
                                        assert(distances@.contains_key(p) && distances@[p] <= dcur
                                            - 1);
                                        assert(!to_visit@.contains(p));
                                        assert(p != current);
                                    }
                                    assert(false);
                                }
                                assert(vstd::std_specs::hash::spec_hash_map_len(&distances)
                                    == distances@.dom().len());
                                assert(dcur < distances@.dom().len());
                                lemma_targets_cover(g, self.nodes@, current);
                                assert(self.nodes@.to_set().contains(current));
                                assert(spec_neighbors(g, current).to_set().contains(neighbor));
                            }
                            let ghost d_before = distances@;
                            let ghost q_before = to_visit@;
                            distances.insert(neighbor, current_distance + 1);
                            to_visit.push_back(neighbor);
                            proof {
                                assert(to_visit@ == q_before.push(neighbor));
                                assert(to_visit@.subrange(0, tail0.len() as int)
                                    =~= q_before.subrange(0, tail0.len() as int));
                                assert(distances@.dom() =~= d_before.dom().insert(neighbor));
                                assert forall|n: usize| #[trigger]
                                    distances@.contains_key(n) implies distances@[n]
                                    < distances@.dom().len() by {
                                    if n != neighbor {
                                        assert(d_before.contains_key(n));
                                        assert(d_before[n] < d_before.dom().len());
                                    }
                                }
                                assert forall|n: usize, m: usize|
                                    distances@.contains_key(n) && !to_visit@.contains(n) && n
                                        != current && #[trigger] edge(g, n, m) implies distances@.contains_key(
                                    m,
                                ) && distances@[m] <= distances@[n] + 1 by {
                                    assert(to_visit@[to_visit@.len() - 1] == neighbor);
                                    assert(n != neighbor);
                                    assert forall|j: int|
                                        0 <= j < q_before.len() implies to_visit@[j]
                                        == q_before[j] by {}
                                    if q_before.contains(n) {
                                        let j = choose|j: int|
                                            0 <= j < q_before.len() && q_before[j] == n;
                                        assert(to_visit@[j] == n);
                                    }
                                    assert(!q_before.contains(n));
                                }
                            }
                        } else {
                            proof {
                                // An already recorded neighbor cannot lie farther
                                // than one hop past `current`.
                                if distances@[neighbor] > dcur + 1 {
                                    lemma_reaches_monotonic(
                                        g,
                                        start,
                                        neighbor,
                                        (dcur + 1) as nat,
                                        (distances@[neighbor] - 1) as nat,
                                    );
                                }
                            }
                        }
                    }
                },
                None => {
                    proof {
                        assert(!g.contains_key(current));
                    }
                },
            }
            proof {
                // `current` is now fully processed: every successor is
                // recorded within one extra hop.
                assert forall|m: usize| #[trigger]
                    edge(g, current, m) implies distances@.contains_key(m) && distances@[m] <= dcur
                    + 1 by {
                    let j = choose|j: int| 0 <= j < g[current].len() && g[current][j] == m;
                }
                // Re-establish breadth-first coverage for the new queue head.
                if to_visit.len() == 0 {
                    assert forall|n: usize, k: nat| #[trigger]
                        reaches_within(g, start, n, k) implies distances@.contains_key(n)
                        && distances@[n] <= k by {
                        lemma_full_closure(g, start, distances@, n, k);
                    }
                } else {
                    let q = to_visit@;
                    if distances@[q[0]] == dcur + 1 {
                        lemma_coverage_step(g, start, distances@, dcur as nat);
                        assert forall|n: usize, k: nat|
                            #[trigger] reaches_within(g, start, n, k) && k
                                < distances@[q[0]] implies distances@.contains_key(n)
                            && distances@[n] <= k by {
                            if k < dcur {
                            } else {
                                assert(k == dcur);
                            }
                        }
                    }
                }
                // The loop measure shrank: either a node was newly recorded,
                // or the queue alone got shorter.
                lemma_diff_len(uni, distances@.dom());
                lemma_diff_len(uni, d0.dom());
                if distances@.dom().len() == d0.dom().len() {
                    lemma_subset_same_len_is_equal(d0.dom(), distances@.dom());
                }
            }
        }
        proof {
            assert forall|n: usize, k: nat| #[trigger]
                reaches_within(g, start, n, k) implies distances@.contains_key(n) by {}
        }
        distances
    }

    /// The node identifiers of the graph, in insertion order.
    pub fn node_ids(&self) -> (r: &Vec<usize>)
        ensures
            r@ == self.node_seq(),
    {
        &self.nodes
    }
}

} // verus!
