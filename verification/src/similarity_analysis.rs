//! The similarity engine: Jaccard scores over outgoing-neighbor sets for
//! node pairs at directed distance exactly two, and the reductions of the
//! score map into summary statistics and threshold counts.
//!
//! A score is an exact rational, the intersection count over the union
//! count of the two neighbor sets; all comparisons are exact rational
//! comparisons by cross-multiplication. The one pair of neighbor sets
//! whose union is empty would give the undefined ratio zero over zero;
//! the documented policy records such a pair with score zero.

use vstd::prelude::*;

verus! {

use crate::network_graph::SocialNetwork;
use crate::network_graph::lemma_exact_distance_unique;
use crate::network_graph::lemma_subset_same_len_is_equal;
use crate::network_graph::reaches_within;
use crate::network_graph::spec_neighbors;

broadcast use {
    vstd::std_specs::hash::group_hash_axioms,
    vstd::seq_lib::seq_to_set_is_finite,
};

/// An exact rational similarity value: `num / den`.
#[derive(Debug, Clone, Copy, PartialEq, Eq, Structural)]
pub struct Score {
    /// Numerator: the size of the intersection of the two neighbor sets.
    pub num: usize,
    /// Denominator: the size of their union.
    pub den: usize,
}

impl Score {
    /// A score denotes a value in `[0, 1]`: positive denominator, numerator
    /// no larger.
    pub open spec fn valid(self) -> bool {
        self.num <= self.den && 1 <= self.den
    }
}

/// One score entry: the ordered pair of node identifiers and its score.
#[derive(Debug, Clone, Copy, PartialEq, Eq, Structural)]
pub struct PairScore {
    /// The node whose breadth-first search found the pair.
    pub a: usize,
    /// The node found at distance exactly two from `a`.
    pub b: usize,
    /// The Jaccard similarity of the two outgoing-neighbor sets.
    pub score: Score,
}

/// `x < y` as rationals.
pub open spec fn score_lt(x: Score, y: Score) -> bool {
    x.num * y.den < y.num * x.den
}

/// `x <= y` as rationals.
pub open spec fn score_le(x: Score, y: Score) -> bool {
    x.num * y.den <= y.num * x.den
}

/// `x == y` as rationals.
pub open spec fn score_eq(x: Score, y: Score) -> bool {
    x.num * y.den == y.num * x.den
}

/// The outgoing-neighbor set of `n`: its neighbor sequence with duplicates
/// collapsed and order lost.
pub open spec fn nbr_set(g: Map<usize, Seq<usize>>, n: usize) -> Set<usize> {
    spec_neighbors(g, n).to_set()
}

/// The size of the intersection of the two outgoing-neighbor sets.
pub open spec fn jaccard_inter(g: Map<usize, Seq<usize>>, a: usize, b: usize) -> nat {
    nbr_set(g, a).intersect(nbr_set(g, b)).len()
}

/// The size of the union of the two outgoing-neighbor sets.
pub open spec fn jaccard_union(g: Map<usize, Seq<usize>>, a: usize, b: usize) -> nat {
    nbr_set(g, a).union(nbr_set(g, b)).len()
}

/// The score recorded for the pair `(a, b)`: the exact Jaccard ratio, save
/// that an empty union — the zero-over-zero case — is recorded as zero.
pub open spec fn score_matches(g: Map<usize, Seq<usize>>, a: usize, b: usize, s: Score) -> bool {
    if jaccard_union(g, a, b) == 0 {
        s == (Score { num: 0, den: 1 })
    } else {
        s.num == jaccard_inter(g, a, b) && s.den == jaccard_union(g, a, b)
    }
}

/// The shortest directed path from `a` to `b` has exactly two edges.
pub open spec fn dist_two(g: Map<usize, Seq<usize>>, a: usize, b: usize) -> bool {
    reaches_within(g, a, b, 2) && !reaches_within(g, a, b, 1)
}

/// The index at which `x` occurs in `ns` (any one, when several).
spec fn pos_in(ns: Seq<usize>, x: usize) -> int {
    choose|i: int| 0 <= i < ns.len() && ns[i] == x
}

proof fn lemma_pos_in(ns: Seq<usize>, i: int)
    requires
        ns.no_duplicates(),
        0 <= i < ns.len(),
    ensures
        pos_in(ns, ns[i]) == i,
{
    assert(ns.contains(ns[i]));
}

proof fn lemma_mul_fits_u128(a: int, b: int)
    by (nonlinear_arith)
    requires
        0 <= a <= u64::MAX,
        0 <= b <= u64::MAX,
    ensures
        a * b <= u128::MAX,
{
}

/// Ordering of rationals is transitive across a strict step.
proof fn lemma_frac_le_lt_trans(xn: int, xd: int, yn: int, yd: int, zn: int, zd: int)
    by (nonlinear_arith)
    requires
        xd >= 1,
        yd >= 1,
        zd >= 1,
        xn * yd <= yn * xd,
        yn * zd < zn * yd,
    ensures
        xn * zd < zn * xd,
{
}

/// True when `v` holds `x`.
fn vec_contains(v: &Vec<usize>, x: usize) -> (r: bool)
    ensures
        r == v@.contains(x),
{
    for i in 0..v.len()
        invariant
            forall|j: int| 0 <= j < i ==> v@[j] != x,
    {
        if v[i] == x {
            return true;
        }
    }
    false
}

/// Counts the distinct values that occur in both sequences.
fn intersection_size(a: &Vec<usize>, b: &Vec<usize>) -> (r: usize)
    ensures
        r == a@.to_set().intersect(b@.to_set()).len(),
{
    let mut acc: Vec<usize> = Vec::new();
    for i in 0..a.len()
        invariant
            acc@.no_duplicates(),
            acc@.to_set() == a@.subrange(0, i as int).to_set().intersect(b@.to_set()),
    {
        let x = a[i];
        let ghost pre = a@.subrange(0, i as int);
        proof {
            assert(a@.subrange(0, i as int + 1).drop_last() =~= pre);
            assert(a@.subrange(0, i as int + 1) =~= pre.push(x));
            Seq::<usize>::lemma_to_set_insert_commutes(pre, x);
            assert(pre.push(x) =~= pre + seq![x]);
            assert(pre.push(x).to_set() =~= pre.to_set().insert(x));
        }
        let ghost acc0 = acc@;
        if vec_contains(b, x) && !vec_contains(&acc, x) {
            acc.push(x);
            proof {
                assert(acc@ =~= acc0.push(x));
                Seq::<usize>::lemma_to_set_insert_commutes(acc0, x);
                assert(acc0.push(x) =~= acc0 + seq![x]);
                assert(acc0.push(x).to_set() =~= acc0.to_set().insert(x));
            }
        }
        proof {
            assert(acc@.to_set() =~= a@.subrange(0, i as int + 1).to_set().intersect(
                b@.to_set(),
            ));
        }
    }
    proof {
        assert(a@.subrange(0, a@.len() as int) =~= a@);
        acc@.unique_seq_to_set();
    }
    acc.len()
}

/// Counts the distinct values that occur in either sequence.
fn union_size(a: &Vec<usize>, b: &Vec<usize>) -> (r: usize)
    ensures
        r == a@.to_set().union(b@.to_set()).len(),
{
    let mut acc: Vec<usize> = Vec::new();
    for i in 0..a.len()
        invariant
            acc@.no_duplicates(),
            acc@.to_set() == a@.subrange(0, i as int).to_set(),
    {
        let x = a[i];
        let ghost pre = a@.subrange(0, i as int);
        proof {
            assert(a@.subrange(0, i as int + 1) =~= pre.push(x));
            Seq::<usize>::lemma_to_set_insert_commutes(pre, x);
            assert(pre.push(x) =~= pre + seq![x]);
            assert(pre.push(x).to_set() =~= pre.to_set().insert(x));
        }
        let ghost acc0 = acc@;
        if !vec_contains(&acc, x) {
            acc.push(x);
            proof {
                assert(acc@ =~= acc0.push(x));
                Seq::<usize>::lemma_to_set_insert_commutes(acc0, x);
                assert(acc0.push(x) =~= acc0 + seq![x]);
                assert(acc0.push(x).to_set() =~= acc0.to_set().insert(x));
            }
        }
        proof {
            assert(acc@.to_set() =~= a@.subrange(0, i as int + 1).to_set());
        }
    }
    proof {
        assert(a@.subrange(0, a@.len() as int) =~= a@);
    }
    for i in 0..b.len()
        invariant
            acc@.no_duplicates(),
            acc@.to_set() == a@.to_set().union(b@.subrange(0, i as int).to_set()),
    {
        let x = b[i];
        let ghost pre = b@.subrange(0, i as int);
        proof {
            assert(b@.subrange(0, i as int + 1) =~= pre.push(x));
            Seq::<usize>::lemma_to_set_insert_commutes(pre, x);
            assert(pre.push(x) =~= pre + seq![x]);
            assert(pre.push(x).to_set() =~= pre.to_set().insert(x));
        }
        let ghost acc0 = acc@;
        if !vec_contains(&acc, x) {
            acc.push(x);
            proof {
                assert(acc@ =~= acc0.push(x));
                Seq::<usize>::lemma_to_set_insert_commutes(acc0, x);
                assert(acc0.push(x) =~= acc0 + seq![x]);
                assert(acc0.push(x).to_set() =~= acc0.to_set().insert(x));
            }
        }
        proof {
            assert(acc@.to_set() =~= a@.to_set().union(b@.subrange(0, i as int + 1).to_set()));
        }
    }
    proof {
        assert(b@.subrange(0, b@.len() as int) =~= b@);
        acc@.unique_seq_to_set();
    }
    acc.len()
}

/// Computes the Jaccard similarity of the outgoing-neighbor sets of every
/// ordered pair of registered nodes whose breadth-first distance from the
/// first to the second is exactly two. Exactly those pairs are recorded,
/// each once, with its exact score; a pair whose two neighbor sets are
/// both empty is recorded with score zero.
#[verifier::rlimit(100)]
pub fn calculate_jaccard_scores(graph: &SocialNetwork) -> (r: Vec<PairScore>)
    requires
        graph.wf(),
    ensures
        forall|i: int|
            0 <= i < r@.len() ==> {
                let e = #[trigger] r@[i];
                &&& graph.adj().contains_key(e.a)
                &&& graph.adj().contains_key(e.b)
                &&& dist_two(graph.adj(), e.a, e.b)
                &&& score_matches(graph.adj(), e.a, e.b, e.score)
                &&& e.score.valid()
            },
        forall|i: int, j: int|
            0 <= i < j < r@.len() ==> !(r@[i].a == r@[j].a && r@[i].b == r@[j].b),
        forall|a: usize, b: usize|
            graph.adj().contains_key(a) && graph.adj().contains_key(b) && #[trigger] dist_two(
                graph.adj(),
                a,
                b,
            ) ==> exists|i: int| 0 <= i < r@.len() && r@[i].a == a && r@[i].b == b,
{
    let ghost g = graph.adj();
    let ghost ns = graph.node_seq();
    let nodes = graph.node_ids();
    let n = nodes.len();
    let mut results: Vec<PairScore> = Vec::new();
    #[verifier::loop_isolation(false)]
    for ai in 0..n
        invariant
            forall|k: int|
                #![trigger results@[k]]
                0 <= k < results@.len() ==> {
                    let e = results@[k];
                    ns.contains(e.a) && ns.contains(e.b) && pos_in(ns, e.a) < ai
                },
            forall|k: int|
                0 <= k < results@.len() ==> {
                    let e = #[trigger] results@[k];
                    &&& g.contains_key(e.a)
                    &&& g.contains_key(e.b)
                    &&& dist_two(g, e.a, e.b)
                    &&& score_matches(g, e.a, e.b, e.score)
                    &&& e.score.valid()
                },
            forall|k1: int, k2: int|
                0 <= k1 < k2 < results@.len() ==> !(results@[k1].a == results@[k2].a
                    && results@[k1].b == results@[k2].b),
            forall|xi: int, yi: int|
                0 <= xi < ai && 0 <= yi < ns.len() && #[trigger] dist_two(g, ns[xi], ns[yi])
                    ==> exists|k: int|
                    0 <= k < results@.len() && (#[trigger] results@[k]).a == ns[xi]
                        && results@[k].b == ns[yi],
    {
        let a = nodes[ai];
        let paths = graph.bfs_path_lengths(a);
        #[verifier::loop_isolation(false)]
        for bi in 0..n
            invariant
                forall|k: int|
                    #![trigger results@[k]]
                    0 <= k < results@.len() ==> {
                        let e = results@[k];
                        ns.contains(e.a) && ns.contains(e.b) && (pos_in(ns, e.a) < ai || (pos_in(
                            ns,
                            e.a,
                        ) == ai && pos_in(ns, e.b) < bi))
                    },
                forall|k: int|
                    0 <= k < results@.len() ==> {
                        let e = #[trigger] results@[k];
                        &&& g.contains_key(e.a)
                        &&& g.contains_key(e.b)
                        &&& dist_two(g, e.a, e.b)
                        &&& score_matches(g, e.a, e.b, e.score)
                        &&& e.score.valid()
                    },
                forall|k1: int, k2: int|
                    0 <= k1 < k2 < results@.len() ==> !(results@[k1].a == results@[k2].a
                        && results@[k1].b == results@[k2].b),
                forall|xi: int, yi: int|
                    0 <= xi < ai && 0 <= yi < ns.len() && #[trigger] dist_two(g, ns[xi], ns[yi])
                        ==> exists|k: int|
                        0 <= k < results@.len() && (#[trigger] results@[k]).a == ns[xi]
                            && results@[k].b == ns[yi],
                forall|yi: int|
                    0 <= yi < bi && #[trigger] dist_two(g, a, ns[yi]) ==> exists|k: int|
                        0 <= k < results@.len() && (#[trigger] results@[k]).a == a
                            && results@[k].b == ns[yi],
        {
            let b = nodes[bi];
            let ghost r0 = results@;
            let mut hit: bool = false;
            match paths.get(&b) {
                Some(dref) => {
                    if *dref == 2 {
                        hit = true;
                    }
                },
                None => {},
            }
            if hit {
                proof {
                    assert(paths@.contains_key(b) && paths@[b] == 2);
                    assert(dist_two(g, a, b));
                    assert(ns.to_set().contains(a));
                    assert(ns.to_set().contains(b));
                    assert(g.contains_key(a));
                    assert(g.contains_key(b));
                }
                let na = graph.adjacency_list.get(&a).unwrap();
                let nbv = graph.adjacency_list.get(&b).unwrap();
                proof {
                    assert(nbr_set(g, a) == na@.to_set());
                    assert(nbr_set(g, b) == nbv@.to_set());
                }
                let inter = intersection_size(na, nbv);
                let uni = union_size(na, nbv);
                let score = if uni == 0 {
                    Score { num: 0, den: 1 }
                } else {
                    Score { num: inter, den: uni }
                };
                proof {
                    vstd::set_lib::lemma_len_subset(
                        na@.to_set().intersect(nbv@.to_set()),
                        na@.to_set().union(nbv@.to_set()),
                    );
                    assert(score_matches(g, a, b, score));
                    assert(score.valid());
                    // No earlier entry carries this key: its scan position
                    // would coincide with the current one.
                    lemma_pos_in(ns, ai as int);
                    lemma_pos_in(ns, bi as int);
                    assert forall|k: int| 0 <= k < r0.len() implies !(r0[k].a == a && r0[k].b
                        == b) by {
                        if r0[k].a == a && r0[k].b == b {
                            assert(pos_in(ns, r0[k].a) == ai && pos_in(ns, r0[k].b) == bi);
                        }
                    }
                }
                results.push(PairScore { a, b, score });
                proof {
                    assert(results@[r0.len() as int] == (PairScore { a, b, score }));
                    assert(results@.len() == r0.len() + 1);
                    assert forall|k: int| 0 <= k < r0.len() implies results@[k] == r0[k] by {}
                    assert(ns[ai as int] == a && ns[bi as int] == b);
                }
            } else {
                proof {
                    // The pair does not qualify: either `b` is unreachable
                    // from `a`, or its exact distance is not two.
                    if dist_two(g, a, b) {
                        assert(reaches_within(g, a, b, 2));
                        assert(paths@.contains_key(b));
                        lemma_exact_distance_unique(g, a, b, paths@[b] as nat, 2);
                        assert(false);
                    }
                }
            }
            proof {
                assert(ns[bi as int] == b);
            }
        }
    }
    proof {
        assert forall|a: usize, b: usize|
            g.contains_key(a) && g.contains_key(b) && #[trigger] dist_two(
                g,
                a,
                b,
            ) implies exists|i: int|
            0 <= i < results@.len() && results@[i].a == a && results@[i].b == b by {
            assert(ns.to_set().contains(a));
            let xi = choose|xi: int| 0 <= xi < ns.len() && ns[xi] == a;
            assert(ns.to_set().contains(b));
            let yi = choose|yi: int| 0 <= yi < ns.len() && ns[yi] == b;
            assert(dist_two(g, ns[xi], ns[yi]));
        }
    }
    results
}

/// The score in millionths, rounded toward zero.
pub open spec fn score_scaled(s: Score) -> int {
    (1_000_000 * (s.num as int)) / (s.den as int)
}

/// The sum of the entries' scores, each taken in millionths rounded down.
pub open spec fn scaled_sum(s: Seq<PairScore>) -> int
    decreases s.len(),
{
    if s.len() == 0 {
        0
    } else {
        scaled_sum(s.drop_last()) + score_scaled(s.last().score)
    }
}

/// The entries of `s` whose score equals `m` as a rational, in order.
pub open spec fn ties_of(s: Seq<PairScore>, m: Score) -> Seq<PairScore>
    decreases s.len(),
{
    if s.len() == 0 {
        Seq::empty()
    } else if score_eq(s.last().score, m) {
        ties_of(s.drop_last(), m).push(s.last())
    } else {
        ties_of(s.drop_last(), m)
    }
}

/// A bound that every entry's score is strictly below leaves no ties.
proof fn lemma_ties_all_below(s: Seq<PairScore>, m: Score)
    requires
        forall|j: int| 0 <= j < s.len() ==> score_lt((#[trigger] s[j]).score, m),
    ensures
        ties_of(s, m) == Seq::<PairScore>::empty(),
    decreases s.len(),
{
    if s.len() > 0 {
        assert(s[s.len() - 1] == s.last());
        lemma_ties_all_below(s.drop_last(), m);
    }
}

/// `x > y` as rationals, by cross-multiplication.
fn score_gt(x: Score, y: Score) -> (r: bool)
    ensures
        r == score_lt(y, x),
{
    proof {
        lemma_mul_fits_u128(x.num as int, y.den as int);
        lemma_mul_fits_u128(y.num as int, x.den as int);
    }
    (x.num as u128) * (y.den as u128) > (y.num as u128) * (x.den as u128)
}

/// `x == y` as rationals, by cross-multiplication.
fn score_eq_exec(x: Score, y: Score) -> (r: bool)
    ensures
        r == score_eq(x, y),
{
    proof {
        lemma_mul_fits_u128(x.num as int, y.den as int);
        lemma_mul_fits_u128(y.num as int, x.den as int);
    }
    (x.num as u128) * (y.den as u128) == (y.num as u128) * (x.den as u128)
}

/// The reduction of a score map: mean, maximum, and the maximal entries.
#[derive(Debug)]
pub struct ScoreSummary {
    /// The arithmetic mean of the scores in millionths, rounded toward
    /// zero twice: each score contributes the floor of a million times its
    /// value, and the sum is divided, flooring again, by the entry count.
    pub average_micros: u128,
    /// The largest score as a rational. Its representation is one of the
    /// recorded scores, or zero over one when every score is zero.
    pub max: Score,
    /// Every entry whose score equals the maximum, in scan order.
    pub max_pairs: Vec<PairScore>,
}

/// Reduces a score map to its arithmetic mean (in millionths, rounded
/// down), its largest score (by exact rational comparison), and the list
/// of entries tied for that largest score, in a single left-to-right
/// scan. An empty map would force a division by zero; the documented
/// policy returns the distinguished no-data result `None` exactly then.
#[verifier::loop_isolation(false)]
pub fn summarize_scores(scores: &Vec<PairScore>) -> (r: Option<ScoreSummary>)
    requires
        forall|i: int| 0 <= i < scores@.len() ==> (#[trigger] scores@[i]).score.valid(),
    ensures
        match r {
            Option::None => scores@.len() == 0,
            Option::Some(s) => {
                &&& scores@.len() > 0
                &&& s.average_micros == scaled_sum(scores@) / (scores@.len() as int)
                &&& s.max.valid()
                &&& forall|i: int|
                    0 <= i < scores@.len() ==> score_le((#[trigger] scores@[i]).score, s.max)
                &&& exists|i: int|
                    0 <= i < scores@.len() && score_eq((#[trigger] scores@[i]).score, s.max)
                &&& s.max_pairs@ == ties_of(scores@, s.max)
            },
        },
{
    if scores.len() == 0 {
        return Option::None;
    }
    let mut total: u128 = 0;
    let mut max = Score { num: 0, den: 1 };
    let mut max_pairs: Vec<PairScore> = Vec::new();
    for i in 0..scores.len()
        invariant
            total == scaled_sum(scores@.subrange(0, i as int)),
            total <= i * 1_000_000,
            max.valid(),
            forall|j: int| 0 <= j < i ==> score_le((#[trigger] scores@[j]).score, max),
            i > 0 ==> exists|j: int|
                0 <= j < i && score_eq((#[trigger] scores@[j]).score, max),
            i == 0 ==> max == (Score { num: 0, den: 1 }),
            max_pairs@ == ties_of(scores@.subrange(0, i as int), max),
    {
        let e = scores[i];
        proof {
            assert(scores@.subrange(0, i as int + 1).drop_last() =~= scores@.subrange(0, i as int));
            assert(scores@.subrange(0, i as int + 1).last() == scores@[i as int]);
            lemma_mul_fits_u128(1_000_000, e.score.num as int);
            vstd::arithmetic::div_mod::lemma_div_is_ordered(
                1_000_000 * (e.score.num as int),
                1_000_000 * (e.score.den as int),
                e.score.den as int,
            );
            vstd::arithmetic::div_mod::lemma_div_multiples_vanish(1_000_000, e.score.den as int);
            assert((e.score.den as int) * 1_000_000 == 1_000_000 * (e.score.den as int));
            assert(score_scaled(e.score) <= 1_000_000);
            assert(score_scaled(e.score) >= 0) by {
                vstd::arithmetic::div_mod::lemma_div_is_ordered(
                    0,
                    1_000_000 * (e.score.num as int),
                    e.score.den as int,
                );
            }
        }
        let term: u128 = (1_000_000u128 * (e.score.num as u128)) / (e.score.den as u128);
        total = total + term;
        let ghost old_max = max;
        let ghost processed = scores@.subrange(0, i as int);
        if score_gt(e.score, max) {
            max = e.score;
            let mut fresh: Vec<PairScore> = Vec::new();
            fresh.push(e);
            max_pairs = fresh;
            proof {
                assert forall|j: int| 0 <= j < i implies score_lt(
                    (#[trigger] scores@[j]).score,
                    max,
                ) by {
                    lemma_frac_le_lt_trans(
                        scores@[j].score.num as int,
                        scores@[j].score.den as int,
                        old_max.num as int,
                        old_max.den as int,
                        max.num as int,
                        max.den as int,
                    );
                }
                lemma_ties_all_below(processed, max);
                assert(max_pairs@ =~= ties_of(scores@.subrange(0, i as int + 1), max));
            }
        } else if score_eq_exec(e.score, max) {
            max_pairs.push(e);
            proof {
                assert(max_pairs@ =~= ties_of(scores@.subrange(0, i as int + 1), max));
            }
        } else {
            proof {
                assert(max_pairs@ =~= ties_of(scores@.subrange(0, i as int + 1), max));
            }
        }
    }
    proof {
        assert(scores@.subrange(0, scores@.len() as int) =~= scores@);
    }
    let count = scores.len();
    let avg: u128 = total / (count as u128);
    Option::Some(ScoreSummary { average_micros: avg, max, max_pairs })
}

/// True when the score is strictly greater than `tenths / 10`.
pub open spec fn exceeds(s: Score, tenths: int) -> bool {
    10 * (s.num as int) > tenths * (s.den as int)
}

/// How many entries' scores strictly exceed `tenths / 10`.
pub open spec fn count_exceeding(s: Seq<PairScore>, tenths: int) -> nat
    decreases s.len(),
{
    if s.len() == 0 {
        0
    } else {
        count_exceeding(s.drop_last(), tenths) + if exceeds(s.last().score, tenths) {
            1nat
        } else {
            0nat
        }
    }
}

/// One row of the threshold distribution: of `total` scores, `count`
/// strictly exceed `tenths / 10`. The percentage a consumer would print
/// is one hundred times `count` over `total`; with no scores at all that
/// ratio is undefined, and the documented policy is to leave the division
/// to the consumer, which must test `total` first.
#[derive(Debug, Clone, Copy, PartialEq, Eq, Structural)]
pub struct ThresholdCount {
    /// The threshold, in tenths: one through ten.
    pub tenths: u8,
    /// How many scores strictly exceed the threshold.
    pub count: usize,
    /// How many scores there are in all.
    pub total: usize,
}

fn count_above(scores: &Vec<PairScore>, tenths: u8) -> (c: usize)
    ensures
        c == count_exceeding(scores@, tenths as int),
{
    let mut c: usize = 0;
    for i in 0..scores.len()
        invariant
            c <= i,
            c == count_exceeding(scores@.subrange(0, i as int), tenths as int),
    {
        let e = scores[i];
        proof {
            assert(scores@.subrange(0, i as int + 1).drop_last() =~= scores@.subrange(0, i as int));
            assert(scores@.subrange(0, i as int + 1).last() == scores@[i as int]);
            lemma_mul_fits_u128(10, e.score.num as int);
            lemma_mul_fits_u128(tenths as int, e.score.den as int);
        }
        if 10u128 * (e.score.num as u128) > (tenths as u128) * (e.score.den as u128) {
            c = c + 1;
        }
    }
    proof {
        assert(scores@.subrange(0, scores@.len() as int) =~= scores@);
    }
    c
}

/// For each threshold one tenth through ten tenths, in ascending order,
/// counts the scores strictly above it, together with the total count.
#[verifier::loop_isolation(false)]
pub fn compute_thresholds(scores: &Vec<PairScore>) -> (r: Vec<ThresholdCount>)
    ensures
        r@.len() == 10,
        forall|i: int|
            0 <= i < 10 ==> {
                let t = #[trigger] r@[i];
                t.tenths == i + 1 && t.total == scores@.len() && t.count == count_exceeding(
                    scores@,
                    i + 1,
                )
            },
{
    let mut out: Vec<ThresholdCount> = Vec::new();
    let total = scores.len();
    for k in 0..10usize
        invariant
            out@.len() == k,
            forall|i: int|
                0 <= i < k ==> {
                    let t = #[trigger] out@[i];
                    t.tenths == i + 1 && t.total == scores@.len() && t.count == count_exceeding(
                        scores@,
                        i + 1,
                    )
                },
    {
        let tenths = (k + 1) as u8;
        let count = count_above(scores, tenths);
        out.push(ThresholdCount { tenths, count, total });
    }
    out
}

/// Score bounds law: a score recorded for a pair lies between zero and
/// one inclusive, and it is exactly one precisely when the two
/// outgoing-neighbor sets are equal and non-empty.
pub proof fn lemma_score_extremes(g: Map<usize, Seq<usize>>, a: usize, b: usize, s: Score)
    requires
        score_matches(g, a, b, s),
    ensures
        s.valid(),
        s.num == s.den <==> (nbr_set(g, a) == nbr_set(g, b) && nbr_set(g, a).len() > 0),
{
    let na = nbr_set(g, a);
    let nb = nbr_set(g, b);
    let inter = na.intersect(nb);
    let uni = na.union(nb);
    vstd::set_lib::lemma_len_subset(inter, uni);
    if jaccard_union(g, a, b) == 0 {
        uni.lemma_len0_is_empty();
        assert(na =~= Set::<usize>::empty());
        assert(nb =~= Set::<usize>::empty());
        assert(na == nb && na.len() == 0);
    } else {
        if s.num == s.den {
            lemma_subset_same_len_is_equal(inter, uni);
            assert(inter == uni);
            assert forall|x: usize| na.contains(x) implies nb.contains(x) by {
                assert(uni.contains(x));
                assert(inter.contains(x));
            }
            assert forall|x: usize| nb.contains(x) implies na.contains(x) by {
                assert(uni.contains(x));
                assert(inter.contains(x));
            }
            assert(na =~= nb);
            assert(na.len() > 0) by {
                if na.len() == 0 {
                    na.lemma_len0_is_empty();
                    assert(uni =~= nb);
                    assert(uni =~= Set::<usize>::empty());
                }
            }
        }
        if na == nb && na.len() > 0 {
            assert(inter =~= uni);
        }
    }
}

} // verus!
