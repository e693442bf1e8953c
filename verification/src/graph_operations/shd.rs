//! The structural Hamming distance between two graphs on the same nodes.

use vstd::prelude::*;

use crate::ascending_list_utils::{
    ascending_lists_set_symmetric_difference, ascending_lists_set_union, strictly_ascending,
};
use crate::partially_directed_acyclic_graph::PDAG;

verus! {

/// The unordered pair `{u, v}` carries different edge marks in the two
/// graphs.
pub open spec fn shd_differs(t: &PDAG, h: &PDAG, u: int, v: int) -> bool {
    ||| t.has_dir_edge(u, v) != h.has_dir_edge(u, v)
    ||| t.has_dir_edge(v, u) != h.has_dir_edge(v, u)
    ||| t.has_und_edge(u, v) != h.has_und_edge(u, v)
}

/// The number of nodes `u` below `upto` for which the pair `{u, v}` differs.
pub open spec fn shd_row_count(t: &PDAG, h: &PDAG, v: int, upto: int) -> int
    decreases upto,
{
    if upto <= 0 {
        0
    } else {
        shd_row_count(t, h, v, upto - 1) + if shd_differs(t, h, upto - 1, v) {
            1int
        } else {
            0int
        }
    }
}

/// The number of differing unordered pairs among the nodes below `upto`,
/// each counted at its higher-indexed endpoint.
pub open spec fn shd_count(t: &PDAG, h: &PDAG, upto: int) -> int
    decreases upto,
{
    if upto <= 0 {
        0
    } else {
        shd_count(t, h, upto - 1) + shd_row_count(t, h, upto - 1, upto - 1)
    }
}

/// A strictly ascending list of the nodes below `v` satisfying a membership
/// predicate has the row count as its length.
proof fn lemma_sorted_len_is_count(
    t: &PDAG,
    h: &PDAG,
    v: int,
    s: Seq<usize>,
    upto: int,
)
    requires
        strictly_ascending(s),
        0 <= upto <= usize::MAX,
        forall|x: usize| s.contains(x) <==> ((x as int) < upto && shd_differs(t, h, x as int, v)),
    ensures
        s.len() == shd_row_count(t, h, v, upto),
    decreases upto,
{
    if upto == 0 {
        if s.len() > 0 {
            assert(s.contains(s[0]));
        }
    } else {
        let x = (upto - 1) as usize;
        assert((x as int) == upto - 1);
        if s.contains(x) {
            // x is the largest entry, hence the last
            let i = choose|i: int| 0 <= i < s.len() && s[i] == x;
            assert forall|j: int| 0 <= j < s.len() implies s[j] <= x by {
                assert(s.contains(s[j]));
                if s[j] > x {
                    assert((s[j] as int) < upto);
                }
            }
            assert(i == s.len() - 1) by {
                if i < s.len() - 1 {
                    assert(s[i] < s[s.len() - 1]);
                    assert(s[s.len() - 1] <= x);
                }
            }
            let s2 = s.drop_last();
            assert(strictly_ascending(s2)) by {
                assert forall|a: int, b: int| 0 <= a < b < s2.len() implies s2[a] < s2[b] by {
                    assert(s2[a] == s[a] && s2[b] == s[b]);
                }
            }
            assert forall|y: usize| s2.contains(y) <==> ((y as int) < upto - 1 && shd_differs(
                t,
                h,
                y as int,
                v,
            )) by {
                if s2.contains(y) {
                    let j = choose|j: int| 0 <= j < s2.len() && s2[j] == y;
                    assert(s[j] == y);
                    assert(s.contains(y));
                    assert(s[j] < s[s.len() - 1]);
                }
                if (y as int) < upto - 1 && shd_differs(t, h, y as int, v) {
                    assert(s.contains(y));
                    let j = choose|j: int| 0 <= j < s.len() && s[j] == y;
                    assert(j < s.len() - 1) by {
                        if j == s.len() - 1 {
                            assert(s[j] == x);
                        }
                    }
                    assert(s2[j] == y);
                }
            }
            lemma_sorted_len_is_count(t, h, v, s2, upto - 1);
        } else {
            assert forall|y: usize| s.contains(y) <==> ((y as int) < upto - 1 && shd_differs(
                t,
                h,
                y as int,
                v,
            )) by {
                if s.contains(y) {
                    assert(y != x);
                }
            }
            lemma_sorted_len_is_count(t, h, v, s, upto - 1);
        }
    }
}

/// The row count is at most the number of candidate nodes.
proof fn lemma_row_count_bound(t: &PDAG, h: &PDAG, v: int, upto: int)
    requires
        0 <= upto,
    ensures
        0 <= shd_row_count(t, h, v, upto) <= upto,
    decreases upto,
{
    if upto > 0 {
        lemma_row_count_bound(t, h, v, upto - 1);
    }
}

/// The pair count over `upto` nodes is at most `upto * (upto - 1) / 2`.
proof fn lemma_shd_count_bound(t: &PDAG, h: &PDAG, upto: int)
    requires
        0 <= upto,
    ensures
        0 <= shd_count(t, h, upto) * 2 <= upto * (upto - 1),
    decreases upto,
{
    if upto > 0 {
        lemma_shd_count_bound(t, h, upto - 1);
        lemma_row_count_bound(t, h, upto - 1, upto - 1);
        assert(upto * (upto - 1) == (upto - 1) * (upto - 2) + 2 * (upto - 1)) by (nonlinear_arith);
    }
}

/// Keeps the entries below `v` of a sorted slice.
fn filter_below(list: &[usize], v: usize) -> (r: Vec<usize>)
    requires
        strictly_ascending(list@),
    ensures
        strictly_ascending(r@),
        forall|x: usize| r@.contains(x) <==> (list@.contains(x) && x < v),
{
    let mut r: Vec<usize> = Vec::new();
    let mut k: usize = 0;
    while k < list.len()
        invariant
            strictly_ascending(list@),
            k <= list@.len(),
            strictly_ascending(r@),
            forall|x: usize|
                r@.contains(x) <==> (list@.subrange(0, k as int).contains(x) && x < v),
        decreases list@.len() - k,
    {
        let ghost prefix = list@.subrange(0, k as int);
        let ghost longer = list@.subrange(0, k + 1);
        let ghost old_r = r@;
        let x = list[k];
        if x < v {
            r.push(x);
        }
        proof {
            assert(longer[k as int] == list@[k as int]);
            assert forall|y: usize| longer.contains(y) implies (prefix.contains(y) || y == x) by {
                let q = choose|q: int| 0 <= q < longer.len() && longer[q] == y;
                if q < k {
                    assert(prefix[q] == y);
                }
            }
            assert forall|y: usize| prefix.contains(y) implies longer.contains(y) by {
                let q = choose|q: int| 0 <= q < prefix.len() && prefix[q] == y;
                assert(longer[q] == y);
            }
            // everything in the old output is below the new entry
            assert forall|j: int| 0 <= j < old_r.len() implies old_r[j] < x by {
                assert(old_r.contains(old_r[j]));
                let q = choose|q: int| 0 <= q < k && prefix[q] == old_r[j];
                assert(list@[q] < list@[k as int]);
            }
            assert forall|y: usize| r@.contains(y) implies (old_r.contains(y) || y == x) by {
                let q = choose|q: int| 0 <= q < r@.len() && r@[q] == y;
                if q < old_r.len() {
                    assert(old_r[q] == y);
                }
            }
            assert forall|y: usize| old_r.contains(y) implies r@.contains(y) by {
                let q = choose|q: int| 0 <= q < old_r.len() && old_r[q] == y;
                assert(r@[q] == y);
            }
            if x < v {
                assert(r@[r@.len() - 1] == x);
            }
            assert(list@.contains(x)) by {
                assert(list@[k as int] == x);
            }
            assert forall|y: usize|
                r@.contains(y) <==> (longer.contains(y) && y < v) by {
                if y == x {
                    if x < v {
                        assert(r@.contains(x));
                    } else {
                        if r@.contains(y) {
                            assert(old_r.contains(y) || y == x);
                            assert(prefix.contains(y));
                        }
                    }
                } else {
                    assert(r@.contains(y) == old_r.contains(y));
                    assert(longer.contains(y) == prefix.contains(y));
                }
            }
        }
        k += 1;
    }
    proof {
        assert(list@.subrange(0, list@.len() as int) =~= list@);
    }
    r
}

/// The generalized structural Hamming distance between two graphs on the
/// same nodes: the number of unordered pairs whose edge marks differ, and
/// the number of pairs compared.
pub fn shd(g_truth: &PDAG, g_guess: &PDAG) -> (r: (usize, usize))
    requires
        g_truth.wf(),
        g_guess.wf(),
        g_truth.n_nodes == g_guess.n_nodes,
        g_truth.n() * g_truth.n() <= usize::MAX,
    ensures
        r.0 == shd_count(g_truth, g_guess, g_truth.n()),
        r.1 * 2 == g_truth.n() * (g_truth.n() - 1),
        r.0 <= r.1,
{
    let n = g_truth.n_nodes;
    let mut dist: usize = 0;
    let mut comparisons: usize = 0;
    let mut v: usize = 0;
    while v < n
        invariant
            g_truth.wf(),
            g_guess.wf(),
            g_truth.n_nodes == g_guess.n_nodes,
            n == g_truth.n_nodes,
            g_truth.n() * g_truth.n() <= usize::MAX,
            v <= n,
            dist == shd_count(g_truth, g_guess, v as int),
            dist * 2 <= v * (v as int - 1),
            comparisons * 2 == v * (v as int - 1),
        decreases n - v,
    {
        let truth_parents = filter_below(g_truth.parents_of(v), v);
        let truth_undirected = filter_below(g_truth.adjacent_undirected_of(v), v);
        let truth_children = filter_below(g_truth.children_of(v), v);
        let guess_parents = filter_below(g_guess.parents_of(v), v);
        let guess_undirected = filter_below(g_guess.adjacent_undirected_of(v), v);
        let guess_children = filter_below(g_guess.children_of(v), v);

        let parents_symdif = ascending_lists_set_symmetric_difference(
            truth_parents.as_slice(),
            guess_parents.as_slice(),
        );
        let undirected_symdif = ascending_lists_set_symmetric_difference(
            truth_undirected.as_slice(),
            guess_undirected.as_slice(),
        );
        let children_symdif = ascending_lists_set_symmetric_difference(
            truth_children.as_slice(),
            guess_children.as_slice(),
        );
        let distinct_children_and_parents = ascending_lists_set_union(
            children_symdif.as_slice(),
            parents_symdif.as_slice(),
        );
        let union = ascending_lists_set_union(
            distinct_children_and_parents.as_slice(),
            undirected_symdif.as_slice(),
        );
        proof {
            let vi = v as int;
            assert forall|x: usize|
                union@.contains(x) <==> ((x as int) < vi && shd_differs(
                    g_truth,
                    g_guess,
                    x as int,
                    vi,
                )) by {
                let xi = x as int;
                assert(truth_parents@.contains(x) == (g_truth.has_dir_edge(xi, vi) && x < v)) by {
                    if g_truth.has_dir_edge(xi, vi) {
                        assert(g_truth.parents_seq(vi).contains(x));
                    }
                    if truth_parents@.contains(x) {
                        assert(g_truth.parents_seq(vi).contains(x));
                        assert(g_truth.children_seq(xi).contains((vi as usize)));
                    }
                }
                assert(guess_parents@.contains(x) == (g_guess.has_dir_edge(xi, vi) && x < v)) by {
                    if g_guess.has_dir_edge(xi, vi) {
                        assert(g_guess.parents_seq(vi).contains(x));
                    }
                    if guess_parents@.contains(x) {
                        assert(g_guess.parents_seq(vi).contains(x));
                        assert(g_guess.children_seq(xi).contains((vi as usize)));
                    }
                }
                assert(truth_children@.contains(x) == (g_truth.has_dir_edge(vi, xi) && x < v)) by {
                    if g_truth.has_dir_edge(vi, xi) {
                        assert(g_truth.children_seq(vi).contains(x));
                    }
                    if truth_children@.contains(x) {
                        assert(g_truth.children_seq(vi).contains(x));
                    }
                }
                assert(guess_children@.contains(x) == (g_guess.has_dir_edge(vi, xi) && x < v)) by {
                    if g_guess.has_dir_edge(vi, xi) {
                        assert(g_guess.children_seq(vi).contains(x));
                    }
                    if guess_children@.contains(x) {
                        assert(g_guess.children_seq(vi).contains(x));
                    }
                }
                assert(truth_undirected@.contains(x) == (g_truth.has_und_edge(xi, vi) && x
                    < v)) by {
                    if g_truth.has_und_edge(xi, vi) {
                        assert(g_truth.und_seq(xi).contains((vi as usize)));
                        assert(g_truth.und_seq(vi).contains(x));
                    }
                    if truth_undirected@.contains(x) {
                        assert(g_truth.und_seq(vi).contains(x));
                        assert(g_truth.und_seq(xi).contains((vi as usize)));
                    }
                }
                assert(guess_undirected@.contains(x) == (g_guess.has_und_edge(xi, vi) && x
                    < v)) by {
                    if g_guess.has_und_edge(xi, vi) {
                        assert(g_guess.und_seq(xi).contains((vi as usize)));
                        assert(g_guess.und_seq(vi).contains(x));
                    }
                    if guess_undirected@.contains(x) {
                        assert(g_guess.und_seq(vi).contains(x));
                        assert(g_guess.und_seq(xi).contains((vi as usize)));
                    }
                }
            }
            lemma_sorted_len_is_count(g_truth, g_guess, vi, union@, vi);
            lemma_row_count_bound(g_truth, g_guess, vi, vi);
            assert((v as int) * (v as int + 1) == v * (v as int - 1) + 2 * v) by (nonlinear_arith);
            assert((v as int + 1) * (v as int) <= g_truth.n() * g_truth.n()) by (nonlinear_arith)
                requires
                    v < g_truth.n_nodes,
                    0 <= v,
            ;
        }
        dist += union.len();
        comparisons += v;
        v += 1;
    }
    proof {
        if n == 0 {
            assert(shd_count(g_truth, g_guess, 0) == 0);
        }
    }
    (dist, comparisons)
}

/// A graph is at structural Hamming distance zero from itself.
pub proof fn lemma_shd_reflexive(g: &PDAG, upto: int)
    requires
        0 <= upto,
    ensures
        shd_count(g, g, upto) == 0,
    decreases upto,
{
    if upto > 0 {
        lemma_shd_reflexive(g, upto - 1);
        lemma_shd_row_zero(g, upto - 1, upto - 1);
    }
}

/// No pair differs between a graph and itself.
proof fn lemma_shd_row_zero(g: &PDAG, v: int, upto: int)
    requires
        0 <= upto,
    ensures
        shd_row_count(g, g, v, upto) == 0,
    decreases upto,
{
    if upto > 0 {
        lemma_shd_row_zero(g, v, upto - 1);
    }
}

/// The structural Hamming distance is symmetric in its two arguments.
pub proof fn lemma_shd_symmetric(a: &PDAG, b: &PDAG, upto: int)
    requires
        0 <= upto,
    ensures
        shd_count(a, b, upto) == shd_count(b, a, upto),
    decreases upto,
{
    if upto > 0 {
        lemma_shd_symmetric(a, b, upto - 1);
        lemma_shd_row_symmetric(a, b, upto - 1, upto - 1);
    }
}

/// Pair disagreement does not depend on the order of the two graphs.
proof fn lemma_shd_row_symmetric(a: &PDAG, b: &PDAG, v: int, upto: int)
    requires
        0 <= upto,
    ensures
        shd_row_count(a, b, v, upto) == shd_row_count(b, a, v, upto),
    decreases upto,
{
    if upto > 0 {
        lemma_shd_row_symmetric(a, b, v, upto - 1);
    }
}

} // verus!
