//! The ancestor adjustment identification distance (Ancestor-AID).
//!
//! For every ordered pair (t, y) of distinct nodes, the ancestors of `t` in
//! the guess graph (without `t` itself) are proposed as the adjustment set,
//! the possible descendants of `t` in the guess are claimed the possible
//! effects, and the pair is graded against the truth graph.

use vstd::prelude::*;

use super::gensearch_wrappers::{dpath, get_ancestors, is_ancestor_of};
use super::parent_aid::{
    lemma_dag_in_nam_false, lemma_dag_in_pd_is_descendant, lemma_dag_nva_within_z,
    lemma_no_cycle_back, single_mask, strict_descendant,
};
use super::reachability::{get_pd_nam, get_pd_nam_nva, in_nam, in_nva, in_pd, tmask_of};
use crate::partially_directed_acyclic_graph::PDAG;

verus! {

/// The mask of the ancestors of `t` in `guess`, `t` itself excluded.
pub open spec fn ancestor_set_mask(guess: &PDAG, t: int) -> Seq<bool> {
    Seq::new(
        guess.n() as nat,
        |v: int| v != t && is_ancestor_of(guess, seq![t as usize], v),
    )
}

/// Whether the pair (t, y) is graded a mistake by Ancestor-AID.
pub open spec fn ancestor_aid_mistake(truth: &PDAG, guess: &PDAG, t: int, y: int) -> bool {
    let tm = single_mask(t, truth.n());
    let zm = ancestor_set_mask(guess, t);
    if !in_pd(guess, tm, y) {
        in_pd(truth, tm, y)
    } else {
        let nam_g = in_nam(guess, tm, y);
        let nam_t = in_nam(truth, tm, y);
        if nam_g != nam_t {
            true
        } else {
            !nam_t && in_nva(truth, tm, zm, y)
        }
    }
}

/// The number of mistakes among the pairs (t, y) with `y < upto`, `y != t`.
pub open spec fn ancestor_aid_row(truth: &PDAG, guess: &PDAG, t: int, upto: int) -> int
    decreases upto,
{
    if upto <= 0 {
        0
    } else {
        ancestor_aid_row(truth, guess, t, upto - 1) + if upto - 1 != t && ancestor_aid_mistake(
            truth,
            guess,
            t,
            upto - 1,
        ) {
            1int
        } else {
            0int
        }
    }
}

/// The total number of mistakes over the treatments below `upto`.
pub open spec fn ancestor_aid_count(truth: &PDAG, guess: &PDAG, upto: int) -> int
    decreases upto,
{
    if upto <= 0 {
        0
    } else {
        ancestor_aid_count(truth, guess, upto - 1) + ancestor_aid_row(
            truth,
            guess,
            upto - 1,
            truth.n(),
        )
    }
}

/// A row counts at most `upto - 1` mistakes (the diagonal is skipped).
pub proof fn lemma_ancestor_aid_row_bound(truth: &PDAG, guess: &PDAG, t: int, upto: int)
    requires
        0 <= upto,
    ensures
        0 <= ancestor_aid_row(truth, guess, t, upto) <= upto,
        0 <= t < upto ==> ancestor_aid_row(truth, guess, t, upto) <= upto - 1,
    decreases upto,
{
    if upto > 0 {
        lemma_ancestor_aid_row_bound(truth, guess, t, upto - 1);
    }
}

/// The total count stays within the number of ordered pairs.
pub proof fn lemma_ancestor_aid_count_bound(truth: &PDAG, guess: &PDAG, upto: int)
    requires
        0 <= upto <= truth.n(),
        truth.n() >= 1,
    ensures
        0 <= ancestor_aid_count(truth, guess, upto) <= upto * (truth.n() - 1),
    decreases upto,
{
    if upto > 0 {
        lemma_ancestor_aid_count_bound(truth, guess, upto - 1);
        lemma_ancestor_aid_row_bound(truth, guess, upto - 1, truth.n());
        assert(upto * (truth.n() - 1) == (upto - 1) * (truth.n() - 1) + (truth.n() - 1))
            by (nonlinear_arith);
    }
}

/// The number of mistakes among the first `upto` selected pairs.
pub open spec fn ancestor_aid_pairs_count(
    truth: &PDAG,
    guess: &PDAG,
    pairs: Seq<(usize, usize)>,
    upto: int,
) -> int
    decreases upto,
{
    if upto <= 0 {
        0
    } else {
        ancestor_aid_pairs_count(truth, guess, pairs, upto - 1) + if ancestor_aid_mistake(
            truth,
            guess,
            pairs[upto - 1].0 as int,
            pairs[upto - 1].1 as int,
        ) {
            1int
        } else {
            0int
        }
    }
}

/// Computes the ancestor adjustment identification distance over the
/// selected ordered (treatment, effect) pairs only: the number of graded
/// mistakes and the number of pairs graded.
pub fn ancestor_aid_selected_pairs(truth: &PDAG, guess: &PDAG, pairs: &[(usize, usize)]) -> (r: (
    usize,
    usize,
))
    requires
        truth.wf(),
        guess.wf(),
        truth.n_nodes == guess.n_nodes,
        truth.n_nodes >= 2,
        forall|k: int|
            0 <= k < pairs@.len() ==> (#[trigger] pairs@[k]).0 < truth.n_nodes && pairs@[k].1
                < truth.n_nodes && pairs@[k].0 != pairs@[k].1,
    ensures
        r.0 == ancestor_aid_pairs_count(truth, guess, pairs@, pairs@.len() as int),
        r.1 == pairs@.len(),
        r.0 <= r.1,
{
    let n = truth.n_nodes;
    let mut mistakes: usize = 0;
    let mut k: usize = 0;
    while k < pairs.len()
        invariant
            truth.wf(),
            guess.wf(),
            truth.n_nodes == guess.n_nodes,
            n == truth.n_nodes,
            n >= 2,
            forall|j: int|
                0 <= j < pairs@.len() ==> (#[trigger] pairs@[j]).0 < n && pairs@[j].1 < n
                    && pairs@[j].0 != pairs@[j].1,
            k <= pairs@.len(),
            mistakes == ancestor_aid_pairs_count(truth, guess, pairs@, k as int),
            mistakes <= k,
        decreases pairs@.len() - k,
    {
        let (treatment, y) = pairs[k];
        let mut tl: Vec<usize> = Vec::new();
        tl.push(treatment);
        let ghost tm = single_mask(treatment as int, truth.n());
        proof {
            assert(tmask_of(tl@, truth.n()) =~= tm) by {
                assert forall|w: int| 0 <= w < truth.n() implies tmask_of(tl@, truth.n())[w] == (w
                    == treatment as int) by {
                    if tl@.contains(w as usize) {
                        let j = choose|j: int| 0 <= j < tl@.len() && tl@[j] == w as usize;
                        assert(j == 0);
                    }
                    if w == treatment as int {
                        assert(tl@[0] == treatment);
                    }
                }
            }
        }
        let (pd_guess, nam_guess) = get_pd_nam(guess, tl.as_slice());
        let mut zmask = get_ancestors(guess, tl.as_slice());
        zmask.set(treatment, false);
        let ghost zm = ancestor_set_mask(guess, treatment as int);
        proof {
            assert(zmask@ =~= zm) by {
                assert forall|w: int| 0 <= w < n implies zmask@[w] == (w != treatment as int
                    && is_ancestor_of(guess, seq![treatment], w)) by {
                    if w != treatment as int {
                        assert(is_ancestor_of(guess, tl@, w) == is_ancestor_of(
                            guess,
                            seq![treatment],
                            w,
                        )) by {
                            assert(tl@ =~= seq![treatment]);
                        }
                    }
                }
                assert(seq![(treatment as int) as usize] =~= seq![treatment]);
            }
        }
        let (pd_truth, nam_truth, nva_truth) = get_pd_nam_nva(truth, tl.as_slice(), &zmask);
        let mistake = if !pd_guess[y] {
            pd_truth[y]
        } else {
            if nam_guess[y] != nam_truth[y] {
                true
            } else {
                !nam_truth[y] && nva_truth[y]
            }
        };
        proof {
            assert(mistake == ancestor_aid_mistake(truth, guess, treatment as int, y as int));
            assert(pairs@[k as int] == (treatment, y));
        }
        if mistake {
            mistakes += 1;
        }
        k += 1;
    }
    (mistakes, pairs.len())
}

/// Computes the ancestor adjustment identification distance between an
/// estimated `guess` graph and a true `truth` graph on the same nodes:
/// the number of ordered pairs the guess would mislead on, and the number of
/// ordered pairs compared.
pub fn ancestor_aid(truth: &PDAG, guess: &PDAG) -> (r: (usize, usize))
    requires
        truth.wf(),
        guess.wf(),
        truth.n_nodes == guess.n_nodes,
        truth.n_nodes >= 2,
        truth.n() * truth.n() <= usize::MAX,
    ensures
        r.0 == ancestor_aid_count(truth, guess, truth.n()),
        r.1 == truth.n() * (truth.n() - 1),
        r.0 <= r.1,
{
    let n = truth.n_nodes;
    let mut mistakes: usize = 0;
    let mut treatment: usize = 0;
    while treatment < n
        invariant
            truth.wf(),
            guess.wf(),
            truth.n_nodes == guess.n_nodes,
            n == truth.n_nodes,
            n >= 2,
            truth.n() * truth.n() <= usize::MAX,
            treatment <= n,
            mistakes == ancestor_aid_count(truth, guess, treatment as int),
            mistakes <= treatment * (n as int - 1),
        decreases n - treatment,
    {
        proof {
            lemma_ancestor_aid_count_bound(truth, guess, treatment as int);
        }
        let mut tl: Vec<usize> = Vec::new();
        tl.push(treatment);
        let ghost tm = single_mask(treatment as int, truth.n());
        proof {
            assert(tmask_of(tl@, truth.n()) =~= tm) by {
                assert forall|w: int| 0 <= w < truth.n() implies tmask_of(tl@, truth.n())[w] == (w
                    == treatment as int) by {
                    if tl@.contains(w as usize) {
                        let j = choose|j: int| 0 <= j < tl@.len() && tl@[j] == w as usize;
                        assert(j == 0);
                    }
                    if w == treatment as int {
                        assert(tl@[0] == treatment);
                    }
                }
            }
        }
        let (pd_guess, nam_guess) = get_pd_nam(guess, tl.as_slice());
        let mut zmask = get_ancestors(guess, tl.as_slice());
        zmask.set(treatment, false);
        let ghost zm = ancestor_set_mask(guess, treatment as int);
        proof {
            assert(zmask@ =~= zm) by {
                assert forall|w: int| 0 <= w < n implies zmask@[w] == (w != treatment as int
                    && is_ancestor_of(guess, seq![treatment], w)) by {
                    if w != treatment as int {
                        assert(is_ancestor_of(guess, tl@, w) == is_ancestor_of(
                            guess,
                            seq![treatment],
                            w,
                        )) by {
                            assert(tl@ =~= seq![treatment]);
                        }
                    }
                }
                assert(seq![(treatment as int) as usize] =~= seq![treatment]);
            }
        }
        let (pd_truth, nam_truth, nva_truth) = get_pd_nam_nva(truth, tl.as_slice(), &zmask);

        let mut row: usize = 0;
        let mut y: usize = 0;
        while y < n
            invariant
                truth.wf(),
                guess.wf(),
                truth.n_nodes == guess.n_nodes,
                n == truth.n_nodes,
                treatment < n,
                y <= n,
                tm == single_mask(treatment as int, truth.n()),
                zm == ancestor_set_mask(guess, treatment as int),
                pd_guess@.len() == n,
                nam_guess@.len() == n,
                pd_truth@.len() == n,
                nam_truth@.len() == n,
                nva_truth@.len() == n,
                forall|w: int| 0 <= w < n ==> pd_guess@[w] == in_pd(guess, tm, w),
                forall|w: int| 0 <= w < n ==> nam_guess@[w] == in_nam(guess, tm, w),
                forall|w: int| 0 <= w < n ==> pd_truth@[w] == in_pd(truth, tm, w),
                forall|w: int| 0 <= w < n ==> nam_truth@[w] == in_nam(truth, tm, w),
                forall|w: int| 0 <= w < n ==> nva_truth@[w] == in_nva(truth, tm, zm, w),
                row == ancestor_aid_row(truth, guess, treatment as int, y as int),
                row <= y,
            decreases n - y,
        {
            if y != treatment {
                let mistake = if !pd_guess[y] {
                    pd_truth[y]
                } else {
                    if nam_guess[y] != nam_truth[y] {
                        true
                    } else {
                        !nam_truth[y] && nva_truth[y]
                    }
                };
                proof {
                    assert(mistake == ancestor_aid_mistake(
                        truth,
                        guess,
                        treatment as int,
                        y as int,
                    ));
                }
                if mistake {
                    row += 1;
                }
            }
            y += 1;
        }
        proof {
            lemma_ancestor_aid_row_bound(truth, guess, treatment as int, n as int);
            assert((treatment + 1) * (n as int - 1) == treatment * (n as int - 1) + (n as int - 1))
                by (nonlinear_arith);
            assert((treatment + 1) * (n as int - 1) <= n * n) by (nonlinear_arith)
                requires
                    0 <= treatment < n,
            ;
        }
        mistakes += row;
        treatment += 1;
    }
    proof {
        lemma_ancestor_aid_count_bound(truth, guess, n as int);
        assert(n * (n as int - 1) <= n * n) by (nonlinear_arith);
    }
    (mistakes, n * (n - 1))
}

/// On a DAG, Ancestor-AID never grades a pair of the graph against itself a
/// mistake: the ancestors of the treatment form a valid adjustment set.
pub proof fn lemma_ancestor_aid_mistake_self(g: &PDAG, t: int, y: int)
    requires
        g.wf(),
        g.is_dag(),
        0 <= t < g.n(),
        0 <= y < g.n(),
        y != t,
    ensures
        !ancestor_aid_mistake(g, g, t, y),
{
    let tm = single_mask(t, g.n());
    let zm = ancestor_set_mask(g, t);
    assert forall|v: int| 0 <= v < g.n() && #[trigger] zm[v] implies v != t && !strict_descendant(
        g,
        t,
        v,
    ) by {
        if strict_descendant(g, t, v) {
            lemma_no_cycle_back(g, t, v);
        }
    }
    assert forall|v: int| #[trigger] g.has_dir_edge(v, t) implies zm[v] by {
        if v == t {
            assert(g.children_seq(t).contains(t as usize));
            assert(false);
        }
        let path: Seq<int> = seq![v, t];
        assert(dpath(g, path)) by {
            assert(path[0int] == v && path[0int + 1] == t);
            assert(g.has_dir_edge(v, t));
        }
        assert(path.last() == t);
        assert(seq![t as usize].contains(path.last() as usize)) by {
            assert(seq![t as usize][0int] == t as usize);
        }
        assert(is_ancestor_of(g, seq![t as usize], v));
    }
    if ancestor_aid_mistake(g, g, t, y) {
        assert(in_pd(g, tm, y));
        lemma_dag_in_nam_false(g, tm, y);
        assert(in_nva(g, tm, zm, y));
        lemma_dag_nva_within_z(g, t, zm, y);
        assert(zm[y]);
        lemma_dag_in_pd_is_descendant(g, t, y);
        assert(strict_descendant(g, t, y));
        lemma_no_cycle_back(g, t, y);
        assert(false);
    }
}

/// On a DAG, the Ancestor-AID of a graph against itself is zero: mistakes
/// are counted on no pair.
pub proof fn lemma_ancestor_aid_reflexive(g: &PDAG)
    requires
        g.wf(),
        g.is_dag(),
    ensures
        ancestor_aid_count(g, g, g.n()) == 0,
{
    lemma_ancestor_aid_count_reflexive(g, g.n());
}

proof fn lemma_ancestor_aid_row_reflexive(g: &PDAG, t: int, upto: int)
    requires
        g.wf(),
        g.is_dag(),
        0 <= t < g.n(),
        0 <= upto <= g.n(),
    ensures
        ancestor_aid_row(g, g, t, upto) == 0,
    decreases upto,
{
    if upto > 0 {
        lemma_ancestor_aid_row_reflexive(g, t, upto - 1);
        if upto - 1 != t {
            lemma_ancestor_aid_mistake_self(g, t, upto - 1);
        }
    }
}

proof fn lemma_ancestor_aid_count_reflexive(g: &PDAG, upto: int)
    requires
        g.wf(),
        g.is_dag(),
        0 <= upto <= g.n(),
    ensures
        ancestor_aid_count(g, g, upto) == 0,
    decreases upto,
{
    if upto > 0 {
        lemma_ancestor_aid_count_reflexive(g, upto - 1);
        lemma_ancestor_aid_row_reflexive(g, upto - 1, g.n());
    }
}

} // verus!
