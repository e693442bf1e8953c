//! The optimal adjustment identification distance (Oset-AID).
//!
//! For every ordered pair (t, y) of distinct nodes, the optimal adjustment
//! set O(guess, t, y) is proposed: the parents of the causal nodes (proper
//! ancestors of `y` that are descendants of `t`) that are not themselves
//! descendants of `t`. The possible descendants of `t` in the guess are
//! claimed the possible effects, and the pair is graded against the truth
//! graph.

use vstd::prelude::*;

use super::gensearch_wrappers::{
    get_descendants, get_parents, get_proper_ancestors, is_descendant_of, is_parent_of_set,
    is_proper_ancestor_of,
};
use super::parent_aid::single_mask;
use super::reachability::{get_invalidly_un_blocked, get_pd_nam, in_ivb, in_nam, in_pd, tmask_of};
use crate::partially_directed_acyclic_graph::PDAG;
use crate::sets::{mask_and, mask_and_not, mask_to_list};

verus! {

/// Computes the optimal adjustment set of the treatments onto the
/// responses, given a precomputed mask of the treatments' descendants: the
/// parents of the causal nodes (proper ancestors of the responses inside
/// the descendant mask), minus the descendant mask itself.
pub fn optimal_adjustment_set_given_descendants(
    dag: &PDAG,
    treatments: &[usize],
    responses: &[usize],
    t_descendants: &Vec<bool>,
) -> (r: Vec<bool>)
    requires
        dag.wf(),
        forall|k: int| 0 <= k < treatments@.len() ==> (#[trigger] treatments@[k]) < dag.n_nodes,
        forall|k: int| 0 <= k < responses@.len() ==> (#[trigger] responses@[k]) < dag.n_nodes,
        t_descendants@.len() == dag.n(),
    ensures
        r@.len() == dag.n(),
        forall|w: int|
            0 <= w < dag.n() ==> r@[w] == ((exists|c: int|
                0 <= c < dag.n() && #[trigger] is_proper_ancestor_of(dag, treatments@, responses@, c)
                    && t_descendants@[c] && dag.has_dir_edge(w, c)) && !t_descendants@[w]),
{
    let n = dag.n_nodes;
    let response_ancestors = get_proper_ancestors(dag, treatments, responses);
    let causal = mask_and(&response_ancestors, t_descendants);
    let causal_list = mask_to_list(&causal);
    proof {
        assert forall|k: int| 0 <= k < causal_list@.len() implies (#[trigger] causal_list@[k])
            < n by {
            assert(causal_list@.contains(causal_list@[k]));
        }
    }
    let causal_parents = get_parents(dag, causal_list.as_slice());
    let r = mask_and_not(&causal_parents, t_descendants);
    proof {
        assert forall|w: int|
            0 <= w < dag.n() implies r@[w] == ((exists|c: int|
            0 <= c < dag.n() && #[trigger] is_proper_ancestor_of(dag, treatments@, responses@, c)
                && t_descendants@[c] && dag.has_dir_edge(w, c)) && !t_descendants@[w]) by {
            assert(causal_parents@[w] == is_parent_of_set(dag, causal_list@, w));
            if is_parent_of_set(dag, causal_list@, w) {
                let s = choose|s: usize|
                    causal_list@.contains(s) && dag.has_dir_edge(w, s as int);
                assert(causal@[s as int]);
                assert(is_proper_ancestor_of(dag, treatments@, responses@, s as int)
                    && t_descendants@[s as int] && dag.has_dir_edge(w, s as int));
            }
            if exists|c: int|
                0 <= c < dag.n() && #[trigger] is_proper_ancestor_of(
                    dag,
                    treatments@,
                    responses@,
                    c,
                ) && t_descendants@[c] && dag.has_dir_edge(w, c) {
                let c = choose|c: int|
                    0 <= c < dag.n() && #[trigger] is_proper_ancestor_of(
                        dag,
                        treatments@,
                        responses@,
                        c,
                    ) && t_descendants@[c] && dag.has_dir_edge(w, c);
                assert(causal@[c]);
                assert(causal_list@.contains(c as usize));
                assert((c as usize) as int == c);
                assert(is_parent_of_set(dag, causal_list@, w));
            }
        }
    }
    r
}

/// Computes the optimal adjustment set of the treatments onto the
/// responses, as a membership mask.
pub fn optimal_adjustment_set(dag: &PDAG, treatments: &[usize], responses: &[usize]) -> (r: Vec<
    bool,
>)
    requires
        dag.wf(),
        forall|k: int| 0 <= k < treatments@.len() ==> (#[trigger] treatments@[k]) < dag.n_nodes,
        forall|k: int| 0 <= k < responses@.len() ==> (#[trigger] responses@[k]) < dag.n_nodes,
    ensures
        r@.len() == dag.n(),
        forall|w: int|
            0 <= w < dag.n() ==> r@[w] == ((exists|c: int|
                0 <= c < dag.n() && #[trigger] is_proper_ancestor_of(dag, treatments@, responses@, c)
                    && is_descendant_of(dag, treatments@, c) && dag.has_dir_edge(w, c))
                && !is_descendant_of(dag, treatments@, w)),
{
    let t_descendants = get_descendants(dag, treatments);
    let r = optimal_adjustment_set_given_descendants(dag, treatments, responses, &t_descendants);
    r
}

/// The optimal adjustment set for the single pair (t, y), as a mask.
pub open spec fn oset_mask(g: &PDAG, t: int, y: int) -> Seq<bool> {
    Seq::new(
        g.n() as nat,
        |w: int|
            (exists|c: int|
                0 <= c < g.n() && #[trigger] is_proper_ancestor_of(
                    g,
                    seq![t as usize],
                    seq![y as usize],
                    c,
                ) && is_descendant_of(g, seq![t as usize], c) && g.has_dir_edge(w, c))
                && !is_descendant_of(g, seq![t as usize], w),
    )
}

/// Whether the pair (t, y) is graded a mistake by Oset-AID.
pub open spec fn oset_aid_mistake(truth: &PDAG, guess: &PDAG, t: int, y: int) -> bool {
    let tm = single_mask(t, truth.n());
    if !in_pd(guess, tm, y) {
        in_pd(truth, tm, y)
    } else {
        let nam_g = in_nam(guess, tm, y);
        let nam_t = in_nam(truth, tm, y);
        if nam_g != nam_t {
            true
        } else {
            !nam_g && in_ivb(truth, tm, oset_mask(guess, t, y), y)
        }
    }
}

/// The number of mistakes among the pairs (t, y) with `y < upto`, `y != t`.
pub open spec fn oset_aid_row(truth: &PDAG, guess: &PDAG, t: int, upto: int) -> int
    decreases upto,
{
    if upto <= 0 {
        0
    } else {
        oset_aid_row(truth, guess, t, upto - 1) + if upto - 1 != t && oset_aid_mistake(
            truth,
            guess,
            t,
            upto - 1,
        ) {
            1int
        } else {
            0int
        }
    }
}

/// The total number of mistakes over the treatments below `upto`.
pub open spec fn oset_aid_count(truth: &PDAG, guess: &PDAG, upto: int) -> int
    decreases upto,
{
    if upto <= 0 {
        0
    } else {
        oset_aid_count(truth, guess, upto - 1) + oset_aid_row(truth, guess, upto - 1, truth.n())
    }
}

/// A row counts at most `upto - 1` mistakes (the diagonal is skipped).
pub proof fn lemma_oset_aid_row_bound(truth: &PDAG, guess: &PDAG, t: int, upto: int)
    requires
        0 <= upto,
    ensures
        0 <= oset_aid_row(truth, guess, t, upto) <= upto,
        0 <= t < upto ==> oset_aid_row(truth, guess, t, upto) <= upto - 1,
    decreases upto,
{
    if upto > 0 {
        lemma_oset_aid_row_bound(truth, guess, t, upto - 1);
    }
}

/// The total count stays within the number of ordered pairs.
pub proof fn lemma_oset_aid_count_bound(truth: &PDAG, guess: &PDAG, upto: int)
    requires
        0 <= upto <= truth.n(),
        truth.n() >= 1,
    ensures
        0 <= oset_aid_count(truth, guess, upto) <= upto * (truth.n() - 1),
    decreases upto,
{
    if upto > 0 {
        lemma_oset_aid_count_bound(truth, guess, upto - 1);
        lemma_oset_aid_row_bound(truth, guess, upto - 1, truth.n());
        assert(upto * (truth.n() - 1) == (upto - 1) * (truth.n() - 1) + (truth.n() - 1))
            by (nonlinear_arith);
    }
}

/// The number of mistakes among the first `upto` selected pairs.
pub open spec fn oset_aid_pairs_count(
    truth: &PDAG,
    guess: &PDAG,
    pairs: Seq<(usize, usize)>,
    upto: int,
) -> int
    decreases upto,
{
    if upto <= 0 {
        0
    } else {
        oset_aid_pairs_count(truth, guess, pairs, upto - 1) + if oset_aid_mistake(
            truth,
            guess,
            pairs[upto - 1].0 as int,
            pairs[upto - 1].1 as int,
        ) {
            1int
        } else {
            0int
        }
    }
}

/// Computes the optimal-set adjustment identification distance over the
/// selected ordered (treatment, effect) pairs only: the number of graded
/// mistakes and the number of pairs graded.
pub fn oset_aid_selected_pairs(truth: &PDAG, guess: &PDAG, pairs: &[(usize, usize)]) -> (r: (
    usize,
    usize,
))
    requires
        truth.wf(),
        guess.wf(),
        truth.n_nodes == guess.n_nodes,
        truth.n_nodes >= 2,
        forall|k: int|
            0 <= k < pairs@.len() ==> (#[trigger] pairs@[k]).0 < truth.n_nodes && pairs@[k].1
                < truth.n_nodes && pairs@[k].0 != pairs@[k].1,
    ensures
        r.0 == oset_aid_pairs_count(truth, guess, pairs@, pairs@.len() as int),
        r.1 == pairs@.len(),
        r.0 <= r.1,
{
    let n = truth.n_nodes;
    let mut mistakes: usize = 0;
    let mut k: usize = 0;
    while k < pairs.len()
        invariant
            truth.wf(),
            guess.wf(),
            truth.n_nodes == guess.n_nodes,
            n == truth.n_nodes,
            n >= 2,
            forall|j: int|
                0 <= j < pairs@.len() ==> (#[trigger] pairs@[j]).0 < n && pairs@[j].1 < n
                    && pairs@[j].0 != pairs@[j].1,
            k <= pairs@.len(),
            mistakes == oset_aid_pairs_count(truth, guess, pairs@, k as int),
            mistakes <= k,
        decreases pairs@.len() - k,
    {
        let (treatment, y) = pairs[k];
        let mut tl: Vec<usize> = Vec::new();
        tl.push(treatment);
        let ghost tm = single_mask(treatment as int, truth.n());
        proof {
            assert(tmask_of(tl@, truth.n()) =~= tm) by {
                assert forall|w: int| 0 <= w < truth.n() implies tmask_of(tl@, truth.n())[w] == (w
                    == treatment as int) by {
                    if tl@.contains(w as usize) {
                        let j = choose|j: int| 0 <= j < tl@.len() && tl@[j] == w as usize;
                        assert(j == 0);
                    }
                    if w == treatment as int {
                        assert(tl@[0] == treatment);
                    }
                }
            }
            assert(tl@ =~= seq![treatment]);
        }
        let t_desc_in_guess = get_descendants(guess, tl.as_slice());
        let (pd_guess, nam_guess) = get_pd_nam(guess, tl.as_slice());
        let (pd_truth, nam_truth) = get_pd_nam(truth, tl.as_slice());
        let mistake = if !pd_guess[y] {
            pd_truth[y]
        } else {
            if nam_guess[y] != nam_truth[y] {
                true
            } else if !nam_guess[y] {
                let mut yl: Vec<usize> = Vec::new();
                yl.push(y);
                let o_set = optimal_adjustment_set_given_descendants(
                    guess,
                    tl.as_slice(),
                    yl.as_slice(),
                    &t_desc_in_guess,
                );
                let ivb = get_invalidly_un_blocked(truth, tl.as_slice(), &o_set);
                proof {
                    assert(yl@ =~= seq![y]);
                    assert(o_set@ =~= oset_mask(guess, treatment as int, y as int)) by {
                        assert forall|w: int|
                            0 <= w < n implies o_set@[w] == oset_mask(
                            guess,
                            treatment as int,
                            y as int,
                        )[w] by {
                            assert((treatment as int) as usize == treatment && (y as int) as usize
                                == y);
                            assert(seq![(treatment as int) as usize] =~= seq![treatment]);
                            assert(seq![(y as int) as usize] =~= seq![y]);
                        }
                    }
                    assert(ivb@[y as int] == in_ivb(
                        truth,
                        tm,
                        oset_mask(guess, treatment as int, y as int),
                        y as int,
                    ));
                }
                ivb[y]
            } else {
                false
            }
        };
        proof {
            assert(mistake == oset_aid_mistake(truth, guess, treatment as int, y as int));
            assert(pairs@[k as int] == (treatment, y));
        }
        if mistake {
            mistakes += 1;
        }
        k += 1;
    }
    (mistakes, pairs.len())
}

/// Computes the optimal-set adjustment identification distance between an
/// estimated `guess` graph and a true `truth` graph on the same nodes:
/// the number of ordered pairs the guess would mislead on, and the number of
/// ordered pairs compared.
pub fn oset_aid(truth: &PDAG, guess: &PDAG) -> (r: (usize, usize))
    requires
        truth.wf(),
        guess.wf(),
        truth.n_nodes == guess.n_nodes,
        truth.n_nodes >= 2,
        truth.n() * truth.n() <= usize::MAX,
    ensures
        r.0 == oset_aid_count(truth, guess, truth.n()),
        r.1 == truth.n() * (truth.n() - 1),
        r.0 <= r.1,
{
    let n = truth.n_nodes;
    let mut mistakes: usize = 0;
    let mut treatment: usize = 0;
    while treatment < n
        invariant
            truth.wf(),
            guess.wf(),
            truth.n_nodes == guess.n_nodes,
            n == truth.n_nodes,
            n >= 2,
            truth.n() * truth.n() <= usize::MAX,
            treatment <= n,
            mistakes == oset_aid_count(truth, guess, treatment as int),
            mistakes <= treatment * (n as int - 1),
        decreases n - treatment,
    {
        proof {
            lemma_oset_aid_count_bound(truth, guess, treatment as int);
        }
        let mut tl: Vec<usize> = Vec::new();
        tl.push(treatment);
        let ghost tm = single_mask(treatment as int, truth.n());
        proof {
            assert(tmask_of(tl@, truth.n()) =~= tm) by {
                assert forall|w: int| 0 <= w < truth.n() implies tmask_of(tl@, truth.n())[w] == (w
                    == treatment as int) by {
                    if tl@.contains(w as usize) {
                        let j = choose|j: int| 0 <= j < tl@.len() && tl@[j] == w as usize;
                        assert(j == 0);
                    }
                    if w == treatment as int {
                        assert(tl@[0] == treatment);
                    }
                }
            }
            assert(tl@ =~= seq![treatment]);
        }
        // precomputed once per treatment and reused for every response
        let t_desc_in_guess = get_descendants(guess, tl.as_slice());
        let (pd_guess, nam_guess) = get_pd_nam(guess, tl.as_slice());
        let (pd_truth, nam_truth) = get_pd_nam(truth, tl.as_slice());

        let mut row: usize = 0;
        let mut y: usize = 0;
        while y < n
            invariant
                truth.wf(),
                guess.wf(),
                truth.n_nodes == guess.n_nodes,
                n == truth.n_nodes,
                treatment < n,
                y <= n,
                tl@ == seq![treatment],
                tm == single_mask(treatment as int, truth.n()),
                tmask_of(tl@, truth.n()) == tm,
                t_desc_in_guess@.len() == n,
                pd_guess@.len() == n,
                nam_guess@.len() == n,
                pd_truth@.len() == n,
                nam_truth@.len() == n,
                forall|w: int|
                    0 <= w < n ==> t_desc_in_guess@[w] == is_descendant_of(
                        guess,
                        seq![treatment],
                        w,
                    ),
                forall|w: int| 0 <= w < n ==> pd_guess@[w] == in_pd(guess, tm, w),
                forall|w: int| 0 <= w < n ==> nam_guess@[w] == in_nam(guess, tm, w),
                forall|w: int| 0 <= w < n ==> pd_truth@[w] == in_pd(truth, tm, w),
                forall|w: int| 0 <= w < n ==> nam_truth@[w] == in_nam(truth, tm, w),
                row == oset_aid_row(truth, guess, treatment as int, y as int),
                row <= y,
            decreases n - y,
        {
            if y != treatment {
                let mistake = if !pd_guess[y] {
                    pd_truth[y]
                } else {
                    if nam_guess[y] != nam_truth[y] {
                        true
                    } else if !nam_guess[y] {
                        let mut yl: Vec<usize> = Vec::new();
                        yl.push(y);
                        let o_set = optimal_adjustment_set_given_descendants(
                            guess,
                            tl.as_slice(),
                            yl.as_slice(),
                            &t_desc_in_guess,
                        );
                        let ivb = get_invalidly_un_blocked(truth, tl.as_slice(), &o_set);
                        proof {
                            assert(yl@ =~= seq![y]);
                            assert(o_set@ =~= oset_mask(guess, treatment as int, y as int)) by {
                                assert forall|w: int|
                                    0 <= w < n implies o_set@[w] == oset_mask(
                                    guess,
                                    treatment as int,
                                    y as int,
                                )[w] by {
                                    assert((treatment as int) as usize == treatment && (
                                    y as int) as usize == y);
                                    assert(seq![(treatment as int) as usize] =~= seq![treatment]);
                                    assert(seq![(y as int) as usize] =~= seq![y]);
                                }
                            }
                            assert(ivb@[y as int] == in_ivb(
                                truth,
                                tm,
                                oset_mask(guess, treatment as int, y as int),
                                y as int,
                            ));
                        }
                        ivb[y]
                    } else {
                        false
                    }
                };
                proof {
                    assert(mistake == oset_aid_mistake(truth, guess, treatment as int, y as int));
                }
                if mistake {
                    row += 1;
                }
            }
            y += 1;
        }
        proof {
            lemma_oset_aid_row_bound(truth, guess, treatment as int, n as int);
            assert((treatment + 1) * (n as int - 1) == treatment * (n as int - 1) + (n as int - 1))
                by (nonlinear_arith);
            assert((treatment + 1) * (n as int - 1) <= n * n) by (nonlinear_arith)
                requires
                    0 <= treatment < n,
            ;
        }
        mistakes += row;
        treatment += 1;
    }
    proof {
        lemma_oset_aid_count_bound(truth, guess, n as int);
        assert(n * (n as int - 1) <= n * n) by (nonlinear_arith);
    }
    (mistakes, n * (n - 1))
}

} // verus!
