//! The parent adjustment identification distance (Parent-AID).
//!
//! For every ordered pair (t, y) of distinct nodes, the parents of `t` in
//! the guess graph are proposed as the adjustment set, and the pair is graded
//! against the truth graph. In line with the structural intervention
//! distance, every node outside the proposed set is claimed a possible
//! effect.

use vstd::prelude::*;

use super::reachability::{
    get_nam, get_pd_nam_nva, in_nam, in_nva, in_pd, is_walk, reaches, tmask_of, MachineKind, Trip,
    WalkStatus,
};
use super::reachability::blocked_of;
use super::reachability::step_ok;
use super::gensearch_wrappers::dpath;
use crate::partially_directed_acyclic_graph::Edge;
use crate::partially_directed_acyclic_graph::{Structure, PDAG};
use crate::sets::mask_from_list;
use crate::sets::mask_new;

verus! {

/// The mask of the single treatment node `t`.
pub open spec fn single_mask(t: int, n: int) -> Seq<bool> {
    Seq::new(n as nat, |v: int| v == t)
}

/// The mask of the parents of `t` in `guess`.
pub open spec fn parent_set_mask(guess: &PDAG, t: int) -> Seq<bool> {
    Seq::new(guess.n() as nat, |v: int| guess.has_dir_edge(v, t))
}

/// Whether the pair (t, y) is graded a mistake by Parent-AID: either the
/// guess claims `y` is no possible effect (it is a parent of `t`) while the
/// truth holds it a possible descendant, or the graphs disagree on
/// amenability, or the pair is amenable in both and the proposed parent
/// adjustment set is not valid in the truth.
pub open spec fn parent_aid_mistake(truth: &PDAG, guess: &PDAG, t: int, y: int) -> bool {
    let tm = single_mask(t, truth.n());
    let zm = parent_set_mask(guess, t);
    if guess.has_dir_edge(y, t) {
        in_pd(truth, tm, y)
    } else {
        let nam_g = in_nam(guess, tm, y);
        let nam_t = in_nam(truth, tm, y);
        if nam_g != nam_t {
            true
        } else {
            !nam_g && in_nva(truth, tm, zm, y)
        }
    }
}

/// The number of mistakes among the pairs (t, y) with `y < upto`, `y != t`.
pub open spec fn parent_aid_row(truth: &PDAG, guess: &PDAG, t: int, upto: int) -> int
    decreases upto,
{
    if upto <= 0 {
        0
    } else {
        parent_aid_row(truth, guess, t, upto - 1) + if upto - 1 != t && parent_aid_mistake(
            truth,
            guess,
            t,
            upto - 1,
        ) {
            1int
        } else {
            0int
        }
    }
}

/// The total number of mistakes over the treatments below `upto`.
pub open spec fn parent_aid_count(truth: &PDAG, guess: &PDAG, upto: int) -> int
    decreases upto,
{
    if upto <= 0 {
        0
    } else {
        parent_aid_count(truth, guess, upto - 1) + parent_aid_row(
            truth,
            guess,
            upto - 1,
            truth.n(),
        )
    }
}

/// A row counts at most `upto - 1` mistakes (the diagonal is skipped).
pub proof fn lemma_parent_aid_row_bound(truth: &PDAG, guess: &PDAG, t: int, upto: int)
    requires
        0 <= upto,
    ensures
        0 <= parent_aid_row(truth, guess, t, upto) <= upto,
        0 <= t < upto ==> parent_aid_row(truth, guess, t, upto) <= upto - 1,
    decreases upto,
{
    if upto > 0 {
        lemma_parent_aid_row_bound(truth, guess, t, upto - 1);
    }
}

/// The total count stays within the number of ordered pairs.
pub proof fn lemma_parent_aid_count_bound(truth: &PDAG, guess: &PDAG, upto: int)
    requires
        0 <= upto <= truth.n(),
        truth.n() >= 1,
    ensures
        0 <= parent_aid_count(truth, guess, upto) <= upto * (truth.n() - 1),
    decreases upto,
{
    if upto > 0 {
        lemma_parent_aid_count_bound(truth, guess, upto - 1);
        lemma_parent_aid_row_bound(truth, guess, upto - 1, truth.n());
        assert(upto * (truth.n() - 1) == (upto - 1) * (truth.n() - 1) + (truth.n() - 1))
            by (nonlinear_arith);
    }
}

/// In a graph without undirected edges no walk carries the non-amenable
/// status.
proof fn lemma_nam_empty_without_undirected(
    g: &PDAG,
    tm: Seq<bool>,
    zm: Seq<bool>,
    p: Seq<Trip>,
)
    requires
        forall|v: int| 0 <= v < g.n() ==> (#[trigger] g.und_seq(v)).len() == 0,
        is_walk(MachineKind::PdNam, g, tm, zm, p),
    ensures
        p.last().2 != WalkStatus::PdNam,
    decreases p.len(),
{
    if p.len() == 1 {
        assert(p.last() == p[0]);
    } else {
        let q = p.drop_last();
        assert(is_walk(MachineKind::PdNam, g, tm, zm, q)) by {
            assert forall|k: int| 0 <= k < q.len() - 1 implies step_ok(
                MachineKind::PdNam,
                g,
                tm,
                zm,
                q[k],
                #[trigger] q[k + 1],
            ) by {
                assert(q[k] == p[k] && q[k + 1] == p[k + 1]);
                assert(step_ok(MachineKind::PdNam, g, tm, zm, p[k], p[k + 1]));
            }
        }
        lemma_nam_empty_without_undirected(g, tm, zm, q);
        let k = p.len() - 2;
        assert(step_ok(MachineKind::PdNam, g, tm, zm, p[k], p[k + 1]));
        if p.last().2 == WalkStatus::PdNam {
            if p.last().0 == Edge::Undirected {
                assert(g.has_und_edge(p[k].1, p.last().1));
                assert(g.und_seq(p[k].1).contains(p.last().1 as usize));
            } else {
                assert(q.last().2 == WalkStatus::PdNam);
            }
        }
    }
}

/// A DAG is amenable with respect to every pair.
pub proof fn lemma_dag_in_nam_false(g: &PDAG, tm: Seq<bool>, v: int)
    requires
        g.wf(),
        g.is_dag(),
    ensures
        !in_nam(g, tm, v),
{
    if in_nam(g, tm, v) {
        let e = choose|e: Edge|
            reaches(MachineKind::PdNam, g, tm, Seq::empty(), (e, v, WalkStatus::PdNam));
        let p = choose|p: Seq<Trip>|
            is_walk(MachineKind::PdNam, g, tm, Seq::empty(), p) && p.last() == (
                e,
                v,
                WalkStatus::PdNam,
            );
        lemma_nam_empty_without_undirected(g, tm, Seq::empty(), p);
    }
}

/// Computes the parent adjustment identification distance between an
/// estimated `guess` graph and a true `truth` graph on the same nodes:
/// the number of ordered pairs the guess would mislead on, and the number of
/// ordered pairs compared.
pub fn parent_aid(truth: &PDAG, guess: &PDAG) -> (r: (usize, usize))
    requires
        truth.wf(),
        guess.wf(),
        truth.n_nodes == guess.n_nodes,
        truth.n_nodes >= 2,
        truth.n() * truth.n() <= usize::MAX,
    ensures
        r.0 == parent_aid_count(truth, guess, truth.n()),
        r.1 == truth.n() * (truth.n() - 1),
        r.0 <= r.1,
{
    let n = truth.n_nodes;
    let mut mistakes: usize = 0;
    let mut treatment: usize = 0;
    while treatment < n
        invariant
            truth.wf(),
            guess.wf(),
            truth.n_nodes == guess.n_nodes,
            n == truth.n_nodes,
            n >= 2,
            truth.n() * truth.n() <= usize::MAX,
            treatment <= n,
            mistakes == parent_aid_count(truth, guess, treatment as int),
            mistakes <= treatment * (n as int - 1),
        decreases n - treatment,
    {
        proof {
            lemma_parent_aid_count_bound(truth, guess, treatment as int);
        }
        let mut tl: Vec<usize> = Vec::new();
        tl.push(treatment);
        let ghost tm = single_mask(treatment as int, truth.n());
        proof {
            assert(tmask_of(tl@, truth.n()) =~= tm) by {
                assert forall|w: int| 0 <= w < truth.n() implies tmask_of(tl@, truth.n())[w] == (w
                    == treatment as int) by {
                    if tl@.contains(w as usize) {
                        let j = choose|j: int| 0 <= j < tl@.len() && tl@[j] == w as usize;
                        assert(j == 0);
                    }
                    if w == treatment as int {
                        assert(tl@[0] == treatment);
                    }
                }
            }
        }
        let nam_in_guess = if matches!(guess.pdag_type, Structure::CPDAG) {
            get_nam(guess, tl.as_slice())
        } else {
            mask_new(n)
        };
        proof {
            if guess.pdag_type == Structure::DAG {
                assert forall|y: int| 0 <= y < n implies nam_in_guess@[y] == in_nam(
                    guess,
                    tm,
                    y,
                ) by {
                    lemma_dag_in_nam_false(guess, tm, y);
                }
            }
        }
        let pa_slice = guess.parents_of(treatment);
        proof {
            assert forall|k: int| 0 <= k < pa_slice@.len() implies (#[trigger] pa_slice@[k])
                < n by {
                assert(guess.parents_seq(treatment as int).contains(pa_slice@[k]));
            }
        }
        let zmask = mask_from_list(n, pa_slice);
        let ghost zm = parent_set_mask(guess, treatment as int);
        proof {
            assert(zmask@ =~= zm) by {
                assert forall|w: int| 0 <= w < n implies zmask@[w] == guess.has_dir_edge(
                    w,
                    treatment as int,
                ) by {
                    if guess.has_dir_edge(w, treatment as int) {
                        assert(guess.parents_seq(treatment as int).contains(w as usize));
                    }
                    if zmask@[w] {
                        assert(guess.parents_seq(treatment as int).contains(w as usize));
                        assert(guess.children_seq(w).contains((treatment as int) as usize));
                    }
                }
            }
        }
        let (pd_truth, nam_truth, nva_truth) = get_pd_nam_nva(truth, tl.as_slice(), &zmask);

        let mut row: usize = 0;
        let mut y: usize = 0;
        while y < n
            invariant
                truth.wf(),
                guess.wf(),
                truth.n_nodes == guess.n_nodes,
                n == truth.n_nodes,
                treatment < n,
                y <= n,
                tm == single_mask(treatment as int, truth.n()),
                zm == parent_set_mask(guess, treatment as int),
                zmask@ == zm,
                zmask@.len() == n,
                pd_truth@.len() == n,
                nam_truth@.len() == n,
                nva_truth@.len() == n,
                nam_in_guess@.len() == n,
                forall|w: int| 0 <= w < n ==> pd_truth@[w] == in_pd(truth, tm, w),
                forall|w: int| 0 <= w < n ==> nam_truth@[w] == in_nam(truth, tm, w),
                forall|w: int| 0 <= w < n ==> nva_truth@[w] == in_nva(truth, tm, zm, w),
                forall|w: int| 0 <= w < n ==> nam_in_guess@[w] == in_nam(guess, tm, w),
                row == parent_aid_row(truth, guess, treatment as int, y as int),
                row <= y,
            decreases n - y,
        {
            if y != treatment {
                let not_claimed = zmask[y];
                let mistake = if not_claimed {
                    pd_truth[y]
                } else {
                    if nam_in_guess[y] != nam_truth[y] {
                        true
                    } else {
                        !nam_in_guess[y] && nva_truth[y]
                    }
                };
                proof {
                    assert(mistake == parent_aid_mistake(
                        truth,
                        guess,
                        treatment as int,
                        y as int,
                    ));
                }
                if mistake {
                    row += 1;
                }
            }
            y += 1;
        }
        proof {
            lemma_parent_aid_row_bound(truth, guess, treatment as int, n as int);
            assert((treatment + 1) * (n as int - 1) == treatment * (n as int - 1) + (n as int - 1))
                by (nonlinear_arith);
            assert((treatment + 1) * (n as int - 1) <= n * n) by (nonlinear_arith)
                requires
                    0 <= treatment < n,
            ;
        }
        mistakes += row;
        treatment += 1;
    }
    proof {
        lemma_parent_aid_count_bound(truth, guess, n as int);
        assert(n * (n as int - 1) <= n * n) by (nonlinear_arith);
    }
    (mistakes, n * (n - 1))
}

/// The number of mistakes among the first `upto` selected pairs.
pub open spec fn parent_aid_pairs_count(
    truth: &PDAG,
    guess: &PDAG,
    pairs: Seq<(usize, usize)>,
    upto: int,
) -> int
    decreases upto,
{
    if upto <= 0 {
        0
    } else {
        parent_aid_pairs_count(truth, guess, pairs, upto - 1) + if parent_aid_mistake(
            truth,
            guess,
            pairs[upto - 1].0 as int,
            pairs[upto - 1].1 as int,
        ) {
            1int
        } else {
            0int
        }
    }
}

proof fn lemma_parent_aid_pairs_count_bound(
    truth: &PDAG,
    guess: &PDAG,
    pairs: Seq<(usize, usize)>,
    upto: int,
)
    requires
        0 <= upto,
    ensures
        0 <= parent_aid_pairs_count(truth, guess, pairs, upto) <= upto,
    decreases upto,
{
    if upto > 0 {
        lemma_parent_aid_pairs_count_bound(truth, guess, pairs, upto - 1);
    }
}

/// Computes the parent adjustment identification distance over the selected
/// ordered (treatment, effect) pairs only: the number of graded mistakes and
/// the number of pairs graded.
pub fn parent_aid_selected_pairs(truth: &PDAG, guess: &PDAG, pairs: &[(usize, usize)]) -> (r: (
    usize,
    usize,
))
    requires
        truth.wf(),
        guess.wf(),
        truth.n_nodes == guess.n_nodes,
        truth.n_nodes >= 2,
        forall|k: int|
            0 <= k < pairs@.len() ==> (#[trigger] pairs@[k]).0 < truth.n_nodes && pairs@[k].1
                < truth.n_nodes && pairs@[k].0 != pairs@[k].1,
    ensures
        r.0 == parent_aid_pairs_count(truth, guess, pairs@, pairs@.len() as int),
        r.1 == pairs@.len(),
        r.0 <= r.1,
{
    let n = truth.n_nodes;
    let mut mistakes: usize = 0;
    let mut k: usize = 0;
    while k < pairs.len()
        invariant
            truth.wf(),
            guess.wf(),
            truth.n_nodes == guess.n_nodes,
            n == truth.n_nodes,
            n >= 2,
            forall|j: int|
                0 <= j < pairs@.len() ==> (#[trigger] pairs@[j]).0 < n && pairs@[j].1 < n
                    && pairs@[j].0 != pairs@[j].1,
            k <= pairs@.len(),
            mistakes == parent_aid_pairs_count(truth, guess, pairs@, k as int),
            mistakes <= k,
        decreases pairs@.len() - k,
    {
        let (treatment, y) = pairs[k];
        let mut tl: Vec<usize> = Vec::new();
        tl.push(treatment);
        let ghost tm = single_mask(treatment as int, truth.n());
        proof {
            assert(tmask_of(tl@, truth.n()) =~= tm) by {
                assert forall|w: int| 0 <= w < truth.n() implies tmask_of(tl@, truth.n())[w] == (w
                    == treatment as int) by {
                    if tl@.contains(w as usize) {
                        let j = choose|j: int| 0 <= j < tl@.len() && tl@[j] == w as usize;
                        assert(j == 0);
                    }
                    if w == treatment as int {
                        assert(tl@[0] == treatment);
                    }
                }
            }
        }
        let nam_in_guess = if matches!(guess.pdag_type, Structure::CPDAG) {
            get_nam(guess, tl.as_slice())
        } else {
            mask_new(n)
        };
        proof {
            if guess.pdag_type == Structure::DAG {
                assert forall|w: int| 0 <= w < n implies nam_in_guess@[w] == in_nam(
                    guess,
                    tm,
                    w,
                ) by {
                    lemma_dag_in_nam_false(guess, tm, w);
                }
            }
        }
        let pa_slice = guess.parents_of(treatment);
        proof {
            assert forall|j: int| 0 <= j < pa_slice@.len() implies (#[trigger] pa_slice@[j])
                < n by {
                assert(guess.parents_seq(treatment as int).contains(pa_slice@[j]));
            }
        }
        let zmask = mask_from_list(n, pa_slice);
        let ghost zm = parent_set_mask(guess, treatment as int);
        proof {
            assert(zmask@ =~= zm) by {
                assert forall|w: int| 0 <= w < n implies zmask@[w] == guess.has_dir_edge(
                    w,
                    treatment as int,
                ) by {
                    if guess.has_dir_edge(w, treatment as int) {
                        assert(guess.parents_seq(treatment as int).contains(w as usize));
                    }
                    if zmask@[w] {
                        assert(guess.parents_seq(treatment as int).contains(w as usize));
                        assert(guess.children_seq(w).contains((treatment as int) as usize));
                    }
                }
            }
        }
        let (pd_truth, nam_truth, nva_truth) = get_pd_nam_nva(truth, tl.as_slice(), &zmask);
        let not_claimed = zmask[y];
        let mistake = if not_claimed {
            pd_truth[y]
        } else {
            if nam_in_guess[y] != nam_truth[y] {
                true
            } else {
                !nam_in_guess[y] && nva_truth[y]
            }
        };
        proof {
            assert(mistake == parent_aid_mistake(truth, guess, treatment as int, y as int));
            assert(pairs@[k as int] == (treatment, y));
        }
        if mistake {
            mistakes += 1;
        }
        k += 1;
    }
    (mistakes, pairs.len())
}

/// Node `v` is a strict descendant of `t`: a directed path of at least one
/// edge runs from `t` to `v`.
pub open spec fn strict_descendant(g: &PDAG, t: int, v: int) -> bool {
    exists|q: Seq<int>|
        dpath(g, q) && q.len() >= 2 && q[0] == t && q.last() == v
}

/// Positions rise strictly along a directed path of at least one edge.
pub proof fn lemma_dpath_ord_monotone(g: &PDAG, ord: Seq<int>, q: Seq<int>)
    requires
        g.edge_monotone(ord),
        dpath(g, q),
        q.len() >= 2,
    ensures
        ord[q[0]] < ord[q.last()],
    decreases q.len(),
{
    if q.len() == 2 {
        assert(g.has_dir_edge(q[0int], q[0int + 1]));
    } else {
        let q2 = q.drop_last();
        assert(dpath(g, q2)) by {
            assert forall|k: int| 0 <= k < q2.len() - 1 implies g.has_dir_edge(
                q2[k],
                #[trigger] q2[k + 1],
            ) by {
                assert(q2[k] == q[k] && q2[k + 1] == q[k + 1]);
                assert(g.has_dir_edge(q[k], q[k + 1]));
            }
        }
        lemma_dpath_ord_monotone(g, ord, q2);
        let m = q.len() - 2;
        assert(q2.last() == q[m]);
        assert(g.has_dir_edge(q[m], q[m + 1]));
    }
}

/// A node cannot be both a strict descendant of `t` and carry an edge back
/// into `t`, nor be an ancestor of `t`, in an acyclic graph.
pub proof fn lemma_no_cycle_back(g: &PDAG, t: int, v: int)
    requires
        g.wf(),
        strict_descendant(g, t, v),
    ensures
        !g.has_dir_edge(v, t),
        v != t,
        !super::gensearch_wrappers::is_ancestor_of(g, seq![t as usize], v),
{
    let ord = choose|ord: Seq<int>| g.edge_monotone(ord);
    let q = choose|q: Seq<int>|
        dpath(g, q) && q.len() >= 2 && q[0] == t && q.last() == v;
    lemma_dpath_ord_monotone(g, ord, q);
    assert(ord[t] < ord[v]);
    if g.has_dir_edge(v, t) {
        assert(ord[v] < ord[t]);
    }
    if super::gensearch_wrappers::is_ancestor_of(g, seq![t as usize], v) {
        let q2 = choose|q2: Seq<int>|
            dpath(g, q2) && q2[0] == v && seq![t as usize].contains(q2.last() as usize);
        assert(q2.last() as usize == t as usize) by {
            let one: Seq<usize> = seq![t as usize];
            let j = choose|j: int| 0 <= j < one.len() && one[j] == q2.last() as usize;
            assert(one[j] == one[0int]);
        }
        assert((q2.last() as usize) as int == q2.last());
        assert(q2.last() == t);
        if q2.len() == 1 {
            assert(v == t);
            assert(false);
        } else {
            lemma_dpath_ord_monotone(g, ord, q2);
            assert(ord[v] < ord[t]);
            assert(false);
        }
    }
}

/// In a DAG, walks of the unconditioned merged machine rooted at `t` reach
/// exactly the strict descendants of `t`, always with amenable status.
proof fn lemma_pdnam_walks_dag(g: &PDAG, t: int, p: Seq<Trip>)
    requires
        g.wf(),
        g.is_dag(),
        0 <= t < g.n(),
        is_walk(MachineKind::PdNam, g, single_mask(t, g.n()), Seq::empty(), p),
    ensures
        p.last().2 == WalkStatus::Init ==> p.last().1 == t,
        p.last().2 == WalkStatus::PdAm ==> strict_descendant(g, t, p.last().1),
        p.last().2 != WalkStatus::PdNam,
    decreases p.len(),
{
    let tm = single_mask(t, g.n());
    if p.len() == 1 {
        assert(p.last() == p[0]);
        assert(tm[p[0].1]);
    } else {
        let q = p.drop_last();
        assert(is_walk(MachineKind::PdNam, g, tm, Seq::empty(), q)) by {
            assert forall|k: int| 0 <= k < q.len() - 1 implies step_ok(
                MachineKind::PdNam,
                g,
                tm,
                Seq::empty(),
                q[k],
                #[trigger] q[k + 1],
            ) by {
                assert(q[k] == p[k] && q[k + 1] == p[k + 1]);
                assert(step_ok(MachineKind::PdNam, g, tm, Seq::empty(), p[k], p[k + 1]));
            }
        }
        lemma_pdnam_walks_dag(g, t, q);
        let k = p.len() - 2;
        assert(q.last() == p[k]);
        assert(step_ok(MachineKind::PdNam, g, tm, Seq::empty(), p[k], p[k + 1]));
        let cur = p.last();
        if cur.0 == Edge::Undirected {
            assert(g.has_und_edge(p[k].1, cur.1));
            assert(g.und_seq(p[k].1).contains(cur.1 as usize));
            assert(false);
        }
        assert(cur.0 == Edge::Incoming);
        assert(g.has_dir_edge(p[k].1, cur.1));
        if p[k].2 == WalkStatus::Init {
            let path: Seq<int> = seq![t, cur.1];
            assert(dpath(g, path)) by {
                assert(path[0int] == t && path[0int + 1] == cur.1);
                assert(g.has_dir_edge(t, cur.1));
            }
            assert(path.last() == cur.1);
            assert(strict_descendant(g, t, cur.1));
        } else {
            assert(p[k].2 == WalkStatus::PdAm);
            let path = choose|path: Seq<int>|
                dpath(g, path) && path.len() >= 2 && path[0] == t && path.last() == p[k].1;
            let path2 = path.push(cur.1);
            assert(dpath(g, path2)) by {
                assert forall|j: int| 0 <= j < path2.len() implies 0 <= #[trigger] path2[j]
                    < g.n() by {
                    if j < path.len() {
                        assert(path2[j] == path[j]);
                    }
                }
                assert forall|j: int| 0 <= j < path2.len() - 1 implies g.has_dir_edge(
                    path2[j],
                    #[trigger] path2[j + 1],
                ) by {
                    if j < path.len() - 1 {
                        assert(path2[j] == path[j] && path2[j + 1] == path[j + 1]);
                        assert(g.has_dir_edge(path[j], path[j + 1]));
                    } else {
                        assert(path2[j] == path.last() && path2[j + 1] == cur.1);
                    }
                }
            }
            assert(path2[0] == t && path2.last() == cur.1);
            assert(strict_descendant(g, t, cur.1));
        }
    }
}

/// In a DAG, a node other than `t` is a possible descendant of `{t}` exactly
/// when it is a strict descendant.
pub proof fn lemma_dag_in_pd_is_descendant(g: &PDAG, t: int, y: int)
    requires
        g.wf(),
        g.is_dag(),
        0 <= t < g.n(),
    ensures
        in_pd(g, single_mask(t, g.n()), y) ==> (y == t || strict_descendant(g, t, y)),
{
    let tm = single_mask(t, g.n());
    if in_pd(g, tm, y) && y != t {
        if exists|e: Edge|
            reaches(MachineKind::PdNam, g, tm, Seq::empty(), (e, y, WalkStatus::PdAm)) {
            let e = choose|e: Edge|
                reaches(MachineKind::PdNam, g, tm, Seq::empty(), (e, y, WalkStatus::PdAm));
            let p = choose|p: Seq<Trip>|
                is_walk(MachineKind::PdNam, g, tm, Seq::empty(), p) && p.last() == (
                    e,
                    y,
                    WalkStatus::PdAm,
                );
            lemma_pdnam_walks_dag(g, t, p);
        } else {
            let e = choose|e: Edge|
                reaches(MachineKind::PdNam, g, tm, Seq::empty(), (e, y, WalkStatus::PdNam));
            let p = choose|p: Seq<Trip>|
                is_walk(MachineKind::PdNam, g, tm, Seq::empty(), p) && p.last() == (
                    e,
                    y,
                    WalkStatus::PdNam,
                );
            lemma_pdnam_walks_dag(g, t, p);
        }
    }
}

/// In a DAG, under an adjustment set that contains every parent of `t` and
/// no descendant of `t`, the conditioned machine's walks rooted at `t` are
/// completely classified: causal walks stay open and amenable, non-causal
/// walks stop at the parents of `t`, and no other status is reachable.
proof fn lemma_cond_walks_dag(g: &PDAG, t: int, zm: Seq<bool>, p: Seq<Trip>)
    requires
        g.wf(),
        g.is_dag(),
        0 <= t < g.n(),
        zm.len() == g.n(),
        forall|v: int| 0 <= v < g.n() && #[trigger] zm[v] ==> v != t && !strict_descendant(g, t, v),
        forall|v: int| #[trigger] g.has_dir_edge(v, t) ==> zm[v],
        is_walk(MachineKind::Cond, g, single_mask(t, g.n()), zm, p),
    ensures
        p.last().2 == WalkStatus::Init ==> p.last().1 == t,
        p.last().2 == WalkStatus::PdOpenAm ==> strict_descendant(g, t, p.last().1) && p.last().0
            == Edge::Incoming,
        p.last().2 != WalkStatus::PdOpenNam,
        p.last().2 != WalkStatus::PdBlockedNam,
        p.last().2 != WalkStatus::PdBlockedAm,
        p.last().2 == WalkStatus::NonCausalOpen ==> g.has_dir_edge(p.last().1, t) && p.last().0
            == Edge::Outgoing && zm[p.last().1],
    decreases p.len(),
{
    let tm = single_mask(t, g.n());
    if p.len() == 1 {
        assert(p.last() == p[0]);
        assert(tm[p[0].1]);
    } else {
        let q = p.drop_last();
        assert(is_walk(MachineKind::Cond, g, tm, zm, q)) by {
            assert forall|k: int| 0 <= k < q.len() - 1 implies step_ok(
                MachineKind::Cond,
                g,
                tm,
                zm,
                q[k],
                #[trigger] q[k + 1],
            ) by {
                assert(q[k] == p[k] && q[k + 1] == p[k + 1]);
                assert(step_ok(MachineKind::Cond, g, tm, zm, p[k], p[k + 1]));
            }
        }
        lemma_cond_walks_dag(g, t, zm, q);
        let k = p.len() - 2;
        assert(q.last() == p[k]);
        assert(step_ok(MachineKind::Cond, g, tm, zm, p[k], p[k + 1]));
        let prev = p[k];
        let cur = p.last();
        if cur.0 == Edge::Undirected {
            assert(g.has_und_edge(prev.1, cur.1));
            assert(g.und_seq(prev.1).contains(cur.1 as usize));
            assert(false);
        }
        if prev.2 == WalkStatus::Init {
            assert(prev.1 == t);
            if cur.0 == Edge::Incoming {
                assert(g.has_dir_edge(t, cur.1));
                let path: Seq<int> = seq![t, cur.1];
                assert(dpath(g, path)) by {
                    assert(path[0int] == t && path[0int + 1] == cur.1);
                    assert(g.has_dir_edge(t, cur.1));
                }
                assert(path.last() == cur.1);
                assert(strict_descendant(g, t, cur.1));
            } else {
                assert(cur.0 == Edge::Outgoing);
                assert(g.has_dir_edge(cur.1, t));
                assert(zm[cur.1]);
            }
        } else if prev.2 == WalkStatus::PdOpenAm {
            assert(strict_descendant(g, t, prev.1) && prev.0 == Edge::Incoming);
            assert(!zm[prev.1]);
            if cur.0 == Edge::Incoming {
                // the passage is open, so the status stays open amenable
                assert(blocked_of(zm, prev.0, prev.1, cur.0) == zm[prev.1]);
                assert(cur.2 == WalkStatus::PdOpenAm);
                assert(g.has_dir_edge(prev.1, cur.1));
                let path = choose|path: Seq<int>|
                    dpath(g, path) && path.len() >= 2 && path[0] == t && path.last() == prev.1;
                let path2 = path.push(cur.1);
                assert(dpath(g, path2)) by {
                    assert forall|j: int| 0 <= j < path2.len() implies 0 <= #[trigger] path2[j]
                        < g.n() by {
                        if j < path.len() {
                            assert(path2[j] == path[j]);
                        }
                    }
                    assert forall|j: int| 0 <= j < path2.len() - 1 implies g.has_dir_edge(
                        path2[j],
                        #[trigger] path2[j + 1],
                    ) by {
                        if j < path.len() - 1 {
                            assert(path2[j] == path[j] && path2[j + 1] == path[j + 1]);
                            assert(g.has_dir_edge(path[j], path[j + 1]));
                        } else {
                            assert(path2[j] == path.last() && path2[j + 1] == cur.1);
                        }
                    }
                }
                assert(path2[0] == t && path2.last() == cur.1);
                assert(strict_descendant(g, t, cur.1));
            } else {
                // a collider passage out of a descendant is blocked
                assert(cur.0 == Edge::Outgoing);
                assert(blocked_of(zm, prev.0, prev.1, cur.0) == !zm[prev.1]);
                assert(false);
            }
        } else if prev.2 == WalkStatus::NonCausalOpen {
            // every continuation of a stopped non-causal walk is blocked
            assert(prev.0 == Edge::Outgoing && zm[prev.1]);
            assert(blocked_of(zm, prev.0, prev.1, cur.0) == zm[prev.1]);
            assert(false);
        } else {
            assert(false);
        }
    }
}

/// In a DAG, under an adjustment set that contains every parent of `t` and
/// no descendant of `t`, the only targets not validly adjusted for are the
/// members of the adjustment set itself.
pub proof fn lemma_dag_nva_within_z(g: &PDAG, t: int, zm: Seq<bool>, y: int)
    requires
        g.wf(),
        g.is_dag(),
        0 <= t < g.n(),
        zm.len() == g.n(),
        forall|v: int| 0 <= v < g.n() && #[trigger] zm[v] ==> v != t && !strict_descendant(g, t, v),
        forall|v: int| #[trigger] g.has_dir_edge(v, t) ==> zm[v],
        in_nva(g, single_mask(t, g.n()), zm, y),
    ensures
        0 <= y < g.n() && zm[y],
{
    let tm = single_mask(t, g.n());
    if !(0 <= y < g.n() && zm[y]) {
        if exists|e: Edge| reaches(MachineKind::Cond, g, tm, zm, (e, y, WalkStatus::PdOpenNam)) {
            let e = choose|e: Edge|
                reaches(MachineKind::Cond, g, tm, zm, (e, y, WalkStatus::PdOpenNam));
            let p = choose|p: Seq<Trip>|
                is_walk(MachineKind::Cond, g, tm, zm, p) && p.last() == (
                    e,
                    y,
                    WalkStatus::PdOpenNam,
                );
            lemma_cond_walks_dag(g, t, zm, p);
        } else if exists|e: Edge|
            reaches(MachineKind::Cond, g, tm, zm, (e, y, WalkStatus::PdBlockedNam)) {
            let e = choose|e: Edge|
                reaches(MachineKind::Cond, g, tm, zm, (e, y, WalkStatus::PdBlockedNam));
            let p = choose|p: Seq<Trip>|
                is_walk(MachineKind::Cond, g, tm, zm, p) && p.last() == (
                    e,
                    y,
                    WalkStatus::PdBlockedNam,
                );
            lemma_cond_walks_dag(g, t, zm, p);
        } else if exists|e: Edge|
            reaches(MachineKind::Cond, g, tm, zm, (e, y, WalkStatus::PdBlockedAm)) {
            let e = choose|e: Edge|
                reaches(MachineKind::Cond, g, tm, zm, (e, y, WalkStatus::PdBlockedAm));
            let p = choose|p: Seq<Trip>|
                is_walk(MachineKind::Cond, g, tm, zm, p) && p.last() == (
                    e,
                    y,
                    WalkStatus::PdBlockedAm,
                );
            lemma_cond_walks_dag(g, t, zm, p);
        } else {
            let e = choose|e: Edge|
                reaches(MachineKind::Cond, g, tm, zm, (e, y, WalkStatus::NonCausalOpen));
            let p = choose|p: Seq<Trip>|
                is_walk(MachineKind::Cond, g, tm, zm, p) && p.last() == (
                    e,
                    y,
                    WalkStatus::NonCausalOpen,
                );
            lemma_cond_walks_dag(g, t, zm, p);
        }
    }
}

/// On a DAG, Parent-AID never grades a pair of the graph against itself a
/// mistake: the parents of the treatment form a valid adjustment set.
pub proof fn lemma_parent_aid_mistake_self(g: &PDAG, t: int, y: int)
    requires
        g.wf(),
        g.is_dag(),
        0 <= t < g.n(),
        0 <= y < g.n(),
        y != t,
    ensures
        !parent_aid_mistake(g, g, t, y),
{
    let tm = single_mask(t, g.n());
    let zm = parent_set_mask(g, t);
    assert forall|v: int| 0 <= v < g.n() && #[trigger] zm[v] implies v != t && !strict_descendant(
        g,
        t,
        v,
    ) by {
        assert(g.has_dir_edge(v, t));
        if v == t {
            assert(g.children_seq(t).contains(t as usize));
        }
        if strict_descendant(g, t, v) {
            lemma_no_cycle_back(g, t, v);
        }
    }
    assert forall|v: int| #[trigger] g.has_dir_edge(v, t) implies zm[v] by {}
    lemma_dag_in_nam_false(g, tm, y);
    if parent_aid_mistake(g, g, t, y) {
        if g.has_dir_edge(y, t) {
            assert(in_pd(g, tm, y));
            lemma_dag_in_pd_is_descendant(g, t, y);
            lemma_no_cycle_back(g, t, y);
            assert(false);
        } else {
            assert(in_nva(g, tm, zm, y));
            lemma_dag_nva_within_z(g, t, zm, y);
            assert(g.has_dir_edge(y, t));
            assert(false);
        }
    }
}

/// On a DAG, the Parent-AID of a graph against itself is zero: mistakes are
/// counted on no pair.
pub proof fn lemma_parent_aid_reflexive(g: &PDAG)
    requires
        g.wf(),
        g.is_dag(),
    ensures
        parent_aid_count(g, g, g.n()) == 0,
{
    lemma_parent_aid_count_reflexive(g, g.n());
}

proof fn lemma_parent_aid_row_reflexive(g: &PDAG, t: int, upto: int)
    requires
        g.wf(),
        g.is_dag(),
        0 <= t < g.n(),
        0 <= upto <= g.n(),
    ensures
        parent_aid_row(g, g, t, upto) == 0,
    decreases upto,
{
    if upto > 0 {
        lemma_parent_aid_row_reflexive(g, t, upto - 1);
        if upto - 1 != t {
            lemma_parent_aid_mistake_self(g, t, upto - 1);
        }
    }
}

proof fn lemma_parent_aid_count_reflexive(g: &PDAG, upto: int)
    requires
        g.wf(),
        g.is_dag(),
        0 <= upto <= g.n(),
    ensures
        parent_aid_count(g, g, upto) == 0,
    decreases upto,
{
    if upto > 0 {
        lemma_parent_aid_count_reflexive(g, upto - 1);
        lemma_parent_aid_row_reflexive(g, upto - 1, g.n());
    }
}

} // verus!
