//! The standard queries built on the generalized search: ancestors,
//! descendants, parents, children, and proper ancestors. Each is specified
//! directly in terms of directed paths in the graph.

use vstd::prelude::*;
use vstd::slice::slice_to_vec;

use super::gensearch::{
    gensearch, gs_emitted, gs_is_root, gs_is_walk, gs_move, gs_reaches, gs_step_ok,
};
use super::reachability::{in_d, is_walk, reaches, step_ok, tmask_of, MachineKind, Trip, WalkStatus};
use super::ruletables::{Children, Descendants, Parents, ProperAncestors, RuleTable};
use crate::partially_directed_acyclic_graph::{Edge, PDAG};

verus! {

/// A directed path: consecutive nodes joined by directed edges.
pub open spec fn dpath(g: &PDAG, p: Seq<int>) -> bool {
    &&& p.len() >= 1
    &&& forall|k: int| 0 <= k < p.len() ==> 0 <= #[trigger] p[k] < g.n()
    &&& forall|k: int| 0 <= k < p.len() - 1 ==> g.has_dir_edge(p[k], #[trigger] p[k + 1])
}

/// A directed path that avoids the treatment set everywhere but possibly at
/// its endpoint.
pub open spec fn proper_dpath(g: &PDAG, t: Seq<usize>, p: Seq<int>) -> bool {
    &&& dpath(g, p)
    &&& forall|k: int| 0 <= k < p.len() - 1 ==> !t.contains((#[trigger] p[k]) as usize)
}

/// Node `w` is an ancestor of the set `ys` (every node is an ancestor of
/// itself).
pub open spec fn is_ancestor_of(g: &PDAG, ys: Seq<usize>, w: int) -> bool {
    exists|p: Seq<int>| dpath(g, p) && p[0] == w && ys.contains(p.last() as usize)
}

/// Node `w` is a proper ancestor of the set `ys` with respect to the
/// treatment set `t`: some directed path from `w` into `ys` meets `t` at most
/// at its endpoint.
pub open spec fn is_proper_ancestor_of(g: &PDAG, t: Seq<usize>, ys: Seq<usize>, w: int) -> bool {
    exists|p: Seq<int>| proper_dpath(g, t, p) && p[0] == w && ys.contains(p.last() as usize)
}

/// Node `w` is a descendant of the set `ss` (every node is a descendant of
/// itself).
pub open spec fn is_descendant_of(g: &PDAG, ss: Seq<usize>, w: int) -> bool {
    exists|p: Seq<int>| dpath(g, p) && p.last() == w && ss.contains(p[0] as usize)
}

/// Node `w` is a parent of some node of `ss`.
pub open spec fn is_parent_of_set(g: &PDAG, ss: Seq<usize>, w: int) -> bool {
    exists|s: usize| ss.contains(s) && g.has_dir_edge(w, s as int)
}

/// Node `w` is a child of some node of `ss`.
pub open spec fn is_child_of_set(g: &PDAG, ss: Seq<usize>, w: int) -> bool {
    exists|s: usize| ss.contains(s) && g.has_dir_edge(s as int, w)
}

/// A proper directed chain of length at least two into `ys` makes its head
/// reachable in the proper-ancestors search.
proof fn lemma_pa_reaches(g: &PDAG, rt: &ProperAncestors, ys: Seq<usize>, q: Seq<int>)
    requires
        proper_dpath(g, rt.treatments@, q),
        q.len() >= 2,
        ys.contains(q.last() as usize),
    ensures
        gs_reaches(g, rt, ys, (Edge::Outgoing, q[0])),
    decreases q.len(),
{
    let target: (Edge, int) = (Edge::Outgoing, q[0]);
    assert(g.has_dir_edge(q[0int], q[0int + 1]));
    assert(!rt.treatments@.contains(q[0] as usize));
    if q.len() == 2 {
        let root: (Edge, int) = (Edge::Init, q[1]);
        assert(q.last() == q[1]);
        let w: Seq<(Edge, int)> = seq![root, target];
        assert(gs_is_root(g, ys, root));
        assert(gs_step_ok(g, rt, root, target));
        assert(gs_is_walk(g, rt, ys, w)) by {
            assert forall|k: int| 0 <= k < w.len() - 1 implies gs_step_ok(
                g,
                rt,
                w[k],
                #[trigger] w[k + 1],
            ) by {
                assert(w[0] == root && w[1] == target);
            }
        }
        assert(w.last() == target);
    } else {
        let q2 = q.subrange(1, q.len() as int);
        assert(proper_dpath(g, rt.treatments@, q2)) by {
            assert forall|k: int| 0 <= k < q2.len() - 1 implies g.has_dir_edge(
                q2[k],
                #[trigger] q2[k + 1],
            ) by {
                assert(q2[k] == q[k + 1] && q2[k + 1] == q[k + 2]);
                assert(g.has_dir_edge(q[k + 1], q[k + 1 + 1]));
            }
            assert forall|k: int| 0 <= k < q2.len() - 1 implies !rt.treatments@.contains(
                (#[trigger] q2[k]) as usize,
            ) by {
                assert(q2[k] == q[k + 1]);
                assert(!rt.treatments@.contains((q[k + 1]) as usize));
            }
        }
        assert(q2.last() == q.last());
        lemma_pa_reaches(g, rt, ys, q2);
        let prev: (Edge, int) = (Edge::Outgoing, q[1]);
        assert(q2[0] == q[1]);
        assert(gs_step_ok(g, rt, prev, target));
        let w = choose|w: Seq<(Edge, int)>| gs_is_walk(g, rt, ys, w) && w.last() == prev;
        let w2 = w.push(target);
        assert(gs_is_walk(g, rt, ys, w2)) by {
            assert(w2[0] == w[0]);
            assert forall|j: int| 0 <= j < w2.len() - 1 implies gs_step_ok(
                g,
                rt,
                w2[j],
                #[trigger] w2[j + 1],
            ) by {
                if j < w.len() - 1 {
                    assert(w2[j] == w[j] && w2[j + 1] == w[j + 1]);
                    assert(gs_step_ok(g, rt, w[j], w[j + 1]));
                } else {
                    assert(w2[j] == w.last() && w2[j + 1] == target);
                }
            }
        }
        assert(w2.last() == target);
    }
}

/// A proper directed chain of length at least two into `ys` makes its head
/// emitted by the proper-ancestors search.
proof fn lemma_pa_emitted(g: &PDAG, rt: &ProperAncestors, ys: Seq<usize>, q: Seq<int>)
    requires
        proper_dpath(g, rt.treatments@, q),
        q.len() >= 2,
        ys.contains(q.last() as usize),
    ensures
        gs_emitted(g, rt, ys, q[0]),
{
    assert(g.has_dir_edge(q[0int], q[0int + 1]));
    assert(!rt.treatments@.contains(q[0] as usize));
    let a: (Edge, int) = if q.len() == 2 {
        (Edge::Init, q[1])
    } else {
        (Edge::Outgoing, q[1])
    };
    if q.len() == 2 {
        assert(q.last() == q[1]);
        let w: Seq<(Edge, int)> = seq![a];
        assert(gs_is_walk(g, rt, ys, w));
        assert(w.last() == a);
        assert(gs_reaches(g, rt, ys, a));
    } else {
        let q2 = q.subrange(1, q.len() as int);
        assert(proper_dpath(g, rt.treatments@, q2)) by {
            assert forall|k: int| 0 <= k < q2.len() - 1 implies g.has_dir_edge(
                q2[k],
                #[trigger] q2[k + 1],
            ) by {
                assert(q2[k] == q[k + 1] && q2[k + 1] == q[k + 2]);
                assert(g.has_dir_edge(q[k + 1], q[k + 1 + 1]));
            }
            assert forall|k: int| 0 <= k < q2.len() - 1 implies !rt.treatments@.contains(
                (#[trigger] q2[k]) as usize,
            ) by {
                assert(q2[k] == q[k + 1]);
                assert(!rt.treatments@.contains((q[k + 1]) as usize));
            }
        }
        assert(q2.last() == q.last());
        lemma_pa_reaches(g, rt, ys, q2);
        assert(q2[0] == q[1]);
        assert(gs_reaches(g, rt, ys, a));
    }
    assert(gs_move(g, a.1, Edge::Outgoing, q[0]));
    assert((q[0] as usize) as int == q[0]);
    assert(rt.lookup_spec(a.0, a.1 as usize, Edge::Outgoing, q[0] as usize).1);
}

/// Every pair reached by the proper-ancestors search stands at the head of a
/// proper directed chain into the starting set; a non-root pair is itself
/// outside the treatment set.
proof fn lemma_pa_walk_path(g: &PDAG, rt: &ProperAncestors, ys: Seq<usize>, p: Seq<(Edge, int)>)
    requires
        gs_is_walk(g, rt, ys, p),
    ensures
        exists|q: Seq<int>|
            proper_dpath(g, rt.treatments@, q) && q[0] == p.last().1 && ys.contains(
                q.last() as usize,
            ),
        p.last().0 != Edge::Init ==> !rt.treatments@.contains(p.last().1 as usize),
    decreases p.len(),
{
    if p.len() == 1 {
        let q: Seq<int> = seq![p[0].1];
        assert(proper_dpath(g, rt.treatments@, q));
        assert(q[0] == p.last().1 && ys.contains(q.last() as usize));
    } else {
        let pp = p.drop_last();
        assert(gs_is_walk(g, rt, ys, pp)) by {
            assert forall|k: int| 0 <= k < pp.len() - 1 implies gs_step_ok(
                g,
                rt,
                pp[k],
                #[trigger] pp[k + 1],
            ) by {
                assert(pp[k] == p[k] && pp[k + 1] == p[k + 1]);
                assert(gs_step_ok(g, rt, p[k], p[k + 1]));
            }
        }
        lemma_pa_walk_path(g, rt, ys, pp);
        let k = p.len() - 2;
        assert(pp.last() == p[k]);
        assert(gs_step_ok(g, rt, p[k], p[k + 1]));
        let last = p.last();
        // the step only continues to a parent outside the treatment set
        assert(last.0 == Edge::Outgoing);
        assert(g.has_dir_edge(last.1, p[k].1));
        assert((last.1 as usize) as int == last.1);
        assert(!rt.treatments@.contains(last.1 as usize));
        let q = choose|q: Seq<int>|
            proper_dpath(g, rt.treatments@, q) && q[0] == p[k].1 && ys.contains(
                q.last() as usize,
            );
        let q2 = seq![last.1] + q;
        assert(proper_dpath(g, rt.treatments@, q2)) by {
            assert(q2[0] == last.1);
            assert forall|j: int| 0 <= j < q2.len() implies 0 <= #[trigger] q2[j] < g.n() by {
                if j > 0 {
                    assert(q2[j] == q[j - 1]);
                }
            }
            assert forall|j: int| 0 <= j < q2.len() - 1 implies g.has_dir_edge(
                q2[j],
                #[trigger] q2[j + 1],
            ) by {
                if j == 0 {
                    assert(q2[0] == last.1 && q2[1] == q[0]);
                } else {
                    assert(q2[j] == q[j - 1] && q2[j + 1] == q[j]);
                    assert(g.has_dir_edge(q[j - 1], q[j - 1 + 1]));
                }
            }
            assert forall|j: int| 0 <= j < q2.len() - 1 implies !rt.treatments@.contains(
                (#[trigger] q2[j]) as usize,
            ) by {
                if j == 0 {
                } else {
                    assert(q2[j] == q[j - 1]);
                    if j - 1 < q.len() - 1 {
                        assert(!rt.treatments@.contains((q[j - 1]) as usize));
                    } else {
                        // the old endpoint is now interior: it was the node
                        // the previous pair stood on, which the walk only
                        // enters outside the treatment set (or it is a root
                        // of a two-pair walk, covered by the step's target)
                        assert(q.last() == q[j - 1]);
                        assert(q[j - 1] == p[k].1);
                        if p[k].0 == Edge::Init {
                            assert(false) by {
                                // a root pair can only be the first of the walk
                                assert(k > 0 ==> gs_step_ok(g, rt, p[k - 1], p[k]));
                                if k > 0 {
                                    assert(p[k].0 == Edge::Outgoing);
                                } else {
                                    // k == 0: q.len() == 1, so j - 1 == 0 and
                                    // j == 1 == q2.len() - 1, excluded
                                    assert(j < q2.len() - 1);
                                    assert(q2.len() == 1 + q.len());
                                }
                            }
                        } else {
                            assert(!rt.treatments@.contains(p[k].1 as usize));
                        }
                    }
                }
            }
        }
        assert(q2.last() == q.last());
        assert(q2[0] == p.last().1 && ys.contains(q2.last() as usize));
    }
}

/// Gets all proper ancestors of the response nodes, given the treatment
/// nodes: the responses themselves and every node with a directed path into
/// the responses that meets the treatment set at most at its endpoint.
pub fn get_proper_ancestors(g: &PDAG, treatments: &[usize], responses: &[usize]) -> (r: Vec<bool>)
    requires
        g.wf(),
        forall|k: int| 0 <= k < treatments@.len() ==> (#[trigger] treatments@[k]) < g.n_nodes,
        forall|k: int| 0 <= k < responses@.len() ==> (#[trigger] responses@[k]) < g.n_nodes,
    ensures
        r@.len() == g.n(),
        forall|w: int|
            0 <= w < g.n() ==> r@[w] == is_proper_ancestor_of(g, treatments@, responses@, w),
{
    let ruletable = ProperAncestors { treatments: slice_to_vec(treatments) };
    let ghost rt = ruletable;
    let res = gensearch(g, ruletable, responses, true);
    proof {
        assert(rt.treatments@ == treatments@);
        assert forall|w: int|
            0 <= w < g.n() implies res@[w] == is_proper_ancestor_of(
            g,
            treatments@,
            responses@,
            w,
        ) by {
            if res@[w] {
                if responses@.contains(w as usize) {
                    let q: Seq<int> = seq![w];
                    assert(proper_dpath(g, treatments@, q));
                    assert(q[0] == w && responses@.contains(q.last() as usize));
                } else {
                    assert(gs_emitted(g, &rt, responses@, w));
                    let (a, e2) = choose|a: (Edge, int), e2: Edge|
                        gs_reaches(g, &rt, responses@, a) && gs_move(g, a.1, e2, w)
                            && rt.lookup_spec(a.0, a.1 as usize, e2, w as usize).1;
                    assert(e2 == Edge::Outgoing);
                    assert((w as usize) as int == w);
                    assert(!rt.treatments@.contains(w as usize));
                    assert(g.has_dir_edge(w, a.1));
                    let p = choose|p: Seq<(Edge, int)>|
                        gs_is_walk(g, &rt, responses@, p) && p.last() == a;
                    lemma_pa_walk_path(g, &rt, responses@, p);
                    let q = choose|q: Seq<int>|
                        proper_dpath(g, rt.treatments@, q) && q[0] == a.1 && responses@.contains(
                            q.last() as usize,
                        );
                    let q2 = seq![w] + q;
                    assert(proper_dpath(g, treatments@, q2)) by {
                        assert(q2[0] == w);
                        assert forall|j: int| 0 <= j < q2.len() implies 0 <= #[trigger] q2[j]
                            < g.n() by {
                            if j > 0 {
                                assert(q2[j] == q[j - 1]);
                            }
                        }
                        assert forall|j: int| 0 <= j < q2.len() - 1 implies g.has_dir_edge(
                            q2[j],
                            #[trigger] q2[j + 1],
                        ) by {
                            if j == 0 {
                                assert(q2[0] == w && q2[1] == q[0]);
                            } else {
                                assert(q2[j] == q[j - 1] && q2[j + 1] == q[j]);
                                assert(g.has_dir_edge(q[j - 1], q[j - 1 + 1]));
                            }
                        }
                        assert forall|j: int| 0 <= j < q2.len() - 1 implies !treatments@.contains(
                            (#[trigger] q2[j]) as usize,
                        ) by {
                            if j > 0 {
                                assert(q2[j] == q[j - 1]);
                                assert(!rt.treatments@.contains((q[j - 1]) as usize));
                            }
                        }
                    }
                    assert(q2.last() == q.last());
                    assert(q2[0] == w && responses@.contains(q2.last() as usize));
                }
            } else {
                if is_proper_ancestor_of(g, treatments@, responses@, w) {
                    let q = choose|q: Seq<int>|
                        proper_dpath(g, treatments@, q) && q[0] == w && responses@.contains(
                            q.last() as usize,
                        );
                    if q.len() == 1 {
                        assert(q.last() == q[0]);
                        assert(responses@.contains(w as usize));
                    } else {
                        lemma_pa_emitted(g, &rt, responses@, q);
                        assert(gs_emitted(g, &rt, responses@, w));
                    }
                    assert(false);
                }
            }
        }
    }
    res
}

/// Ancestors are proper ancestors with an empty treatment set.
proof fn lemma_empty_proper(g: &PDAG, ys: Seq<usize>, w: int, empty: Seq<usize>)
    requires
        empty.len() == 0,
    ensures
        is_proper_ancestor_of(g, empty, ys, w) == is_ancestor_of(g, ys, w),
{
    assert forall|x: usize| !empty.contains(x) by {}
    if is_proper_ancestor_of(g, empty, ys, w) {
        let q = choose|q: Seq<int>|
            proper_dpath(g, empty, q) && q[0] == w && ys.contains(q.last() as usize);
        assert(dpath(g, q));
    }
    if is_ancestor_of(g, ys, w) {
        let q = choose|q: Seq<int>| dpath(g, q) && q[0] == w && ys.contains(q.last() as usize);
        assert(proper_dpath(g, empty, q));
    }
}

/// Gets all ancestors of a set of nodes, the starting nodes included: every
/// node with a directed path into the starting set.
pub fn get_ancestors(g: &PDAG, starting_vertices: &[usize]) -> (r: Vec<bool>)
    requires
        g.wf(),
        forall|k: int| 0 <= k < starting_vertices@.len() ==> (#[trigger] starting_vertices@[k])
            < g.n_nodes,
    ensures
        r@.len() == g.n(),
        forall|w: int| 0 <= w < g.n() ==> r@[w] == is_ancestor_of(g, starting_vertices@, w),
{
    let no_treatments: Vec<usize> = Vec::new();
    let r = get_proper_ancestors(g, no_treatments.as_slice(), starting_vertices);
    proof {
        assert forall|w: int|
            0 <= w < g.n() implies r@[w] == is_ancestor_of(g, starting_vertices@, w) by {
            lemma_empty_proper(g, starting_vertices@, w, no_treatments@);
        }
    }
    r
}

/// A directed chain of length at least two out of `ss` makes its end
/// reachable in the descendants search.
proof fn lemma_des_reaches(g: &PDAG, rt: &Descendants, ss: Seq<usize>, q: Seq<int>)
    requires
        dpath(g, q),
        q.len() >= 2,
        ss.contains(q[0] as usize),
    ensures
        gs_reaches(g, rt, ss, (Edge::Incoming, q.last())),
    decreases q.len(),
{
    let target: (Edge, int) = (Edge::Incoming, q.last());
    let m = q.len() - 2;
    assert(g.has_dir_edge(q[m], q[m + 1]));
    if q.len() == 2 {
        let root: (Edge, int) = (Edge::Init, q[0]);
        let w: Seq<(Edge, int)> = seq![root, target];
        assert(gs_is_root(g, ss, root));
        assert(q.last() == q[1]);
        assert(gs_step_ok(g, rt, root, target));
        assert(gs_is_walk(g, rt, ss, w)) by {
            assert forall|k: int| 0 <= k < w.len() - 1 implies gs_step_ok(
                g,
                rt,
                w[k],
                #[trigger] w[k + 1],
            ) by {
                assert(w[0] == root && w[1] == target);
            }
        }
        assert(w.last() == target);
    } else {
        let q2 = q.drop_last();
        assert(dpath(g, q2)) by {
            assert forall|k: int| 0 <= k < q2.len() - 1 implies g.has_dir_edge(
                q2[k],
                #[trigger] q2[k + 1],
            ) by {
                assert(q2[k] == q[k] && q2[k + 1] == q[k + 1]);
                assert(g.has_dir_edge(q[k], q[k + 1]));
            }
        }
        assert(q2[0] == q[0]);
        lemma_des_reaches(g, rt, ss, q2);
        let prev: (Edge, int) = (Edge::Incoming, q2.last());
        assert(q2.last() == q[m]);
        assert(gs_step_ok(g, rt, prev, target));
        let w = choose|w: Seq<(Edge, int)>| gs_is_walk(g, rt, ss, w) && w.last() == prev;
        let w2 = w.push(target);
        assert(gs_is_walk(g, rt, ss, w2)) by {
            assert(w2[0] == w[0]);
            assert forall|j: int| 0 <= j < w2.len() - 1 implies gs_step_ok(
                g,
                rt,
                w2[j],
                #[trigger] w2[j + 1],
            ) by {
                if j < w.len() - 1 {
                    assert(w2[j] == w[j] && w2[j + 1] == w[j + 1]);
                    assert(gs_step_ok(g, rt, w[j], w[j + 1]));
                } else {
                    assert(w2[j] == w.last() && w2[j + 1] == target);
                }
            }
        }
        assert(w2.last() == target);
    }
}

/// A directed chain of length at least two out of `ss` makes its end emitted
/// by the descendants search.
proof fn lemma_des_emitted(g: &PDAG, rt: &Descendants, ss: Seq<usize>, q: Seq<int>)
    requires
        dpath(g, q),
        q.len() >= 2,
        ss.contains(q[0] as usize),
    ensures
        gs_emitted(g, rt, ss, q.last()),
{
    let m = q.len() - 2;
    assert(g.has_dir_edge(q[m], q[m + 1]));
    let a: (Edge, int) = if q.len() == 2 {
        (Edge::Init, q[0])
    } else {
        (Edge::Incoming, q[m])
    };
    if q.len() == 2 {
        let w: Seq<(Edge, int)> = seq![a];
        assert(gs_is_walk(g, rt, ss, w));
        assert(w.last() == a);
        assert(gs_reaches(g, rt, ss, a));
    } else {
        let q2 = q.drop_last();
        assert(dpath(g, q2)) by {
            assert forall|k: int| 0 <= k < q2.len() - 1 implies g.has_dir_edge(
                q2[k],
                #[trigger] q2[k + 1],
            ) by {
                assert(q2[k] == q[k] && q2[k + 1] == q[k + 1]);
                assert(g.has_dir_edge(q[k], q[k + 1]));
            }
        }
        assert(q2[0] == q[0]);
        lemma_des_reaches(g, rt, ss, q2);
        assert(q2.last() == q[m]);
        assert(gs_reaches(g, rt, ss, a));
    }
    assert(gs_move(g, a.1, Edge::Incoming, q.last()));
    assert((q.last() as usize) as int == q.last());
    assert(rt.lookup_spec(a.0, a.1 as usize, Edge::Incoming, q.last() as usize).1);
}

/// Every pair reached by the descendants search stands at the end of a
/// directed chain out of the starting set.
proof fn lemma_des_walk_path(g: &PDAG, rt: &Descendants, ss: Seq<usize>, p: Seq<(Edge, int)>)
    requires
        gs_is_walk(g, rt, ss, p),
    ensures
        exists|q: Seq<int>|
            dpath(g, q) && q.last() == p.last().1 && ss.contains(q[0] as usize),
    decreases p.len(),
{
    if p.len() == 1 {
        let q: Seq<int> = seq![p[0].1];
        assert(dpath(g, q));
        assert(q.last() == p.last().1 && ss.contains(q[0] as usize));
    } else {
        let pp = p.drop_last();
        assert(gs_is_walk(g, rt, ss, pp)) by {
            assert forall|k: int| 0 <= k < pp.len() - 1 implies gs_step_ok(
                g,
                rt,
                pp[k],
                #[trigger] pp[k + 1],
            ) by {
                assert(pp[k] == p[k] && pp[k + 1] == p[k + 1]);
                assert(gs_step_ok(g, rt, p[k], p[k + 1]));
            }
        }
        lemma_des_walk_path(g, rt, ss, pp);
        let k = p.len() - 2;
        assert(pp.last() == p[k]);
        assert(gs_step_ok(g, rt, p[k], p[k + 1]));
        let last = p.last();
        assert(last.0 == Edge::Incoming);
        assert(g.has_dir_edge(p[k].1, last.1));
        let q = choose|q: Seq<int>|
            dpath(g, q) && q.last() == p[k].1 && ss.contains(q[0] as usize);
        let q2 = q.push(last.1);
        assert(dpath(g, q2)) by {
            assert forall|j: int| 0 <= j < q2.len() implies 0 <= #[trigger] q2[j] < g.n() by {
                if j < q.len() {
                    assert(q2[j] == q[j]);
                }
            }
            assert forall|j: int| 0 <= j < q2.len() - 1 implies g.has_dir_edge(
                q2[j],
                #[trigger] q2[j + 1],
            ) by {
                if j < q.len() - 1 {
                    assert(q2[j] == q[j] && q2[j + 1] == q[j + 1]);
                    assert(g.has_dir_edge(q[j], q[j + 1]));
                } else {
                    assert(q2[j] == q.last() && q2[j + 1] == last.1);
                }
            }
        }
        assert(q2[0] == q[0]);
        assert(q2.last() == last.1);
    }
}

/// Gets all descendants of a set of nodes, the starting nodes included:
/// every node with a directed path from the starting set.
pub fn get_descendants(g: &PDAG, starting_vertices: &[usize]) -> (r: Vec<bool>)
    requires
        g.wf(),
        forall|k: int| 0 <= k < starting_vertices@.len() ==> (#[trigger] starting_vertices@[k])
            < g.n_nodes,
    ensures
        r@.len() == g.n(),
        forall|w: int| 0 <= w < g.n() ==> r@[w] == is_descendant_of(g, starting_vertices@, w),
{
    let ruletable = Descendants {};
    let ghost rt = ruletable;
    let res = gensearch(g, ruletable, starting_vertices, true);
    proof {
        let ss = starting_vertices@;
        assert forall|w: int| 0 <= w < g.n() implies res@[w] == is_descendant_of(g, ss, w) by {
            if res@[w] {
                if ss.contains(w as usize) {
                    let q: Seq<int> = seq![w];
                    assert(dpath(g, q));
                    assert(q.last() == w && ss.contains(q[0] as usize));
                } else {
                    assert(gs_emitted(g, &rt, ss, w));
                    let (a, e2) = choose|a: (Edge, int), e2: Edge|
                        gs_reaches(g, &rt, ss, a) && gs_move(g, a.1, e2, w) && rt.lookup_spec(
                            a.0,
                            a.1 as usize,
                            e2,
                            w as usize,
                        ).1;
                    assert(e2 == Edge::Incoming);
                    assert(g.has_dir_edge(a.1, w));
                    let p = choose|p: Seq<(Edge, int)>|
                        gs_is_walk(g, &rt, ss, p) && p.last() == a;
                    lemma_des_walk_path(g, &rt, ss, p);
                    let q = choose|q: Seq<int>|
                        dpath(g, q) && q.last() == a.1 && ss.contains(q[0] as usize);
                    let q2 = q.push(w);
                    assert(dpath(g, q2)) by {
                        assert forall|j: int| 0 <= j < q2.len() implies 0 <= #[trigger] q2[j]
                            < g.n() by {
                            if j < q.len() {
                                assert(q2[j] == q[j]);
                            }
                        }
                        assert forall|j: int| 0 <= j < q2.len() - 1 implies g.has_dir_edge(
                            q2[j],
                            #[trigger] q2[j + 1],
                        ) by {
                            if j < q.len() - 1 {
                                assert(q2[j] == q[j] && q2[j + 1] == q[j + 1]);
                                assert(g.has_dir_edge(q[j], q[j + 1]));
                            } else {
                                assert(q2[j] == q.last() && q2[j + 1] == w);
                            }
                        }
                    }
                    assert(q2[0] == q[0]);
                    assert(q2.last() == w && ss.contains(q2[0] as usize));
                }
            } else {
                if is_descendant_of(g, ss, w) {
                    let q = choose|q: Seq<int>|
                        dpath(g, q) && q.last() == w && ss.contains(q[0] as usize);
                    if q.len() == 1 {
                        assert(q.last() == q[0]);
                        assert(ss.contains(w as usize));
                    } else {
                        lemma_des_emitted(g, &rt, ss, q);
                        assert(gs_emitted(g, &rt, ss, w));
                    }
                    assert(false);
                }
            }
        }
    }
    res
}

/// The parents search never continues a walk: only roots are reachable.
proof fn lemma_parents_roots(g: &PDAG, rt: &Parents, ss: Seq<usize>, p: Seq<(Edge, int)>)
    requires
        gs_is_walk(g, rt, ss, p),
    ensures
        p.last().0 == Edge::Init,
        0 <= p.last().1 < g.n(),
        ss.contains(p.last().1 as usize),
    decreases p.len(),
{
    if p.len() == 1 {
        assert(p.last() == p[0]);
    } else {
        let k = p.len() - 2;
        assert(gs_step_ok(g, rt, p[k], p[k + 1]));
        assert(false);
    }
}

/// The children search never continues a walk: only roots are reachable.
proof fn lemma_children_roots(g: &PDAG, rt: &Children, ss: Seq<usize>, p: Seq<(Edge, int)>)
    requires
        gs_is_walk(g, rt, ss, p),
    ensures
        p.last().0 == Edge::Init,
        0 <= p.last().1 < g.n(),
        ss.contains(p.last().1 as usize),
    decreases p.len(),
{
    if p.len() == 1 {
        assert(p.last() == p[0]);
    } else {
        let k = p.len() - 2;
        assert(gs_step_ok(g, rt, p[k], p[k + 1]));
        assert(false);
    }
}

/// Gets the union of the parents of a set of nodes.
pub fn get_parents(g: &PDAG, starting_vertices: &[usize]) -> (r: Vec<bool>)
    requires
        g.wf(),
        forall|k: int| 0 <= k < starting_vertices@.len() ==> (#[trigger] starting_vertices@[k])
            < g.n_nodes,
    ensures
        r@.len() == g.n(),
        forall|w: int| 0 <= w < g.n() ==> r@[w] == is_parent_of_set(g, starting_vertices@, w),
{
    let ruletable = Parents {};
    let ghost rt = ruletable;
    let res = gensearch(g, ruletable, starting_vertices, false);
    proof {
        let ss = starting_vertices@;
        assert forall|w: int| 0 <= w < g.n() implies res@[w] == is_parent_of_set(g, ss, w) by {
            if res@[w] {
                assert(gs_emitted(g, &rt, ss, w));
                let (a, e2) = choose|a: (Edge, int), e2: Edge|
                    gs_reaches(g, &rt, ss, a) && gs_move(g, a.1, e2, w) && rt.lookup_spec(
                        a.0,
                        a.1 as usize,
                        e2,
                        w as usize,
                    ).1;
                let p = choose|p: Seq<(Edge, int)>| gs_is_walk(g, &rt, ss, p) && p.last() == a;
                lemma_parents_roots(g, &rt, ss, p);
                assert(e2 == Edge::Outgoing);
                assert(g.has_dir_edge(w, a.1));
                assert((a.1 as usize) as int == a.1);
                assert(ss.contains(a.1 as usize) && g.has_dir_edge(w, (a.1 as usize) as int));
            } else {
                if is_parent_of_set(g, ss, w) {
                    let s = choose|s: usize| ss.contains(s) && g.has_dir_edge(w, s as int);
                    let root: (Edge, int) = (Edge::Init, s as int);
                    let p: Seq<(Edge, int)> = seq![root];
                    assert(gs_is_walk(g, &rt, ss, p));
                    assert(p.last() == root);
                    assert(gs_reaches(g, &rt, ss, root));
                    assert(gs_move(g, root.1, Edge::Outgoing, w));
                    assert((w as usize) as int == w);
                    assert(rt.lookup_spec(root.0, root.1 as usize, Edge::Outgoing, w as usize).1);
                    assert(gs_emitted(g, &rt, ss, w));
                    assert(false);
                }
            }
        }
    }
    res
}

/// Gets the union of the children of a set of nodes.
pub fn get_children(g: &PDAG, starting_vertices: &[usize]) -> (r: Vec<bool>)
    requires
        g.wf(),
        forall|k: int| 0 <= k < starting_vertices@.len() ==> (#[trigger] starting_vertices@[k])
            < g.n_nodes,
    ensures
        r@.len() == g.n(),
        forall|w: int| 0 <= w < g.n() ==> r@[w] == is_child_of_set(g, starting_vertices@, w),
{
    let ruletable = Children {};
    let ghost rt = ruletable;
    let res = gensearch(g, ruletable, starting_vertices, false);
    proof {
        let ss = starting_vertices@;
        assert forall|w: int| 0 <= w < g.n() implies res@[w] == is_child_of_set(g, ss, w) by {
            if res@[w] {
                assert(gs_emitted(g, &rt, ss, w));
                let (a, e2) = choose|a: (Edge, int), e2: Edge|
                    gs_reaches(g, &rt, ss, a) && gs_move(g, a.1, e2, w) && rt.lookup_spec(
                        a.0,
                        a.1 as usize,
                        e2,
                        w as usize,
                    ).1;
                let p = choose|p: Seq<(Edge, int)>| gs_is_walk(g, &rt, ss, p) && p.last() == a;
                lemma_children_roots(g, &rt, ss, p);
                assert(e2 == Edge::Incoming);
                assert(g.has_dir_edge(a.1, w));
                assert((a.1 as usize) as int == a.1);
                assert(ss.contains(a.1 as usize) && g.has_dir_edge((a.1 as usize) as int, w));
            } else {
                if is_child_of_set(g, ss, w) {
                    let s = choose|s: usize| ss.contains(s) && g.has_dir_edge(s as int, w);
                    let root: (Edge, int) = (Edge::Init, s as int);
                    let p: Seq<(Edge, int)> = seq![root];
                    assert(gs_is_walk(g, &rt, ss, p));
                    assert(p.last() == root);
                    assert(gs_reaches(g, &rt, ss, root));
                    assert(gs_move(g, root.1, Edge::Incoming, w));
                    assert((w as usize) as int == w);
                    assert(rt.lookup_spec(root.0, root.1 as usize, Edge::Incoming, w as usize).1);
                    assert(gs_emitted(g, &rt, ss, w));
                    assert(false);
                }
            }
        }
    }
    res
}

/// Walks of the descendant-tracking machine with descendant status follow
/// directed paths out of the treatment set.
proof fn lemma_dir_walk_to_path(g: &PDAG, ss: Seq<usize>, p: Seq<Trip>)
    requires
        g.wf(),
        is_walk(MachineKind::DPdNam, g, tmask_of(ss, g.n()), Seq::empty(), p),
    ensures
        p.last().2 == WalkStatus::Init ==> 0 <= p.last().1 < g.n() && ss.contains(
            p.last().1 as usize,
        ),
        p.last().2 == WalkStatus::Dir ==> exists|q: Seq<int>|
            dpath(g, q) && ss.contains(q[0] as usize) && q.last() == p.last().1,
    decreases p.len(),
{
    let tm = tmask_of(ss, g.n());
    if p.len() == 1 {
        assert(p.last() == p[0]);
        assert(tm[p[0].1]);
    } else {
        let q = p.drop_last();
        assert(is_walk(MachineKind::DPdNam, g, tm, Seq::empty(), q)) by {
            assert forall|k: int| 0 <= k < q.len() - 1 implies step_ok(
                MachineKind::DPdNam,
                g,
                tm,
                Seq::empty(),
                q[k],
                #[trigger] q[k + 1],
            ) by {
                assert(q[k] == p[k] && q[k + 1] == p[k + 1]);
                assert(step_ok(MachineKind::DPdNam, g, tm, Seq::empty(), p[k], p[k + 1]));
            }
        }
        lemma_dir_walk_to_path(g, ss, q);
        let k = p.len() - 2;
        assert(q.last() == p[k]);
        assert(step_ok(MachineKind::DPdNam, g, tm, Seq::empty(), p[k], p[k + 1]));
        let cur = p.last();
        if cur.2 == WalkStatus::Dir {
            assert(cur.0 == Edge::Incoming);
            assert(g.has_dir_edge(p[k].1, cur.1));
            if p[k].2 == WalkStatus::Init {
                let path: Seq<int> = seq![p[k].1, cur.1];
                assert(dpath(g, path)) by {
                    assert(path[0int] == p[k].1 && path[0int + 1] == cur.1);
                    assert(g.has_dir_edge(p[k].1, cur.1));
                }
                assert(path.last() == cur.1 && ss.contains(path[0] as usize));
            } else {
                assert(p[k].2 == WalkStatus::Dir);
                let path = choose|path: Seq<int>|
                    dpath(g, path) && ss.contains(path[0] as usize) && path.last() == p[k].1;
                let path2 = path.push(cur.1);
                assert(dpath(g, path2)) by {
                    assert forall|j: int| 0 <= j < path2.len() implies 0 <= #[trigger] path2[j]
                        < g.n() by {
                        if j < path.len() {
                            assert(path2[j] == path[j]);
                        }
                    }
                    assert forall|j: int| 0 <= j < path2.len() - 1 implies g.has_dir_edge(
                        path2[j],
                        #[trigger] path2[j + 1],
                    ) by {
                        if j < path.len() - 1 {
                            assert(path2[j] == path[j] && path2[j + 1] == path[j + 1]);
                            assert(g.has_dir_edge(path[j], path[j + 1]));
                        } else {
                            assert(path2[j] == path.last() && path2[j + 1] == cur.1);
                        }
                    }
                }
                assert(path2[0] == path[0] && path2.last() == cur.1);
            }
        }
    }
}

/// A directed path out of the treatment set ends in the set or at a node the
/// descendant-tracking machine reaches with descendant status.
proof fn lemma_path_to_dir_walk(g: &PDAG, ss: Seq<usize>, q: Seq<int>)
    requires
        g.wf(),
        dpath(g, q),
        tmask_of(ss, g.n())[q[0]],
    ensures
        tmask_of(ss, g.n())[q.last()] || exists|e: Edge|
            reaches(
                MachineKind::DPdNam,
                g,
                tmask_of(ss, g.n()),
                Seq::empty(),
                (e, q.last(), WalkStatus::Dir),
            ),
    decreases q.len(),
{
    let tm = tmask_of(ss, g.n());
    if q.len() == 1 {
        assert(q.last() == q[0]);
    } else {
        let prev = q.drop_last();
        assert(dpath(g, prev)) by {
            assert forall|j: int| 0 <= j < prev.len() - 1 implies g.has_dir_edge(
                prev[j],
                #[trigger] prev[j + 1],
            ) by {
                assert(prev[j] == q[j] && prev[j + 1] == q[j + 1]);
                assert(g.has_dir_edge(q[j], q[j + 1]));
            }
        }
        lemma_path_to_dir_walk(g, ss, prev);
        let m = q.len() - 2;
        assert(prev.last() == q[m]);
        assert(g.has_dir_edge(q[m], q[m + 1]));
        if !tm[q.last()] {
            if tm[q[m]] {
                let root: Trip = (Edge::Init, q[m], WalkStatus::Init);
                let next: Trip = (Edge::Incoming, q.last(), WalkStatus::Dir);
                let w: Seq<Trip> = seq![root, next];
                assert(is_walk(MachineKind::DPdNam, g, tm, Seq::empty(), w)) by {
                    assert(w[0int] == root && w[0int + 1] == next);
                    assert(step_ok(MachineKind::DPdNam, g, tm, Seq::empty(), root, next));
                    assert forall|k: int| 0 <= k < w.len() - 1 implies step_ok(
                        MachineKind::DPdNam,
                        g,
                        tm,
                        Seq::empty(),
                        w[k],
                        #[trigger] w[k + 1],
                    ) by {
                        assert(w[k] == root && w[k + 1] == next);
                    }
                }
                assert(w.last() == next);
                assert(reaches(
                    MachineKind::DPdNam,
                    g,
                    tm,
                    Seq::empty(),
                    (Edge::Incoming, q.last(), WalkStatus::Dir),
                ));
            } else {
                let e = choose|e: Edge|
                    reaches(
                        MachineKind::DPdNam,
                        g,
                        tm,
                        Seq::empty(),
                        (e, q[m], WalkStatus::Dir),
                    );
                let w = choose|w: Seq<Trip>|
                    is_walk(MachineKind::DPdNam, g, tm, Seq::empty(), w) && w.last() == (
                        e,
                        q[m],
                        WalkStatus::Dir,
                    );
                let next: Trip = (Edge::Incoming, q.last(), WalkStatus::Dir);
                assert(step_ok(MachineKind::DPdNam, g, tm, Seq::empty(), w.last(), next));
                let w2 = w.push(next);
                assert(is_walk(MachineKind::DPdNam, g, tm, Seq::empty(), w2)) by {
                    assert(w2[0] == w[0]);
                    assert forall|k: int| 0 <= k < w2.len() - 1 implies step_ok(
                        MachineKind::DPdNam,
                        g,
                        tm,
                        Seq::empty(),
                        w2[k],
                        #[trigger] w2[k + 1],
                    ) by {
                        if k < w.len() - 1 {
                            assert(w2[k] == w[k] && w2[k + 1] == w[k + 1]);
                            assert(step_ok(MachineKind::DPdNam, g, tm, Seq::empty(), w[k], w[k + 1]));
                        } else {
                            assert(w2[k] == w.last() && w2[k + 1] == next);
                        }
                    }
                }
                assert(w2.last() == next);
                assert(reaches(
                    MachineKind::DPdNam,
                    g,
                    tm,
                    Seq::empty(),
                    (Edge::Incoming, q.last(), WalkStatus::Dir),
                ));
            }
        }
    }
}

/// The descendant set of the walk-status engine coincides with the
/// path-based descendants computed by the generalized search.
pub proof fn lemma_in_d_is_descendant(g: &PDAG, ss: Seq<usize>, v: int)
    requires
        g.wf(),
        forall|k: int| 0 <= k < ss.len() ==> (#[trigger] ss[k]) < g.n_nodes,
    ensures
        in_d(g, tmask_of(ss, g.n()), v) == (0 <= v < g.n() && is_descendant_of(g, ss, v)),
{
    let tm = tmask_of(ss, g.n());
    if in_d(g, tm, v) {
        if 0 <= v < g.n() && tm[v] {
            let q: Seq<int> = seq![v];
            assert(dpath(g, q));
            assert(q.last() == v && ss.contains(q[0] as usize));
            assert(is_descendant_of(g, ss, v));
        } else {
            let e = choose|e: Edge|
                reaches(MachineKind::DPdNam, g, tm, Seq::empty(), (e, v, WalkStatus::Dir));
            let p = choose|p: Seq<Trip>|
                is_walk(MachineKind::DPdNam, g, tm, Seq::empty(), p) && p.last() == (
                    e,
                    v,
                    WalkStatus::Dir,
                );
            lemma_dir_walk_to_path(g, ss, p);
            let q = choose|q: Seq<int>|
                dpath(g, q) && ss.contains(q[0] as usize) && q.last() == v;
            assert(0 <= v < g.n());
        }
    }
    if 0 <= v < g.n() && is_descendant_of(g, ss, v) {
        let q = choose|q: Seq<int>|
            dpath(g, q) && q.last() == v && ss.contains(q[0] as usize);
        assert(tm[q[0]]) by {
            assert((q[0] as usize) as int == q[0]);
        }
        lemma_path_to_dir_walk(g, ss, q);
        assert(in_d(g, tm, v));
    }
}

} // verus!
