//! The generalized reachability search over directed edges, driven by a rule
//! table.
//!
//! The search explores pairs (arrival edge, node) starting from
//! `(Init, s)` for each starting vertex `s`. At each pair it consults the
//! rule table for every one-step continuation to a child (`Incoming`) or a
//! parent (`Outgoing`): the table says whether to continue the walk there and
//! whether to yield the node into the result set.

use vstd::prelude::*;

use super::ruletables::RuleTable;
use crate::partially_directed_acyclic_graph::{Edge, PDAG};
use crate::sets::{lemma_mask_card_bound, lemma_mask_card_set_true, mask_card, mask_new};

verus! {

/// A one-step move of the generalized search: from node `v` to a child
/// (arriving by `Incoming`) or a parent (arriving by `Outgoing`).
pub open spec fn gs_move(g: &PDAG, v: int, e: Edge, w: int) -> bool {
    &&& 0 <= w < g.n()
    &&& match e {
        Edge::Incoming => g.has_dir_edge(v, w),
        Edge::Outgoing => g.has_dir_edge(w, v),
        _ => false,
    }
}

/// A valid continuation step under a rule table: a move the table continues
/// on.
pub open spec fn gs_step_ok<R: RuleTable>(
    g: &PDAG,
    rt: &R,
    a: (Edge, int),
    b: (Edge, int),
) -> bool {
    &&& gs_move(g, a.1, b.0, b.1)
    &&& rt.lookup_spec(a.0, a.1 as usize, b.0, b.1 as usize).0
}

/// A walk root of the generalized search.
pub open spec fn gs_is_root(g: &PDAG, starts: Seq<usize>, a: (Edge, int)) -> bool {
    &&& a.0 == Edge::Init
    &&& 0 <= a.1 < g.n()
    &&& starts.contains(a.1 as usize)
}

/// A valid search walk: it begins at a root and proceeds by continuation
/// steps.
pub open spec fn gs_is_walk<R: RuleTable>(
    g: &PDAG,
    rt: &R,
    starts: Seq<usize>,
    p: Seq<(Edge, int)>,
) -> bool {
    &&& p.len() >= 1
    &&& gs_is_root(g, starts, p[0])
    &&& forall|k: int| 0 <= k < p.len() - 1 ==> gs_step_ok(g, rt, p[k], #[trigger] p[k + 1])
}

/// The pair `a` is reachable by the generalized search.
pub open spec fn gs_reaches<R: RuleTable>(
    g: &PDAG,
    rt: &R,
    starts: Seq<usize>,
    a: (Edge, int),
) -> bool {
    exists|p: Seq<(Edge, int)>| gs_is_walk(g, rt, starts, p) && p.last() == a
}

/// Node `w` is yielded by the search: some reachable pair has a move to `w`
/// that the rule table yields on.
pub open spec fn gs_emitted<R: RuleTable>(g: &PDAG, rt: &R, starts: Seq<usize>, w: int) -> bool {
    exists|a: (Edge, int), e2: Edge|
        gs_reaches(g, rt, starts, a) && gs_move(g, a.1, e2, w) && rt.lookup_spec(
            a.0,
            a.1 as usize,
            e2,
            w as usize,
        ).1
}

/// Which entry of the three visited masks a pair occupies.
spec fn pmarked(vr: Seq<bool>, vi: Seq<bool>, vo: Seq<bool>, a: (Edge, int)) -> bool {
    match a.0 {
        Edge::Init => 0 <= a.1 < vr.len() && vr[a.1],
        Edge::Incoming => 0 <= a.1 < vi.len() && vi[a.1],
        Edge::Outgoing => 0 <= a.1 < vo.len() && vo[a.1],
        Edge::Undirected => false,
    }
}

/// Whether a stack of pairs holds `a`.
spec fn pstack_has(s: Seq<(Edge, usize)>, a: (Edge, int)) -> bool {
    exists|k: int| 0 <= k < s.len() && (s[k].0, s[k].1 as int) == a
}

/// Every pair a valid walk passes through is marked, provided the roots are
/// marked and the marks are closed under continuation steps.
proof fn lemma_gs_walk_covered<R: RuleTable>(
    g: &PDAG,
    rt: &R,
    starts: Seq<usize>,
    vr: Seq<bool>,
    vi: Seq<bool>,
    vo: Seq<bool>,
    p: Seq<(Edge, int)>,
)
    requires
        gs_is_walk(g, rt, starts, p),
        vr.len() == g.n(),
        forall|w: int| 0 <= w < g.n() && starts.contains(w as usize) ==> vr[w],
        forall|a: (Edge, int), b: (Edge, int)|
            pmarked(vr, vi, vo, a) && gs_step_ok(g, rt, a, b) ==> pmarked(vr, vi, vo, b),
    ensures
        pmarked(vr, vi, vo, p.last()),
    decreases p.len(),
{
    if p.len() == 1 {
        assert(p.last() == p[0]);
    } else {
        let q = p.drop_last();
        assert(gs_is_walk(g, rt, starts, q)) by {
            assert forall|k: int| 0 <= k < q.len() - 1 implies gs_step_ok(
                g,
                rt,
                q[k],
                #[trigger] q[k + 1],
            ) by {
                assert(q[k] == p[k] && q[k + 1] == p[k + 1]);
                assert(gs_step_ok(g, rt, p[k], p[k + 1]));
            }
        }
        lemma_gs_walk_covered(g, rt, starts, vr, vi, vo, q);
        let k = p.len() - 2;
        assert(q.last() == p[k]);
        assert(gs_step_ok(g, rt, p[k], p[k + 1]));
    }
}

/// Appends every pair `(e, w)` for `w` in `list`.
fn push_pairs(dst: &mut Vec<(Edge, usize)>, e: Edge, list: &[usize])
    ensures
        final(dst)@.len() == old(dst)@.len() + list@.len(),
        forall|m: (Edge, usize)|
            final(dst)@.contains(m) <==> (old(dst)@.contains(m) || (m.0 == e && list@.contains(
                m.1,
            ))),
{
    let mut k: usize = 0;
    while k < list.len()
        invariant
            k <= list@.len(),
            dst@.len() == old(dst)@.len() + k,
            forall|m: (Edge, usize)|
                dst@.contains(m) <==> (old(dst)@.contains(m) || (m.0 == e && list@.subrange(
                    0,
                    k as int,
                ).contains(m.1))),
        decreases list@.len() - k,
    {
        let ghost prefix = list@.subrange(0, k as int);
        let ghost old_dst = dst@;
        let w = list[k];
        dst.push((e, w));
        proof {
            let longer = list@.subrange(0, k + 1);
            assert(longer[k as int] == list@[k as int]);
            assert forall|x: usize| longer.contains(x) implies (prefix.contains(x) || x == w) by {
                let p = choose|p: int| 0 <= p < longer.len() && longer[p] == x;
                if p < k {
                    assert(prefix[p] == x);
                }
            }
            assert forall|x: usize| prefix.contains(x) implies longer.contains(x) by {
                let p = choose|p: int| 0 <= p < prefix.len() && prefix[p] == x;
                assert(longer[p] == x);
            }
            assert(dst@[dst@.len() - 1] == (e, w));
            assert(longer.contains(w));
            assert forall|m: (Edge, usize)| dst@.contains(m) implies (old_dst.contains(m) || m == (
                e,
                w,
            )) by {
                let p = choose|p: int| 0 <= p < dst@.len() && dst@[p] == m;
                if p < old_dst.len() {
                    assert(old_dst[p] == m);
                }
            }
            assert forall|m: (Edge, usize)| old_dst.contains(m) implies dst@.contains(m) by {
                let p = choose|p: int| 0 <= p < old_dst.len() && old_dst[p] == m;
                assert(dst@[p] == m);
            }
            assert forall|m: (Edge, usize)|
                dst@.contains(m) <==> (old(dst)@.contains(m) || (m.0 == e && longer.contains(
                    m.1,
                ))) by {
                if m == (e, w) {
                    assert(dst@.contains(m));
                } else {
                    assert(dst@.contains(m) == old_dst.contains(m)) by {
                        if dst@.contains(m) {
                            let p = choose|p: int| 0 <= p < dst@.len() && dst@[p] == m;
                            if p < old_dst.len() {
                                assert(old_dst[p] == m);
                            } else {
                                assert(dst@[p] == (e, w));
                            }
                        }
                    }
                    if m.0 == e {
                        assert(m.1 != w);
                        assert(longer.contains(m.1) == prefix.contains(m.1));
                    }
                }
            }
        }
        k += 1;
    }
    proof {
        assert(list@.subrange(0, list@.len() as int) =~= list@);
    }
}

/// The generalized reachability search: explores the directed edges from the
/// starting vertices as the rule table directs, and returns the mask of
/// yielded nodes, with the starting vertices included when
/// `yield_starting_vertices` is set.
pub fn gensearch<R: RuleTable>(
    g: &PDAG,
    ruletable: R,
    starting_vertices: &[usize],
    yield_starting_vertices: bool,
) -> (res: Vec<bool>)
    requires
        g.wf(),
        forall|k: int| 0 <= k < starting_vertices@.len() ==> (#[trigger] starting_vertices@[k])
            < g.n_nodes,
    ensures
        res@.len() == g.n(),
        forall|w: int|
            0 <= w < g.n() ==> (res@[w] == ((yield_starting_vertices
                && starting_vertices@.contains(w as usize)) || gs_emitted(
                g,
                &ruletable,
                starting_vertices@,
                w,
            ))),
{
    let n = g.n_nodes;
    let ghost starts = starting_vertices@;
    let mut res = mask_new(n);
    let mut vis_root = mask_new(n);
    let mut vis_in = mask_new(n);
    let mut vis_out = mask_new(n);
    let mut stack: Vec<(Edge, usize)> = Vec::new();

    let mut k: usize = 0;
    while k < starting_vertices.len()
        invariant
            g.wf(),
            n == g.n_nodes,
            starts == starting_vertices@,
            forall|j: int| 0 <= j < starts.len() ==> (#[trigger] starts[j]) < n,
            k <= starts.len(),
            res@.len() == n,
            vis_root@.len() == n,
            vis_in@.len() == n,
            vis_out@.len() == n,
            forall|w: int| 0 <= w < n ==> !vis_in@[w] && !vis_out@[w],
            forall|w: int|
                0 <= w < n ==> (vis_root@[w] == starts.subrange(0, k as int).contains(w as usize)),
            forall|w: int|
                0 <= w < n ==> (res@[w] == (yield_starting_vertices && starts.subrange(
                    0,
                    k as int,
                ).contains(w as usize))),
            forall|j: int|
                0 <= j < stack@.len() ==> (#[trigger] stack@[j]).1 < n && pmarked(
                    vis_root@,
                    vis_in@,
                    vis_out@,
                    (stack@[j].0, stack@[j].1 as int),
                ),
            forall|a: (Edge, int)|
                pmarked(vis_root@, vis_in@, vis_out@, a) ==> gs_reaches(g, &ruletable, starts, a),
            forall|a: (Edge, int)|
                pmarked(vis_root@, vis_in@, vis_out@, a) ==> pstack_has(stack@, a),
        decreases starts.len() - k,
    {
        let s = starting_vertices[k];
        let ghost prefix = starts.subrange(0, k as int);
        let ghost longer = starts.subrange(0, k + 1);
        proof {
            assert(longer[k as int] == starts[k as int]);
            assert forall|x: usize| longer.contains(x) implies (prefix.contains(x) || x == s) by {
                let p = choose|p: int| 0 <= p < longer.len() && longer[p] == x;
                if p < k {
                    assert(prefix[p] == x);
                }
            }
            assert forall|x: usize| prefix.contains(x) implies longer.contains(x) by {
                let p = choose|p: int| 0 <= p < prefix.len() && prefix[p] == x;
                assert(longer[p] == x);
            }
        }
        if yield_starting_vertices {
            res.set(s, true);
        }
        if !vis_root[s] {
            let ghost pre_stack = stack@;
            vis_root.set(s, true);
            stack.push((Edge::Init, s));
            proof {
                let root: (Edge, int) = (Edge::Init, s as int);
                let p: Seq<(Edge, int)> = seq![root];
                assert(starts.contains(s)) by {
                    assert(starts[k as int] == s);
                }
                assert(gs_is_walk(g, &ruletable, starts, p));
                assert(p.last() == root);
                assert((stack@[stack@.len() - 1].0, stack@[stack@.len() - 1].1 as int) == root);
                assert forall|a: (Edge, int)|
                    pmarked(vis_root@, vis_in@, vis_out@, a) implies pstack_has(stack@, a) by {
                    if a != root {
                        assert(pstack_has(pre_stack, a));
                        let j = choose|j: int|
                            0 <= j < pre_stack.len() && (pre_stack[j].0, pre_stack[j].1 as int)
                                == a;
                        assert((stack@[j].0, stack@[j].1 as int) == a);
                    }
                }
            }
        }
        k += 1;
    }
    proof {
        assert(starts.subrange(0, starts.len() as int) =~= starts);
    }

    while stack.len() > 0
        invariant
            g.wf(),
            n == g.n_nodes,
            starts == starting_vertices@,
            forall|j: int| 0 <= j < starts.len() ==> (#[trigger] starts[j]) < n,
            res@.len() == n,
            vis_root@.len() == n,
            vis_in@.len() == n,
            vis_out@.len() == n,
            forall|w: int| 0 <= w < n && starts.contains(w as usize) ==> vis_root@[w],
            forall|j: int|
                0 <= j < stack@.len() ==> (#[trigger] stack@[j]).1 < n && pmarked(
                    vis_root@,
                    vis_in@,
                    vis_out@,
                    (stack@[j].0, stack@[j].1 as int),
                ),
            forall|a: (Edge, int)|
                pmarked(vis_root@, vis_in@, vis_out@, a) ==> gs_reaches(g, &ruletable, starts, a),
            forall|w: int|
                0 <= w < n ==> (res@[w] ==> ((yield_starting_vertices && starts.contains(
                    w as usize,
                )) || gs_emitted(g, &ruletable, starts, w))),
            forall|w: int|
                0 <= w < n && yield_starting_vertices && starts.contains(w as usize)
                    ==> res@[w],
            forall|a: (Edge, int), b: (Edge, int)|
                pmarked(vis_root@, vis_in@, vis_out@, a) && !pstack_has(stack@, a) && gs_step_ok(
                    g,
                    &ruletable,
                    a,
                    b,
                ) ==> pmarked(vis_root@, vis_in@, vis_out@, b),
            forall|a: (Edge, int), e2: Edge, w: int|
                pmarked(vis_root@, vis_in@, vis_out@, a) && !pstack_has(stack@, a) && gs_move(
                    g,
                    a.1,
                    e2,
                    w,
                ) && ruletable.lookup_spec(a.0, a.1 as usize, e2, w as usize).1 ==> res@[w],
        decreases 3 * n - mask_card(vis_root@, n as int) - mask_card(vis_in@, n as int)
            - mask_card(vis_out@, n as int), stack@.len(),
    {
        let ghost pre_root = vis_root@;
        let ghost pre_in = vis_in@;
        let ghost pre_out = vis_out@;
        let ghost pre_stack = stack@;
        proof {
            lemma_mask_card_bound(vis_root@, n as int);
            lemma_mask_card_bound(vis_in@, n as int);
            lemma_mask_card_bound(vis_out@, n as int);
        }
        let top = stack.pop().unwrap();
        let (ae, av) = top;
        let ghost a: (Edge, int) = (ae, av as int);
        let ghost post_pop = stack@;
        proof {
            assert forall|x: (Edge, int), b: (Edge, int)|
                pmarked(vis_root@, vis_in@, vis_out@, x) && x != a && !pstack_has(post_pop, x)
                    && gs_step_ok(g, &ruletable, x, b) implies pmarked(vis_root@, vis_in@, vis_out@, b) by {
                assert(!pstack_has(pre_stack, x)) by {
                    if pstack_has(pre_stack, x) {
                        let j = choose|j: int|
                            0 <= j < pre_stack.len() && (pre_stack[j].0, pre_stack[j].1 as int)
                                == x;
                        if j < pre_stack.len() - 1 {
                            assert(post_pop[j] == pre_stack[j]);
                            assert(pstack_has(post_pop, x));
                        } else {
                            assert((pre_stack[pre_stack.len() - 1].0,
                                pre_stack[pre_stack.len() - 1].1 as int) == a);
                        }
                    }
                }
            }
            assert forall|x: (Edge, int), e2: Edge, w: int|
                pmarked(vis_root@, vis_in@, vis_out@, x) && x != a && !pstack_has(post_pop, x)
                    && gs_move(g, x.1, e2, w) && ruletable.lookup_spec(
                    x.0,
                    x.1 as usize,
                    e2,
                    w as usize,
                ).1 implies res@[w] by {
                assert(!pstack_has(pre_stack, x)) by {
                    if pstack_has(pre_stack, x) {
                        let j = choose|j: int|
                            0 <= j < pre_stack.len() && (pre_stack[j].0, pre_stack[j].1 as int)
                                == x;
                        if j < pre_stack.len() - 1 {
                            assert(post_pop[j] == pre_stack[j]);
                            assert(pstack_has(post_pop, x));
                        } else {
                            assert((pre_stack[pre_stack.len() - 1].0,
                                pre_stack[pre_stack.len() - 1].1 as int) == a);
                        }
                    }
                }
            }
        }

        let mut moves: Vec<(Edge, usize)> = Vec::new();
        let ch = g.children_of(av);
        proof {
            assert forall|j: int| 0 <= j < ch@.len() implies (#[trigger] ch@[j]) < n by {
                assert(g.children_seq(av as int).contains(ch@[j]));
            }
        }
        push_pairs(&mut moves, Edge::Incoming, ch);
        let pa = g.parents_of(av);
        proof {
            assert forall|j: int| 0 <= j < pa@.len() implies (#[trigger] pa@[j]) < n by {
                assert(g.parents_seq(av as int).contains(pa@[j]));
            }
        }
        push_pairs(&mut moves, Edge::Outgoing, pa);
        proof {
            assert forall|m: (Edge, usize)|
                moves@.contains(m) <==> gs_move(g, av as int, m.0, m.1 as int) by {
                assert((av as int) as usize == av);
                if moves@.contains(m) {
                    assert(m.1 < n);
                    if m.0 == Edge::Outgoing {
                        assert(g.parents_seq(av as int).contains(m.1));
                        assert(g.children_seq(m.1 as int).contains(av));
                    }
                }
                if gs_move(g, av as int, m.0, m.1 as int) {
                    match m.0 {
                        Edge::Incoming => {
                            assert(g.children_seq(av as int).contains(m.1));
                        },
                        Edge::Outgoing => {
                            assert(g.children_seq(m.1 as int).contains(av));
                            assert(g.parents_seq(av as int).contains(m.1));
                        },
                        _ => {},
                    }
                }
            }
            assert forall|j: int| 0 <= j < moves@.len() implies (#[trigger] moves@[j]).1 < n by {
                assert(moves@.contains(moves@[j]));
            }
        }

        let mut idx: usize = 0;
        while idx < moves.len()
            invariant
                g.wf(),
                n == g.n_nodes,
                starts == starting_vertices@,
                forall|j: int| 0 <= j < starts.len() ==> (#[trigger] starts[j]) < n,
                av < n,
                idx <= moves@.len(),
                a == (ae, av as int),
                res@.len() == n,
                vis_root@.len() == n,
                vis_in@.len() == n,
                vis_out@.len() == n,
                pmarked(vis_root@, vis_in@, vis_out@, a),
                forall|m: (Edge, usize)|
                    moves@.contains(m) <==> gs_move(g, av as int, m.0, m.1 as int),
                forall|j: int| 0 <= j < moves@.len() ==> (#[trigger] moves@[j]).1 < n,
                forall|w: int| 0 <= w < n && starts.contains(w as usize) ==> vis_root@[w],
                forall|j: int|
                    0 <= j < stack@.len() ==> (#[trigger] stack@[j]).1 < n && pmarked(
                        vis_root@,
                        vis_in@,
                        vis_out@,
                        (stack@[j].0, stack@[j].1 as int),
                    ),
                forall|x: (Edge, int)|
                    pmarked(vis_root@, vis_in@, vis_out@, x) ==> gs_reaches(g, &ruletable, starts, x),
                forall|w: int|
                    0 <= w < n ==> (res@[w] ==> ((yield_starting_vertices && starts.contains(
                        w as usize,
                    )) || gs_emitted(g, &ruletable, starts, w))),
                forall|w: int|
                    0 <= w < n && yield_starting_vertices && starts.contains(w as usize)
                        ==> res@[w],
                forall|x: (Edge, int), b: (Edge, int)|
                    pmarked(vis_root@, vis_in@, vis_out@, x) && x != a && !pstack_has(stack@, x)
                        && gs_step_ok(g, &ruletable, x, b) ==> pmarked(vis_root@, vis_in@, vis_out@, b),
                forall|x: (Edge, int), e2: Edge, w: int|
                    pmarked(vis_root@, vis_in@, vis_out@, x) && x != a && !pstack_has(stack@, x)
                        && gs_move(g, x.1, e2, w) && ruletable.lookup_spec(
                        x.0,
                        x.1 as usize,
                        e2,
                        w as usize,
                    ).1 ==> res@[w],
                forall|j: int|
                    0 <= j < idx ==> {
                        let m = #[trigger] moves@[j];
                        &&& (ruletable.lookup_spec(ae, av, m.0, m.1).1 ==> res@[m.1 as int])
                        &&& (ruletable.lookup_spec(ae, av, m.0, m.1).0 ==> pmarked(
                            vis_root@,
                            vis_in@,
                            vis_out@,
                            (m.0, m.1 as int),
                        ))
                    },
                mask_card(vis_root@, n as int) + mask_card(vis_in@, n as int) + mask_card(
                    vis_out@,
                    n as int,
                ) >= mask_card(pre_root, n as int) + mask_card(pre_in, n as int) + mask_card(
                    pre_out,
                    n as int,
                ),
                mask_card(vis_root@, n as int) + mask_card(vis_in@, n as int) + mask_card(
                    vis_out@,
                    n as int,
                ) > mask_card(pre_root, n as int) + mask_card(pre_in, n as int) + mask_card(
                    pre_out,
                    n as int,
                ) || stack@ == post_pop,
            decreases moves@.len() - idx,
        {
            let (me, mw) = moves[idx];
            proof {
                assert(moves@.contains(moves@[idx as int]));
            }
            let ghost b: (Edge, int) = (me, mw as int);
            let (cont, yld) = ruletable.lookup(&ae, &av, &me, &mw);
            if yld {
                res.set(mw, true);
                proof {
                    assert(gs_reaches(g, &ruletable, starts, a));
                    assert(gs_move(g, a.1, me, mw as int));
                    assert(a.1 as usize == av);
                    assert((mw as int) as usize == mw);
                    assert(ruletable.lookup_spec(a.0, a.1 as usize, me, (mw as int) as usize).1);
                    assert(gs_emitted(g, &ruletable, starts, mw as int));
                }
            }
            if cont {
                let marked_already = match me {
                    Edge::Incoming => vis_in[mw],
                    Edge::Outgoing => vis_out[mw],
                    _ => true,
                };
                proof {
                    assert(me == Edge::Incoming || me == Edge::Outgoing);
                    assert(marked_already == pmarked(vis_root@, vis_in@, vis_out@, b));
                }
                if !marked_already {
                    proof {
                        assert(gs_step_ok(g, &ruletable, a, b));
                        let p = choose|p: Seq<(Edge, int)>|
                            gs_is_walk(g, &ruletable, starts, p) && p.last() == a;
                        let p2 = p.push(b);
                        assert(gs_is_walk(g, &ruletable, starts, p2)) by {
                            assert(p2[0] == p[0]);
                            assert forall|j: int| 0 <= j < p2.len() - 1 implies gs_step_ok(
                                g,
                                &ruletable,
                                p2[j],
                                #[trigger] p2[j + 1],
                            ) by {
                                if j < p.len() - 1 {
                                    assert(p2[j] == p[j] && p2[j + 1] == p[j + 1]);
                                    assert(gs_step_ok(g, &ruletable, p[j], p[j + 1]));
                                } else {
                                    assert(p2[j] == p.last() && p2[j + 1] == b);
                                }
                            }
                        }
                        assert(p2.last() == b);
                        assert(gs_reaches(g, &ruletable, starts, b));
                        if me == Edge::Incoming {
                            lemma_mask_card_set_true(vis_in@, mw as int, n as int);
                        } else {
                            lemma_mask_card_set_true(vis_out@, mw as int, n as int);
                        }
                    }
                    let ghost pre_push = stack@;
                    match me {
                        Edge::Incoming => vis_in.set(mw, true),
                        Edge::Outgoing => vis_out.set(mw, true),
                        _ => {},
                    }
                    stack.push((me, mw));
                    proof {
                        assert((stack@[stack@.len() - 1].0, stack@[stack@.len() - 1].1 as int)
                            == b);
                        assert forall|x: (Edge, int)| pstack_has(pre_push, x) implies pstack_has(
                            stack@,
                            x,
                        ) by {
                            let j = choose|j: int|
                                0 <= j < pre_push.len() && (pre_push[j].0, pre_push[j].1 as int)
                                    == x;
                            assert((stack@[j].0, stack@[j].1 as int) == x);
                        }
                    }
                }
            }
            idx += 1;
        }

        proof {
            assert forall|b: (Edge, int)| gs_step_ok(g, &ruletable, a, b) implies pmarked(
                vis_root@,
                vis_in@,
                vis_out@,
                b,
            ) by {
                let m = (b.0, b.1 as usize);
                assert(moves@.contains(m));
                let j = choose|j: int| 0 <= j < moves@.len() && moves@[j] == m;
            }
            assert forall|e2: Edge, w: int|
                gs_move(g, a.1, e2, w) && ruletable.lookup_spec(
                    a.0,
                    a.1 as usize,
                    e2,
                    w as usize,
                ).1 implies res@[w] by {
                let m = (e2, w as usize);
                assert(moves@.contains(m));
                let j = choose|j: int| 0 <= j < moves@.len() && moves@[j] == m;
            }
            lemma_mask_card_bound(vis_root@, n as int);
            lemma_mask_card_bound(vis_in@, n as int);
            lemma_mask_card_bound(vis_out@, n as int);
        }
    }

    proof {
        assert forall|w: int|
            0 <= w < n implies (res@[w] == ((yield_starting_vertices && starts.contains(w as usize))
            || gs_emitted(g, &ruletable, starts, w))) by {
            if !res@[w] && gs_emitted(g, &ruletable, starts, w) {
                let (x, e2) = choose|x: (Edge, int), e2: Edge|
                    gs_reaches(g, &ruletable, starts, x) && gs_move(g, x.1, e2, w) && ruletable.lookup_spec(
                        x.0,
                        x.1 as usize,
                        e2,
                        w as usize,
                    ).1;
                let p = choose|p: Seq<(Edge, int)>|
                    gs_is_walk(g, &ruletable, starts, p) && p.last() == x;
                lemma_gs_walk_covered(g, &ruletable, starts, vis_root@, vis_in@, vis_out@, p);
            }
            if !res@[w] && yield_starting_vertices && starts.contains(w as usize) {
                assert(false);
            }
        }
    }
    res
}

} // verus!
