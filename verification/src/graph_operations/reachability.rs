//! Walk-status-aware reachability engines.
//!
//! Every engine explores walks that start in a treatment set `T` and
//! classifies each reached node by the kind of walk used to reach it. The
//! state space is the finite set of triples (arrival edge, node, walk
//! status); a shared depth-first core marks exactly the reachable triples,
//! and each engine reads its output sets off the marks.
//!
//! The walk statuses:
//! - `Dir`: an all-directed walk (the node is a descendant).
//! - `PdAm` / `PdNam`: a possibly-directed walk (edges `->` or `--`) whose
//!   first edge is `->` (amenable) or `--` (not amenable).
//! - `PdOpenAm`, `PdBlockedAm`, `PdOpenNam`, `PdBlockedNam`: the same under
//!   an adjustment set `Z`, split by whether the walk is blocked by `Z`.
//! - `NonCausalOpen`: a walk that left the possibly-directed fragment and has
//!   not been blocked.
//! - `PdOpen` / `PdBlocked`: the conditioned statuses with the amenability
//!   distinction dropped.

use vstd::prelude::*;

use crate::partially_directed_acyclic_graph::{Edge, PDAG};
use crate::sets::{lemma_rows_card_bound, lemma_rows_card_set_true, mask_from_list, rows_card};

verus! {

/// Classification of the walk by which a triple was reached.
#[derive(Debug, Clone, Copy, PartialEq, Eq, Structural)]
pub enum WalkStatus {
    /// The walk is still at its root.
    Init,
    /// All edges so far are `->`: the node is a descendant.
    Dir,
    /// Possibly directed, first edge `->`.
    PdAm,
    /// Possibly directed, first edge `--`.
    PdNam,
    /// Conditioned: possibly directed, first edge `->`, not blocked.
    PdOpenAm,
    /// Conditioned: possibly directed, first edge `->`, blocked.
    PdBlockedAm,
    /// Conditioned: possibly directed, first edge `--`, not blocked.
    PdOpenNam,
    /// Conditioned: possibly directed, first edge `--`, blocked.
    PdBlockedNam,
    /// Conditioned: no longer possibly directed, not blocked.
    NonCausalOpen,
    /// Conditioned, amenability ignored: possibly directed, not blocked.
    PdOpen,
    /// Conditioned, amenability ignored: possibly directed, blocked.
    PdBlocked,
}

/// Which transition table the shared search core runs.
#[derive(Debug, Clone, Copy, PartialEq, Eq, Structural)]
pub enum MachineKind {
    /// Unconditioned, tracking descendants separately.
    DPdNam,
    /// Unconditioned, descendants merged into the amenable status.
    PdNam,
    /// Conditioned on an adjustment set, full status set.
    Cond,
    /// Conditioned, amenability ignored.
    Ivb,
}

/// A search state: (arrival edge, node, walk status), with the node as a
/// mathematical integer.
pub type Trip = (Edge, int, WalkStatus);

/// Whether the machine consults an adjustment set.
pub open spec fn is_cond(kind: MachineKind) -> bool {
    kind == MachineKind::Cond || kind == MachineKind::Ivb
}

/// An unconditioned expansion move: from node `v`, one step to a possible
/// child `w` outside the treatment set, arriving at `w` by `e`.
pub open spec fn uncond_move(g: &PDAG, tm: Seq<bool>, v: int, e: Edge, w: int) -> bool {
    &&& 0 <= w < g.n()
    &&& !tm[w]
    &&& match e {
        Edge::Incoming => g.has_dir_edge(v, w),
        Edge::Undirected => g.has_und_edge(v, w),
        _ => false,
    }
}

/// A conditioned expansion move: from node `v` arrived at by `arrived`, one
/// step to any neighbour `w` outside the treatment set; moves to parents are
/// offered only when the arrival was not undirected.
pub open spec fn cond_move(g: &PDAG, tm: Seq<bool>, arrived: Edge, v: int, e: Edge, w: int) -> bool {
    &&& 0 <= w < g.n()
    &&& !tm[w]
    &&& match e {
        Edge::Outgoing => g.has_dir_edge(w, v) && arrived != Edge::Undirected,
        Edge::Undirected => g.has_und_edge(v, w),
        Edge::Incoming => g.has_dir_edge(v, w),
        Edge::Init => false,
    }
}

/// Whether a conditioned move out of `v` is blocked by the adjustment set:
/// leaving through a parent after arriving by an incoming edge crosses a
/// collider at `v`, which is blocked exactly when `v` is not adjusted for;
/// every other passage is blocked exactly when `v` is adjusted for.
pub open spec fn blocked_of(zm: Seq<bool>, arrived: Edge, v: int, e: Edge) -> bool {
    if e == Edge::Outgoing && arrived == Edge::Incoming {
        !zm[v]
    } else {
        zm[v]
    }
}

/// The transition tables: the status of the walk after continuing from a walk
/// with status `status` along an edge of kind `e`, `blocked` telling whether
/// the passage was blocked. `None` means the walk does not continue.
pub open spec fn transition(kind: MachineKind, status: WalkStatus, e: Edge, blocked: bool) -> Option<
    WalkStatus,
> {
    match kind {
        MachineKind::DPdNam => match (status, e) {
            (WalkStatus::Init, Edge::Incoming) => Some(WalkStatus::Dir),
            (WalkStatus::Init, Edge::Undirected) => Some(WalkStatus::PdNam),
            (WalkStatus::Dir, Edge::Incoming) => Some(WalkStatus::Dir),
            (WalkStatus::Dir, Edge::Undirected) => Some(WalkStatus::PdAm),
            (WalkStatus::PdAm, Edge::Incoming) => Some(WalkStatus::PdAm),
            (WalkStatus::PdAm, Edge::Undirected) => Some(WalkStatus::PdAm),
            (WalkStatus::PdNam, Edge::Incoming) => Some(WalkStatus::PdNam),
            (WalkStatus::PdNam, Edge::Undirected) => Some(WalkStatus::PdNam),
            _ => None,
        },
        MachineKind::PdNam => match (status, e) {
            (WalkStatus::Init, Edge::Incoming) => Some(WalkStatus::PdAm),
            (WalkStatus::Init, Edge::Undirected) => Some(WalkStatus::PdNam),
            (WalkStatus::PdAm, Edge::Incoming) => Some(WalkStatus::PdAm),
            (WalkStatus::PdAm, Edge::Undirected) => Some(WalkStatus::PdAm),
            (WalkStatus::PdNam, Edge::Incoming) => Some(WalkStatus::PdNam),
            (WalkStatus::PdNam, Edge::Undirected) => Some(WalkStatus::PdNam),
            _ => None,
        },
        MachineKind::Cond => match (status, e) {
            (WalkStatus::Init, Edge::Incoming) => Some(WalkStatus::PdOpenAm),
            (WalkStatus::Init, Edge::Outgoing) => Some(WalkStatus::NonCausalOpen),
            (WalkStatus::Init, Edge::Undirected) => Some(WalkStatus::PdOpenNam),
            (WalkStatus::PdOpenAm, Edge::Incoming) | (WalkStatus::PdOpenAm, Edge::Undirected) => if blocked {
                Some(WalkStatus::PdBlockedAm)
            } else {
                Some(WalkStatus::PdOpenAm)
            },
            (WalkStatus::PdBlockedAm, Edge::Incoming) | (WalkStatus::PdBlockedAm, Edge::Undirected) => Some(
                WalkStatus::PdBlockedAm,
            ),
            (WalkStatus::PdOpenAm, Edge::Outgoing) => if blocked {
                None
            } else {
                Some(WalkStatus::NonCausalOpen)
            },
            (WalkStatus::PdOpenNam, Edge::Incoming) | (WalkStatus::PdOpenNam, Edge::Undirected) => if blocked {
                Some(WalkStatus::PdBlockedNam)
            } else {
                Some(WalkStatus::PdOpenNam)
            },
            (WalkStatus::PdBlockedNam, Edge::Incoming) | (WalkStatus::PdBlockedNam, Edge::Undirected) => Some(
                WalkStatus::PdBlockedNam,
            ),
            (WalkStatus::PdOpenNam, Edge::Outgoing) => if blocked {
                None
            } else {
                Some(WalkStatus::NonCausalOpen)
            },
            (WalkStatus::NonCausalOpen, _) => if blocked {
                None
            } else {
                Some(WalkStatus::NonCausalOpen)
            },
            _ => None,
        },
        MachineKind::Ivb => match (status, e) {
            (WalkStatus::Init, Edge::Incoming) | (WalkStatus::Init, Edge::Undirected) => Some(
                WalkStatus::PdOpen,
            ),
            (WalkStatus::Init, Edge::Outgoing) => Some(WalkStatus::NonCausalOpen),
            (WalkStatus::PdOpen, Edge::Incoming) | (WalkStatus::PdOpen, Edge::Undirected) => if blocked {
                Some(WalkStatus::PdBlocked)
            } else {
                Some(WalkStatus::PdOpen)
            },
            (WalkStatus::PdBlocked, Edge::Incoming) | (WalkStatus::PdBlocked, Edge::Undirected) => Some(
                WalkStatus::PdBlocked,
            ),
            (WalkStatus::PdOpen, Edge::Outgoing) => if blocked {
                None
            } else {
                Some(WalkStatus::NonCausalOpen)
            },
            (WalkStatus::NonCausalOpen, _) => if blocked {
                None
            } else {
                Some(WalkStatus::NonCausalOpen)
            },
            _ => None,
        },
    }
}

/// One valid search step from triple `a` to triple `b`.
pub open spec fn step_ok(
    kind: MachineKind,
    g: &PDAG,
    tm: Seq<bool>,
    zm: Seq<bool>,
    a: Trip,
    b: Trip,
) -> bool {
    if is_cond(kind) {
        &&& cond_move(g, tm, a.0, a.1, b.0, b.1)
        &&& transition(kind, a.2, b.0, blocked_of(zm, a.0, a.1, b.0)) == Some(b.2)
    } else {
        &&& uncond_move(g, tm, a.1, b.0, b.1)
        &&& transition(kind, a.2, b.0, false) == Some(b.2)
    }
}

/// A walk root: the triple the search seeds for each treatment node.
pub open spec fn is_root(g: &PDAG, tm: Seq<bool>, a: Trip) -> bool {
    &&& a.0 == Edge::Init
    &&& 0 <= a.1 < g.n()
    &&& tm[a.1]
    &&& a.2 == WalkStatus::Init
}

/// A valid status walk: a non-empty sequence of triples that starts at a root
/// and proceeds by valid steps.
pub open spec fn is_walk(
    kind: MachineKind,
    g: &PDAG,
    tm: Seq<bool>,
    zm: Seq<bool>,
    p: Seq<Trip>,
) -> bool {
    &&& p.len() >= 1
    &&& is_root(g, tm, p[0])
    &&& forall|k: int| 0 <= k < p.len() - 1 ==> step_ok(kind, g, tm, zm, p[k], #[trigger] p[k + 1])
}

/// The triple `a` is reachable: some valid walk ends at `a`.
pub open spec fn reaches(
    kind: MachineKind,
    g: &PDAG,
    tm: Seq<bool>,
    zm: Seq<bool>,
    a: Trip,
) -> bool {
    exists|p: Seq<Trip>| is_walk(kind, g, tm, zm, p) && p.last() == a
}

/// Node `v` is a descendant of the treatment set: in it, or reached by an
/// all-directed walk.
pub open spec fn in_d(g: &PDAG, tm: Seq<bool>, v: int) -> bool {
    ||| 0 <= v < g.n() && tm[v]
    ||| exists|e: Edge| reaches(MachineKind::DPdNam, g, tm, Seq::empty(), (e, v, WalkStatus::Dir))
}

/// Node `v` is a possible descendant of the treatment set: in it, or reached
/// by a possibly-directed walk.
pub open spec fn in_pd(g: &PDAG, tm: Seq<bool>, v: int) -> bool {
    ||| 0 <= v < g.n() && tm[v]
    ||| exists|e: Edge| reaches(MachineKind::PdNam, g, tm, Seq::empty(), (e, v, WalkStatus::PdAm))
    ||| exists|e: Edge| reaches(MachineKind::PdNam, g, tm, Seq::empty(), (e, v, WalkStatus::PdNam))
}

/// The pair (treatment set, `v`) is not amenable: some possibly-directed walk
/// from the treatment set to `v` starts with an undirected edge.
pub open spec fn in_nam(g: &PDAG, tm: Seq<bool>, v: int) -> bool {
    exists|e: Edge| reaches(MachineKind::PdNam, g, tm, Seq::empty(), (e, v, WalkStatus::PdNam))
}

/// Node `v` is not validly adjusted for by `Z`: it is in `Z`, or reached by a
/// non-amenable walk, by a blocked possibly-directed walk, or by an open
/// non-causal walk.
pub open spec fn in_nva(g: &PDAG, tm: Seq<bool>, zm: Seq<bool>, v: int) -> bool {
    ||| 0 <= v < g.n() && zm[v]
    ||| exists|e: Edge| reaches(MachineKind::Cond, g, tm, zm, (e, v, WalkStatus::PdOpenNam))
    ||| exists|e: Edge| reaches(MachineKind::Cond, g, tm, zm, (e, v, WalkStatus::PdBlockedNam))
    ||| exists|e: Edge| reaches(MachineKind::Cond, g, tm, zm, (e, v, WalkStatus::PdBlockedAm))
    ||| exists|e: Edge| reaches(MachineKind::Cond, g, tm, zm, (e, v, WalkStatus::NonCausalOpen))
}

/// Node `v` is reached by an invalidly (un)blocked walk: a blocked
/// possibly-directed walk or an open non-causal walk, amenability ignored;
/// `Z` itself is included.
pub open spec fn in_ivb(g: &PDAG, tm: Seq<bool>, zm: Seq<bool>, v: int) -> bool {
    ||| 0 <= v < g.n() && zm[v]
    ||| exists|e: Edge| reaches(MachineKind::Ivb, g, tm, zm, (e, v, WalkStatus::PdBlocked))
    ||| exists|e: Edge| reaches(MachineKind::Ivb, g, tm, zm, (e, v, WalkStatus::NonCausalOpen))
}

/// The treatment-set mask over `[0, n)` for a list of treatment nodes.
pub open spec fn tmask_of(t: Seq<usize>, n: int) -> Seq<bool> {
    Seq::new(n as nat, |v: int| t.contains(v as usize))
}

/// Number of walk statuses.
pub const STATUS_COUNT: usize = 11;

/// Number of edge kinds.
pub const EDGE_COUNT: usize = 4;

/// Entries per node in the visited-triple table.
pub const ROW_WIDTH: usize = EDGE_COUNT * STATUS_COUNT;

/// Index of an edge kind.
pub open spec fn edge_idx(e: Edge) -> int {
    match e {
        Edge::Init => 0,
        Edge::Incoming => 1,
        Edge::Outgoing => 2,
        Edge::Undirected => 3,
    }
}

/// Index of a walk status.
pub open spec fn status_idx(s: WalkStatus) -> int {
    match s {
        WalkStatus::Init => 0,
        WalkStatus::Dir => 1,
        WalkStatus::PdAm => 2,
        WalkStatus::PdNam => 3,
        WalkStatus::PdOpenAm => 4,
        WalkStatus::PdBlockedAm => 5,
        WalkStatus::PdOpenNam => 6,
        WalkStatus::PdBlockedNam => 7,
        WalkStatus::NonCausalOpen => 8,
        WalkStatus::PdOpen => 9,
        WalkStatus::PdBlocked => 10,
    }
}

/// Index of an (edge, status) pair within a node's row.
pub open spec fn pair_idx(e: Edge, s: WalkStatus) -> int {
    edge_idx(e) * 11 + status_idx(s)
}

/// `pair_idx` stays within a row and separates distinct pairs.
pub proof fn lemma_pair_idx(e1: Edge, s1: WalkStatus, e2: Edge, s2: WalkStatus)
    ensures
        0 <= pair_idx(e1, s1) < 44,
        pair_idx(e1, s1) == pair_idx(e2, s2) ==> e1 == e2 && s1 == s2,
{
    assert(0 <= edge_idx(e1) < 4);
    assert(0 <= status_idx(s1) < 11);
    assert(0 <= edge_idx(e2) < 4);
    assert(0 <= status_idx(s2) < 11);
}

fn edge_index(e: Edge) -> (r: usize)
    ensures
        r == edge_idx(e),
{
    match e {
        Edge::Init => 0,
        Edge::Incoming => 1,
        Edge::Outgoing => 2,
        Edge::Undirected => 3,
    }
}

fn status_index(s: WalkStatus) -> (r: usize)
    ensures
        r == status_idx(s),
{
    match s {
        WalkStatus::Init => 0,
        WalkStatus::Dir => 1,
        WalkStatus::PdAm => 2,
        WalkStatus::PdNam => 3,
        WalkStatus::PdOpenAm => 4,
        WalkStatus::PdBlockedAm => 5,
        WalkStatus::PdOpenNam => 6,
        WalkStatus::PdBlockedNam => 7,
        WalkStatus::NonCausalOpen => 8,
        WalkStatus::PdOpen => 9,
        WalkStatus::PdBlocked => 10,
    }
}

/// The table of visited (edge, node, status) triples.
struct TripMarks {
    rows: Vec<Vec<bool>>,
}

impl TripMarks {
    /// One row of `ROW_WIDTH` bits per node.
    spec fn wf(&self, n: int) -> bool {
        &&& self.rows@.len() == n
        &&& forall|v: int| 0 <= v < n ==> (#[trigger] self.rows@[v])@.len() == 44
    }

    /// The rows as a matrix of bit masks.
    spec fn table(&self) -> Seq<Seq<bool>> {
        Seq::new(self.rows@.len(), |v: int| self.rows@[v]@)
    }

    /// Whether a triple is marked.
    spec fn marked(&self, a: Trip) -> bool {
        &&& 0 <= a.1 < self.rows@.len()
        &&& self.rows@[a.1]@[pair_idx(a.0, a.2)]
    }

    /// A fresh, all-unmarked table for `n` nodes.
    fn new(n: usize) -> (r: TripMarks)
        ensures
            r.wf(n as int),
            forall|a: Trip| !r.marked(a),
    {
        let mut rows: Vec<Vec<bool>> = Vec::new();
        while rows.len() < n
            invariant
                rows@.len() <= n,
                forall|v: int| 0 <= v < rows@.len() ==> (#[trigger] rows@[v])@.len() == 44,
                forall|v: int, k: int|
                    0 <= v < rows@.len() && 0 <= k < 44 ==> !#[trigger] (rows@[v])@[k],
            decreases n - rows@.len(),
        {
            let mut row: Vec<bool> = Vec::new();
            while row.len() < ROW_WIDTH
                invariant
                    row@.len() <= 44,
                    forall|k: int| 0 <= k < row@.len() ==> !row@[k],
                decreases 44 - row@.len(),
            {
                row.push(false);
            }
            rows.push(row);
        }
        let r = TripMarks { rows };
        proof {
            assert forall|a: Trip| !r.marked(a) by {
                if 0 <= a.1 < r.rows@.len() {
                    lemma_pair_idx(a.0, a.2, a.0, a.2);
                }
            }
        }
        r
    }

    /// Whether the triple `(e, v, s)` is marked.
    fn get(&self, e: Edge, v: usize, s: WalkStatus) -> (r: bool)
        requires
            self.wf(self.rows@.len() as int),
            v < self.rows@.len(),
        ensures
            r == self.marked((e, v as int, s)),
    {
        proof {
            lemma_pair_idx(e, s, e, s);
        }
        let idx = edge_index(e) * STATUS_COUNT + status_index(s);
        self.rows[v][idx]
    }

    /// Marks the triple `(e, v, s)`, which must be new; the total mark count
    /// rises by one.
    fn set(&mut self, e: Edge, v: usize, s: WalkStatus)
        requires
            old(self).wf(old(self).rows@.len() as int),
            v < old(self).rows@.len(),
            !old(self).marked((e, v as int, s)),
        ensures
            final(self).wf(final(self).rows@.len() as int),
            final(self).rows@.len() == old(self).rows@.len(),
            forall|b: Trip|
                final(self).marked(b) == (old(self).marked(b) || b == (e, v as int, s)),
            rows_card(final(self).table(), final(self).rows@.len() as int) == rows_card(
                old(self).table(),
                old(self).rows@.len() as int,
            ) + 1,
    {
        proof {
            lemma_pair_idx(e, s, e, s);
        }
        let idx = edge_index(e) * STATUS_COUNT + status_index(s);
        let ghost old_table = self.table();
        let ghost n = self.rows@.len() as int;
        let mut row = self.rows.remove(v);
        row.set(idx, true);
        self.rows.insert(v, row);
        proof {
            assert(self.rows@ =~= old(self).rows@.update(v as int, row));
            assert forall|b: Trip|
                self.marked(b) == (old(self).marked(b) || b == (e, v as int, s)) by {
                lemma_pair_idx(b.0, b.2, e, s);
            }
            let new_table = self.table();
            let mid_table = old_table.update(
                v as int,
                old_table[v as int].update(pair_idx(e, s), true),
            );
            assert(new_table =~= mid_table) by {
                assert forall|w: int| 0 <= w < n implies new_table[w] == mid_table[w] by {
                    if w != v as int {
                        assert(self.rows@[w] == old(self).rows@[w]);
                    } else {
                        assert(new_table[w] =~= old_table[w].update(pair_idx(e, s), true));
                    }
                }
            }
            lemma_rows_card_set_true(old_table, v as int, pair_idx(e, s), n);
        }
    }
}

/// Appends, for every node of `list` that is not a treatment, a move that
/// arrives at it by `e` with blocking flag `b`.
fn push_moves(
    dst: &mut Vec<(Edge, usize, bool)>,
    e: Edge,
    list: &[usize],
    tmask: &Vec<bool>,
    b: bool,
)
    requires
        forall|k: int| 0 <= k < list@.len() ==> (#[trigger] list@[k]) < tmask@.len(),
    ensures
        forall|m: (Edge, usize, bool)|
            final(dst)@.contains(m) <==> (old(dst)@.contains(m) || (m.0 == e && list@.contains(m.1)
                && !tmask@[m.1 as int] && m.2 == b)),
{
    let mut k: usize = 0;
    while k < list.len()
        invariant
            forall|t: int| 0 <= t < list@.len() ==> (#[trigger] list@[t]) < tmask@.len(),
            k <= list@.len(),
            forall|m: (Edge, usize, bool)|
                dst@.contains(m) <==> (old(dst)@.contains(m) || (m.0 == e && list@.subrange(
                    0,
                    k as int,
                ).contains(m.1) && !tmask@[m.1 as int] && m.2 == b)),
        decreases list@.len() - k,
    {
        let ghost prefix = list@.subrange(0, k as int);
        let ghost old_dst = dst@;
        let w = list[k];
        if !tmask[w] {
            dst.push((e, w, b));
        }
        proof {
            let longer = list@.subrange(0, k + 1);
            assert(longer[k as int] == list@[k as int]);
            assert forall|x: usize| longer.contains(x) implies (prefix.contains(x) || x == w) by {
                let p = choose|p: int| 0 <= p < longer.len() && longer[p] == x;
                if p < k {
                    assert(prefix[p] == x);
                }
            }
            assert forall|x: usize| prefix.contains(x) implies longer.contains(x) by {
                let p = choose|p: int| 0 <= p < prefix.len() && prefix[p] == x;
                assert(longer[p] == x);
            }
            assert forall|m: (Edge, usize, bool)| dst@.contains(m) implies (old_dst.contains(m) || m
                == (e, w, b)) by {
                let p = choose|p: int| 0 <= p < dst@.len() && dst@[p] == m;
                if p < old_dst.len() {
                    assert(old_dst[p] == m);
                }
            }
            if !tmask@[w as int] {
                assert(dst@[dst@.len() - 1] == (e, w, b));
            }
            assert forall|m: (Edge, usize, bool)|
                dst@.contains(m) <==> (old(dst)@.contains(m) || (m.0 == e && longer.contains(m.1)
                    && !tmask@[m.1 as int] && m.2 == b)) by {
                if m == (e, w, b) {
                    if !tmask@[w as int] {
                        assert(dst@.contains(m));
                        assert(longer.contains(w));
                    } else {
                        assert(dst@ == old_dst);
                    }
                } else {
                    assert(dst@.contains(m) == old_dst.contains(m)) by {
                        if dst@.contains(m) {
                            let p = choose|p: int| 0 <= p < dst@.len() && dst@[p] == m;
                            if p < old_dst.len() {
                                assert(old_dst[p] == m);
                            } else {
                                assert(dst@[p] == (e, w, b));
                            }
                        }
                        if old_dst.contains(m) {
                            let p = choose|p: int| 0 <= p < old_dst.len() && old_dst[p] == m;
                            assert(dst@[p] == m);
                        }
                    }
                    if m.0 == e && !tmask@[m.1 as int] && m.2 == b {
                        assert(m.1 != w);
                        assert(longer.contains(m.1) == prefix.contains(m.1));
                    }
                }
            }
        }
        k += 1;
    }
    proof {
        assert(list@.subrange(0, list@.len() as int) =~= list@);
    }
}

/// The unconditioned expansion moves out of `v`: possible children (undirected
/// neighbours and children) outside the treatment set, blocking flag `false`.
fn get_next_steps(g: &PDAG, tmask: &Vec<bool>, v: usize) -> (r: Vec<(Edge, usize, bool)>)
    requires
        g.wf(),
        tmask@.len() == g.n(),
        v < g.n_nodes,
    ensures
        forall|m: (Edge, usize, bool)|
            r@.contains(m) <==> (uncond_move(g, tmask@, v as int, m.0, m.1 as int) && m.2 == false),
{
    let mut r: Vec<(Edge, usize, bool)> = Vec::new();
    proof {
        assert forall|v2: int, x: usize|
            0 <= v2 < g.n() && ((g.parents_seq(v2).contains(x) || g.und_seq(v2).contains(x)
                || g.children_seq(v2).contains(x))) implies x < g.n_nodes by {}
    }
    let und = g.adjacent_undirected_of(v);
    proof {
        assert forall|k: int| 0 <= k < und@.len() implies (#[trigger] und@[k])
            < tmask@.len() by {
            assert(g.und_seq(v as int).contains(und@[k]));
        }
    }
    push_moves(&mut r, Edge::Undirected, und, tmask, false);
    let ch = g.children_of(v);
    proof {
        assert forall|k: int| 0 <= k < ch@.len() implies (#[trigger] ch@[k])
            < tmask@.len() by {
            assert(g.children_seq(v as int).contains(ch@[k]));
        }
    }
    push_moves(&mut r, Edge::Incoming, ch, tmask, false);
    proof {
        assert forall|m: (Edge, usize, bool)|
            r@.contains(m) <==> (uncond_move(g, tmask@, v as int, m.0, m.1 as int) && m.2
                == false) by {
            if r@.contains(m) {
                assert(m.1 < g.n_nodes);
            }
            if uncond_move(g, tmask@, v as int, m.0, m.1 as int) && m.2 == false {
                match m.0 {
                    Edge::Incoming => {
                        assert(g.children_seq(v as int).contains(m.1));
                    },
                    Edge::Undirected => {
                        assert(g.und_seq(v as int).contains(m.1));
                    },
                    _ => {},
                }
            }
        }
    }
    r
}

/// The conditioned expansion moves out of `v`, arrived at by `arrived`: all
/// neighbours outside the treatment set (parents only if the arrival was not
/// undirected), each with its blocking flag relative to the adjustment set.
fn get_next_steps_conditioned(
    g: &PDAG,
    tmask: &Vec<bool>,
    zmask: &Vec<bool>,
    arrived: Edge,
    v: usize,
) -> (r: Vec<(Edge, usize, bool)>)
    requires
        g.wf(),
        tmask@.len() == g.n(),
        zmask@.len() == g.n(),
        v < g.n_nodes,
    ensures
        forall|m: (Edge, usize, bool)|
            r@.contains(m) <==> (cond_move(g, tmask@, arrived, v as int, m.0, m.1 as int) && m.2
                == blocked_of(zmask@, arrived, v as int, m.0)),
{
    let mut r: Vec<(Edge, usize, bool)> = Vec::new();
    proof {
        assert forall|v2: int, x: usize|
            0 <= v2 < g.n() && ((g.parents_seq(v2).contains(x) || g.und_seq(v2).contains(x)
                || g.children_seq(v2).contains(x))) implies x < g.n_nodes by {}
    }
    let node_is_adjustment = zmask[v];
    match arrived {
        Edge::Incoming => {
            let pa = g.parents_of(v);
            proof {
                assert forall|k: int| 0 <= k < pa@.len() implies (#[trigger] pa@[k])
                    < tmask@.len() by {
                    assert(g.parents_seq(v as int).contains(pa@[k]));
                }
            }
            push_moves(&mut r, Edge::Outgoing, pa, tmask, !node_is_adjustment);
        },
        Edge::Init | Edge::Outgoing => {
            let pa = g.parents_of(v);
            proof {
                assert forall|k: int| 0 <= k < pa@.len() implies (#[trigger] pa@[k])
                    < tmask@.len() by {
                    assert(g.parents_seq(v as int).contains(pa@[k]));
                }
            }
            push_moves(&mut r, Edge::Outgoing, pa, tmask, node_is_adjustment);
        },
        Edge::Undirected => {},
    }
    let und = g.adjacent_undirected_of(v);
    proof {
        assert forall|k: int| 0 <= k < und@.len() implies (#[trigger] und@[k])
            < tmask@.len() by {
            assert(g.und_seq(v as int).contains(und@[k]));
        }
    }
    push_moves(&mut r, Edge::Undirected, und, tmask, node_is_adjustment);
    let ch = g.children_of(v);
    proof {
        assert forall|k: int| 0 <= k < ch@.len() implies (#[trigger] ch@[k])
            < tmask@.len() by {
            assert(g.children_seq(v as int).contains(ch@[k]));
        }
    }
    push_moves(&mut r, Edge::Incoming, ch, tmask, node_is_adjustment);
    proof {
        assert forall|m: (Edge, usize, bool)|
            r@.contains(m) <==> (cond_move(g, tmask@, arrived, v as int, m.0, m.1 as int) && m.2
                == blocked_of(zmask@, arrived, v as int, m.0)) by {
            if r@.contains(m) {
                assert(m.1 < g.n_nodes);
                if m.0 == Edge::Outgoing {
                    // a listed parent move: mirror the parent entry to a child entry
                    assert(g.parents_seq(v as int).contains(m.1));
                    assert(g.children_seq(m.1 as int).contains(v as usize));
                }
            }
            if cond_move(g, tmask@, arrived, v as int, m.0, m.1 as int) && m.2 == blocked_of(
                zmask@,
                arrived,
                v as int,
                m.0,
            ) {
                match m.0 {
                    Edge::Outgoing => {
                        assert(g.children_seq(m.1 as int).contains(v as usize));
                        assert(g.parents_seq(v as int).contains(m.1));
                    },
                    Edge::Incoming => {
                        assert(g.children_seq(v as int).contains(m.1));
                    },
                    Edge::Undirected => {
                        assert(g.und_seq(v as int).contains(m.1));
                    },
                    Edge::Init => {},
                }
            }
        }
    }
    r
}

/// The transition tables, executed.
fn transition_exec(kind: MachineKind, status: WalkStatus, e: Edge, blocked: bool) -> (r: Option<
    WalkStatus,
>)
    ensures
        r == transition(kind, status, e, blocked),
{
    match kind {
        MachineKind::DPdNam => match (status, e) {
            (WalkStatus::Init, Edge::Incoming) => Some(WalkStatus::Dir),
            (WalkStatus::Init, Edge::Undirected) => Some(WalkStatus::PdNam),
            (WalkStatus::Dir, Edge::Incoming) => Some(WalkStatus::Dir),
            (WalkStatus::Dir, Edge::Undirected) => Some(WalkStatus::PdAm),
            (WalkStatus::PdAm, Edge::Incoming) => Some(WalkStatus::PdAm),
            (WalkStatus::PdAm, Edge::Undirected) => Some(WalkStatus::PdAm),
            (WalkStatus::PdNam, Edge::Incoming) => Some(WalkStatus::PdNam),
            (WalkStatus::PdNam, Edge::Undirected) => Some(WalkStatus::PdNam),
            _ => None,
        },
        MachineKind::PdNam => match (status, e) {
            (WalkStatus::Init, Edge::Incoming) => Some(WalkStatus::PdAm),
            (WalkStatus::Init, Edge::Undirected) => Some(WalkStatus::PdNam),
            (WalkStatus::PdAm, Edge::Incoming) => Some(WalkStatus::PdAm),
            (WalkStatus::PdAm, Edge::Undirected) => Some(WalkStatus::PdAm),
            (WalkStatus::PdNam, Edge::Incoming) => Some(WalkStatus::PdNam),
            (WalkStatus::PdNam, Edge::Undirected) => Some(WalkStatus::PdNam),
            _ => None,
        },
        MachineKind::Cond => match (status, e) {
            (WalkStatus::Init, Edge::Incoming) => Some(WalkStatus::PdOpenAm),
            (WalkStatus::Init, Edge::Outgoing) => Some(WalkStatus::NonCausalOpen),
            (WalkStatus::Init, Edge::Undirected) => Some(WalkStatus::PdOpenNam),
            (WalkStatus::PdOpenAm, Edge::Incoming) | (WalkStatus::PdOpenAm, Edge::Undirected) => if blocked {
                Some(WalkStatus::PdBlockedAm)
            } else {
                Some(WalkStatus::PdOpenAm)
            },
            (WalkStatus::PdBlockedAm, Edge::Incoming)
            | (WalkStatus::PdBlockedAm, Edge::Undirected) => Some(WalkStatus::PdBlockedAm),
            (WalkStatus::PdOpenAm, Edge::Outgoing) => if blocked {
                None
            } else {
                Some(WalkStatus::NonCausalOpen)
            },
            (WalkStatus::PdOpenNam, Edge::Incoming) | (WalkStatus::PdOpenNam, Edge::Undirected) => if blocked {
                Some(WalkStatus::PdBlockedNam)
            } else {
                Some(WalkStatus::PdOpenNam)
            },
            (WalkStatus::PdBlockedNam, Edge::Incoming)
            | (WalkStatus::PdBlockedNam, Edge::Undirected) => Some(WalkStatus::PdBlockedNam),
            (WalkStatus::PdOpenNam, Edge::Outgoing) => if blocked {
                None
            } else {
                Some(WalkStatus::NonCausalOpen)
            },
            (WalkStatus::NonCausalOpen, _) => if blocked {
                None
            } else {
                Some(WalkStatus::NonCausalOpen)
            },
            _ => None,
        },
        MachineKind::Ivb => match (status, e) {
            (WalkStatus::Init, Edge::Incoming) | (WalkStatus::Init, Edge::Undirected) => Some(
                WalkStatus::PdOpen,
            ),
            (WalkStatus::Init, Edge::Outgoing) => Some(WalkStatus::NonCausalOpen),
            (WalkStatus::PdOpen, Edge::Incoming) | (WalkStatus::PdOpen, Edge::Undirected) => if blocked {
                Some(WalkStatus::PdBlocked)
            } else {
                Some(WalkStatus::PdOpen)
            },
            (WalkStatus::PdBlocked, Edge::Incoming) | (WalkStatus::PdBlocked, Edge::Undirected) => Some(
                WalkStatus::PdBlocked,
            ),
            (WalkStatus::PdOpen, Edge::Outgoing) => if blocked {
                None
            } else {
                Some(WalkStatus::NonCausalOpen)
            },
            (WalkStatus::NonCausalOpen, _) => if blocked {
                None
            } else {
                Some(WalkStatus::NonCausalOpen)
            },
            _ => None,
        },
    }
}

/// The spec triple of an exec stack entry.
pub open spec fn trip_of(t: (Edge, usize, WalkStatus)) -> Trip {
    (t.0, t.1 as int, t.2)
}

/// Whether a stack holds a triple.
pub open spec fn stack_has(s: Seq<(Edge, usize, WalkStatus)>, a: Trip) -> bool {
    exists|k: int| 0 <= k < s.len() && trip_of(s[k]) == a
}

/// Every triple a valid walk passes through is marked, provided the roots are
/// marked and the marks are closed under valid steps.
proof fn lemma_walk_covered(
    kind: MachineKind,
    g: &PDAG,
    tm: Seq<bool>,
    zm: Seq<bool>,
    marks: &TripMarks,
    p: Seq<Trip>,
)
    requires
        is_walk(kind, g, tm, zm, p),
        forall|w: int|
            0 <= w < g.n() && tm[w] ==> marks.marked((Edge::Init, w, WalkStatus::Init)),
        forall|a: Trip, b: Trip|
            marks.marked(a) && step_ok(kind, g, tm, zm, a, b) ==> marks.marked(b),
    ensures
        marks.marked(p.last()),
    decreases p.len(),
{
    if p.len() == 1 {
        assert(p.last() == p[0]);
        assert(p[0] == (Edge::Init, p[0].1, WalkStatus::Init));
    } else {
        let q = p.drop_last();
        assert(is_walk(kind, g, tm, zm, q)) by {
            assert forall|k: int| 0 <= k < q.len() - 1 implies step_ok(
                kind,
                g,
                tm,
                zm,
                q[k],
                #[trigger] q[k + 1],
            ) by {
                assert(q[k] == p[k] && q[k + 1] == p[k + 1]);
                assert(step_ok(kind, g, tm, zm, p[k], p[k + 1]));
            }
        }
        lemma_walk_covered(kind, g, tm, zm, marks, q);
        let k = p.len() - 2;
        assert(q.last() == p[k]);
        assert(step_ok(kind, g, tm, zm, p[k], p[k + 1]));
    }
}

/// The shared depth-first core: marks exactly the triples reachable by valid
/// walks of the chosen machine.
fn search(g: &PDAG, tmask: &Vec<bool>, zmask: &Vec<bool>, kind: MachineKind) -> (marks: TripMarks)
    requires
        g.wf(),
        tmask@.len() == g.n(),
        is_cond(kind) ==> zmask@.len() == g.n(),
    ensures
        marks.wf(g.n()),
        forall|a: Trip| marks.marked(a) <==> reaches(kind, g, tmask@, zmask@, a),
{
    let n = g.n_nodes;
    let ghost tm = tmask@;
    let ghost zm = zmask@;
    let mut marks = TripMarks::new(n);
    let mut stack: Vec<(Edge, usize, WalkStatus)> = Vec::new();

    // seed a root triple for every treatment node
    let mut v: usize = 0;
    while v < n
        invariant
            g.wf(),
            tmask@ == tm,
            tm.len() == g.n(),
            n == g.n_nodes,
            v <= n,
            marks.wf(g.n()),
            marks.rows@.len() == g.n(),
            forall|k: int|
                0 <= k < stack@.len() ==> (#[trigger] stack@[k]).1 < n && marks.marked(
                    trip_of(stack@[k]),
                ),
            forall|a: Trip| marks.marked(a) ==> reaches(kind, g, tm, zm, a),
            forall|a: Trip| marks.marked(a) ==> stack_has(stack@, a),
            forall|a: Trip| marks.marked(a) ==> a.1 < v,
            forall|w: int|
                0 <= w < v && tm[w] ==> marks.marked((Edge::Init, w, WalkStatus::Init)),
        decreases n - v,
    {
        if tmask[v] {
            let ghost pre_stack = stack@;
            marks.set(Edge::Init, v, WalkStatus::Init);
            stack.push((Edge::Init, v, WalkStatus::Init));
            proof {
                let root: Trip = (Edge::Init, v as int, WalkStatus::Init);
                let p: Seq<Trip> = seq![root];
                assert(is_walk(kind, g, tm, zm, p));
                assert(p.last() == root);
                assert(reaches(kind, g, tm, zm, root));
                assert(trip_of(stack@[stack@.len() - 1]) == root);
                assert forall|a: Trip| marks.marked(a) implies stack_has(stack@, a) by {
                    if a != root {
                        assert(stack_has(pre_stack, a));
                        let k = choose|k: int|
                            0 <= k < pre_stack.len() && trip_of(pre_stack[k]) == a;
                        assert(trip_of(stack@[k]) == a);
                    }
                }
            }
        }
        v += 1;
    }

    while stack.len() > 0
        invariant
            g.wf(),
            tmask@ == tm,
            zmask@ == zm,
            tm.len() == g.n(),
            is_cond(kind) ==> zm.len() == g.n(),
            n == g.n_nodes,
            marks.wf(g.n()),
            marks.rows@.len() == g.n(),
            forall|k: int|
                0 <= k < stack@.len() ==> (#[trigger] stack@[k]).1 < n && marks.marked(
                    trip_of(stack@[k]),
                ),
            forall|a: Trip| marks.marked(a) ==> reaches(kind, g, tm, zm, a),
            forall|w: int|
                0 <= w < g.n() && tm[w] ==> marks.marked((Edge::Init, w, WalkStatus::Init)),
            forall|a: Trip, b: Trip|
                marks.marked(a) && !stack_has(stack@, a) && step_ok(kind, g, tm, zm, a, b)
                    ==> marks.marked(b),
        decreases 44 * g.n() - rows_card(marks.table(), g.n()), stack@.len(),
    {
        let ghost pre_table = marks.table();
        let ghost pre_stack = stack@;
        proof {
            lemma_rows_card_bound(marks.table(), g.n(), 44);
        }
        let top = stack.pop().unwrap();
        let (ae, av, ast) = top;
        let ghost a: Trip = trip_of(top);
        let ghost post_pop = stack@;
        proof {
            // the closure property carries over to the shortened stack for
            // every triple other than the popped one
            assert forall|x: Trip, b: Trip|
                marks.marked(x) && x != a && !stack_has(post_pop, x) && step_ok(
                    kind,
                    g,
                    tm,
                    zm,
                    x,
                    b,
                ) implies marks.marked(b) by {
                assert(!stack_has(pre_stack, x)) by {
                    if stack_has(pre_stack, x) {
                        let k = choose|k: int|
                            0 <= k < pre_stack.len() && trip_of(pre_stack[k]) == x;
                        if k < pre_stack.len() - 1 {
                            assert(post_pop[k] == pre_stack[k]);
                            assert(stack_has(post_pop, x));
                        } else {
                            assert(trip_of(pre_stack[pre_stack.len() - 1]) == a);
                        }
                    }
                }
            }
        }

        let moves: Vec<(Edge, usize, bool)> = if matches!(kind, MachineKind::Cond | MachineKind::Ivb) {
            get_next_steps_conditioned(g, tmask, zmask, ae, av)
        } else {
            get_next_steps(g, tmask, av)
        };
        proof {
            assert forall|m: (Edge, usize, bool)| moves@.contains(m) implies (
                m.1 < n && (if is_cond(kind) {
                    cond_move(g, tm, ae, av as int, m.0, m.1 as int) && m.2 == blocked_of(
                        zm,
                        ae,
                        av as int,
                        m.0,
                    )
                } else {
                    uncond_move(g, tm, av as int, m.0, m.1 as int) && m.2 == false
                })) by {}
        }

        let mut idx: usize = 0;
        while idx < moves.len()
            invariant
                g.wf(),
                tmask@ == tm,
                zmask@ == zm,
                tm.len() == g.n(),
                is_cond(kind) ==> zm.len() == g.n(),
                n == g.n_nodes,
                av < n,
                idx <= moves@.len(),
                marks.wf(g.n()),
                marks.rows@.len() == g.n(),
                marks.marked(a),
                a == (ae, av as int, ast),
                forall|m: (Edge, usize, bool)|
                    moves@.contains(m) <==> (if is_cond(kind) {
                        cond_move(g, tm, ae, av as int, m.0, m.1 as int) && m.2 == blocked_of(
                            zm,
                            ae,
                            av as int,
                            m.0,
                        )
                    } else {
                        uncond_move(g, tm, av as int, m.0, m.1 as int) && m.2 == false
                    }),
                forall|k: int|
                    0 <= k < stack@.len() ==> (#[trigger] stack@[k]).1 < n && marks.marked(
                        trip_of(stack@[k]),
                    ),
                forall|x: Trip| stack_has(post_pop, x) ==> stack_has(stack@, x),
                forall|x: Trip| marks.marked(x) ==> reaches(kind, g, tm, zm, x),
                forall|w: int|
                    0 <= w < g.n() && tm[w] ==> marks.marked((Edge::Init, w, WalkStatus::Init)),
                forall|x: Trip, b: Trip|
                    marks.marked(x) && x != a && !stack_has(stack@, x) && step_ok(
                        kind,
                        g,
                        tm,
                        zm,
                        x,
                        b,
                    ) ==> marks.marked(b),
                forall|j: int|
                    0 <= j < idx ==> match transition(
                        kind,
                        ast,
                        (#[trigger] moves@[j]).0,
                        moves@[j].2,
                    ) {
                        Some(s2) => marks.marked((moves@[j].0, moves@[j].1 as int, s2)),
                        None => true,
                    },
                rows_card(marks.table(), g.n()) >= rows_card(pre_table, g.n()),
                rows_card(marks.table(), g.n()) > rows_card(pre_table, g.n()) || stack@
                    == post_pop,
            decreases moves@.len() - idx,
        {
            let (me, mw, mb) = moves[idx];
            proof {
                assert(moves@.contains(moves@[idx as int]));
            }
            let tr = transition_exec(kind, ast, me, mb);
            if let Some(ns) = tr {
                if !marks.get(me, mw, ns) {
                    let ghost b: Trip = (me, mw as int, ns);
                    proof {
                        assert(step_ok(kind, g, tm, zm, a, b));
                        let p = choose|p: Seq<Trip>|
                            is_walk(kind, g, tm, zm, p) && p.last() == a;
                        let p2 = p.push(b);
                        assert(is_walk(kind, g, tm, zm, p2)) by {
                            assert(p2[0] == p[0]);
                            assert forall|k: int| 0 <= k < p2.len() - 1 implies step_ok(
                                kind,
                                g,
                                tm,
                                zm,
                                p2[k],
                                #[trigger] p2[k + 1],
                            ) by {
                                if k < p.len() - 1 {
                                    assert(p2[k] == p[k] && p2[k + 1] == p[k + 1]);
                                    assert(step_ok(kind, g, tm, zm, p[k], p[k + 1]));
                                } else {
                                    assert(p2[k] == p.last() && p2[k + 1] == b);
                                }
                            }
                        }
                        assert(p2.last() == b);
                        assert(reaches(kind, g, tm, zm, b));
                    }
                    let ghost pre_push = stack@;
                    marks.set(me, mw, ns);
                    stack.push((me, mw, ns));
                    proof {
                        assert(trip_of(stack@[stack@.len() - 1]) == b);
                        assert forall|x: Trip| stack_has(pre_push, x) implies stack_has(
                            stack@,
                            x,
                        ) by {
                            let k = choose|k: int|
                                0 <= k < pre_push.len() && trip_of(pre_push[k]) == x;
                            assert(trip_of(stack@[k]) == x);
                        }
                    }
                }
            }
            idx += 1;
        }

        proof {
            // every successor of the popped triple is now marked
            assert forall|b: Trip| step_ok(kind, g, tm, zm, a, b) implies marks.marked(b) by {
                let blk = if is_cond(kind) {
                    blocked_of(zm, ae, av as int, b.0)
                } else {
                    false
                };
                let m = (b.0, b.1 as usize, blk);
                assert(0 <= b.1 < g.n());
                assert(m.1 as int == b.1);
                assert(moves@.contains(m));
                let j = choose|j: int| 0 <= j < moves@.len() && moves@[j] == m;
                assert(transition(kind, ast, m.0, m.2) == Some(b.2));
            }
            // closure is restored for every marked triple off the stack
            assert forall|x: Trip, b: Trip|
                marks.marked(x) && !stack_has(stack@, x) && step_ok(kind, g, tm, zm, x, b) implies marks.marked(
                b,
            ) by {
                if x != a {
                    assert(!stack_has(post_pop, x));
                }
            }
            // termination: either something new was marked, or the stack shrank
            lemma_rows_card_bound(marks.table(), g.n(), 44);
        }
    }

    proof {
        assert forall|a: Trip| marks.marked(a) <==> reaches(kind, g, tm, zm, a) by {
            if reaches(kind, g, tm, zm, a) {
                let p = choose|p: Seq<Trip>| is_walk(kind, g, tm, zm, p) && p.last() == a;
                lemma_walk_covered(kind, g, tm, zm, &marks, p);
            }
        }
    }
    marks
}

/// Whether node `v` was reached with status `s` by any arrival edge.
fn status_any(marks: &TripMarks, v: usize, s: WalkStatus) -> (r: bool)
    requires
        marks.wf(marks.rows@.len() as int),
        v < marks.rows@.len(),
    ensures
        r == exists|e: Edge| marks.marked((e, v as int, s)),
{
    let r = marks.get(Edge::Init, v, s) || marks.get(Edge::Incoming, v, s) || marks.get(
        Edge::Outgoing,
        v,
        s,
    ) || marks.get(Edge::Undirected, v, s);
    proof {
        if r {
            if marks.marked((Edge::Init, v as int, s)) {
                assert(marks.marked((Edge::Init, v as int, s)));
            } else if marks.marked((Edge::Incoming, v as int, s)) {
                assert(marks.marked((Edge::Incoming, v as int, s)));
            } else if marks.marked((Edge::Outgoing, v as int, s)) {
                assert(marks.marked((Edge::Outgoing, v as int, s)));
            } else {
                assert(marks.marked((Edge::Undirected, v as int, s)));
            }
        } else {
            assert forall|e: Edge| !marks.marked((e, v as int, s)) by {
                match e {
                    Edge::Init => {},
                    Edge::Incoming => {},
                    Edge::Outgoing => {},
                    Edge::Undirected => {},
                }
            }
        }
    }
    r
}

/// Computes, for a treatment set `t` (all entries below the node count), the
/// set PD of possible descendants and the set NAM of nodes to which the graph
/// is not amenable, each as a membership mask.
pub fn get_pd_nam(g: &PDAG, t: &[usize]) -> (r: (Vec<bool>, Vec<bool>))
    requires
        g.wf(),
        forall|k: int| 0 <= k < t@.len() ==> (#[trigger] t@[k]) < g.n_nodes,
    ensures
        r.0@.len() == g.n(),
        r.1@.len() == g.n(),
        forall|v: int| 0 <= v < g.n() ==> r.0@[v] == in_pd(g, tmask_of(t@, g.n()), v),
        forall|v: int| 0 <= v < g.n() ==> r.1@[v] == in_nam(g, tmask_of(t@, g.n()), v),
{
    let n = g.n_nodes;
    let tmask = mask_from_list(n, t);
    let ghost tm = tmask_of(t@, g.n());
    proof {
        assert(tmask@ =~= tm);
    }
    let zdummy: Vec<bool> = Vec::new();
    proof {
        assert(zdummy@ =~= Seq::<bool>::empty());
    }
    let marks = search(g, &tmask, &zdummy, MachineKind::PdNam);
    let mut pd: Vec<bool> = Vec::new();
    let mut nam: Vec<bool> = Vec::new();
    let mut v: usize = 0;
    while v < n
        invariant
            g.wf(),
            n == g.n_nodes,
            v <= n,
            tmask@ == tm,
            tm.len() == g.n(),
            marks.wf(g.n()),
            marks.rows@.len() == g.n(),
            forall|a: Trip|
                marks.marked(a) <==> reaches(MachineKind::PdNam, g, tm, Seq::empty(), a),
            pd@.len() == v,
            nam@.len() == v,
            forall|w: int| 0 <= w < v ==> pd@[w] == in_pd(g, tm, w),
            forall|w: int| 0 <= w < v ==> nam@[w] == in_nam(g, tm, w),
        decreases n - v,
    {
        let am = status_any(&marks, v, WalkStatus::PdAm);
        let nm = status_any(&marks, v, WalkStatus::PdNam);
        pd.push(tmask[v] || am || nm);
        nam.push(nm);
        proof {
            let vi = v as int;
            assert(nm == in_nam(g, tm, vi)) by {
                if nm {
                    let e = choose|e: Edge| marks.marked((e, vi, WalkStatus::PdNam));
                    assert(reaches(MachineKind::PdNam, g, tm, Seq::empty(), (e, vi, WalkStatus::PdNam)));
                } else if in_nam(g, tm, vi) {
                    let e = choose|e: Edge|
                        reaches(MachineKind::PdNam, g, tm, Seq::empty(), (e, vi, WalkStatus::PdNam));
                    assert(marks.marked((e, vi, WalkStatus::PdNam)));
                }
            }
            assert((tmask@[vi] || am || nm) == in_pd(g, tm, vi)) by {
                if am {
                    let e = choose|e: Edge| marks.marked((e, vi, WalkStatus::PdAm));
                    assert(reaches(MachineKind::PdNam, g, tm, Seq::empty(), (e, vi, WalkStatus::PdAm)));
                }
                if !(tmask@[vi] || am || nm) && in_pd(g, tm, vi) {
                    if exists|e: Edge|
                        reaches(MachineKind::PdNam, g, tm, Seq::empty(), (e, vi, WalkStatus::PdAm)) {
                        let e = choose|e: Edge|
                            reaches(MachineKind::PdNam, g, tm, Seq::empty(), (e, vi, WalkStatus::PdAm));
                        assert(marks.marked((e, vi, WalkStatus::PdAm)));
                    } else {
                        let e = choose|e: Edge|
                            reaches(MachineKind::PdNam, g, tm, Seq::empty(), (e, vi, WalkStatus::PdNam));
                        assert(marks.marked((e, vi, WalkStatus::PdNam)));
                    }
                }
            }
        }
        v += 1;
    }
    (pd, nam)
}

/// The status an unconditioned walk of the descendant-tracking machine maps
/// to in the merged machine.
pub open spec fn dstat_to_pd(s: WalkStatus) -> WalkStatus {
    match s {
        WalkStatus::Dir => WalkStatus::PdAm,
        other => other,
    }
}

/// The statuses of the conditioned machine that describe possibly-directed
/// walks (or the root).
pub open spec fn is_pd_cond_status(s: WalkStatus) -> bool {
    match s {
        WalkStatus::Init
        | WalkStatus::PdOpenAm
        | WalkStatus::PdBlockedAm
        | WalkStatus::PdOpenNam
        | WalkStatus::PdBlockedNam => true,
        _ => false,
    }
}

/// The status a possibly-directed conditioned walk maps to when the
/// adjustment set is ignored.
pub open spec fn cond_to_pd(s: WalkStatus) -> WalkStatus {
    match s {
        WalkStatus::PdOpenAm | WalkStatus::PdBlockedAm => WalkStatus::PdAm,
        WalkStatus::PdOpenNam | WalkStatus::PdBlockedNam => WalkStatus::PdNam,
        other => other,
    }
}

/// The status a conditioned walk maps to when the amenability distinction is
/// dropped.
pub open spec fn cond_to_ivb(s: WalkStatus) -> WalkStatus {
    match s {
        WalkStatus::PdOpenAm | WalkStatus::PdOpenNam => WalkStatus::PdOpen,
        WalkStatus::PdBlockedAm | WalkStatus::PdBlockedNam => WalkStatus::PdBlocked,
        other => other,
    }
}

/// A status of the full conditioned machine.
pub open spec fn is_cond_status(s: WalkStatus) -> bool {
    match s {
        WalkStatus::Init
        | WalkStatus::PdOpenAm
        | WalkStatus::PdBlockedAm
        | WalkStatus::PdOpenNam
        | WalkStatus::PdBlockedNam
        | WalkStatus::NonCausalOpen => true,
        _ => false,
    }
}

/// Every walk of the descendant-tracking machine is mirrored in the merged
/// machine, with descendant status folded into the amenable status.
proof fn lemma_walk_dpdnam_to_pdnam(g: &PDAG, tm: Seq<bool>, zm: Seq<bool>, p: Seq<Trip>)
    requires
        is_walk(MachineKind::DPdNam, g, tm, zm, p),
    ensures
        reaches(
            MachineKind::PdNam,
            g,
            tm,
            zm,
            (p.last().0, p.last().1, dstat_to_pd(p.last().2)),
        ),
    decreases p.len(),
{
    let target: Trip = (p.last().0, p.last().1, dstat_to_pd(p.last().2));
    if p.len() == 1 {
        let q: Seq<Trip> = seq![p[0]];
        assert(is_walk(MachineKind::PdNam, g, tm, zm, q));
        assert(q.last() == target);
    } else {
        let q = p.drop_last();
        assert(is_walk(MachineKind::DPdNam, g, tm, zm, q)) by {
            assert forall|k: int| 0 <= k < q.len() - 1 implies step_ok(
                MachineKind::DPdNam,
                g,
                tm,
                zm,
                q[k],
                #[trigger] q[k + 1],
            ) by {
                assert(q[k] == p[k] && q[k + 1] == p[k + 1]);
                assert(step_ok(MachineKind::DPdNam, g, tm, zm, p[k], p[k + 1]));
            }
        }
        lemma_walk_dpdnam_to_pdnam(g, tm, zm, q);
        let k = p.len() - 2;
        assert(step_ok(MachineKind::DPdNam, g, tm, zm, p[k], p[k + 1]));
        let prev: Trip = (p[k].0, p[k].1, dstat_to_pd(p[k].2));
        let w = choose|w: Seq<Trip>|
            is_walk(MachineKind::PdNam, g, tm, zm, w) && w.last() == prev;
        let w2 = w.push(target);
        assert(step_ok(MachineKind::PdNam, g, tm, zm, prev, target));
        assert(is_walk(MachineKind::PdNam, g, tm, zm, w2)) by {
            assert(w2[0] == w[0]);
            assert forall|j: int| 0 <= j < w2.len() - 1 implies step_ok(
                MachineKind::PdNam,
                g,
                tm,
                zm,
                w2[j],
                #[trigger] w2[j + 1],
            ) by {
                if j < w.len() - 1 {
                    assert(w2[j] == w[j] && w2[j + 1] == w[j + 1]);
                    assert(step_ok(MachineKind::PdNam, g, tm, zm, w[j], w[j + 1]));
                } else {
                    assert(w2[j] == w.last() && w2[j + 1] == target);
                }
            }
        }
        assert(w2.last() == target);
    }
}

/// Every walk of the merged machine is mirrored in the descendant-tracking
/// machine, with the amenable status unfolding to either descendant or
/// amenable status.
proof fn lemma_walk_pdnam_to_dpdnam(g: &PDAG, tm: Seq<bool>, zm: Seq<bool>, p: Seq<Trip>)
    requires
        is_walk(MachineKind::PdNam, g, tm, zm, p),
    ensures
        exists|s: WalkStatus|
            dstat_to_pd(s) == p.last().2 && reaches(
                MachineKind::DPdNam,
                g,
                tm,
                zm,
                (p.last().0, p.last().1, s),
            ),
    decreases p.len(),
{
    if p.len() == 1 {
        let q: Seq<Trip> = seq![p[0]];
        assert(is_walk(MachineKind::DPdNam, g, tm, zm, q));
        assert(dstat_to_pd(WalkStatus::Init) == p.last().2);
        assert(q.last() == (p.last().0, p.last().1, WalkStatus::Init));
    } else {
        let q = p.drop_last();
        assert(is_walk(MachineKind::PdNam, g, tm, zm, q)) by {
            assert forall|k: int| 0 <= k < q.len() - 1 implies step_ok(
                MachineKind::PdNam,
                g,
                tm,
                zm,
                q[k],
                #[trigger] q[k + 1],
            ) by {
                assert(q[k] == p[k] && q[k + 1] == p[k + 1]);
                assert(step_ok(MachineKind::PdNam, g, tm, zm, p[k], p[k + 1]));
            }
        }
        lemma_walk_pdnam_to_dpdnam(g, tm, zm, q);
        let k = p.len() - 2;
        assert(step_ok(MachineKind::PdNam, g, tm, zm, p[k], p[k + 1]));
        let sprev = choose|sprev: WalkStatus|
            dstat_to_pd(sprev) == q.last().2 && reaches(
                MachineKind::DPdNam,
                g,
                tm,
                zm,
                (q.last().0, q.last().1, sprev),
            );
        let prev: Trip = (p[k].0, p[k].1, sprev);
        let snext = transition(MachineKind::DPdNam, sprev, p.last().0, false).unwrap();
        let target: Trip = (p.last().0, p.last().1, snext);
        assert(step_ok(MachineKind::DPdNam, g, tm, zm, prev, target));
        assert(dstat_to_pd(snext) == p.last().2);
        let w = choose|w: Seq<Trip>|
            is_walk(MachineKind::DPdNam, g, tm, zm, w) && w.last() == prev;
        let w2 = w.push(target);
        assert(is_walk(MachineKind::DPdNam, g, tm, zm, w2)) by {
            assert(w2[0] == w[0]);
            assert forall|j: int| 0 <= j < w2.len() - 1 implies step_ok(
                MachineKind::DPdNam,
                g,
                tm,
                zm,
                w2[j],
                #[trigger] w2[j + 1],
            ) by {
                if j < w.len() - 1 {
                    assert(w2[j] == w[j] && w2[j + 1] == w[j + 1]);
                    assert(step_ok(MachineKind::DPdNam, g, tm, zm, w[j], w[j + 1]));
                } else {
                    assert(w2[j] == w.last() && w2[j + 1] == target);
                }
            }
        }
        assert(w2.last() == target);
    }
}

/// Every possibly-directed walk of the conditioned machine is mirrored in the
/// merged unconditioned machine.
proof fn lemma_walk_cond_to_pdnam(g: &PDAG, tm: Seq<bool>, zm: Seq<bool>, p: Seq<Trip>)
    requires
        is_walk(MachineKind::Cond, g, tm, zm, p),
        is_pd_cond_status(p.last().2),
    ensures
        reaches(MachineKind::PdNam, g, tm, zm, (p.last().0, p.last().1, cond_to_pd(p.last().2))),
    decreases p.len(),
{
    let target: Trip = (p.last().0, p.last().1, cond_to_pd(p.last().2));
    if p.len() == 1 {
        let q: Seq<Trip> = seq![p[0]];
        assert(is_walk(MachineKind::PdNam, g, tm, zm, q));
        assert(q.last() == target);
    } else {
        let q = p.drop_last();
        assert(is_walk(MachineKind::Cond, g, tm, zm, q)) by {
            assert forall|k: int| 0 <= k < q.len() - 1 implies step_ok(
                MachineKind::Cond,
                g,
                tm,
                zm,
                q[k],
                #[trigger] q[k + 1],
            ) by {
                assert(q[k] == p[k] && q[k + 1] == p[k + 1]);
                assert(step_ok(MachineKind::Cond, g, tm, zm, p[k], p[k + 1]));
            }
        }
        let k = p.len() - 2;
        assert(step_ok(MachineKind::Cond, g, tm, zm, p[k], p[k + 1]));
        // a possibly-directed status is only reached from one
        assert(is_pd_cond_status(p[k].2));
        lemma_walk_cond_to_pdnam(g, tm, zm, q);
        let prev: Trip = (p[k].0, p[k].1, cond_to_pd(p[k].2));
        assert(step_ok(MachineKind::PdNam, g, tm, zm, prev, target));
        let w = choose|w: Seq<Trip>|
            is_walk(MachineKind::PdNam, g, tm, zm, w) && w.last() == prev;
        let w2 = w.push(target);
        assert(is_walk(MachineKind::PdNam, g, tm, zm, w2)) by {
            assert(w2[0] == w[0]);
            assert forall|j: int| 0 <= j < w2.len() - 1 implies step_ok(
                MachineKind::PdNam,
                g,
                tm,
                zm,
                w2[j],
                #[trigger] w2[j + 1],
            ) by {
                if j < w.len() - 1 {
                    assert(w2[j] == w[j] && w2[j + 1] == w[j + 1]);
                    assert(step_ok(MachineKind::PdNam, g, tm, zm, w[j], w[j + 1]));
                } else {
                    assert(w2[j] == w.last() && w2[j + 1] == target);
                }
            }
        }
        assert(w2.last() == target);
    }
}

/// Every walk of the merged unconditioned machine is mirrored in the
/// conditioned machine, with some open-or-blocked refinement of its status.
proof fn lemma_walk_pdnam_to_cond(g: &PDAG, tm: Seq<bool>, zm: Seq<bool>, p: Seq<Trip>)
    requires
        is_walk(MachineKind::PdNam, g, tm, zm, p),
    ensures
        exists|s: WalkStatus|
            is_pd_cond_status(s) && cond_to_pd(s) == p.last().2 && reaches(
                MachineKind::Cond,
                g,
                tm,
                zm,
                (p.last().0, p.last().1, s),
            ),
    decreases p.len(),
{
    if p.len() == 1 {
        let q: Seq<Trip> = seq![p[0]];
        assert(is_walk(MachineKind::Cond, g, tm, zm, q));
        assert(is_pd_cond_status(WalkStatus::Init) && cond_to_pd(WalkStatus::Init) == p.last().2);
        assert(q.last() == (p.last().0, p.last().1, WalkStatus::Init));
    } else {
        let q = p.drop_last();
        assert(is_walk(MachineKind::PdNam, g, tm, zm, q)) by {
            assert forall|k: int| 0 <= k < q.len() - 1 implies step_ok(
                MachineKind::PdNam,
                g,
                tm,
                zm,
                q[k],
                #[trigger] q[k + 1],
            ) by {
                assert(q[k] == p[k] && q[k + 1] == p[k + 1]);
                assert(step_ok(MachineKind::PdNam, g, tm, zm, p[k], p[k + 1]));
            }
        }
        lemma_walk_pdnam_to_cond(g, tm, zm, q);
        let k = p.len() - 2;
        assert(step_ok(MachineKind::PdNam, g, tm, zm, p[k], p[k + 1]));
        let sprev = choose|sprev: WalkStatus|
            is_pd_cond_status(sprev) && cond_to_pd(sprev) == q.last().2 && reaches(
                MachineKind::Cond,
                g,
                tm,
                zm,
                (q.last().0, q.last().1, sprev),
            );
        let prev: Trip = (p[k].0, p[k].1, sprev);
        let blk = blocked_of(zm, p[k].0, p[k].1, p.last().0);
        let snext = transition(MachineKind::Cond, sprev, p.last().0, blk).unwrap();
        let target: Trip = (p.last().0, p.last().1, snext);
        assert(step_ok(MachineKind::Cond, g, tm, zm, prev, target));
        assert(is_pd_cond_status(snext) && cond_to_pd(snext) == p.last().2);
        let w = choose|w: Seq<Trip>|
            is_walk(MachineKind::Cond, g, tm, zm, w) && w.last() == prev;
        let w2 = w.push(target);
        assert(is_walk(MachineKind::Cond, g, tm, zm, w2)) by {
            assert(w2[0] == w[0]);
            assert forall|j: int| 0 <= j < w2.len() - 1 implies step_ok(
                MachineKind::Cond,
                g,
                tm,
                zm,
                w2[j],
                #[trigger] w2[j + 1],
            ) by {
                if j < w.len() - 1 {
                    assert(w2[j] == w[j] && w2[j + 1] == w[j + 1]);
                    assert(step_ok(MachineKind::Cond, g, tm, zm, w[j], w[j + 1]));
                } else {
                    assert(w2[j] == w.last() && w2[j + 1] == target);
                }
            }
        }
        assert(w2.last() == target);
    }
}

/// Every walk of the conditioned machine is mirrored in the machine that
/// ignores the amenability distinction.
proof fn lemma_walk_cond_to_ivb(g: &PDAG, tm: Seq<bool>, zm: Seq<bool>, p: Seq<Trip>)
    requires
        is_walk(MachineKind::Cond, g, tm, zm, p),
    ensures
        reaches(MachineKind::Ivb, g, tm, zm, (p.last().0, p.last().1, cond_to_ivb(p.last().2))),
    decreases p.len(),
{
    let target: Trip = (p.last().0, p.last().1, cond_to_ivb(p.last().2));
    if p.len() == 1 {
        let q: Seq<Trip> = seq![p[0]];
        assert(is_walk(MachineKind::Ivb, g, tm, zm, q));
        assert(q.last() == target);
    } else {
        let q = p.drop_last();
        assert(is_walk(MachineKind::Cond, g, tm, zm, q)) by {
            assert forall|k: int| 0 <= k < q.len() - 1 implies step_ok(
                MachineKind::Cond,
                g,
                tm,
                zm,
                q[k],
                #[trigger] q[k + 1],
            ) by {
                assert(q[k] == p[k] && q[k + 1] == p[k + 1]);
                assert(step_ok(MachineKind::Cond, g, tm, zm, p[k], p[k + 1]));
            }
        }
        lemma_walk_cond_to_ivb(g, tm, zm, q);
        let k = p.len() - 2;
        assert(step_ok(MachineKind::Cond, g, tm, zm, p[k], p[k + 1]));
        let prev: Trip = (p[k].0, p[k].1, cond_to_ivb(p[k].2));
        assert(step_ok(MachineKind::Ivb, g, tm, zm, prev, target));
        let w = choose|w: Seq<Trip>|
            is_walk(MachineKind::Ivb, g, tm, zm, w) && w.last() == prev;
        let w2 = w.push(target);
        assert(is_walk(MachineKind::Ivb, g, tm, zm, w2)) by {
            assert(w2[0] == w[0]);
            assert forall|j: int| 0 <= j < w2.len() - 1 implies step_ok(
                MachineKind::Ivb,
                g,
                tm,
                zm,
                w2[j],
                #[trigger] w2[j + 1],
            ) by {
                if j < w.len() - 1 {
                    assert(w2[j] == w[j] && w2[j + 1] == w[j + 1]);
                    assert(step_ok(MachineKind::Ivb, g, tm, zm, w[j], w[j + 1]));
                } else {
                    assert(w2[j] == w.last() && w2[j + 1] == target);
                }
            }
        }
        assert(w2.last() == target);
    }
}

/// Every walk of the amenability-ignoring machine lifts to the full
/// conditioned machine.
proof fn lemma_walk_ivb_to_cond(g: &PDAG, tm: Seq<bool>, zm: Seq<bool>, p: Seq<Trip>)
    requires
        is_walk(MachineKind::Ivb, g, tm, zm, p),
    ensures
        exists|s: WalkStatus|
            is_cond_status(s) && cond_to_ivb(s) == p.last().2 && reaches(
                MachineKind::Cond,
                g,
                tm,
                zm,
                (p.last().0, p.last().1, s),
            ),
    decreases p.len(),
{
    if p.len() == 1 {
        let q: Seq<Trip> = seq![p[0]];
        assert(is_walk(MachineKind::Cond, g, tm, zm, q));
        assert(is_cond_status(WalkStatus::Init) && cond_to_ivb(WalkStatus::Init) == p.last().2);
        assert(q.last() == (p.last().0, p.last().1, WalkStatus::Init));
    } else {
        let q = p.drop_last();
        assert(is_walk(MachineKind::Ivb, g, tm, zm, q)) by {
            assert forall|k: int| 0 <= k < q.len() - 1 implies step_ok(
                MachineKind::Ivb,
                g,
                tm,
                zm,
                q[k],
                #[trigger] q[k + 1],
            ) by {
                assert(q[k] == p[k] && q[k + 1] == p[k + 1]);
                assert(step_ok(MachineKind::Ivb, g, tm, zm, p[k], p[k + 1]));
            }
        }
        lemma_walk_ivb_to_cond(g, tm, zm, q);
        let k = p.len() - 2;
        assert(step_ok(MachineKind::Ivb, g, tm, zm, p[k], p[k + 1]));
        let sprev = choose|sprev: WalkStatus|
            is_cond_status(sprev) && cond_to_ivb(sprev) == q.last().2 && reaches(
                MachineKind::Cond,
                g,
                tm,
                zm,
                (q.last().0, q.last().1, sprev),
            );
        let prev: Trip = (p[k].0, p[k].1, sprev);
        let blk = blocked_of(zm, p[k].0, p[k].1, p.last().0);
        let snext = transition(MachineKind::Cond, sprev, p.last().0, blk).unwrap();
        let target: Trip = (p.last().0, p.last().1, snext);
        assert(step_ok(MachineKind::Cond, g, tm, zm, prev, target));
        assert(is_cond_status(snext) && cond_to_ivb(snext) == p.last().2);
        let w = choose|w: Seq<Trip>|
            is_walk(MachineKind::Cond, g, tm, zm, w) && w.last() == prev;
        let w2 = w.push(target);
        assert(is_walk(MachineKind::Cond, g, tm, zm, w2)) by {
            assert(w2[0] == w[0]);
            assert forall|j: int| 0 <= j < w2.len() - 1 implies step_ok(
                MachineKind::Cond,
                g,
                tm,
                zm,
                w2[j],
                #[trigger] w2[j + 1],
            ) by {
                if j < w.len() - 1 {
                    assert(w2[j] == w[j] && w2[j + 1] == w[j + 1]);
                    assert(step_ok(MachineKind::Cond, g, tm, zm, w[j], w[j + 1]));
                } else {
                    assert(w2[j] == w.last() && w2[j + 1] == target);
                }
            }
        }
        assert(w2.last() == target);
    }
}

/// Computes, for a treatment set `t`, the set NAM of nodes to which the graph
/// is not amenable, as a membership mask.
pub fn get_nam(g: &PDAG, t: &[usize]) -> (r: Vec<bool>)
    requires
        g.wf(),
        forall|k: int| 0 <= k < t@.len() ==> (#[trigger] t@[k]) < g.n_nodes,
    ensures
        r@.len() == g.n(),
        forall|v: int| 0 <= v < g.n() ==> r@[v] == in_nam(g, tmask_of(t@, g.n()), v),
{
    let (_, nam) = get_pd_nam(g, t);
    nam
}

/// For the unconditioned machines the adjustment set plays no part.
proof fn lemma_uncond_zm_irrelevant(
    kind: MachineKind,
    g: &PDAG,
    tm: Seq<bool>,
    zm1: Seq<bool>,
    zm2: Seq<bool>,
    a: Trip,
)
    requires
        !is_cond(kind),
        reaches(kind, g, tm, zm1, a),
    ensures
        reaches(kind, g, tm, zm2, a),
{
    let p = choose|p: Seq<Trip>| is_walk(kind, g, tm, zm1, p) && p.last() == a;
    assert(is_walk(kind, g, tm, zm2, p)) by {
        assert forall|k: int| 0 <= k < p.len() - 1 implies step_ok(
            kind,
            g,
            tm,
            zm2,
            p[k],
            #[trigger] p[k + 1],
        ) by {
            assert(step_ok(kind, g, tm, zm1, p[k], p[k + 1]));
        }
    }
}

/// Descendants are possible descendants.
pub proof fn lemma_d_subset_pd(g: &PDAG, tm: Seq<bool>, v: int)
    requires
        in_d(g, tm, v),
    ensures
        in_pd(g, tm, v),
{
    if !(0 <= v < g.n() && tm[v]) {
        let e = choose|e: Edge|
            reaches(MachineKind::DPdNam, g, tm, Seq::empty(), (e, v, WalkStatus::Dir));
        let p = choose|p: Seq<Trip>|
            is_walk(MachineKind::DPdNam, g, tm, Seq::empty(), p) && p.last() == (
                e,
                v,
                WalkStatus::Dir,
            );
        lemma_walk_dpdnam_to_pdnam(g, tm, Seq::empty(), p);
    }
}

/// Non-amenable nodes are possible descendants.
pub proof fn lemma_nam_subset_pd(g: &PDAG, tm: Seq<bool>, v: int)
    requires
        in_nam(g, tm, v),
    ensures
        in_pd(g, tm, v),
{
}

/// Non-amenable nodes are never validly adjusted for, whatever the
/// adjustment set.
pub proof fn lemma_nam_subset_nva(g: &PDAG, tm: Seq<bool>, zm: Seq<bool>, v: int)
    requires
        in_nam(g, tm, v),
    ensures
        in_nva(g, tm, zm, v),
{
    let e = choose|e: Edge|
        reaches(MachineKind::PdNam, g, tm, Seq::empty(), (e, v, WalkStatus::PdNam));
    lemma_uncond_zm_irrelevant(
        MachineKind::PdNam,
        g,
        tm,
        Seq::empty(),
        zm,
        (e, v, WalkStatus::PdNam),
    );
    let p = choose|p: Seq<Trip>|
        is_walk(MachineKind::PdNam, g, tm, zm, p) && p.last() == (e, v, WalkStatus::PdNam);
    lemma_walk_pdnam_to_cond(g, tm, zm, p);
    let sc = choose|sc: WalkStatus|
        is_pd_cond_status(sc) && cond_to_pd(sc) == WalkStatus::PdNam && reaches(
            MachineKind::Cond,
            g,
            tm,
            zm,
            (e, v, sc),
        );
    assert(sc == WalkStatus::PdOpenNam || sc == WalkStatus::PdBlockedNam);
}

/// A node is not validly adjusted for exactly when it is reached by an
/// invalidly (un)blocked walk or the pair is not amenable.
pub proof fn lemma_nva_is_ivb_or_nam(g: &PDAG, tm: Seq<bool>, zm: Seq<bool>, v: int)
    ensures
        in_nva(g, tm, zm, v) == (in_ivb(g, tm, zm, v) || in_nam(g, tm, v)),
{
    if in_nva(g, tm, zm, v) {
        if 0 <= v < g.n() && zm[v] {
            assert(in_ivb(g, tm, zm, v));
        } else if exists|e: Edge|
            reaches(MachineKind::Cond, g, tm, zm, (e, v, WalkStatus::PdOpenNam)) {
            let e = choose|e: Edge|
                reaches(MachineKind::Cond, g, tm, zm, (e, v, WalkStatus::PdOpenNam));
            let p = choose|p: Seq<Trip>|
                is_walk(MachineKind::Cond, g, tm, zm, p) && p.last() == (
                    e,
                    v,
                    WalkStatus::PdOpenNam,
                );
            lemma_walk_cond_to_pdnam(g, tm, zm, p);
            lemma_uncond_zm_irrelevant(
                MachineKind::PdNam,
                g,
                tm,
                zm,
                Seq::empty(),
                (e, v, WalkStatus::PdNam),
            );
            assert(in_nam(g, tm, v));
        } else if exists|e: Edge|
            reaches(MachineKind::Cond, g, tm, zm, (e, v, WalkStatus::PdBlockedNam)) {
            let e = choose|e: Edge|
                reaches(MachineKind::Cond, g, tm, zm, (e, v, WalkStatus::PdBlockedNam));
            let p = choose|p: Seq<Trip>|
                is_walk(MachineKind::Cond, g, tm, zm, p) && p.last() == (
                    e,
                    v,
                    WalkStatus::PdBlockedNam,
                );
            lemma_walk_cond_to_pdnam(g, tm, zm, p);
            lemma_uncond_zm_irrelevant(
                MachineKind::PdNam,
                g,
                tm,
                zm,
                Seq::empty(),
                (e, v, WalkStatus::PdNam),
            );
            assert(in_nam(g, tm, v));
        } else if exists|e: Edge|
            reaches(MachineKind::Cond, g, tm, zm, (e, v, WalkStatus::PdBlockedAm)) {
            let e = choose|e: Edge|
                reaches(MachineKind::Cond, g, tm, zm, (e, v, WalkStatus::PdBlockedAm));
            let p = choose|p: Seq<Trip>|
                is_walk(MachineKind::Cond, g, tm, zm, p) && p.last() == (
                    e,
                    v,
                    WalkStatus::PdBlockedAm,
                );
            lemma_walk_cond_to_ivb(g, tm, zm, p);
            assert(in_ivb(g, tm, zm, v));
        } else {
            let e = choose|e: Edge|
                reaches(MachineKind::Cond, g, tm, zm, (e, v, WalkStatus::NonCausalOpen));
            let p = choose|p: Seq<Trip>|
                is_walk(MachineKind::Cond, g, tm, zm, p) && p.last() == (
                    e,
                    v,
                    WalkStatus::NonCausalOpen,
                );
            lemma_walk_cond_to_ivb(g, tm, zm, p);
            assert(in_ivb(g, tm, zm, v));
        }
    }
    if in_ivb(g, tm, zm, v) {
        if 0 <= v < g.n() && zm[v] {
            assert(in_nva(g, tm, zm, v));
        } else if exists|e: Edge|
            reaches(MachineKind::Ivb, g, tm, zm, (e, v, WalkStatus::PdBlocked)) {
            let e = choose|e: Edge|
                reaches(MachineKind::Ivb, g, tm, zm, (e, v, WalkStatus::PdBlocked));
            let p = choose|p: Seq<Trip>|
                is_walk(MachineKind::Ivb, g, tm, zm, p) && p.last() == (
                    e,
                    v,
                    WalkStatus::PdBlocked,
                );
            lemma_walk_ivb_to_cond(g, tm, zm, p);
            let sc = choose|sc: WalkStatus|
                is_cond_status(sc) && cond_to_ivb(sc) == WalkStatus::PdBlocked && reaches(
                    MachineKind::Cond,
                    g,
                    tm,
                    zm,
                    (e, v, sc),
                );
            assert(sc == WalkStatus::PdBlockedAm || sc == WalkStatus::PdBlockedNam);
            assert(in_nva(g, tm, zm, v));
        } else {
            let e = choose|e: Edge|
                reaches(MachineKind::Ivb, g, tm, zm, (e, v, WalkStatus::NonCausalOpen));
            let p = choose|p: Seq<Trip>|
                is_walk(MachineKind::Ivb, g, tm, zm, p) && p.last() == (
                    e,
                    v,
                    WalkStatus::NonCausalOpen,
                );
            lemma_walk_ivb_to_cond(g, tm, zm, p);
            let sc = choose|sc: WalkStatus|
                is_cond_status(sc) && cond_to_ivb(sc) == WalkStatus::NonCausalOpen && reaches(
                    MachineKind::Cond,
                    g,
                    tm,
                    zm,
                    (e, v, sc),
                );
            assert(sc == WalkStatus::NonCausalOpen);
            assert(in_nva(g, tm, zm, v));
        }
    }
    if in_nam(g, tm, v) {
        lemma_nam_subset_nva(g, tm, zm, v);
    }
}

/// Computes, for a treatment set `t`, the descendants D, possible
/// descendants PD, and non-amenable targets NAM, each as a membership mask.
pub fn get_d_pd_nam(g: &PDAG, t: &[usize]) -> (r: (Vec<bool>, Vec<bool>, Vec<bool>))
    requires
        g.wf(),
        forall|k: int| 0 <= k < t@.len() ==> (#[trigger] t@[k]) < g.n_nodes,
    ensures
        r.0@.len() == g.n(),
        r.1@.len() == g.n(),
        r.2@.len() == g.n(),
        forall|v: int| 0 <= v < g.n() ==> r.0@[v] == in_d(g, tmask_of(t@, g.n()), v),
        forall|v: int| 0 <= v < g.n() ==> r.1@[v] == in_pd(g, tmask_of(t@, g.n()), v),
        forall|v: int| 0 <= v < g.n() ==> r.2@[v] == in_nam(g, tmask_of(t@, g.n()), v),
{
    let n = g.n_nodes;
    let tmask = mask_from_list(n, t);
    let ghost tm = tmask_of(t@, g.n());
    proof {
        assert(tmask@ =~= tm);
    }
    let zdummy: Vec<bool> = Vec::new();
    proof {
        assert(zdummy@ =~= Seq::<bool>::empty());
    }
    let marks = search(g, &tmask, &zdummy, MachineKind::DPdNam);
    let mut d: Vec<bool> = Vec::new();
    let mut pd: Vec<bool> = Vec::new();
    let mut nam: Vec<bool> = Vec::new();
    let mut v: usize = 0;
    while v < n
        invariant
            g.wf(),
            n == g.n_nodes,
            v <= n,
            tmask@ == tm,
            tm.len() == g.n(),
            marks.wf(g.n()),
            marks.rows@.len() == g.n(),
            forall|a: Trip|
                marks.marked(a) <==> reaches(MachineKind::DPdNam, g, tm, Seq::empty(), a),
            d@.len() == v,
            pd@.len() == v,
            nam@.len() == v,
            forall|w: int| 0 <= w < v ==> d@[w] == in_d(g, tm, w),
            forall|w: int| 0 <= w < v ==> pd@[w] == in_pd(g, tm, w),
            forall|w: int| 0 <= w < v ==> nam@[w] == in_nam(g, tm, w),
        decreases n - v,
    {
        let dirany = status_any(&marks, v, WalkStatus::Dir);
        let am = status_any(&marks, v, WalkStatus::PdAm);
        let nm = status_any(&marks, v, WalkStatus::PdNam);
        d.push(tmask[v] || dirany);
        pd.push(tmask[v] || dirany || am || nm);
        nam.push(nm);
        proof {
            let vi = v as int;
            let ghost ze = Seq::<bool>::empty();
            assert((tmask@[vi] || dirany) == in_d(g, tm, vi)) by {
                if dirany {
                    let e = choose|e: Edge| marks.marked((e, vi, WalkStatus::Dir));
                    assert(reaches(MachineKind::DPdNam, g, tm, ze, (e, vi, WalkStatus::Dir)));
                }
                if !(tmask@[vi] || dirany) && in_d(g, tm, vi) {
                    let e = choose|e: Edge|
                        reaches(MachineKind::DPdNam, g, tm, ze, (e, vi, WalkStatus::Dir));
                    assert(marks.marked((e, vi, WalkStatus::Dir)));
                }
            }
            // descendant-machine statuses carry over to the merged machine
            if dirany {
                let e = choose|e: Edge| marks.marked((e, vi, WalkStatus::Dir));
                let p = choose|p: Seq<Trip>|
                    is_walk(MachineKind::DPdNam, g, tm, ze, p) && p.last() == (
                        e,
                        vi,
                        WalkStatus::Dir,
                    );
                lemma_walk_dpdnam_to_pdnam(g, tm, ze, p);
            }
            if am {
                let e = choose|e: Edge| marks.marked((e, vi, WalkStatus::PdAm));
                let p = choose|p: Seq<Trip>|
                    is_walk(MachineKind::DPdNam, g, tm, ze, p) && p.last() == (
                        e,
                        vi,
                        WalkStatus::PdAm,
                    );
                lemma_walk_dpdnam_to_pdnam(g, tm, ze, p);
            }
            if nm {
                let e = choose|e: Edge| marks.marked((e, vi, WalkStatus::PdNam));
                let p = choose|p: Seq<Trip>|
                    is_walk(MachineKind::DPdNam, g, tm, ze, p) && p.last() == (
                        e,
                        vi,
                        WalkStatus::PdNam,
                    );
                lemma_walk_dpdnam_to_pdnam(g, tm, ze, p);
            }
            // and back
            if exists|e: Edge| reaches(MachineKind::PdNam, g, tm, ze, (e, vi, WalkStatus::PdAm)) {
                let e = choose|e: Edge|
                    reaches(MachineKind::PdNam, g, tm, ze, (e, vi, WalkStatus::PdAm));
                let p = choose|p: Seq<Trip>|
                    is_walk(MachineKind::PdNam, g, tm, ze, p) && p.last() == (
                        e,
                        vi,
                        WalkStatus::PdAm,
                    );
                lemma_walk_pdnam_to_dpdnam(g, tm, ze, p);
                let sa = choose|sa: WalkStatus|
                    dstat_to_pd(sa) == WalkStatus::PdAm && reaches(
                        MachineKind::DPdNam,
                        g,
                        tm,
                        ze,
                        (e, vi, sa),
                    );
                assert(sa == WalkStatus::Dir || sa == WalkStatus::PdAm);
                assert(marks.marked((e, vi, sa)));
            }
            if exists|e: Edge| reaches(MachineKind::PdNam, g, tm, ze, (e, vi, WalkStatus::PdNam)) {
                let e = choose|e: Edge|
                    reaches(MachineKind::PdNam, g, tm, ze, (e, vi, WalkStatus::PdNam));
                let p = choose|p: Seq<Trip>|
                    is_walk(MachineKind::PdNam, g, tm, ze, p) && p.last() == (
                        e,
                        vi,
                        WalkStatus::PdNam,
                    );
                lemma_walk_pdnam_to_dpdnam(g, tm, ze, p);
                let sa = choose|sa: WalkStatus|
                    dstat_to_pd(sa) == WalkStatus::PdNam && reaches(
                        MachineKind::DPdNam,
                        g,
                        tm,
                        ze,
                        (e, vi, sa),
                    );
                assert(sa == WalkStatus::PdNam);
                assert(marks.marked((e, vi, sa)));
            }
            assert((tmask@[vi] || dirany || am || nm) == in_pd(g, tm, vi));
            assert(nm == in_nam(g, tm, vi));
        }
        v += 1;
    }
    (d, pd, nam)
}

/// Computes, for a treatment set `t` and an adjustment-set mask `zmask`, the
/// possible descendants PD, the non-amenable targets NAM, and the not validly
/// adjusted targets NVA, each as a membership mask.
pub fn get_pd_nam_nva(g: &PDAG, t: &[usize], zmask: &Vec<bool>) -> (r: (
    Vec<bool>,
    Vec<bool>,
    Vec<bool>,
))
    requires
        g.wf(),
        forall|k: int| 0 <= k < t@.len() ==> (#[trigger] t@[k]) < g.n_nodes,
        zmask@.len() == g.n(),
    ensures
        r.0@.len() == g.n(),
        r.1@.len() == g.n(),
        r.2@.len() == g.n(),
        forall|v: int| 0 <= v < g.n() ==> r.0@[v] == in_pd(g, tmask_of(t@, g.n()), v),
        forall|v: int| 0 <= v < g.n() ==> r.1@[v] == in_nam(g, tmask_of(t@, g.n()), v),
        forall|v: int| 0 <= v < g.n() ==> r.2@[v] == in_nva(g, tmask_of(t@, g.n()), zmask@, v),
{
    let n = g.n_nodes;
    let tmask = mask_from_list(n, t);
    let ghost tm = tmask_of(t@, g.n());
    let ghost zm = zmask@;
    proof {
        assert(tmask@ =~= tm);
    }
    let marks = search(g, &tmask, zmask, MachineKind::Cond);
    let mut pd: Vec<bool> = Vec::new();
    let mut nam: Vec<bool> = Vec::new();
    let mut nva: Vec<bool> = Vec::new();
    let mut v: usize = 0;
    while v < n
        invariant
            g.wf(),
            n == g.n_nodes,
            v <= n,
            tmask@ == tm,
            zmask@ == zm,
            tm.len() == g.n(),
            zm.len() == g.n(),
            marks.wf(g.n()),
            marks.rows@.len() == g.n(),
            forall|a: Trip| marks.marked(a) <==> reaches(MachineKind::Cond, g, tm, zm, a),
            pd@.len() == v,
            nam@.len() == v,
            nva@.len() == v,
            forall|w: int| 0 <= w < v ==> pd@[w] == in_pd(g, tm, w),
            forall|w: int| 0 <= w < v ==> nam@[w] == in_nam(g, tm, w),
            forall|w: int| 0 <= w < v ==> nva@[w] == in_nva(g, tm, zm, w),
        decreases n - v,
    {
        let oam = status_any(&marks, v, WalkStatus::PdOpenAm);
        let bam = status_any(&marks, v, WalkStatus::PdBlockedAm);
        let onm = status_any(&marks, v, WalkStatus::PdOpenNam);
        let bnm = status_any(&marks, v, WalkStatus::PdBlockedNam);
        let nc = status_any(&marks, v, WalkStatus::NonCausalOpen);
        pd.push(tmask[v] || oam || bam || onm || bnm);
        nam.push(onm || bnm);
        nva.push(zmask[v] || onm || bnm || bam || nc);
        proof {
            let vi = v as int;
            let ghost ze = Seq::<bool>::empty();
            // conditioned possibly-directed statuses carry over to the
            // unconditioned machine
            if oam {
                let e = choose|e: Edge| marks.marked((e, vi, WalkStatus::PdOpenAm));
                let p = choose|p: Seq<Trip>|
                    is_walk(MachineKind::Cond, g, tm, zm, p) && p.last() == (
                        e,
                        vi,
                        WalkStatus::PdOpenAm,
                    );
                lemma_walk_cond_to_pdnam(g, tm, zm, p);
                lemma_uncond_zm_irrelevant(
                    MachineKind::PdNam,
                    g,
                    tm,
                    zm,
                    ze,
                    (e, vi, WalkStatus::PdAm),
                );
            }
            if bam {
                let e = choose|e: Edge| marks.marked((e, vi, WalkStatus::PdBlockedAm));
                let p = choose|p: Seq<Trip>|
                    is_walk(MachineKind::Cond, g, tm, zm, p) && p.last() == (
                        e,
                        vi,
                        WalkStatus::PdBlockedAm,
                    );
                lemma_walk_cond_to_pdnam(g, tm, zm, p);
                lemma_uncond_zm_irrelevant(
                    MachineKind::PdNam,
                    g,
                    tm,
                    zm,
                    ze,
                    (e, vi, WalkStatus::PdAm),
                );
            }
            if onm {
                let e = choose|e: Edge| marks.marked((e, vi, WalkStatus::PdOpenNam));
                let p = choose|p: Seq<Trip>|
                    is_walk(MachineKind::Cond, g, tm, zm, p) && p.last() == (
                        e,
                        vi,
                        WalkStatus::PdOpenNam,
                    );
                lemma_walk_cond_to_pdnam(g, tm, zm, p);
                lemma_uncond_zm_irrelevant(
                    MachineKind::PdNam,
                    g,
                    tm,
                    zm,
                    ze,
                    (e, vi, WalkStatus::PdNam),
                );
            }
            if bnm {
                let e = choose|e: Edge| marks.marked((e, vi, WalkStatus::PdBlockedNam));
                let p = choose|p: Seq<Trip>|
                    is_walk(MachineKind::Cond, g, tm, zm, p) && p.last() == (
                        e,
                        vi,
                        WalkStatus::PdBlockedNam,
                    );
                lemma_walk_cond_to_pdnam(g, tm, zm, p);
                lemma_uncond_zm_irrelevant(
                    MachineKind::PdNam,
                    g,
                    tm,
                    zm,
                    ze,
                    (e, vi, WalkStatus::PdNam),
                );
            }
            // and back
            if exists|e: Edge| reaches(MachineKind::PdNam, g, tm, ze, (e, vi, WalkStatus::PdAm)) {
                let e = choose|e: Edge|
                    reaches(MachineKind::PdNam, g, tm, ze, (e, vi, WalkStatus::PdAm));
                lemma_uncond_zm_irrelevant(
                    MachineKind::PdNam,
                    g,
                    tm,
                    ze,
                    zm,
                    (e, vi, WalkStatus::PdAm),
                );
                let p = choose|p: Seq<Trip>|
                    is_walk(MachineKind::PdNam, g, tm, zm, p) && p.last() == (
                        e,
                        vi,
                        WalkStatus::PdAm,
                    );
                lemma_walk_pdnam_to_cond(g, tm, zm, p);
                let sc = choose|sc: WalkStatus|
                    is_pd_cond_status(sc) && cond_to_pd(sc) == WalkStatus::PdAm && reaches(
                        MachineKind::Cond,
                        g,
                        tm,
                        zm,
                        (e, vi, sc),
                    );
                assert(sc == WalkStatus::PdOpenAm || sc == WalkStatus::PdBlockedAm);
                assert(marks.marked((e, vi, sc)));
            }
            if exists|e: Edge| reaches(MachineKind::PdNam, g, tm, ze, (e, vi, WalkStatus::PdNam)) {
                let e = choose|e: Edge|
                    reaches(MachineKind::PdNam, g, tm, ze, (e, vi, WalkStatus::PdNam));
                lemma_uncond_zm_irrelevant(
                    MachineKind::PdNam,
                    g,
                    tm,
                    ze,
                    zm,
                    (e, vi, WalkStatus::PdNam),
                );
                let p = choose|p: Seq<Trip>|
                    is_walk(MachineKind::PdNam, g, tm, zm, p) && p.last() == (
                        e,
                        vi,
                        WalkStatus::PdNam,
                    );
                lemma_walk_pdnam_to_cond(g, tm, zm, p);
                let sc = choose|sc: WalkStatus|
                    is_pd_cond_status(sc) && cond_to_pd(sc) == WalkStatus::PdNam && reaches(
                        MachineKind::Cond,
                        g,
                        tm,
                        zm,
                        (e, vi, sc),
                    );
                assert(sc == WalkStatus::PdOpenNam || sc == WalkStatus::PdBlockedNam);
                assert(marks.marked((e, vi, sc)));
            }
            assert((tmask@[vi] || oam || bam || onm || bnm) == in_pd(g, tm, vi));
            assert((onm || bnm) == in_nam(g, tm, vi));
            assert((zmask@[vi] || onm || bnm || bam || nc) == in_nva(g, tm, zm, vi)) by {
                if onm {
                    let e = choose|e: Edge| marks.marked((e, vi, WalkStatus::PdOpenNam));
                    assert(reaches(MachineKind::Cond, g, tm, zm, (e, vi, WalkStatus::PdOpenNam)));
                }
                if bnm {
                    let e = choose|e: Edge| marks.marked((e, vi, WalkStatus::PdBlockedNam));
                    assert(reaches(
                        MachineKind::Cond,
                        g,
                        tm,
                        zm,
                        (e, vi, WalkStatus::PdBlockedNam),
                    ));
                }
                if bam {
                    let e = choose|e: Edge| marks.marked((e, vi, WalkStatus::PdBlockedAm));
                    assert(reaches(
                        MachineKind::Cond,
                        g,
                        tm,
                        zm,
                        (e, vi, WalkStatus::PdBlockedAm),
                    ));
                }
                if nc {
                    let e = choose|e: Edge| marks.marked((e, vi, WalkStatus::NonCausalOpen));
                    assert(reaches(
                        MachineKind::Cond,
                        g,
                        tm,
                        zm,
                        (e, vi, WalkStatus::NonCausalOpen),
                    ));
                }
                if !(zmask@[vi] || onm || bnm || bam || nc) && in_nva(g, tm, zm, vi) {
                    if exists|e: Edge|
                        reaches(MachineKind::Cond, g, tm, zm, (e, vi, WalkStatus::PdOpenNam)) {
                        let e = choose|e: Edge|
                            reaches(MachineKind::Cond, g, tm, zm, (e, vi, WalkStatus::PdOpenNam));
                        assert(marks.marked((e, vi, WalkStatus::PdOpenNam)));
                    } else if exists|e: Edge|
                        reaches(MachineKind::Cond, g, tm, zm, (e, vi, WalkStatus::PdBlockedNam)) {
                        let e = choose|e: Edge|
                            reaches(
                                MachineKind::Cond,
                                g,
                                tm,
                                zm,
                                (e, vi, WalkStatus::PdBlockedNam),
                            );
                        assert(marks.marked((e, vi, WalkStatus::PdBlockedNam)));
                    } else if exists|e: Edge|
                        reaches(MachineKind::Cond, g, tm, zm, (e, vi, WalkStatus::PdBlockedAm)) {
                        let e = choose|e: Edge|
                            reaches(
                                MachineKind::Cond,
                                g,
                                tm,
                                zm,
                                (e, vi, WalkStatus::PdBlockedAm),
                            );
                        assert(marks.marked((e, vi, WalkStatus::PdBlockedAm)));
                    } else {
                        let e = choose|e: Edge|
                            reaches(
                                MachineKind::Cond,
                                g,
                                tm,
                                zm,
                                (e, vi, WalkStatus::NonCausalOpen),
                            );
                        assert(marks.marked((e, vi, WalkStatus::NonCausalOpen)));
                    }
                }
            }
        }
        v += 1;
    }
    (pd, nam, nva)
}

/// Computes, for a treatment set `t` and an adjustment-set mask `zmask`, the
/// non-amenable targets NAM and the not validly adjusted targets NVA, each as
/// a membership mask.
pub fn get_nam_nva(g: &PDAG, t: &[usize], zmask: &Vec<bool>) -> (r: (Vec<bool>, Vec<bool>))
    requires
        g.wf(),
        forall|k: int| 0 <= k < t@.len() ==> (#[trigger] t@[k]) < g.n_nodes,
        zmask@.len() == g.n(),
    ensures
        r.0@.len() == g.n(),
        r.1@.len() == g.n(),
        forall|v: int| 0 <= v < g.n() ==> r.0@[v] == in_nam(g, tmask_of(t@, g.n()), v),
        forall|v: int| 0 <= v < g.n() ==> r.1@[v] == in_nva(g, tmask_of(t@, g.n()), zmask@, v),
{
    let (_, nam, nva) = get_pd_nam_nva(g, t, zmask);
    (nam, nva)
}

/// Computes, for a treatment set `t` and an adjustment-set mask `zmask`, the
/// targets reached by an invalidly (un)blocked walk (IVB), as a membership
/// mask; amenability is not checked here.
pub fn get_invalidly_un_blocked(g: &PDAG, t: &[usize], zmask: &Vec<bool>) -> (r: Vec<bool>)
    requires
        g.wf(),
        forall|k: int| 0 <= k < t@.len() ==> (#[trigger] t@[k]) < g.n_nodes,
        zmask@.len() == g.n(),
    ensures
        r@.len() == g.n(),
        forall|v: int| 0 <= v < g.n() ==> r@[v] == in_ivb(g, tmask_of(t@, g.n()), zmask@, v),
{
    let n = g.n_nodes;
    let tmask = mask_from_list(n, t);
    let ghost tm = tmask_of(t@, g.n());
    let ghost zm = zmask@;
    proof {
        assert(tmask@ =~= tm);
    }
    let marks = search(g, &tmask, zmask, MachineKind::Ivb);
    let mut ivb: Vec<bool> = Vec::new();
    let mut v: usize = 0;
    while v < n
        invariant
            g.wf(),
            n == g.n_nodes,
            v <= n,
            tmask@ == tm,
            zmask@ == zm,
            tm.len() == g.n(),
            zm.len() == g.n(),
            marks.wf(g.n()),
            marks.rows@.len() == g.n(),
            forall|a: Trip| marks.marked(a) <==> reaches(MachineKind::Ivb, g, tm, zm, a),
            ivb@.len() == v,
            forall|w: int| 0 <= w < v ==> ivb@[w] == in_ivb(g, tm, zm, w),
        decreases n - v,
    {
        let blocked = status_any(&marks, v, WalkStatus::PdBlocked);
        let nc = status_any(&marks, v, WalkStatus::NonCausalOpen);
        ivb.push(zmask[v] || blocked || nc);
        proof {
            let vi = v as int;
            assert((zmask@[vi] || blocked || nc) == in_ivb(g, tm, zm, vi)) by {
                if !(zmask@[vi] || blocked || nc) && in_ivb(g, tm, zm, vi) {
                    if exists|e: Edge|
                        reaches(MachineKind::Ivb, g, tm, zm, (e, vi, WalkStatus::PdBlocked)) {
                        let e = choose|e: Edge|
                            reaches(MachineKind::Ivb, g, tm, zm, (e, vi, WalkStatus::PdBlocked));
                        assert(marks.marked((e, vi, WalkStatus::PdBlocked)));
                    } else {
                        let e = choose|e: Edge|
                            reaches(
                                MachineKind::Ivb,
                                g,
                                tm,
                                zm,
                                (e, vi, WalkStatus::NonCausalOpen),
                            );
                        assert(marks.marked((e, vi, WalkStatus::NonCausalOpen)));
                    }
                }
                if blocked {
                    let e = choose|e: Edge| marks.marked((e, vi, WalkStatus::PdBlocked));
                    assert(reaches(MachineKind::Ivb, g, tm, zm, (e, vi, WalkStatus::PdBlocked)));
                }
                if nc {
                    let e = choose|e: Edge| marks.marked((e, vi, WalkStatus::NonCausalOpen));
                    assert(reaches(
                        MachineKind::Ivb,
                        g,
                        tm,
                        zm,
                        (e, vi, WalkStatus::NonCausalOpen),
                    ));
                }
            }
        }
        v += 1;
    }
    ivb
}

} // verus!

